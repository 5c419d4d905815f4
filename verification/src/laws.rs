//! What the operations do to the contents of the queue, and what follows for several of them in a
//! row.
use vstd::prelude::*;

verus! {

/// How many items a batch of at most `max` takes out of a queue of `len` items.
pub open spec fn batch_len(len: nat, max: nat) -> nat {
    if max <= len {
        max
    } else {
        len
    }
}

/// Taking one item turns the contents `before` into `after` and hands back `item`.
pub open spec fn dequeued<T>(before: Seq<T>, item: Option<T>, after: Seq<T>) -> bool {
    if before.len() == 0 {
        item is None && after == before
    } else {
        item == Some(before[0]) && after == before.skip(1)
    }
}

/// Taking a batch of at most `max` items turns the contents `before` into `after` and hands back
/// `results`: the items first, then `None` for each one that was not there.
pub open spec fn dequeued_batch<T>(
    before: Seq<T>,
    max: nat,
    results: Seq<Option<T>>,
    after: Seq<T>,
) -> bool {
    let num = batch_len(before.len(), max);
    &&& results.len() == max
    &&& after == before.skip(num as int)
    &&& forall|i: int| 0 <= i < num ==> #[trigger] results[i] == Some(before[i])
    &&& forall|i: int| num <= i < max ==> #[trigger] results[i] is None
}

/// The contents after `items` were added to `before` one by one.
pub open spec fn pushed<T>(before: Seq<T>, items: Seq<T>) -> Seq<T>
    decreases items.len(),
{
    if items.len() == 0 {
        before
    } else {
        pushed(before, items.drop_last()).push(items.last())
    }
}

/// What taking items one by one, `num` times, hands back.
pub open spec fn popped<T>(before: Seq<T>, num: nat) -> Seq<Option<T>>
    decreases num,
{
    if num == 0 {
        Seq::empty()
    } else if before.len() == 0 {
        seq![None::<T>] + popped(before, (num - 1) as nat)
    } else {
        seq![Some(before[0])] + popped(before.skip(1), (num - 1) as nat)
    }
}

/// The contents after items were taken one by one, `num` times.
pub open spec fn left_after<T>(before: Seq<T>, num: nat) -> Seq<T>
    decreases num,
{
    if num == 0 {
        before
    } else if before.len() == 0 {
        left_after(before, (num - 1) as nat)
    } else {
        left_after(before.skip(1), (num - 1) as nat)
    }
}

/// An item added to the queue waits behind all that were there: it comes out next only if there
/// were none, and otherwise the oldest item comes out and it stays last.
pub proof fn first_in_first_out<T>(before: Seq<T>, item: T, taken: Option<T>, after: Seq<T>)
    requires
        dequeued(before.push(item), taken, after),
    ensures
        before.len() == 0 ==> taken == Some(item) && after.len() == 0,
        before.len() > 0 ==> taken == Some(before[0]) && after == before.skip(1).push(item),
{
    if before.len() > 0 {
        assert(before.push(item).skip(1) =~= before.skip(1).push(item));
    }
}

/// Adding a batch leaves the queue as adding its items one by one does.
pub proof fn batch_in_like_singles<T>(before: Seq<T>, items: Seq<T>)
    ensures
        pushed(before, items) == before + items,
    decreases items.len(),
{
    if items.len() > 0 {
        batch_in_like_singles(before, items.drop_last());
        assert((before + items.drop_last()).push(items.last()) =~= before + items);
    } else {
        assert(before + items =~= before);
    }
}

/// Taking a batch hands back what taking items one by one does, and leaves the queue as it does.
pub proof fn batch_out_like_singles<T>(
    before: Seq<T>,
    max: nat,
    results: Seq<Option<T>>,
    after: Seq<T>,
)
    requires
        dequeued_batch(before, max, results, after),
    ensures
        results == popped(before, max),
        after == left_after(before, max),
    decreases max,
{
    if max == 0 {
        assert(results =~= popped(before, max));
        assert(after =~= before);
    } else if before.len() == 0 {
        batch_out_like_singles(before, (max - 1) as nat, results.skip(1), after);
        assert(results =~= seq![None::<T>] + results.skip(1));
    } else {
        let rest = before.skip(1);
        let num = batch_len(before.len(), max) as int;
        assert(after =~= rest.skip(num - 1));
        assert forall|i: int| 0 <= i < num - 1 implies #[trigger] results.skip(1)[i] == Some(
            rest[i],
        ) by {
            assert(results[i + 1] == Some(before[i + 1]));
        }
        assert forall|i: int| num - 1 <= i < max - 1 implies #[trigger] results.skip(
            1,
        )[i] is None by {
            assert(results[i + 1] is None);
        }
        batch_out_like_singles(rest, (max - 1) as nat, results.skip(1), after);
        assert(results[0] == Some(before[0]));
        assert(results =~= seq![Some(before[0])] + results.skip(1));
    }
}

/// What a batch brought into an empty queue, a batch that is large enough takes out again, in the
/// same order, and the queue is empty.
pub proof fn batch_round_trip<T>(items: Seq<T>, max: nat, results: Seq<Option<T>>, after: Seq<T>)
    requires
        dequeued_batch(Seq::<T>::empty() + items, max, results, after),
        items.len() <= max,
    ensures
        after.len() == 0,
        forall|i: int| 0 <= i < items.len() ==> #[trigger] results[i] == Some(items[i]),
        forall|i: int| items.len() <= i < max ==> #[trigger] results[i] is None,
{
    assert(Seq::<T>::empty() + items =~= items);
}

/// Taking a batch loses nothing and doubles nothing: the items handed back and those left are those
/// that were there, in their order.
pub proof fn batch_out_conserves<T>(
    before: Seq<T>,
    max: nat,
    results: Seq<Option<T>>,
    after: Seq<T>,
)
    requires
        dequeued_batch(before, max, results, after),
    ensures
        ({
            let num = batch_len(before.len(), max);
            Seq::new(num, |i: int| results[i]->0) + after == before
        }),
{
    let num = batch_len(before.len(), max);
    assert(Seq::new(num, |i: int| results[i]->0) + after =~= before);
}

/// On a queue that is not empty, it makes no difference whether an item is added before another one
/// is taken or after: the same item comes out and the same ones are left.
pub proof fn adding_and_taking_commute<T>(
    before: Seq<T>,
    item: T,
    taken: Option<T>,
    after: Seq<T>,
    taken_first: Option<T>,
    between: Seq<T>,
)
    requires
        before.len() > 0,
        dequeued(before.push(item), taken, after),
        dequeued(before, taken_first, between),
    ensures
        taken == taken_first,
        after == between.push(item),
{
    first_in_first_out(before, item, taken, after);
}

/// One call of an operation on a queue, with what it was given and what it handed back.
pub enum Call<T> {
    Enqueue { item: T },
    Dequeue { taken: Option<T> },
    EnqueueBatch { items: Seq<T> },
    DequeueBatch { max: nat, results: Seq<Option<T>> },
}

/// The items among `results`, in their order.
pub open spec fn items_among<T>(results: Seq<Option<T>>) -> Seq<T>
    decreases results.len(),
{
    if results.len() == 0 {
        Seq::empty()
    } else {
        let rest = items_among(results.drop_last());
        match results.last() {
            Some(item) => rest.push(item),
            None => rest,
        }
    }
}

impl<T> Call<T> {
    /// The call turns the contents `before` into `after`.
    pub open spec fn turns(self, before: Seq<T>, after: Seq<T>) -> bool {
        match self {
            Call::Enqueue { item } => after == before.push(item),
            Call::Dequeue { taken } => dequeued(before, taken, after),
            Call::EnqueueBatch { items } => after == before + items,
            Call::DequeueBatch { max, results } => dequeued_batch(before, max, results, after),
        }
    }

    /// The items that the call passes in.
    pub open spec fn brings(self) -> Seq<T> {
        match self {
            Call::Enqueue { item } => seq![item],
            Call::EnqueueBatch { items } => items,
            _ => Seq::empty(),
        }
    }

    /// The items that the call hands out.
    pub open spec fn hands_out(self) -> Seq<T> {
        match self {
            Call::Dequeue { taken } => items_among(seq![taken]),
            Call::DequeueBatch { max, results } => items_among(results),
            _ => Seq::empty(),
        }
    }

    /// The two calls ask for the same.
    pub open spec fn asks_like(self, other: Self) -> bool {
        match (self, other) {
            (Call::Enqueue { item: a }, Call::Enqueue { item: b }) => a == b,
            (Call::Dequeue { taken: a }, Call::Dequeue { taken: b }) => true,
            (Call::EnqueueBatch { items: a }, Call::EnqueueBatch { items: b }) => a == b,
            (
                Call::DequeueBatch { max: a, results: r },
                Call::DequeueBatch { max: b, results: q },
            ) => a == b,
            _ => false,
        }
    }

    /// What was in the queue and what the call passes in, put one behind the other, are what it
    /// hands out and what is in the queue afterwards.
    proof fn conserves(self, before: Seq<T>, after: Seq<T>)
        requires
            self.turns(before, after),
        ensures
            before + self.brings() == self.hands_out() + after,
    {
        match self {
            Call::Enqueue { item } => {
                assert(before + seq![item] =~= Seq::<T>::empty() + before.push(item));
            },
            Call::Dequeue { taken } => {
                assert(seq![taken].drop_last() =~= Seq::empty());
                reveal_with_fuel(items_among, 2);
                assert(before + Seq::<T>::empty() =~= self.hands_out() + after);
            },
            Call::EnqueueBatch { items } => {
                assert(before + items =~= Seq::<T>::empty() + after);
            },
            Call::DequeueBatch { max, results } => {
                let num = batch_len(before.len(), max) as int;
                batch_hands_out(before, num, results);
                assert(before + Seq::<T>::empty() =~= before.take(num) + before.skip(num));
            },
        }
    }

    /// What a call hands back and what it leaves in the queue is determined by what was in the
    /// queue and what the call asks for.
    pub proof fn determined(self, other: Self, before: Seq<T>, after: Seq<T>, other_after: Seq<T>)
        requires
            self.turns(before, after),
            other.turns(before, other_after),
            self.asks_like(other),
        ensures
            self == other,
            after == other_after,
    {
        match (self, other) {
            (
                Call::DequeueBatch { max: a, results: r },
                Call::DequeueBatch { max: b, results: q },
            ) => {
                assert forall|i: int| 0 <= i < r.len() implies r[i] == q[i] by {
                    if i < batch_len(before.len(), a) {
                        assert(r[i] == Some(before[i]) && q[i] == Some(before[i]));
                    } else {
                        assert(r[i] is None && q[i] is None);
                    }
                }
                assert(r =~= q);
            },
            _ => {},
        }
    }
}

/// Of results that are the first `num` entries of `before` and then `None`, the items are these
/// entries.
proof fn batch_hands_out<T>(before: Seq<T>, num: int, results: Seq<Option<T>>)
    requires
        0 <= num <= before.len(),
        num <= results.len(),
        forall|i: int| 0 <= i < num ==> #[trigger] results[i] == Some(before[i]),
        forall|i: int| num <= i < results.len() ==> #[trigger] results[i] is None,
    ensures
        items_among(results) == before.take(num),
    decreases results.len(),
{
    if results.len() == 0 {
        assert(before.take(num) =~= Seq::empty());
    } else if results.len() == num {
        assert(results[num - 1] == Some(before[num - 1]));
        batch_hands_out(before, num - 1, results.drop_last());
        assert(before.take(num - 1).push(before[num - 1]) =~= before.take(num));
    } else {
        assert(results[results.len() - 1] is None);
        batch_hands_out(before, num, results.drop_last());
    }
}

/// The calls, one after the other, turn each of the contents into the next.
pub open spec fn runs<T>(calls: Seq<Call<T>>, contents: Seq<Seq<T>>) -> bool {
    &&& contents.len() == calls.len() + 1
    &&& forall|k: int|
        0 <= k < calls.len() ==> (#[trigger] calls[k]).turns(contents[k], contents[k + 1])
}

/// All that the calls pass in, in their order.
pub open spec fn went_in<T>(calls: Seq<Call<T>>) -> Seq<T>
    decreases calls.len(),
{
    if calls.len() == 0 {
        Seq::empty()
    } else {
        went_in(calls.drop_last()) + calls.last().brings()
    }
}

/// All that the calls hand out, in their order.
pub open spec fn came_out<T>(calls: Seq<Call<T>>) -> Seq<T>
    decreases calls.len(),
{
    if calls.len() == 0 {
        Seq::empty()
    } else {
        came_out(calls.drop_last()) + calls.last().hands_out()
    }
}

/// The calls but the last are a run too.
proof fn all_but_last<T>(calls: Seq<Call<T>>, contents: Seq<Seq<T>>)
    requires
        runs(calls, contents),
        calls.len() > 0,
    ensures
        runs(calls.drop_last(), contents.drop_last()),
        contents.drop_last()[0] == contents[0],
        contents.drop_last().last() == contents[calls.len() - 1],
        calls.last().turns(contents[calls.len() - 1], contents.last()),
{
    let most = calls.drop_last();
    assert forall|k: int| 0 <= k < most.len() implies (#[trigger] most[k]).turns(
        contents.drop_last()[k],
        contents.drop_last()[k + 1],
    ) by {
        assert(calls[k].turns(contents[k], contents[k + 1]));
    }
    assert(calls[calls.len() - 1].turns(contents[calls.len() - 1], contents[calls.len() as int]));
}

/// Whatever is called on a queue, nothing is lost, doubled or made up, and the order is kept: what
/// was in it and what went in are what came out and what is left. On a queue that was empty at
/// first, what came out is the first part of what went in, and the rest is still there.
pub proof fn nothing_is_lost<T>(calls: Seq<Call<T>>, contents: Seq<Seq<T>>)
    requires
        runs(calls, contents),
    ensures
        contents[0] + went_in(calls) == came_out(calls) + contents.last(),
        contents[0].len() == 0 ==> went_in(calls) == came_out(calls) + contents.last(),
    decreases calls.len(),
{
    let start = contents[0];
    if calls.len() == 0 {
        assert(start + went_in(calls) =~= came_out(calls) + start);
    } else {
        all_but_last(calls, contents);
        let call = calls.last();
        let between = contents[calls.len() - 1];
        let ins = went_in(calls.drop_last());
        let outs = came_out(calls.drop_last());
        nothing_is_lost(calls.drop_last(), contents.drop_last());
        call.conserves(between, contents.last());
        assert(start + went_in(calls) =~= (start + ins) + call.brings());
        assert((outs + between) + call.brings() =~= outs + (between + call.brings()));
        assert(outs + (call.hands_out() + contents.last()) =~= came_out(calls) + contents.last());
    }
    if start.len() == 0 {
        assert(start + went_in(calls) =~= went_in(calls));
    }
}

/// Adding the items one by one, call by call, brings the queue to what it held and the items.
proof fn after_adding<T>(calls: Seq<Call<T>>, contents: Seq<Seq<T>>, items: Seq<T>, k: int)
    requires
        runs(calls, contents),
        0 <= k <= items.len() <= calls.len(),
        forall|i: int| 0 <= i < items.len() ==> #[trigger] calls[i] == (Call::Enqueue {
            item: items[i],
        }),
    ensures
        contents[k] == contents[0] + items.take(k),
    decreases k,
{
    if k == 0 {
        assert(contents[0] + items.take(0) =~= contents[0]);
    } else {
        after_adding(calls, contents, items, k - 1);
        assert(calls[k - 1].turns(contents[k - 1], contents[k - 1 + 1]));
        assert((contents[0] + items.take(k - 1)).push(items[k - 1]) =~= contents[0] + items.take(k));
    }
}

/// Adding a batch by one call leaves the queue as adding its items by single calls does.
pub proof fn batch_call_like_single_calls<T>(
    calls: Seq<Call<T>>,
    contents: Seq<Seq<T>>,
    items: Seq<T>,
    after: Seq<T>,
)
    requires
        runs(calls, contents),
        calls.len() == items.len(),
        forall|i: int| 0 <= i < items.len() ==> #[trigger] calls[i] == (Call::Enqueue {
            item: items[i],
        }),
        (Call::EnqueueBatch { items }).turns(contents[0], after),
    ensures
        contents.last() == after,
{
    after_adding(calls, contents, items, items.len() as int);
    assert(items.take(items.len() as int) =~= items);
}

/// Cutting a batch in two on its way in, at any point, makes no difference.
pub proof fn batch_cut_in_two<T>(
    before: Seq<T>,
    front: Seq<T>,
    back: Seq<T>,
    between: Seq<T>,
    after: Seq<T>,
    after_whole: Seq<T>,
)
    requires
        (Call::EnqueueBatch { items: front }).turns(before, between),
        (Call::EnqueueBatch { items: back }).turns(between, after),
        (Call::EnqueueBatch { items: front + back }).turns(before, after_whole),
    ensures
        after == after_whole,
{
    assert((before + front) + back =~= before + (front + back));
}

/// The items that were added to an empty queue one by one come out of it one by one in the same
/// order, and one more call finds nothing.
pub proof fn singles_round_trip<T>(calls: Seq<Call<T>>, contents: Seq<Seq<T>>, items: Seq<T>)
    requires
        runs(calls, contents),
        contents[0].len() == 0,
        calls.len() == 2 * items.len() + 1,
        forall|i: int| 0 <= i < items.len() ==> #[trigger] calls[i] == (Call::Enqueue {
            item: items[i],
        }),
        forall|i: int| items.len() <= i < calls.len() ==> (#[trigger] calls[i]) is Dequeue,
    ensures
        forall|i: int|
            items.len() <= i < 2 * items.len() ==> #[trigger] calls[i] == (Call::Dequeue {
                taken: Some(items[i - items.len()]),
            }),
        calls.last() == (Call::Dequeue { taken: None::<T> }),
        contents.last().len() == 0,
{
    let n = items.len() as int;
    after_adding(calls, contents, items, n);
    assert(contents[n] =~= items.skip(0));
    assert forall|i: int| n <= i < 2 * n implies #[trigger] calls[i] == (Call::Dequeue {
        taken: Some(items[i - n]),
    }) by {
        after_taking(calls, contents, items, i - n);
        assert(calls[i].turns(contents[i], contents[i + 1]));
    }
    after_taking(calls, contents, items, n);
    assert(calls[2 * n].turns(contents[2 * n], contents[2 * n + 1]));
}

/// Taking one by one, call by call, leaves the items from the next one on.
proof fn after_taking<T>(calls: Seq<Call<T>>, contents: Seq<Seq<T>>, items: Seq<T>, k: int)
    requires
        runs(calls, contents),
        calls.len() == 2 * items.len() + 1,
        contents[items.len() as int] == items.skip(0),
        forall|i: int| items.len() <= i < calls.len() ==> (#[trigger] calls[i]) is Dequeue,
        0 <= k <= items.len(),
    ensures
        contents[items.len() + k] == items.skip(k),
    decreases k,
{
    if k > 0 {
        let i = items.len() + k - 1;
        after_taking(calls, contents, items, k - 1);
        assert(calls[i].turns(contents[i], contents[i + 1]));
        assert(calls[i] is Dequeue);
        assert(items.skip(k - 1).skip(1) =~= items.skip(k));
    }
}

/// What the calls hand back and leave behind is determined by what was in the queue at first and
/// what the calls ask for.
pub proof fn same_calls_same_results<T>(
    calls: Seq<Call<T>>,
    contents: Seq<Seq<T>>,
    others: Seq<Call<T>>,
    other_contents: Seq<Seq<T>>,
)
    requires
        runs(calls, contents),
        runs(others, other_contents),
        contents[0] == other_contents[0],
        calls.len() == others.len(),
        forall|k: int| 0 <= k < calls.len() ==> (#[trigger] calls[k]).asks_like(others[k]),
    ensures
        calls == others,
        contents.last() == other_contents.last(),
    decreases calls.len(),
{
    if calls.len() > 0 {
        let n = calls.len() - 1;
        all_but_last(calls, contents);
        all_but_last(others, other_contents);
        assert forall|k: int| 0 <= k < n implies (#[trigger] calls.drop_last()[k]).asks_like(
            others.drop_last()[k],
        ) by {
            assert(calls[k].asks_like(others[k]));
        }
        same_calls_same_results(
            calls.drop_last(),
            contents.drop_last(),
            others.drop_last(),
            other_contents.drop_last(),
        );
        assert(calls[n].asks_like(others[n]));
        calls.last().determined(
            others.last(),
            contents[n],
            contents.last(),
            other_contents.last(),
        );
        assert(calls =~= calls.drop_last().push(calls.last()));
        assert(others =~= others.drop_last().push(others.last()));
    } else {
        assert(calls =~= others);
    }
}

/// Calls on any number of queues, one after the other: each call, with the number of its queue,
/// turns the contents of that queue into what they are next, and leaves the other queues.
pub open spec fn runs_on_many<T>(
    steps: Seq<(int, Call<T>)>,
    contents: Seq<Seq<Seq<T>>>,
) -> bool {
    &&& contents.len() == steps.len() + 1
    &&& forall|k: int|
        0 <= k < steps.len() ==> {
            let queue = (#[trigger] steps[k]).0;
            &&& 0 <= queue < contents[k].len()
            &&& steps[k].1.turns(contents[k][queue], contents[k + 1][queue])
            &&& contents[k + 1] == contents[k].update(queue, contents[k + 1][queue])
        }
}

/// The calls on the queue `queue`.
pub open spec fn calls_on<T>(steps: Seq<(int, Call<T>)>, queue: int) -> Seq<Call<T>>
    decreases steps.len(),
{
    if steps.len() == 0 {
        Seq::empty()
    } else if steps.last().0 == queue {
        calls_on(steps.drop_last(), queue).push(steps.last().1)
    } else {
        calls_on(steps.drop_last(), queue)
    }
}

/// Queues have nothing to do with each other: the calls on one of them are a run on that queue
/// alone, from what it held at first to what it holds at last, whatever is called on the others.
pub proof fn queues_are_independent<T>(
    steps: Seq<(int, Call<T>)>,
    contents: Seq<Seq<Seq<T>>>,
    queue: int,
) -> (own: Seq<Seq<T>>)
    requires
        runs_on_many(steps, contents),
        0 <= queue < contents[0].len(),
    ensures
        runs(calls_on(steps, queue), own),
        own[0] == contents[0][queue],
        own.last() == contents.last()[queue],
        calls_on(steps, queue).len() == 0 ==> contents.last()[queue] == contents[0][queue],
        contents.last().len() == contents[0].len(),
    decreases steps.len(),
{
    if steps.len() == 0 {
        seq![contents[0][queue]]
    } else {
        let n = steps.len() - 1;
        let before = steps.drop_last();
        assert forall|k: int| 0 <= k < before.len() implies {
            let q = (#[trigger] before[k]).0;
            &&& 0 <= q < contents.drop_last()[k].len()
            &&& before[k].1.turns(contents.drop_last()[k][q], contents.drop_last()[k + 1][q])
            &&& contents.drop_last()[k + 1] == contents.drop_last()[k].update(
                q,
                contents.drop_last()[k + 1][q],
            )
        } by {
            assert(before[k] == steps[k]);
        }
        let own = queues_are_independent(before, contents.drop_last(), queue);
        assert(steps[n] == steps.last());
        assert(contents[n + 1] == contents[n].update(steps[n].0, contents[n + 1][steps[n].0]));
        if steps.last().0 == queue {
            let own1 = own.push(contents.last()[queue]);
            let calls = calls_on(before, queue);
            let calls1 = calls_on(steps, queue);
            assert forall|k: int| 0 <= k < calls1.len() implies (#[trigger] calls1[k]).turns(
                own1[k],
                own1[k + 1],
            ) by {
                if k < calls.len() {
                    assert(calls[k].turns(own[k], own[k + 1]));
                }
            }
            own1
        } else {
            own
        }
    }
}

} // verus!
