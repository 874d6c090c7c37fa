use vstd::prelude::*;

use crate::last_boolean::closes;
use crate::sliding_last::{
    slide_emitted, slide_step, sliding_outputs, sliding_slots, slot_closed, slot_updated,
};
use crate::two_stacks::{aggregate_of, lemma_aggregate_concat, lemma_aggregate_one, newer_of};

verus! {

/// The latest value of entity `e` among the rows up to `r`, read back from
/// behind row `r` through at most `budget` slots: each row of `e` that
/// closed its slot stands at the end of an older slot, and beyond the last
/// slot nothing is read.
pub open spec fn read_back(
    keys: Seq<u32>,
    input: Seq<Option<bool>>,
    ticks: Seq<Option<bool>>,
    e: int,
    r: int,
    budget: int,
) -> Option<bool>
    decreases r + 1,
{
    if r < 0 {
        None
    } else if keys[r] != e {
        read_back(keys, input, ticks, e, r - 1, budget)
    } else {
        let left = if closes(ticks[r]) {
            budget - 1
        } else {
            budget
        };
        if left <= 0 {
            None
        } else if input[r] is Some {
            input[r]
        } else {
            read_back(keys, input, ticks, e, r - 1, left)
        }
    }
}

/// The value of `last` at row `i` over a sliding window of `duration` slots,
/// computed anew from the rows: the row's own value, or else the latest
/// value of its entity within the window.
pub open spec fn naive_last(
    keys: Seq<u32>,
    input: Seq<Option<bool>>,
    ticks: Seq<Option<bool>>,
    duration: nat,
    i: int,
) -> Option<bool> {
    if input[i] is Some {
        input[i]
    } else {
        read_back(keys, input, ticks, keys[i] as int, i - 1, duration as int)
    }
}

/// The aggregate of the last `count` slots.
pub open spec fn aggregate_of_last(slots: Seq<Option<bool>>, count: int) -> Option<bool> {
    if count >= slots.len() {
        aggregate_of(slots)
    } else {
        aggregate_of(slots.subrange(slots.len() - count, slots.len() as int))
    }
}

proof fn lemma_aggregate_push(slots: Seq<Option<bool>>, part: Option<bool>)
    ensures
        aggregate_of(slots.push(part)) == newer_of(aggregate_of(slots), part),
{
    assert(slots.push(part).drop_last() =~= slots);
}

proof fn lemma_updated_last(slots: Seq<Option<bool>>, input: Option<bool>, count: int)
    requires
        slots.len() >= 1,
        count >= 1,
    ensures
        aggregate_of_last(slot_updated(slots, input), count) == newer_of(
            aggregate_of_last(slots, count),
            input,
        ),
{
    let updated = slot_updated(slots, input);
    let from = if count >= slots.len() {
        0
    } else {
        slots.len() - count
    };
    let tail = slots.subrange(from, slots.len() as int);
    let tail_updated = updated.subrange(from, slots.len() as int);
    assert(slots.subrange(0, slots.len() as int) =~= slots);
    assert(updated.subrange(0, slots.len() as int) =~= updated);
    assert(tail_updated =~= tail.drop_last().push(newer_of(slots.last(), input)));
    lemma_aggregate_push(tail.drop_last(), newer_of(slots.last(), input));
    assert(tail =~= tail.drop_last().push(slots.last()));
    lemma_aggregate_push(tail.drop_last(), slots.last());
}

proof fn lemma_closed_last(slots: Seq<Option<bool>>, duration: nat, count: int)
    requires
        1 <= slots.len() <= duration,
        1 <= count <= duration,
    ensures
        aggregate_of_last(slot_closed(slots, duration), count) == (if count == 1 {
            None
        } else {
            aggregate_of_last(slots, count - 1)
        }),
        1 <= slot_closed(slots, duration).len() <= duration,
{
    let added = slots.push(None);
    let closed = slot_closed(slots, duration);
    let from = if count >= closed.len() {
        0
    } else {
        closed.len() - count
    };
    let tail = closed.subrange(from, closed.len() as int);
    assert(closed.subrange(0, closed.len() as int) =~= closed);
    assert(slots.subrange(0, slots.len() as int) =~= slots);
    if count == 1 {
        if closed.len() == 1 {
            assert(closed =~= seq![None::<bool>]);
        } else {
            assert(tail =~= seq![None::<bool>]);
        }
        lemma_aggregate_one(None);
    } else {
        let kept = if count - 1 >= slots.len() {
            slots
        } else {
            slots.subrange(slots.len() - (count - 1), slots.len() as int)
        };
        if count >= closed.len() {
            assert(closed =~= kept.push(None));
        } else {
            assert(tail =~= kept.push(None));
        }
        lemma_aggregate_push(kept, None);
    }
}

/// The slots never outnumber the window, and there is always an open one.
pub proof fn lemma_slots_within(
    keys: Seq<u32>,
    input: Seq<Option<bool>>,
    ticks: Seq<Option<bool>>,
    duration: nat,
    e: int,
    n: int,
)
    requires
        duration >= 1,
        keys.len() == input.len(),
        keys.len() == ticks.len(),
        0 <= n <= keys.len(),
    ensures
        1 <= sliding_slots(seq![None::<bool>], keys, input, ticks, duration, e, n).len()
            <= duration,
    decreases n,
{
    if n > 0 {
        lemma_slots_within(keys, input, ticks, duration, e, n - 1);
        let slots = sliding_slots(seq![None::<bool>], keys, input, ticks, duration, e, n - 1);
        if keys[n - 1] == e && closes(ticks[n - 1]) {
            lemma_closed_last(slot_updated(slots, input[n - 1]), duration, 1);
        }
    }
}

/// The last `count` slots of an entity hold, in aggregate, what reading the
/// rows back through `count` slots finds.
pub proof fn lemma_slots_hold_the_window(
    keys: Seq<u32>,
    input: Seq<Option<bool>>,
    ticks: Seq<Option<bool>>,
    duration: nat,
    e: int,
    n: int,
    count: int,
)
    requires
        duration >= 1,
        keys.len() == input.len(),
        keys.len() == ticks.len(),
        0 <= n <= keys.len(),
        1 <= count <= duration,
    ensures
        aggregate_of_last(
            sliding_slots(seq![None::<bool>], keys, input, ticks, duration, e, n),
            count,
        ) == read_back(keys, input, ticks, e, n - 1, count),
    decreases n,
{
    if n <= 0 {
        lemma_aggregate_one(None);
    } else if keys[n - 1] != e {
        lemma_slots_hold_the_window(keys, input, ticks, duration, e, n - 1, count);
    } else {
        let slots = sliding_slots(seq![None::<bool>], keys, input, ticks, duration, e, n - 1);
        let updated = slot_updated(slots, input[n - 1]);
        lemma_slots_within(keys, input, ticks, duration, e, n - 1);
        if closes(ticks[n - 1]) {
            lemma_closed_last(updated, duration, count);
            if count > 1 {
                lemma_slots_hold_the_window(keys, input, ticks, duration, e, n - 1, count - 1);
                lemma_updated_last(slots, input[n - 1], count - 1);
            }
        } else {
            lemma_slots_hold_the_window(keys, input, ticks, duration, e, n - 1, count);
            lemma_updated_last(slots, input[n - 1], count);
        }
    }
}

/// From a fresh state, what the sliding window emits at a row is what the
/// recomputation from the rows gives: the two-stacks aggregate equals the
/// naive one over the window.
pub proof fn lemma_sliding_is_naive(
    keys: Seq<u32>,
    input: Seq<Option<bool>>,
    ticks: Seq<Option<bool>>,
    duration: nat,
    entities: nat,
    i: int,
)
    requires
        duration >= 1,
        keys.len() == input.len(),
        keys.len() == ticks.len(),
        0 <= i < keys.len(),
        keys[i] < entities,
    ensures
        sliding_outputs(
            Seq::new(entities, |e: int| seq![None::<bool>]),
            keys,
            input,
            ticks,
            duration,
        )[i] == naive_last(keys, input, ticks, duration, i),
{
    let e = keys[i] as int;
    let slots = sliding_slots(seq![None::<bool>], keys, input, ticks, duration, e, i);
    lemma_slots_within(keys, input, ticks, duration, e, i);
    lemma_slots_hold_the_window(keys, input, ticks, duration, e, i, duration as int);
    lemma_updated_last(slots, input[i], duration as int);
    assert(slide_emitted(slots, input[i]) == aggregate_of_last(
        slot_updated(slots, input[i]),
        duration as int,
    ));
}

} // verus!
