use vstd::prelude::*;

use crate::count::{count_after, counted};
use crate::lag::{kept, lag_emitted, lag_outputs, valid_of};
use crate::last_boolean::closes;
use crate::primitive::{emitted_at, held_after, updated, AggregationKind};
use crate::sliding_last::{slide_emitted, slide_step, sliding_slots};

verus! {

/// The rows of entity `e` among the first `n` rows, in row order.
pub open spec fn own_rows<R>(keys: Seq<u32>, rows: Seq<R>, e: int, n: int) -> Seq<R>
    decreases n,
{
    if n <= 0 {
        Seq::empty()
    } else if keys[n - 1] == e {
        own_rows(keys, rows, e, n - 1).push(rows[n - 1])
    } else {
        own_rows(keys, rows, e, n - 1)
    }
}

/// Two columns as one column of pairs.
pub open spec fn paired<A, B>(left: Seq<A>, right: Seq<B>) -> Seq<(A, B)> {
    Seq::new(left.len(), |i: int| (left[i], right[i]))
}

/// What an aggregation holds for an entity whose rows, input and window
/// column side by side, are `own`.
pub open spec fn held_alone(
    kind: AggregationKind,
    prior: Option<i64>,
    own: Seq<(Option<i64>, Option<bool>)>,
) -> Option<i64>
    decreases own.len(),
{
    if own.len() == 0 {
        prior
    } else if closes(own.last().1) {
        None
    } else {
        updated(kind, held_alone(kind, prior, own.drop_last()), own.last().0)
    }
}

/// What an aggregation holds for an entity, and what it emits at a row of
/// that entity, depends on the rows of that entity alone, in their order,
/// and on what was held for it before.
pub proof fn lemma_aggregate_sees_own_rows(
    kind: AggregationKind,
    prior: Option<i64>,
    keys: Seq<u32>,
    input: Seq<Option<i64>>,
    ticks: Seq<Option<bool>>,
    e: int,
    n: int,
)
    requires
        keys.len() == input.len(),
        keys.len() == ticks.len(),
        0 <= n <= keys.len(),
    ensures
        held_after(kind, prior, keys, input, ticks, e, n) == held_alone(
            kind,
            prior,
            own_rows(keys, paired(input, ticks), e, n),
        ),
        n < keys.len() ==> emitted_at(kind, prior, keys, input, ticks, e, n) == updated(
            kind,
            held_alone(kind, prior, own_rows(keys, paired(input, ticks), e, n)),
            input[n],
        ),
    decreases n,
{
    if n > 0 {
        lemma_aggregate_sees_own_rows(kind, prior, keys, input, ticks, e, n - 1);
        if keys[n - 1] == e {
            let before = own_rows(keys, paired(input, ticks), e, n - 1);
            let row = paired(input, ticks)[n - 1];
            assert(before.push(row).drop_last() =~= before);
        }
    }
}

/// How many rows were counted for an entity whose rows, flag and window
/// column side by side, are `own`.
pub open spec fn count_alone(prior: nat, own: Seq<(Option<bool>, Option<bool>)>) -> nat
    decreases own.len(),
{
    if own.len() == 0 {
        prior
    } else if closes(own.last().1) {
        0
    } else if counted(own.last().0) {
        count_alone(prior, own.drop_last()) + 1
    } else {
        count_alone(prior, own.drop_last())
    }
}

/// The count of an entity depends on the rows of that entity alone, in
/// their order, and on the count before.
pub proof fn lemma_count_sees_own_rows(
    prior: nat,
    keys: Seq<u32>,
    flags: Seq<Option<bool>>,
    ticks: Seq<Option<bool>>,
    e: int,
    n: int,
)
    requires
        keys.len() == flags.len(),
        keys.len() == ticks.len(),
        0 <= n <= keys.len(),
    ensures
        count_after(prior, keys, flags, ticks, e, n) == count_alone(
            prior,
            own_rows(keys, paired(flags, ticks), e, n),
        ),
    decreases n,
{
    if n > 0 {
        lemma_count_sees_own_rows(prior, keys, flags, ticks, e, n - 1);
        if keys[n - 1] == e {
            let before = own_rows(keys, paired(flags, ticks), e, n - 1);
            let row = paired(flags, ticks)[n - 1];
            assert(before.push(row).drop_last() =~= before);
        }
    }
}

/// The non-null values among the rows `own` of one entity.
pub open spec fn valid_alone(own: Seq<Option<i64>>) -> Seq<i64>
    decreases own.len(),
{
    if own.len() == 0 {
        Seq::empty()
    } else if own.last() is Some {
        valid_alone(own.drop_last()).push(own.last()->Some_0)
    } else {
        valid_alone(own.drop_last())
    }
}

/// What `lag` emits at a row depends on the rows of that row's entity
/// alone, in their order, and on the buffer that was held for it before.
pub proof fn lemma_lag_sees_own_rows(
    start: Seq<Seq<i64>>,
    keys: Seq<u32>,
    input: Seq<Option<i64>>,
    lag: nat,
    e: int,
    n: int,
)
    requires
        keys.len() == input.len(),
        0 <= n <= keys.len(),
    ensures
        valid_of(keys, input, e, n) == valid_alone(own_rows(keys, input, e, n)),
        n < keys.len() && keys[n] == e ==> lag_outputs(start, keys, input, lag)[n] == lag_emitted(
            start[e] + valid_alone(own_rows(keys, input, e, n)),
            lag,
        ),
    decreases n,
{
    if n > 0 {
        lemma_lag_sees_own_rows(start, keys, input, lag, e, n - 1);
        if keys[n - 1] == e {
            let before = own_rows(keys, input, e, n - 1);
            assert(before.push(input[n - 1]).drop_last() =~= before);
        }
    }
}

/// The slots of an entity over a sliding window of `duration` slots whose
/// rows, input and window column side by side, are `own`.
pub open spec fn slots_alone(
    prior: Seq<Option<bool>>,
    own: Seq<(Option<bool>, Option<bool>)>,
    duration: nat,
) -> Seq<Option<bool>>
    decreases own.len(),
{
    if own.len() == 0 {
        prior
    } else {
        slide_step(slots_alone(prior, own.drop_last(), duration), own.last().0, own.last().1, duration)
    }
}

/// The slots of an entity, and what a sliding window emits at a row of that
/// entity, depend on the rows of that entity alone, in their order, and on
/// the slots that were held for it before.
pub proof fn lemma_sliding_sees_own_rows(
    prior: Seq<Option<bool>>,
    keys: Seq<u32>,
    input: Seq<Option<bool>>,
    ticks: Seq<Option<bool>>,
    duration: nat,
    e: int,
    n: int,
)
    requires
        keys.len() == input.len(),
        keys.len() == ticks.len(),
        0 <= n <= keys.len(),
    ensures
        sliding_slots(prior, keys, input, ticks, duration, e, n) == slots_alone(
            prior,
            own_rows(keys, paired(input, ticks), e, n),
            duration,
        ),
        n < keys.len() ==> slide_emitted(
            sliding_slots(prior, keys, input, ticks, duration, e, n),
            input[n],
        ) == slide_emitted(
            slots_alone(prior, own_rows(keys, paired(input, ticks), e, n), duration),
            input[n],
        ),
    decreases n,
{
    if n > 0 {
        lemma_sliding_sees_own_rows(prior, keys, input, ticks, duration, e, n - 1);
        if keys[n - 1] == e {
            let before = own_rows(keys, paired(input, ticks), e, n - 1);
            let row = paired(input, ticks)[n - 1];
            assert(before.push(row).drop_last() =~= before);
        }
    }
}

/// What is kept of a history is what is kept of the entity's own values.
pub proof fn lemma_lag_keeps_own_rows(
    prior: Seq<i64>,
    keys: Seq<u32>,
    input: Seq<Option<i64>>,
    lag: nat,
    e: int,
    n: int,
)
    requires
        keys.len() == input.len(),
        0 <= n <= keys.len(),
    ensures
        kept(prior + valid_of(keys, input, e, n), lag) == kept(
            prior + valid_alone(own_rows(keys, input, e, n)),
            lag,
        ),
{
    lemma_lag_sees_own_rows(seq![prior], keys, input, lag, e, n);
}

} // verus!
