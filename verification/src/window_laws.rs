use vstd::prelude::*;

use crate::batch::indices_below;
use crate::count::{capped, count_after, count_emitted, valid_flags};
use crate::entity_laws::own_rows;
use crate::last_boolean::{
    closes, last_after, last_outputs, last_states, since_after, since_emitted, since_outputs,
    since_states,
};

verus! {

/// What is held after `n` rows does not depend on the rows that follow them.
pub proof fn lemma_since_prefix(
    prior: Option<bool>,
    keys: Seq<u32>,
    input: Seq<Option<bool>>,
    ticks: Seq<Option<bool>>,
    cut: int,
    e: int,
    n: int,
)
    requires
        keys.len() == input.len(),
        keys.len() == ticks.len(),
        0 <= n <= cut <= keys.len(),
    ensures
        since_after(prior, keys.subrange(0, cut), input.subrange(0, cut), ticks.subrange(0, cut), e, n)
            == since_after(prior, keys, input, ticks, e, n),
    decreases n,
{
    if n > 0 {
        lemma_since_prefix(prior, keys, input, ticks, cut, e, n - 1);
    }
}

/// Taking rows in from a state that earlier rows left is taking all of them
/// in from the start.
pub proof fn lemma_since_suffix(
    prior: Option<bool>,
    keys: Seq<u32>,
    input: Seq<Option<bool>>,
    ticks: Seq<Option<bool>>,
    cut: int,
    e: int,
    m: int,
)
    requires
        keys.len() == input.len(),
        keys.len() == ticks.len(),
        0 <= cut <= keys.len(),
        0 <= m <= keys.len() - cut,
    ensures
        since_after(
            since_after(prior, keys, input, ticks, e, cut),
            keys.subrange(cut, keys.len() as int),
            input.subrange(cut, keys.len() as int),
            ticks.subrange(cut, keys.len() as int),
            e,
            m,
        ) == since_after(prior, keys, input, ticks, e, cut + m),
    decreases m,
{
    if m > 0 {
        lemma_since_suffix(prior, keys, input, ticks, cut, e, m - 1);
    }
}

/// Batch boundaries do not show: a batch cut in two at any row, the second
/// part fed after the first, emits what the whole batch emits and leaves the
/// state that the whole batch leaves.
pub proof fn lemma_since_split(
    state: Seq<Option<bool>>,
    keys: Seq<u32>,
    input: Seq<Option<bool>>,
    ticks: Seq<Option<bool>>,
    cut: int,
)
    requires
        keys.len() == input.len(),
        keys.len() == ticks.len(),
        0 <= cut <= keys.len(),
        indices_below(keys, state.len()),
    ensures
        ({
            let n = keys.len() as int;
            let mid = since_states(
                state,
                keys.subrange(0, cut),
                input.subrange(0, cut),
                ticks.subrange(0, cut),
                cut,
            );
            &&& since_outputs(state, keys, input, ticks) == since_outputs(
                state,
                keys.subrange(0, cut),
                input.subrange(0, cut),
                ticks.subrange(0, cut),
            ) + since_outputs(
                mid,
                keys.subrange(cut, n),
                input.subrange(cut, n),
                ticks.subrange(cut, n),
            )
            &&& since_states(state, keys, input, ticks, n) == since_states(
                mid,
                keys.subrange(cut, n),
                input.subrange(cut, n),
                ticks.subrange(cut, n),
                n - cut,
            )
        }),
{
    let n = keys.len() as int;
    let k1 = keys.subrange(0, cut);
    let i1 = input.subrange(0, cut);
    let t1 = ticks.subrange(0, cut);
    let k2 = keys.subrange(cut, n);
    let i2 = input.subrange(cut, n);
    let t2 = ticks.subrange(cut, n);
    let mid = since_states(state, k1, i1, t1, cut);
    let whole = since_outputs(state, keys, input, ticks);
    let parts = since_outputs(state, k1, i1, t1) + since_outputs(mid, k2, i2, t2);
    assert forall|e: int| 0 <= e < state.len() implies #[trigger] mid[e] == since_after(
        state[e],
        keys,
        input,
        ticks,
        e,
        cut,
    ) by {
        lemma_since_prefix(state[e], keys, input, ticks, cut, e, cut);
    }
    assert forall|i: int| 0 <= i < n implies #[trigger] whole[i] == parts[i] by {
        let e = keys[i] as int;
        if i < cut {
            lemma_since_prefix(state[e], keys, input, ticks, cut, e, i);
        } else {
            lemma_since_suffix(state[e], keys, input, ticks, cut, e, i - cut);
            assert(k2[i - cut] == keys[i]);
            assert(i2[i - cut] == input[i]);
        }
    }
    assert(whole =~= parts);
    assert forall|e: int| 0 <= e < state.len() implies #[trigger] since_states(
        state,
        keys,
        input,
        ticks,
        n,
    )[e] == since_states(mid, k2, i2, t2, n - cut)[e] by {
        lemma_since_suffix(state[e], keys, input, ticks, cut, e, n - cut);
    }
    assert(since_states(state, keys, input, ticks, n) =~= since_states(mid, k2, i2, t2, n - cut));
}

/// Without a window `last` holds what it holds over a `since` window that
/// never closes.
pub proof fn lemma_last_is_since_never_closed(
    prior: Option<bool>,
    keys: Seq<u32>,
    input: Seq<Option<bool>>,
    ticks: Seq<Option<bool>>,
    e: int,
    n: int,
)
    requires
        keys.len() == input.len(),
        keys.len() == ticks.len(),
        0 <= n <= keys.len(),
        forall|i: int| 0 <= i < ticks.len() ==> !closes(#[trigger] ticks[i]),
    ensures
        last_after(prior, keys, input, e, n) == since_after(prior, keys, input, ticks, e, n),
    decreases n,
{
    if n > 0 {
        lemma_last_is_since_never_closed(prior, keys, input, ticks, e, n - 1);
    }
}

/// Without a window `last` emits, and leaves as state, what it does over a
/// `since` window that never closes.
pub proof fn lemma_last_outputs_are_since_never_closed(
    state: Seq<Option<bool>>,
    keys: Seq<u32>,
    input: Seq<Option<bool>>,
    ticks: Seq<Option<bool>>,
)
    requires
        keys.len() == input.len(),
        keys.len() == ticks.len(),
        forall|i: int| 0 <= i < ticks.len() ==> !closes(#[trigger] ticks[i]),
    ensures
        last_outputs(state, keys, input) == since_outputs(state, keys, input, ticks),
        last_states(state, keys, input, keys.len() as int) == since_states(
            state,
            keys,
            input,
            ticks,
            keys.len() as int,
        ),
{
    let n = keys.len() as int;
    assert forall|i: int| 0 <= i < n implies #[trigger] last_outputs(state, keys, input)[i]
        == since_outputs(state, keys, input, ticks)[i] by {
        let e = keys[i] as int;
        lemma_last_is_since_never_closed(state[e], keys, input, ticks, e, i);
    }
    assert(last_outputs(state, keys, input) =~= since_outputs(state, keys, input, ticks));
    assert forall|e: int| 0 <= e < state.len() implies #[trigger] last_states(
        state,
        keys,
        input,
        n,
    )[e] == since_states(state, keys, input, ticks, n)[e] by {
        lemma_last_is_since_never_closed(state[e], keys, input, ticks, e, n);
    }
    assert(last_states(state, keys, input, n) =~= since_states(state, keys, input, ticks, n));
}

/// Batch boundaries do not show without a window either.
pub proof fn lemma_last_split(
    state: Seq<Option<bool>>,
    keys: Seq<u32>,
    input: Seq<Option<bool>>,
    cut: int,
)
    requires
        keys.len() == input.len(),
        0 <= cut <= keys.len(),
        indices_below(keys, state.len()),
    ensures
        ({
            let n = keys.len() as int;
            let mid = last_states(state, keys.subrange(0, cut), input.subrange(0, cut), cut);
            &&& last_outputs(state, keys, input) == last_outputs(
                state,
                keys.subrange(0, cut),
                input.subrange(0, cut),
            ) + last_outputs(mid, keys.subrange(cut, n), input.subrange(cut, n))
            &&& last_states(state, keys, input, n) == last_states(
                mid,
                keys.subrange(cut, n),
                input.subrange(cut, n),
                n - cut,
            )
        }),
{
    let n = keys.len() as int;
    let open = Seq::new(keys.len(), |i: int| None::<bool>);
    let mid = last_states(state, keys.subrange(0, cut), input.subrange(0, cut), cut);
    lemma_since_split(state, keys, input, open, cut);
    lemma_last_outputs_are_since_never_closed(state, keys, input, open);
    lemma_last_outputs_are_since_never_closed(
        state,
        keys.subrange(0, cut),
        input.subrange(0, cut),
        open.subrange(0, cut),
    );
    lemma_last_outputs_are_since_never_closed(
        mid,
        keys.subrange(cut, n),
        input.subrange(cut, n),
        open.subrange(cut, n),
    );
}

/// `last` holds a value exactly where the count of valid inputs over the same
/// window is positive.
pub proof fn lemma_held_iff_counted(
    prior: Option<bool>,
    prior_count: nat,
    keys: Seq<u32>,
    input: Seq<Option<bool>>,
    ticks: Seq<Option<bool>>,
    e: int,
    n: int,
)
    requires
        keys.len() == input.len(),
        keys.len() == ticks.len(),
        0 <= n <= keys.len(),
        prior is Some <==> prior_count > 0,
    ensures
        since_after(prior, keys, input, ticks, e, n) is Some <==> count_after(
            prior_count,
            keys,
            valid_flags(input),
            ticks,
            e,
            n,
        ) > 0,
    decreases n,
{
    if n > 0 {
        lemma_held_iff_counted(prior, prior_count, keys, input, ticks, e, n - 1);
    }
}

/// `last` emits a value at a row exactly where `count_if` of the validity of
/// its input, over the same window and with the row included, is positive.
pub proof fn lemma_emitted_iff_counted(
    prior: Option<bool>,
    prior_count: nat,
    keys: Seq<u32>,
    input: Seq<Option<bool>>,
    ticks: Seq<Option<bool>>,
    i: int,
)
    requires
        keys.len() == input.len(),
        keys.len() == ticks.len(),
        0 <= i < keys.len(),
        prior is Some <==> prior_count > 0,
    ensures
        since_emitted(prior, keys, input, ticks, keys[i] as int, i) is Some <==> count_emitted(
            prior_count,
            keys,
            valid_flags(input),
            ticks,
            keys[i] as int,
            i,
        ) > 0,
        since_emitted(prior, keys, input, ticks, keys[i] as int, i) is Some <==> capped(
            count_emitted(prior_count, keys, valid_flags(input), ticks, keys[i] as int, i),
        ) > 0,
{
    lemma_held_iff_counted(prior, prior_count, keys, input, ticks, keys[i] as int, i);
}

/// What an entity's rows emit when they are fed alone, as a batch of one
/// entity that starts from `prior`.
pub open spec fn alone_outputs(
    prior: Option<bool>,
    input: Seq<Option<bool>>,
    ticks: Seq<Option<bool>>,
) -> Seq<Option<bool>> {
    since_outputs(seq![prior], Seq::new(input.len(), |i: int| 0u32), input, ticks)
}

/// An entity has as many rows in one column as in another.
pub proof fn lemma_own_rows_len(
    keys: Seq<u32>,
    a: Seq<Option<bool>>,
    b: Seq<Option<bool>>,
    e: int,
    n: int,
)
    requires
        0 <= n <= keys.len(),
    ensures
        own_rows(keys, a, e, n).len() == own_rows(keys, b, e, n).len(),
        own_rows(keys, a, e, n).len() <= n,
    decreases n,
{
    if n > 0 {
        lemma_own_rows_len(keys, a, b, e, n - 1);
    }
}

/// Growing a one-entity batch by a row does not change what it held before
/// that row.
proof fn lemma_alone_prefix(
    prior: Option<bool>,
    input: Seq<Option<bool>>,
    ticks: Seq<Option<bool>>,
    x: Option<bool>,
    t: Option<bool>,
    n: int,
)
    requires
        input.len() == ticks.len(),
        0 <= n <= input.len(),
    ensures
        since_after(
            prior,
            Seq::new(input.len() + 1, |i: int| 0u32),
            input.push(x),
            ticks.push(t),
            0,
            n,
        ) == since_after(prior, Seq::new(input.len(), |i: int| 0u32), input, ticks, 0, n),
{
    let m = input.len() as int;
    let zeros = Seq::new(input.len() + 1, |i: int| 0u32);
    lemma_since_prefix(prior, zeros, input.push(x), ticks.push(t), m, 0, n);
    assert(zeros.subrange(0, m) =~= Seq::new(input.len(), |i: int| 0u32));
    assert(input.push(x).subrange(0, m) =~= input);
    assert(ticks.push(t).subrange(0, m) =~= ticks);
}

/// The rows of one entity among the first `n` rows emit what they would emit
/// alone, and leave what they would leave alone.
proof fn lemma_entity_alone_upto(
    state: Seq<Option<bool>>,
    keys: Seq<u32>,
    input: Seq<Option<bool>>,
    ticks: Seq<Option<bool>>,
    e: int,
    n: int,
)
    requires
        keys.len() == input.len(),
        keys.len() == ticks.len(),
        0 <= e < state.len(),
        0 <= n <= keys.len(),
    ensures
        ({
            let own_input = own_rows(keys, input, e, n);
            let own_ticks = own_rows(keys, ticks, e, n);
            &&& own_input.len() == own_ticks.len()
            &&& own_rows(keys, since_outputs(state, keys, input, ticks), e, n) == alone_outputs(
                state[e],
                own_input,
                own_ticks,
            )
            &&& since_after(state[e], keys, input, ticks, e, n) == since_after(
                state[e],
                Seq::new(own_input.len(), |i: int| 0u32),
                own_input,
                own_ticks,
                0,
                own_input.len() as int,
            )
        }),
    decreases n,
{
    let prior = state[e];
    let outs = since_outputs(state, keys, input, ticks);
    let own_input = own_rows(keys, input, e, n);
    let own_ticks = own_rows(keys, ticks, e, n);
    lemma_own_rows_len(keys, input, ticks, e, n);
    if n <= 0 {
        assert(own_rows(keys, outs, e, n) =~= alone_outputs(prior, own_input, own_ticks));
    } else {
        lemma_entity_alone_upto(state, keys, input, ticks, e, n - 1);
        lemma_own_rows_len(keys, input, ticks, e, n - 1);
        if keys[n - 1] == e {
            let before_input = own_rows(keys, input, e, n - 1);
            let before_ticks = own_rows(keys, ticks, e, n - 1);
            let m = before_input.len() as int;
            let zeros = Seq::new(own_input.len(), |i: int| 0u32);
            assert(own_input == before_input.push(input[n - 1]));
            assert(own_ticks == before_ticks.push(ticks[n - 1]));
            assert forall|k: int| 0 <= k <= m implies since_after(
                prior,
                zeros,
                own_input,
                own_ticks,
                0,
                k,
            ) == since_after(
                prior,
                Seq::new(before_input.len(), |i: int| 0u32),
                before_input,
                before_ticks,
                0,
                k,
            ) by {
                lemma_alone_prefix(prior, before_input, before_ticks, input[n - 1], ticks[n - 1], k);
            }
            let alone = alone_outputs(prior, own_input, own_ticks);
            let alone_before = alone_outputs(prior, before_input, before_ticks);
            assert(alone.len() == m + 1);
            assert forall|k: int| 0 <= k < m implies #[trigger] alone[k] == alone_before[k] by {
                assert(own_input[k] == before_input[k]);
            }
            assert(alone[m] == outs[n - 1]);
            assert(own_rows(keys, outs, e, n) == own_rows(keys, outs, e, n - 1).push(
                outs[n - 1],
            ));
            assert(own_rows(keys, outs, e, n) =~= alone);
            assert(zeros[m] == 0u32);
            assert(own_input[m] == input[n - 1]);
            assert(own_ticks[m] == ticks[n - 1]);
        }
    }
}

/// What an entity's rows emit depends on those rows alone, in their order,
/// and on what was held for the entity before: it is what the same rows emit
/// when no row of another entity stands between them.
pub proof fn lemma_entity_alone(
    state: Seq<Option<bool>>,
    keys: Seq<u32>,
    input: Seq<Option<bool>>,
    ticks: Seq<Option<bool>>,
    e: int,
)
    requires
        keys.len() == input.len(),
        keys.len() == ticks.len(),
        0 <= e < state.len(),
    ensures
        own_rows(keys, since_outputs(state, keys, input, ticks), e, keys.len() as int)
            == alone_outputs(
            state[e],
            own_rows(keys, input, e, keys.len() as int),
            own_rows(keys, ticks, e, keys.len() as int),
        ),
{
    lemma_entity_alone_upto(state, keys, input, ticks, e, keys.len() as int);
}

/// Two batches in which an entity has the same rows, starting from the same
/// state of that entity, emit the same values at its rows, whatever the rows
/// of other entities hold.
pub proof fn lemma_per_entity_determinism(
    state_a: Seq<Option<bool>>,
    keys_a: Seq<u32>,
    input_a: Seq<Option<bool>>,
    ticks_a: Seq<Option<bool>>,
    state_b: Seq<Option<bool>>,
    keys_b: Seq<u32>,
    input_b: Seq<Option<bool>>,
    ticks_b: Seq<Option<bool>>,
    e: int,
)
    requires
        keys_a.len() == input_a.len(),
        keys_a.len() == ticks_a.len(),
        keys_b.len() == input_b.len(),
        keys_b.len() == ticks_b.len(),
        0 <= e < state_a.len(),
        0 <= e < state_b.len(),
        state_a[e] == state_b[e],
        own_rows(keys_a, input_a, e, keys_a.len() as int) == own_rows(
            keys_b,
            input_b,
            e,
            keys_b.len() as int,
        ),
        own_rows(keys_a, ticks_a, e, keys_a.len() as int) == own_rows(
            keys_b,
            ticks_b,
            e,
            keys_b.len() as int,
        ),
    ensures
        own_rows(
            keys_a,
            since_outputs(state_a, keys_a, input_a, ticks_a),
            e,
            keys_a.len() as int,
        ) == own_rows(
            keys_b,
            since_outputs(state_b, keys_b, input_b, ticks_b),
            e,
            keys_b.len() as int,
        ),
{
    lemma_entity_alone(state_a, keys_a, input_a, ticks_a, e);
    lemma_entity_alone(state_b, keys_b, input_b, ticks_b, e);
}

} // verus!
