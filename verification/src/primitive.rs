use vstd::prelude::*;

use crate::batch::indices_below;
use crate::count::{count_after, count_emitted, valid_flags, window_of};
use crate::codec::{bytes_to_words, decode_words, encode_words, lemma_words_round_trip, words_to_bytes};
use crate::error::EvalError;
use crate::last_boolean::{closes, first_out_of_range};

verus! {

/// The aggregations over integers that hold one value for each entity.
#[derive(Debug, Clone, Copy, PartialEq, Eq, Structural)]
pub enum AggregationKind {
    /// The sum of the values; it wraps around where it overflows.
    Sum,
    /// The least of the values.
    Min,
    /// The greatest of the values.
    Max,
    /// The earliest of the values.
    First,
    /// The latest of the values.
    Last,
}

/// What is held once `value` is taken in to what was `held`.
pub open spec fn combined(kind: AggregationKind, held: Option<i64>, value: i64) -> i64 {
    match held {
        None => value,
        Some(before) => match kind {
            AggregationKind::Sum => vstd::wrapping::i64_specs::wrapping_add(before, value),
            AggregationKind::Min => if value < before {
                value
            } else {
                before
            },
            AggregationKind::Max => if value > before {
                value
            } else {
                before
            },
            AggregationKind::First => before,
            AggregationKind::Last => value,
        },
    }
}

/// What is held with one row's input taken in: a null input changes
/// nothing.
pub open spec fn updated(kind: AggregationKind, held: Option<i64>, input: Option<i64>) -> Option<
    i64,
> {
    match input {
        Some(value) => Some(combined(kind, held, value)),
        None => held,
    }
}

/// What the aggregation holds for entity `e` once the first `n` rows are
/// taken in. A row of `e` that closes the window leaves nothing.
pub open spec fn held_after(
    kind: AggregationKind,
    prior: Option<i64>,
    keys: Seq<u32>,
    input: Seq<Option<i64>>,
    ticks: Seq<Option<bool>>,
    e: int,
    n: int,
) -> Option<i64>
    decreases n,
{
    if n <= 0 {
        prior
    } else if keys[n - 1] != e {
        held_after(kind, prior, keys, input, ticks, e, n - 1)
    } else if closes(ticks[n - 1]) {
        None
    } else {
        updated(kind, held_after(kind, prior, keys, input, ticks, e, n - 1), input[n - 1])
    }
}

/// What row `i` emits for its entity `e`: what is held with the row taken
/// in. The window closes only after the row has emitted.
pub open spec fn emitted_at(
    kind: AggregationKind,
    prior: Option<i64>,
    keys: Seq<u32>,
    input: Seq<Option<i64>>,
    ticks: Seq<Option<bool>>,
    e: int,
    i: int,
) -> Option<i64> {
    updated(kind, held_after(kind, prior, keys, input, ticks, e, i), input[i])
}

/// Every entity's state once the first `n` rows are taken in.
pub open spec fn held_states(
    kind: AggregationKind,
    start: Seq<Option<i64>>,
    keys: Seq<u32>,
    input: Seq<Option<i64>>,
    ticks: Seq<Option<bool>>,
    n: int,
) -> Seq<Option<i64>> {
    Seq::new(start.len(), |e: int| held_after(kind, start[e], keys, input, ticks, e, n))
}

/// What the aggregation emits row by row.
pub open spec fn outputs(
    kind: AggregationKind,
    start: Seq<Option<i64>>,
    keys: Seq<u32>,
    input: Seq<Option<i64>>,
    ticks: Seq<Option<bool>>,
) -> Seq<Option<i64>> {
    Seq::new(
        keys.len(),
        |i: int| emitted_at(kind, start[keys[i] as int], keys, input, ticks, keys[i] as int, i),
    )
}

/// States for `len` entities of which the first `states.len()` are those of
/// `states` and the others hold nothing.
pub open spec fn grown_states(states: Seq<Option<i64>>, len: nat) -> Seq<Option<i64>> {
    if len <= states.len() {
        states
    } else {
        states + Seq::new((len - states.len()) as nat, |i: int| None::<i64>)
    }
}

/// An aggregation holds a value exactly where the count of valid inputs
/// over the same window is positive.
pub proof fn lemma_held_iff_counted(
    kind: AggregationKind,
    prior: Option<i64>,
    prior_count: nat,
    keys: Seq<u32>,
    input: Seq<Option<i64>>,
    ticks: Seq<Option<bool>>,
    e: int,
    n: int,
)
    requires
        keys.len() == input.len(),
        keys.len() == ticks.len(),
        0 <= n <= keys.len(),
        prior is Some <==> prior_count > 0,
    ensures
        held_after(kind, prior, keys, input, ticks, e, n) is Some <==> count_after(
            prior_count,
            keys,
            valid_flags(input),
            ticks,
            e,
            n,
        ) > 0,
    decreases n,
{
    if n > 0 {
        lemma_held_iff_counted(kind, prior, prior_count, keys, input, ticks, e, n - 1);
    }
}

/// An aggregation emits a value at a row exactly where `count_if` of the
/// validity of its input, over the same window and with the row included,
/// is positive.
pub proof fn lemma_emitted_iff_counted(
    kind: AggregationKind,
    prior: Option<i64>,
    prior_count: nat,
    keys: Seq<u32>,
    input: Seq<Option<i64>>,
    ticks: Seq<Option<bool>>,
    i: int,
)
    requires
        keys.len() == input.len(),
        keys.len() == ticks.len(),
        0 <= i < keys.len(),
        prior is Some <==> prior_count > 0,
    ensures
        emitted_at(kind, prior, keys, input, ticks, keys[i] as int, i) is Some <==> count_emitted(
            prior_count,
            keys,
            valid_flags(input),
            ticks,
            keys[i] as int,
            i,
        ) > 0,
{
    lemma_held_iff_counted(kind, prior, prior_count, keys, input, ticks, keys[i] as int, i);
}

/// What is held after `n` rows does not depend on the rows that follow
/// them.
pub proof fn lemma_held_prefix(
    kind: AggregationKind,
    prior: Option<i64>,
    keys: Seq<u32>,
    input: Seq<Option<i64>>,
    ticks: Seq<Option<bool>>,
    cut: int,
    e: int,
    n: int,
)
    requires
        keys.len() == input.len(),
        keys.len() == ticks.len(),
        0 <= n <= cut <= keys.len(),
    ensures
        held_after(
            kind,
            prior,
            keys.subrange(0, cut),
            input.subrange(0, cut),
            ticks.subrange(0, cut),
            e,
            n,
        ) == held_after(kind, prior, keys, input, ticks, e, n),
    decreases n,
{
    if n > 0 {
        lemma_held_prefix(kind, prior, keys, input, ticks, cut, e, n - 1);
    }
}

/// Taking rows in from a state that earlier rows left is taking all of them
/// in from the start.
pub proof fn lemma_held_suffix(
    kind: AggregationKind,
    prior: Option<i64>,
    keys: Seq<u32>,
    input: Seq<Option<i64>>,
    ticks: Seq<Option<bool>>,
    cut: int,
    e: int,
    m: int,
)
    requires
        keys.len() == input.len(),
        keys.len() == ticks.len(),
        0 <= cut <= keys.len(),
        0 <= m <= keys.len() - cut,
    ensures
        held_after(
            kind,
            held_after(kind, prior, keys, input, ticks, e, cut),
            keys.subrange(cut, keys.len() as int),
            input.subrange(cut, keys.len() as int),
            ticks.subrange(cut, keys.len() as int),
            e,
            m,
        ) == held_after(kind, prior, keys, input, ticks, e, cut + m),
    decreases m,
{
    if m > 0 {
        lemma_held_suffix(kind, prior, keys, input, ticks, cut, e, m - 1);
    }
}

/// Batch boundaries do not show: a batch cut in two at any row, the second
/// part fed after the first, emits what the whole batch emits and leaves the
/// state that the whole batch leaves.
pub proof fn lemma_split(
    kind: AggregationKind,
    start: Seq<Option<i64>>,
    keys: Seq<u32>,
    input: Seq<Option<i64>>,
    ticks: Seq<Option<bool>>,
    cut: int,
)
    requires
        keys.len() == input.len(),
        keys.len() == ticks.len(),
        0 <= cut <= keys.len(),
        indices_below(keys, start.len()),
    ensures
        ({
            let n = keys.len() as int;
            let mid = held_states(
                kind,
                start,
                keys.subrange(0, cut),
                input.subrange(0, cut),
                ticks.subrange(0, cut),
                cut,
            );
            &&& outputs(kind, start, keys, input, ticks) == outputs(
                kind,
                start,
                keys.subrange(0, cut),
                input.subrange(0, cut),
                ticks.subrange(0, cut),
            ) + outputs(
                kind,
                mid,
                keys.subrange(cut, n),
                input.subrange(cut, n),
                ticks.subrange(cut, n),
            )
            &&& held_states(kind, start, keys, input, ticks, n) == held_states(
                kind,
                mid,
                keys.subrange(cut, n),
                input.subrange(cut, n),
                ticks.subrange(cut, n),
                n - cut,
            )
        }),
{
    let n = keys.len() as int;
    let k1 = keys.subrange(0, cut);
    let i1 = input.subrange(0, cut);
    let t1 = ticks.subrange(0, cut);
    let k2 = keys.subrange(cut, n);
    let i2 = input.subrange(cut, n);
    let t2 = ticks.subrange(cut, n);
    let mid = held_states(kind, start, k1, i1, t1, cut);
    let whole = outputs(kind, start, keys, input, ticks);
    let parts = outputs(kind, start, k1, i1, t1) + outputs(kind, mid, k2, i2, t2);
    assert forall|e: int| 0 <= e < start.len() implies #[trigger] mid[e] == held_after(
        kind,
        start[e],
        keys,
        input,
        ticks,
        e,
        cut,
    ) by {
        lemma_held_prefix(kind, start[e], keys, input, ticks, cut, e, cut);
    }
    assert forall|i: int| 0 <= i < n implies #[trigger] whole[i] == parts[i] by {
        let e = keys[i] as int;
        if i < cut {
            lemma_held_prefix(kind, start[e], keys, input, ticks, cut, e, i);
        } else {
            lemma_held_suffix(kind, start[e], keys, input, ticks, cut, e, i - cut);
            assert(k2[i - cut] == keys[i]);
            assert(i2[i - cut] == input[i]);
        }
    }
    assert(whole =~= parts);
    assert forall|e: int| 0 <= e < start.len() implies #[trigger] held_states(
        kind,
        start,
        keys,
        input,
        ticks,
        n,
    )[e] == held_states(kind, mid, k2, i2, t2, n - cut)[e] by {
        lemma_held_suffix(kind, start[e], keys, input, ticks, cut, e, n - cut);
    }
    assert(held_states(kind, start, keys, input, ticks, n) =~= held_states(
        kind,
        mid,
        k2,
        i2,
        t2,
        n - cut,
    ));
}

/// The word that says whether a state holds a value.
pub open spec fn tag_of(state: Option<i64>) -> u64 {
    if state is Some {
        1
    } else {
        0
    }
}

/// The word that holds the value of a state, or zero without one.
pub open spec fn value_of(state: Option<i64>) -> u64 {
    match state {
        Some(value) => value as u64,
        None => 0,
    }
}

/// The words that store states: for each entity whether it holds a value,
/// and the value.
pub open spec fn state_words(states: Seq<Option<i64>>) -> Seq<u64> {
    Seq::new(
        2 * states.len(),
        |k: int|
            if k % 2 == 0 {
                tag_of(states[k / 2])
            } else {
                value_of(states[k / 2])
            },
    )
}

/// The stored form of states.
pub open spec fn stored_states(states: Seq<Option<i64>>) -> Seq<u8> {
    words_to_bytes(state_words(states))
}

/// Whether words come in pairs of which the first says whether a value
/// follows.
pub open spec fn are_states(words: Seq<u64>) -> bool {
    &&& words.len() % 2 == 0
    &&& forall|i: int| 0 <= i < words.len() / 2 ==> (#[trigger] words[2 * i]) <= 1
}

/// The state that a pair of words stores.
pub open spec fn state_of(tag: u64, value: u64) -> Option<i64> {
    if tag == 1 {
        Some(#[verifier::truncate] (value as i64))
    } else {
        None
    }
}

/// The states that words store. Meaningful where `are_states` holds.
pub open spec fn states_of(words: Seq<u64>) -> Seq<Option<i64>> {
    Seq::new(words.len() / 2, |i: int| state_of(words[2 * i], words[2 * i + 1]))
}

/// The states that bytes store, where they store states.
pub open spec fn restored_states(bytes: Seq<u8>) -> Option<Seq<Option<i64>>> {
    match bytes_to_words(bytes) {
        Some(words) => if are_states(words) {
            Some(states_of(words))
        } else {
            None
        },
        None => None,
    }
}

/// States read back from their words are as they were.
pub proof fn lemma_state_words_round_trip(states: Seq<Option<i64>>)
    ensures
        are_states(state_words(states)),
        states_of(state_words(states)) == states,
{
    let words = state_words(states);
    assert forall|i: int| 0 <= i < words.len() / 2 implies (#[trigger] words[2 * i]) <= 1 by {
        assert(words[2 * i] == tag_of(states[i]));
    }
    let read = states_of(words);
    assert forall|i: int| 0 <= i < states.len() implies read[i] == states[i] by {
        assert(words[2 * i] == tag_of(states[i]));
        assert(words[2 * i + 1] == value_of(states[i]));
        if let Some(value) = states[i] {
            assert((value as u64) as i64 == value) by (bit_vector);
        }
    }
    assert(read =~= states);
}

/// States that were stored read back as they were.
pub proof fn lemma_states_round_trip(states: Seq<Option<i64>>)
    ensures
        restored_states(stored_states(states)) == Some(states),
{
    lemma_words_round_trip(state_words(states));
    lemma_state_words_round_trip(states);
}

/// The words that store `states`.
pub fn states_to_words(states: &Vec<Option<i64>>) -> (words: Vec<u64>)
    ensures
        words@ == state_words(states@),
{
    let mut words: Vec<u64> = Vec::new();
    let mut i: usize = 0;
    while i < states.len()
        invariant
            i <= states@.len(),
            words@.len() == 2 * i,
            forall|j: int|
                0 <= j < i ==> (#[trigger] words@[2 * j]) == tag_of(states@[j]) && words@[2 * j
                    + 1] == value_of(states@[j]),
        decreases states@.len() - i,
    {
        match states[i] {
            Some(value) => {
                words.push(1);
                words.push(value as u64);
            },
            None => {
                words.push(0);
                words.push(0);
            },
        }
        i += 1;
    }
    proof {
        let expected = state_words(states@);
        assert forall|k: int| 0 <= k < expected.len() implies words@[k] == expected[k] by {
            let j = k / 2;
            assert(words@[2 * j] == tag_of(states@[j]));
        }
        assert(words@ =~= expected);
    }
    words
}

/// The states that `words` store, where they store states.
pub fn words_to_states(words: &Vec<u64>) -> (states: Option<Vec<Option<i64>>>)
    ensures
        match states {
            Some(read) => are_states(words@) && read@ == states_of(words@),
            None => !are_states(words@),
        },
{
    if words.len() % 2 != 0 {
        return None;
    }
    let count: usize = words.len() / 2;
    let mut states: Vec<Option<i64>> = Vec::new();
    let mut i: usize = 0;
    while i < count
        invariant
            i <= count,
            2 * count == words@.len(),
            words@.len() <= usize::MAX,
            states@.len() == i,
            forall|j: int| 0 <= j < i ==> (#[trigger] words@[2 * j]) <= 1,
            forall|j: int|
                0 <= j < i ==> (#[trigger] states@[j]) == state_of(words@[2 * j], words@[2 * j + 1]),
        decreases count - i,
    {
        let tag: u64 = words[2 * i];
        if tag > 1 {
            return None;
        }
        if tag == 1 {
            states.push(Some(#[verifier::truncate] (words[2 * i + 1] as i64)));
        } else {
            states.push(None);
        }
        i += 1;
    }
    assert(states@ =~= states_of(words@));
    Some(states)
}

/// Per-entity state of an aggregation over integers: the value held for
/// each entity, or nothing where none was observed since the last reset.
pub struct PrimitiveAccumToken {
    accum: Vec<Option<i64>>,
}

impl View for PrimitiveAccumToken {
    type V = Seq<Option<i64>>;

    closed spec fn view(&self) -> Seq<Option<i64>> {
        self.accum@
    }
}

fn combine(kind: AggregationKind, held: Option<i64>, value: i64) -> (result: i64)
    ensures
        result == combined(kind, held, value),
{
    match held {
        None => value,
        Some(before) => match kind {
            AggregationKind::Sum => before.wrapping_add(value),
            AggregationKind::Min => if value < before {
                value
            } else {
                before
            },
            AggregationKind::Max => if value > before {
                value
            } else {
                before
            },
            AggregationKind::First => before,
            AggregationKind::Last => value,
        },
    }
}

impl PrimitiveAccumToken {
    /// A token without entities.
    pub fn new() -> (token: PrimitiveAccumToken)
        ensures
            token@ == Seq::<Option<i64>>::empty(),
    {
        PrimitiveAccumToken { accum: Vec::new() }
    }

    /// The number of entities the token has room for.
    pub fn len(&self) -> (n: usize)
        ensures
            n == self@.len(),
    {
        self.accum.len()
    }

    /// Makes room for `len` entities. The token never shrinks, and the
    /// entries that are added hold nothing.
    pub fn resize(&mut self, len: usize)
        ensures
            final(self)@ == grown_states(old(self)@, len as nat),
    {
        let ghost before = self.accum@;
        while self.accum.len() < len
            invariant
                before.len() <= self.accum@.len(),
                self.accum@.len() <= len || self.accum@.len() == before.len(),
                self.accum@ =~= before + Seq::new(
                    (self.accum@.len() - before.len()) as nat,
                    |i: int| None::<i64>,
                ),
            decreases len - self.accum@.len(),
        {
            self.accum.push(None);
        }
        assert(self.accum@ =~= grown_states(before, len as nat));
    }

    /// The state of one entity.
    pub fn get(&self, entity_index: u32) -> (result: Result<Option<i64>, EvalError>)
        ensures
            entity_index < self@.len() ==> result == Ok::<Option<i64>, EvalError>(
                self@[entity_index as int],
            ),
            entity_index >= self@.len() ==> result == Err::<Option<i64>, EvalError>(
                EvalError::EntityOutOfRange,
            ),
    {
        let index: usize = entity_index as usize;
        if index < self.accum.len() {
            Ok(self.accum[index])
        } else {
            Err(EvalError::EntityOutOfRange)
        }
    }

    /// The token's state as bytes: sixteen for each entity.
    pub fn serialize(&self) -> (bytes: Vec<u8>)
        ensures
            bytes@ == stored_states(self@),
    {
        let words = states_to_words(&self.accum);
        encode_words(&words)
    }

    /// The token that `bytes` store. Fails exactly where they store no
    /// states.
    pub fn deserialize(bytes: &Vec<u8>) -> (result: Result<PrimitiveAccumToken, EvalError>)
        ensures
            match restored_states(bytes@) {
                Some(states) => result is Ok && result->Ok_0@ == states,
                None => result is Err && result->Err_0 == EvalError::CorruptSnapshot,
            },
    {
        let words = match decode_words(bytes) {
            Some(words) => words,
            None => {
                return Err(EvalError::CorruptSnapshot);
            },
        };
        match words_to_states(&words) {
            Some(accum) => Ok(PrimitiveAccumToken { accum }),
            None => Err(EvalError::CorruptSnapshot),
        }
    }

    /// One row of entity `entity_index`: update, emit, and then reset where
    /// the row closes the window.
    pub fn observe(
        &mut self,
        kind: AggregationKind,
        entity_index: u32,
        input: Option<i64>,
        tick: Option<bool>,
    ) -> (result: Result<Option<i64>, EvalError>)
        ensures
            entity_index < old(self)@.len() ==> result == Ok::<Option<i64>, EvalError>(
                updated(kind, old(self)@[entity_index as int], input),
            ) && final(self)@ == old(self)@.update(
                entity_index as int,
                if closes(tick) {
                    None
                } else {
                    updated(kind, old(self)@[entity_index as int], input)
                },
            ),
            entity_index >= old(self)@.len() ==> result == Err::<Option<i64>, EvalError>(
                EvalError::EntityOutOfRange,
            ) && final(self)@ == old(self)@,
    {
        let index: usize = entity_index as usize;
        if index >= self.accum.len() {
            return Err(EvalError::EntityOutOfRange);
        }
        let held: Option<i64> = self.accum[index];
        let emitted: Option<i64> = match input {
            Some(value) => Some(combine(kind, held, value)),
            None => held,
        };
        let left: Option<i64> = match tick {
            Some(true) => None,
            _ => emitted,
        };
        self.accum[index] = left;
        Ok(emitted)
    }
}

/// Runs `sum`, `min`, `max`, `first` or `last` on 64-bit integers, without
/// a window or over a `since` window. Takes a batch in, row by row, and
/// returns what the aggregation emits at each row: the aggregate of the valid inputs that the row's entity
/// has had since its window was last closed, the row itself included,
/// or null where there was none. A row whose window column holds a
/// valid `true` resets its entity after it has emitted; without a
/// window nothing is ever reset. Null inputs are skipped. The token
/// first gets room for `key_capacity` entities. A row whose entity index
/// has no entry stops the batch there.
pub fn aggregate(
    token: &mut PrimitiveAccumToken,
    kind: AggregationKind,
    key_capacity: usize,
    key_indices: &Vec<u32>,
    input: &Vec<Option<i64>>,
    window: Option<&Vec<Option<bool>>>,
) -> (result: Result<Vec<Option<i64>>, EvalError>)
    requires
        key_indices@.len() == input@.len(),
        window matches Some(ticks) ==> key_indices@.len() == ticks@.len(),
    ensures
        ({
            let start = grown_states(old(token)@, key_capacity as nat);
            let ticks = window_of(
                match window {
                    Some(ticks) => Some(ticks@),
                    None => None,
                },
                key_indices@.len(),
            );
            match result {
                Ok(out) => indices_below(key_indices@, start.len()) && out@ == outputs(
                    kind,
                    start,
                    key_indices@,
                    input@,
                    ticks,
                ) && final(token)@ == held_states(
                    kind,
                    start,
                    key_indices@,
                    input@,
                    ticks,
                    key_indices@.len() as int,
                ),
                Err(e) => e == EvalError::EntityOutOfRange && exists|k: int|
                    #![trigger first_out_of_range(key_indices@, start.len(), k)]
                    first_out_of_range(key_indices@, start.len(), k) && final(token)@
                        == held_states(kind, start, key_indices@, input@, ticks, k),
            }
        }),
{
    token.resize(key_capacity);
    let ghost start = token@;
    let ghost ticks = window_of(
        match window {
            Some(ticks) => Some(ticks@),
            None => None,
        },
        key_indices@.len(),
    );
    assert(token@ =~= held_states(kind, start, key_indices@, input@, ticks, 0));
    let mut result: Vec<Option<i64>> = Vec::new();
    let mut i: usize = 0;
    while i < key_indices.len()
        invariant
            i <= key_indices@.len(),
            key_indices@.len() == input@.len(),
            key_indices@.len() == ticks.len(),
            window matches Some(given) ==> given@ == ticks,
            window is None ==> ticks == Seq::new(key_indices@.len(), |i: int| None::<bool>),
            token@ == held_states(kind, start, key_indices@, input@, ticks, i as int),
            result@.len() == i,
            start == grown_states(old(token)@, key_capacity as nat),
            forall|j: int| 0 <= j < i ==> (#[trigger] key_indices@[j]) < start.len(),
            forall|j: int|
                0 <= j < i ==> (#[trigger] result@[j]) == emitted_at(
                    kind,
                    start[key_indices@[j] as int],
                    key_indices@,
                    input@,
                    ticks,
                    key_indices@[j] as int,
                    j,
                ),
        decreases key_indices@.len() - i,
    {
        let tick: Option<bool> = match window {
            Some(given) => given[i],
            None => None,
        };
        assert(tick == ticks[i as int]);
        match token.observe(kind, key_indices[i], input[i], tick) {
            Ok(emitted) => {
                assert(token@ =~= held_states(
                    kind,
                    start,
                    key_indices@,
                    input@,
                    ticks,
                    i + 1,
                ));
                result.push(emitted);
            },
            Err(e) => {
                assert(first_out_of_range(key_indices@, start.len(), i as int));
                return Err(e);
            },
        }
        i += 1;
    }
    assert(result@ =~= outputs(kind, start, key_indices@, input@, ticks));
    Ok(result)
}

} // verus!
