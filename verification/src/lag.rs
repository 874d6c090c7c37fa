use vstd::prelude::*;

use crate::batch::{
    indices_below, int64s_of, lemma_operand_rows, Column, RuntimeInfo, ValueRef,
};
use crate::codec::{
    bytes_to_words, decode_lists, decode_words, encode_lists, encode_words, flatten,
    lemma_lists_round_trip, lemma_words_round_trip, lists_of, unflatten, words_to_bytes,
};
use crate::error::EvalError;
use crate::last_boolean::first_out_of_range;

verus! {

/// The non-null inputs of entity `e` among the first `n` rows, in row order.
pub open spec fn valid_of(keys: Seq<u32>, input: Seq<Option<i64>>, e: int, n: int) -> Seq<i64>
    decreases n,
{
    if n <= 0 {
        Seq::empty()
    } else if keys[n - 1] == e && input[n - 1] is Some {
        valid_of(keys, input, e, n - 1).push(input[n - 1]->Some_0)
    } else {
        valid_of(keys, input, e, n - 1)
    }
}

/// What a row emits when `history` holds the non-null values that its entity
/// had before it: the value `lag` places from the end, or null where there
/// are fewer.
pub open spec fn lag_emitted(history: Seq<i64>, lag: nat) -> Option<i64> {
    if history.len() >= lag {
        Some(history[history.len() - lag])
    } else {
        None
    }
}

/// The part of a history that is kept: its last `lag` values.
pub open spec fn kept(history: Seq<i64>, lag: nat) -> Seq<i64> {
    if history.len() <= lag {
        history
    } else {
        history.subrange(history.len() - lag, history.len() as int)
    }
}

/// Buffers for `len` entities of which the first `buffers.len()` are those
/// of `buffers` and the others are empty.
pub open spec fn grown_buffers(buffers: Seq<Seq<i64>>, len: nat) -> Seq<Seq<i64>> {
    if len <= buffers.len() {
        buffers
    } else {
        buffers + Seq::new((len - buffers.len()) as nat, |i: int| Seq::<i64>::empty())
    }
}

/// What `lag` emits row by row, from the buffers `start`.
pub open spec fn lag_outputs(
    start: Seq<Seq<i64>>,
    keys: Seq<u32>,
    input: Seq<Option<i64>>,
    lag: nat,
) -> Seq<Option<i64>> {
    Seq::new(
        keys.len(),
        |i: int|
            lag_emitted(start[keys[i] as int] + valid_of(keys, input, keys[i] as int, i), lag),
    )
}

/// Every entity's buffer once the first `n` rows are taken in.
pub open spec fn lag_states(
    start: Seq<Seq<i64>>,
    keys: Seq<u32>,
    input: Seq<Option<i64>>,
    lag: nat,
    n: int,
) -> Seq<Seq<i64>> {
    Seq::new(start.len(), |e: int| kept(start[e] + valid_of(keys, input, e, n), lag))
}

/// Only the kept part of a history matters: what is emitted after further
/// values, and what is kept after them, are the same from the whole history
/// and from its last `lag` values.
pub proof fn lemma_kept_suffices(history: Seq<i64>, more: Seq<i64>, lag: nat)
    requires
        lag >= 1,
    ensures
        lag_emitted(kept(history, lag) + more, lag) == lag_emitted(history + more, lag),
        kept(kept(history, lag) + more, lag) == kept(history + more, lag),
        kept(history, lag).len() <= lag,
{
    assert(kept(kept(history, lag) + more, lag) =~= kept(history + more, lag));
}

/// At the row where an entity has had `k` non-null values before, `lag`
/// emits the `lag`-th last of them, and null where `k < lag`.
pub proof fn lemma_lag_reads_back(history: Seq<i64>, lag: nat)
    requires
        lag >= 1,
    ensures
        history.len() < lag ==> lag_emitted(history, lag) is None,
        history.len() >= lag ==> lag_emitted(history, lag) == Some(history[history.len() - lag]),
        lag == 1 && history.len() >= 1 ==> lag_emitted(history, lag) == Some(history.last()),
{
}

/// The non-null inputs among the first `n` rows do not depend on the rows
/// that follow them.
pub proof fn lemma_valid_of_prefix(
    keys: Seq<u32>,
    input: Seq<Option<i64>>,
    cut: int,
    e: int,
    n: int,
)
    requires
        keys.len() == input.len(),
        0 <= n <= cut <= keys.len(),
    ensures
        valid_of(keys.subrange(0, cut), input.subrange(0, cut), e, n) == valid_of(
            keys,
            input,
            e,
            n,
        ),
    decreases n,
{
    if n > 0 {
        lemma_valid_of_prefix(keys, input, cut, e, n - 1);
    }
}

/// The non-null inputs of a batch are those of its first part and then
/// those of the rest.
pub proof fn lemma_valid_of_suffix(
    keys: Seq<u32>,
    input: Seq<Option<i64>>,
    cut: int,
    e: int,
    m: int,
)
    requires
        keys.len() == input.len(),
        0 <= cut <= keys.len(),
        0 <= m <= keys.len() - cut,
    ensures
        valid_of(keys, input, e, cut + m) == valid_of(keys, input, e, cut) + valid_of(
            keys.subrange(cut, keys.len() as int),
            input.subrange(cut, keys.len() as int),
            e,
            m,
        ),
    decreases m,
{
    let rest_keys = keys.subrange(cut, keys.len() as int);
    let rest_input = input.subrange(cut, keys.len() as int);
    if m > 0 {
        lemma_valid_of_suffix(keys, input, cut, e, m - 1);
        assert(rest_keys[m - 1] == keys[cut + m - 1]);
        assert(rest_input[m - 1] == input[cut + m - 1]);
        let head = valid_of(keys, input, e, cut);
        let tail = valid_of(rest_keys, rest_input, e, m - 1);
        if keys[cut + m - 1] == e && input[cut + m - 1] is Some {
            assert((head + tail).push(input[cut + m - 1]->Some_0) =~= head + tail.push(
                input[cut + m - 1]->Some_0,
            ));
        }
    } else {
        assert(valid_of(keys, input, e, cut) + Seq::<i64>::empty() =~= valid_of(
            keys,
            input,
            e,
            cut,
        ));
    }
}

/// Batch boundaries do not show: a batch cut in two at any row, the second
/// part fed after the first, emits what the whole batch emits and leaves the
/// buffers that the whole batch leaves.
pub proof fn lemma_lag_split(
    start: Seq<Seq<i64>>,
    keys: Seq<u32>,
    input: Seq<Option<i64>>,
    lag: nat,
    cut: int,
)
    requires
        lag >= 1,
        keys.len() == input.len(),
        0 <= cut <= keys.len(),
        indices_below(keys, start.len()),
    ensures
        ({
            let n = keys.len() as int;
            let mid = lag_states(start, keys.subrange(0, cut), input.subrange(0, cut), lag, cut);
            &&& lag_outputs(start, keys, input, lag) == lag_outputs(
                start,
                keys.subrange(0, cut),
                input.subrange(0, cut),
                lag,
            ) + lag_outputs(mid, keys.subrange(cut, n), input.subrange(cut, n), lag)
            &&& lag_states(start, keys, input, lag, n) == lag_states(
                mid,
                keys.subrange(cut, n),
                input.subrange(cut, n),
                lag,
                n - cut,
            )
        }),
{
    let n = keys.len() as int;
    let k1 = keys.subrange(0, cut);
    let i1 = input.subrange(0, cut);
    let k2 = keys.subrange(cut, n);
    let i2 = input.subrange(cut, n);
    let mid = lag_states(start, k1, i1, lag, cut);
    let whole = lag_outputs(start, keys, input, lag);
    let parts = lag_outputs(start, k1, i1, lag) + lag_outputs(mid, k2, i2, lag);
    assert forall|i: int| 0 <= i < n implies #[trigger] whole[i] == parts[i] by {
        let e = keys[i] as int;
        if i < cut {
            lemma_valid_of_prefix(keys, input, cut, e, i);
        } else {
            lemma_valid_of_prefix(keys, input, cut, e, cut);
            lemma_valid_of_suffix(keys, input, cut, e, i - cut);
            let head = valid_of(keys, input, e, cut);
            let tail = valid_of(k2, i2, e, i - cut);
            lemma_kept_suffices(start[e] + head, tail, lag);
            assert(start[e] + (head + tail) =~= (start[e] + head) + tail);
            assert(k2[i - cut] == keys[i]);
        }
    }
    assert(whole =~= parts);
    assert forall|e: int| 0 <= e < start.len() implies #[trigger] lag_states(
        start,
        keys,
        input,
        lag,
        n,
    )[e] == lag_states(mid, k2, i2, lag, n - cut)[e] by {
        lemma_valid_of_prefix(keys, input, cut, e, cut);
        lemma_valid_of_suffix(keys, input, cut, e, n - cut);
        let head = valid_of(keys, input, e, cut);
        let tail = valid_of(k2, i2, e, n - cut);
        lemma_kept_suffices(start[e] + head, tail, lag);
        assert(start[e] + (head + tail) =~= (start[e] + head) + tail);
    }
    assert(lag_states(start, keys, input, lag, n) =~= lag_states(mid, k2, i2, lag, n - cut));
}

/// The words that store a buffer: one for each value.
pub open spec fn buffer_words(buffer: Seq<i64>) -> Seq<u64> {
    Seq::new(buffer.len(), |j: int| buffer[j] as u64)
}

/// The values that words store.
pub open spec fn words_buffer(words: Seq<u64>) -> Seq<i64> {
    Seq::new(words.len(), |j: int| #[verifier::truncate] (words[j] as i64))
}

/// The stored form of buffers.
pub open spec fn stored_buffers(buffers: Seq<Seq<i64>>) -> Seq<u8> {
    words_to_bytes(flatten(Seq::new(buffers.len(), |e: int| buffer_words(buffers[e]))))
}

/// The buffers that bytes store for an evaluator that reads `lag` values
/// back, where they store buffers of no more than `lag` values.
pub open spec fn restored_buffers(bytes: Seq<u8>, lag: nat) -> Option<Seq<Seq<i64>>> {
    match bytes_to_words(bytes) {
        Some(words) => match unflatten(words) {
            Some(lists) => {
                let buffers = Seq::new(lists.len(), |e: int| words_buffer(lists[e]));
                if within(buffers, lag) {
                    Some(buffers)
                } else {
                    None
                }
            },
            None => None,
        },
        None => None,
    }
}

/// Buffers that were stored read back as they were.
pub proof fn lemma_buffers_round_trip(buffers: Seq<Seq<i64>>, lag: nat)
    requires
        within(buffers, lag),
        lag <= u64::MAX,
    ensures
        restored_buffers(stored_buffers(buffers), lag) == Some(buffers),
{
    let lists = Seq::new(buffers.len(), |e: int| buffer_words(buffers[e]));
    assert forall|e: int| 0 <= e < lists.len() implies (#[trigger] lists[e]).len() <= u64::MAX by {
        assert(buffers[e].len() <= lag);
    }
    lemma_lists_round_trip(lists);
    lemma_words_round_trip(flatten(lists));
    let read = Seq::new(lists.len(), |e: int| words_buffer(lists[e]));
    assert forall|e: int| 0 <= e < buffers.len() implies #[trigger] read[e] == buffers[e] by {
        assert forall|j: int| 0 <= j < buffers[e].len() implies words_buffer(lists[e])[j]
            == buffers[e][j] by {
            let value = buffers[e][j];
            assert((value as u64) as i64 == value) by (bit_vector);
        }
        assert(read[e] =~= buffers[e]);
    }
    assert(read =~= buffers);
}

/// Per-entity state of `lag`: for each entity its latest non-null values,
/// oldest first.
pub struct LagToken {
    buffers: Vec<Vec<i64>>,
}

impl View for LagToken {
    type V = Seq<Seq<i64>>;

    closed spec fn view(&self) -> Seq<Seq<i64>> {
        Seq::new(self.buffers@.len(), |e: int| self.buffers@[e]@)
    }
}

/// No buffer holds more than `lag` values.
pub open spec fn within(buffers: Seq<Seq<i64>>, lag: nat) -> bool {
    forall|e: int| 0 <= e < buffers.len() ==> (#[trigger] buffers[e]).len() <= lag
}

impl LagToken {
    /// A token without entities.
    pub fn new() -> (token: LagToken)
        ensures
            token@ == Seq::<Seq<i64>>::empty(),
    {
        let token = LagToken { buffers: Vec::new() };
        assert(token@ =~= Seq::<Seq<i64>>::empty());
        token
    }

    /// The number of entities the token has room for.
    pub fn len(&self) -> (n: usize)
        ensures
            n == self@.len(),
    {
        self.buffers.len()
    }

    /// Makes room for `len` entities. The token never shrinks, and the
    /// buffers that are added are empty.
    pub fn resize(&mut self, len: usize)
        ensures
            final(self)@ == grown_buffers(old(self)@, len as nat),
    {
        let ghost before = self@;
        while self.buffers.len() < len
            invariant
                before.len() <= self@.len(),
                self@.len() <= len || self@.len() == before.len(),
                self@ =~= before + Seq::new(
                    (self@.len() - before.len()) as nat,
                    |i: int| Seq::<i64>::empty(),
                ),
            decreases len - self.buffers@.len(),
        {
            let ghost prev = self@;
            self.buffers.push(Vec::new());
            assert(self@ =~= prev.push(Seq::<i64>::empty()));
        }
        assert(self@ =~= grown_buffers(before, len as nat));
    }

    /// The token's state as bytes.
    pub fn serialize(&self) -> (bytes: Vec<u8>)
        ensures
            bytes@ == stored_buffers(self@),
    {
        let mut lists: Vec<Vec<u64>> = Vec::new();
        let mut e: usize = 0;
        while e < self.buffers.len()
            invariant
                e <= self.buffers@.len(),
                lists@.len() == e,
                forall|k: int|
                    0 <= k < e ==> (#[trigger] lists@[k])@ == buffer_words(self.buffers@[k]@),
            decreases self.buffers@.len() - e,
        {
            let buffer = &self.buffers[e];
            let mut words: Vec<u64> = Vec::new();
            let mut j: usize = 0;
            while j < buffer.len()
                invariant
                    j <= buffer@.len(),
                    words@.len() == j,
                    forall|k: int| 0 <= k < j ==> (#[trigger] words@[k]) == buffer@[k] as u64,
                decreases buffer@.len() - j,
            {
                words.push(buffer[j] as u64);
                j += 1;
            }
            assert(words@ =~= buffer_words(buffer@));
            lists.push(words);
            e += 1;
        }
        assert(lists_of(lists@) =~= Seq::new(self@.len(), |e: int| buffer_words(self@[e])));
        let words = encode_lists(&lists);
        encode_words(&words)
    }

    /// The token that `bytes` store for an evaluator that reads `lag`
    /// values back. Fails exactly where they store no buffers, or a buffer
    /// of more than `lag` values.
    pub fn deserialize(bytes: &Vec<u8>, lag: usize) -> (result: Result<LagToken, EvalError>)
        ensures
            match restored_buffers(bytes@, lag as nat) {
                Some(buffers) => result is Ok && result->Ok_0@ == buffers,
                None => result is Err && result->Err_0 == EvalError::CorruptSnapshot,
            },
    {
        let words = match decode_words(bytes) {
            Some(words) => words,
            None => {
                return Err(EvalError::CorruptSnapshot);
            },
        };
        let lists = match decode_lists(&words) {
            Some(lists) => lists,
            None => {
                return Err(EvalError::CorruptSnapshot);
            },
        };
        let ghost read = Seq::new(lists@.len(), |e: int| words_buffer(lists@[e]@));
        assert(read =~= Seq::new(
            lists_of(lists@).len(),
            |e: int| words_buffer(lists_of(lists@)[e]),
        ));
        assert(restored_buffers(bytes@, lag as nat) == (if within(read, lag as nat) {
            Some(read)
        } else {
            None
        }));
        let mut buffers: Vec<Vec<i64>> = Vec::new();
        let mut e: usize = 0;
        while e < lists.len()
            invariant
                e <= lists@.len(),
                buffers@.len() == e,
                read == Seq::new(lists@.len(), |e: int| words_buffer(lists@[e]@)),
                restored_buffers(bytes@, lag as nat) == (if within(read, lag as nat) {
                    Some(read)
                } else {
                    None
                }),
                forall|k: int| 0 <= k < e ==> (#[trigger] buffers@[k])@ == read[k],
                forall|k: int| 0 <= k < e ==> (#[trigger] read[k]).len() <= lag,
            decreases lists@.len() - e,
        {
            let list = &lists[e];
            if list.len() > lag {
                assert(read[e as int].len() > lag);
                return Err(EvalError::CorruptSnapshot);
            }
            let mut buffer: Vec<i64> = Vec::new();
            let mut j: usize = 0;
            while j < list.len()
                invariant
                    j <= list@.len(),
                    buffer@.len() == j,
                    forall|k: int|
                        0 <= k < j ==> (#[trigger] buffer@[k]) == #[verifier::truncate] (list@[k]
                            as i64),
                decreases list@.len() - j,
            {
                buffer.push(#[verifier::truncate] (list[j] as i64));
                j += 1;
            }
            assert(buffer@ =~= read[e as int]);
            buffers.push(buffer);
            e += 1;
        }
        let token = LagToken { buffers };
        assert(token@ =~= read);
        Ok(token)
    }

    /// One row of entity `entity_index`: emits the oldest value where the
    /// buffer is full, then takes the input in where it is valid.
    pub fn observe(&mut self, lag: usize, entity_index: u32, input: Option<i64>) -> (result:
        Result<Option<i64>, EvalError>)
        requires
            lag >= 1,
            within(old(self)@, lag as nat),
        ensures
            within(final(self)@, lag as nat),
            entity_index < old(self)@.len() ==> result == Ok::<Option<i64>, EvalError>(
                lag_emitted(old(self)@[entity_index as int], lag as nat),
            ) && final(self)@ == old(self)@.update(
                entity_index as int,
                match input {
                    Some(value) => kept(old(self)@[entity_index as int].push(value), lag as nat),
                    None => old(self)@[entity_index as int],
                },
            ),
            entity_index >= old(self)@.len() ==> result == Err::<Option<i64>, EvalError>(
                EvalError::EntityOutOfRange,
            ) && final(self)@ == old(self)@,
    {
        let index: usize = entity_index as usize;
        if index >= self.buffers.len() {
            return Err(EvalError::EntityOutOfRange);
        }
        let ghost before = self@;
        assert(before[index as int] == self.buffers@[index as int]@);
        let mut buffer: Vec<i64> = Vec::new();
        std::mem::swap(&mut buffer, &mut self.buffers[index]);
        let emitted = if buffer.len() == lag {
            Some(buffer[0])
        } else {
            None
        };
        if let Some(value) = input {
            if buffer.len() == lag {
                buffer.remove(0);
            }
            buffer.push(value);
            assert(buffer@ =~= kept(before[index as int].push(value), lag as nat));
        }
        self.buffers[index] = buffer;
        assert(self@ =~= before.update(
            index as int,
            match input {
                Some(value) => kept(before[index as int].push(value), lag as nat),
                None => before[index as int],
            },
        ));
        Ok(emitted)
    }
}

/// Evaluator for the `lag` instruction on 64-bit integers.
pub struct LagEvaluator {
    lag: usize,
    input: ValueRef,
    token: LagToken,
}

impl LagEvaluator {
    /// How far back the evaluator reads.
    pub closed spec fn lag(&self) -> nat {
        self.lag as nat
    }

    /// The operand the evaluator reads.
    pub closed spec fn input(&self) -> ValueRef {
        self.input
    }

    /// The buffer held for each entity.
    pub closed spec fn state(&self) -> Seq<Seq<i64>> {
        self.token@
    }

    /// The evaluator reads at least one value back and holds no more values
    /// than that for any entity.
    pub closed spec fn wf(&self) -> bool {
        self.lag >= 1 && within(self.token@, self.lag as nat)
    }

    /// The evaluator that reads `lag` values back in `input`. A lag below
    /// one is not supported.
    pub fn try_new(lag: i64, input: ValueRef) -> (result: Result<LagEvaluator, EvalError>)
        ensures
            lag >= 1 && lag <= usize::MAX ==> result is Ok && result->Ok_0.wf()
                && result->Ok_0.lag() == lag && result->Ok_0.input() == input
                && result->Ok_0.state() == Seq::<Seq<i64>>::empty(),
            !(lag >= 1 && lag <= usize::MAX) ==> result is Err && result->Err_0
                == EvalError::UnsupportedArgument,
    {
        if lag < 1 || lag as u64 > usize::MAX as u64 {
            return Err(EvalError::UnsupportedArgument);
        }
        Ok(LagEvaluator { lag: lag as usize, input, token: LagToken::new() })
    }

    /// Takes a batch in, row by row, and returns what `lag` emits at each
    /// row: the value that its entity had `lag` non-null values ago, the
    /// row's own value not counted, or null where there were fewer. The
    /// token first gets room for `key_capacity` entities. A row whose entity
    /// index has no entry stops the batch there.
    pub fn lag_batch(
        token: &mut LagToken,
        lag: usize,
        key_capacity: usize,
        key_indices: &Vec<u32>,
        input: &Vec<Option<i64>>,
    ) -> (result: Result<Vec<Option<i64>>, EvalError>)
        requires
            lag >= 1,
            within(old(token)@, lag as nat),
            key_indices@.len() == input@.len(),
        ensures
            within(final(token)@, lag as nat),
            ({
                let start = grown_buffers(old(token)@, key_capacity as nat);
                match result {
                    Ok(out) => indices_below(key_indices@, start.len()) && out@ == lag_outputs(
                        start,
                        key_indices@,
                        input@,
                        lag as nat,
                    ) && final(token)@ == lag_states(
                        start,
                        key_indices@,
                        input@,
                        lag as nat,
                        key_indices@.len() as int,
                    ),
                    Err(e) => e == EvalError::EntityOutOfRange && exists|k: int|
                        #![trigger first_out_of_range(key_indices@, start.len(), k)]
                        first_out_of_range(key_indices@, start.len(), k) && final(token)@
                            == lag_states(start, key_indices@, input@, lag as nat, k),
                }
            }),
    {
        token.resize(key_capacity);
        let ghost start = token@;
        assert(token@ =~= lag_states(start, key_indices@, input@, lag as nat, 0)) by {
            assert forall|e: int| 0 <= e < start.len() implies #[trigger] start[e] == kept(
                start[e] + valid_of(key_indices@, input@, e, 0),
                lag as nat,
            ) by {
                assert(start[e] + Seq::<i64>::empty() =~= start[e]);
            }
        }
        let mut result: Vec<Option<i64>> = Vec::new();
        let mut i: usize = 0;
        while i < key_indices.len()
            invariant
                lag >= 1,
                i <= key_indices@.len(),
                key_indices@.len() == input@.len(),
                within(token@, lag as nat),
                within(start, lag as nat),
                token@ == lag_states(start, key_indices@, input@, lag as nat, i as int),
                result@.len() == i,
                start == grown_buffers(old(token)@, key_capacity as nat),
                forall|j: int| 0 <= j < i ==> (#[trigger] key_indices@[j]) < start.len(),
                forall|j: int|
                    0 <= j < i ==> (#[trigger] result@[j]) == lag_emitted(
                        start[key_indices@[j] as int] + valid_of(
                            key_indices@,
                            input@,
                            key_indices@[j] as int,
                            j,
                        ),
                        lag as nat,
                    ),
            decreases key_indices@.len() - i,
        {
            let entity_index: u32 = key_indices[i];
            let ghost held = token@;
            match token.observe(lag, entity_index, input[i]) {
                Ok(emitted) => {
                    proof {
                        let e = entity_index as int;
                        let history = start[e] + valid_of(key_indices@, input@, e, i as int);
                        lemma_kept_suffices(history, Seq::empty(), lag as nat);
                        assert(history + Seq::<i64>::empty() =~= history);
                        assert(held[e] == kept(history, lag as nat));
                        assert(lag_emitted(held[e], lag as nat) == lag_emitted(
                            history,
                            lag as nat,
                        ));
                        if let Some(value) = input@[i as int] {
                            lemma_kept_suffices(history, seq![value], lag as nat);
                            assert(history + seq![value] =~= history.push(value));
                            assert(held[e] + seq![value] =~= held[e].push(value));
                            assert(start[e] + valid_of(key_indices@, input@, e, i + 1)
                                =~= history.push(value));
                        }
                        assert(token@ =~= lag_states(
                            start,
                            key_indices@,
                            input@,
                            lag as nat,
                            i + 1,
                        ));
                    }
                    result.push(emitted);
                },
                Err(e) => {
                    assert(first_out_of_range(key_indices@, start.len(), i as int));
                    return Err(e);
                },
            }
            i += 1;
        }
        assert(result@ =~= lag_outputs(start, key_indices@, input@, lag as nat));
        Ok(result)
    }

    /// Takes one batch in and returns the value of `lag` at each of its
    /// rows. Where the operand is missing or stands for no 64-bit integers
    /// the state is left as it was.
    pub fn evaluate(&mut self, info: &RuntimeInfo) -> (result: Result<Column, EvalError>)
        requires
            info.wf(),
            old(self).wf(),
        ensures
            final(self).wf(),
            final(self).lag() == old(self).lag(),
            final(self).input() == old(self).input(),
            ({
                let keys = info.spec_grouping().spec_group_indices();
                let columns = info.spec_columns();
                let start = grown_buffers(
                    old(self).state(),
                    info.spec_grouping().spec_num_groups() as nat,
                );
                match int64s_of(columns, keys.len(), old(self).input()) {
                    Ok(values) => result matches Ok(Column::Int64(out)) && out@ == lag_outputs(
                        start,
                        keys,
                        values,
                        old(self).lag(),
                    ) && final(self).state() == lag_states(
                        start,
                        keys,
                        values,
                        old(self).lag(),
                        keys.len() as int,
                    ),
                    Err(e) => result == Err::<Column, EvalError>(e) && final(self).state() == old(self).state(),
                }
            }),
    {
        proof {
            info.lemma_wf();
            info.spec_grouping().lemma_wf();
            lemma_operand_rows(
                info.spec_columns(),
                info.spec_grouping().spec_group_indices().len(),
                self.input,
            );
        }
        let grouping = info.grouping();
        let column = match info.value(&self.input) {
            Ok(column) => column,
            Err(e) => {
                return Err(e);
            },
        };
        let values = match column.int64_array() {
            Ok(values) => values,
            Err(e) => {
                return Err(e);
            },
        };
        match Self::lag_batch(
            &mut self.token,
            self.lag,
            grouping.num_groups(),
            grouping.group_indices(),
            values.values(),
        ) {
            Ok(out) => Ok(Column::Int64(out)),
            Err(e) => Err(e),
        }
    }
}

} // verus!
