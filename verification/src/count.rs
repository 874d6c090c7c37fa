use vstd::prelude::*;

use crate::batch::indices_below;
use crate::codec::{bytes_to_words, decode_words, encode_words, lemma_words_round_trip, words_to_bytes};
use crate::error::EvalError;
use crate::last_boolean::{closes, first_out_of_range};

verus! {

/// Whether a row is counted: only a valid `true` is.
pub open spec fn counted(flag: Option<bool>) -> bool {
    flag == Some(true)
}

/// Whether each value of a column is valid, as a column of its own.
pub open spec fn valid_flags<T>(input: Seq<Option<T>>) -> Seq<Option<bool>> {
    Seq::new(input.len(), |i: int| Some(input[i] is Some))
}

/// How many rows of entity `e` were counted in its open window once the
/// first `n` rows are taken in, `prior` being the number before them. A row
/// of `e` that closes the window leaves nothing.
pub open spec fn count_after(
    prior: nat,
    keys: Seq<u32>,
    flags: Seq<Option<bool>>,
    ticks: Seq<Option<bool>>,
    e: int,
    n: int,
) -> nat
    decreases n,
{
    if n <= 0 {
        prior
    } else if keys[n - 1] != e {
        count_after(prior, keys, flags, ticks, e, n - 1)
    } else if closes(ticks[n - 1]) {
        0
    } else if counted(flags[n - 1]) {
        count_after(prior, keys, flags, ticks, e, n - 1) + 1
    } else {
        count_after(prior, keys, flags, ticks, e, n - 1)
    }
}

/// The count that row `i` emits for its entity `e`: the row itself counts,
/// and the window closes only after the row has emitted.
pub open spec fn count_emitted(
    prior: nat,
    keys: Seq<u32>,
    flags: Seq<Option<bool>>,
    ticks: Seq<Option<bool>>,
    e: int,
    i: int,
) -> nat {
    if counted(flags[i]) {
        count_after(prior, keys, flags, ticks, e, i) + 1
    } else {
        count_after(prior, keys, flags, ticks, e, i)
    }
}

/// A count as the token holds it: counting stops at the largest number that
/// fits.
pub open spec fn capped(count: nat) -> u32 {
    if count >= u32::MAX {
        u32::MAX
    } else {
        count as u32
    }
}

/// The counts held once the first `n` rows are taken in.
pub open spec fn count_states(
    start: Seq<u32>,
    keys: Seq<u32>,
    flags: Seq<Option<bool>>,
    ticks: Seq<Option<bool>>,
    n: int,
) -> Seq<u32> {
    Seq::new(start.len(), |e: int| capped(count_after(start[e] as nat, keys, flags, ticks, e, n)))
}

/// What `count_if` emits row by row.
pub open spec fn count_outputs(
    start: Seq<u32>,
    keys: Seq<u32>,
    flags: Seq<Option<bool>>,
    ticks: Seq<Option<bool>>,
) -> Seq<u32> {
    Seq::new(
        keys.len(),
        |i: int|
            capped(count_emitted(start[keys[i] as int] as nat, keys, flags, ticks, keys[i] as int, i)),
    )
}

/// Counts for `len` entities of which the first `counts.len()` are those of
/// `counts` and the others are zero.
pub open spec fn grown_counts(counts: Seq<u32>, len: nat) -> Seq<u32> {
    if len <= counts.len() {
        counts
    } else {
        counts + Seq::new((len - counts.len()) as nat, |i: int| 0u32)
    }
}

/// The window column of an aggregation: the given one, or, without a window,
/// one that never closes.
pub open spec fn window_of(ticks: Option<Seq<Option<bool>>>, rows: nat) -> Seq<Option<bool>> {
    match ticks {
        Some(ticks) => ticks,
        None => Seq::new(rows, |i: int| None::<bool>),
    }
}

/// Counting from a capped count gives the same capped count as counting
/// from the count itself.
pub proof fn lemma_capped_count(
    prior: nat,
    keys: Seq<u32>,
    flags: Seq<Option<bool>>,
    ticks: Seq<Option<bool>>,
    e: int,
    n: int,
)
    requires
        keys.len() == flags.len(),
        keys.len() == ticks.len(),
        0 <= n <= keys.len(),
    ensures
        capped(count_after(capped(prior) as nat, keys, flags, ticks, e, n)) == capped(
            count_after(prior, keys, flags, ticks, e, n),
        ),
    decreases n,
{
    if n > 0 {
        lemma_capped_count(prior, keys, flags, ticks, e, n - 1);
    }
}

/// The count after `n` rows does not depend on the rows that follow them.
pub proof fn lemma_count_prefix(
    prior: nat,
    keys: Seq<u32>,
    flags: Seq<Option<bool>>,
    ticks: Seq<Option<bool>>,
    cut: int,
    e: int,
    n: int,
)
    requires
        keys.len() == flags.len(),
        keys.len() == ticks.len(),
        0 <= n <= cut <= keys.len(),
    ensures
        count_after(
            prior,
            keys.subrange(0, cut),
            flags.subrange(0, cut),
            ticks.subrange(0, cut),
            e,
            n,
        ) == count_after(prior, keys, flags, ticks, e, n),
    decreases n,
{
    if n > 0 {
        lemma_count_prefix(prior, keys, flags, ticks, cut, e, n - 1);
    }
}

/// Counting on from the count that earlier rows left is counting all of
/// them from the start.
pub proof fn lemma_count_suffix(
    prior: nat,
    keys: Seq<u32>,
    flags: Seq<Option<bool>>,
    ticks: Seq<Option<bool>>,
    cut: int,
    e: int,
    m: int,
)
    requires
        keys.len() == flags.len(),
        keys.len() == ticks.len(),
        0 <= cut <= keys.len(),
        0 <= m <= keys.len() - cut,
    ensures
        count_after(
            count_after(prior, keys, flags, ticks, e, cut),
            keys.subrange(cut, keys.len() as int),
            flags.subrange(cut, keys.len() as int),
            ticks.subrange(cut, keys.len() as int),
            e,
            m,
        ) == count_after(prior, keys, flags, ticks, e, cut + m),
    decreases m,
{
    if m > 0 {
        lemma_count_suffix(prior, keys, flags, ticks, cut, e, m - 1);
    }
}

/// Batch boundaries do not show: a batch cut in two at any row, the second
/// part fed after the first, emits the counts that the whole batch emits and
/// leaves the counts that the whole batch leaves.
pub proof fn lemma_count_split(
    start: Seq<u32>,
    keys: Seq<u32>,
    flags: Seq<Option<bool>>,
    ticks: Seq<Option<bool>>,
    cut: int,
)
    requires
        keys.len() == flags.len(),
        keys.len() == ticks.len(),
        0 <= cut <= keys.len(),
        indices_below(keys, start.len()),
    ensures
        ({
            let n = keys.len() as int;
            let mid = count_states(
                start,
                keys.subrange(0, cut),
                flags.subrange(0, cut),
                ticks.subrange(0, cut),
                cut,
            );
            &&& count_outputs(start, keys, flags, ticks) == count_outputs(
                start,
                keys.subrange(0, cut),
                flags.subrange(0, cut),
                ticks.subrange(0, cut),
            ) + count_outputs(
                mid,
                keys.subrange(cut, n),
                flags.subrange(cut, n),
                ticks.subrange(cut, n),
            )
            &&& count_states(start, keys, flags, ticks, n) == count_states(
                mid,
                keys.subrange(cut, n),
                flags.subrange(cut, n),
                ticks.subrange(cut, n),
                n - cut,
            )
        }),
{
    let n = keys.len() as int;
    let k1 = keys.subrange(0, cut);
    let f1 = flags.subrange(0, cut);
    let t1 = ticks.subrange(0, cut);
    let k2 = keys.subrange(cut, n);
    let f2 = flags.subrange(cut, n);
    let t2 = ticks.subrange(cut, n);
    let mid = count_states(start, k1, f1, t1, cut);
    let whole = count_outputs(start, keys, flags, ticks);
    let parts = count_outputs(start, k1, f1, t1) + count_outputs(mid, k2, f2, t2);
    assert forall|i: int| 0 <= i < n implies #[trigger] whole[i] == parts[i] by {
        let e = keys[i] as int;
        if i < cut {
            lemma_count_prefix(start[e] as nat, keys, flags, ticks, cut, e, i);
        } else {
            let left = count_after(start[e] as nat, keys, flags, ticks, e, cut);
            lemma_count_prefix(start[e] as nat, keys, flags, ticks, cut, e, cut);
            lemma_count_suffix(start[e] as nat, keys, flags, ticks, cut, e, i - cut);
            lemma_capped_count(left, k2, f2, t2, e, i - cut);
            assert(k2[i - cut] == keys[i]);
            assert(f2[i - cut] == flags[i]);
        }
    }
    assert(whole =~= parts);
    assert forall|e: int| 0 <= e < start.len() implies #[trigger] count_states(
        start,
        keys,
        flags,
        ticks,
        n,
    )[e] == count_states(mid, k2, f2, t2, n - cut)[e] by {
        let left = count_after(start[e] as nat, keys, flags, ticks, e, cut);
        lemma_count_prefix(start[e] as nat, keys, flags, ticks, cut, e, cut);
        lemma_count_suffix(start[e] as nat, keys, flags, ticks, cut, e, n - cut);
        lemma_capped_count(left, k2, f2, t2, e, n - cut);
    }
    assert(count_states(start, keys, flags, ticks, n) =~= count_states(mid, k2, f2, t2, n - cut));
}

/// The words that store counts: one for each entity.
pub open spec fn count_words(counts: Seq<u32>) -> Seq<u64> {
    Seq::new(counts.len(), |i: int| counts[i] as u64)
}

/// The stored form of counts.
pub open spec fn stored_counts(counts: Seq<u32>) -> Seq<u8> {
    words_to_bytes(count_words(counts))
}

/// Whether every word fits a count.
pub open spec fn are_counts(words: Seq<u64>) -> bool {
    forall|i: int| 0 <= i < words.len() ==> (#[trigger] words[i]) <= u32::MAX
}

/// The counts that bytes store, where they store counts.
pub open spec fn restored_counts(bytes: Seq<u8>) -> Option<Seq<u32>> {
    match bytes_to_words(bytes) {
        Some(words) => if are_counts(words) {
            Some(Seq::new(words.len(), |i: int| words[i] as u32))
        } else {
            None
        },
        None => None,
    }
}

/// Counts that were stored read back as they were.
pub proof fn lemma_counts_round_trip(counts: Seq<u32>)
    ensures
        restored_counts(stored_counts(counts)) == Some(counts),
{
    lemma_words_round_trip(count_words(counts));
    assert(restored_counts(stored_counts(counts))->Some_0 =~= counts);
}

/// Per-entity state of `count_if`: how many rows were counted in the open
/// window.
pub struct CountToken {
    counts: Vec<u32>,
}

impl View for CountToken {
    type V = Seq<u32>;

    closed spec fn view(&self) -> Seq<u32> {
        self.counts@
    }
}

impl CountToken {
    /// A token without entities.
    pub fn new() -> (token: CountToken)
        ensures
            token@ == Seq::<u32>::empty(),
    {
        CountToken { counts: Vec::new() }
    }

    /// The number of entities the token has room for.
    pub fn len(&self) -> (n: usize)
        ensures
            n == self@.len(),
    {
        self.counts.len()
    }

    /// Makes room for `len` entities. The token never shrinks, and the
    /// counts that are added are zero.
    pub fn resize(&mut self, len: usize)
        ensures
            final(self)@ == grown_counts(old(self)@, len as nat),
    {
        let ghost before = self.counts@;
        while self.counts.len() < len
            invariant
                before.len() <= self.counts@.len(),
                self.counts@.len() <= len || self.counts@.len() == before.len(),
                self.counts@ =~= before + Seq::new(
                    (self.counts@.len() - before.len()) as nat,
                    |i: int| 0u32,
                ),
            decreases len - self.counts@.len(),
        {
            self.counts.push(0);
        }
        assert(self.counts@ =~= grown_counts(before, len as nat));
    }

    /// The token's state as bytes: eight for each entity.
    pub fn serialize(&self) -> (bytes: Vec<u8>)
        ensures
            bytes@ == stored_counts(self@),
    {
        let mut words: Vec<u64> = Vec::new();
        let mut i: usize = 0;
        while i < self.counts.len()
            invariant
                i <= self.counts@.len(),
                words@.len() == i,
                forall|j: int| 0 <= j < i ==> (#[trigger] words@[j]) == self.counts@[j] as u64,
            decreases self.counts@.len() - i,
        {
            words.push(self.counts[i] as u64);
            i += 1;
        }
        assert(words@ =~= count_words(self@));
        encode_words(&words)
    }

    /// The token that `bytes` store. Fails exactly where they store no
    /// counts.
    pub fn deserialize(bytes: &Vec<u8>) -> (result: Result<CountToken, EvalError>)
        ensures
            match restored_counts(bytes@) {
                Some(counts) => result is Ok && result->Ok_0@ == counts,
                None => result is Err && result->Err_0 == EvalError::CorruptSnapshot,
            },
    {
        let words = match decode_words(bytes) {
            Some(words) => words,
            None => {
                return Err(EvalError::CorruptSnapshot);
            },
        };
        let mut counts: Vec<u32> = Vec::new();
        let mut i: usize = 0;
        while i < words.len()
            invariant
                i <= words@.len(),
                bytes_to_words(bytes@) == Some(words@),
                counts@.len() == i,
                forall|j: int| 0 <= j < i ==> (#[trigger] words@[j]) <= u32::MAX,
                forall|j: int| 0 <= j < i ==> (#[trigger] counts@[j]) == words@[j] as u32,
            decreases words@.len() - i,
        {
            let word: u64 = words[i];
            if word > u32::MAX as u64 {
                return Err(EvalError::CorruptSnapshot);
            }
            counts.push(word as u32);
            i += 1;
        }
        assert(counts@ =~= restored_counts(bytes@)->Some_0);
        Ok(CountToken { counts })
    }

    /// One row of entity `entity_index`: counts the row where the flag is a
    /// valid `true`, emits the count, and then resets it where the row
    /// closes the window.
    pub fn observe(&mut self, entity_index: u32, flag: Option<bool>, tick: Option<bool>) -> (result:
        Result<u32, EvalError>)
        ensures
            entity_index < old(self)@.len() ==> result == Ok::<u32, EvalError>(
                capped(
                    old(self)@[entity_index as int] as nat + (if counted(flag) {
                        1nat
                    } else {
                        0nat
                    }),
                ),
            ) && final(self)@ == old(self)@.update(
                entity_index as int,
                if closes(tick) {
                    0u32
                } else {
                    result->Ok_0
                },
            ),
            entity_index >= old(self)@.len() ==> result == Err::<u32, EvalError>(
                EvalError::EntityOutOfRange,
            ) && final(self)@ == old(self)@,
    {
        let index: usize = entity_index as usize;
        if index >= self.counts.len() {
            return Err(EvalError::EntityOutOfRange);
        }
        let held: u32 = self.counts[index];
        let emitted: u32 = match flag {
            Some(true) => held.saturating_add(1),
            _ => held,
        };
        let left: u32 = match tick {
            Some(true) => 0,
            _ => emitted,
        };
        self.counts[index] = left;
        Ok(emitted)
    }
}

/// Runs `count_if`, and through the validity of its input `count`. Takes a
/// batch in, row by row, and returns the count at each row: the
/// number of rows of the row's entity, itself included, on which
/// `flags` holds a valid `true` since the window was last closed. The
/// count is never null at a row, since the row's entity has appeared;
/// it is zero where nothing was counted. Without a window nothing is
/// ever reset. Counting stops at the largest number that fits. The token
/// first gets room for `key_capacity` entities. A row whose entity index
/// has no entry stops the batch there.
pub fn count_if(
    token: &mut CountToken,
    key_capacity: usize,
    key_indices: &Vec<u32>,
    flags: &Vec<Option<bool>>,
    window: Option<&Vec<Option<bool>>>,
) -> (result: Result<Vec<u32>, EvalError>)
    requires
        key_indices@.len() == flags@.len(),
        window matches Some(ticks) ==> key_indices@.len() == ticks@.len(),
    ensures
        ({
            let start = grown_counts(old(token)@, key_capacity as nat);
            let ticks = window_of(
                match window {
                    Some(ticks) => Some(ticks@),
                    None => None,
                },
                key_indices@.len(),
            );
            match result {
                Ok(out) => indices_below(key_indices@, start.len()) && out@ == count_outputs(
                    start,
                    key_indices@,
                    flags@,
                    ticks,
                ) && final(token)@ == count_states(
                    start,
                    key_indices@,
                    flags@,
                    ticks,
                    key_indices@.len() as int,
                ),
                Err(e) => e == EvalError::EntityOutOfRange && exists|k: int|
                    #![trigger first_out_of_range(key_indices@, start.len(), k)]
                    first_out_of_range(key_indices@, start.len(), k) && final(token)@
                        == count_states(start, key_indices@, flags@, ticks, k),
            }
        }),
{
    token.resize(key_capacity);
    let ghost start = token@;
    let ghost ticks = window_of(
        match window {
            Some(ticks) => Some(ticks@),
            None => None,
        },
        key_indices@.len(),
    );
    assert(token@ =~= count_states(start, key_indices@, flags@, ticks, 0));
    let mut result: Vec<u32> = Vec::new();
    let mut i: usize = 0;
    while i < key_indices.len()
        invariant
            i <= key_indices@.len(),
            key_indices@.len() == flags@.len(),
            key_indices@.len() == ticks.len(),
            window matches Some(given) ==> given@ == ticks,
            window is None ==> ticks == Seq::new(key_indices@.len(), |i: int| None::<bool>),
            token@ == count_states(start, key_indices@, flags@, ticks, i as int),
            result@.len() == i,
            start == grown_counts(old(token)@, key_capacity as nat),
            forall|j: int| 0 <= j < i ==> (#[trigger] key_indices@[j]) < start.len(),
            forall|j: int|
                0 <= j < i ==> (#[trigger] result@[j]) == capped(
                    count_emitted(
                        start[key_indices@[j] as int] as nat,
                        key_indices@,
                        flags@,
                        ticks,
                        key_indices@[j] as int,
                        j,
                    ),
                ),
        decreases key_indices@.len() - i,
    {
        let tick: Option<bool> = match window {
            Some(given) => given[i],
            None => None,
        };
        assert(tick == ticks[i as int]);
        match token.observe(key_indices[i], flags[i], tick) {
            Ok(emitted) => {
                assert(token@ =~= count_states(start, key_indices@, flags@, ticks, i + 1));
                result.push(emitted);
            },
            Err(e) => {
                assert(first_out_of_range(key_indices@, start.len(), i as int));
                return Err(e);
            },
        }
        i += 1;
    }
    assert(result@ =~= count_outputs(start, key_indices@, flags@, ticks));
    Ok(result)
}

/// The flags that `count` counts: whether each value is valid.
pub fn is_valid(input: &Vec<Option<i64>>) -> (flags: Vec<Option<bool>>)
    ensures
        flags@ == valid_flags(input@),
{
    let mut flags: Vec<Option<bool>> = Vec::new();
    let mut i: usize = 0;
    while i < input.len()
        invariant
            i <= input@.len(),
            flags@.len() == i,
            forall|j: int| 0 <= j < i ==> (#[trigger] flags@[j]) == Some(input@[j] is Some),
        decreases input@.len() - i,
    {
        flags.push(Some(input[i].is_some()));
        i += 1;
    }
    assert(flags@ =~= valid_flags(input@));
    flags
}

} // verus!
