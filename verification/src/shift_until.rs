use vstd::prelude::*;

use crate::batch::indices_below;
use crate::codec::{
    bytes_to_words, decode_lists, decode_words, encode_lists, encode_words, flatten,
    lemma_lists_round_trip, lemma_words_round_trip, lists_of, unflatten, words_to_bytes,
};
use crate::error::EvalError;
use crate::primitive::{
    are_states, lemma_state_words_round_trip, state_words, states_of, states_to_words,
    words_to_states,
};
use crate::last_boolean::{closes, first_out_of_range};

verus! {

/// A row that was emitted once its entity's condition came true.
#[derive(Debug, Clone, Copy, PartialEq, Eq, Structural)]
pub struct Released {
    /// The time of the row whose condition was true.
    pub time: i64,
    /// The number of the row among those that its batch emitted.
    pub subsort: u64,
    /// The entity of the row.
    pub entity: u32,
    /// What the row carries.
    pub value: Option<i64>,
}

/// The values that wait for entity `e` once the first `n` rows are taken in:
/// those of its rows since the last one whose condition was true.
pub open spec fn held_after(
    prior: Seq<Option<i64>>,
    keys: Seq<u32>,
    values: Seq<Option<i64>>,
    cond: Seq<Option<bool>>,
    e: int,
    n: int,
) -> Seq<Option<i64>>
    decreases n,
{
    if n <= 0 {
        prior
    } else if keys[n - 1] != e {
        held_after(prior, keys, values, cond, e, n - 1)
    } else if closes(cond[n - 1]) {
        Seq::empty()
    } else {
        held_after(prior, keys, values, cond, e, n - 1).push(values[n - 1])
    }
}

/// The values that row `i` lets go: where its condition is true, what waited
/// for its entity and then its own value, in the order in which they came.
pub open spec fn let_go(
    start: Seq<Seq<Option<i64>>>,
    keys: Seq<u32>,
    values: Seq<Option<i64>>,
    cond: Seq<Option<bool>>,
    i: int,
) -> Seq<Option<i64>> {
    if closes(cond[i]) {
        held_after(start[keys[i] as int], keys, values, cond, keys[i] as int, i).push(values[i])
    } else {
        Seq::empty()
    }
}

/// What the first `n` rows emit, without the numbering: the values that each
/// row lets go, at that row's time and for that row's entity.
pub open spec fn emitted_upto(
    start: Seq<Seq<Option<i64>>>,
    keys: Seq<u32>,
    times: Seq<i64>,
    values: Seq<Option<i64>>,
    cond: Seq<Option<bool>>,
    n: int,
) -> Seq<Released>
    decreases n,
{
    if n <= 0 {
        Seq::empty()
    } else {
        let gone = let_go(start, keys, values, cond, n - 1);
        emitted_upto(start, keys, times, values, cond, n - 1) + Seq::new(
            gone.len(),
            |j: int| Released { time: times[n - 1], subsort: 0, entity: keys[n - 1], value: gone[j] },
        )
    }
}

/// Rows numbered from zero in their order.
pub open spec fn renumbered(rows: Seq<Released>) -> Seq<Released> {
    Seq::new(rows.len(), |i: int| Released { subsort: i as u64, ..rows[i] })
}

/// Every entity's waiting values once the first `n` rows are taken in.
pub open spec fn held_states(
    start: Seq<Seq<Option<i64>>>,
    keys: Seq<u32>,
    values: Seq<Option<i64>>,
    cond: Seq<Option<bool>>,
    n: int,
) -> Seq<Seq<Option<i64>>> {
    Seq::new(start.len(), |e: int| held_after(start[e], keys, values, cond, e, n))
}

/// Buffers for `len` entities of which the first `buffers.len()` are those
/// of `buffers` and the others are empty.
pub open spec fn grown_held(buffers: Seq<Seq<Option<i64>>>, len: nat) -> Seq<Seq<Option<i64>>> {
    if len <= buffers.len() {
        buffers
    } else {
        buffers + Seq::new((len - buffers.len()) as nat, |i: int| Seq::<Option<i64>>::empty())
    }
}

/// Whether times never go back.
pub open spec fn non_decreasing(times: Seq<i64>) -> bool {
    forall|i: int, j: int| 0 <= i <= j < times.len() ==> times[i] <= times[j]
}

/// Every emitted row bears the time of one of the first `n` rows.
pub proof fn lemma_emitted_times(
    start: Seq<Seq<Option<i64>>>,
    keys: Seq<u32>,
    times: Seq<i64>,
    values: Seq<Option<i64>>,
    cond: Seq<Option<bool>>,
    n: int,
)
    requires
        0 <= n <= keys.len(),
        keys.len() == times.len(),
    ensures
        forall|k: int|
            0 <= k < emitted_upto(start, keys, times, values, cond, n).len() ==> exists|i: int|
                0 <= i < n && times[i] == (#[trigger] emitted_upto(
                    start,
                    keys,
                    times,
                    values,
                    cond,
                    n,
                )[k]).time,
    decreases n,
{
    if n > 0 {
        lemma_emitted_times(start, keys, times, values, cond, n - 1);
        let earlier = emitted_upto(start, keys, times, values, cond, n - 1);
        let all = emitted_upto(start, keys, times, values, cond, n);
        assert forall|k: int| 0 <= k < all.len() implies exists|i: int|
            0 <= i < n && times[i] == (#[trigger] all[k]).time by {
            if k < earlier.len() {
                assert(all[k] == earlier[k]);
                let i = choose|i: int| 0 <= i < n - 1 && times[i] == earlier[k].time;
                assert(0 <= i < n && times[i] == all[k].time);
            } else {
                assert(all[k].time == times[n - 1]);
            }
        }
    }
}

/// Where the input is in order of time, so is the output.
pub proof fn lemma_emitted_in_time_order(
    start: Seq<Seq<Option<i64>>>,
    keys: Seq<u32>,
    times: Seq<i64>,
    values: Seq<Option<i64>>,
    cond: Seq<Option<bool>>,
    n: int,
)
    requires
        0 <= n <= keys.len(),
        keys.len() == times.len(),
        non_decreasing(times),
    ensures
        forall|a: int, b: int|
            0 <= a <= b < emitted_upto(start, keys, times, values, cond, n).len()
                ==> emitted_upto(start, keys, times, values, cond, n)[a].time <= emitted_upto(
                start,
                keys,
                times,
                values,
                cond,
                n,
            )[b].time,
    decreases n,
{
    if n > 0 {
        lemma_emitted_in_time_order(start, keys, times, values, cond, n - 1);
        lemma_emitted_times(start, keys, times, values, cond, n - 1);
        let earlier = emitted_upto(start, keys, times, values, cond, n - 1);
        let all = emitted_upto(start, keys, times, values, cond, n);
        assert forall|a: int, b: int| 0 <= a <= b < all.len() implies all[a].time
            <= all[b].time by {
            if b < earlier.len() {
                assert(all[a] == earlier[a]);
                assert(all[b] == earlier[b]);
            } else if a < earlier.len() {
                assert(all[a] == earlier[a]);
                let i = choose|i: int| 0 <= i < n - 1 && times[i] == earlier[a].time;
                assert(times[i] <= times[n - 1]);
            }
        }
    }
}

/// The stored form of waiting values.
pub open spec fn stored_held(buffers: Seq<Seq<Option<i64>>>) -> Seq<u8> {
    words_to_bytes(flatten(Seq::new(buffers.len(), |e: int| state_words(buffers[e]))))
}

/// Whether every list stores values.
pub open spec fn are_held(lists: Seq<Seq<u64>>) -> bool {
    forall|e: int| 0 <= e < lists.len() ==> are_states(#[trigger] lists[e])
}

/// The waiting values that bytes store, where they store such.
pub open spec fn restored_held(bytes: Seq<u8>) -> Option<Seq<Seq<Option<i64>>>> {
    match bytes_to_words(bytes) {
        Some(words) => match unflatten(words) {
            Some(lists) => if are_held(lists) {
                Some(Seq::new(lists.len(), |e: int| states_of(lists[e])))
            } else {
                None
            },
            None => None,
        },
        None => None,
    }
}

/// Waiting values that were stored read back as they were.
pub proof fn lemma_held_round_trip(buffers: Seq<Seq<Option<i64>>>)
    requires
        forall|e: int| 0 <= e < buffers.len() ==> 2 * (#[trigger] buffers[e]).len() <= u64::MAX,
    ensures
        restored_held(stored_held(buffers)) == Some(buffers),
{
    let lists = Seq::new(buffers.len(), |e: int| state_words(buffers[e]));
    assert forall|e: int| 0 <= e < lists.len() implies (#[trigger] lists[e]).len() <= u64::MAX by {
        assert(2 * buffers[e].len() <= u64::MAX);
    }
    lemma_lists_round_trip(lists);
    lemma_words_round_trip(flatten(lists));
    let read = Seq::new(lists.len(), |e: int| states_of(lists[e]));
    assert forall|e: int| 0 <= e < lists.len() implies are_states(#[trigger] lists[e]) by {
        lemma_state_words_round_trip(buffers[e]);
    }
    assert forall|e: int| 0 <= e < buffers.len() implies #[trigger] read[e] == buffers[e] by {
        lemma_state_words_round_trip(buffers[e]);
    }
    assert(read =~= buffers);
}

/// The `shift_until` operator: the rows of an entity wait in it until the
/// condition is true on a row of that entity.
pub struct ShiftUntilOperator {
    buffers: Vec<Vec<Option<i64>>>,
}

impl View for ShiftUntilOperator {
    type V = Seq<Seq<Option<i64>>>;

    closed spec fn view(&self) -> Seq<Seq<Option<i64>>> {
        Seq::new(self.buffers@.len(), |e: int| self.buffers@[e]@)
    }
}

impl ShiftUntilOperator {
    /// An operator in which nothing waits.
    pub fn new() -> (operator: ShiftUntilOperator)
        ensures
            operator@ == Seq::<Seq<Option<i64>>>::empty(),
    {
        let operator = ShiftUntilOperator { buffers: Vec::new() };
        assert(operator@ =~= Seq::<Seq<Option<i64>>>::empty());
        operator
    }

    /// The number of entities the operator has room for.
    pub fn len(&self) -> (n: usize)
        ensures
            n == self@.len(),
    {
        self.buffers.len()
    }

    /// Makes room for `len` entities. The operator never shrinks, and for
    /// the entities that are added nothing waits.
    pub fn resize(&mut self, len: usize)
        ensures
            final(self)@ == grown_held(old(self)@, len as nat),
    {
        let ghost before = self@;
        while self.buffers.len() < len
            invariant
                before.len() <= self@.len(),
                self@.len() <= len || self@.len() == before.len(),
                self@ =~= before + Seq::new(
                    (self@.len() - before.len()) as nat,
                    |i: int| Seq::<Option<i64>>::empty(),
                ),
            decreases len - self.buffers@.len(),
        {
            let ghost prev = self@;
            self.buffers.push(Vec::new());
            assert(self@ =~= prev.push(Seq::<Option<i64>>::empty()));
        }
        assert(self@ =~= grown_held(before, len as nat));
    }

    /// The waiting values as bytes.
    pub fn serialize(&self) -> (bytes: Vec<u8>)
        ensures
            bytes@ == stored_held(self@),
    {
        let mut lists: Vec<Vec<u64>> = Vec::new();
        let mut e: usize = 0;
        while e < self.buffers.len()
            invariant
                e <= self.buffers@.len(),
                lists@.len() == e,
                forall|k: int|
                    0 <= k < e ==> (#[trigger] lists@[k])@ == state_words(self.buffers@[k]@),
            decreases self.buffers@.len() - e,
        {
            lists.push(states_to_words(&self.buffers[e]));
            e += 1;
        }
        assert(lists_of(lists@) =~= Seq::new(self@.len(), |e: int| state_words(self@[e])));
        let words = encode_lists(&lists);
        encode_words(&words)
    }

    /// The operator that `bytes` store. Fails exactly where they store no
    /// waiting values.
    pub fn deserialize(bytes: &Vec<u8>) -> (result: Result<ShiftUntilOperator, EvalError>)
        ensures
            match restored_held(bytes@) {
                Some(buffers) => result is Ok && result->Ok_0@ == buffers,
                None => result is Err && result->Err_0 == EvalError::CorruptSnapshot,
            },
    {
        let words = match decode_words(bytes) {
            Some(words) => words,
            None => {
                return Err(EvalError::CorruptSnapshot);
            },
        };
        let lists = match decode_lists(&words) {
            Some(lists) => lists,
            None => {
                return Err(EvalError::CorruptSnapshot);
            },
        };
        let ghost stored = lists_of(lists@);
        let ghost read = Seq::new(stored.len(), |e: int| states_of(stored[e]));
        assert(restored_held(bytes@) == (if are_held(stored) {
            Some(read)
        } else {
            None
        }));
        let mut buffers: Vec<Vec<Option<i64>>> = Vec::new();
        let mut e: usize = 0;
        while e < lists.len()
            invariant
                e <= lists@.len(),
                buffers@.len() == e,
                stored == lists_of(lists@),
                read == Seq::new(stored.len(), |e: int| states_of(stored[e])),
                restored_held(bytes@) == (if are_held(stored) {
                    Some(read)
                } else {
                    None
                }),
                forall|k: int| 0 <= k < e ==> (#[trigger] buffers@[k])@ == read[k],
                forall|k: int| 0 <= k < e ==> are_states(#[trigger] stored[k]),
            decreases lists@.len() - e,
        {
            assert(stored[e as int] == lists@[e as int]@);
            match words_to_states(&lists[e]) {
                Some(buffer) => {
                    buffers.push(buffer);
                },
                None => {
                    return Err(EvalError::CorruptSnapshot);
                },
            }
            e += 1;
        }
        let operator = ShiftUntilOperator { buffers };
        assert(operator@ =~= read);
        Ok(operator)
    }

    /// One row of entity `entity_index`: where the condition is a valid
    /// `true`, everything that waits for the entity leaves, and the row's
    /// value behind it; else the value waits.
    pub fn observe(&mut self, entity_index: u32, value: Option<i64>, cond: Option<bool>) -> (result:
        Result<Vec<Option<i64>>, EvalError>)
        ensures
            entity_index < old(self)@.len() ==> result is Ok && result->Ok_0@ == (if closes(cond) {
                old(self)@[entity_index as int].push(value)
            } else {
                Seq::<Option<i64>>::empty()
            }) && final(self)@ == old(self)@.update(
                entity_index as int,
                if closes(cond) {
                    Seq::<Option<i64>>::empty()
                } else {
                    old(self)@[entity_index as int].push(value)
                },
            ),
            entity_index >= old(self)@.len() ==> result is Err && result->Err_0
                == EvalError::EntityOutOfRange && final(self)@ == old(self)@,
    {
        let index: usize = entity_index as usize;
        if index >= self.buffers.len() {
            return Err(EvalError::EntityOutOfRange);
        }
        let ghost before = self@;
        assert(before[index as int] == self.buffers@[index as int]@);
        let mut buffer: Vec<Option<i64>> = Vec::new();
        std::mem::swap(&mut buffer, &mut self.buffers[index]);
        buffer.push(value);
        let closing = match cond {
            Some(flag) => flag,
            None => false,
        };
        if closing {
            assert(self@ =~= before.update(index as int, Seq::<Option<i64>>::empty()));
            Ok(buffer)
        } else {
            self.buffers[index] = buffer;
            assert(self@ =~= before.update(index as int, before[index as int].push(value)));
            Ok(Vec::new())
        }
    }

    /// Takes a batch in, row by row, and returns the rows that it emits.
    /// A row waits until the condition is a valid `true` on a row of its
    /// entity, that row itself included; it is then emitted at that row's
    /// time, behind the rows of its entity that waited longer. The emitted
    /// rows are numbered from zero. Rows whose condition never comes true
    /// stay in the operator. The operator first gets room for
    /// `key_capacity` entities. A row whose entity index has no entry stops
    /// the batch there.
    pub fn shift_until(
        &mut self,
        key_capacity: usize,
        key_indices: &Vec<u32>,
        times: &Vec<i64>,
        values: &Vec<Option<i64>>,
        cond: &Vec<Option<bool>>,
    ) -> (result: Result<Vec<Released>, EvalError>)
        requires
            key_indices@.len() == times@.len(),
            key_indices@.len() == values@.len(),
            key_indices@.len() == cond@.len(),
        ensures
            ({
                let start = grown_held(old(self)@, key_capacity as nat);
                match result {
                    Ok(rows) => indices_below(key_indices@, start.len()) && rows@ == renumbered(
                        emitted_upto(
                            start,
                            key_indices@,
                            times@,
                            values@,
                            cond@,
                            key_indices@.len() as int,
                        ),
                    ) && final(self)@ == held_states(
                        start,
                        key_indices@,
                        values@,
                        cond@,
                        key_indices@.len() as int,
                    ),
                    Err(e) => e == EvalError::EntityOutOfRange && exists|k: int|
                        #![trigger first_out_of_range(key_indices@, start.len(), k)]
                        first_out_of_range(key_indices@, start.len(), k) && final(self)@
                            == held_states(start, key_indices@, values@, cond@, k),
                }
            }),
    {
        self.resize(key_capacity);
        let ghost start = self@;
        assert(self@ =~= held_states(start, key_indices@, values@, cond@, 0));
        let mut rows: Vec<Released> = Vec::new();
        let mut i: usize = 0;
        while i < key_indices.len()
            invariant
                i <= key_indices@.len(),
                key_indices@.len() == times@.len(),
                key_indices@.len() == values@.len(),
                key_indices@.len() == cond@.len(),
                self@ == held_states(start, key_indices@, values@, cond@, i as int),
                start == grown_held(old(self)@, key_capacity as nat),
                forall|j: int| 0 <= j < i ==> (#[trigger] key_indices@[j]) < start.len(),
                rows@ == renumbered(
                    emitted_upto(start, key_indices@, times@, values@, cond@, i as int),
                ),
            decreases key_indices@.len() - i,
        {
            let entity: u32 = key_indices[i];
            let time: i64 = times[i];
            let gone = match self.observe(entity, values[i], cond[i]) {
                Ok(gone) => gone,
                Err(e) => {
                    assert(first_out_of_range(key_indices@, start.len(), i as int));
                    return Err(e);
                },
            };
            assert(self@ =~= held_states(start, key_indices@, values@, cond@, i + 1));
            assert(gone@ == let_go(start, key_indices@, values@, cond@, i as int));
            let ghost earlier = emitted_upto(start, key_indices@, times@, values@, cond@, i as int);
            let ghost all = emitted_upto(start, key_indices@, times@, values@, cond@, i + 1);
            let mut j: usize = 0;
            while j < gone.len()
                invariant
                    j <= gone@.len(),
                    i < key_indices@.len(),
                    entity == key_indices@[i as int],
                    time == times@[i as int],
                    all == earlier + Seq::new(
                        gone@.len(),
                        |k: int|
                            Released { time: time, subsort: 0, entity: entity, value: gone@[k] },
                    ),
                    rows@ == renumbered(all.subrange(0, earlier.len() + j)),
                decreases gone@.len() - j,
            {
                let subsort: u64 = rows.len() as u64;
                rows.push(Released { time, subsort, entity, value: gone[j] });
                assert(rows@ =~= renumbered(all.subrange(0, earlier.len() + j + 1)));
                j += 1;
            }
            assert(all.subrange(0, all.len() as int) =~= all);
            i += 1;
        }
        Ok(rows)
    }
}

} // verus!
