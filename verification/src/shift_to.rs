use vstd::prelude::*;

use crate::codec::{
    bytes_to_words, decode_lists, decode_words, encode_lists, encode_words, flatten,
    lemma_lists_round_trip, lemma_words_round_trip, lists_of, unflatten, words_to_bytes,
};
use crate::error::EvalError;
use crate::primitive::{state_of, tag_of, value_of};

verus! {

/// A row that waits for its new time.
#[derive(Debug, Clone, Copy, PartialEq, Eq, Structural)]
pub struct Pending {
    /// The time at which the row is emitted.
    pub new_time: i64,
    /// The number of the row among all rows that the operator has seen.
    pub source_id: u64,
    /// The entity of the row.
    pub key_hash: u64,
    /// What the row carries.
    pub value: Option<i64>,
}

/// A row that was emitted at its new time.
#[derive(Debug, Clone, Copy, PartialEq, Eq, Structural)]
pub struct Shifted {
    pub time: i64,
    pub subsort: u64,
    pub key_hash: u64,
    pub value: Option<i64>,
}

/// Whether `a` is emitted before `b`: at an earlier time, or at the same
/// time and from an earlier row.
pub open spec fn before(a: Pending, b: Pending) -> bool {
    a.new_time < b.new_time || (a.new_time == b.new_time && a.source_id < b.source_id)
}

/// Whether rows wait in the order in which they will be emitted.
pub open spec fn ordered(pending: Seq<Pending>) -> bool {
    forall|i: int, j: int|
        0 <= i < j < pending.len() ==> before(#[trigger] pending[i], #[trigger] pending[j])
}

/// The row that `pending` is emitted as, with number `subsort`.
pub open spec fn emitted_as(pending: Pending, subsort: int) -> Shifted {
    Shifted {
        time: pending.new_time,
        subsort: subsort as u64,
        key_hash: pending.key_hash,
        value: pending.value,
    }
}

/// The rows that `pending` are emitted as: numbered from zero in their
/// order, each with the entity and the value that it came with.
pub open spec fn numbered(pending: Seq<Pending>) -> Seq<Shifted> {
    Seq::new(pending.len(), |i: int| emitted_as(pending[i], i))
}

/// Whether emitted rows are in order of time and, within one time, of
/// subsort.
pub open spec fn sorted_output(rows: Seq<Shifted>) -> bool {
    forall|i: int, j: int|
        0 <= i < j < rows.len() ==> (#[trigger] rows[i]).time < (#[trigger] rows[j]).time || (
        rows[i].time == rows[j].time && rows[i].subsort < rows[j].subsort)
}

/// Where a row with time `new_time` from the latest source goes among the
/// waiting rows: behind every row that is not later than it.
pub open spec fn is_place(pending: Seq<Pending>, new_time: i64, place: int) -> bool {
    &&& 0 <= place <= pending.len()
    &&& forall|j: int| 0 <= j < place ==> (#[trigger] pending[j]).new_time <= new_time
    &&& forall|j: int| place <= j < pending.len() ==> (#[trigger] pending[j]).new_time > new_time
}

/// Rows emitted in their waiting order, numbered as they leave, are in order
/// of time and subsort, and each carries the entity and the value it came
/// with.
pub proof fn lemma_numbered_is_sorted(pending: Seq<Pending>)
    requires
        ordered(pending),
        pending.len() <= u64::MAX,
    ensures
        sorted_output(numbered(pending)),
        forall|i: int|
            0 <= i < pending.len() ==> (#[trigger] numbered(pending)[i]).value == pending[i].value
                && numbered(pending)[i].key_hash == pending[i].key_hash && numbered(
                pending,
            )[i].time == pending[i].new_time,
{
    let rows = numbered(pending);
    assert forall|i: int, j: int| 0 <= i < j < rows.len() implies (#[trigger] rows[i]).time < (
    #[trigger] rows[j]).time || (rows[i].time == rows[j].time && rows[i].subsort
        < rows[j].subsort) by {
        assert(before(pending[i], pending[j]));
    }
}

/// Whether rows may wait in an operator that has seen `seen` rows and whose
/// watermark is `watermark`: they wait in the order in which they will be
/// emitted, come from rows that were seen and are no more than those, and
/// none is due before the watermark.
pub open spec fn valid_shift(pending: Seq<Pending>, seen: nat, watermark: Option<i64>) -> bool {
    &&& ordered(pending)
    &&& pending.len() <= seen
    &&& forall|i: int| 0 <= i < pending.len() ==> (#[trigger] pending[i]).source_id < seen
    &&& forall|i: int|
        0 <= i < pending.len() ==> reaches((#[trigger] pending[i]).new_time, watermark)
}

/// The words that store a waiting row.
pub open spec fn pending_words(row: Pending) -> Seq<u64> {
    seq![row.new_time as u64, row.source_id, row.key_hash, tag_of(row.value), value_of(row.value)]
}

/// The waiting row that five words store.
pub open spec fn pending_of(words: Seq<u64>) -> Pending {
    Pending {
        new_time: #[verifier::truncate] (words[0] as i64),
        source_id: words[1],
        key_hash: words[2],
        value: state_of(words[3], words[4]),
    }
}

/// The lists of words that store an operator: first how many rows it has
/// seen and its watermark, then the waiting rows.
pub open spec fn shift_lists(pending: Seq<Pending>, seen: nat, watermark: Option<i64>) -> Seq<
    Seq<u64>,
> {
    seq![seq![seen as u64, tag_of(watermark), value_of(watermark)]] + Seq::new(
        pending.len(),
        |i: int| pending_words(pending[i]),
    )
}

/// The stored form of an operator.
pub open spec fn stored_shift(pending: Seq<Pending>, seen: nat, watermark: Option<i64>) -> Seq<
    u8,
> {
    words_to_bytes(flatten(shift_lists(pending, seen, watermark)))
}

/// Whether lists have the shape of a stored operator.
pub open spec fn are_shift_lists(lists: Seq<Seq<u64>>) -> bool {
    &&& lists.len() >= 1
    &&& lists[0].len() == 3
    &&& lists[0][1] <= 1
    &&& forall|i: int|
        1 <= i < lists.len() ==> (#[trigger] lists[i]).len() == 5 && lists[i][3] <= 1
}

/// The waiting rows that lists store.
pub open spec fn pending_in(lists: Seq<Seq<u64>>) -> Seq<Pending> {
    Seq::new((lists.len() - 1) as nat, |i: int| pending_of(lists[i + 1]))
}

/// The waiting rows, the number of rows seen and the watermark that bytes
/// store, where they store an operator.
pub open spec fn restored_shift(bytes: Seq<u8>) -> Option<(Seq<Pending>, nat, Option<i64>)> {
    match bytes_to_words(bytes) {
        Some(words) => match unflatten(words) {
            Some(lists) => {
                if are_shift_lists(lists) && valid_shift(
                    pending_in(lists),
                    lists[0][0] as nat,
                    state_of(lists[0][1], lists[0][2]),
                ) {
                    Some(
                        (
                            pending_in(lists),
                            lists[0][0] as nat,
                            state_of(lists[0][1], lists[0][2]),
                        ),
                    )
                } else {
                    None
                }
            },
            None => None,
        },
        None => None,
    }
}

/// An operator that was stored reads back as it was.
pub proof fn lemma_shift_round_trip(pending: Seq<Pending>, seen: nat, watermark: Option<i64>)
    requires
        valid_shift(pending, seen, watermark),
        seen <= u64::MAX,
    ensures
        restored_shift(stored_shift(pending, seen, watermark)) == Some((pending, seen, watermark)),
{
    let lists = shift_lists(pending, seen, watermark);
    assert forall|i: int| 0 <= i < lists.len() implies (#[trigger] lists[i]).len() <= u64::MAX by {
        if i >= 1 {
            assert(lists[i] == pending_words(pending[i - 1]));
        }
    }
    lemma_lists_round_trip(lists);
    lemma_words_round_trip(flatten(lists));
    assert forall|i: int| 1 <= i < lists.len() implies (#[trigger] lists[i]).len() == 5
        && lists[i][3] <= 1 by {
        assert(lists[i] == pending_words(pending[i - 1]));
    }
    if let Some(mark) = watermark {
        assert((mark as u64) as i64 == mark) by (bit_vector);
    }
    let read = pending_in(lists);
    assert forall|i: int| 0 <= i < pending.len() implies read[i] == pending[i] by {
        assert(lists[i + 1] == pending_words(pending[i]));
        let time = pending[i].new_time;
        assert((time as u64) as i64 == time) by (bit_vector);
        if let Some(value) = pending[i].value {
            assert((value as u64) as i64 == value) by (bit_vector);
        }
    }
    assert(read =~= pending);
}

/// The `shift_to` operator: rows wait in it until their new time is due.
pub struct ShiftToOperator {
    pending: Vec<Pending>,
    seen: u64,
    watermark: Option<i64>,
}

impl View for ShiftToOperator {
    type V = Seq<Pending>;

    closed spec fn view(&self) -> Seq<Pending> {
        self.pending@
    }
}

/// Whether a time is not below a watermark.
pub open spec fn reaches(time: i64, watermark: Option<i64>) -> bool {
    match watermark {
        Some(mark) => time >= mark,
        None => true,
    }
}

/// The watermark once everything before `bound` was released.
pub open spec fn raised(watermark: Option<i64>, bound: i64) -> Option<i64> {
    match watermark {
        Some(mark) => if mark >= bound {
            Some(mark)
        } else {
            Some(bound)
        },
        None => Some(bound),
    }
}

impl ShiftToOperator {
    /// The number of rows that the operator has seen.
    pub closed spec fn seen(&self) -> nat {
        self.seen as nat
    }

    /// The time before which everything was released, if anything was.
    pub closed spec fn watermark(&self) -> Option<i64> {
        self.watermark
    }

    /// The waiting rows are in the order in which they will be emitted, come
    /// from rows that were seen and are no more than those, and none is due
    /// before the watermark.
    pub closed spec fn wf(&self) -> bool {
        valid_shift(self.pending@, self.seen as nat, self.watermark)
    }

    /// What `wf` says, over the public names.
    pub proof fn lemma_wf(&self)
        requires
            self.wf(),
        ensures
            valid_shift(self@, self.seen(), self.watermark()),
    {
    }

    /// An operator in which nothing waits.
    pub fn new() -> (operator: ShiftToOperator)
        ensures
            operator.wf(),
            operator@ == Seq::<Pending>::empty(),
            operator.seen() == 0,
            operator.watermark() is None,
    {
        ShiftToOperator { pending: Vec::new(), seen: 0, watermark: None }
    }

    /// The number of rows that the operator has seen.
    pub fn seen_rows(&self) -> (n: u64)
        ensures
            n == self.seen(),
    {
        self.seen
    }

    /// The time before which everything was released, if anything was.
    pub fn released_before(&self) -> (mark: Option<i64>)
        ensures
            mark == self.watermark(),
    {
        self.watermark
    }

    /// The number of rows that wait.
    pub fn len(&self) -> (n: usize)
        ensures
            n == self@.len(),
    {
        self.pending.len()
    }

    /// The operator's state as bytes.
    pub fn serialize(&self) -> (bytes: Vec<u8>)
        ensures
            bytes@ == stored_shift(self@, self.seen(), self.watermark()),
    {
        let mut lists: Vec<Vec<u64>> = Vec::new();
        let mut header: Vec<u64> = Vec::new();
        header.push(self.seen);
        match self.watermark {
            Some(mark) => {
                header.push(1);
                header.push(mark as u64);
            },
            None => {
                header.push(0);
                header.push(0);
            },
        }
        assert(header@ =~= seq![
            self.seen,
            tag_of(self.watermark),
            value_of(self.watermark),
        ]);
        lists.push(header);
        let mut i: usize = 0;
        while i < self.pending.len()
            invariant
                i <= self.pending@.len(),
                lists@.len() == i + 1,
                lists@[0]@ == seq![self.seen, tag_of(self.watermark), value_of(self.watermark)],
                forall|k: int|
                    0 <= k < i ==> (#[trigger] lists@[k + 1])@ == pending_words(self.pending@[k]),
            decreases self.pending@.len() - i,
        {
            let row = self.pending[i];
            let mut words: Vec<u64> = Vec::new();
            words.push(row.new_time as u64);
            words.push(row.source_id);
            words.push(row.key_hash);
            match row.value {
                Some(value) => {
                    words.push(1);
                    words.push(value as u64);
                },
                None => {
                    words.push(0);
                    words.push(0);
                },
            }
            assert(words@ =~= pending_words(row));
            lists.push(words);
            i += 1;
        }
        proof {
            let expected = shift_lists(self@, self.seen(), self.watermark());
            assert forall|k: int| 0 <= k < expected.len() implies lists_of(lists@)[k]
                == expected[k] by {
                if k >= 1 {
                    assert(lists@[(k - 1) + 1]@ == pending_words(self.pending@[k - 1]));
                }
            }
            assert(lists_of(lists@) =~= expected);
        }
        let words = encode_lists(&lists);
        encode_words(&words)
    }

    /// The operator that `bytes` store. Fails exactly where they store no
    /// operator in which rows may wait as they do.
    pub fn deserialize(bytes: &Vec<u8>) -> (result: Result<ShiftToOperator, EvalError>)
        ensures
            match restored_shift(bytes@) {
                Some((pending, seen, watermark)) => result is Ok && result->Ok_0.wf()
                    && result->Ok_0@ == pending && result->Ok_0.seen() == seen
                    && result->Ok_0.watermark() == watermark,
                None => result is Err && result->Err_0 == EvalError::CorruptSnapshot,
            },
    {
        let words = match decode_words(bytes) {
            Some(words) => words,
            None => {
                return Err(EvalError::CorruptSnapshot);
            },
        };
        let lists = match decode_lists(&words) {
            Some(lists) => lists,
            None => {
                return Err(EvalError::CorruptSnapshot);
            },
        };
        let ghost stored = lists_of(lists@);
        if lists.len() < 1 {
            return Err(EvalError::CorruptSnapshot);
        }
        assert(stored[0] == lists@[0]@);
        if lists[0].len() != 3 {
            return Err(EvalError::CorruptSnapshot);
        }
        let seen: u64 = lists[0][0];
        let tag: u64 = lists[0][1];
        if tag > 1 {
            return Err(EvalError::CorruptSnapshot);
        }
        let watermark: Option<i64> = if tag == 1 {
            Some(#[verifier::truncate] (lists[0][2] as i64))
        } else {
            None
        };
        let ghost all = pending_in(stored);
        assert(restored_shift(bytes@) == (if are_shift_lists(stored) && valid_shift(
            all,
            seen as nat,
            watermark,
        ) {
            Some((all, seen as nat, watermark))
        } else {
            None
        }));
        let mut pending: Vec<Pending> = Vec::new();
        let mut i: usize = 1;
        while i < lists.len()
            invariant
                1 <= i <= lists@.len(),
                stored == lists_of(lists@),
                all == pending_in(stored),
                stored[0].len() == 3,
                stored[0][1] <= 1,
                restored_shift(bytes@) == (if are_shift_lists(stored) && valid_shift(
                    all,
                    seen as nat,
                    watermark,
                ) {
                    Some((all, seen as nat, watermark))
                } else {
                    None
                }),
                pending@ == all.subrange(0, i - 1),
                forall|k: int|
                    1 <= k < i ==> (#[trigger] stored[k]).len() == 5 && stored[k][3] <= 1,
                valid_shift(pending@, seen as nat, watermark),
            decreases lists@.len() - i,
        {
            let list = &lists[i];
            assert(stored[i as int] == list@);
            if list.len() != 5 {
                return Err(EvalError::CorruptSnapshot);
            }
            let value_tag: u64 = list[3];
            if value_tag > 1 {
                return Err(EvalError::CorruptSnapshot);
            }
            let row = Pending {
                new_time: #[verifier::truncate] (list[0] as i64),
                source_id: list[1],
                key_hash: list[2],
                value: if value_tag == 1 {
                    Some(#[verifier::truncate] (list[4] as i64))
                } else {
                    None
                },
            };
            assert(row == all[i - 1]);
            let in_order = if pending.len() == 0 {
                true
            } else {
                let last = pending[pending.len() - 1];
                last.new_time < row.new_time || (last.new_time == row.new_time && last.source_id
                    < row.source_id)
            };
            let in_time = match watermark {
                Some(mark) => row.new_time >= mark,
                None => true,
            };
            if !in_order || row.source_id >= seen || !in_time || pending.len() as u64 >= seen {
                proof {
                    if !in_order {
                        assert(all[i - 2] == pending@[i - 2]);
                        assert(!before(all[i - 2], all[i - 1]));
                    }
                    if pending.len() as u64 >= seen {
                        assert(all.len() > seen);
                    }
                    assert(!valid_shift(all, seen as nat, watermark));
                }
                return Err(EvalError::CorruptSnapshot);
            }
            let ghost earlier = pending@;
            pending.push(row);
            proof {
                assert(pending@ =~= all.subrange(0, i as int));
                assert forall|a: int, b: int| 0 <= a < b < pending@.len() implies before(
                    #[trigger] pending@[a],
                    #[trigger] pending@[b],
                ) by {
                    if b < earlier.len() {
                        assert(before(earlier[a], earlier[b]));
                    } else if a < earlier.len() - 1 {
                        assert(before(earlier[a], earlier[earlier.len() - 1]));
                    }
                }
            }
            i += 1;
        }
        assert(pending@ =~= all);
        Ok(ShiftToOperator { pending, seen, watermark })
    }

    /// Takes one row in. The row waits for `new_time` where that is not
    /// null, not before the row's own time and not before the watermark;
    /// else it is dropped. Returns whether the row waits.
    pub fn schedule(&mut self, time: i64, key_hash: u64, value: Option<i64>, new_time: Option<i64>)
        -> (waits: bool)
        requires
            old(self).wf(),
            old(self).seen() < u64::MAX,
        ensures
            final(self).wf(),
            final(self).seen() == old(self).seen() + 1,
            final(self).watermark() == old(self).watermark(),
            waits == (new_time is Some && new_time->Some_0 >= time && reaches(
                new_time->Some_0,
                old(self).watermark(),
            )),
            !waits ==> final(self)@ == old(self)@,
            waits ==> exists|place: int|
                #![trigger is_place(old(self)@, new_time->Some_0, place)]
                is_place(old(self)@, new_time->Some_0, place) && final(self)@ == old(self)@.insert(
                    place,
                    Pending {
                        new_time: new_time->Some_0,
                        source_id: old(self).seen() as u64,
                        key_hash,
                        value,
                    },
                ),
    {
        let source_id: u64 = self.seen;
        self.seen = self.seen + 1;
        let due: i64 = match new_time {
            Some(due) => due,
            None => {
                return false;
            },
        };
        if due < time {
            return false;
        }
        if let Some(mark) = self.watermark {
            if due < mark {
                return false;
            }
        }
        let mut place: usize = self.pending.len();
        while place > 0 && self.pending[place - 1].new_time > due
            invariant
                place <= self.pending@.len(),
                forall|j: int|
                    place <= j < self.pending@.len() ==> (#[trigger] self.pending@[j]).new_time
                        > due,
            decreases place,
        {
            place -= 1;
        }
        let ghost before_insert = self.pending@;
        assert(is_place(before_insert, due, place as int)) by {
            assert forall|j: int| 0 <= j < place implies (#[trigger] before_insert[j]).new_time
                <= due by {
                if j < place - 1 {
                    assert(before(before_insert[j], before_insert[place - 1]));
                }
            }
        }
        let row = Pending { new_time: due, source_id, key_hash, value };
        self.pending.insert(place, row);
        proof {
            let after = self.pending@;
            assert forall|i: int, j: int| 0 <= i < j < after.len() implies before(
                #[trigger] after[i],
                #[trigger] after[j],
            ) by {
                if i < place && j > place {
                    assert(before(before_insert[i], before_insert[j - 1]));
                } else if i > place {
                    assert(before(before_insert[i - 1], before_insert[j - 1]));
                } else if j < place {
                    assert(before(before_insert[i], before_insert[j]));
                } else if i == place {
                    assert(after[j] == before_insert[j - 1]);
                } else {
                    assert(after[i] == before_insert[i]);
                }
            }
            assert forall|i: int| 0 <= i < after.len() implies (#[trigger] after[i]).source_id
                < self.seen && reaches(after[i].new_time, self.watermark) by {
                if i < place {
                    assert(after[i] == before_insert[i]);
                } else if i > place {
                    assert(after[i] == before_insert[i - 1]);
                }
            }
            assert(before_insert == old(self)@);
            assert(row.source_id == old(self).seen() as u64);
            assert(is_place(old(self)@, new_time->Some_0, place as int));
            assert(self@ == old(self)@.insert(place as int, row));
        }
        true
    }

    /// Lets every row go whose new time is before `bound`, in order of new
    /// time and, within one time, of the rows they came from. The rows are
    /// numbered from zero as they leave. The watermark rises to `bound`.
    pub fn release(&mut self, bound: i64) -> (rows: Vec<Shifted>)
        requires
            old(self).wf(),
        ensures
            final(self).wf(),
            final(self).seen() == old(self).seen(),
            final(self).watermark() == raised(old(self).watermark(), bound),
            rows@.len() <= old(self)@.len(),
            rows@ == numbered(old(self)@.subrange(0, rows@.len() as int)),
            final(self)@ == old(self)@.subrange(rows@.len() as int, old(self)@.len() as int),
            forall|i: int| 0 <= i < rows@.len() ==> (#[trigger] old(self)@[i]).new_time < bound,
            forall|i: int|
                rows@.len() <= i < old(self)@.len() ==> (#[trigger] old(self)@[i]).new_time
                    >= bound,
            sorted_output(rows@),
    {
        let ghost waiting = self.pending@;
        let mut rows: Vec<Shifted> = Vec::new();
        let mut i: usize = 0;
        while i < self.pending.len() && self.pending[i].new_time < bound
            invariant
                self.pending@ == waiting,
                waiting.len() <= u64::MAX,
                i <= waiting.len(),
                rows@ == numbered(waiting.subrange(0, i as int)),
                forall|j: int| 0 <= j < i ==> (#[trigger] waiting[j]).new_time < bound,
            decreases waiting.len() - i,
        {
            let row = self.pending[i];
            rows.push(
                Shifted {
                    time: row.new_time,
                    subsort: i as u64,
                    key_hash: row.key_hash,
                    value: row.value,
                },
            );
            assert(rows@ =~= numbered(waiting.subrange(0, i + 1)));
            i += 1;
        }
        let rest = self.pending.split_off(i);
        self.pending = rest;
        self.watermark = match self.watermark {
            Some(mark) => if mark >= bound {
                Some(mark)
            } else {
                Some(bound)
            },
            None => Some(bound),
        };
        proof {
            let after = self.pending@;
            assert(after =~= waiting.subrange(i as int, waiting.len() as int));
            assert forall|j: int| i <= j < waiting.len() implies (#[trigger] waiting[j]).new_time
                >= bound by {
                if j > i {
                    assert(before(waiting[i as int], waiting[j]));
                }
            }
            assert forall|a: int, b: int| 0 <= a < b < after.len() implies before(
                #[trigger] after[a],
                #[trigger] after[b],
            ) by {
                assert(before(waiting[a + i], waiting[b + i]));
            }
            assert forall|a: int| 0 <= a < after.len() implies (#[trigger] after[a]).source_id
                < self.seen && reaches(after[a].new_time, self.watermark) by {
                assert(after[a] == waiting[a + i]);
            }
            let gone = waiting.subrange(0, i as int);
            assert forall|a: int, b: int| 0 <= a < b < gone.len() implies before(
                #[trigger] gone[a],
                #[trigger] gone[b],
            ) by {
                assert(before(waiting[a], waiting[b]));
            }
            lemma_numbered_is_sorted(gone);
        }
        rows
    }

    /// Ends the run: every waiting row leaves that is not due after
    /// `final_result_time`, or every row where no such time is given. What
    /// is due later is dropped.
    pub fn close(&mut self, final_result_time: Option<i64>) -> (rows: Vec<Shifted>)
        requires
            old(self).wf(),
        ensures
            final(self).wf(),
            final(self)@ == Seq::<Pending>::empty(),
            final(self).seen() == old(self).seen(),
            rows@.len() <= old(self)@.len(),
            rows@ == numbered(old(self)@.subrange(0, rows@.len() as int)),
            forall|i: int|
                0 <= i < rows@.len() ==> (#[trigger] old(self)@[i]).new_time <= no_later_than(
                    final_result_time,
                ),
            forall|i: int|
                rows@.len() <= i < old(self)@.len() ==> (#[trigger] old(self)@[i]).new_time
                    > no_later_than(final_result_time),
            sorted_output(rows@),
    {
        let last: i64 = match final_result_time {
            Some(time) => time,
            None => i64::MAX,
        };
        let ghost waiting = self.pending@;
        let mut rows: Vec<Shifted> = Vec::new();
        let mut i: usize = 0;
        while i < self.pending.len() && self.pending[i].new_time <= last
            invariant
                self.pending@ == waiting,
                waiting.len() <= u64::MAX,
                i <= waiting.len(),
                rows@ == numbered(waiting.subrange(0, i as int)),
                forall|j: int| 0 <= j < i ==> (#[trigger] waiting[j]).new_time <= last,
            decreases waiting.len() - i,
        {
            let row = self.pending[i];
            rows.push(
                Shifted {
                    time: row.new_time,
                    subsort: i as u64,
                    key_hash: row.key_hash,
                    value: row.value,
                },
            );
            assert(rows@ =~= numbered(waiting.subrange(0, i + 1)));
            i += 1;
        }
        self.pending = Vec::new();
        proof {
            assert forall|j: int| i <= j < waiting.len() implies (#[trigger] waiting[j]).new_time
                > last by {
                if j > i {
                    assert(before(waiting[i as int], waiting[j]));
                }
            }
            let gone = waiting.subrange(0, i as int);
            assert forall|a: int, b: int| 0 <= a < b < gone.len() implies before(
                #[trigger] gone[a],
                #[trigger] gone[b],
            ) by {
                assert(before(waiting[a], waiting[b]));
            }
            lemma_numbered_is_sorted(gone);
        }
        rows
    }
}

/// The last time at which a row may still be emitted at the end of a run.
pub open spec fn no_later_than(final_result_time: Option<i64>) -> i64 {
    match final_result_time {
        Some(time) => time,
        None => i64::MAX,
    }
}

} // verus!
