use vstd::prelude::*;

use crate::batch::{indices_below, lemma_operand_rows, AggregationArgs, Column, RuntimeInfo};
use crate::codec::{
    bytes_to_words, decode_lists, decode_words, encode_lists, encode_words, flatten,
    lemma_lists_round_trip, lemma_words_round_trip, lists_of, unflatten, words_to_bytes,
};
use crate::error::EvalError;
use crate::token::encode_state;
use crate::last_boolean::{closes, first_out_of_range, operands};
use crate::two_stacks::{aggregate_of, combine, newer_of, TwoStacks};

verus! {

/// The slots of a window with `input` taken into the open slot, which is the
/// last.
pub open spec fn slot_updated(slots: Seq<Option<bool>>, input: Option<bool>) -> Seq<Option<bool>> {
    slots.update(slots.len() - 1, newer_of(slots.last(), input))
}

/// The slots of a window once its open slot was closed: a new open slot is
/// added, and only the last `duration` slots stay.
pub open spec fn slot_closed(slots: Seq<Option<bool>>, duration: nat) -> Seq<Option<bool>> {
    let added = slots.push(None);
    if added.len() > duration {
        added.subrange(added.len() - duration, added.len() as int)
    } else {
        added
    }
}

/// The slots of a window after one row of its entity: update, then, where
/// the row closes the slot, reset.
pub open spec fn slide_step(
    slots: Seq<Option<bool>>,
    input: Option<bool>,
    tick: Option<bool>,
    duration: nat,
) -> Seq<Option<bool>> {
    if closes(tick) {
        slot_closed(slot_updated(slots, input), duration)
    } else {
        slot_updated(slots, input)
    }
}

/// What a row emits: the aggregate, computed anew, of the slots with the row
/// taken in.
pub open spec fn slide_emitted(slots: Seq<Option<bool>>, input: Option<bool>) -> Option<bool> {
    aggregate_of(slot_updated(slots, input))
}

/// The slots of entity `e` once the first `n` rows are taken in.
pub open spec fn sliding_slots(
    prior: Seq<Option<bool>>,
    keys: Seq<u32>,
    input: Seq<Option<bool>>,
    ticks: Seq<Option<bool>>,
    duration: nat,
    e: int,
    n: int,
) -> Seq<Option<bool>>
    decreases n,
{
    if n <= 0 {
        prior
    } else if keys[n - 1] == e {
        slide_step(
            sliding_slots(prior, keys, input, ticks, duration, e, n - 1),
            input[n - 1],
            ticks[n - 1],
            duration,
        )
    } else {
        sliding_slots(prior, keys, input, ticks, duration, e, n - 1)
    }
}

/// Every entity's slots once the first `n` rows are taken in.
pub open spec fn sliding_states(
    start: Seq<Seq<Option<bool>>>,
    keys: Seq<u32>,
    input: Seq<Option<bool>>,
    ticks: Seq<Option<bool>>,
    duration: nat,
    n: int,
) -> Seq<Seq<Option<bool>>> {
    Seq::new(start.len(), |e: int| sliding_slots(start[e], keys, input, ticks, duration, e, n))
}

/// What `last` over a sliding window emits row by row.
pub open spec fn sliding_outputs(
    start: Seq<Seq<Option<bool>>>,
    keys: Seq<u32>,
    input: Seq<Option<bool>>,
    ticks: Seq<Option<bool>>,
    duration: nat,
) -> Seq<Option<bool>> {
    Seq::new(
        keys.len(),
        |i: int|
            slide_emitted(
                sliding_slots(start[keys[i] as int], keys, input, ticks, duration, keys[i] as int, i),
                input[i],
            ),
    )
}

/// Windows for `len` entities of which the first `windows.len()` are those
/// of `windows` and the others have one empty slot.
pub open spec fn grown_windows(windows: Seq<Seq<Option<bool>>>, len: nat) -> Seq<
    Seq<Option<bool>>,
> {
    if len <= windows.len() {
        windows
    } else {
        windows + Seq::new((len - windows.len()) as nat, |i: int| seq![None::<bool>])
    }
}

/// Every window has an open slot and at most `duration` slots in all.
pub open spec fn slots_within(windows: Seq<Seq<Option<bool>>>, duration: nat) -> bool {
    forall|e: int| 0 <= e < windows.len() ==> 1 <= (#[trigger] windows[e]).len() <= duration
}

/// Over a window of a single slot, sliding is `since`: a row emits its own
/// value or what the open slot held, and a closing row leaves nothing.
pub proof fn lemma_single_slot_is_since(held: Option<bool>, input: Option<bool>, tick: Option<bool>)
    ensures
        slide_emitted(seq![held], input) == newer_of(held, input),
        slide_step(seq![held], input, tick, 1) == (if closes(tick) {
            seq![None::<bool>]
        } else {
            seq![newer_of(held, input)]
        }),
{
    let updated = slot_updated(seq![held], input);
    assert(updated =~= seq![newer_of(held, input)]);
    crate::two_stacks::lemma_aggregate_one(newer_of(held, input));
    assert(slot_closed(updated, 1) =~= seq![None::<bool>]);
}

/// The slots after `n` rows do not depend on the rows that follow them.
pub proof fn lemma_sliding_prefix(
    prior: Seq<Option<bool>>,
    keys: Seq<u32>,
    input: Seq<Option<bool>>,
    ticks: Seq<Option<bool>>,
    duration: nat,
    cut: int,
    e: int,
    n: int,
)
    requires
        keys.len() == input.len(),
        keys.len() == ticks.len(),
        0 <= n <= cut <= keys.len(),
    ensures
        sliding_slots(
            prior,
            keys.subrange(0, cut),
            input.subrange(0, cut),
            ticks.subrange(0, cut),
            duration,
            e,
            n,
        ) == sliding_slots(prior, keys, input, ticks, duration, e, n),
    decreases n,
{
    if n > 0 {
        lemma_sliding_prefix(prior, keys, input, ticks, duration, cut, e, n - 1);
    }
}

/// Taking rows in from the slots that earlier rows left is taking all of
/// them in from the start.
pub proof fn lemma_sliding_suffix(
    prior: Seq<Option<bool>>,
    keys: Seq<u32>,
    input: Seq<Option<bool>>,
    ticks: Seq<Option<bool>>,
    duration: nat,
    cut: int,
    e: int,
    m: int,
)
    requires
        keys.len() == input.len(),
        keys.len() == ticks.len(),
        0 <= cut <= keys.len(),
        0 <= m <= keys.len() - cut,
    ensures
        sliding_slots(
            sliding_slots(prior, keys, input, ticks, duration, e, cut),
            keys.subrange(cut, keys.len() as int),
            input.subrange(cut, keys.len() as int),
            ticks.subrange(cut, keys.len() as int),
            duration,
            e,
            m,
        ) == sliding_slots(prior, keys, input, ticks, duration, e, cut + m),
    decreases m,
{
    if m > 0 {
        lemma_sliding_suffix(prior, keys, input, ticks, duration, cut, e, m - 1);
    }
}

/// Batch boundaries do not show: a batch cut in two at any row, the second
/// part fed after the first, emits what the whole batch emits and leaves the
/// slots that the whole batch leaves.
pub proof fn lemma_sliding_split(
    start: Seq<Seq<Option<bool>>>,
    keys: Seq<u32>,
    input: Seq<Option<bool>>,
    ticks: Seq<Option<bool>>,
    duration: nat,
    cut: int,
)
    requires
        keys.len() == input.len(),
        keys.len() == ticks.len(),
        0 <= cut <= keys.len(),
        indices_below(keys, start.len()),
    ensures
        ({
            let n = keys.len() as int;
            let mid = sliding_states(
                start,
                keys.subrange(0, cut),
                input.subrange(0, cut),
                ticks.subrange(0, cut),
                duration,
                cut,
            );
            &&& sliding_outputs(start, keys, input, ticks, duration) == sliding_outputs(
                start,
                keys.subrange(0, cut),
                input.subrange(0, cut),
                ticks.subrange(0, cut),
                duration,
            ) + sliding_outputs(
                mid,
                keys.subrange(cut, n),
                input.subrange(cut, n),
                ticks.subrange(cut, n),
                duration,
            )
            &&& sliding_states(start, keys, input, ticks, duration, n) == sliding_states(
                mid,
                keys.subrange(cut, n),
                input.subrange(cut, n),
                ticks.subrange(cut, n),
                duration,
                n - cut,
            )
        }),
{
    let n = keys.len() as int;
    let k1 = keys.subrange(0, cut);
    let i1 = input.subrange(0, cut);
    let t1 = ticks.subrange(0, cut);
    let k2 = keys.subrange(cut, n);
    let i2 = input.subrange(cut, n);
    let t2 = ticks.subrange(cut, n);
    let mid = sliding_states(start, k1, i1, t1, duration, cut);
    let whole = sliding_outputs(start, keys, input, ticks, duration);
    let parts = sliding_outputs(start, k1, i1, t1, duration) + sliding_outputs(
        mid,
        k2,
        i2,
        t2,
        duration,
    );
    assert forall|e: int| 0 <= e < start.len() implies #[trigger] mid[e] == sliding_slots(
        start[e],
        keys,
        input,
        ticks,
        duration,
        e,
        cut,
    ) by {
        lemma_sliding_prefix(start[e], keys, input, ticks, duration, cut, e, cut);
    }
    assert forall|i: int| 0 <= i < n implies #[trigger] whole[i] == parts[i] by {
        let e = keys[i] as int;
        if i < cut {
            lemma_sliding_prefix(start[e], keys, input, ticks, duration, cut, e, i);
        } else {
            lemma_sliding_suffix(start[e], keys, input, ticks, duration, cut, e, i - cut);
            assert(k2[i - cut] == keys[i]);
            assert(i2[i - cut] == input[i]);
        }
    }
    assert(whole =~= parts);
    assert forall|e: int| 0 <= e < start.len() implies #[trigger] sliding_states(
        start,
        keys,
        input,
        ticks,
        duration,
        n,
    )[e] == sliding_states(mid, k2, i2, t2, duration, n - cut)[e] by {
        lemma_sliding_suffix(start[e], keys, input, ticks, duration, cut, e, n - cut);
    }
    assert(sliding_states(start, keys, input, ticks, duration, n) =~= sliding_states(
        mid,
        k2,
        i2,
        t2,
        duration,
        n - cut,
    ));
}

/// The sliding window of one entity: the closed slots in a two-stacks queue,
/// and the slot that is open.
pub struct SlidingWindow {
    closed: TwoStacks,
    open: Option<bool>,
}

impl View for SlidingWindow {
    type V = Seq<Option<bool>>;

    closed spec fn view(&self) -> Seq<Option<bool>> {
        self.closed@.push(self.open)
    }
}

impl SlidingWindow {
    /// The queue is well formed, and with the open slot there are at most
    /// `duration` slots.
    pub closed spec fn wf(&self, duration: nat) -> bool {
        self.closed.wf() && self.closed@.len() < duration
    }

    /// What `wf` says of the number of slots.
    pub proof fn lemma_wf(&self, duration: nat)
        requires
            self.wf(duration),
        ensures
            1 <= self@.len() <= duration,
    {
    }

    /// A window in which nothing was observed.
    pub fn new() -> (window: SlidingWindow)
        ensures
            window@ == seq![None::<bool>],
            forall|duration: nat| duration >= 1 ==> window.wf(duration),
    {
        let window = SlidingWindow { closed: TwoStacks::new(), open: None };
        assert(window@ =~= seq![None::<bool>]);
        window
    }

    /// The slots, oldest first; the last is the open one.
    pub fn slots(&self) -> (slots: Vec<Option<bool>>)
        ensures
            slots@ == self@,
    {
        let mut slots = self.closed.parts();
        slots.push(self.open);
        slots
    }

    /// The window with the given slots, of which the last is the open one.
    pub fn from_slots(slots: &Vec<Option<bool>>, duration: usize) -> (window: SlidingWindow)
        requires
            1 <= slots@.len() <= duration,
        ensures
            window.wf(duration as nat),
            window@ == slots@,
    {
        let mut closed = TwoStacks::new();
        let mut j: usize = 0;
        while j < slots.len() - 1
            invariant
                1 <= slots@.len() <= duration,
                j <= slots@.len() - 1,
                closed.wf(),
                closed@ == slots@.subrange(0, j as int),
            decreases slots@.len() - j,
        {
            closed.push(slots[j]);
            assert(closed@ =~= slots@.subrange(0, j + 1));
            j += 1;
        }
        let window = SlidingWindow { closed, open: slots[slots.len() - 1] };
        assert(window@ =~= slots@);
        window
    }

    /// One row of the entity: takes the input into the open slot, emits the
    /// aggregate of the window, and then, where the row closes the slot,
    /// opens a new one and lets the oldest go where there are too many.
    pub fn observe(&mut self, duration: usize, input: Option<bool>, tick: Option<bool>) -> (emitted:
        Option<bool>)
        requires
            duration >= 1,
            old(self).wf(duration as nat),
        ensures
            final(self).wf(duration as nat),
            emitted == slide_emitted(old(self)@, input),
            final(self)@ == slide_step(old(self)@, input, tick, duration as nat),
    {
        let ghost before = self@;
        self.open = combine(self.open, input);
        let emitted = combine(self.closed.query(), self.open);
        proof {
            let updated = slot_updated(before, input);
            assert(updated =~= self.closed@.push(self.open));
            assert(updated.drop_last() =~= self.closed@);
        }
        let closing = match tick {
            Some(value) => value,
            None => false,
        };
        if closing {
            let ghost updated = self@;
            self.closed.push(self.open);
            self.open = None;
            if self.closed.len() >= duration {
                let _ = self.closed.pop();
            }
            assert(self@ =~= slot_closed(updated, duration as nat));
        }
        emitted
    }
}

/// The words that store the slots of a window: one for each slot.
pub open spec fn slot_words(slots: Seq<Option<bool>>) -> Seq<u64> {
    Seq::new(slots.len(), |j: int| encode_state(slots[j]) as u64)
}

/// The slots that words store. Meaningful where no word is above two.
pub open spec fn words_slots(words: Seq<u64>) -> Seq<Option<bool>> {
    Seq::new(
        words.len(),
        |j: int|
            if words[j] == 1 {
                Some(false)
            } else if words[j] == 2 {
                Some(true)
            } else {
                None
            },
    )
}

/// Whether every list is the slots of a window of `duration` slots.
pub open spec fn are_windows(lists: Seq<Seq<u64>>, duration: nat) -> bool {
    forall|e: int|
        0 <= e < lists.len() ==> 1 <= (#[trigger] lists[e]).len() <= duration && forall|j: int|
            0 <= j < lists[e].len() ==> #[trigger] lists[e][j] <= 2
}

/// The stored form of windows.
pub open spec fn stored_windows(windows: Seq<Seq<Option<bool>>>) -> Seq<u8> {
    words_to_bytes(flatten(Seq::new(windows.len(), |e: int| slot_words(windows[e]))))
}

/// The windows that bytes store for a window of `duration` slots, where
/// they store such windows.
pub open spec fn restored_windows(bytes: Seq<u8>, duration: nat) -> Option<
    Seq<Seq<Option<bool>>>,
> {
    match bytes_to_words(bytes) {
        Some(words) => match unflatten(words) {
            Some(lists) => if are_windows(lists, duration) {
                Some(Seq::new(lists.len(), |e: int| words_slots(lists[e])))
            } else {
                None
            },
            None => None,
        },
        None => None,
    }
}

/// Windows that were stored read back as they were.
pub proof fn lemma_windows_round_trip(windows: Seq<Seq<Option<bool>>>, duration: nat)
    requires
        slots_within(windows, duration),
        duration <= u64::MAX,
    ensures
        restored_windows(stored_windows(windows), duration) == Some(windows),
{
    let lists = Seq::new(windows.len(), |e: int| slot_words(windows[e]));
    assert forall|e: int| 0 <= e < lists.len() implies (#[trigger] lists[e]).len() <= u64::MAX by {
        assert(windows[e].len() <= duration);
    }
    lemma_lists_round_trip(lists);
    lemma_words_round_trip(flatten(lists));
    assert forall|e: int| 0 <= e < lists.len() implies 1 <= (#[trigger] lists[e]).len() <= duration
        && forall|j: int| 0 <= j < lists[e].len() ==> #[trigger] lists[e][j] <= 2 by {
        assert(1 <= windows[e].len() <= duration);
    }
    let read = Seq::new(lists.len(), |e: int| words_slots(lists[e]));
    assert forall|e: int| 0 <= e < windows.len() implies #[trigger] read[e] == windows[e] by {
        assert(read[e] =~= windows[e]);
    }
    assert(read =~= windows);
}

/// Per-entity state of a boolean aggregation over a sliding window.
pub struct TwoStacksBooleanAccumToken {
    windows: Vec<SlidingWindow>,
}

impl View for TwoStacksBooleanAccumToken {
    type V = Seq<Seq<Option<bool>>>;

    closed spec fn view(&self) -> Seq<Seq<Option<bool>>> {
        Seq::new(self.windows@.len(), |e: int| self.windows@[e]@)
    }
}

impl TwoStacksBooleanAccumToken {
    /// Every entity's window is well formed for `duration`.
    pub closed spec fn wf(&self, duration: nat) -> bool {
        forall|e: int| 0 <= e < self.windows@.len() ==> (#[trigger] self.windows@[e]).wf(duration)
    }

    /// What `wf` says of the numbers of slots.
    pub proof fn lemma_wf(&self, duration: nat)
        requires
            self.wf(duration),
        ensures
            slots_within(self@, duration),
    {
        assert forall|e: int| 0 <= e < self@.len() implies 1 <= (#[trigger] self@[e]).len()
            <= duration by {
            self.windows@[e].lemma_wf(duration);
        }
    }

    /// A token without entities.
    pub fn new() -> (token: TwoStacksBooleanAccumToken)
        ensures
            token@ == Seq::<Seq<Option<bool>>>::empty(),
            forall|duration: nat| token.wf(duration),
    {
        let token = TwoStacksBooleanAccumToken { windows: Vec::new() };
        assert(token@ =~= Seq::<Seq<Option<bool>>>::empty());
        token
    }

    /// The number of entities the token has room for.
    pub fn len(&self) -> (n: usize)
        ensures
            n == self@.len(),
    {
        self.windows.len()
    }

    /// Makes room for `len` entities. The token never shrinks, and the
    /// windows that are added have one empty slot.
    pub fn resize(&mut self, len: usize, duration: usize)
        requires
            duration >= 1,
            old(self).wf(duration as nat),
        ensures
            final(self).wf(duration as nat),
            final(self)@ == grown_windows(old(self)@, len as nat),
    {
        let ghost before = self@;
        while self.windows.len() < len
            invariant
                duration >= 1,
                self.wf(duration as nat),
                before.len() <= self@.len(),
                self@.len() <= len || self@.len() == before.len(),
                self@ =~= before + Seq::new(
                    (self@.len() - before.len()) as nat,
                    |i: int| seq![None::<bool>],
                ),
            decreases len - self.windows@.len(),
        {
            let ghost prev = self@;
            self.windows.push(SlidingWindow::new());
            assert(self@ =~= prev.push(seq![None::<bool>]));
        }
        assert(self@ =~= grown_windows(before, len as nat));
    }

    /// The token's state as bytes.
    pub fn serialize(&self) -> (bytes: Vec<u8>)
        ensures
            bytes@ == stored_windows(self@),
    {
        let mut lists: Vec<Vec<u64>> = Vec::new();
        let mut e: usize = 0;
        while e < self.windows.len()
            invariant
                e <= self.windows@.len(),
                lists@.len() == e,
                forall|k: int|
                    0 <= k < e ==> (#[trigger] lists@[k])@ == slot_words(self.windows@[k]@),
            decreases self.windows@.len() - e,
        {
            let slots = self.windows[e].slots();
            let mut words: Vec<u64> = Vec::new();
            let mut j: usize = 0;
            while j < slots.len()
                invariant
                    j <= slots@.len(),
                    words@.len() == j,
                    forall|k: int|
                        0 <= k < j ==> (#[trigger] words@[k]) == encode_state(slots@[k]) as u64,
                decreases slots@.len() - j,
            {
                let word: u64 = match slots[j] {
                    None => 0,
                    Some(false) => 1,
                    Some(true) => 2,
                };
                words.push(word);
                j += 1;
            }
            assert(words@ =~= slot_words(slots@));
            lists.push(words);
            e += 1;
        }
        assert(lists_of(lists@) =~= Seq::new(self@.len(), |e: int| slot_words(self@[e])));
        let words = encode_lists(&lists);
        encode_words(&words)
    }

    /// The token that `bytes` store for a window of `duration` slots. Fails
    /// exactly where they store no windows of that many slots or fewer.
    pub fn deserialize(bytes: &Vec<u8>, duration: usize) -> (result: Result<
        TwoStacksBooleanAccumToken,
        EvalError,
    >)
        ensures
            match restored_windows(bytes@, duration as nat) {
                Some(windows) => result is Ok && result->Ok_0@ == windows && result->Ok_0.wf(
                    duration as nat,
                ),
                None => result is Err && result->Err_0 == EvalError::CorruptSnapshot,
            },
    {
        let words = match decode_words(bytes) {
            Some(words) => words,
            None => {
                return Err(EvalError::CorruptSnapshot);
            },
        };
        let lists = match decode_lists(&words) {
            Some(lists) => lists,
            None => {
                return Err(EvalError::CorruptSnapshot);
            },
        };
        let ghost stored = lists_of(lists@);
        let ghost read = Seq::new(stored.len(), |e: int| words_slots(stored[e]));
        assert(restored_windows(bytes@, duration as nat) == (if are_windows(
            stored,
            duration as nat,
        ) {
            Some(read)
        } else {
            None
        }));
        let mut windows: Vec<SlidingWindow> = Vec::new();
        let mut e: usize = 0;
        while e < lists.len()
            invariant
                e <= lists@.len(),
                windows@.len() == e,
                stored == lists_of(lists@),
                read == Seq::new(stored.len(), |e: int| words_slots(stored[e])),
                restored_windows(bytes@, duration as nat) == (if are_windows(
                    stored,
                    duration as nat,
                ) {
                    Some(read)
                } else {
                    None
                }),
                forall|k: int| 0 <= k < e ==> (#[trigger] windows@[k])@ == read[k],
                forall|k: int| 0 <= k < e ==> (#[trigger] windows@[k]).wf(duration as nat),
                forall|k: int|
                    0 <= k < e ==> 1 <= (#[trigger] stored[k]).len() <= duration && forall|j: int|
                        0 <= j < stored[k].len() ==> #[trigger] stored[k][j] <= 2,
            decreases lists@.len() - e,
        {
            let list = &lists[e];
            assert(stored[e as int] == list@);
            if list.len() < 1 || list.len() > duration {
                return Err(EvalError::CorruptSnapshot);
            }
            let mut slots: Vec<Option<bool>> = Vec::new();
            let mut j: usize = 0;
            while j < list.len()
                invariant
                    j <= list@.len(),
                    slots@.len() == j,
                    e < stored.len(),
                    stored[e as int] == list@,
                    restored_windows(bytes@, duration as nat) == (if are_windows(
                        stored,
                        duration as nat,
                    ) {
                        Some(read)
                    } else {
                        None
                    }),
                    forall|k: int| 0 <= k < j ==> (#[trigger] list@[k]) <= 2,
                    forall|k: int| 0 <= k < j ==> (#[trigger] slots@[k]) == words_slots(list@)[k],
                decreases list@.len() - j,
            {
                let word: u64 = list[j];
                if word > 2 {
                    assert(stored[e as int][j as int] > 2);
                    return Err(EvalError::CorruptSnapshot);
                }
                slots.push(
                    if word == 1 {
                        Some(false)
                    } else if word == 2 {
                        Some(true)
                    } else {
                        None
                    },
                );
                j += 1;
            }
            assert(slots@ =~= read[e as int]);
            windows.push(SlidingWindow::from_slots(&slots, duration));
            e += 1;
        }
        let token = TwoStacksBooleanAccumToken { windows };
        assert(token@ =~= read);
        Ok(token)
    }

    /// One row of entity `entity_index`.
    pub fn observe(
        &mut self,
        duration: usize,
        entity_index: u32,
        input: Option<bool>,
        tick: Option<bool>,
    ) -> (result: Result<Option<bool>, EvalError>)
        requires
            duration >= 1,
            old(self).wf(duration as nat),
        ensures
            final(self).wf(duration as nat),
            entity_index < old(self)@.len() ==> result == Ok::<Option<bool>, EvalError>(
                slide_emitted(old(self)@[entity_index as int], input),
            ) && final(self)@ == old(self)@.update(
                entity_index as int,
                slide_step(old(self)@[entity_index as int], input, tick, duration as nat),
            ),
            entity_index >= old(self)@.len() ==> result == Err::<Option<bool>, EvalError>(
                EvalError::EntityOutOfRange,
            ) && final(self)@ == old(self)@,
    {
        let index: usize = entity_index as usize;
        if index >= self.windows.len() {
            return Err(EvalError::EntityOutOfRange);
        }
        let ghost before = self@;
        let ghost windows_before = self.windows@;
        let mut window = SlidingWindow::new();
        std::mem::swap(&mut window, &mut self.windows[index]);
        let emitted = window.observe(duration, input, tick);
        self.windows[index] = window;
        assert(self@ =~= before.update(
            index as int,
            slide_step(before[index as int], input, tick, duration as nat),
        ));
        assert forall|e: int| 0 <= e < self.windows@.len() implies (#[trigger] self.windows@[e]).wf(
            duration as nat,
        ) by {
            if e != index {
                assert(self.windows@[e] == windows_before[e]);
            }
        }
        Ok(emitted)
    }
}

/// What `evaluate` does to an evaluator over a sliding window, and what it
/// returns.
pub open spec fn sliding_evaluated(
    before: TwoStacksLastBooleanEvaluator,
    after: TwoStacksLastBooleanEvaluator,
    info: RuntimeInfo,
    result: Result<Column, EvalError>,
) -> bool {
    let keys = info.spec_grouping().spec_group_indices();
    let duration = before.args()->Sliding_duration as nat;
    let start = grown_windows(before.state(), info.spec_grouping().spec_num_groups() as nat);
    &&& after.args() == before.args()
    &&& match operands(before.args(), info.spec_columns(), keys.len()) {
        Err(e) => result == Err::<Column, EvalError>(e) && after.state() == before.state(),
        Ok((input, ticks)) => result matches Ok(Column::Boolean(out)) && out@ == sliding_outputs(
            start,
            keys,
            input,
            ticks,
            duration,
        ) && after.state() == sliding_states(start, keys, input, ticks, duration, keys.len() as int),
    }
}

/// Evaluator for the `last` instruction on booleans over a sliding window.
pub struct TwoStacksLastBooleanEvaluator {
    args: AggregationArgs,
    duration: usize,
    token: TwoStacksBooleanAccumToken,
}

impl TwoStacksLastBooleanEvaluator {
    /// The operands the evaluator was made for.
    pub closed spec fn args(&self) -> AggregationArgs {
        self.args
    }

    /// The slots held for each entity.
    pub closed spec fn state(&self) -> Seq<Seq<Option<bool>>> {
        self.token@
    }

    /// The operands are those of a sliding window of one slot or more, and
    /// no entity has more slots than the window.
    pub closed spec fn wf(&self) -> bool {
        &&& self.args matches AggregationArgs::Sliding { duration, .. } && duration
            == self.duration
        &&& self.duration >= 1
        &&& self.token.wf(self.duration as nat)
    }

    /// The evaluator for the operands of a sliding window, with nothing
    /// observed yet. The window has to last one slot or more.
    pub fn try_new(args: AggregationArgs) -> (result: Result<
        TwoStacksLastBooleanEvaluator,
        EvalError,
    >)
        ensures
            match args {
                AggregationArgs::Sliding { duration, .. } => if 1 <= duration <= usize::MAX {
                    result is Ok && result->Ok_0.wf() && result->Ok_0.args() == args
                        && result->Ok_0.state() == Seq::<Seq<Option<bool>>>::empty()
                } else {
                    result is Err && result->Err_0 == EvalError::UnsupportedArgument
                },
                _ => result is Err && result->Err_0 == EvalError::TypeMismatch,
            },
    {
        match args {
            AggregationArgs::Sliding { duration, .. } => {
                if duration < 1 || duration as u64 > usize::MAX as u64 {
                    return Err(EvalError::UnsupportedArgument);
                }
                Ok(
                    TwoStacksLastBooleanEvaluator {
                        args,
                        duration: duration as usize,
                        token: TwoStacksBooleanAccumToken::new(),
                    },
                )
            },
            _ => Err(EvalError::TypeMismatch),
        }
    }

    /// Takes a batch in over a sliding window of `duration` slots, row by
    /// row, and returns what `last` emits at each row: the aggregate over
    /// the slots of the row's entity, the row itself taken in. A row whose
    /// window column holds a valid `true` closes the open slot after it has
    /// emitted. The token first gets room for `key_capacity` entities. A row
    /// whose entity index has no entry stops the batch there.
    pub fn aggregate_sliding(
        token: &mut TwoStacksBooleanAccumToken,
        duration: usize,
        key_capacity: usize,
        key_indices: &Vec<u32>,
        input: &Vec<Option<bool>>,
        window_ticks: &Vec<Option<bool>>,
    ) -> (result: Result<Vec<Option<bool>>, EvalError>)
        requires
            duration >= 1,
            old(token).wf(duration as nat),
            key_indices@.len() == input@.len(),
            key_indices@.len() == window_ticks@.len(),
        ensures
            final(token).wf(duration as nat),
            ({
                let start = grown_windows(old(token)@, key_capacity as nat);
                match result {
                    Ok(out) => indices_below(key_indices@, start.len()) && out@ == sliding_outputs(
                        start,
                        key_indices@,
                        input@,
                        window_ticks@,
                        duration as nat,
                    ) && final(token)@ == sliding_states(
                        start,
                        key_indices@,
                        input@,
                        window_ticks@,
                        duration as nat,
                        key_indices@.len() as int,
                    ),
                    Err(e) => e == EvalError::EntityOutOfRange && exists|k: int|
                        #![trigger first_out_of_range(key_indices@, start.len(), k)]
                        first_out_of_range(key_indices@, start.len(), k) && final(token)@
                            == sliding_states(
                            start,
                            key_indices@,
                            input@,
                            window_ticks@,
                            duration as nat,
                            k,
                        ),
                }
            }),
    {
        token.resize(key_capacity, duration);
        let ghost start = token@;
        assert(token@ =~= sliding_states(
            start,
            key_indices@,
            input@,
            window_ticks@,
            duration as nat,
            0,
        ));
        let mut result: Vec<Option<bool>> = Vec::new();
        let mut i: usize = 0;
        while i < key_indices.len()
            invariant
                duration >= 1,
                token.wf(duration as nat),
                i <= key_indices@.len(),
                key_indices@.len() == input@.len(),
                key_indices@.len() == window_ticks@.len(),
                token@ == sliding_states(
                    start,
                    key_indices@,
                    input@,
                    window_ticks@,
                    duration as nat,
                    i as int,
                ),
                result@.len() == i,
                start == grown_windows(old(token)@, key_capacity as nat),
                forall|j: int| 0 <= j < i ==> (#[trigger] key_indices@[j]) < start.len(),
                forall|j: int|
                    0 <= j < i ==> (#[trigger] result@[j]) == slide_emitted(
                        sliding_slots(
                            start[key_indices@[j] as int],
                            key_indices@,
                            input@,
                            window_ticks@,
                            duration as nat,
                            key_indices@[j] as int,
                            j,
                        ),
                        input@[j],
                    ),
            decreases key_indices@.len() - i,
        {
            match token.observe(duration, key_indices[i], input[i], window_ticks[i]) {
                Ok(emitted) => {
                    assert(token@ =~= sliding_states(
                        start,
                        key_indices@,
                        input@,
                        window_ticks@,
                        duration as nat,
                        i + 1,
                    ));
                    result.push(emitted);
                },
                Err(e) => {
                    assert(first_out_of_range(key_indices@, start.len(), i as int));
                    return Err(e);
                },
            }
            i += 1;
        }
        assert(result@ =~= sliding_outputs(
            start,
            key_indices@,
            input@,
            window_ticks@,
            duration as nat,
        ));
        Ok(result)
    }

    /// Takes one batch in and returns the value of `last` at each of its
    /// rows. Where an operand is missing or is not boolean the state is left
    /// as it was.
    pub fn evaluate(&mut self, info: &RuntimeInfo) -> (result: Result<Column, EvalError>)
        requires
            info.wf(),
            old(self).wf(),
        ensures
            final(self).wf(),
            sliding_evaluated(*old(self), *final(self), *info, result),
    {
        proof {
            info.lemma_wf();
            info.spec_grouping().lemma_wf();
        }
        let grouping = info.grouping();
        match self.args {
            AggregationArgs::Sliding { ticks, input, .. } => {
                proof {
                    lemma_operand_rows(info.spec_columns(), grouping.spec_group_indices().len(), input);
                    lemma_operand_rows(info.spec_columns(), grouping.spec_group_indices().len(), ticks);
                }
                let input_vals = match info.value(&input) {
                    Ok(column) => column,
                    Err(e) => {
                        return Err(e);
                    },
                };
                let window = match info.value(&ticks) {
                    Ok(column) => column,
                    Err(e) => {
                        return Err(e);
                    },
                };
                let window = match window.boolean_array() {
                    Ok(values) => values,
                    Err(e) => {
                        return Err(e);
                    },
                };
                let input_vals = match input_vals.boolean_array() {
                    Ok(values) => values,
                    Err(e) => {
                        return Err(e);
                    },
                };
                match Self::aggregate_sliding(
                    &mut self.token,
                    self.duration,
                    grouping.num_groups(),
                    grouping.group_indices(),
                    input_vals.values(),
                    window.values(),
                ) {
                    Ok(out) => Ok(Column::Boolean(out)),
                    Err(e) => Err(e),
                }
            },
            _ => Err(EvalError::TypeMismatch),
        }
    }
}

} // verus!
