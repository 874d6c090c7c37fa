use vstd::prelude::*;

use crate::error::EvalError;

verus! {

/// The state of `len` entities of which the first `s.len()` are those of `s`
/// and the others have never been written.
pub open spec fn grown(s: Seq<Option<bool>>, len: nat) -> Seq<Option<bool>> {
    if len <= s.len() {
        s
    } else {
        s + Seq::new((len - s.len()) as nat, |i: int| None::<bool>)
    }
}

/// The byte that stands for one entity's state in a stored token.
pub open spec fn encode_state(state: Option<bool>) -> u8 {
    match state {
        None => 0u8,
        Some(false) => 1u8,
        Some(true) => 2u8,
    }
}

/// The state that a stored byte stands for, if it stands for one.
pub open spec fn decode_state(byte: u8) -> Option<Option<bool>> {
    if byte == 0u8 {
        Some(None)
    } else if byte == 1u8 {
        Some(Some(false))
    } else if byte == 2u8 {
        Some(Some(true))
    } else {
        None
    }
}

/// The stored form of a token: one byte for each entity, in index order.
pub open spec fn encode_states(states: Seq<Option<bool>>) -> Seq<u8> {
    Seq::new(states.len(), |i: int| encode_state(states[i]))
}

/// Whether every byte of `bytes` stands for a state.
pub open spec fn decodable(bytes: Seq<u8>) -> bool {
    forall|i: int| 0 <= i < bytes.len() ==> (#[trigger] bytes[i]) <= 2u8
}

/// The states that `bytes` stand for, byte by byte. Meaningful where
/// `decodable(bytes)` holds.
pub open spec fn decode_states(bytes: Seq<u8>) -> Seq<Option<bool>> {
    Seq::new(
        bytes.len(),
        |i: int|
            match decode_state(bytes[i]) {
                Some(state) => state,
                None => None,
            },
    )
}

/// Per-entity state of a boolean aggregation: for each entity index the value
/// held for it, or nothing where none was observed since the last reset.
pub struct BooleanAccumToken {
    accum: Vec<Option<bool>>,
}

impl View for BooleanAccumToken {
    type V = Seq<Option<bool>>;

    closed spec fn view(&self) -> Seq<Option<bool>> {
        self.accum@
    }
}

impl Default for BooleanAccumToken {
    fn default() -> (token: Self)
        ensures
            token@ == Seq::<Option<bool>>::empty(),
    {
        BooleanAccumToken { accum: Vec::new() }
    }
}

impl BooleanAccumToken {
    /// The number of entities the token has room for.
    pub fn len(&self) -> (n: usize)
        ensures
            n == self@.len(),
    {
        self.accum.len()
    }

    /// Makes room for `len` entities. The token never shrinks, and the
    /// entries that are added hold nothing.
    pub fn resize(&mut self, len: usize)
        ensures
            final(self)@ == grown(old(self)@, len as nat),
    {
        let ghost before = self.accum@;
        while self.accum.len() < len
            invariant
                before.len() <= self.accum@.len(),
                self.accum@.len() <= len || self.accum@.len() == before.len(),
                self.accum@ =~= before + Seq::new(
                    (self.accum@.len() - before.len()) as nat,
                    |i: int| None::<bool>,
                ),
            decreases len - self.accum@.len(),
        {
            self.accum.push(None);
        }
        assert(self.accum@ =~= grown(before, len as nat));
    }

    /// The state of one entity.
    pub fn get_optional_value(&self, entity_index: u32) -> (result: Result<
        Option<bool>,
        EvalError,
    >)
        ensures
            entity_index < self@.len() ==> result == Ok::<Option<bool>, EvalError>(
                self@[entity_index as int],
            ),
            entity_index >= self@.len() ==> result == Err::<Option<bool>, EvalError>(
                EvalError::EntityOutOfRange,
            ),
    {
        let index: usize = entity_index as usize;
        if index < self.accum.len() {
            Ok(self.accum[index])
        } else {
            Err(EvalError::EntityOutOfRange)
        }
    }

    /// Writes the state of one entity; `None` resets it.
    pub fn put_optional_value(&mut self, entity_index: u32, value: Option<bool>) -> (result:
        Result<(), EvalError>)
        ensures
            entity_index < old(self)@.len() ==> result is Ok && final(self)@ == old(self)@.update(
                entity_index as int,
                value,
            ),
            entity_index >= old(self)@.len() ==> result == Err::<(), EvalError>(
                EvalError::EntityOutOfRange,
            ) && final(self)@ == old(self)@,
    {
        let index: usize = entity_index as usize;
        if index < self.accum.len() {
            self.accum[index] = value;
            Ok(())
        } else {
            Err(EvalError::EntityOutOfRange)
        }
    }

    /// The token's state as bytes, one for each entity.
    pub fn serialize(&self) -> (bytes: Vec<u8>)
        ensures
            bytes@ == encode_states(self@),
    {
        let mut bytes: Vec<u8> = Vec::new();
        let mut i: usize = 0;
        while i < self.accum.len()
            invariant
                i <= self.accum@.len(),
                bytes@.len() == i,
                forall|j: int| 0 <= j < i ==> bytes@[j] == encode_state(self.accum@[j]),
            decreases self.accum@.len() - i,
        {
            let byte: u8 = match self.accum[i] {
                None => 0,
                Some(false) => 1,
                Some(true) => 2,
            };
            bytes.push(byte);
            i += 1;
        }
        assert(bytes@ =~= encode_states(self@));
        bytes
    }

    /// The token that `bytes` store. Fails exactly where some byte stands for
    /// no state.
    pub fn deserialize(bytes: &Vec<u8>) -> (result: Result<BooleanAccumToken, EvalError>)
        ensures
            decodable(bytes@) ==> result is Ok && result->Ok_0@ == decode_states(bytes@),
            !decodable(bytes@) ==> result is Err && result->Err_0 == EvalError::CorruptSnapshot,
    {
        let mut accum: Vec<Option<bool>> = Vec::new();
        let mut i: usize = 0;
        while i < bytes.len()
            invariant
                i <= bytes@.len(),
                accum@.len() == i,
                forall|j: int| 0 <= j < i ==> (#[trigger] bytes@[j]) <= 2u8,
                forall|j: int| 0 <= j < i ==> decode_state(bytes@[j]) == Some(#[trigger] accum@[j]),
            decreases bytes@.len() - i,
        {
            let byte: u8 = bytes[i];
            if byte == 0 {
                accum.push(None);
            } else if byte == 1 {
                accum.push(Some(false));
            } else if byte == 2 {
                accum.push(Some(true));
            } else {
                return Err(EvalError::CorruptSnapshot);
            }
            i += 1;
        }
        assert(accum@ =~= decode_states(bytes@));
        Ok(BooleanAccumToken { accum })
    }
}

/// The kind of token that a stored state belongs to.
#[derive(Debug, Clone, Copy, PartialEq, Eq, Structural)]
pub enum TokenKind {
    BooleanAccum,
    TwoStacksBooleanAccum,
    PrimitiveAccum,
    Count,
    Lag,
}

/// The version of the layout in which tokens are stored.
pub const SNAPSHOT_VERSION: u32 = 1;

/// The stored state of one stateful operator.
#[derive(Debug, PartialEq, Eq)]
pub struct Snapshot {
    /// The operator of the plan that the state belongs to.
    pub operator_id: u32,
    /// The kind of token that was stored.
    pub token_kind: TokenKind,
    /// The version of the layout.
    pub version: u32,
    /// The token's state.
    pub payload: Vec<u8>,
}

impl Snapshot {
    /// The snapshot of a token of some kind for the operator `operator_id`,
    /// in the current version of the layout.
    pub fn new(operator_id: u32, token_kind: TokenKind, payload: Vec<u8>) -> (snapshot: Snapshot)
        ensures
            snapshot.operator_id == operator_id,
            snapshot.token_kind == token_kind,
            snapshot.version == SNAPSHOT_VERSION,
            snapshot.payload == payload,
    {
        Snapshot { operator_id, token_kind, version: SNAPSHOT_VERSION, payload }
    }

    /// The stored state, for a token of the kind `token_kind`. A snapshot of
    /// another kind is refused, and then one of another version.
    pub fn payload_of(&self, token_kind: TokenKind) -> (result: Result<&Vec<u8>, EvalError>)
        ensures
            self.token_kind != token_kind ==> result is Err && result->Err_0
                == EvalError::SnapshotKindMismatch,
            self.token_kind == token_kind && self.version != SNAPSHOT_VERSION ==> result is Err
                && result->Err_0 == EvalError::SnapshotVersionMismatch,
            self.token_kind == token_kind && self.version == SNAPSHOT_VERSION ==> result is Ok
                && *result->Ok_0 == self.payload,
    {
        if self.token_kind != token_kind {
            return Err(EvalError::SnapshotKindMismatch);
        }
        if self.version != SNAPSHOT_VERSION {
            return Err(EvalError::SnapshotVersionMismatch);
        }
        Ok(&self.payload)
    }
}

/// What restoring a boolean token from a snapshot gives, for a plan with
/// `num_groups` entities: the stored states, unless the snapshot is of
/// another kind, of another version, does not decode, or holds more entities
/// than the plan knows.
pub open spec fn restored(
    token_kind: TokenKind,
    version: u32,
    payload: Seq<u8>,
    num_groups: nat,
) -> Result<Seq<Option<bool>>, EvalError> {
    if token_kind != TokenKind::BooleanAccum {
        Err(EvalError::SnapshotKindMismatch)
    } else if version != SNAPSHOT_VERSION {
        Err(EvalError::SnapshotVersionMismatch)
    } else if !decodable(payload) {
        Err(EvalError::CorruptSnapshot)
    } else if payload.len() > num_groups {
        Err(EvalError::EntityOutOfRange)
    } else {
        Ok(decode_states(payload))
    }
}

impl BooleanAccumToken {
    /// The snapshot of the token for the operator `operator_id`.
    pub fn store(&self, operator_id: u32) -> (snapshot: Snapshot)
        ensures
            snapshot.operator_id == operator_id,
            snapshot.token_kind == TokenKind::BooleanAccum,
            snapshot.version == SNAPSHOT_VERSION,
            snapshot.payload@ == encode_states(self@),
    {
        Snapshot::new(operator_id, TokenKind::BooleanAccum, self.serialize())
    }

    /// The token that a snapshot stores, for a plan with `num_groups`
    /// entities.
    pub fn restore(snapshot: &Snapshot, num_groups: usize) -> (result: Result<
        BooleanAccumToken,
        EvalError,
    >)
        ensures
            match restored(
                snapshot.token_kind,
                snapshot.version,
                snapshot.payload@,
                num_groups as nat,
            ) {
                Ok(states) => result is Ok && result->Ok_0@ == states,
                Err(e) => result is Err && result->Err_0 == e,
            },
    {
        let payload = match snapshot.payload_of(TokenKind::BooleanAccum) {
            Ok(payload) => payload,
            Err(e) => {
                return Err(e);
            },
        };
        let token = match BooleanAccumToken::deserialize(payload) {
            Ok(token) => token,
            Err(e) => {
                return Err(e);
            },
        };
        if token.len() > num_groups {
            return Err(EvalError::EntityOutOfRange);
        }
        Ok(token)
    }
}

/// A token restored from its own snapshot reads as before, for every plan
/// that knows at least the entities of the token.
pub proof fn lemma_restore_of_store(states: Seq<Option<bool>>, num_groups: nat)
    requires
        states.len() <= num_groups,
    ensures
        restored(TokenKind::BooleanAccum, SNAPSHOT_VERSION, encode_states(states), num_groups)
            == Ok::<Seq<Option<bool>>, EvalError>(states),
{
    lemma_snapshot_round_trip(states);
}

/// Storing a token and reading it back gives a token of the same length in
/// which every entity reads as before.
pub proof fn lemma_snapshot_round_trip(states: Seq<Option<bool>>)
    ensures
        decodable(encode_states(states)),
        decode_states(encode_states(states)) == states,
{
    assert(decode_states(encode_states(states)) =~= states);
}

} // verus!
