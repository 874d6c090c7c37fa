use vstd::prelude::*;

use crate::batch::{
    booleans_of, indices_below, lemma_operand_rows, resolves, AggregationArgs, Column,
    RuntimeInfo,
};
use crate::error::EvalError;
use crate::sliding_last::{sliding_evaluated, TwoStacksLastBooleanEvaluator};
use crate::token::{grown, BooleanAccumToken};

verus! {

/// What `last` holds for entity `e` once the first `n` rows are taken in: the
/// latest non-null input among those rows of `e`, or `prior` if there is none.
pub open spec fn last_after(
    prior: Option<bool>,
    keys: Seq<u32>,
    input: Seq<Option<bool>>,
    e: int,
    n: int,
) -> Option<bool>
    decreases n,
{
    if n <= 0 {
        prior
    } else if keys[n - 1] == e && input[n - 1] is Some {
        input[n - 1]
    } else {
        last_after(prior, keys, input, e, n - 1)
    }
}

/// Every entity's state once the first `n` rows are taken in.
pub open spec fn last_states(
    state: Seq<Option<bool>>,
    keys: Seq<u32>,
    input: Seq<Option<bool>>,
    n: int,
) -> Seq<Option<bool>> {
    Seq::new(state.len(), |e: int| last_after(state[e], keys, input, e, n))
}

/// What `last` emits row by row: at each row the state of that row's entity
/// with the row itself taken in.
pub open spec fn last_outputs(
    state: Seq<Option<bool>>,
    keys: Seq<u32>,
    input: Seq<Option<bool>>,
) -> Seq<Option<bool>> {
    Seq::new(
        keys.len(),
        |i: int| last_after(state[keys[i] as int], keys, input, keys[i] as int, i + 1),
    )
}

/// Whether a row of the window column closes the window: only a valid `true`
/// does.
pub open spec fn closes(tick: Option<bool>) -> bool {
    tick == Some(true)
}

/// What `last` over a `since` window holds for entity `e` once the first `n`
/// rows are taken in. A row of `e` that closes the window leaves nothing; any
/// other row of `e` with a value leaves that value.
pub open spec fn since_after(
    prior: Option<bool>,
    keys: Seq<u32>,
    input: Seq<Option<bool>>,
    ticks: Seq<Option<bool>>,
    e: int,
    n: int,
) -> Option<bool>
    decreases n,
{
    if n <= 0 {
        prior
    } else if keys[n - 1] != e {
        since_after(prior, keys, input, ticks, e, n - 1)
    } else if closes(ticks[n - 1]) {
        None
    } else if input[n - 1] is Some {
        input[n - 1]
    } else {
        since_after(prior, keys, input, ticks, e, n - 1)
    }
}

/// What row `i` emits for its entity `e`: its own value, or else what was held
/// before it. The window closes only after the row has emitted.
pub open spec fn since_emitted(
    prior: Option<bool>,
    keys: Seq<u32>,
    input: Seq<Option<bool>>,
    ticks: Seq<Option<bool>>,
    e: int,
    i: int,
) -> Option<bool> {
    if input[i] is Some {
        input[i]
    } else {
        since_after(prior, keys, input, ticks, e, i)
    }
}

/// Every entity's state once the first `n` rows are taken in.
pub open spec fn since_states(
    state: Seq<Option<bool>>,
    keys: Seq<u32>,
    input: Seq<Option<bool>>,
    ticks: Seq<Option<bool>>,
    n: int,
) -> Seq<Option<bool>> {
    Seq::new(state.len(), |e: int| since_after(state[e], keys, input, ticks, e, n))
}

/// What `last` over a `since` window emits row by row.
pub open spec fn since_outputs(
    state: Seq<Option<bool>>,
    keys: Seq<u32>,
    input: Seq<Option<bool>>,
    ticks: Seq<Option<bool>>,
) -> Seq<Option<bool>> {
    Seq::new(
        keys.len(),
        |i: int| since_emitted(state[keys[i] as int], keys, input, ticks, keys[i] as int, i),
    )
}

/// Row `k` is the first whose entity index is not below `bound`.
pub open spec fn first_out_of_range(keys: Seq<u32>, bound: nat, k: int) -> bool {
    &&& 0 <= k < keys.len()
    &&& keys[k] >= bound
    &&& forall|j: int| 0 <= j < k ==> (#[trigger] keys[j]) < bound
}

/// The input and window columns that the operands stand for in a batch of
/// `rows` rows. Without a window the second is empty. Both operands are
/// looked up before either is read as booleans.
pub open spec fn operands(args: AggregationArgs, columns: Seq<Column>, rows: nat) -> Result<
    (Seq<Option<bool>>, Seq<Option<bool>>),
    EvalError,
> {
    match args {
        AggregationArgs::NoWindow { input } => match booleans_of(columns, rows, input) {
            Ok(values) => Ok((values, Seq::empty())),
            Err(e) => Err(e),
        },
        AggregationArgs::Since { ticks, input } | AggregationArgs::Sliding { ticks, input, .. } => {
            if !resolves(columns, input) || !resolves(columns, ticks) {
                Err(EvalError::MissingOperand)
            } else {
                match (booleans_of(columns, rows, input), booleans_of(columns, rows, ticks)) {
                    (Ok(values), Ok(window)) => Ok((values, window)),
                    _ => Err(EvalError::TypeMismatch),
                }
            }
        },
    }
}

/// An evaluator for the `last` instruction on booleans, by the window it
/// runs over.
pub enum BooleanLast {
    /// Without a window, or over a `since` window.
    Plain(LastBooleanEvaluator),
    /// Over a sliding window.
    Sliding(TwoStacksLastBooleanEvaluator),
}

impl BooleanLast {
    /// The evaluator can take a batch in.
    pub open spec fn wf(&self) -> bool {
        match self {
            BooleanLast::Plain(evaluator) => !(evaluator.args() is Sliding),
            BooleanLast::Sliding(evaluator) => evaluator.wf(),
        }
    }

    /// Takes one batch in and returns the value of `last` at each of its
    /// rows, as the evaluator for its window does.
    pub fn evaluate(&mut self, info: &RuntimeInfo) -> (result: Result<Column, EvalError>)
        requires
            info.wf(),
            old(self).wf(),
        ensures
            final(self).wf(),
            match (*old(self), *final(self)) {
                (BooleanLast::Plain(before), BooleanLast::Plain(after)) => plain_evaluated(
                    before,
                    after,
                    *info,
                    result,
                ),
                (BooleanLast::Sliding(before), BooleanLast::Sliding(after)) => sliding_evaluated(
                    before,
                    after,
                    *info,
                    result,
                ),
                _ => false,
            },
    {
        match self {
            BooleanLast::Plain(evaluator) => evaluator.evaluate(info),
            BooleanLast::Sliding(evaluator) => evaluator.evaluate(info),
        }
    }
}

/// What `evaluate` does to an evaluator without a window or over a `since`
/// window, and what it returns.
pub open spec fn plain_evaluated(
    before: LastBooleanEvaluator,
    after: LastBooleanEvaluator,
    info: RuntimeInfo,
    result: Result<Column, EvalError>,
) -> bool {
    let keys = info.spec_grouping().spec_group_indices();
    let start = grown(before.state(), info.spec_grouping().spec_num_groups() as nat);
    &&& after.args() == before.args()
    &&& match operands(before.args(), info.spec_columns(), keys.len()) {
        Err(e) => result == Err::<Column, EvalError>(e) && after.state() == before.state(),
        Ok((input, ticks)) => result matches Ok(Column::Boolean(out)) && (if before.args()
            is NoWindow {
            out@ == last_outputs(start, keys, input) && after.state() == last_states(
                start,
                keys,
                input,
                keys.len() as int,
            )
        } else {
            out@ == since_outputs(start, keys, input, ticks) && after.state() == since_states(
                start,
                keys,
                input,
                ticks,
                keys.len() as int,
            )
        }),
    }
}

/// Evaluator for the `last` instruction on booleans, without a window or over
/// a `since` window.
pub struct LastBooleanEvaluator {
    args: AggregationArgs,
    token: BooleanAccumToken,
}

impl LastBooleanEvaluator {
    /// The operands the evaluator was made for.
    pub closed spec fn args(&self) -> AggregationArgs {
        self.args
    }

    /// The state held for each entity.
    pub closed spec fn state(&self) -> Seq<Option<bool>> {
        self.token@
    }

    /// The evaluator for the given operands, with nothing observed yet:
    /// this one without a window and over a `since` window, the two-stacks
    /// one over a sliding window.
    pub fn try_new(args: AggregationArgs) -> (result: Result<BooleanLast, EvalError>)
        ensures
            match args {
                AggregationArgs::Sliding { duration, .. } => if 1 <= duration <= usize::MAX {
                    result matches Ok(BooleanLast::Sliding(evaluator)) && evaluator.wf()
                        && evaluator.args() == args && evaluator.state() == Seq::<
                        Seq<Option<bool>>,
                    >::empty()
                } else {
                    result is Err && result->Err_0 == EvalError::UnsupportedArgument
                },
                _ => result matches Ok(BooleanLast::Plain(evaluator)) && evaluator.args() == args
                    && evaluator.state() == Seq::<Option<bool>>::empty(),
            },
    {
        match args {
            AggregationArgs::NoWindow { .. } | AggregationArgs::Since { .. } => {
                let token = BooleanAccumToken::default();
                Ok(BooleanLast::Plain(LastBooleanEvaluator { args, token }))
            },
            AggregationArgs::Sliding { .. } => {
                match TwoStacksLastBooleanEvaluator::try_new(args) {
                    Ok(evaluator) => Ok(BooleanLast::Sliding(evaluator)),
                    Err(e) => Err(e),
                }
            },
        }
    }

    /// Takes one batch in and returns the value of `last` at each of its
    /// rows. Where an operand is missing or is not boolean the state is left
    /// as it was.
    pub fn evaluate(&mut self, info: &RuntimeInfo) -> (result: Result<Column, EvalError>)
        requires
            info.wf(),
            !(old(self).args() is Sliding),
        ensures
            plain_evaluated(*old(self), *final(self), *info, result),
    {
        proof {
            info.lemma_wf();
            info.spec_grouping().lemma_wf();
        }
        let args: AggregationArgs = self.args;
        let grouping = info.grouping();
        match args {
            AggregationArgs::NoWindow { input } => {
                proof {
                    lemma_operand_rows(info.spec_columns(), grouping.spec_group_indices().len(), input);
                }
                let input_vals = match info.value(&input) {
                    Ok(column) => column,
                    Err(e) => {
                        return Err(e);
                    },
                };
                let input_vals = match input_vals.boolean_array() {
                    Ok(values) => values,
                    Err(e) => {
                        return Err(e);
                    },
                };
                match Self::aggregate(
                    &mut self.token,
                    grouping.num_groups(),
                    grouping.group_indices(),
                    input_vals.values(),
                ) {
                    Ok(out) => Ok(Column::Boolean(out)),
                    Err(e) => Err(e),
                }
            },
            AggregationArgs::Since { ticks, input } => {
                proof {
                    lemma_operand_rows(info.spec_columns(), grouping.spec_group_indices().len(), input);
                    lemma_operand_rows(info.spec_columns(), grouping.spec_group_indices().len(), ticks);
                }
                let input_vals = match info.value(&input) {
                    Ok(column) => column,
                    Err(e) => {
                        return Err(e);
                    },
                };
                let window = match info.value(&ticks) {
                    Ok(column) => column,
                    Err(e) => {
                        return Err(e);
                    },
                };
                let window = match window.boolean_array() {
                    Ok(values) => values,
                    Err(e) => {
                        return Err(e);
                    },
                };
                let input_vals = match input_vals.boolean_array() {
                    Ok(values) => values,
                    Err(e) => {
                        return Err(e);
                    },
                };
                match Self::aggregate_since(
                    &mut self.token,
                    grouping.num_groups(),
                    grouping.group_indices(),
                    input_vals.values(),
                    window.values(),
                ) {
                    Ok(out) => Ok(Column::Boolean(out)),
                    Err(e) => Err(e),
                }
            },
            AggregationArgs::Sliding { .. } => Err(EvalError::TypeMismatch),
        }
    }

    /// The state that a snapshot of the evaluator stores.
    pub fn state_token(&self) -> (token: Option<&BooleanAccumToken>)
        ensures
            token is Some,
            token->Some_0@ == self.state(),
    {
        Some(&self.token)
    }

    /// The state, to write to: what is written becomes the evaluator's state,
    /// as when a snapshot is restored.
    pub fn state_token_mut(&mut self) -> (token: Option<&mut BooleanAccumToken>)
        ensures
            token is Some,
            token->Some_0@ == old(self).state(),
            final(self).state() == final(token->Some_0)@,
            final(self).args() == old(self).args(),
    {
        Some(&mut self.token)
    }

    fn ensure_entity_capacity(token: &mut BooleanAccumToken, len: usize)
        ensures
            final(token)@ == grown(old(token)@, len as nat),
    {
        token.resize(len);
    }

    /// One row without a window: a valid input replaces what is held, and the
    /// row emits what is held after that.
    pub fn update_accum(
        token: &mut BooleanAccumToken,
        entity_index: u32,
        input_is_valid: bool,
        input: bool,
    ) -> (result: Result<Option<bool>, EvalError>)
        ensures
            entity_index < old(token)@.len() ==> result == Ok::<Option<bool>, EvalError>(
                if input_is_valid {
                    Some(input)
                } else {
                    old(token)@[entity_index as int]
                },
            ) && final(token)@ == (if input_is_valid {
                old(token)@.update(entity_index as int, Some(input))
            } else {
                old(token)@
            }),
            entity_index >= old(token)@.len() ==> result == Err::<Option<bool>, EvalError>(
                EvalError::EntityOutOfRange,
            ) && final(token)@ == old(token)@,
    {
        if input_is_valid {
            match token.put_optional_value(entity_index, Some(input)) {
                Ok(()) => Ok(Some(input)),
                Err(e) => Err(e),
            }
        } else {
            token.get_optional_value(entity_index)
        }
    }

    /// One row over a `since` window: update, emit, then reset where the
    /// window column holds a valid `true`.
    pub fn update_since_accum(
        token: &mut BooleanAccumToken,
        entity_index: u32,
        input_is_valid: bool,
        since_is_valid: bool,
        input: bool,
        since_bool: bool,
    ) -> (result: Result<Option<bool>, EvalError>)
        ensures
            entity_index < old(token)@.len() ==> result == Ok::<Option<bool>, EvalError>(
                if input_is_valid {
                    Some(input)
                } else {
                    old(token)@[entity_index as int]
                },
            ) && final(token)@ == (if since_is_valid && since_bool {
                old(token)@.update(entity_index as int, None)
            } else if input_is_valid {
                old(token)@.update(entity_index as int, Some(input))
            } else {
                old(token)@
            }),
            entity_index >= old(token)@.len() ==> result == Err::<Option<bool>, EvalError>(
                EvalError::EntityOutOfRange,
            ) && final(token)@ == old(token)@,
    {
        let value_to_emit = if input_is_valid {
            match token.put_optional_value(entity_index, Some(input)) {
                Ok(()) => Some(input),
                Err(e) => {
                    return Err(e);
                },
            }
        } else {
            match token.get_optional_value(entity_index) {
                Ok(held) => held,
                Err(e) => {
                    return Err(e);
                },
            }
        };
        if since_is_valid && since_bool {
            match token.put_optional_value(entity_index, None) {
                Ok(()) => {},
                Err(e) => {
                    return Err(e);
                },
            }
        }
        assert(final(token)@ =~= (if since_is_valid && since_bool {
            old(token)@.update(entity_index as int, None)
        } else if input_is_valid {
            old(token)@.update(entity_index as int, Some(input))
        } else {
            old(token)@
        }));
        Ok(value_to_emit)
    }

    /// Takes a batch in, row by row, and returns what `last` emits at each
    /// row. The token first gets room for `key_capacity` entities. A row
    /// whose entity index has no entry stops the batch there: the rows before
    /// it are taken in, and the error is returned.
    pub fn aggregate(
        token: &mut BooleanAccumToken,
        key_capacity: usize,
        key_indices: &Vec<u32>,
        input: &Vec<Option<bool>>,
    ) -> (result: Result<Vec<Option<bool>>, EvalError>)
        requires
            key_indices@.len() == input@.len(),
        ensures
            ({
                let start = grown(old(token)@, key_capacity as nat);
                match result {
                    Ok(out) => indices_below(key_indices@, start.len()) && out@ == last_outputs(
                        start,
                        key_indices@,
                        input@,
                    ) && final(token)@ == last_states(
                        start,
                        key_indices@,
                        input@,
                        key_indices@.len() as int,
                    ),
                    Err(e) => e == EvalError::EntityOutOfRange && exists|k: int|
                        #![trigger first_out_of_range(key_indices@, start.len(), k)]
                        first_out_of_range(key_indices@, start.len(), k) && final(token)@
                            == last_states(start, key_indices@, input@, k),
                }
            }),
    {
        Self::ensure_entity_capacity(token, key_capacity);
        let ghost start = token@;
        assert(token@ =~= last_states(start, key_indices@, input@, 0));
        let mut result: Vec<Option<bool>> = Vec::new();
        let mut i: usize = 0;
        while i < key_indices.len()
            invariant
                i <= key_indices@.len(),
                key_indices@.len() == input@.len(),
                token@ == last_states(start, key_indices@, input@, i as int),
                result@.len() == i,
                start == grown(old(token)@, key_capacity as nat),
                forall|j: int| 0 <= j < i ==> (#[trigger] key_indices@[j]) < start.len(),
                forall|j: int|
                    0 <= j < i ==> (#[trigger] result@[j]) == last_after(
                        start[key_indices@[j] as int],
                        key_indices@,
                        input@,
                        key_indices@[j] as int,
                        j + 1,
                    ),
            decreases key_indices@.len() - i,
        {
            let entity_index: u32 = key_indices[i];
            let (input_is_valid, value) = match input[i] {
                Some(value) => (true, value),
                None => (false, false),
            };
            match Self::update_accum(token, entity_index, input_is_valid, value) {
                Ok(emitted) => {
                    assert(token@ =~= last_states(start, key_indices@, input@, i + 1));
                    result.push(emitted);
                },
                Err(e) => {
                    assert(first_out_of_range(key_indices@, start.len(), i as int));
                    return Err(e);
                },
            }
            i += 1;
        }
        assert(result@ =~= last_outputs(start, key_indices@, input@));
        Ok(result)
    }

    /// Takes a batch in over a `since` window, row by row, and returns what
    /// `last` emits at each row. Each row updates, emits, and then resets its
    /// entity where `window_since` holds a valid `true`, so a window starts
    /// after the row that closed the one before and ends with the row that
    /// closes it. The token first gets room for `key_capacity` entities. A
    /// row whose entity index has no entry stops the batch there.
    pub fn aggregate_since(
        token: &mut BooleanAccumToken,
        key_capacity: usize,
        key_indices: &Vec<u32>,
        input: &Vec<Option<bool>>,
        window_since: &Vec<Option<bool>>,
    ) -> (result: Result<Vec<Option<bool>>, EvalError>)
        requires
            key_indices@.len() == input@.len(),
            key_indices@.len() == window_since@.len(),
        ensures
            ({
                let start = grown(old(token)@, key_capacity as nat);
                match result {
                    Ok(out) => indices_below(key_indices@, start.len()) && out@ == since_outputs(
                        start,
                        key_indices@,
                        input@,
                        window_since@,
                    ) && final(token)@ == since_states(
                        start,
                        key_indices@,
                        input@,
                        window_since@,
                        key_indices@.len() as int,
                    ),
                    Err(e) => e == EvalError::EntityOutOfRange && exists|k: int|
                        #![trigger first_out_of_range(key_indices@, start.len(), k)]
                        first_out_of_range(key_indices@, start.len(), k) && final(token)@
                            == since_states(start, key_indices@, input@, window_since@, k),
                }
            }),
    {
        Self::ensure_entity_capacity(token, key_capacity);
        let ghost start = token@;
        assert(token@ =~= since_states(start, key_indices@, input@, window_since@, 0));
        let mut result: Vec<Option<bool>> = Vec::new();
        let mut i: usize = 0;
        while i < key_indices.len()
            invariant
                i <= key_indices@.len(),
                key_indices@.len() == input@.len(),
                key_indices@.len() == window_since@.len(),
                token@ == since_states(start, key_indices@, input@, window_since@, i as int),
                result@.len() == i,
                start == grown(old(token)@, key_capacity as nat),
                forall|j: int| 0 <= j < i ==> (#[trigger] key_indices@[j]) < start.len(),
                forall|j: int|
                    0 <= j < i ==> (#[trigger] result@[j]) == since_emitted(
                        start[key_indices@[j] as int],
                        key_indices@,
                        input@,
                        window_since@,
                        key_indices@[j] as int,
                        j,
                    ),
            decreases key_indices@.len() - i,
        {
            let entity_index: u32 = key_indices[i];
            let (input_is_valid, value) = match input[i] {
                Some(value) => (true, value),
                None => (false, false),
            };
            let (since_is_valid, since_bool) = match window_since[i] {
                Some(tick) => (true, tick),
                None => (false, false),
            };
            match Self::update_since_accum(
                token,
                entity_index,
                input_is_valid,
                since_is_valid,
                value,
                since_bool,
            ) {
                Ok(emitted) => {
                    assert(token@ =~= since_states(
                        start,
                        key_indices@,
                        input@,
                        window_since@,
                        i + 1,
                    ));
                    result.push(emitted);
                },
                Err(e) => {
                    assert(first_out_of_range(key_indices@, start.len(), i as int));
                    return Err(e);
                },
            }
            i += 1;
        }
        assert(result@ =~= since_outputs(start, key_indices@, input@, window_since@));
        Ok(result)
    }
}

} // verus!
