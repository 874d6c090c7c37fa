use sparrow::batch::{AggregationArgs, Column, Grouping, RuntimeInfo, ValueRef};
use sparrow::error::EvalError;
use sparrow::last_boolean::{BooleanLast, LastBooleanEvaluator};
use sparrow::token::BooleanAccumToken;

#[test]
fn test_boolean_last_with_no_null() {
    let entity_indices: Vec<u32> = vec![0, 1, 2, 1, 1];
    let input = vec![Some(false), Some(true), Some(false), Some(true), Some(false)];
    let mut token = BooleanAccumToken::default();

    let output = LastBooleanEvaluator::aggregate(&mut token, 3, &entity_indices, &input).unwrap();
    assert_eq!(
        output,
        vec![Some(false), Some(true), Some(false), Some(true), Some(false)]
    );
}

#[test]
fn test_boolean_last_with_null() {
    let entity_indices: Vec<u32> = vec![0, 1, 2, 1, 1];
    let input = vec![Some(false), Some(true), None, None, Some(false)];
    let mut token = BooleanAccumToken::default();

    let output = LastBooleanEvaluator::aggregate(&mut token, 3, &entity_indices, &input).unwrap();

    assert_eq!(
        output,
        vec![Some(false), Some(true), None, Some(true), Some(false)]
    );

    // And another round (to make sure values carry over)
    let entity_indices: Vec<u32> = vec![0, 1, 1, 2, 3];
    let input = vec![None, None, Some(true), Some(true), None];
    let output = LastBooleanEvaluator::aggregate(&mut token, 4, &entity_indices, &input).unwrap();

    assert_eq!(
        output,
        vec![Some(false), Some(false), Some(true), Some(true), None]
    );
}

#[test]
fn test_boolean_last_since_with_null() {
    let entity_indices: Vec<u32> = vec![0, 0, 0, 0, 0];
    let input = vec![Some(false), Some(true), None, None, Some(false)];
    let since = vec![Some(false), Some(false), Some(false), Some(true), Some(false)];
    let mut token = BooleanAccumToken::default();

    let output =
        LastBooleanEvaluator::aggregate_since(&mut token, 3, &entity_indices, &input, &since)
            .unwrap();
    assert_eq!(
        output,
        vec![Some(false), Some(true), Some(true), Some(true), Some(false)]
    );

    // And another round (to make sure values carry over)
    let entity_indices: Vec<u32> = vec![0, 0, 0, 0, 0];
    let input = vec![None, None, Some(true), Some(true), None];
    let since = vec![Some(false), Some(false), Some(false), Some(true), Some(false)];

    let output =
        LastBooleanEvaluator::aggregate_since(&mut token, 4, &entity_indices, &input, &since)
            .unwrap();
    assert_eq!(
        output,
        vec![Some(false), Some(false), Some(true), Some(true), None]
    );
}

#[test]
fn last_carries_the_value_of_each_entity() {
    // Entities A = 0 and B = 1.
    let keys: Vec<u32> = vec![0, 1, 0, 0, 0];
    let input = vec![Some(false), Some(true), None, None, Some(false)];
    let mut token = BooleanAccumToken::default();
    let output = LastBooleanEvaluator::aggregate(&mut token, 2, &keys, &input).unwrap();
    assert_eq!(
        output,
        vec![Some(false), Some(true), Some(false), Some(false), Some(false)]
    );
    assert_eq!(token.get_optional_value(0), Ok(Some(false)));
    assert_eq!(token.get_optional_value(1), Ok(Some(true)));
}

#[test]
fn last_is_null_until_a_value_was_seen() {
    let keys: Vec<u32> = vec![0, 0, 1, 0];
    let input = vec![None, None, Some(true), Some(true)];
    let mut token = BooleanAccumToken::default();
    let output = LastBooleanEvaluator::aggregate(&mut token, 2, &keys, &input).unwrap();
    assert_eq!(output, vec![None, None, Some(true), Some(true)]);
}

#[test]
fn since_with_null_tick_does_not_reset() {
    let keys: Vec<u32> = vec![0, 0, 0];
    let input = vec![Some(true), None, None];
    let since = vec![None, Some(false), Some(true)];
    let mut token = BooleanAccumToken::default();
    let output =
        LastBooleanEvaluator::aggregate_since(&mut token, 1, &keys, &input, &since).unwrap();
    assert_eq!(output, vec![Some(true), Some(true), Some(true)]);
    assert_eq!(token.get_optional_value(0), Ok(None));
}

#[test]
fn since_resets_only_the_entity_of_the_row() {
    let keys: Vec<u32> = vec![0, 1, 0, 1, 0];
    let input = vec![Some(true), Some(false), None, None, None];
    let since = vec![Some(false), Some(false), Some(true), Some(false), Some(false)];
    let mut token = BooleanAccumToken::default();
    let output =
        LastBooleanEvaluator::aggregate_since(&mut token, 2, &keys, &input, &since).unwrap();
    assert_eq!(
        output,
        vec![Some(true), Some(false), Some(true), Some(false), None]
    );
}

#[test]
fn aggregate_stops_at_an_entity_without_an_entry() {
    let keys: Vec<u32> = vec![0, 5, 0];
    let input = vec![Some(true), Some(false), Some(false)];
    let mut token = BooleanAccumToken::default();
    let result = LastBooleanEvaluator::aggregate(&mut token, 2, &keys, &input);
    assert_eq!(result, Err(EvalError::EntityOutOfRange));
    assert_eq!(token.len(), 2);
    assert_eq!(token.get_optional_value(0), Ok(Some(true)));

    let since = vec![None, None, None];
    let mut token = BooleanAccumToken::default();
    let result = LastBooleanEvaluator::aggregate_since(&mut token, 2, &keys, &input, &since);
    assert_eq!(result, Err(EvalError::EntityOutOfRange));
    assert_eq!(token.get_optional_value(0), Ok(Some(true)));
}

#[test]
fn splitting_a_batch_changes_nothing() {
    let keys: Vec<u32> = vec![0, 1, 0, 1, 2, 0, 2];
    let input = vec![Some(true), None, None, Some(false), None, Some(false), Some(true)];
    let since = vec![None, Some(true), Some(true), Some(false), None, Some(false), Some(true)];

    let mut whole = BooleanAccumToken::default();
    let expected =
        LastBooleanEvaluator::aggregate_since(&mut whole, 3, &keys, &input, &since).unwrap();

    for cut in 0..=keys.len() {
        let mut token = BooleanAccumToken::default();
        let mut output = LastBooleanEvaluator::aggregate_since(
            &mut token,
            3,
            &keys[..cut].to_vec(),
            &input[..cut].to_vec(),
            &since[..cut].to_vec(),
        )
        .unwrap();
        output.extend(
            LastBooleanEvaluator::aggregate_since(
                &mut token,
                3,
                &keys[cut..].to_vec(),
                &input[cut..].to_vec(),
                &since[cut..].to_vec(),
            )
            .unwrap(),
        );
        assert_eq!(output, expected);
        assert_eq!(token.serialize(), whole.serialize());
    }
}

#[test]
fn rows_of_other_entities_do_not_matter() {
    let keys: Vec<u32> = vec![0, 1, 0, 1, 1, 0];
    let input = vec![Some(true), Some(false), None, None, Some(true), Some(false)];
    let since = vec![None, Some(true), Some(true), None, None, None];
    let mut token = BooleanAccumToken::default();
    let mixed = LastBooleanEvaluator::aggregate_since(&mut token, 2, &keys, &input, &since).unwrap();

    // Entity 0 alone.
    let own_keys: Vec<u32> = vec![0, 0, 0];
    let own_input = vec![Some(true), None, Some(false)];
    let own_since = vec![None, Some(true), None];
    let mut token = BooleanAccumToken::default();
    let alone =
        LastBooleanEvaluator::aggregate_since(&mut token, 1, &own_keys, &own_input, &own_since)
            .unwrap();
    assert_eq!(vec![mixed[0], mixed[2], mixed[5]], alone);
    assert_eq!(alone, vec![Some(true), Some(true), Some(false)]);
}

#[test]
fn output_is_null_exactly_where_nothing_valid_was_counted() {
    let keys: Vec<u32> = vec![0, 0, 0, 0, 0, 0];
    let input = vec![None, Some(true), None, None, Some(false), None];
    let since = vec![Some(false), Some(true), None, Some(true), Some(true), Some(false)];
    let mut token = BooleanAccumToken::default();
    let output =
        LastBooleanEvaluator::aggregate_since(&mut token, 1, &keys, &input, &since).unwrap();
    let mut count: u32 = 0;
    for i in 0..keys.len() {
        if input[i].is_some() {
            count += 1;
        }
        assert_eq!(output[i].is_some(), count > 0);
        if since[i] == Some(true) {
            count = 0;
        }
    }
    assert_eq!(output, vec![None, Some(true), None, None, Some(false), None]);
}

#[test]
fn update_accum_row_by_row() {
    let mut token = BooleanAccumToken::default();
    token.resize(2);
    assert_eq!(LastBooleanEvaluator::update_accum(&mut token, 0, false, true), Ok(None));
    assert_eq!(
        LastBooleanEvaluator::update_accum(&mut token, 0, true, true),
        Ok(Some(true))
    );
    assert_eq!(
        LastBooleanEvaluator::update_accum(&mut token, 0, false, false),
        Ok(Some(true))
    );
    assert_eq!(
        LastBooleanEvaluator::update_accum(&mut token, 2, true, false),
        Err(EvalError::EntityOutOfRange)
    );
    assert_eq!(
        LastBooleanEvaluator::update_since_accum(&mut token, 0, false, true, false, true),
        Ok(Some(true))
    );
    assert_eq!(token.get_optional_value(0), Ok(None));
    assert_eq!(
        LastBooleanEvaluator::update_since_accum(&mut token, 1, true, false, false, true),
        Ok(Some(false))
    );
    assert_eq!(token.get_optional_value(1), Ok(Some(false)));
    assert_eq!(
        LastBooleanEvaluator::update_since_accum(&mut token, 9, true, true, false, true),
        Err(EvalError::EntityOutOfRange)
    );
}

fn batch(num_groups: usize, keys: Vec<u32>, columns: Vec<Column>) -> RuntimeInfo {
    RuntimeInfo::try_new(Grouping::try_new(num_groups, keys).unwrap(), columns).unwrap()
}

fn plain(args: AggregationArgs) -> LastBooleanEvaluator {
    match LastBooleanEvaluator::try_new(args) {
        Ok(BooleanLast::Plain(evaluator)) => evaluator,
        _ => panic!("expected the evaluator without a sliding window"),
    }
}

#[test]
fn evaluate_without_a_window() {
    let mut evaluator = plain(AggregationArgs::NoWindow {
        input: ValueRef::Column(0),
    });
    let info = batch(
        2,
        vec![0, 1, 0],
        vec![Column::Boolean(vec![Some(true), None, None])],
    );
    assert_eq!(
        evaluator.evaluate(&info),
        Ok(Column::Boolean(vec![Some(true), None, Some(true)]))
    );
    let info = batch(2, vec![1, 0], vec![Column::Boolean(vec![None, None])]);
    assert_eq!(
        evaluator.evaluate(&info),
        Ok(Column::Boolean(vec![None, Some(true)]))
    );
    assert_eq!(evaluator.state_token().unwrap().serialize(), vec![2, 0]);
}

#[test]
fn evaluate_over_a_since_window() {
    let mut evaluator = plain(AggregationArgs::Since {
        ticks: ValueRef::Column(1),
        input: ValueRef::Column(0),
    });
    let info = batch(
        1,
        vec![0, 0, 0],
        vec![
            Column::Boolean(vec![Some(false), None, None]),
            Column::Boolean(vec![None, Some(true), None]),
        ],
    );
    assert_eq!(
        evaluator.evaluate(&info),
        Ok(Column::Boolean(vec![Some(false), Some(false), None]))
    );
}

#[test]
fn evaluate_refuses_missing_and_mistyped_operands() {
    let mut evaluator = plain(AggregationArgs::Since {
        ticks: ValueRef::Column(1),
        input: ValueRef::Column(0),
    });
    let info = batch(1, vec![0], vec![Column::Boolean(vec![Some(true)])]);
    assert_eq!(evaluator.evaluate(&info), Err(EvalError::MissingOperand));
    let info = batch(
        1,
        vec![0],
        vec![Column::Boolean(vec![Some(true)]), Column::Int32(vec![Some(1)])],
    );
    assert_eq!(evaluator.evaluate(&info), Err(EvalError::TypeMismatch));
    assert_eq!(evaluator.state_token().unwrap().len(), 0);

    let mut evaluator = plain(AggregationArgs::NoWindow {
        input: ValueRef::Column(7),
    });
    assert_eq!(evaluator.evaluate(&info), Err(EvalError::MissingOperand));
    let mut evaluator = plain(AggregationArgs::NoWindow {
        input: ValueRef::Int64(1),
    });
    assert_eq!(evaluator.evaluate(&info), Err(EvalError::TypeMismatch));
}

#[test]
fn a_null_literal_is_an_input_of_nulls() {
    let mut evaluator = plain(AggregationArgs::NoWindow {
        input: ValueRef::Column(0),
    });
    let info = batch(2, vec![0, 1], vec![Column::Boolean(vec![Some(true), None])]);
    assert_eq!(
        evaluator.evaluate(&info),
        Ok(Column::Boolean(vec![Some(true), None]))
    );
    let mut evaluator = plain(AggregationArgs::NoWindow {
        input: ValueRef::Null,
    });
    assert_eq!(evaluator.evaluate(&info), Ok(Column::Boolean(vec![None, None])));
}

#[test]
fn a_sliding_window_gets_the_two_stacks_evaluator() {
    let args = AggregationArgs::Sliding {
        ticks: ValueRef::Column(1),
        duration: 2,
        input: ValueRef::Column(0),
    };
    let mut evaluator = LastBooleanEvaluator::try_new(args).unwrap();
    assert!(matches!(evaluator, BooleanLast::Sliding(_)));
    let info = batch(
        1,
        vec![0, 0, 0, 0],
        vec![
            Column::Boolean(vec![Some(true), None, None, None]),
            Column::Boolean(vec![Some(true), Some(true), Some(true), None]),
        ],
    );
    assert_eq!(
        evaluator.evaluate(&info),
        Ok(Column::Boolean(vec![Some(true), Some(true), None, None]))
    );

    let unsupported = LastBooleanEvaluator::try_new(AggregationArgs::Sliding {
        ticks: ValueRef::Column(1),
        duration: 0,
        input: ValueRef::Column(0),
    });
    assert!(matches!(unsupported, Err(EvalError::UnsupportedArgument)));
}

#[test]
fn the_plain_evaluator_is_behind_the_dispatch() {
    let mut evaluator = LastBooleanEvaluator::try_new(AggregationArgs::NoWindow {
        input: ValueRef::Column(0),
    })
    .unwrap();
    let info = batch(1, vec![0, 0], vec![Column::Boolean(vec![Some(false), None])]);
    assert_eq!(
        evaluator.evaluate(&info),
        Ok(Column::Boolean(vec![Some(false), Some(false)]))
    );
}

#[test]
fn a_restored_state_is_the_state_of_the_evaluator() {
    let mut evaluator = plain(AggregationArgs::NoWindow {
        input: ValueRef::Column(0),
    });
    let info = batch(2, vec![0, 1], vec![Column::Boolean(vec![Some(true), None])]);
    evaluator.evaluate(&info).unwrap();
    let snapshot = evaluator.state_token().unwrap().store(4);

    let mut resumed = plain(AggregationArgs::NoWindow {
        input: ValueRef::Column(0),
    });
    *resumed.state_token_mut().unwrap() = BooleanAccumToken::restore(&snapshot, 2).unwrap();
    let next = batch(2, vec![1, 0], vec![Column::Boolean(vec![None, None])]);
    assert_eq!(resumed.evaluate(&next), evaluator.evaluate(&next));
    assert_eq!(
        resumed.evaluate(&next),
        Ok(Column::Boolean(vec![None, Some(true)]))
    );
}
