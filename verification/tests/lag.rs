use sparrow::batch::{Column, Grouping, RuntimeInfo, ValueRef};
use sparrow::error::EvalError;
use sparrow::lag::{LagEvaluator, LagToken};

#[test]
fn lag_one_for_two_entities() {
    // Entities A = 0 and B = 1.
    let keys: Vec<u32> = vec![0, 1, 0, 0, 0, 0];
    let input = vec![Some(5), Some(24), Some(17), None, Some(12), None];
    let mut token = LagToken::new();
    let output = LagEvaluator::lag_batch(&mut token, 1, 2, &keys, &input).unwrap();
    assert_eq!(output, vec![None, None, Some(5), Some(17), Some(17), Some(12)]);
}

#[test]
fn lag_two_reads_the_value_before_the_last() {
    let keys: Vec<u32> = vec![0, 0, 0, 0, 0, 0];
    let input = vec![Some(1), Some(2), None, Some(3), Some(4), Some(5)];
    let mut token = LagToken::new();
    let output = LagEvaluator::lag_batch(&mut token, 2, 1, &keys, &input).unwrap();
    assert_eq!(output, vec![None, None, Some(1), Some(1), Some(2), Some(3)]);
}

#[test]
fn lag_carries_over_to_the_next_batch() {
    let mut token = LagToken::new();
    let first = LagEvaluator::lag_batch(
        &mut token,
        2,
        2,
        &vec![0, 1, 0],
        &vec![Some(10), Some(20), Some(11)],
    )
    .unwrap();
    assert_eq!(first, vec![None, None, None]);
    let second = LagEvaluator::lag_batch(
        &mut token,
        2,
        3,
        &vec![0, 1, 2, 0],
        &vec![Some(12), Some(21), Some(30), None],
    )
    .unwrap();
    assert_eq!(second, vec![Some(10), None, None, Some(11)]);
    assert_eq!(token.len(), 3);
}

#[test]
fn lag_stops_at_an_entity_without_an_entry() {
    let mut token = LagToken::new();
    let result = LagEvaluator::lag_batch(&mut token, 1, 1, &vec![0, 3], &vec![Some(1), Some(2)]);
    assert_eq!(result, Err(EvalError::EntityOutOfRange));
    assert_eq!(token.observe(1, 0, None), Ok(Some(1)));
}

#[test]
fn observe_emits_before_it_takes_in() {
    let mut token = LagToken::new();
    token.resize(1);
    assert_eq!(token.observe(2, 0, Some(7)), Ok(None));
    assert_eq!(token.observe(2, 0, Some(8)), Ok(None));
    assert_eq!(token.observe(2, 0, Some(9)), Ok(Some(7)));
    assert_eq!(token.observe(2, 0, None), Ok(Some(8)));
    assert_eq!(token.observe(2, 1, None), Err(EvalError::EntityOutOfRange));
}

#[test]
fn lag_of_zero_is_not_supported() {
    assert!(matches!(
        LagEvaluator::try_new(0, ValueRef::Column(0)),
        Err(EvalError::UnsupportedArgument)
    ));
    assert!(matches!(
        LagEvaluator::try_new(-1, ValueRef::Column(0)),
        Err(EvalError::UnsupportedArgument)
    ));
    assert!(LagEvaluator::try_new(1, ValueRef::Column(0)).is_ok());
}

#[test]
fn lag_evaluator_resolves_its_operand() {
    let mut evaluator = LagEvaluator::try_new(1, ValueRef::Column(0)).unwrap();
    let info = RuntimeInfo::try_new(
        Grouping::try_new(1, vec![0, 0]).unwrap(),
        vec![Column::Int64(vec![Some(3), Some(4)])],
    )
    .unwrap();
    assert_eq!(evaluator.evaluate(&info), Ok(Column::Int64(vec![None, Some(3)])));
    assert_eq!(evaluator.evaluate(&info), Ok(Column::Int64(vec![Some(4), Some(3)])));

    let mistyped = RuntimeInfo::try_new(
        Grouping::try_new(1, vec![0]).unwrap(),
        vec![Column::Int32(vec![Some(3)])],
    )
    .unwrap();
    assert_eq!(evaluator.evaluate(&mistyped), Err(EvalError::TypeMismatch));
    let mut missing = LagEvaluator::try_new(1, ValueRef::Column(4)).unwrap();
    assert_eq!(missing.evaluate(&info), Err(EvalError::MissingOperand));
    let mut literal = LagEvaluator::try_new(1, ValueRef::Int64(6)).unwrap();
    assert_eq!(literal.evaluate(&info), Ok(Column::Int64(vec![None, Some(6)])));
}

/// The column `m` of the fixture, for the entities A = 0 and B = 1.
fn i64_data_fixture() -> (Vec<u32>, Vec<Option<i64>>) {
    (
        vec![0, 1, 0, 0, 0, 0],
        vec![Some(5), Some(24), Some(17), None, Some(12), None],
    )
}

#[test]
fn test_lag_1_i64() {
    let (keys, m) = i64_data_fixture();
    let mut token = LagToken::new();
    let lag_one = LagEvaluator::lag_batch(&mut token, 1, 2, &keys, &m).unwrap();
    assert_eq!(lag_one, vec![None, None, Some(5), Some(17), Some(17), Some(12)]);
}

#[test]
fn test_lag_2_i64() {
    let (keys, m) = i64_data_fixture();
    let mut token = LagToken::new();
    let lag_two = LagEvaluator::lag_batch(&mut token, 2, 2, &keys, &m).unwrap();
    assert_eq!(lag_two, vec![None, None, None, Some(5), Some(5), Some(17)]);
}
