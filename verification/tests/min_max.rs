use sparrow::batch::{Column, Grouping, RuntimeInfo, ValueRef};
use sparrow::error::EvalError;
use sparrow::min_max::{zip_max, zip_min, ZipMaxEvaluator, ZipMinEvaluator};

#[test]
fn test_zip_min_int32() {
    let left = vec![Some(1), Some(5), None];
    let right = vec![Some(0), Some(6), None];
    let actual = zip_min(&left, &right).unwrap();
    assert_eq!(actual, vec![Some(0), Some(5), None]);
}

#[test]
fn test_zip_max_int32() {
    let left = vec![Some(1), Some(5), None];
    let right = vec![Some(0), Some(6), None];
    let actual = zip_max(&left, &right).unwrap();
    assert_eq!(actual, vec![Some(1), Some(6), None]);
}

#[test]
fn zip_is_null_where_one_side_is_null() {
    let left = vec![Some(3), None, Some(-4), Some(i32::MIN)];
    let right = vec![None, Some(2), Some(-4), Some(i32::MAX)];
    assert_eq!(
        zip_min(&left, &right),
        Ok(vec![None, None, Some(-4), Some(i32::MIN)])
    );
    assert_eq!(
        zip_max(&left, &right),
        Ok(vec![None, None, Some(-4), Some(i32::MAX)])
    );
}

#[test]
fn zip_of_nothing_is_nothing() {
    assert_eq!(zip_min(&vec![], &vec![]), Ok(vec![]));
    assert_eq!(zip_max(&vec![], &vec![]), Ok(vec![]));
}

#[test]
fn zip_refuses_columns_of_different_length() {
    assert_eq!(
        zip_min(&vec![Some(1)], &vec![Some(1), Some(2)]),
        Err(EvalError::LengthMismatch)
    );
    assert_eq!(zip_max(&vec![Some(1)], &vec![]), Err(EvalError::LengthMismatch));
}

fn batch(columns: Vec<Column>) -> RuntimeInfo {
    RuntimeInfo::try_new(Grouping::try_new(1, vec![0, 0]).unwrap(), columns).unwrap()
}

#[test]
fn zip_evaluators_take_two_arguments() {
    let lhs = ValueRef::Column(0);
    let rhs = ValueRef::Column(1);
    assert_eq!(
        ZipMinEvaluator::try_new(&vec![lhs, rhs]),
        Ok(ZipMinEvaluator { lhs, rhs })
    );
    assert_eq!(ZipMinEvaluator::try_new(&vec![lhs]), Err(EvalError::WrongArity));
    assert_eq!(
        ZipMaxEvaluator::try_new(&vec![lhs, rhs, rhs]),
        Err(EvalError::WrongArity)
    );
}

#[test]
fn zip_evaluators_resolve_their_operands() {
    let info = batch(vec![
        Column::Int32(vec![Some(4), Some(9)]),
        Column::Int32(vec![Some(7), None]),
        Column::Boolean(vec![None, None]),
    ]);
    let mut min = ZipMinEvaluator::try_new(&vec![ValueRef::Column(0), ValueRef::Column(1)]).unwrap();
    assert_eq!(min.evaluate(&info), Ok(Column::Int32(vec![Some(4), None])));
    let mut max = ZipMaxEvaluator::try_new(&vec![ValueRef::Column(0), ValueRef::Column(1)]).unwrap();
    assert_eq!(max.evaluate(&info), Ok(Column::Int32(vec![Some(7), None])));

    let mut mistyped =
        ZipMinEvaluator::try_new(&vec![ValueRef::Column(0), ValueRef::Column(2)]).unwrap();
    assert_eq!(mistyped.evaluate(&info), Err(EvalError::TypeMismatch));
    let mut missing =
        ZipMaxEvaluator::try_new(&vec![ValueRef::Column(3), ValueRef::Column(0)]).unwrap();
    assert_eq!(missing.evaluate(&info), Err(EvalError::MissingOperand));
    let mut with_null =
        ZipMaxEvaluator::try_new(&vec![ValueRef::Column(0), ValueRef::Null]).unwrap();
    assert_eq!(with_null.evaluate(&info), Ok(Column::Int32(vec![None, None])));
}
