use sparrow::batch::{
    nulls, repeated, AggregationArgs, Column, Grouping, Operand, RuntimeInfo, ValueRef,
};
use sparrow::error::EvalError;

#[test]
fn grouping_checks_the_entity_indices() {
    let grouping = Grouping::try_new(2, vec![0, 1, 1]).unwrap();
    assert_eq!(grouping.num_groups(), 2);
    assert_eq!(grouping.group_indices(), &vec![0, 1, 1]);
    assert!(matches!(
        Grouping::try_new(2, vec![0, 2]),
        Err(EvalError::EntityOutOfRange)
    ));
    assert!(Grouping::try_new(0, vec![]).is_ok());
}

#[test]
fn runtime_info_checks_the_column_lengths() {
    let grouping = Grouping::try_new(1, vec![0, 0]).unwrap();
    assert!(matches!(
        RuntimeInfo::try_new(grouping, vec![Column::Boolean(vec![None])]),
        Err(EvalError::LengthMismatch)
    ));
    let grouping = Grouping::try_new(1, vec![0, 0]).unwrap();
    let info = RuntimeInfo::try_new(
        grouping,
        vec![
            Column::Boolean(vec![None, Some(true)]),
            Column::Int32(vec![Some(1), None]),
        ],
    )
    .unwrap();
    assert_eq!(info.grouping().num_groups(), 1);
    assert_eq!(
        info.value(&ValueRef::Column(1)),
        Ok(Operand::Column(&Column::Int32(vec![Some(1), None])))
    );
    assert_eq!(info.value(&ValueRef::Column(2)), Err(EvalError::MissingOperand));
    assert_eq!(info.value(&ValueRef::Null), Ok(Operand::Null(2)));
    assert_eq!(info.value(&ValueRef::Int64(3)), Ok(Operand::Int64(3, 2)));
}

#[test]
fn a_literal_stands_in_every_row() {
    let grouping = Grouping::try_new(1, vec![0, 0, 0]).unwrap();
    let info = RuntimeInfo::try_new(grouping, vec![Column::Boolean(vec![None, None, Some(true)])])
        .unwrap();
    let null = info.value(&ValueRef::Null).unwrap();
    assert_eq!(null.boolean_array().unwrap().values(), &vec![None, None, None]);
    assert_eq!(null.primitive_array().unwrap().values(), &vec![None, None, None]);
    assert_eq!(null.int64_array().unwrap().values(), &vec![None, None, None]);
    let seven = info.value(&ValueRef::Int64(7)).unwrap();
    assert_eq!(
        seven.int64_array().unwrap().values(),
        &vec![Some(7), Some(7), Some(7)]
    );
    assert_eq!(seven.boolean_array(), Err(EvalError::TypeMismatch));
    assert_eq!(seven.primitive_array(), Err(EvalError::TypeMismatch));
    let column = info.value(&ValueRef::Column(0)).unwrap();
    assert_eq!(
        column.boolean_array().unwrap().values(),
        &vec![None, None, Some(true)]
    );
    assert_eq!(column.int64_array(), Err(EvalError::TypeMismatch));
    assert_eq!(column.primitive_array(), Err(EvalError::TypeMismatch));
    assert_eq!(nulls::<bool>(2), vec![None, None]);
    assert_eq!(repeated(4, 2), vec![Some(4), Some(4)]);
    assert_eq!(repeated(4, 0), vec![]);
}

#[test]
fn columns_are_read_by_their_type() {
    let booleans = Column::Boolean(vec![Some(true), None]);
    let integers = Column::Int32(vec![Some(7)]);
    assert_eq!(booleans.len(), 2);
    assert_eq!(integers.len(), 1);
    assert_eq!(booleans.boolean_array(), Ok(&vec![Some(true), None]));
    assert_eq!(booleans.primitive_array(), Err(EvalError::TypeMismatch));
    assert_eq!(integers.primitive_array(), Ok(&vec![Some(7)]));
    assert_eq!(integers.boolean_array(), Err(EvalError::TypeMismatch));
}

#[test]
fn aggregation_arguments_select_the_window() {
    let input = ValueRef::Column(0);
    let ticks = ValueRef::Column(1);
    assert_eq!(
        AggregationArgs::from_input(&vec![input, ValueRef::Null, ValueRef::Null]),
        Ok(AggregationArgs::NoWindow { input })
    );
    assert_eq!(
        AggregationArgs::from_input(&vec![input, ticks, ValueRef::Null]),
        Ok(AggregationArgs::Since { ticks, input })
    );
    assert_eq!(
        AggregationArgs::from_input(&vec![input, ticks, ValueRef::Int64(3)]),
        Ok(AggregationArgs::Sliding { ticks, duration: 3, input })
    );
    assert_eq!(
        AggregationArgs::from_input(&vec![input, ValueRef::Null, ValueRef::Int64(3)]),
        Err(EvalError::TypeMismatch)
    );
    assert_eq!(
        AggregationArgs::from_input(&vec![input, ticks]),
        Err(EvalError::WrongArity)
    );
}
