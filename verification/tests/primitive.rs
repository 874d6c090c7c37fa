use sparrow::count::{count_if, is_valid, CountToken};
use sparrow::error::EvalError;
use sparrow::primitive::{aggregate, AggregationKind, PrimitiveAccumToken};

fn run(
    kind: AggregationKind,
    keys: &Vec<u32>,
    input: &Vec<Option<i64>>,
    window: Option<&Vec<Option<bool>>>,
) -> Vec<Option<i64>> {
    let mut token = PrimitiveAccumToken::new();
    aggregate(&mut token, kind, 2, keys, input, window).unwrap()
}

#[test]
fn aggregations_without_a_window() {
    let keys: Vec<u32> = vec![0, 1, 0, 0, 1, 0];
    let input = vec![Some(5), None, Some(-2), None, Some(7), Some(9)];
    assert_eq!(
        run(AggregationKind::Sum, &keys, &input, None),
        vec![Some(5), None, Some(3), Some(3), Some(7), Some(12)]
    );
    assert_eq!(
        run(AggregationKind::Min, &keys, &input, None),
        vec![Some(5), None, Some(-2), Some(-2), Some(7), Some(-2)]
    );
    assert_eq!(
        run(AggregationKind::Max, &keys, &input, None),
        vec![Some(5), None, Some(5), Some(5), Some(7), Some(9)]
    );
    assert_eq!(
        run(AggregationKind::First, &keys, &input, None),
        vec![Some(5), None, Some(5), Some(5), Some(7), Some(5)]
    );
    assert_eq!(
        run(AggregationKind::Last, &keys, &input, None),
        vec![Some(5), None, Some(-2), Some(-2), Some(7), Some(9)]
    );
}

#[test]
fn aggregations_since_the_last_tick() {
    let keys: Vec<u32> = vec![0, 0, 0, 0, 0];
    let input = vec![Some(1), Some(2), None, Some(4), Some(8)];
    let ticks = vec![Some(false), Some(true), None, Some(true), Some(false)];
    assert_eq!(
        run(AggregationKind::Sum, &keys, &input, Some(&ticks)),
        vec![Some(1), Some(3), None, Some(4), Some(8)]
    );
    assert_eq!(
        run(AggregationKind::First, &keys, &input, Some(&ticks)),
        vec![Some(1), Some(1), None, Some(4), Some(8)]
    );
}

#[test]
fn sum_wraps_around() {
    let keys: Vec<u32> = vec![0, 0, 0];
    let input = vec![Some(i64::MAX), Some(1), Some(-1)];
    assert_eq!(
        run(AggregationKind::Sum, &keys, &input, None),
        vec![Some(i64::MAX), Some(i64::MIN), Some(i64::MAX)]
    );
}

#[test]
fn aggregation_state_carries_over_and_errors_stop_the_batch() {
    let mut token = PrimitiveAccumToken::new();
    let first = aggregate(
        &mut token,
        AggregationKind::Max,
        1,
        &vec![0, 0],
        &vec![Some(3), Some(1)],
        None,
    );
    assert_eq!(first, Ok(vec![Some(3), Some(3)]));
    let second = aggregate(
        &mut token,
        AggregationKind::Max,
        1,
        &vec![0, 1, 0],
        &vec![Some(4), Some(9), Some(9)],
        None,
    );
    assert_eq!(second, Err(EvalError::EntityOutOfRange));
    assert_eq!(token.get(0), Ok(Some(4)));
    assert_eq!(token.get(1), Err(EvalError::EntityOutOfRange));
    assert_eq!(token.len(), 1);
    assert_eq!(
        token.observe(AggregationKind::Max, 0, None, Some(true)),
        Ok(Some(4))
    );
    assert_eq!(token.get(0), Ok(None));
}

#[test]
fn count_if_counts_valid_trues() {
    let keys: Vec<u32> = vec![0, 1, 0, 0, 1, 0];
    let flags = vec![Some(true), Some(false), None, Some(true), Some(true), Some(false)];
    let mut token = CountToken::new();
    let counts = count_if(&mut token, 2, &keys, &flags, None).unwrap();
    assert_eq!(counts, vec![1, 0, 1, 2, 1, 2]);

    let ticks = vec![None, None, Some(true), None, Some(true), None];
    let mut token = CountToken::new();
    let counts = count_if(&mut token, 2, &keys, &flags, Some(&ticks)).unwrap();
    assert_eq!(counts, vec![1, 0, 1, 1, 1, 1]);
    assert_eq!(token.len(), 2);
}

#[test]
fn count_is_count_if_of_validity() {
    let input = vec![Some(3), None, Some(0), None];
    let flags = is_valid(&input);
    assert_eq!(flags, vec![Some(true), Some(false), Some(true), Some(false)]);
    let mut token = CountToken::new();
    let counts =
        count_if(&mut token, 1, &vec![0, 0, 0, 0], &flags, None).unwrap();
    assert_eq!(counts, vec![1, 1, 2, 2]);
}

#[test]
fn counting_stops_at_the_largest_count() {
    let mut token = CountToken::new();
    token.resize(1);
    assert_eq!(token.observe(0, Some(true), None), Ok(1));
    assert_eq!(token.observe(0, None, None), Ok(1));
    assert_eq!(token.observe(0, Some(true), Some(true)), Ok(2));
    assert_eq!(token.observe(0, Some(false), None), Ok(0));
    assert_eq!(token.observe(1, Some(true), None), Err(EvalError::EntityOutOfRange));
    let result = count_if(&mut token, 1, &vec![0, 4], &vec![None, None], None);
    assert_eq!(result, Err(EvalError::EntityOutOfRange));
}

#[test]
fn an_aggregate_is_null_exactly_where_the_count_is_zero() {
    let keys: Vec<u32> = vec![0, 1, 0, 1, 0, 0, 1, 0];
    let input = vec![None, Some(4), Some(1), None, None, None, Some(2), Some(6)];
    let ticks = vec![None, Some(true), Some(true), None, None, Some(true), None, None];
    let flags = is_valid(&input);
    let mut counts = CountToken::new();
    let counted = count_if(&mut counts, 2, &keys, &flags, Some(&ticks)).unwrap();
    for kind in [
        AggregationKind::Sum,
        AggregationKind::Min,
        AggregationKind::Max,
        AggregationKind::First,
        AggregationKind::Last,
    ] {
        let output = run(kind, &keys, &input, Some(&ticks));
        for i in 0..keys.len() {
            assert_eq!(output[i].is_some(), counted[i] > 0);
        }
    }
    assert_eq!(counted, vec![0, 1, 1, 0, 0, 0, 1, 1]);
}
