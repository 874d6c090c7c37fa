use sparrow::count::{count_if, CountToken};
use sparrow::lag::{LagEvaluator, LagToken};
use sparrow::primitive::{aggregate, AggregationKind, PrimitiveAccumToken};
use sparrow::sliding_last::{TwoStacksBooleanAccumToken, TwoStacksLastBooleanEvaluator};

/// The positions of the rows of an entity.
fn rows_of(keys: &[u32], entity: u32) -> Vec<usize> {
    (0..keys.len()).filter(|i| keys[*i] == entity).collect()
}

fn pick<T: Copy>(values: &[T], rows: &[usize]) -> Vec<T> {
    rows.iter().map(|i| values[*i]).collect()
}

#[test]
fn an_aggregate_sees_the_rows_of_its_entity_alone() {
    let keys: Vec<u32> = vec![0, 1, 1, 0, 2, 0, 1];
    let input = vec![Some(4), Some(-1), None, Some(6), Some(8), None, Some(3)];
    let ticks = vec![None, Some(true), None, Some(true), None, None, Some(false)];
    for kind in [AggregationKind::Sum, AggregationKind::Min, AggregationKind::First] {
        let mut token = PrimitiveAccumToken::new();
        let mixed = aggregate(&mut token, kind, 3, &keys, &input, Some(&ticks)).unwrap();
        for entity in 0..3 {
            let rows = rows_of(&keys, entity);
            let mut token = PrimitiveAccumToken::new();
            let alone = aggregate(
                &mut token,
                kind,
                1,
                &vec![0; rows.len()],
                &pick(&input, &rows),
                Some(&pick(&ticks, &rows)),
            )
            .unwrap();
            assert_eq!(pick(&mixed, &rows), alone);
        }
    }
}

#[test]
fn a_count_sees_the_rows_of_its_entity_alone() {
    let keys: Vec<u32> = vec![1, 0, 1, 1, 0];
    let flags = vec![Some(true), Some(true), None, Some(true), Some(false)];
    let ticks = vec![Some(true), None, None, None, Some(true)];
    let mut token = CountToken::new();
    let mixed = count_if(&mut token, 2, &keys, &flags, Some(&ticks)).unwrap();
    assert_eq!(mixed, vec![1, 1, 0, 1, 1]);
    for entity in 0..2 {
        let rows = rows_of(&keys, entity);
        let mut token = CountToken::new();
        let alone = count_if(
            &mut token,
            1,
            &vec![0; rows.len()],
            &pick(&flags, &rows),
            Some(&pick(&ticks, &rows)),
        )
        .unwrap();
        assert_eq!(pick(&mixed, &rows), alone);
    }
}

#[test]
fn lag_and_sliding_see_the_rows_of_their_entity_alone() {
    let keys: Vec<u32> = vec![0, 1, 0, 1, 1, 0, 0];
    let numbers = vec![Some(1), Some(2), None, Some(4), Some(5), Some(6), None];
    let mut token = LagToken::new();
    let mixed = LagEvaluator::lag_batch(&mut token, 2, 2, &keys, &numbers).unwrap();
    let flags = vec![Some(true), None, None, Some(false), None, None, None];
    let ticks = vec![Some(true), Some(true), Some(true), None, Some(true), Some(true), None];
    let mut token = TwoStacksBooleanAccumToken::new();
    let slid =
        TwoStacksLastBooleanEvaluator::aggregate_sliding(&mut token, 2, 2, &keys, &flags, &ticks)
            .unwrap();
    for entity in 0..2 {
        let rows = rows_of(&keys, entity);
        let own_keys = vec![0; rows.len()];
        let mut token = LagToken::new();
        let alone =
            LagEvaluator::lag_batch(&mut token, 2, 1, &own_keys, &pick(&numbers, &rows)).unwrap();
        assert_eq!(pick(&mixed, &rows), alone);
        let mut token = TwoStacksBooleanAccumToken::new();
        let alone = TwoStacksLastBooleanEvaluator::aggregate_sliding(
            &mut token,
            2,
            1,
            &own_keys,
            &pick(&flags, &rows),
            &pick(&ticks, &rows),
        )
        .unwrap();
        assert_eq!(pick(&slid, &rows), alone);
    }
}

#[test]
fn splitting_a_batch_changes_nothing_for_integers() {
    let keys: Vec<u32> = vec![0, 1, 0, 1, 0];
    let input = vec![Some(1), Some(2), Some(3), None, Some(5)];
    let flags = vec![Some(true), Some(true), None, Some(true), Some(true)];
    let ticks = vec![None, Some(true), None, None, Some(true)];
    let mut whole = PrimitiveAccumToken::new();
    let expected =
        aggregate(&mut whole, AggregationKind::Sum, 2, &keys, &input, Some(&ticks)).unwrap();
    let mut whole_counts = CountToken::new();
    let expected_counts = count_if(&mut whole_counts, 2, &keys, &flags, Some(&ticks)).unwrap();
    let mut whole_lag = LagToken::new();
    let expected_lag = LagEvaluator::lag_batch(&mut whole_lag, 1, 2, &keys, &input).unwrap();
    for cut in 0..=keys.len() {
        let mut token = PrimitiveAccumToken::new();
        let mut output = aggregate(
            &mut token,
            AggregationKind::Sum,
            2,
            &keys[..cut].to_vec(),
            &input[..cut].to_vec(),
            Some(&ticks[..cut].to_vec()),
        )
        .unwrap();
        output.extend(
            aggregate(
                &mut token,
                AggregationKind::Sum,
                2,
                &keys[cut..].to_vec(),
                &input[cut..].to_vec(),
                Some(&ticks[cut..].to_vec()),
            )
            .unwrap(),
        );
        assert_eq!(output, expected);
        assert_eq!(token.serialize(), whole.serialize());

        let mut counts = CountToken::new();
        let mut counted = count_if(
            &mut counts,
            2,
            &keys[..cut].to_vec(),
            &flags[..cut].to_vec(),
            Some(&ticks[..cut].to_vec()),
        )
        .unwrap();
        counted.extend(
            count_if(
                &mut counts,
                2,
                &keys[cut..].to_vec(),
                &flags[cut..].to_vec(),
                Some(&ticks[cut..].to_vec()),
            )
            .unwrap(),
        );
        assert_eq!(counted, expected_counts);

        let mut lag = LagToken::new();
        let mut lagged =
            LagEvaluator::lag_batch(&mut lag, 1, 2, &keys[..cut].to_vec(), &input[..cut].to_vec())
                .unwrap();
        lagged.extend(
            LagEvaluator::lag_batch(&mut lag, 1, 2, &keys[cut..].to_vec(), &input[cut..].to_vec())
                .unwrap(),
        );
        assert_eq!(lagged, expected_lag);
        assert_eq!(lag.serialize(), whole_lag.serialize());
    }
}
