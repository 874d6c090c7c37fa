use sparrow::error::EvalError;
use sparrow::shift_until::{Released, ShiftUntilOperator};

const A: u32 = 0;
const B: u32 = 1;

fn fixture() -> (Vec<u32>, Vec<i64>, Vec<Option<i64>>, Vec<Option<bool>>) {
    (
        vec![A, B, A, B, A, A],
        vec![57, 58, 59, 60, 61, 62],
        vec![Some(57), Some(58), Some(59), None, None, Some(2)],
        vec![Some(true), Some(false), None, Some(true), Some(false), Some(true)],
    )
}

#[test]
fn rows_wait_for_the_next_true_condition_of_their_entity() {
    let (keys, times, values, cond) = fixture();
    let mut operator = ShiftUntilOperator::new();
    let rows = operator.shift_until(2, &keys, &times, &values, &cond).unwrap();
    assert_eq!(
        rows,
        vec![
            Released { time: 57, subsort: 0, entity: A, value: Some(57) },
            Released { time: 60, subsort: 1, entity: B, value: Some(58) },
            Released { time: 60, subsort: 2, entity: B, value: None },
            Released { time: 62, subsort: 3, entity: A, value: Some(59) },
            Released { time: 62, subsort: 4, entity: A, value: None },
            Released { time: 62, subsort: 5, entity: A, value: Some(2) },
        ]
    );
}

#[test]
fn rows_whose_condition_never_comes_true_are_not_emitted() {
    let mut operator = ShiftUntilOperator::new();
    let rows = operator
        .shift_until(
            2,
            &vec![A, B, A],
            &vec![1, 2, 3],
            &vec![Some(1), Some(2), Some(3)],
            &vec![Some(false), None, Some(false)],
        )
        .unwrap();
    assert_eq!(rows, vec![]);
    // They still wait when the next batch comes.
    let rows = operator
        .shift_until(2, &vec![A], &vec![4], &vec![None], &vec![Some(true)])
        .unwrap();
    assert_eq!(
        rows,
        vec![
            Released { time: 4, subsort: 0, entity: A, value: Some(1) },
            Released { time: 4, subsort: 1, entity: A, value: Some(3) },
            Released { time: 4, subsort: 2, entity: A, value: None },
        ]
    );
    assert_eq!(operator.len(), 2);
}

#[test]
fn shift_until_emits_in_time_order() {
    let (keys, times, values, cond) = fixture();
    let mut operator = ShiftUntilOperator::new();
    let rows = operator.shift_until(2, &keys, &times, &values, &cond).unwrap();
    for pair in rows.windows(2) {
        assert!(pair[0].time <= pair[1].time);
        assert!(pair[0].subsort < pair[1].subsort);
    }
}

#[test]
fn shift_until_stops_at_an_entity_without_an_entry() {
    let mut operator = ShiftUntilOperator::new();
    let result = operator.shift_until(
        1,
        &vec![A, B],
        &vec![1, 2],
        &vec![Some(1), Some(2)],
        &vec![None, Some(true)],
    );
    assert_eq!(result, Err(EvalError::EntityOutOfRange));
    assert_eq!(operator.observe(A, Some(9), Some(true)), Ok(vec![Some(1), Some(9)]));
    assert_eq!(operator.observe(A, Some(9), None), Ok(vec![]));
    assert_eq!(operator.observe(B, None, None), Err(EvalError::EntityOutOfRange));
    operator.resize(2);
    assert_eq!(operator.observe(B, None, Some(true)), Ok(vec![None]));
}
