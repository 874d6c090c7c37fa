use sparrow::shift_to::{Pending, ShiftToOperator, Shifted};

const RYAN: u64 = 13736678384813893675;
const BEN: u64 = 12688524802574118068;

/// Days of 1996, counted from the first of January.
fn day(month: i64, day_of_month: i64) -> i64 {
    let before = [0, 31, 60, 91, 121, 152, 182, 213, 244, 274, 305, 335];
    before[(month - 1) as usize] + day_of_month
}

#[test]
fn shift_to_orders_by_the_new_time() {
    let mut operator = ShiftToOperator::new();
    assert!(operator.schedule(day(3, 21), BEN, Some(1), Some(day(8, 19))));
    assert!(operator.schedule(day(4, 21), RYAN, Some(2), Some(day(7, 20))));
    assert!(operator.schedule(day(5, 21), RYAN, Some(3), Some(day(7, 22))));
    assert!(operator.schedule(day(6, 21), RYAN, Some(4), Some(day(6, 22))));
    assert!(operator.schedule(day(7, 21), BEN, Some(5), Some(day(7, 22))));
    assert!(operator.schedule(day(8, 21), BEN, Some(6), Some(day(8, 22))));
    let rows = operator.close(None);
    let seen: Vec<(u64, Option<i64>, i64)> =
        rows.iter().map(|row| (row.key_hash, row.value, row.time)).collect();
    assert_eq!(
        seen,
        vec![
            (RYAN, Some(4), day(6, 22)),
            (RYAN, Some(2), day(7, 20)),
            (RYAN, Some(3), day(7, 22)),
            (BEN, Some(5), day(7, 22)),
            (BEN, Some(1), day(8, 19)),
            (BEN, Some(6), day(8, 22)),
        ]
    );
    let subsorts: Vec<u64> = rows.iter().map(|row| row.subsort).collect();
    assert_eq!(subsorts, vec![0, 1, 2, 3, 4, 5]);
    assert_eq!(operator.len(), 0);
}

#[test]
fn rows_shifted_backwards_or_to_null_are_dropped() {
    let mut operator = ShiftToOperator::new();
    assert!(!operator.schedule(day(6, 21), RYAN, Some(4), Some(day(5, 22))));
    assert!(!operator.schedule(day(6, 21), RYAN, Some(4), None));
    assert!(operator.schedule(day(6, 21), RYAN, None, Some(day(6, 21))));
    assert_eq!(operator.len(), 1);
    assert_eq!(
        operator.close(None),
        vec![Shifted { time: day(6, 21), subsort: 0, key_hash: RYAN, value: None }]
    );
}

#[test]
fn release_lets_go_what_is_due_before_the_bound() {
    let mut operator = ShiftToOperator::new();
    operator.schedule(1, 7, Some(10), Some(30));
    operator.schedule(2, 8, Some(20), Some(15));
    operator.schedule(3, 9, Some(30), Some(20));
    operator.schedule(4, 7, Some(40), Some(15));
    let rows = operator.release(20);
    assert_eq!(
        rows,
        vec![
            Shifted { time: 15, subsort: 0, key_hash: 8, value: Some(20) },
            Shifted { time: 15, subsort: 1, key_hash: 7, value: Some(40) },
        ]
    );
    assert_eq!(operator.len(), 2);
    assert_eq!(operator.seen_rows(), 4);
    assert_eq!(operator.released_before(), Some(20));
    // What would be due before the watermark is refused.
    assert!(!operator.schedule(5, 7, Some(50), Some(19)));
    assert!(operator.schedule(5, 7, Some(50), Some(20)));
    assert_eq!(operator.release(10), vec![]);
    let rows = operator.release(31);
    assert_eq!(
        rows,
        vec![
            Shifted { time: 20, subsort: 0, key_hash: 9, value: Some(30) },
            Shifted { time: 20, subsort: 1, key_hash: 7, value: Some(50) },
            Shifted { time: 30, subsort: 2, key_hash: 7, value: Some(10) },
        ]
    );
    assert_eq!(operator.len(), 0);
}

#[test]
fn close_drops_what_is_due_after_the_final_time() {
    let mut operator = ShiftToOperator::new();
    operator.schedule(1, 7, Some(1), Some(9));
    operator.schedule(1, 7, Some(2), Some(10));
    operator.schedule(1, 7, Some(3), Some(11));
    let rows = operator.close(Some(10));
    assert_eq!(
        rows,
        vec![
            Shifted { time: 9, subsort: 0, key_hash: 7, value: Some(1) },
            Shifted { time: 10, subsort: 1, key_hash: 7, value: Some(2) },
        ]
    );
    assert_eq!(operator.len(), 0);
}

#[test]
fn released_rows_are_sorted_and_keep_their_payload() {
    let mut operator = ShiftToOperator::new();
    let times = [50, 20, 40, 20, 10, 50, 30, 20];
    for (i, new_time) in times.iter().enumerate() {
        assert!(operator.schedule(i as i64, i as u64, Some(100 + i as i64), Some(*new_time)));
    }
    let rows = operator.close(None);
    assert_eq!(rows.len(), times.len());
    for pair in rows.windows(2) {
        assert!((pair[0].time, pair[0].subsort) < (pair[1].time, pair[1].subsort));
    }
    for row in &rows {
        let source = row.key_hash as usize;
        assert_eq!(row.time, times[source]);
        assert_eq!(row.value, Some(100 + source as i64));
    }
    let pending = Pending { new_time: 1, source_id: 0, key_hash: 2, value: None };
    assert_eq!(pending, pending.clone());
}
