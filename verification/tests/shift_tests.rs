use sparrow::shift_to::{ShiftToOperator, Shifted};
use sparrow::shift_until::{Released, ShiftUntilOperator};

const A: u64 = 3650215962958587783;
const B: u64 = 11753611437813598533;

/// Nanoseconds since the epoch of a time of day in UTC.
fn utc(year: i64, month: i64, day: i64, hour: i64, minute: i64, second: i64) -> i64 {
    let y = if month <= 2 { year - 1 } else { year };
    let era = y.div_euclid(400);
    let year_of_era = y - era * 400;
    let shifted_month = if month > 2 { month - 3 } else { month + 9 };
    let day_of_year = (153 * shifted_month + 2) / 5 + day - 1;
    let day_of_era = year_of_era * 365 + year_of_era / 4 - year_of_era / 100 + day_of_year;
    let days = era * 146097 + day_of_era - 719468;
    (days * 86400 + hour * 3600 + minute * 60 + second) * 1_000_000_000
}

/// The rows of the fixture: time, key, cond, i64 and other_time.
fn shift_data_fixture() -> Vec<(i64, u64, Option<bool>, Option<i64>, Option<i64>)> {
    vec![
        (utc(1996, 12, 20, 0, 39, 57), A, Some(true), Some(57), Some(utc(1997, 12, 20, 0, 39, 57))),
        (utc(1996, 12, 20, 0, 39, 58), B, Some(false), Some(58), Some(utc(1997, 10, 20, 0, 39, 57))),
        (utc(1996, 12, 20, 0, 39, 59), A, None, Some(59), Some(utc(1995, 12, 20, 0, 39, 57))),
        (utc(1996, 12, 20, 0, 40, 0), B, Some(true), None, Some(utc(2000, 12, 20, 0, 39, 57))),
        (utc(1996, 12, 20, 0, 40, 1), A, Some(false), None, None),
        (utc(1996, 12, 20, 0, 40, 2), A, Some(true), Some(2), Some(utc(1999, 1, 20, 0, 39, 57))),
    ]
}

#[test]
fn the_epoch_is_counted_from_1970() {
    assert_eq!(utc(1970, 1, 1, 0, 0, 0), 0);
    assert_eq!(utc(1996, 12, 20, 0, 39, 57), 851_042_397_000_000_000);
}

#[test]
fn test_shift_until_data_i64() {
    let rows = shift_data_fixture();
    let keys: Vec<u32> = rows.iter().map(|row| if row.1 == A { 0 } else { 1 }).collect();
    let times: Vec<i64> = rows.iter().map(|row| row.0).collect();
    let values: Vec<Option<i64>> = rows.iter().map(|row| row.3).collect();
    let cond: Vec<Option<bool>> = rows.iter().map(|row| row.2).collect();
    let mut operator = ShiftUntilOperator::new();
    let emitted = operator.shift_until(2, &keys, &times, &values, &cond).unwrap();
    assert_eq!(
        emitted,
        vec![
            Released { time: utc(1996, 12, 20, 0, 39, 57), subsort: 0, entity: 0, value: Some(57) },
            Released { time: utc(1996, 12, 20, 0, 40, 0), subsort: 1, entity: 1, value: Some(58) },
            Released { time: utc(1996, 12, 20, 0, 40, 0), subsort: 2, entity: 1, value: None },
            Released { time: utc(1996, 12, 20, 0, 40, 2), subsort: 3, entity: 0, value: Some(59) },
            Released { time: utc(1996, 12, 20, 0, 40, 2), subsort: 4, entity: 0, value: None },
            Released { time: utc(1996, 12, 20, 0, 40, 2), subsort: 5, entity: 0, value: Some(2) },
        ]
    );
}

#[test]
fn test_shift_to_data_i64() {
    let mut operator = ShiftToOperator::new();
    for (time, key_hash, _, value, other_time) in shift_data_fixture() {
        operator.schedule(time, key_hash, value, other_time);
    }
    assert_eq!(
        operator.close(None),
        vec![
            Shifted { time: utc(1997, 10, 20, 0, 39, 57), subsort: 0, key_hash: B, value: Some(58) },
            Shifted { time: utc(1997, 12, 20, 0, 39, 57), subsort: 1, key_hash: A, value: Some(57) },
            Shifted { time: utc(1999, 1, 20, 0, 39, 57), subsort: 2, key_hash: A, value: Some(2) },
            Shifted { time: utc(2000, 12, 20, 0, 39, 57), subsort: 3, key_hash: B, value: None },
        ]
    );
}
