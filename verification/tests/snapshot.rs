use sparrow::codec::{decode_lists, decode_words, encode_lists, encode_words};
use sparrow::count::{count_if, CountToken};
use sparrow::error::EvalError;
use sparrow::lag::{LagEvaluator, LagToken};
use sparrow::primitive::{aggregate, AggregationKind, PrimitiveAccumToken};
use sparrow::shift_to::{ShiftToOperator, Shifted};
use sparrow::shift_until::ShiftUntilOperator;
use sparrow::sliding_last::{SlidingWindow, TwoStacksBooleanAccumToken, TwoStacksLastBooleanEvaluator};
use sparrow::token::{Snapshot, TokenKind, SNAPSHOT_VERSION};
use sparrow::two_stacks::TwoStacks;

#[test]
fn words_are_stored_least_significant_byte_first() {
    assert_eq!(
        encode_words(&vec![1, 0x0102030405060708]),
        vec![1, 0, 0, 0, 0, 0, 0, 0, 8, 7, 6, 5, 4, 3, 2, 1]
    );
    assert_eq!(
        decode_words(&vec![1, 0, 0, 0, 0, 0, 0, 0, 8, 7, 6, 5, 4, 3, 2, 1]),
        Some(vec![1, 0x0102030405060708])
    );
    assert_eq!(decode_words(&vec![]), Some(vec![]));
    assert_eq!(decode_words(&vec![1, 2, 3]), None);
}

#[test]
fn lists_are_stored_behind_their_lengths() {
    let lists = vec![vec![7, 8], vec![], vec![9]];
    assert_eq!(encode_lists(&lists), vec![2, 7, 8, 0, 1, 9]);
    assert_eq!(decode_lists(&vec![2, 7, 8, 0, 1, 9]), Some(lists));
    assert_eq!(decode_lists(&vec![]), Some(vec![]));
    assert_eq!(decode_lists(&vec![2, 7]), None);
    assert_eq!(decode_lists(&vec![0, 1]), None);
}

#[test]
fn a_stored_count_token_counts_on() {
    let mut token = CountToken::new();
    count_if(&mut token, 2, &vec![0, 1, 1], &vec![Some(true), Some(true), Some(true)], None)
        .unwrap();
    let bytes = token.serialize();
    assert_eq!(bytes.len(), 16);
    let mut restored = CountToken::deserialize(&bytes).unwrap();
    assert_eq!(restored.len(), 2);
    assert_eq!(
        count_if(&mut restored, 2, &vec![0, 1], &vec![Some(true), None], None),
        count_if(&mut token, 2, &vec![0, 1], &vec![Some(true), None], None)
    );
    assert!(matches!(
        CountToken::deserialize(&vec![0, 0, 0, 0, 1, 0, 0, 0]),
        Err(EvalError::CorruptSnapshot)
    ));
    assert!(matches!(
        CountToken::deserialize(&vec![1, 2, 3]),
        Err(EvalError::CorruptSnapshot)
    ));
}

#[test]
fn a_stored_primitive_token_reads_as_before() {
    let mut token = PrimitiveAccumToken::new();
    aggregate(
        &mut token,
        AggregationKind::Min,
        3,
        &vec![0, 2],
        &vec![Some(-5), Some(i64::MAX)],
        None,
    )
    .unwrap();
    let bytes = token.serialize();
    assert_eq!(bytes.len(), 48);
    let restored = PrimitiveAccumToken::deserialize(&bytes).unwrap();
    assert_eq!(restored.len(), 3);
    assert_eq!(restored.get(0), Ok(Some(-5)));
    assert_eq!(restored.get(1), Ok(None));
    assert_eq!(restored.get(2), Ok(Some(i64::MAX)));
    let mut odd = encode_words(&vec![1, 4, 0]);
    assert!(matches!(
        PrimitiveAccumToken::deserialize(&odd),
        Err(EvalError::CorruptSnapshot)
    ));
    odd = encode_words(&vec![2, 4]);
    assert!(matches!(
        PrimitiveAccumToken::deserialize(&odd),
        Err(EvalError::CorruptSnapshot)
    ));
    assert!(matches!(
        PrimitiveAccumToken::deserialize(&vec![0; 9]),
        Err(EvalError::CorruptSnapshot)
    ));
}

#[test]
fn a_stored_lag_token_reads_back_as_before() {
    let mut token = LagToken::new();
    LagEvaluator::lag_batch(
        &mut token,
        2,
        2,
        &vec![0, 0, 1, 0],
        &vec![Some(1), Some(-2), Some(3), Some(4)],
    )
    .unwrap();
    let bytes = token.serialize();
    let mut restored = LagToken::deserialize(&bytes, 2).unwrap();
    assert_eq!(restored.len(), 2);
    assert_eq!(restored.observe(2, 0, None), Ok(Some(-2)));
    assert_eq!(restored.observe(2, 1, Some(5)), Ok(None));
    assert_eq!(restored.observe(2, 1, None), Ok(Some(3)));
    // The buffers hold two values each: too many for a lag of one.
    assert!(matches!(
        LagToken::deserialize(&bytes, 1),
        Err(EvalError::CorruptSnapshot)
    ));
    assert!(matches!(
        LagToken::deserialize(&encode_words(&vec![3, 1]), 4),
        Err(EvalError::CorruptSnapshot)
    ));
    assert!(matches!(
        LagToken::deserialize(&vec![7], 4),
        Err(EvalError::CorruptSnapshot)
    ));
}

#[test]
fn a_stored_sliding_token_slides_on() {
    let keys: Vec<u32> = vec![0, 1, 0, 0];
    let input = vec![Some(true), Some(false), None, None];
    let ticks = vec![Some(true), None, Some(true), None];
    let mut token = TwoStacksBooleanAccumToken::new();
    TwoStacksLastBooleanEvaluator::aggregate_sliding(&mut token, 3, 2, &keys, &input, &ticks)
        .unwrap();
    let bytes = token.serialize();
    let mut restored = TwoStacksBooleanAccumToken::deserialize(&bytes, 3).unwrap();
    assert_eq!(restored.len(), 2);
    let more_keys: Vec<u32> = vec![0, 0, 1, 0];
    let more_input = vec![None, None, None, None];
    let more_ticks = vec![Some(true), Some(true), Some(true), None];
    assert_eq!(
        TwoStacksLastBooleanEvaluator::aggregate_sliding(
            &mut restored,
            3,
            2,
            &more_keys,
            &more_input,
            &more_ticks
        ),
        TwoStacksLastBooleanEvaluator::aggregate_sliding(
            &mut token,
            3,
            2,
            &more_keys,
            &more_input,
            &more_ticks
        )
    );
    // Entity 0 has three slots: too many for a window of two.
    assert!(matches!(
        TwoStacksBooleanAccumToken::deserialize(&bytes, 2),
        Err(EvalError::CorruptSnapshot)
    ));
    assert!(matches!(
        TwoStacksBooleanAccumToken::deserialize(&encode_words(&vec![1, 3]), 2),
        Err(EvalError::CorruptSnapshot)
    ));
    assert!(matches!(
        TwoStacksBooleanAccumToken::deserialize(&encode_words(&vec![0]), 2),
        Err(EvalError::CorruptSnapshot)
    ));
}

#[test]
fn windows_and_queues_show_their_slots() {
    let mut queue = TwoStacks::new();
    queue.push(Some(true));
    queue.push(None);
    queue.pop();
    queue.push(Some(false));
    assert_eq!(queue.parts(), vec![None, Some(false)]);
    let window = SlidingWindow::from_slots(&vec![Some(true), None, Some(false)], 3);
    assert_eq!(window.slots(), vec![Some(true), None, Some(false)]);
    let mut window = window;
    assert_eq!(window.observe(3, None, Some(true)), Some(false));
    assert_eq!(window.slots(), vec![None, Some(false), None]);
}

#[test]
fn a_snapshot_hands_its_payload_to_the_right_kind() {
    let snapshot = Snapshot::new(3, TokenKind::Count, vec![1, 0, 0, 0, 0, 0, 0, 0]);
    assert_eq!(snapshot.version, SNAPSHOT_VERSION);
    assert_eq!(snapshot.operator_id, 3);
    assert_eq!(
        snapshot.payload_of(TokenKind::Count),
        Ok(&vec![1, 0, 0, 0, 0, 0, 0, 0])
    );
    assert_eq!(
        snapshot.payload_of(TokenKind::PrimitiveAccum),
        Err(EvalError::SnapshotKindMismatch)
    );
    let old = Snapshot {
        operator_id: 3,
        token_kind: TokenKind::Lag,
        version: SNAPSHOT_VERSION + 1,
        payload: vec![],
    };
    assert_eq!(
        old.payload_of(TokenKind::Lag),
        Err(EvalError::SnapshotVersionMismatch)
    );
    assert_eq!(
        old.payload_of(TokenKind::Count),
        Err(EvalError::SnapshotKindMismatch)
    );
}

#[test]
fn a_stored_shift_to_operator_releases_as_before() {
    let mut operator = ShiftToOperator::new();
    operator.schedule(1, 7, Some(10), Some(30));
    operator.schedule(2, 8, None, Some(15));
    operator.schedule(3, 9, Some(-30), Some(20));
    operator.release(16);
    let bytes = operator.serialize();
    let mut restored = ShiftToOperator::deserialize(&bytes).unwrap();
    assert_eq!(restored.len(), 2);
    assert!(!restored.schedule(4, 7, Some(1), Some(15)));
    assert!(restored.schedule(4, 7, Some(1), Some(20)));
    assert_eq!(
        restored.close(None),
        vec![
            Shifted { time: 20, subsort: 0, key_hash: 9, value: Some(-30) },
            Shifted { time: 20, subsort: 1, key_hash: 7, value: Some(1) },
            Shifted { time: 30, subsort: 2, key_hash: 7, value: Some(10) },
        ]
    );
    let empty = ShiftToOperator::new().serialize();
    assert_eq!(ShiftToOperator::deserialize(&empty).unwrap().len(), 0);
}

#[test]
fn a_stored_shift_to_operator_has_to_be_in_order() {
    let header = vec![2, 0, 0];
    let early = vec![5, 0, 1, 1, 50];
    let late = vec![9, 1, 1, 0, 0];
    let stored = |lists: Vec<Vec<u64>>| encode_words(&encode_lists(&lists));
    assert!(ShiftToOperator::deserialize(&stored(vec![header.clone(), early.clone(), late.clone()]))
        .is_ok());
    // Out of order.
    assert!(matches!(
        ShiftToOperator::deserialize(&stored(vec![header.clone(), late.clone(), early.clone()])),
        Err(EvalError::CorruptSnapshot)
    ));
    // More rows than were seen.
    assert!(matches!(
        ShiftToOperator::deserialize(&stored(vec![vec![1, 0, 0], early.clone(), late.clone()])),
        Err(EvalError::CorruptSnapshot)
    ));
    // Due before the watermark.
    assert!(matches!(
        ShiftToOperator::deserialize(&stored(vec![vec![2, 1, 6], early.clone(), late.clone()])),
        Err(EvalError::CorruptSnapshot)
    ));
    // Not the shape of a row, of a header, or of anything.
    assert!(matches!(
        ShiftToOperator::deserialize(&stored(vec![header.clone(), vec![5, 0, 1, 2, 50]])),
        Err(EvalError::CorruptSnapshot)
    ));
    assert!(matches!(
        ShiftToOperator::deserialize(&stored(vec![header.clone(), vec![5, 0, 1]])),
        Err(EvalError::CorruptSnapshot)
    ));
    assert!(matches!(
        ShiftToOperator::deserialize(&stored(vec![vec![2, 0]])),
        Err(EvalError::CorruptSnapshot)
    ));
    assert!(matches!(
        ShiftToOperator::deserialize(&stored(vec![])),
        Err(EvalError::CorruptSnapshot)
    ));
    assert!(matches!(
        ShiftToOperator::deserialize(&vec![1, 2]),
        Err(EvalError::CorruptSnapshot)
    ));
}

#[test]
fn a_stored_shift_until_operator_lets_go_as_before() {
    let mut operator = ShiftUntilOperator::new();
    operator
        .shift_until(
            2,
            &vec![0, 1, 0],
            &vec![1, 2, 3],
            &vec![Some(1), None, Some(-3)],
            &vec![None, None, None],
        )
        .unwrap();
    let bytes = operator.serialize();
    let mut restored = ShiftUntilOperator::deserialize(&bytes).unwrap();
    assert_eq!(restored.len(), 2);
    assert_eq!(
        restored.observe(0, Some(9), Some(true)),
        Ok(vec![Some(1), Some(-3), Some(9)])
    );
    assert_eq!(restored.observe(1, None, Some(true)), Ok(vec![None, None]));
    assert!(matches!(
        ShiftUntilOperator::deserialize(&encode_words(&vec![1, 0])),
        Err(EvalError::CorruptSnapshot)
    ));
    assert!(matches!(
        ShiftUntilOperator::deserialize(&encode_words(&vec![2, 3, 0])),
        Err(EvalError::CorruptSnapshot)
    ));
}
