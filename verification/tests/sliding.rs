use sparrow::error::EvalError;
use sparrow::last_boolean::LastBooleanEvaluator;
use sparrow::sliding_last::{
    SlidingWindow, TwoStacksBooleanAccumToken, TwoStacksLastBooleanEvaluator,
};
use sparrow::token::BooleanAccumToken;
use sparrow::two_stacks::TwoStacks;

fn naive(parts: &[Option<bool>]) -> Option<bool> {
    parts.iter().rev().find(|part| part.is_some()).copied().flatten()
}

#[test]
fn two_stacks_answer_as_the_naive_recomputation() {
    let script: Vec<Option<Option<bool>>> = vec![
        Some(Some(true)),
        Some(None),
        Some(Some(false)),
        None,
        Some(None),
        None,
        None,
        Some(Some(true)),
        Some(None),
        Some(None),
        None,
        None,
        None,
        None,
    ];
    let mut queue = TwoStacks::new();
    let mut model: Vec<Option<bool>> = vec![];
    assert_eq!(queue.query(), None);
    for step in script {
        match step {
            Some(part) => {
                queue.push(part);
                model.push(part);
            }
            None => {
                let oldest = model.remove(0);
                assert_eq!(queue.pop(), oldest);
            }
        }
        assert_eq!(queue.len(), model.len());
        assert_eq!(queue.query(), naive(&model));
    }
    assert_eq!(queue.len(), 0);
}

#[test]
fn the_oldest_slot_leaves_when_the_window_is_full() {
    let mut window = SlidingWindow::new();
    // Slots: [T] -> [T, -] -> [-, -] once the slot with the value has left.
    assert_eq!(window.observe(2, Some(true), Some(true)), Some(true));
    assert_eq!(window.observe(2, None, Some(true)), Some(true));
    assert_eq!(window.observe(2, None, Some(true)), None);
    assert_eq!(window.observe(2, Some(false), None), Some(false));
    assert_eq!(window.observe(2, None, Some(false)), Some(false));
}

#[test]
fn sliding_over_three_slots() {
    let keys: Vec<u32> = vec![0, 0, 0, 0, 0, 0, 0];
    let input = vec![Some(true), None, Some(false), None, None, None, None];
    let ticks = vec![Some(true), Some(true), Some(true), Some(true), Some(true), Some(true), None];
    let mut token = TwoStacksBooleanAccumToken::new();
    let output =
        TwoStacksLastBooleanEvaluator::aggregate_sliding(&mut token, 3, 1, &keys, &input, &ticks)
            .unwrap();
    assert_eq!(
        output,
        vec![Some(true), Some(true), Some(false), Some(false), Some(false), None, None]
    );
}

#[test]
fn sliding_keeps_entities_apart() {
    let keys: Vec<u32> = vec![0, 1, 0, 1, 0, 1];
    let input = vec![Some(true), Some(false), None, None, None, None];
    let ticks = vec![Some(true), None, Some(true), Some(true), None, Some(true)];
    let mut token = TwoStacksBooleanAccumToken::new();
    let output =
        TwoStacksLastBooleanEvaluator::aggregate_sliding(&mut token, 2, 2, &keys, &input, &ticks)
            .unwrap();
    assert_eq!(
        output,
        vec![Some(true), Some(false), Some(true), Some(false), None, Some(false)]
    );
    assert_eq!(token.len(), 2);
}

#[test]
fn a_window_of_one_slot_is_a_since_window() {
    let keys: Vec<u32> = vec![0, 1, 0, 0, 1, 1, 0, 0];
    let input = vec![Some(true), None, None, None, Some(false), None, Some(false), None];
    let ticks = vec![None, Some(true), Some(true), None, Some(false), Some(true), None, None];
    let mut sliding = TwoStacksBooleanAccumToken::new();
    let slid = TwoStacksLastBooleanEvaluator::aggregate_sliding(
        &mut sliding,
        1,
        2,
        &keys,
        &input,
        &ticks,
    )
    .unwrap();
    let mut since = BooleanAccumToken::default();
    let expected =
        LastBooleanEvaluator::aggregate_since(&mut since, 2, &keys, &input, &ticks).unwrap();
    assert_eq!(slid, expected);
}

#[test]
fn sliding_stops_at_an_entity_without_an_entry() {
    let mut token = TwoStacksBooleanAccumToken::new();
    let result = TwoStacksLastBooleanEvaluator::aggregate_sliding(
        &mut token,
        2,
        1,
        &vec![0, 1],
        &vec![Some(true), None],
        &vec![None, None],
    );
    assert_eq!(result, Err(EvalError::EntityOutOfRange));
    assert_eq!(token.observe(2, 0, None, None), Ok(Some(true)));
    assert_eq!(token.observe(2, 1, None, None), Err(EvalError::EntityOutOfRange));
    token.resize(2, 2);
    assert_eq!(token.observe(2, 1, None, None), Ok(None));
}
