use sparrow::functions::register;
use sparrow::registry::{Function, Implementation, Registry, TimeDomainCheck};

const IS_NEW: &str = "(logical_or ?window_is_new ?input_is_new)";

fn pattern_of(function: &Function) -> &str {
    match function.implementation() {
        Some(Implementation::Pattern(pattern)) => pattern.as_str(),
        other => panic!("expected a pattern, got {:?}", other),
    }
}

fn registered() -> Registry {
    let mut registry = Registry::new();
    register(&mut registry);
    registry
}

#[test]
fn ten_aggregations_are_registered_in_order() {
    let registry = registered();
    assert_eq!(registry.len(), 10);
    let names = [
        "count_if", "count", "sum", "min", "max", "mean", "variance", "stddev", "last", "first",
    ];
    for (i, name) in names.iter().enumerate() {
        let function = registry.get(i).unwrap();
        assert!(function.signature().starts_with(&format!("{}(", name)));
        assert_eq!(function.time_domain_check(), TimeDomainCheck::Aggregation);
    }
    assert!(registry.get(10).is_none());
}

#[test]
fn register_adds_behind_what_is_there() {
    let mut registry = Registry::new();
    registry.register(Function::new("zip_min(a: number, b: number) -> number"));
    register(&mut registry);
    assert_eq!(registry.len(), 11);
    let first = registry.get(0).unwrap();
    assert_eq!(first.signature(), "zip_min(a: number, b: number) -> number");
    assert_eq!(first.dfg_signature(), None);
    assert!(first.implementation().is_none());
    assert!(first.is_new().is_none());
    assert_eq!(first.time_domain_check(), TimeDomainCheck::Compatible);
    assert_eq!(
        registry.get(1).unwrap().signature(),
        "count_if(input: any, window: window = null) -> u32"
    );
}

#[test]
fn count_if_is_a_pattern() {
    let registry = registered();
    let function = registry.get(0).unwrap();
    assert_eq!(
        function.signature(),
        "count_if(input: any, window: window = null) -> u32"
    );
    assert_eq!(
        function.dfg_signature(),
        Some("count_if(input: any, window: window = null, duration: i64 = null) -> u32")
    );
    assert_eq!(
        pattern_of(function),
        "(count_if (transform (if ?input_is_new ?input_value) (merge_join ?input_op ?window_op)) (?window_value) (?duration_value))"
    );
    assert_eq!(
        function.is_new(),
        Some(&Implementation::Pattern(IS_NEW.to_owned()))
    );
}

#[test]
fn count_counts_valid_inputs() {
    let registry = registered();
    let function = registry.get(1).unwrap();
    assert_eq!(function.signature(), "count(input: any, window: window = null) -> u32");
    assert_eq!(
        function.dfg_signature(),
        Some("count_if(input: any, window: window = null, duration: i64 = null) -> u32")
    );
    assert_eq!(
        pattern_of(function),
        "(count_if (transform (is_valid (if ?input_is_new ?input_value)) (merge_join ?input_op ?window_op)) (?window_value) (?duration_value))"
    );
}

#[test]
fn numeric_aggregations_are_patterns_on_the_new_input() {
    let registry = registered();
    let expected = [
        (2, "sum", "number", "number"),
        (3, "min", "ordered", "ordered"),
        (4, "max", "ordered", "ordered"),
        (5, "mean", "number", "f64"),
        (6, "variance", "number", "f64"),
    ];
    for (index, name, input, output) in expected {
        let function = registry.get(index).unwrap();
        assert_eq!(
            function.signature(),
            format!("{name}(input: {input}, window: window = null) -> {output}")
        );
        assert_eq!(
            function.dfg_signature().unwrap(),
            format!("{name}(input: {input}, window: window = null, duration: i64 = null) -> {output}")
        );
        assert_eq!(
            pattern_of(function),
            format!("({name} (transform (if ?input_is_new ?input_value) (merge_join ?input_op ?window_op)) (?window_value) (?duration_value))")
        );
        assert_eq!(
            function.is_new(),
            Some(&Implementation::Pattern(IS_NEW.to_owned()))
        );
    }
}

#[test]
fn stddev_is_the_root_of_the_variance() {
    let registry = registered();
    let function = registry.get(7).unwrap();
    assert_eq!(
        function.signature(),
        "stddev(input: number, window: window = null) -> f64"
    );
    assert_eq!(
        pattern_of(function),
        "(powf (variance (transform (if ?input_is_new ?input_value) (merge_join ?input_op ?window_op)) (?window_value) (?duration_value)) 0.5f64)"
    );
    assert!(function.is_new().is_none());
}

#[test]
fn last_is_pushed_down_through_records() {
    let registry = registered();
    let function = registry.get(8).unwrap();
    assert_eq!(function.signature(), "last(input: any, window: window = null) -> any");
    assert_eq!(
        function.dfg_signature(),
        Some("last(input: any, window: window = null, duration: i64 = null) -> any")
    );
    match function.implementation() {
        Some(Implementation::Pushdown(pushdown)) => {
            assert_eq!(pushdown.pushdown_on, 0);
            assert_eq!(
                pushdown.primitive_pattern,
                "(last (transform (if ?is_new ?input_value) (merge_join ?op ?window_op)) (?window_value) (?duration_value))"
            );
            assert_eq!(
                pushdown.record_field_pattern,
                "(if (last (transform (if (logical_and ?is_new (is_valid ?input_record)) (is_valid ?input_field)) (merge_join ?op ?window_op)) (?window_value) (?duration_value)) ?recurse_on_input_field)"
            );
            assert_eq!(
                pushdown.record_result_pattern,
                "(if (gt (count_if (transform (logical_and ?is_new (is_valid ?input_record)) (merge_join ?op ?window_op)) (?window_value) (?duration_value)) 0u32) ?result_record)"
            );
        }
        other => panic!("expected a pushdown, got {:?}", other),
    }
    assert_eq!(
        function.is_new(),
        Some(&Implementation::Pattern(IS_NEW.to_owned()))
    );
}

#[test]
fn first_is_pushed_down_through_records() {
    let registry = registered();
    let function = registry.get(9).unwrap();
    assert_eq!(function.signature(), "first(input: any, window: window = null) -> any");
    match function.implementation() {
        Some(Implementation::Pushdown(pushdown)) => {
            assert_eq!(pushdown.pushdown_on, 0);
            assert_eq!(
                pushdown.primitive_pattern,
                "(first(transform (if ?is_new ?input_value) (merge_join ?op ?window_op)) (?window_value) (?duration_value))"
            );
            assert_eq!(
                pushdown.record_field_pattern,
                "(if (first (transform (if (logical_and ?is_new (is_valid ?input_record)) (is_valid ?input_field)) (merge_join ?op ?window_op)) (?window_value) (?duration_value)) ?recurse_on_input_field)"
            );
            assert_eq!(
                pushdown.record_result_pattern,
                "(if (gt (count_if (transform (logical_and ?is_new (is_valid ?input_record)) (merge_join ?op ?window_op)) (?window_value) (?duration_value)) 0u32) ?result_record)"
            );
        }
        other => panic!("expected a pushdown, got {:?}", other),
    }
}
