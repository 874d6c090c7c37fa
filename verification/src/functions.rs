use vstd::prelude::*;

use crate::registry::{
    Function, FunctionView, Implementation, ImplementationView, Pushdown, Registry,
    TimeDomainCheck,
};

verus! {

/// The pattern that says when the result of an aggregation is new: when the
/// window or the input is.
pub open spec fn aggregation_is_new() -> Seq<char> {
    "(logical_or ?window_is_new ?input_is_new)"@
}

/// The call that `head` opens, on `input` within the window and its duration.
pub open spec fn windowed_call(head: Seq<char>, input: Seq<char>) -> Seq<char> {
    head + "("@ + input + ") (?window_value) (?duration_value))"@
}

/// The input of an aggregation over values: the value where it is new,
/// merged with the window.
pub open spec fn new_input() -> Seq<char> {
    "transform (if ?input_is_new ?input_value) (merge_join ?input_op ?window_op)"@
}

/// The input of `count`: whether a new value is valid.
pub open spec fn new_valid_input() -> Seq<char> {
    "transform (is_valid (if ?input_is_new ?input_value)) (merge_join ?input_op ?window_op)"@
}

/// The input of a pushed-down aggregation where its argument is no record.
pub open spec fn new_primitive() -> Seq<char> {
    "transform (if ?is_new ?input_value) (merge_join ?op ?window_op)"@
}

/// For one field of a record: whether a new, valid record holds a valid
/// field.
pub open spec fn new_valid_field() -> Seq<char> {
    "transform (if (logical_and ?is_new (is_valid ?input_record)) (is_valid ?input_field)) (merge_join ?op ?window_op)"@
}

/// For a record: whether it is new and valid.
pub open spec fn new_valid_record() -> Seq<char> {
    "transform (logical_and ?is_new (is_valid ?input_record)) (merge_join ?op ?window_op)"@
}

/// The guard on the result for a record: the record is null unless a new valid
/// record was counted within the window.
pub open spec fn record_guard() -> Seq<char> {
    "(if (gt "@ + windowed_call("(count_if "@, new_valid_record()) + " 0u32) ?result_record)"@
}

/// The pattern for one field of a record: the field is aggregated only where
/// the aggregation, by `head`, of its validity holds.
pub open spec fn field_guard(head: Seq<char>) -> Seq<char> {
    "(if "@ + windowed_call(head, new_valid_field()) + " ?recurse_on_input_field)"@
}

/// An aggregation implemented by a pattern.
pub open spec fn pattern_function(
    signature: Seq<char>,
    dfg_signature: Seq<char>,
    pattern: Seq<char>,
    is_new: Option<ImplementationView>,
) -> FunctionView {
    FunctionView {
        signature,
        dfg_signature: Some(dfg_signature),
        implementation: Some(ImplementationView::Pattern(pattern)),
        is_new,
        time_domain_check: TimeDomainCheck::Aggregation,
    }
}

/// An aggregation pushed down through records: `head` opens its call on a
/// value, `field_head` the one that guards a field.
pub open spec fn pushdown_function(
    signature: Seq<char>,
    dfg_signature: Seq<char>,
    head: Seq<char>,
    field_head: Seq<char>,
) -> FunctionView {
    FunctionView {
        signature,
        dfg_signature: Some(dfg_signature),
        implementation: Some(
            ImplementationView::Pushdown {
                pushdown_on: 0,
                primitive_pattern: windowed_call(head, new_primitive()),
                record_field_pattern: field_guard(field_head),
                record_result_pattern: record_guard(),
            },
        ),
        is_new: Some(ImplementationView::Pattern(aggregation_is_new())),
        time_domain_check: TimeDomainCheck::Aggregation,
    }
}

/// The aggregations of the language, in the order in which they are
/// registered.
pub open spec fn aggregation_functions() -> Seq<FunctionView> {
    let is_new = Some(ImplementationView::Pattern(aggregation_is_new()));
    seq![
        pattern_function(
            "count_if(input: any, window: window = null) -> u32"@,
            "count_if(input: any, window: window = null, duration: i64 = null) -> u32"@,
            windowed_call("(count_if "@, new_input()),
            is_new,
        ),
        pattern_function(
            "count(input: any, window: window = null) -> u32"@,
            "count_if(input: any, window: window = null, duration: i64 = null) -> u32"@,
            windowed_call("(count_if "@, new_valid_input()),
            is_new,
        ),
        pattern_function(
            "sum(input: number, window: window = null) -> number"@,
            "sum(input: number, window: window = null, duration: i64 = null) -> number"@,
            windowed_call("(sum "@, new_input()),
            is_new,
        ),
        pattern_function(
            "min(input: ordered, window: window = null) -> ordered"@,
            "min(input: ordered, window: window = null, duration: i64 = null) -> ordered"@,
            windowed_call("(min "@, new_input()),
            is_new,
        ),
        pattern_function(
            "max(input: ordered, window: window = null) -> ordered"@,
            "max(input: ordered, window: window = null, duration: i64 = null) -> ordered"@,
            windowed_call("(max "@, new_input()),
            is_new,
        ),
        pattern_function(
            "mean(input: number, window: window = null) -> f64"@,
            "mean(input: number, window: window = null, duration: i64 = null) -> f64"@,
            windowed_call("(mean "@, new_input()),
            is_new,
        ),
        pattern_function(
            "variance(input: number, window: window = null) -> f64"@,
            "variance(input: number, window: window = null, duration: i64 = null) -> f64"@,
            windowed_call("(variance "@, new_input()),
            is_new,
        ),
        pattern_function(
            "stddev(input: number, window: window = null) -> f64"@,
            "stddev(input: number, window: window = null, duration: i64 = null) -> f64"@,
            "(powf "@ + windowed_call("(variance "@, new_input()) + " 0.5f64)"@,
            None,
        ),
        pushdown_function(
            "last(input: any, window: window = null) -> any"@,
            "last(input: any, window: window = null, duration: i64 = null) -> any"@,
            "(last "@,
            "(last "@,
        ),
        pushdown_function(
            "first(input: any, window: window = null) -> any"@,
            "first(input: any, window: window = null, duration: i64 = null) -> any"@,
            "(first"@,
            "(first "@,
        ),
    ]
}

fn windowed(head: &str, input: &str) -> (pattern: String)
    ensures
        pattern@ == windowed_call(head@, input@),
{
    let mut pattern = String::from_str(head);
    pattern.append("(");
    pattern.append(input);
    pattern.append(") (?window_value) (?duration_value))");
    pattern
}

fn wrapped(before: &str, inner: &str, after: &str) -> (pattern: String)
    ensures
        pattern@ == before@ + inner@ + after@,
{
    let mut pattern = String::from_str(before);
    pattern.append(inner);
    pattern.append(after);
    pattern
}

fn by_pattern(signature: &str, dfg_signature: &str, head: &str, input: &str) -> (function:
    Function)
    ensures
        function@ == pattern_function(
            signature@,
            dfg_signature@,
            windowed_call(head@, input@),
            Some(ImplementationView::Pattern(aggregation_is_new())),
        ),
{
    let pattern = windowed(head, input);
    Function::new(signature).with_dfg_signature(dfg_signature).with_implementation(
        Implementation::new_pattern(pattern.as_str()),
    ).with_is_new(
        Implementation::new_pattern("(logical_or ?window_is_new ?input_is_new)"),
    ).with_time_domain_check(TimeDomainCheck::Aggregation)
}

fn by_pushdown(signature: &str, dfg_signature: &str, head: &str, field_head: &str) -> (function:
    Function)
    ensures
        function@ == pushdown_function(signature@, dfg_signature@, head@, field_head@),
{
    let primitive = windowed(
        head,
        "transform (if ?is_new ?input_value) (merge_join ?op ?window_op)",
    );
    // The field is taken from the latest record only where that record is new
    // and valid and holds a valid field.
    let held = windowed(
        field_head,
        "transform (if (logical_and ?is_new (is_valid ?input_record)) (is_valid ?input_field)) (merge_join ?op ?window_op)",
    );
    let field = wrapped("(if ", held.as_str(), " ?recurse_on_input_field)");
    // The record is null until a new valid record was observed.
    let counted = windowed(
        "(count_if ",
        "transform (logical_and ?is_new (is_valid ?input_record)) (merge_join ?op ?window_op)",
    );
    let result = wrapped("(if (gt ", counted.as_str(), " 0u32) ?result_record)");
    let pushdown = Pushdown::new(0, primitive, field, result);
    Function::new(signature).with_dfg_signature(dfg_signature).with_implementation(
        Implementation::Pushdown(pushdown),
    ).with_is_new(
        Implementation::new_pattern("(logical_or ?window_is_new ?input_is_new)"),
    ).with_time_domain_check(TimeDomainCheck::Aggregation)
}

/// Registers the aggregations: `count_if`, `count`, `sum`, `min`, `max`,
/// `mean`, `variance` and `stddev` by patterns, `last` and `first` by
/// pushdown through records.
pub fn register(registry: &mut Registry)
    ensures
        final(registry)@ == old(registry)@ + aggregation_functions(),
{
    let new_value = "transform (if ?input_is_new ?input_value) (merge_join ?input_op ?window_op)";
    registry.register(
        by_pattern(
            "count_if(input: any, window: window = null) -> u32",
            "count_if(input: any, window: window = null, duration: i64 = null) -> u32",
            "(count_if ",
            new_value,
        ),
    );
    registry.register(
        by_pattern(
            "count(input: any, window: window = null) -> u32",
            "count_if(input: any, window: window = null, duration: i64 = null) -> u32",
            "(count_if ",
            "transform (is_valid (if ?input_is_new ?input_value)) (merge_join ?input_op ?window_op)",
        ),
    );
    registry.register(
        by_pattern(
            "sum(input: number, window: window = null) -> number",
            "sum(input: number, window: window = null, duration: i64 = null) -> number",
            "(sum ",
            new_value,
        ),
    );
    registry.register(
        by_pattern(
            "min(input: ordered, window: window = null) -> ordered",
            "min(input: ordered, window: window = null, duration: i64 = null) -> ordered",
            "(min ",
            new_value,
        ),
    );
    registry.register(
        by_pattern(
            "max(input: ordered, window: window = null) -> ordered",
            "max(input: ordered, window: window = null, duration: i64 = null) -> ordered",
            "(max ",
            new_value,
        ),
    );
    registry.register(
        by_pattern(
            "mean(input: number, window: window = null) -> f64",
            "mean(input: number, window: window = null, duration: i64 = null) -> f64",
            "(mean ",
            new_value,
        ),
    );
    registry.register(
        by_pattern(
            "variance(input: number, window: window = null) -> f64",
            "variance(input: number, window: window = null, duration: i64 = null) -> f64",
            "(variance ",
            new_value,
        ),
    );
    let variance = windowed("(variance ", new_value);
    let root = wrapped("(powf ", variance.as_str(), " 0.5f64)");
    registry.register(
        Function::new(
            "stddev(input: number, window: window = null) -> f64",
        ).with_dfg_signature(
            "stddev(input: number, window: window = null, duration: i64 = null) -> f64",
        ).with_implementation(Implementation::new_pattern(root.as_str())).with_time_domain_check(
            TimeDomainCheck::Aggregation,
        ),
    );
    registry.register(
        by_pushdown(
            "last(input: any, window: window = null) -> any",
            "last(input: any, window: window = null, duration: i64 = null) -> any",
            "(last ",
            "(last ",
        ),
    );
    registry.register(
        by_pushdown(
            "first(input: any, window: window = null) -> any",
            "first(input: any, window: window = null, duration: i64 = null) -> any",
            "(first",
            "(first ",
        ),
    );
    assert(registry@ =~= old(registry)@ + aggregation_functions());
}

} // verus!
