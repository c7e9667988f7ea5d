use llrt_lib::inspect::{format_step, FormatEvent, FormatWalk, MemberKey, NextRead, ValueFacts};
use llrt_lib::logging::{
    console_plan, ArgAction, Conversion, FormatOptions, PromiseStatus, RestArg, ScalarValue,
};

fn object(id: u64) -> FormatEvent {
    FormatEvent::Value(ValueFacts::Object { id, is_object: true, is_error: false, engine_array: false })
}

fn int_value(n: i32) -> FormatEvent {
    FormatEvent::Value(ValueFacts::Scalar(ScalarValue::Int(n)))
}

fn key(name: &str) -> MemberKey {
    MemberKey { name: name.to_string(), numeric: false }
}

/// Runs a walk on the given reports, checking that each is allowed.
fn run(events: Vec<FormatEvent>, options: &FormatOptions) -> (String, NextRead) {
    let mut walk = FormatWalk::new();
    let mut result = String::new();
    let mut next = walk.next_read();
    for event in events {
        assert!(walk.allows(&event));
        next = format_step(&mut walk, &mut result, event, options);
    }
    (result, next)
}

#[test]
fn walk_writes_a_scalar() {
    let (text, next) = run(vec![int_value(5)], &FormatOptions::new(false, true));
    assert_eq!(text, "5");
    assert!(matches!(next, NextRead::Done));
}

#[test]
fn walk_writes_a_colored_scalar_with_reset() {
    let (text, _) = run(vec![int_value(5)], &FormatOptions::new(true, true));
    assert_eq!(text, "\x1b[33m5\x1b[0m");
}

#[test]
fn walk_asks_for_members_and_writes_an_object() {
    let options = FormatOptions::new(false, true);
    let mut walk = FormatWalk::new();
    let mut result = String::new();
    let next = format_step(&mut walk, &mut result, object(0), &options);
    assert!(matches!(next, NextRead::ClassName));
    let next = format_step(&mut walk, &mut result, FormatEvent::ClassName(None), &options);
    assert!(matches!(next, NextRead::Inspect { level: 0 }));
    let next = format_step(&mut walk, &mut result, FormatEvent::Inspect(false), &options);
    assert!(matches!(next, NextRead::Keys));
    let next = format_step(&mut walk, &mut result, FormatEvent::Keys(vec![key("a")]), &options);
    match &next {
        NextRead::Member { level, key } => {
            assert_eq!(*level, 0);
            assert_eq!(key, "a");
        },
        _ => panic!("a member is asked for"),
    }
    let next = format_step(&mut walk, &mut result, int_value(1), &options);
    assert!(matches!(next, NextRead::Done));
    assert_eq!(result, "{\n  a: 1\n}");
}

#[test]
fn walk_writes_circular_for_an_object_met_again() {
    let options = FormatOptions::new(false, true);
    let (text, next) = run(
        vec![
            object(7),
            FormatEvent::ClassName(None),
            FormatEvent::Inspect(false),
            FormatEvent::Keys(vec![key("me")]),
            object(7),
        ],
        &options,
    );
    assert_eq!(text, "{\n  me: [Circular]\n}");
    assert!(matches!(next, NextRead::Done));
}

#[test]
fn walk_collapses_objects_at_depth_four() {
    let options = FormatOptions::new(false, true);
    let mut events = Vec::new();
    for id in 0..4u64 {
        events.push(object(id));
        events.push(FormatEvent::ClassName(None));
        events.push(FormatEvent::Inspect(false));
        events.push(FormatEvent::Keys(vec![key("a")]));
    }
    events.push(object(4));
    events.push(FormatEvent::ClassName(None));
    let (text, next) = run(events, &options);
    assert_eq!(text, "{\n  a: {\n    a: { a: { a: [Object] } }\n  }\n}");
    assert!(matches!(next, NextRead::Done));
}

#[test]
fn walk_stops_after_the_hundred_and_first_member() {
    let options = FormatOptions::new(false, true);
    let keys: Vec<MemberKey> = (0..105).map(|i| MemberKey { name: i.to_string(), numeric: true }).collect();
    let mut events = vec![
        FormatEvent::Value(ValueFacts::Object { id: 0, is_object: false, is_error: false, engine_array: true }),
        FormatEvent::Inspect(false),
        FormatEvent::Keys(keys),
    ];
    for i in 0..=100 {
        events.push(int_value(i));
    }
    let (text, next) = run(events, &options);
    let mut expected = String::from("[ 0");
    for i in 1..=100 {
        expected.push_str(&format!(", {}", i));
    }
    expected.push_str("... 5 more items ]");
    assert_eq!(text, expected);
    assert!(matches!(next, NextRead::Done));
}

#[test]
fn walk_leaves_out_functions_of_the_prototype() {
    let options = FormatOptions::new(false, true);
    let method = FormatEvent::Value(ValueFacts::Scalar(ScalarValue::Function {
        name: "m".to_string(),
        is_class: false,
    }));
    let (text, next) = run(
        vec![
            object(0),
            FormatEvent::ClassName(Some("Point".to_string())),
            FormatEvent::Inspect(false),
            FormatEvent::Keys(Vec::new()),
            FormatEvent::PrototypeKeys(Some(vec![key("m"), key("x")])),
            method,
            int_value(2),
        ],
        &options,
    );
    assert_eq!(text, "Point {\n  x: 2\n}");
    assert!(matches!(next, NextRead::Done));
}

#[test]
fn walk_writes_dates_regexps_and_errors() {
    let options = FormatOptions::new(false, true);
    let (date, _) = run(
        vec![object(0), FormatEvent::ClassName(Some("Date".to_string())), FormatEvent::DateText("2020-01-01T00:00:00.000Z".to_string())],
        &options,
    );
    assert_eq!(date, "2020-01-01T00:00:00.000Z");
    let (regexp, _) = run(
        vec![
            object(0),
            FormatEvent::ClassName(Some("RegExp".to_string())),
            FormatEvent::RegExpParts { source: "a+".to_string(), flags: "g".to_string() },
        ],
        &options,
    );
    assert_eq!(regexp, "/a+/g");
    let (error, _) = run(
        vec![
            FormatEvent::Value(ValueFacts::Object { id: 0, is_object: true, is_error: true, engine_array: false }),
            FormatEvent::ErrorParts { name: "Error".to_string(), message: "boom".to_string(), stack: None },
        ],
        &options,
    );
    assert_eq!(error, "Error: boom");
}

#[test]
fn walk_opens_a_settled_promise_around_its_value() {
    let options = FormatOptions::new(false, true);
    let mut walk = FormatWalk::new();
    let mut result = String::new();
    let next = format_step(
        &mut walk,
        &mut result,
        FormatEvent::Value(ValueFacts::Promise(PromiseStatus::Resolved)),
        &options,
    );
    assert!(matches!(next, NextRead::PromiseResult { level: 0 }));
    let next = format_step(&mut walk, &mut result, int_value(1), &options);
    assert!(matches!(next, NextRead::Done));
    assert_eq!(result, "Promise {\n  1\n}");
}

#[test]
fn walk_refuses_a_report_it_did_not_ask_for() {
    let walk = FormatWalk::new();
    assert!(!walk.allows(&FormatEvent::Keys(Vec::new())));
    assert!(walk.allows(&int_value(1)));
}

#[test]
fn plan_expands_a_leading_template() {
    let plan = console_plan(Some("%s and %d"), 3, true);
    let template = plan.template.expect("a template");
    assert_eq!(template.texts, vec!["".to_string(), " and ".to_string(), "".to_string()]);
    assert_eq!(
        plan.substitutions,
        vec![
            ArgAction::WriteCoerced,
            ArgAction::Format { conversion: Conversion::Number, color: false, all_properties: false }
        ]
    );
    assert!(plan.rest.is_empty());
}

#[test]
fn plan_switches_colors_off_after_a_value_substitution() {
    let plan = console_plan(Some("%O!"), 3, true);
    assert_eq!(
        plan.substitutions,
        vec![ArgAction::Format { conversion: Conversion::AsIs, color: false, all_properties: true }]
    );
    assert_eq!(plan.rest, vec![RestArg { space: true, color: false }]);
    let plan = console_plan(Some("%s!"), 3, true);
    assert_eq!(plan.rest, vec![RestArg { space: true, color: true }]);
}

#[test]
fn plan_writes_a_lone_string_as_a_value() {
    let plan = console_plan(Some("hello"), 1, true);
    assert!(plan.template.is_none());
    assert_eq!(plan.rest, vec![RestArg { space: false, color: true }]);
}

#[test]
fn plan_separates_arguments_by_spaces() {
    let plan = console_plan(None, 3, false);
    assert!(plan.template.is_none());
    assert!(plan.substitutions.is_empty());
    assert_eq!(
        plan.rest,
        vec![
            RestArg { space: false, color: false },
            RestArg { space: true, color: false },
            RestArg { space: true, color: false }
        ]
    );
}
