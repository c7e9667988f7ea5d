use llrt_lib::logging::{
    console_plan, write_console_call,
    bitmask, classify_object, format_raw_string, format_raw_string_inner, format_scalar,
    get_masks, parse_template, push_indentation, replace_newline_with_carriage_return,
    write_circular, write_class_name, write_collapsed_object, write_date, write_error,
    write_member_prefix, write_more_items, write_object_close, write_object_open,
    write_promise_close, write_promise_open, write_regexp, write_sep, Color, Directive,
    FormatOptions, LogLevel, ObjectClass, PromiseStatus, ScalarValue,
};

const ALL: usize = !0;

fn scalar(value: ScalarValue, color: bool, depth: usize) -> String {
    let mut out = String::new();
    format_scalar(&mut out, value, &FormatOptions::new(color, false), depth);
    out
}

#[test]
fn log_level_names() {
    assert_eq!(LogLevel::Trace.to_string(), "TRACE");
    assert_eq!(LogLevel::Debug.to_string(), "DEBUG");
    assert_eq!(LogLevel::Info.to_string(), "INFO");
    assert_eq!(LogLevel::Warn.to_string(), "WARN");
    assert_eq!(LogLevel::Error.to_string(), "ERROR");
    assert_eq!(LogLevel::Fatal.to_string(), "FATAL");
}

#[test]
fn log_level_from_name_with_info_fallback() {
    assert_eq!(LogLevel::from_str("TRACE"), LogLevel::Trace);
    assert_eq!(LogLevel::from_str("WARN"), LogLevel::Warn);
    assert_eq!(LogLevel::from_str("FATAL"), LogLevel::Fatal);
    assert_eq!(LogLevel::from_str("warn"), LogLevel::Info);
    assert_eq!(LogLevel::from_str(""), LogLevel::Info);
}

#[test]
fn log_level_name_round_trip() {
    for level in [
        LogLevel::Trace,
        LogLevel::Debug,
        LogLevel::Info,
        LogLevel::Warn,
        LogLevel::Error,
        LogLevel::Fatal,
    ] {
        assert_eq!(LogLevel::from_str(&level.to_string()), level);
    }
}

#[test]
fn colors_are_masked() {
    let mut out = String::new();
    Color::RED.push(&mut out, ALL);
    Color::reset(&mut out, ALL);
    Color::CYAN.push(&mut out, 0);
    Color::BOLD.push(&mut out, ALL);
    Color::WHITE.push(&mut out, ALL);
    assert_eq!(out, "\x1b[31m\x1b[0m\x1b[1m\x1b[37m");
}

#[test]
fn bitmask_and_masks() {
    assert_eq!(bitmask(true), usize::MAX);
    assert_eq!(bitmask(false), 0);
    assert_eq!(get_masks(&FormatOptions::new(true, false), 0), (usize::MAX, 0, 0));
    assert_eq!(get_masks(&FormatOptions::new(false, true), 3), (0, usize::MAX, 1));
}

#[test]
fn separators_and_indentation() {
    let cases = [
        (false, false, false, ""),
        (true, false, false, ","),
        (false, true, false, "\r"),
        (true, true, false, ",\r"),
        (false, false, true, " "),
        (true, false, true, ", "),
        (false, true, true, "\n"),
        (true, true, true, ",\n"),
    ];
    for (comma, indent, newline, expected) in cases {
        let mut out = String::new();
        write_sep(&mut out, comma, indent, newline);
        assert_eq!(out, expected);
    }
    let mut out = String::new();
    for depth in 0..=4 {
        push_indentation(&mut out, depth);
        out.push('|');
    }
    assert_eq!(out, "|  |    |        |                |");
}

#[test]
fn raw_strings_are_quoted_and_green_below_the_root() {
    let mut out = String::new();
    format_raw_string_inner(&mut out, "x".to_string(), ALL, ALL, 1);
    assert_eq!(out, "\x1b[32m'x'");
    let mut out = String::new();
    format_raw_string(&mut out, "plain".to_string(), &FormatOptions::new(true, true));
    assert_eq!(out, "plain");
}

#[test]
fn newlines_become_carriage_returns() {
    let mut text = String::from("a\nb\r\n\n");
    replace_newline_with_carriage_return(&mut text);
    assert_eq!(text, "a\rb\r\r\r");
}

#[test]
fn scalars_without_colors() {
    assert_eq!(scalar(ScalarValue::Null, false, 0), "null");
    assert_eq!(scalar(ScalarValue::Undefined, false, 0), "undefined");
    assert_eq!(scalar(ScalarValue::Bool(true), false, 0), "true");
    assert_eq!(scalar(ScalarValue::Bool(false), false, 0), "false");
    assert_eq!(scalar(ScalarValue::Int(-42), false, 0), "-42");
    assert_eq!(scalar(ScalarValue::Int(i32::MIN), false, 0), "-2147483648");
    assert_eq!(
        scalar(ScalarValue::BigInt(9_007_199_254_740_993), false, 0),
        "9007199254740993n"
    );
    assert_eq!(scalar(ScalarValue::Float("1.5".into()), false, 0), "1.5");
    assert_eq!(scalar(ScalarValue::Str("s".into()), false, 0), "s");
    assert_eq!(scalar(ScalarValue::Str("s".into()), false, 2), "'s'");
    assert_eq!(
        scalar(ScalarValue::Symbol("tag".into()), false, 0),
        "Symbol(tag)"
    );
    assert_eq!(
        scalar(
            ScalarValue::Function {
                name: "".into(),
                is_class: false
            },
            false,
            0
        ),
        "[function: (anonymous)]"
    );
    assert_eq!(
        scalar(
            ScalarValue::Function {
                name: "Point".into(),
                is_class: true
            },
            false,
            1
        ),
        "[class: Point]"
    );
    assert_eq!(scalar(ScalarValue::Other, false, 0), "");
}

#[test]
fn scalars_with_colors() {
    assert_eq!(scalar(ScalarValue::Null, true, 0), "\x1b[1mnull\x1b[0m");
    assert_eq!(scalar(ScalarValue::Int(7), true, 0), "\x1b[33m7\x1b[0m");
    assert_eq!(scalar(ScalarValue::Str("s".into()), true, 0), "s\x1b[0m");
    assert_eq!(
        scalar(ScalarValue::Str("s".into()), true, 1),
        "\x1b[32m's'\x1b[0m"
    );
    assert_eq!(scalar(ScalarValue::Other, true, 0), "\x1b[0m");
}

#[test]
fn promises() {
    let options = FormatOptions::new(false, true);
    let mut out = String::new();
    write_promise_open(&mut out, PromiseStatus::Pending, &options, 0);
    write_promise_close(&mut out, PromiseStatus::Pending, &options, 0);
    assert_eq!(out, "Promise { <pending> }");

    let mut out = String::new();
    write_promise_open(&mut out, PromiseStatus::Resolved, &options, 0);
    out.push_str("1");
    write_promise_close(&mut out, PromiseStatus::Resolved, &options, 0);
    assert_eq!(out, "Promise {\n  1\n}");

    let mut out = String::new();
    write_promise_open(&mut out, PromiseStatus::Rejected, &options, 2);
    out.push_str("e");
    write_promise_close(&mut out, PromiseStatus::Rejected, &options, 2);
    assert_eq!(out, "Promise { <rejected> e }");
}

#[test]
fn markers_dates_and_regexps() {
    let mut out = String::new();
    write_circular(&mut out, 0);
    write_collapsed_object(&mut out, true, 0);
    write_collapsed_object(&mut out, false, 0);
    write_date(&mut out, "2024-01-01T00:00:00.000Z", 0);
    write_regexp(&mut out, "a+b", "gi", 0);
    assert_eq!(
        out,
        "[Circular][Object][Array]2024-01-01T00:00:00.000Z/a+b/gi"
    );
    let mut out = String::new();
    write_circular(&mut out, ALL);
    assert_eq!(out, "\x1b[36m[Circular]\x1b[0m");
}

#[test]
fn errors_with_stack_lines() {
    let mut out = String::new();
    write_error(
        &mut out,
        "TypeError",
        "bad",
        Some("  at f (a.js:1)\n  at g (b.js:2)\n".to_string()),
        &FormatOptions::new(false, true),
        0,
    );
    assert_eq!(out, "TypeError: bad\n  at f (a.js:1)\n    at g (b.js:2)");
    let mut out = String::new();
    write_error(
        &mut out,
        "Error",
        "m",
        None,
        &FormatOptions::new(false, false),
        0,
    );
    assert_eq!(out, "Error: m");
    let mut out = String::new();
    write_error(
        &mut out,
        "E",
        "m",
        Some("x".to_string()),
        &FormatOptions::new(false, false),
        1,
    );
    assert_eq!(out, "E: m\r    x");
}

#[test]
fn object_classes() {
    assert_eq!(classify_object(None), ObjectClass::Plain);
    assert_eq!(classify_object(Some("".into())), ObjectClass::Plain);
    assert_eq!(classify_object(Some("Object".into())), ObjectClass::Plain);
    assert_eq!(classify_object(Some("Date".into())), ObjectClass::Date);
    assert_eq!(classify_object(Some("RegExp".into())), ObjectClass::RegExp);
    assert_eq!(
        classify_object(Some("Map".into())),
        ObjectClass::Named("Map".into())
    );
    let mut out = String::new();
    assert!(write_class_name(&mut out, "Uint8Array"));
    assert!(!write_class_name(&mut out, "Map"));
    assert!(write_class_name(&mut out, "Buffer"));
    assert_eq!(out, "Uint8Array Map Buffer ");
}

#[test]
fn object_members_near_the_root_are_indented() {
    let options = FormatOptions::new(false, true);
    let mut out = String::new();
    write_object_open(&mut out, false);
    write_member_prefix(&mut out, "a", false, false, 0, false, &options);
    out.push_str("1");
    write_member_prefix(&mut out, "2", true, false, 0, true, &options);
    out.push_str("x");
    write_object_close(&mut out, true, false, 0, true);
    assert_eq!(out, "{\n  a: 1,\n  '2': x\n}");
}

#[test]
fn arrays_and_deep_objects_are_written_on_one_line() {
    let options = FormatOptions::new(false, false);
    let mut out = String::new();
    write_object_open(&mut out, true);
    write_member_prefix(&mut out, "0", false, true, 2, true, &options);
    out.push_str("1");
    write_member_prefix(&mut out, "1", true, true, 2, true, &options);
    out.push_str("2");
    write_object_close(&mut out, true, true, 2, false);
    assert_eq!(out, "[1,2 ]");

    let mut out = String::new();
    write_object_open(&mut out, false);
    write_object_close(&mut out, false, false, 0, true);
    assert_eq!(out, "{}");

    let mut out = String::new();
    write_member_prefix(&mut out, "k", false, false, 4, false, &options);
    assert_eq!(out, " k: ");
}

#[test]
fn numeric_keys_are_green_when_colors_are_on() {
    let options = FormatOptions::new(true, true);
    let mut out = String::new();
    write_member_prefix(&mut out, "7", false, false, 3, true, &options);
    assert_eq!(out, " \x1b[32m'7'\x1b[0m: ");
}

#[test]
fn more_items_note() {
    let mut out = String::new();
    write_more_items(&mut out, 150, 100);
    assert_eq!(out, "... 50 more items");
}

fn texts(template: &llrt_lib::logging::FormatTemplate) -> Vec<&str> {
    template.texts.iter().map(|t| t.as_str()).collect()
}

#[test]
fn templates_take_arguments_while_they_last() {
    let t = parse_template("a %s b %d c %s", 2);
    assert_eq!(texts(&t), vec!["a ", " b ", " c %s"]);
    assert_eq!(t.directives, vec![Directive::Str, Directive::Number]);
}

#[test]
fn template_escapes_and_unknown_pairs() {
    let t = parse_template("100%% %c%x %", 1);
    assert_eq!(texts(&t), vec!["100% %x %"]);
    assert!(t.directives.is_empty());
    let t = parse_template("%%%o", 0);
    assert_eq!(texts(&t), vec!["%%%o"]);
    let t = parse_template("%i%f%j%O%o", 5);
    assert_eq!(texts(&t), vec!["", "", "", "", "", ""]);
    assert_eq!(
        t.directives,
        vec![
            Directive::Int,
            Directive::Float,
            Directive::Json,
            Directive::ObjectAll,
            Directive::Object
        ]
    );
    let t = parse_template("%é", 1);
    assert_eq!(texts(&t), vec!["%é"]);
}

#[test]
fn levels_keep_their_numbers() {
    assert_eq!(LogLevel::Trace.value(), 0);
    assert_eq!(LogLevel::Debug.value(), 1);
    assert_eq!(LogLevel::Info.value(), 2);
    assert_eq!(LogLevel::Warn.value(), 4);
    assert_eq!(LogLevel::Error.value(), 8);
    assert_eq!(LogLevel::Fatal.value(), 16);
}

#[test]
fn colors_keep_their_numbers() {
    assert_eq!(Color::RESET.index(), 1);
    assert_eq!(Color::BOLD.index(), 2);
    assert_eq!(Color::BLACK.index(), 31);
    assert_eq!(Color::WHITE.index(), 38);
}

#[test]
fn console_call_joins_template_and_arguments() {
    let plan = console_plan(Some("a %s b %d"), 4, false);
    let mut result = String::from(">");
    write_console_call(
        &mut result,
        &plan,
        &vec!["x".to_string(), "1".to_string()],
        &vec!["rest".to_string()],
    );
    assert_eq!(result, ">a x b 1 rest");
    let plan = console_plan(None, 3, false);
    let mut result = String::new();
    write_console_call(
        &mut result,
        &plan,
        &Vec::new(),
        &vec!["1".to_string(), "two".to_string(), "{}".to_string()],
    );
    assert_eq!(result, "1 two {}");
}
