use diff_logger::diff::{Diff, DiffLogger};
use diff_logger::pretty::{
    difference, headers, paint, pretty_numeric, raw_string, span_between, span_string, Difference, Format,
    PrettyLog, Span, Style,
};
use diff_logger::text::{indent, int_string, join, lines, nat_string, text_equal, text_precedes};
use diff_logger::types::{
    Change, Field, FieldChange, FieldContentChange, Header, Instant, Value, ValueChange,
};

const PLAIN: Format = Format { style: Style::Plain, offset: 0 };

const ANSI: Format = Format { style: Style::Ansi, offset: 0 };

fn plain_object(fs: Vec<FieldChange>) -> ValueChange {
    ValueChange::Entries(fs)
}

fn plain_field(name: &str, ch: ValueChange) -> FieldChange {
    FieldChange { content: FieldContentChange::Diff(ch), name: name.to_owned(), headers: Vec::new() }
}

fn header_num(name: &str, before: i128, after: i128) -> Header {
    Header { name: name.to_string(), content: ValueChange::Number(Change { before, after }) }
}

fn record(fields: Vec<(&str, Value)>) -> Value {
    let list: Vec<Field> =
        fields.into_iter().map(|(name, value)| Field { name: name.to_string(), value }).collect();
    Value::object(&list)
}

fn drop_colors(x: String) -> String {
    x.replace("\u{1b}[32m", "")
        .replace("\u{1b}[0m", "")
        .replace("\u{1b}[31m", "")
        .replace("\u{1b}[90m", "")
        .replace("\u{1b}[33m", "")
        .replace("\u{1b}[100m", "")
}

#[test]
fn empty_object() {
    assert_eq!(plain_object(vec![]).pretty(&PLAIN), "");
}

#[test]
fn header_only_positive() {
    let diff = FieldChange {
        content: FieldContentChange::Diff(plain_object(vec![])),
        name: "stats".to_owned(),
        headers: vec![header_num("num", 1, 2)],
    };

    assert_eq!(drop_colors(diff.pretty(&ANSI)), format!("~ stats◖1 -> 2 | 1◗"));
}

#[test]
fn header_only_negative() {
    let diff = FieldChange {
        content: FieldContentChange::Diff(plain_object(vec![])),
        name: "stats".to_owned(),
        headers: vec![header_num("num", 423, 2)],
    };

    assert_eq!(drop_colors(diff.pretty(&ANSI)), "~ stats◖423 -> 2 | -421◗");
}

#[test]
fn object_fields() {
    let diff = plain_object(vec![plain_field(
        "field",
        plain_object(vec![
            plain_field(
                "text",
                ValueChange::String(Change { before: "A".to_owned(), after: "B".to_owned() }),
            ),
            plain_field("number", ValueChange::Number(Change { before: 1, after: 2 })),
        ]),
    )]);

    assert_eq!(
        drop_colors(diff.pretty(&ANSI)),
        format!(
            "~ field:\
                \n  ~ text: \"A\" -> \"B\"\
                \n  ~ number: 1 -> 2 | 1"
        )
    );
    assert_eq!(diff.pretty(&PLAIN), "~ field:\n  ~ text: \"A\" -> \"B\"\n  ~ number: 1 -> 2 | 1");
}

#[test]
fn styled_text_carries_escape_sequences() {
    let diff = FieldChange {
        content: FieldContentChange::Diff(plain_object(vec![])),
        name: "stats".to_owned(),
        headers: vec![header_num("num", 423, 2)],
    };
    assert_eq!(
        diff.pretty(&ANSI),
        "\u{1b}[33m~ stats\u{1b}[0m\u{1b}[90m◖\u{1b}[0m\u{1b}[100m423 -> 2 | \u{1b}[31m-421\u{1b}[0m\u{1b}[0m\u{1b}[90m◗\u{1b}[0m"
    );
    assert_eq!(paint(Style::Ansi, "32", "up"), "\u{1b}[32mup\u{1b}[0m");
    assert_eq!(paint(Style::Plain, "32", "up"), "up");
    assert_eq!(headers(vec!["a".to_string(), "b".to_string()], Style::Plain), "◖a, b◗");
}

#[test]
fn nothing_renders_as_nothing() {
    let none: Option<ValueChange> = None;
    assert_eq!(none.pretty(&PLAIN), "");
    let logger = DiffLogger::new();
    let value = record(vec![("a", Value::Number(1))]);
    assert_eq!(logger.diff(&value, &value.copy(), &PLAIN), "");
}

#[test]
fn name_change_end_to_end() {
    let logger = DiffLogger::new();
    let prev = record(vec![("name", Value::String("David".to_string())), ("age", Value::Number(43))]);
    let next = record(vec![("name", Value::String("John".to_string())), ("age", Value::Number(43))]);
    assert_eq!(
        prev.diff_value(&next, &logger),
        Some(plain_object(vec![plain_field(
            "name",
            ValueChange::String(Change { before: "David".to_string(), after: "John".to_string() })
        )]))
    );
    assert_eq!(logger.diff(&prev, &next, &PLAIN), "~ name: \"David\" -> \"John\"");
    assert_eq!(logger.diff(&prev, &next, &ANSI), "\u{1b}[33m~ name\u{1b}[0m: \"David\" -> \"John\"");
}

#[test]
fn added_and_removed_values_are_dumped_flat() {
    let logger = DiffLogger::new();
    let prev = record(vec![("gone", record(vec![("b", Value::Array(vec![Value::Null, Value::Bool(true)]))]))]);
    let next = record(vec![("new", Value::String("say \"hi\"\n".to_string()))]);
    assert_eq!(
        logger.diff(&prev, &next, &PLAIN),
        "- gone: {\"b\":[null,true]}\n+ new: \"say \\\"hi\\\"\\n\""
    );
}

#[test]
fn raw_values() {
    assert_eq!(raw_string(&Value::Null), "null");
    assert_eq!(raw_string(&Value::Bool(false)), "false");
    assert_eq!(raw_string(&Value::Number(-42)), "-42");
    assert_eq!(raw_string(&Value::Decimal("0.25".to_string())), "0.25");
    assert_eq!(raw_string(&Value::String("a\tb".to_string())), "\"a\\tb\"");
    assert_eq!(raw_string(&Value::Array(vec![])), "[]");
    assert_eq!(
        raw_string(&record(vec![("k", Value::Number(1)), ("a\"", Value::Array(vec![Value::Number(2), Value::Number(3)]))])),
        "{\"a\\\"\":[2,3],\"k\":1}"
    );
    let change = ValueChange::Value(Change { before: Value::Null, after: Value::String("x".to_string()) });
    assert_eq!(change.pretty(&PLAIN), "null -> \"x\"");
}

#[test]
fn one_hour_later() {
    let logger = DiffLogger::new();
    let prev = Value::String("2023-04-07T11:17:50+00:00".to_string());
    let next = Value::String("2023-04-07T12:17:50+00:00".to_string());
    assert_eq!(logger.diff(&prev, &next, &PLAIN), "11:17:50 -> 12:17:50 | 1:00 hours");
    let east = Format { style: Style::Plain, offset: 19800 };
    assert_eq!(logger.diff(&prev, &next, &east), "16:47:50 -> 17:47:50 | 1:00 hours");
    let west = Format { style: Style::Ansi, offset: -43200 };
    assert_eq!(logger.diff(&next, &prev, &west), "00:17:50 -> 23:17:50 | \u{1b}[31m1:00 hours\u{1b}[0m");
}

#[test]
fn spans() {
    assert_eq!(span_string(0), "0 seconds");
    assert_eq!(span_string(59), "59 seconds");
    assert_eq!(span_string(60), "1:00 minutes");
    assert_eq!(span_string(125), "2:05 minutes");
    assert_eq!(span_string(3599), "59:59 minutes");
    assert_eq!(span_string(3600), "1:00 hours");
    assert_eq!(span_string(90000), "25:00 hours");
    assert_eq!(span_string(7384), "2:03 hours");
    assert_eq!(span_string(-5), "5 seconds");
    assert_eq!(span_string(-90), "1:30 minutes");
    assert_eq!(span_string(-3725), "1:02 hours");
    assert_eq!(span_string(-3600), "1:00 hours");
    assert_eq!(span_string(i128::MIN), "47261439850130342147690917698856696:02 hours");
    assert_eq!(span_string(i128::MAX), "47261439850130342147690917698856696:02 hours");
    assert_eq!(Span { seconds: -3600 }.pretty(&PLAIN), Span { seconds: 3600 }.pretty(&PLAIN));
    assert_eq!(Span { seconds: 61 }.pretty(&PLAIN), "1:01 minutes");
}

#[test]
fn spans_round_toward_zero() {
    let early = Instant { seconds: 10, nanos: 900_000_000, offset: 0 };
    let late = Instant { seconds: 12, nanos: 100_000_000, offset: 0 };
    assert_eq!(span_between(&early, &late), (Span { seconds: 1 }, true));
    assert_eq!(span_between(&late, &early), (Span { seconds: -1 }, false));
    assert_eq!(span_between(&late, &late), (Span { seconds: 0 }, false));
    let first = Instant { seconds: i64::MIN, nanos: 0, offset: 0 };
    let last = Instant { seconds: i64::MAX, nanos: 0, offset: 0 };
    assert_eq!(span_between(&first, &last), (Span { seconds: 18446744073709551615 }, true));
}

#[test]
fn instants_show_the_time_of_day() {
    let t = Instant { seconds: -1, nanos: 0, offset: 3600 };
    assert_eq!(t.pretty(&PLAIN), "23:59:59");
    assert_eq!(t.pretty(&Format { style: Style::Plain, offset: 1 }), "00:00:00");
    let far = Instant { seconds: i64::MIN, nanos: 0, offset: 0 };
    assert_eq!(far.pretty(&Format { style: Style::Plain, offset: i32::MIN }), "05:15:44");
}

#[test]
fn numbers_in_decimal() {
    assert_eq!(nat_string(0), "0");
    assert_eq!(nat_string(1203), "1203");
    assert_eq!(int_string(-7), "-7");
    assert_eq!(int_string(i128::MIN), "-170141183460469231731687303715884105728");
    assert_eq!(7i128.pretty(&PLAIN), "7");
    assert_eq!(true.pretty(&PLAIN), "true");
    assert_eq!("x".to_string().pretty(&PLAIN), "\"x\"");
    let change = ValueChange::Number(Change { before: i128::from(i64::MIN), after: i128::from(u64::MAX) });
    assert_eq!(
        change.pretty(&PLAIN),
        "-9223372036854775808 -> 18446744073709551615 | 27670116110564327423"
    );
    let widest = ValueChange::Number(Change { before: i128::MAX, after: i128::MIN });
    assert_eq!(
        widest.pretty(&PLAIN),
        "170141183460469231731687303715884105727 -> -170141183460469231731687303715884105728 | -340282366920938463463374607431768211455"
    );
    assert_eq!(difference(5, 3), Difference { negative: true, size: 2 });
    assert_eq!(difference(-5, 3), Difference { negative: false, size: 8 });
    assert_eq!(difference(3, 3), Difference { negative: false, size: 0 });
    assert_eq!(difference(3, -5).pretty(&PLAIN), "-8");
}

#[test]
fn numeric_changes_show_their_direction() {
    let change = Change { before: 35i128, after: 43i128 };
    assert_eq!(pretty_numeric(&change, 8i128, true, &ANSI), "35 -> 43 | \u{1b}[32m8\u{1b}[0m");
    assert_eq!(pretty_numeric(&change, 8i128, false, &ANSI), "35 -> 43 | \u{1b}[31m8\u{1b}[0m");
    let same = ValueChange::Number(Change { before: 5, after: 5 });
    assert_eq!(same.pretty(&ANSI), "5 -> 5 | \u{1b}[31m0\u{1b}[0m");
}

#[test]
fn indenting_and_joining() {
    assert_eq!(indent("a\nb\n\nc".to_string()), "a\n  b\n  \n  c");
    assert_eq!(indent("é".to_string()), "é");
    assert_eq!(indent(String::new()), "");
    assert_eq!(lines(vec!["a".to_string(), "b".to_string(), "c".to_string()]), "a\nb\nc");
    assert_eq!(lines(vec![]), "");
    assert_eq!(join(&vec!["a".to_string()], ", "), "a");
    assert_eq!(join(&vec!["".to_string(), "".to_string()], ", "), ", ");
}

#[test]
fn names_are_ordered_by_character() {
    assert!(text_precedes("a", "b"));
    assert!(text_precedes("", "a"));
    assert!(text_precedes("10", "2"));
    assert!(text_precedes("a", "ab"));
    assert!(text_precedes("Z", "a"));
    assert!(text_precedes("z", "é"));
    assert!(!text_precedes("b", "a"));
    assert!(!text_precedes("a", "a"));
    assert!(!text_precedes("", ""));
    assert!(text_equal("ab", "ab"));
    assert!(!text_equal("ab", "abc"));
    assert!(!text_equal("ab", "ac"));
}

#[test]
fn nested_changes_are_indented_once_per_level() {
    let logger = DiffLogger::new().set_header("timestamp", false);
    let prev = record(vec![(
        "state",
        record(vec![
            ("timestamp", Value::String("2023-04-07T11:17:50+00:00".to_string())),
            ("inner", record(vec![("count", Value::Number(45))])),
            ("removedField", Value::String("some text".to_string())),
        ]),
    )]);
    let next = record(vec![(
        "state",
        record(vec![
            ("timestamp", Value::String("2023-04-07T11:18:50+00:00".to_string())),
            ("inner", record(vec![("count", Value::Number(42352))])),
            ("newField", Value::Number(4)),
        ]),
    )]);
    assert_eq!(
        logger.diff(&prev, &next, &PLAIN),
        "~ state◖11:17:50 -> 11:18:50 | 1:00 minutes◗:\n  ~ inner:\n    ~ count: 45 -> 42352 | 42307\n  + newField: 4\n  - removedField: \"some text\""
    );
}

#[test]
fn copies_are_equal() {
    let diff = FieldChange {
        content: FieldContentChange::Diff(plain_object(vec![
            plain_field("text", ValueChange::String(Change { before: "A".to_owned(), after: "B".to_owned() })),
            FieldChange {
                name: "gone".to_owned(),
                headers: vec![],
                content: FieldContentChange::Deleted(record(vec![("k", Value::Array(vec![Value::Null]))])),
            },
        ])),
        name: "stats".to_owned(),
        headers: vec![header_num("num", 1, 2), header_num("other", 2, 1)],
    };
    assert_eq!(diff.clone(), diff);
    assert_eq!(diff.headers.to_vec(), diff.headers);
    assert_eq!(diff.content.clone(), diff.content);
    let value = record(vec![("k", Value::Array(vec![Value::Null, Value::Decimal("1.5".to_owned())]))]);
    assert_eq!(value.clone(), value);
}
