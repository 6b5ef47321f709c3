use diff_logger::diff::{all_keys, diff_values, drop_headers, lookup_header, text_change, to_timestamps, Diff, DiffLogger};
use diff_logger::tree::{fields_ordered, put_field, to_field_map};
use diff_logger::types::{
    Change, Field, FieldChange, FieldContentChange, Header, Instant, Value, ValueChange,
};

fn text(s: &str) -> Value {
    Value::String(s.to_string())
}

fn obj(fields: Vec<(&str, Value)>) -> Value {
    let list: Vec<Field> =
        fields.into_iter().map(|(name, value)| Field { name: name.to_string(), value }).collect();
    Value::object(&list)
}

fn numbers(xs: &[i128]) -> Value {
    Value::Array(xs.iter().map(|x| Value::Number(*x)).collect())
}

fn object(fs: Vec<FieldChange>) -> ValueChange {
    ValueChange::Entries(fs)
}

fn field(name: &str, ch: ValueChange) -> FieldChange {
    FieldChange { content: FieldContentChange::Diff(ch), name: name.to_owned(), headers: Vec::new() }
}

fn number_change(before: i128, after: i128) -> ValueChange {
    ValueChange::Number(Change { before, after })
}

fn instant(seconds: i64) -> Instant {
    Instant { seconds, nanos: 0, offset: 0 }
}

#[test]
fn no_changes() {
    let logger = DiffLogger::new();

    let value = obj(vec![("a", text("David")), ("b", Value::Number(43))]);

    assert_eq!(value.diff_value(&value.copy(), &logger), None);
}

#[test]
fn basic_changes() {
    let logger = DiffLogger::new();

    let prev = obj(vec![("a", text("David")), ("b", Value::Number(43))]);
    let next = obj(vec![("a", text("John")), ("b", Value::Number(43))]);

    assert_eq!(
        prev.diff_value(&next, &logger),
        Some(object(vec![field(
            "a",
            ValueChange::String(Change { before: "David".to_string(), after: "John".to_string() })
        )]))
    );
}

#[test]
fn equal_nested_values_do_not_differ() {
    let logger = DiffLogger::new().set_header("timestamp", false);
    let value = obj(vec![
        ("list", Value::Array(vec![Value::Null, obj(vec![("x", Value::Bool(true))]), numbers(&[1, 2])])),
        ("price", Value::Decimal("3.5".to_string())),
        ("timestamp", text("2023-04-07T11:17:50+00:00")),
    ]);
    assert!(value.same(&value.copy()));
    assert_eq!(value.diff_value(&value.copy(), &logger), None);
}

#[test]
fn unequal_values_always_differ() {
    let logger = DiffLogger::new().set_header("a", false);
    let prev = obj(vec![("a", Value::Number(1))]);
    let next = obj(vec![("a", Value::Number(2))]);
    assert!(!prev.same(&next));
    assert_eq!(prev.diff_value(&next, &logger), Some(object(vec![])));
}

#[test]
fn added_and_removed_fields_come_in_name_order() {
    let logger = DiffLogger::new();
    let prev = obj(vec![("zeta", Value::Number(1)), ("beta", Value::Null), ("same", Value::Bool(true))]);
    let next = obj(vec![("alpha", text("x")), ("same", Value::Bool(true)), ("beta", Value::Bool(false))]);
    let changes = prev.diff_value(&next, &logger);
    assert_eq!(
        changes,
        Some(object(vec![
            FieldChange {
                name: "alpha".to_string(),
                headers: vec![],
                content: FieldContentChange::New(text("x"))
            },
            field("beta", ValueChange::Value(Change { before: Value::Null, after: Value::Bool(false) })),
            FieldChange {
                name: "zeta".to_string(),
                headers: vec![],
                content: FieldContentChange::Deleted(Value::Number(1))
            },
        ]))
    );
}

#[test]
fn hidden_names_are_left_out() {
    let logger = DiffLogger::new().set_header("beta", false);
    let prev = obj(vec![("alpha", Value::Number(1)), ("beta", Value::Number(1))]);
    let next = obj(vec![("alpha", Value::Number(2)), ("beta", Value::Number(2))]);
    assert_eq!(prev.diff_value(&next, &logger), Some(object(vec![field("alpha", number_change(1, 2))])));
}

#[test]
fn last_registration_wins() {
    let logger = DiffLogger::new().set_header("a", false).set_header("b", false).set_header("a", true);
    assert!(logger.field_visibility("a"));
    assert!(!logger.field_visibility("b"));
    assert!(logger.field_visibility("c"));
    let again = logger.set_header("a", false);
    assert!(!again.field_visibility("a"));
    assert!(logger.field_visibility("a"));
}

#[test]
fn arrays_are_compared_by_position() {
    let logger = DiffLogger::new();
    assert_eq!(
        numbers(&[1, 2, 3]).diff_value(&numbers(&[1, 9, 3]), &logger),
        Some(object(vec![field("1", number_change(2, 9))]))
    );
    assert_eq!(
        numbers(&[1, 2, 3]).diff_value(&numbers(&[2, 3]), &logger),
        Some(object(vec![
            field("0", number_change(1, 2)),
            field("1", number_change(2, 3)),
            FieldChange {
                name: "2".to_string(),
                headers: vec![],
                content: FieldContentChange::Deleted(Value::Number(3))
            },
        ]))
    );
}

#[test]
fn array_indices_are_ordered_as_text() {
    let items: Vec<Value> = (0..12).map(Value::Number).collect();
    let names: Vec<String> = to_field_map(&items).into_iter().map(|f| f.name).collect();
    assert_eq!(names, vec!["0", "1", "10", "11", "2", "3", "4", "5", "6", "7", "8", "9"]);
    let fields = to_field_map(&items);
    assert_eq!(fields[2].value, Value::Number(10));
}

#[test]
fn put_field_replaces_a_field_of_the_same_name() {
    let mut fields: Vec<Field> = Vec::new();
    put_field(&mut fields, "b".to_string(), Value::Number(1));
    put_field(&mut fields, "a".to_string(), Value::Number(2));
    put_field(&mut fields, "b".to_string(), Value::Number(3));
    assert_eq!(
        fields,
        vec![
            Field { name: "a".to_string(), value: Value::Number(2) },
            Field { name: "b".to_string(), value: Value::Number(3) }
        ]
    );
}

#[test]
fn timestamps_are_promoted() {
    let logger = DiffLogger::new();
    let change = text("2023-04-07T11:17:50+00:00").diff_value(&text("2023-04-07T12:17:50+00:00"), &logger);
    assert_eq!(
        change,
        Some(ValueChange::Date(Change { before: instant(1680866270), after: instant(1680869870) }))
    );
}

#[test]
fn timestamp_keeps_its_offset() {
    let both = to_timestamps(&"2023-04-07T13:17:50+02:00".to_string(), &"2023-04-07T11:17:50.5Z".to_string());
    assert_eq!(
        both,
        Some((
            Instant { seconds: 1680866270, nanos: 0, offset: 7200 },
            Instant { seconds: 1680866270, nanos: 500_000_000, offset: 0 }
        ))
    );
}

#[test]
fn text_stays_text_unless_both_are_timestamps() {
    let logger = DiffLogger::new();
    let change = text("2023-04-07T11:17:50+00:00").diff_value(&text("yesterday"), &logger);
    assert_eq!(
        change,
        Some(ValueChange::String(Change {
            before: "2023-04-07T11:17:50+00:00".to_string(),
            after: "yesterday".to_string()
        }))
    );
    assert_eq!(to_timestamps(&"a".to_string(), &"2023-04-07T11:17:50+00:00".to_string()), None);
    assert_eq!(
        text_change(&"a".to_string(), &"b".to_string(), Some((instant(1), instant(2)))),
        ValueChange::Date(Change { before: instant(1), after: instant(2) })
    );
    assert_eq!(
        text_change(&"a".to_string(), &"b".to_string(), None),
        ValueChange::String(Change { before: "a".to_string(), after: "b".to_string() })
    );
}

#[test]
fn values_of_different_kinds_are_kept_whole() {
    let logger = DiffLogger::new();
    let prev = obj(vec![("a", Value::Number(1))]);
    assert_eq!(
        prev.diff_value(&text("a"), &logger),
        Some(ValueChange::Value(Change { before: prev.copy(), after: text("a") }))
    );
    assert_eq!(
        Value::Null.diff_value(&Value::Number(0), &logger),
        Some(ValueChange::Value(Change { before: Value::Null, after: Value::Number(0) }))
    );
    assert_eq!(
        Value::Decimal("1.5".to_string()).diff_value(&Value::Decimal("2.5".to_string()), &logger),
        Some(ValueChange::Value(Change {
            before: Value::Decimal("1.5".to_string()),
            after: Value::Decimal("2.5".to_string())
        }))
    );
    assert_eq!(
        Value::Bool(true).diff_value(&Value::Bool(false), &logger),
        Some(ValueChange::Bool(Change { before: true, after: false }))
    );
}

#[test]
fn lookup_degrades_to_null() {
    let value = obj(vec![("a", Value::Number(1))]);
    assert_eq!(lookup_header("a", &value), Value::Number(1));
    assert_eq!(lookup_header("b", &value), Value::Null);
    assert_eq!(lookup_header("a", &Value::Number(1)), Value::Null);
}

#[test]
fn headers_are_attached_to_the_field_that_holds_them() {
    let prev = obj(vec![(
        "state",
        obj(vec![("timestamp", text("2023-04-07T11:17:50+00:00")), ("value", Value::Number(1))]),
    )]);
    let next = obj(vec![(
        "state",
        obj(vec![("timestamp", text("2023-04-07T12:17:50+00:00")), ("value", Value::Number(2))]),
    )]);
    let moved = ValueChange::Date(Change { before: instant(1680866270), after: instant(1680869870) });
    let header = Header { name: "timestamp".to_string(), content: moved };

    let shown = DiffLogger::new().set_header("timestamp", true);
    assert_eq!(
        prev.diff_value(&next, &shown),
        Some(object(vec![FieldChange {
            name: "state".to_string(),
            headers: vec![Header {
                name: "timestamp".to_string(),
                content: ValueChange::Date(Change { before: instant(1680866270), after: instant(1680869870) })
            }],
            content: FieldContentChange::Diff(object(vec![
                field(
                    "timestamp",
                    ValueChange::Date(Change { before: instant(1680866270), after: instant(1680869870) })
                ),
                field("value", number_change(1, 2)),
            ])),
        }]))
    );

    let hidden = DiffLogger::new().set_header("timestamp", false);
    assert_eq!(
        prev.diff_value(&next, &hidden),
        Some(object(vec![FieldChange {
            name: "state".to_string(),
            headers: vec![header],
            content: FieldContentChange::Diff(object(vec![field("value", number_change(1, 2))])),
        }]))
    );
}

#[test]
fn header_without_a_change_is_not_attached() {
    let prev = obj(vec![("state", obj(vec![("timestamp", text("t")), ("value", Value::Number(1))]))]);
    let next = obj(vec![("state", obj(vec![("timestamp", text("t")), ("value", Value::Number(2))]))]);
    let logger = DiffLogger::new().set_header("timestamp", false);
    assert_eq!(
        prev.diff_value(&next, &logger),
        Some(object(vec![field("state", object(vec![field("value", number_change(1, 2))]))]))
    );
}

#[test]
fn objects_are_built_in_name_order() {
    let built = obj(vec![("b", Value::Number(1)), ("a", Value::Number(2)), ("b", Value::Number(3))]);
    assert_eq!(
        built,
        Value::Object(vec![
            Field { name: "a".to_string(), value: Value::Number(2) },
            Field { name: "b".to_string(), value: Value::Number(3) }
        ])
    );
    assert_eq!(Value::object(&vec![]), Value::Object(vec![]));
}

#[test]
fn the_function_and_the_method_agree() {
    let logger = DiffLogger::new();
    let prev = numbers(&[1, 2]);
    let next = numbers(&[1, 3, 4]);
    assert_eq!(diff_values(&prev, &next, &logger), prev.diff_value(&next, &logger));
    assert_eq!(
        diff_values(&prev, &next, &logger),
        Some(object(vec![
            field("1", number_change(2, 3)),
            FieldChange {
                name: "2".to_string(),
                headers: vec![],
                content: FieldContentChange::New(Value::Number(4))
            },
        ]))
    );
}

#[test]
fn entries_follow_the_order_of_index_texts() {
    let logger = DiffLogger::new();
    let prev: Vec<Value> = (0..11).map(Value::Number).collect();
    let next: Vec<Value> = (0..11).map(|x| Value::Number(x + 100)).collect();
    let change = Value::Array(prev).diff_value(&Value::Array(next), &logger);
    let names: Vec<String> = match change {
        Some(ValueChange::Entries(es)) => es.into_iter().map(|e| e.name).collect(),
        _ => vec![],
    };
    assert_eq!(names, vec!["0", "1", "10", "2", "3", "4", "5", "6", "7", "8", "9"]);
}

#[test]
fn changed_fields_are_exactly_those_that_differ() {
    let logger = DiffLogger::new().set_header("hidden", false);
    let prev = obj(vec![
        ("both_same", Value::Number(1)),
        ("both_changed", Value::Number(1)),
        ("hidden", Value::Number(1)),
        ("only_old", Value::Number(1)),
    ]);
    let next = obj(vec![
        ("both_same", Value::Number(1)),
        ("both_changed", Value::Number(2)),
        ("hidden", Value::Number(2)),
        ("only_new", Value::Number(1)),
    ]);
    let names: Vec<String> = match prev.diff_value(&next, &logger) {
        Some(ValueChange::Entries(es)) => es.into_iter().map(|e| e.name).collect(),
        _ => vec![],
    };
    assert_eq!(names, vec!["both_changed", "only_new", "only_old"]);
}

#[test]
fn registration_order_does_not_matter() {
    let prev = obj(vec![(
        "state",
        obj(vec![("a", Value::Number(1)), ("b", Value::Bool(true)), ("value", Value::Number(1))]),
    )]);
    let next = obj(vec![(
        "state",
        obj(vec![("a", Value::Number(2)), ("b", Value::Bool(false)), ("value", Value::Number(2))]),
    )]);
    let one = DiffLogger::new().set_header("b", false).set_header("a", false);
    let other = DiffLogger::new().set_header("a", true).set_header("b", false).set_header("a", false);
    let expected = Some(object(vec![FieldChange {
        name: "state".to_string(),
        headers: vec![
            Header { name: "a".to_string(), content: number_change(1, 2) },
            Header { name: "b".to_string(), content: ValueChange::Bool(Change { before: true, after: false }) },
        ],
        content: FieldContentChange::Diff(object(vec![field("value", number_change(1, 2))])),
    }]));
    assert_eq!(prev.diff_value(&next, &one), expected);
    assert_eq!(prev.diff_value(&next, &other), expected);
    assert_eq!(prev.diff_value(&next, &one.clone()), expected);
}

#[test]
fn all_keys_is_the_ordered_union() {
    let old = vec![
        Field { name: "a".to_string(), value: Value::Null },
        Field { name: "c".to_string(), value: Value::Null },
        Field { name: "d".to_string(), value: Value::Null },
    ];
    let new = vec![
        Field { name: "b".to_string(), value: Value::Null },
        Field { name: "c".to_string(), value: Value::Bool(true) },
        Field { name: "e".to_string(), value: Value::Null },
    ];
    assert_eq!(all_keys(&old, &new), vec!["a", "b", "c", "d", "e"]);
    assert_eq!(all_keys(&old, &vec![]), vec!["a", "c", "d"]);
    assert_eq!(all_keys(&vec![], &vec![]), Vec::<String>::new());
}

#[test]
fn well_formed_trees_have_ordered_objects() {
    let good = obj(vec![("b", Value::Array(vec![obj(vec![("y", Value::Null), ("x", Value::Null)])])), ("a", Value::Null)]);
    assert!(good.is_well_formed());
    let unordered = Value::Object(vec![
        Field { name: "b".to_string(), value: Value::Null },
        Field { name: "a".to_string(), value: Value::Null },
    ]);
    assert!(!unordered.is_well_formed());
    let twice = Value::Object(vec![
        Field { name: "a".to_string(), value: Value::Null },
        Field { name: "a".to_string(), value: Value::Null },
    ]);
    assert!(!twice.is_well_formed());
    assert!(!Value::Array(vec![Value::Null, unordered.copy()]).is_well_formed());
    assert!(!obj(vec![("k", unordered)]).is_well_formed());
    assert!(Value::Number(1).is_well_formed());
    assert!(fields_ordered(&vec![]));
    let items: Vec<Value> = (0..25).map(|_| Value::Null).collect();
    assert!(fields_ordered(&to_field_map(&items)));
}

#[test]
fn added_and_removed_fields_carry_their_headers() {
    let logger = DiffLogger::new().set_header("h", true);
    let empty = obj(vec![]);
    let full = obj(vec![("k", obj(vec![("h", Value::Number(1))])), ("plain", Value::Number(7))]);
    assert_eq!(
        empty.diff_value(&full, &logger),
        Some(object(vec![
            FieldChange {
                name: "k".to_string(),
                headers: vec![Header {
                    name: "h".to_string(),
                    content: ValueChange::Value(Change { before: Value::Null, after: Value::Number(1) })
                }],
                content: FieldContentChange::New(obj(vec![("h", Value::Number(1))])),
            },
            FieldChange {
                name: "plain".to_string(),
                headers: vec![],
                content: FieldContentChange::New(Value::Number(7))
            },
        ]))
    );
    assert_eq!(
        full.diff_value(&empty, &logger),
        Some(object(vec![
            FieldChange {
                name: "k".to_string(),
                headers: vec![Header {
                    name: "h".to_string(),
                    content: ValueChange::Value(Change { before: Value::Number(1), after: Value::Null })
                }],
                content: FieldContentChange::Deleted(obj(vec![("h", Value::Number(1))])),
            },
            FieldChange {
                name: "plain".to_string(),
                headers: vec![],
                content: FieldContentChange::Deleted(Value::Number(7))
            },
        ]))
    );
    let items = Value::Array(vec![obj(vec![("h", Value::Null)])]);
    let longer = Value::Array(vec![obj(vec![("h", Value::Null)]), obj(vec![("h", Value::Bool(true))])]);
    assert_eq!(
        items.diff_value(&longer, &logger),
        Some(object(vec![FieldChange {
            name: "1".to_string(),
            headers: vec![Header {
                name: "h".to_string(),
                content: ValueChange::Value(Change { before: Value::Null, after: Value::Bool(true) })
            }],
            content: FieldContentChange::New(obj(vec![("h", Value::Bool(true))])),
        }]))
    );
}

#[test]
fn hidden_names_are_dropped_from_any_list() {
    let options = DiffLogger::new().set_header("timestamp", true).set_header("secret", false);
    let stamp = FieldChange {
        name: "timestamp".to_string(),
        headers: vec![Header { name: "secret".to_string(), content: number_change(1, 2) }],
        content: FieldContentChange::Deleted(Value::Number(3)),
    };
    let fields = vec![
        field("zeta", number_change(1, 2)),
        field("secret", number_change(1, 2)),
        stamp.clone(),
        field("secret", ValueChange::Bool(Change { before: true, after: false })),
        field("alpha", number_change(3, 4)),
    ];
    let result = drop_headers(fields, &options);
    assert_eq!(result, vec![field("zeta", number_change(1, 2)), stamp, field("alpha", number_change(3, 4))]);
    assert!(result.iter().all(|f| options.field_visibility(&f.name)));
    assert_eq!(drop_headers(vec![], &options), vec![]);
    assert_eq!(drop_headers(vec![field("secret", number_change(1, 2))], &options), vec![]);
    let open = DiffLogger::new();
    assert_eq!(
        drop_headers(vec![field("secret", number_change(1, 2))], &open),
        vec![field("secret", number_change(1, 2))]
    );
}
