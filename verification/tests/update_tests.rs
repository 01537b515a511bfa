use admin_core::form::{
    ExpressionValue, Field, FieldType, FormData, FormValue, IfThen, Schema, SchemaType,
};
use admin_core::update::UpdateSettings;

fn list_form(fields: Vec<Field>, is_update: bool, values: Vec<(String, FormValue)>) -> FormData {
    FormData { schema: Schema { typ: SchemaType::List, fields }, is_update, values }
}

#[test]
fn array_of_three_gets_padded_indices() {
    let form = list_form(
        Vec::new(),
        false,
        vec![(
            "k".to_string(),
            FormValue::Array(vec!["a".to_string(), "b".to_string(), "c".to_string()]),
        )],
    );
    let updates = form.build_update();
    assert_eq!(
        updates,
        vec![UpdateSettings::Insert {
            prefix: None,
            values: vec![
                ("k.0".to_string(), "a".to_string()),
                ("k.1".to_string(), "b".to_string()),
                ("k.2".to_string(), "c".to_string()),
            ],
            assert_empty: false,
        }]
    );
}

#[test]
fn singleton_array_keeps_bare_key() {
    let form = list_form(
        Vec::new(),
        false,
        vec![("k".to_string(), FormValue::Array(vec!["x".to_string()]))],
    );
    let updates = form.build_update();
    assert_eq!(
        updates,
        vec![UpdateSettings::Insert {
            prefix: None,
            values: vec![("k".to_string(), "x".to_string())],
            assert_empty: false,
        }]
    );
}

#[test]
fn list_update_clears_and_deletes_empty_multivalue() {
    let form = list_form(
        vec![Field { id: "tags".to_string(), typ: FieldType::Array, multivalue: true }],
        true,
        Vec::new(),
    );
    let updates = form.build_update();
    assert_eq!(
        updates,
        vec![
            UpdateSettings::Clear { prefix: "tags.".to_string(), filter: None },
            UpdateSettings::Delete { keys: vec!["tags".to_string()] },
        ]
    );
}

#[test]
fn entry_short_circuits_to_single_insert() {
    let form = FormData {
        schema: Schema {
            typ: SchemaType::Entry { prefix: "queue".to_string() },
            fields: Vec::new(),
        },
        is_update: false,
        values: vec![
            ("_id".to_string(), FormValue::Value("route1".to_string())),
            ("_value".to_string(), FormValue::Value("relay".to_string())),
            ("ignored".to_string(), FormValue::Value("x".to_string())),
        ],
    };
    let updates = form.build_update();
    assert_eq!(
        updates,
        vec![UpdateSettings::Insert {
            prefix: None,
            values: vec![("queue.route1".to_string(), "relay".to_string())],
            assert_empty: true,
        }]
    );
}

#[test]
fn record_update_clears_stale_subfields_first() {
    let form = FormData {
        schema: Schema {
            typ: SchemaType::Record { prefix: "server".to_string() },
            fields: Vec::new(),
        },
        is_update: true,
        values: vec![
            ("_id".to_string(), FormValue::Value("s1".to_string())),
            ("host".to_string(), FormValue::Value("example.org".to_string())),
        ],
    };
    let updates = form.build_update();
    assert_eq!(
        updates,
        vec![
            UpdateSettings::Clear { prefix: "server.s1.".to_string(), filter: None },
            UpdateSettings::Insert {
                prefix: Some("server.s1".to_string()),
                values: vec![("host".to_string(), "example.org".to_string())],
                assert_empty: false,
            },
        ]
    );
}

#[test]
fn record_create_asserts_empty() {
    let form = FormData {
        schema: Schema {
            typ: SchemaType::Record { prefix: "server".to_string() },
            fields: Vec::new(),
        },
        is_update: false,
        values: vec![
            ("_id".to_string(), FormValue::Value("s2".to_string())),
            ("host".to_string(), FormValue::Value("example.net".to_string())),
        ],
    };
    let updates = form.build_update();
    assert_eq!(
        updates,
        vec![UpdateSettings::Insert {
            prefix: Some("server.s2".to_string()),
            values: vec![("host".to_string(), "example.net".to_string())],
            assert_empty: true,
        }]
    );
}

#[test]
fn expression_arms_share_one_pad_width_and_trailing_else() {
    let form = list_form(
        Vec::new(),
        false,
        vec![(
            "rule".to_string(),
            FormValue::Expression(ExpressionValue {
                if_thens: vec![
                    IfThen { if_: "a".to_string(), then_: "b".to_string() },
                    IfThen { if_: "c".to_string(), then_: "d".to_string() },
                ],
                else_: "e".to_string(),
            }),
        )],
    );
    let updates = form.build_update();
    assert_eq!(
        updates,
        vec![UpdateSettings::Insert {
            prefix: None,
            values: vec![
                ("rule.0.if".to_string(), "a".to_string()),
                ("rule.0.then".to_string(), "b".to_string()),
                ("rule.1.if".to_string(), "c".to_string()),
                ("rule.1.then".to_string(), "d".to_string()),
                ("rule.2.else".to_string(), "e".to_string()),
            ],
            assert_empty: false,
        }]
    );
}

#[test]
fn expression_without_arms_keeps_bare_key() {
    let form = list_form(
        Vec::new(),
        false,
        vec![(
            "rule".to_string(),
            FormValue::Expression(ExpressionValue {
                if_thens: Vec::new(),
                else_: "e".to_string(),
            }),
        )],
    );
    let updates = form.build_update();
    assert_eq!(
        updates,
        vec![UpdateSettings::Insert {
            prefix: None,
            values: vec![("rule".to_string(), "e".to_string())],
            assert_empty: false,
        }]
    );
}

#[test]
fn empty_values_and_internal_keys_are_dropped() {
    let form = list_form(
        Vec::new(),
        false,
        vec![
            ("_id".to_string(), FormValue::Value("hidden".to_string())),
            ("a".to_string(), FormValue::Value(String::new())),
            ("b".to_string(), FormValue::Array(Vec::new())),
        ],
    );
    let updates = form.build_update();
    assert_eq!(updates, Vec::new());
}

#[test]
fn eleven_element_array_pads_to_two_digits() {
    let vals: Vec<String> = (0..11).map(|i| format!("v{}", i)).collect();
    let form = list_form(
        Vec::new(),
        false,
        vec![("k".to_string(), FormValue::Array(vals))],
    );
    let updates = form.build_update();
    match &updates[0] {
        UpdateSettings::Insert { values, .. } => {
            assert_eq!(values[0].0, "k.00");
            assert_eq!(values[10].0, "k.10");
        }
        other => panic!("expected an insert, got {:?}", other),
    }
}
