use admin_core::form::{Field, FieldType, SelectType, Source};
use admin_core::settings::{Settings, SettingsValues};

fn store(pairs: &[(&str, &str)]) -> Settings {
    let mut s = Settings::new();
    for (k, v) in pairs {
        s.insert(k.to_string(), v.to_string());
    }
    s
}

fn field(id: &str, typ: FieldType) -> Field {
    Field { id: id.to_string(), typ, multivalue: false }
}

#[test]
fn array_values_sorts_group_lexicographically() {
    let s = store(&[("k.0", "a"), ("k.1", "b"), ("k", "c")]);
    assert_eq!(s.array_values("k"), vec![("k", "c"), ("k.0", "a"), ("k.1", "b")]);
}

#[test]
fn array_values_ignores_unrelated_keys() {
    let s = store(&[("k.0", "a"), ("kx", "no"), ("other", "no"), ("k", "c")]);
    assert_eq!(s.array_values("k"), vec![("k", "c"), ("k.0", "a")]);
}

#[test]
fn format_size_renders_human_readable() {
    let s = store(&[("max-size", "1500000")]);
    let rendered = s.format(&field("max-size", FieldType::Size));
    assert_eq!(rendered, humansize::format_size(1500000u64, humansize::DECIMAL));
    assert!(!rendered.is_empty());
}

#[test]
fn format_size_degrades_to_empty() {
    let s = store(&[("max-size", "12x4")]);
    assert_eq!(s.format(&field("max-size", FieldType::Size)), "");
    assert_eq!(s.format(&field("absent", FieldType::Size)), "");
}

#[test]
fn format_boolean_is_yes_only_for_true() {
    let s = store(&[("on", "true"), ("off", "false")]);
    assert_eq!(s.format(&field("on", FieldType::Boolean)), "Yes");
    assert_eq!(s.format(&field("off", FieldType::Boolean)), "No");
    assert_eq!(s.format(&field("absent", FieldType::Boolean)), "No");
}

#[test]
fn format_select_uses_static_label_table() {
    let s = store(&[("mode", "remote"), ("stale", "zzz")]);
    let items = vec![
        ("local".to_string(), "Local".to_string()),
        ("remote".to_string(), "Remote".to_string()),
    ];
    let sel = FieldType::Select { source: Source::Static(items.clone()), typ: SelectType::Single };
    assert_eq!(s.format(&field("mode", sel.clone())), "Remote");
    assert_eq!(s.format(&field("stale", sel.clone())), "zzz");
    assert_eq!(s.format(&field("absent", sel)), "");
}

#[test]
fn format_array_renders_first_grouped_value() {
    let s = store(&[("k.1", "b"), ("k.0", "a")]);
    assert_eq!(s.format(&field("k", FieldType::Array)), "a");
    assert_eq!(s.format(&field("absent", FieldType::Array)), "");
}

#[test]
fn format_duration_renders_largest_even_unit() {
    let s = store(&[("ttl", "2h"), ("blink", "1500ms"), ("bad", "abc")]);
    assert_eq!(s.format(&field("ttl", FieldType::Duration)), "2h");
    assert_eq!(s.format(&field("blink", FieldType::Duration)), "1500ms");
    assert_eq!(s.format(&field("bad", FieldType::Duration)), "");
    assert_eq!(s.format(&field("absent", FieldType::Duration)), "");
}

#[test]
fn format_rate_renders_count_over_period() {
    let s = store(&[("limit", "100/1h"), ("bad", "100")]);
    assert_eq!(s.format(&field("limit", FieldType::Rate)), "100/1h");
    assert_eq!(s.format(&field("bad", FieldType::Rate)), "");
}

#[test]
fn format_text_passes_raw_value_through() {
    let s = store(&[("name", "mx1")]);
    assert_eq!(s.format(&field("name", FieldType::Text)), "mx1");
    assert_eq!(s.format(&field("absent", FieldType::Text)), "");
}
