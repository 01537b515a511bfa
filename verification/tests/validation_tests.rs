use admin_core::layout::{LayoutConfig, MAX_TITLE_LENGTH};
use admin_core::validation::{
    sanitize_input, validate_file_size, validate_file_type, validate_title_length, validate_url,
};

#[test]
fn test_validate_url() {
    assert!(validate_url("https://example.com"));
    assert!(validate_url("http://example.com/path"));
    assert!(validate_url("data:image/png;base64,abc123"));
    assert!(!validate_url("invalid-url"));
    assert!(!validate_url("javascript:alert(1)"));
}

#[test]
fn test_sanitize_input() {
    assert_eq!(
        sanitize_input("<script>alert(1)</script>"),
        "&lt;script&gt;alert(1)&lt;/script&gt;"
    );
    assert_eq!(sanitize_input("Hello & World"), "Hello &amp; World");
}

#[test]
fn test_validate_file_type() {
    assert!(validate_file_type("image/jpeg"));
    assert!(validate_file_type("image/png"));
    assert!(validate_file_type("image/svg+xml"));
    assert!(validate_file_type("image/gif"));
    assert!(!validate_file_type("application/pdf"));
}

#[test]
fn test_validate_file_size() {
    assert!(validate_file_size(1024, 2048));
    assert!(!validate_file_size(2048, 1024));
}

#[test]
fn test_validate_title_length() {
    assert!(validate_title_length("Short title", 20));
    assert!(!validate_title_length(
        "This is a very long title that exceeds the maximum length",
        20
    ));
}

#[test]
fn default_layout_holds_builtin_logo_and_title() {
    let config = LayoutConfig::default();
    assert_eq!(config.logo_url, "/logo.svg");
    assert_eq!(config.title, "Stalwart Management");
}

#[test]
fn layout_accepts_absolute_url_logo() {
    let config = LayoutConfig {
        logo_url: "https://example.com/logo.svg".to_string(),
        title: "Console".to_string(),
    };
    assert!(config.validate().is_ok());
}

#[test]
fn layout_rejects_empty_title() {
    let config = LayoutConfig { logo_url: "/logo.svg".to_string(), title: String::new() };
    assert_eq!(config.validate(), Err("Title cannot be empty".to_string()));
}

#[test]
fn layout_rejects_over_long_title() {
    let config = LayoutConfig {
        logo_url: "/logo.svg".to_string(),
        title: "t".repeat(MAX_TITLE_LENGTH + 1),
    };
    assert_eq!(config.validate(), Err("Title must be less than 100 characters".to_string()));
}

#[test]
fn layout_rejects_malformed_logo_url() {
    let config = LayoutConfig { logo_url: "not a url".to_string(), title: "Console".to_string() };
    assert_eq!(config.validate(), Err("Invalid logo URL".to_string()));
}

#[test]
fn layout_accepts_empty_logo_url() {
    let config = LayoutConfig { logo_url: String::new(), title: "Console".to_string() };
    assert!(config.validate().is_ok());
}
