use seekx::settings::{search_template_from, ConfigError};

#[test]
fn missing_value_gives_no_template() {
    assert_eq!(search_template_from(None), Ok(None));
}

#[test]
fn blank_value_gives_no_template() {
    assert_eq!(search_template_from(Some("   ")), Ok(None));
    assert_eq!(search_template_from(Some("")), Ok(None));
}

#[test]
fn value_with_placeholder_is_kept() {
    assert_eq!(
        search_template_from(Some("https://example.com/search?q={query}")),
        Ok(Some("https://example.com/search?q={query}".to_string()))
    );
    assert_eq!(
        search_template_from(Some("https://s.example/?q=%s")),
        Ok(Some("https://s.example/?q=%s".to_string()))
    );
}

#[test]
fn value_without_placeholder_is_kept_as_given() {
    assert_eq!(
        search_template_from(Some(" https://example.com/?q= ")),
        Ok(Some(" https://example.com/?q= ".to_string()))
    );
}

#[test]
fn config_error_message() {
    assert_eq!(
        ConfigError::InvalidSearchTemplate.message(),
        "invalid search template: missing query placeholder"
    );
}
