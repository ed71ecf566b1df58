use seekx::ui::{layer_margins, WINDOW_WIDTH, highlight_len, next_selection, query_kind, should_reveal, web_search_label, QueryKind};

#[test]
fn query_kinds() {
    assert_eq!(query_kind("//notes"), QueryKind::Files);
    assert_eq!(query_kind("///x"), QueryKind::Files);
    assert_eq!(query_kind("/docs"), QueryKind::Folders);
    assert_eq!(query_kind("  /docs"), QueryKind::Folders);
    assert_eq!(query_kind("firefox"), QueryKind::Apps);
    assert_eq!(query_kind("a/b"), QueryKind::Apps);
    assert_eq!(query_kind(""), QueryKind::Apps);
}

#[test]
fn web_search_labels() {
    assert_eq!(web_search_label(""), "Browse web");
    assert_eq!(web_search_label("rust"), "Search web for 'rust'");
}

#[test]
fn reveal_needs_query_and_results() {
    assert!(should_reveal("a", 1));
    assert!(!should_reveal("   ", 3));
    assert!(!should_reveal("a", 0));
}

#[test]
fn selection_stays_within_rows() {
    assert_eq!(next_selection(0, 1, 3), Some(1));
    assert_eq!(next_selection(2, 1, 3), Some(2));
    assert_eq!(next_selection(0, -1, 3), Some(0));
    assert_eq!(next_selection(5, -1, 3), Some(2));
    assert_eq!(next_selection(1, 1, 0), None);
}

#[test]
fn highlight_covers_a_case_insensitive_prefix() {
    assert_eq!(highlight_len("Firefox", "fi"), Some(2));
    assert_eq!(highlight_len("Firefox", "FIREFOX"), Some(7));
    assert_eq!(highlight_len("Firefox", ""), None);
    assert_eq!(highlight_len("Firefox", "fox"), None);
    assert_eq!(highlight_len("Écran", "é"), Some(2));
}

#[test]
fn overlay_margins_centre_the_window() {
    assert_eq!(WINDOW_WIDTH, 580);
    assert_eq!(layer_margins(1920, 1080), (670, 360));
    assert_eq!(layer_margins(581, 2), (0, 0));
    assert_eq!(layer_margins(500, -3), (0, 0));
    assert_eq!(layer_margins(583, 7), (1, 2));
}
