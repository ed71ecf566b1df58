use seekx::browser::{
    browser_command, build_search_url, build_search_url_from_template, executable_name,
    filter_field_codes, looks_like_url, normalize_url, parse_exec, DEFAULT_SEARCH_URL_TEMPLATE,
};

fn strings(v: &[&str]) -> Vec<String> {
    v.iter().map(|s| s.to_string()).collect()
}

#[test]
fn launcher_default_web_search_url_is_used_when_env_missing() {
    let url = build_search_url("hello world", None);
    assert_eq!(url, "https://duckduckgo.com/?q=hello%20world");
}

#[test]
fn launcher_env_template_overrides_default() {
    let url = build_search_url("rust lang", Some("https://example.com/search?q={query}"));
    assert_eq!(url, "https://example.com/search?q=rust%20lang");
}

#[test]
fn default_template_is_duckduckgo() {
    assert_eq!(DEFAULT_SEARCH_URL_TEMPLATE, "https://duckduckgo.com/?q={query}");
}

#[test]
fn percent_s_placeholder_is_replaced() {
    assert_eq!(
        build_search_url("a b", Some("https://s.example/?q=%s")),
        "https://s.example/?q=a%20b"
    );
}

#[test]
fn every_placeholder_is_replaced() {
    assert_eq!(
        build_search_url("x", Some("https://s.example/{query}/{query}")),
        "https://s.example/x/x"
    );
}

#[test]
fn query_placeholder_wins_over_percent_s() {
    assert_eq!(
        build_search_url("x", Some("https://s.example/?a=%s&q={query}")),
        "https://s.example/?a=%s&q=x"
    );
}

#[test]
fn template_without_placeholder_gets_query_appended() {
    assert_eq!(
        build_search_url("rust", Some("https://s.example/?q=")),
        "https://s.example/?q=rust"
    );
    assert_eq!(
        build_search_url_from_template("rust", "https://s.example/?q="),
        Some("https://s.example/?q=rust".to_string())
    );
}

#[test]
fn query_is_percent_encoded() {
    assert_eq!(
        build_search_url("café & co=1", None),
        "https://duckduckgo.com/?q=caf%C3%A9%20%26%20co%3D1"
    );
    assert_eq!(build_search_url("a-b._~c", None), "https://duckduckgo.com/?q=a-b._~c");
    assert_eq!(build_search_url("a/b?c", None), "https://duckduckgo.com/?q=a%2Fb%3Fc");
}

#[test]
fn addresses_are_recognised() {
    assert!(looks_like_url("google.com"));
    assert!(looks_like_url("github.com/rust-lang"));
    assert!(looks_like_url("http://x"));
    assert!(looks_like_url("HTTPS://EXAMPLE"));
    assert!(looks_like_url("www.example"));
    assert!(looks_like_url("localhost"));
    assert!(looks_like_url("LocalHost:8080"));
    assert!(looks_like_url("127.0.0.1"));
    assert!(looks_like_url("10:22"));
}

#[test]
fn other_text_is_no_address() {
    assert!(!looks_like_url(""));
    assert!(!looks_like_url("hello world"));
    assert!(!looks_like_url("google.com search"));
    assert!(!looks_like_url("hello"));
    assert!(!looks_like_url(".hidden"));
    assert!(!looks_like_url("localhostx"));
    assert!(!looks_like_url("123"));
}

#[test]
fn normalize_adds_https_when_no_scheme() {
    assert_eq!(normalize_url("google.com"), "https://google.com");
    assert_eq!(normalize_url("  www.example.org "), "https://www.example.org");
    assert_eq!(normalize_url("localhost:3000"), "https://localhost:3000");
}

#[test]
fn normalize_keeps_existing_scheme() {
    assert_eq!(normalize_url(" http://a.example "), "http://a.example");
    assert_eq!(normalize_url("HTTPS://A.EXAMPLE"), "HTTPS://A.EXAMPLE");
}

#[test]
fn normalize_is_idempotent_on_example() {
    let once = normalize_url("example.com/x");
    assert_eq!(normalize_url(&once), once);
}

#[test]
fn exec_field_codes_are_dropped() {
    assert_eq!(parse_exec("firefox %u"), strings(&["firefox"]));
    assert_eq!(parse_exec("code --new-window %F"), strings(&["code", "--new-window"]));
    assert_eq!(parse_exec("app %x --flag %% %"), strings(&["app", "--flag"]));
}

#[test]
fn exec_quoting_is_honoured() {
    assert_eq!(
        parse_exec("\"/opt/My App/run\" --name 'a b'"),
        strings(&["/opt/My App/run", "--name", "a b"])
    );
    assert_eq!(parse_exec("env A=1 prog"), strings(&["env", "A=1", "prog"]));
}

#[test]
fn exec_with_unbalanced_quotes_gives_nothing() {
    assert!(parse_exec("echo \"unclosed").is_empty());
    assert!(parse_exec("").is_empty());
}

#[test]
fn filter_field_codes_keeps_other_words() {
    assert_eq!(
        filter_field_codes(strings(&["a", "%f", "%x", "b", "%"])),
        strings(&["a", "b"])
    );
}

#[test]
fn browser_command_adds_new_window_and_url() {
    let contents = "[Desktop Entry]\nName=Firefox\nExec=firefox %u\n";
    assert_eq!(
        browser_command(contents, "https://a.example"),
        Some(strings(&["firefox", "--new-window", "https://a.example"]))
    );
}

#[test]
fn browser_command_keeps_existing_new_window() {
    let contents = "[Desktop Entry]\nExec=chromium --new-window %U\n";
    assert_eq!(
        browser_command(contents, "https://a.example"),
        Some(strings(&["chromium", "--new-window", "https://a.example"]))
    );
}

#[test]
fn browser_command_skips_empty_exec_lines() {
    let contents = "Exec=%u\nExec=brave\n";
    assert_eq!(
        browser_command(contents, "u"),
        Some(strings(&["brave", "--new-window", "u"]))
    );
}

#[test]
fn browser_command_without_exec_gives_none() {
    assert_eq!(browser_command("[Desktop Entry]\nName=X\n", "u"), None);
    assert_eq!(browser_command("  Exec=indented\n", "u"), None);
}

#[test]
fn executable_names() {
    assert_eq!(executable_name("/usr/bin/firefox"), "firefox");
    assert_eq!(executable_name("firefox"), "firefox");
    assert_eq!(executable_name("/usr/bin/"), "bin");
    assert_eq!(executable_name("a/./"), "a");
    assert_eq!(executable_name("/usr/.."), "/usr/..");
    assert_eq!(executable_name("/"), "/");
    assert_eq!(executable_name(""), "");
}
