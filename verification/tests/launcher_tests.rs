use seekx::application::{Activation, Launcher};
use seekx::browser::build_search_url;
use seekx::domain::DesktopApp;
use seekx::file_index::{FileIndex, FolderEntry, FsEvent, FsEventKind, PathInfo};
use seekx::settings::search_template_from;
use seekx::ui::{ResultItem, RESULT_LIMIT};

fn app(name: &str, exec: &str, terms: &[&str]) -> DesktopApp {
    let search_terms: Vec<String> = terms.iter().map(|t| t.to_string()).collect();
    let normalized_terms: Vec<String> = terms
        .iter()
        .map(|t| t.chars().filter(|c| c.is_ascii_alphanumeric()).collect())
        .collect();
    DesktopApp {
        name: name.to_string(),
        exec_line: exec.to_string(),
        icon: None,
        search_terms,
        normalized_terms,
    }
}

fn sample_apps() -> Vec<DesktopApp> {
    vec![
        app("Firefox", "firefox %u", &["firefox", "web browser"]),
        app("Files", "nautilus --new-window %U", &["files", "file manager"]),
        app("Terminal", "gnome-terminal", &["terminal", "shell"]),
        app("GIMP", "gimp %f", &["gimp", "image editor"]),
    ]
}

fn launcher() -> Launcher {
    Launcher::new(
        sample_apps(),
        FileIndex::new(vec![("report.pdf".to_string(), "/h/report.pdf".to_string())]),
        None,
    )
}

fn names(items: &[ResultItem]) -> Vec<String> {
    items
        .iter()
        .map(|i| match i {
            ResultItem::App(r) => r.app.name.clone(),
            ResultItem::Folder { name, .. } => format!("folder:{name}"),
            ResultItem::File { name, .. } => format!("file:{name}"),
            ResultItem::WebSearch { query } => format!("web:{query}"),
        })
        .collect()
}

#[test]
fn mod_default_web_search_url_is_used_when_env_missing() {
    let template = search_template_from(None).unwrap();
    let launcher = Launcher::new(vec![], FileIndex::new(vec![]), template);
    assert!(launcher.search_template().is_none());
    assert_eq!(
        build_search_url("hello world", None),
        "https://duckduckgo.com/?q=hello%20world"
    );
}

#[test]
fn mod_env_template_overrides_default() {
    let template = search_template_from(Some("https://example.com/search?q={query}")).unwrap();
    let launcher = Launcher::new(vec![], FileIndex::new(vec![]), template);
    assert_eq!(
        build_search_url("rust lang", launcher.search_template()),
        "https://example.com/search?q=rust%20lang"
    );
}

#[test]
fn app_count_counts_apps() {
    assert_eq!(launcher().app_count(), 4);
    assert_eq!(Launcher::new(vec![], FileIndex::new(vec![]), None).app_count(), 0);
}

#[test]
fn rank_orders_by_score_then_name() {
    let l = launcher();
    let r = l.rank("fi", 9);
    let got: Vec<&str> = r.iter().map(|x| x.app.name.as_str()).collect();
    // Both start with "fi" in their first term (4000); "files" sorts before "firefox".
    assert_eq!(got, vec!["Files", "Firefox"]);
    assert_eq!(r[0].score, 4000);
    assert_eq!(r[0].match_idx, 0);
}

#[test]
fn rank_prefers_higher_scores() {
    let l = launcher();
    let r = l.rank("e", 9);
    let got: Vec<(&str, i64)> = r.iter().map(|x| (x.app.name.as_str(), x.score)).collect();
    // "e" at byte 1 of "terminal" (3999), byte 3 of "files" (3997), byte 3 of
    // "firefox" (3997), and in GIMP only in its second term "image editor" at byte 4
    // (2996).
    assert_eq!(got, vec![("Terminal", 3999), ("Files", 3997), ("Firefox", 3997), ("GIMP", 2996)]);
}

#[test]
fn rank_uses_later_terms() {
    let l = launcher();
    let r = l.rank("browser", 9);
    assert_eq!(r.len(), 1);
    assert_eq!(r[0].app.name, "Firefox");
    assert_eq!(r[0].score, 2996);
    assert_eq!(r[0].match_idx, 1);
}

#[test]
fn rank_truncates_to_limit() {
    let l = launcher();
    assert_eq!(l.rank("e", 2).len(), 2);
    assert!(l.rank("e", 0).is_empty());
}

#[test]
fn blank_query_lists_apps_in_order() {
    let l = launcher();
    let r = l.rank("   ", 3);
    let got: Vec<&str> = r.iter().map(|x| x.app.name.as_str()).collect();
    assert_eq!(got, vec!["Firefox", "Files", "Terminal"]);
    assert!(r.iter().all(|x| x.score == 0 && x.match_idx == 0));
}

#[test]
fn unmatched_query_ranks_nothing() {
    assert!(launcher().rank("qqq", 9).is_empty());
}

#[test]
fn app_results_end_with_web_search() {
    let l = launcher();
    assert_eq!(names(&l.app_results("  fi  ", 9)), vec!["Files", "Firefox", "web:fi"]);
    assert_eq!(names(&l.app_results("qqq", 9)), vec!["web:qqq"]);
    assert_eq!(names(&l.app_results("e", 3)), vec!["Terminal", "Files", "web:e"]);
    assert_eq!(names(&l.app_results("e", 1)), vec!["web:e"]);
    assert_eq!(names(&l.app_results("e", 0)), vec!["web:e"]);
}

#[test]
fn results_dispatch_on_leading_slashes() {
    let l = launcher();
    let entries = vec![FolderEntry {
        name: Some("Documents".to_string()),
        path: "/h/Documents".to_string(),
        is_dir: true,
    }];
    assert_eq!(names(&l.results(" //rep", &entries)), vec!["file:report.pdf", "web://rep"]);
    assert_eq!(names(&l.results("/doc", &entries)), vec!["folder:Documents", "web:/doc"]);
    assert_eq!(names(&l.results("gimp", &entries)), vec!["GIMP", "web:gimp"]);
    assert_eq!(RESULT_LIMIT, 9);
}

#[test]
fn web_search_targets() {
    let l = launcher();
    assert_eq!(l.web_search("   "), None);
    assert_eq!(l.web_search(" github.com "), Some("https://github.com".to_string()));
    assert_eq!(l.web_search("http://a.example"), Some("http://a.example".to_string()));
    assert_eq!(
        l.web_search(" rust lang "),
        Some("https://duckduckgo.com/?q=rust%20lang".to_string())
    );
    let with_template = Launcher::new(vec![], FileIndex::new(vec![]), Some("https://s.example/?q=%s".to_string()));
    assert_eq!(
        with_template.web_search("rust lang"),
        Some("https://s.example/?q=rust%20lang".to_string())
    );
    assert_eq!(with_template.search_template(), Some("https://s.example/?q=%s"));
}

#[test]
fn activation_of_each_entry() {
    let l = launcher();
    let r = l.app_results("firefox", 9);
    match l.activate(&r[0]) {
        Activation::Launch { argv } => assert_eq!(argv, vec!["firefox".to_string()]),
        _ => panic!("expected a launch"),
    }
    match l.activate(r.last().unwrap()) {
        Activation::Browse { url } => {
            assert_eq!(url, Some("https://duckduckgo.com/?q=firefox".to_string()))
        }
        _ => panic!("expected a browse"),
    }
    let file = ResultItem::File { name: "a".to_string(), path: "/h/a".to_string() };
    match l.activate(&file) {
        Activation::Open { path } => assert_eq!(path, "/h/a"),
        _ => panic!("expected an open"),
    }
    let folder = ResultItem::Folder { name: "d".to_string(), path: "/h/d".to_string() };
    match l.activate(&folder) {
        Activation::Open { path } => assert_eq!(path, "/h/d"),
        _ => panic!("expected an open"),
    }
    let blank = ResultItem::WebSearch { query: " ".to_string() };
    match l.activate(&blank) {
        Activation::Browse { url } => assert_eq!(url, None),
        _ => panic!("expected a browse"),
    }
}

#[test]
fn file_events_reach_the_launcher_index() {
    let mut l = launcher();
    let info = PathInfo {
        path: "/h/plan.txt".to_string(),
        name: Some("plan.txt".to_string()),
        is_file: true,
        exists: true,
        components: vec!["h".to_string(), "plan.txt".to_string()],
    };
    l.handle_file_event(&FsEvent { kind: FsEventKind::Create, paths: vec![info] });
    assert_eq!(names(&l.rank_files("//plan", 9)), vec!["file:plan.txt"]);
    assert_eq!(l.app_count(), 4);
}

#[test]
fn ranking_is_repeatable() {
    let l = launcher();
    let a: Vec<String> = l.rank("e", 9).iter().map(|r| r.app.name.clone()).collect();
    let b: Vec<String> = l.rank("e", 9).iter().map(|r| r.app.name.clone()).collect();
    assert_eq!(a, b);
}

#[test]
fn equal_keys_keep_installed_order() {
    let apps = vec![
        app("Twin", "twin --one", &["twin"]),
        app("twin", "twin --two", &["twin"]),
    ];
    let l = Launcher::new(apps, FileIndex::new(vec![]), None);
    let r = l.rank("tw", 9);
    assert_eq!(r[0].app.exec_line, "twin --one");
    assert_eq!(r[1].app.exec_line, "twin --two");
}

#[test]
fn every_query_offers_web_search() {
    let files: Vec<(String, String)> = (0..12)
        .map(|i| (format!("a{i}.txt"), format!("/h/a{i}.txt")))
        .collect();
    let l = Launcher::new(sample_apps(), FileIndex::new(files), None);
    let entries: Vec<FolderEntry> = (0..12)
        .map(|i| FolderEntry { name: Some(format!("a{i}")), path: format!("/h/a{i}"), is_dir: true })
        .collect();
    for q in ["//a", "/a", "e", "", "//nothing", "  /a  "] {
        let r = l.results(q, &entries);
        assert!(r.len() <= RESULT_LIMIT + 1);
        match r.last() {
            Some(ResultItem::WebSearch { query }) => assert_eq!(query, q.trim()),
            _ => panic!("no web search entry for {q:?}"),
        }
    }
    assert_eq!(l.results("//a", &entries).len(), RESULT_LIMIT + 1);
    assert_eq!(l.results("/a", &entries).len(), RESULT_LIMIT + 1);
    assert_eq!(l.results("e", &entries).len(), 4 + 1);
    assert!(l.results("", &entries).len() <= RESULT_LIMIT);
    assert_eq!(names(&l.results("//nothing", &entries)), vec!["web://nothing"]);
}

#[test]
fn web_search_entry_of_a_file_query_searches_the_query() {
    let l = launcher();
    let r = l.results("//rep", &vec![]);
    match l.activate(r.last().unwrap()) {
        Activation::Browse { url } => {
            assert_eq!(url, Some("https://duckduckgo.com/?q=%2F%2Frep".to_string()))
        }
        _ => panic!("expected a browse"),
    }
}

#[test]
fn folder_query_searches_the_named_directory() {
    let l = launcher();
    let usr = vec![
        FolderEntry { name: Some("local".to_string()), path: "/usr/local".to_string(), is_dir: true },
        FolderEntry { name: Some("lib".to_string()), path: "/usr/lib".to_string(), is_dir: true },
    ];
    assert_eq!(names(&l.results("/usr/LO", &usr)), vec!["folder:local", "web:/usr/LO"]);
    assert_eq!(names(&l.results("/usr/", &usr)), vec!["folder:local", "folder:lib", "web:/usr/"]);
}
