use seekx::file_index::{
    folder_query_dir, index_entry_allowed, is_ignored_dir_name, is_valid_file_info, FileIndex, FolderEntry, FsEvent,
    FsEventKind, PathInfo,
};
use seekx::ui::ResultItem;

fn pair(name: &str, path: &str) -> (String, String) {
    (name.to_string(), path.to_string())
}

fn sample() -> FileIndex {
    FileIndex::new(vec![
        pair("notes.txt", "/h/notes.txt"),
        pair("Report.PDF", "/h/docs/Report.PDF"),
        pair("tasks.md", "/h/tasks.md"),
    ])
}

fn file_info(path: &str, is_file: bool, exists: bool) -> PathInfo {
    let parts: Vec<String> = path
        .split('/')
        .filter(|c| !c.is_empty())
        .map(|c| c.to_string())
        .collect();
    PathInfo {
        path: path.to_string(),
        name: parts.last().cloned(),
        is_file,
        exists,
        components: parts,
    }
}

fn event(kind: FsEventKind, paths: Vec<PathInfo>) -> FsEvent {
    FsEvent { kind, paths }
}

fn file_paths(items: &[ResultItem]) -> Vec<String> {
    items
        .iter()
        .map(|i| match i {
            ResultItem::File { path, .. } => path.clone(),
            _ => panic!("not a file entry"),
        })
        .collect()
}

fn folder(name: Option<&str>, path: &str, is_dir: bool) -> FolderEntry {
    FolderEntry { name: name.map(|n| n.to_string()), path: path.to_string(), is_dir }
}

fn folder_names(items: &[ResultItem]) -> Vec<String> {
    items
        .iter()
        .map(|i| match i {
            ResultItem::Folder { name, .. } => name.clone(),
            _ => panic!("not a folder entry"),
        })
        .collect()
}

#[test]
fn ignored_directory_names() {
    for n in ["node_modules", "target", ".cache", ".git", ".local", ".npm", "venv", ".venv"] {
        assert!(is_ignored_dir_name(n));
        assert!(!index_entry_allowed(n));
    }
    assert!(!is_ignored_dir_name("docs"));
}

#[test]
fn walk_skips_hidden_entries() {
    assert!(!index_entry_allowed(".bashrc"));
    assert!(index_entry_allowed("docs"));
    assert!(index_entry_allowed("notes.txt"));
}

#[test]
fn valid_files() {
    assert!(is_valid_file_info(&file_info("/h/docs/a.txt", true, true)));
    assert!(!is_valid_file_info(&file_info("/h/docs", false, true)));
    assert!(!is_valid_file_info(&file_info("/h/.secret", true, true)));
    assert!(!is_valid_file_info(&file_info("/h/proj/node_modules/x.js", true, true)));
    assert!(!is_valid_file_info(&file_info("/h/proj/target/out", true, true)));
    let nameless = PathInfo {
        path: "/h/x".to_string(),
        name: None,
        is_file: true,
        exists: true,
        components: vec![],
    };
    assert!(!is_valid_file_info(&nameless));
}

#[test]
fn file_query_matches_lower_cased_names() {
    let idx = sample();
    assert_eq!(file_paths(&idx.rank_files("//rep", 9)), vec!["/h/docs/Report.PDF"]);
    assert_eq!(file_paths(&idx.rank_files("//NOTES", 9)), vec!["/h/notes.txt"]);
    assert!(idx.rank_files("//zzz", 9).is_empty());
}

#[test]
fn file_query_keeps_index_order_and_limit() {
    let idx = sample();
    assert_eq!(
        file_paths(&idx.rank_files("//", 9)),
        vec!["/h/notes.txt", "/h/docs/Report.PDF", "/h/tasks.md"]
    );
    assert_eq!(file_paths(&idx.rank_files("//", 2)), vec!["/h/notes.txt", "/h/docs/Report.PDF"]);
    assert_eq!(file_paths(&idx.rank_files("////ta", 9)), vec!["/h/tasks.md"]);
}

#[test]
fn file_query_with_limit_zero_gives_one() {
    let idx = sample();
    assert_eq!(file_paths(&idx.rank_files("//t", 0)), vec!["/h/notes.txt"]);
    assert!(idx.rank_files("//zzz", 0).is_empty());
}

#[test]
fn folder_query_lists_matching_directories() {
    let idx = FileIndex::new(vec![]);
    let entries = vec![
        folder(Some("Documents"), "/h/Documents", true),
        folder(Some("dotfile.txt"), "/h/dotfile.txt", false),
        folder(None, "/h/bad", true),
        folder(Some("Downloads"), "/h/Downloads", true),
        folder(Some("Music"), "/h/Music", true),
    ];
    assert_eq!(folder_names(&idx.rank_folders("/do", &entries, 9)), vec!["Documents", "Downloads"]);
    assert_eq!(folder_names(&idx.rank_folders("/DOWN", &entries, 9)), vec!["Downloads"]);
    assert_eq!(folder_names(&idx.rank_folders("/do", &entries, 1)), vec!["Documents"]);
    assert_eq!(folder_names(&idx.rank_folders("/", &entries, 9)).len(), 3);
}

#[test]
fn folder_query_with_limit_zero_looks_at_first_entry_only() {
    let idx = FileIndex::new(vec![]);
    let entries = vec![
        folder(Some("Music"), "/h/Music", true),
        folder(Some("Documents"), "/h/Documents", true),
    ];
    assert!(idx.rank_folders("/do", &entries, 0).is_empty());
    assert_eq!(folder_names(&idx.rank_folders("/mu", &entries, 0)), vec!["Music"]);
}

#[test]
fn create_lists_a_valid_file_once() {
    let mut idx = sample();
    let p = file_info("/h/new.txt", true, true);
    idx.handle_event(&event(FsEventKind::Create, vec![p]));
    assert_eq!(idx.len(), 4);
    assert!(idx.has_path(&"/h/new.txt".to_string()));
    idx.handle_event(&event(FsEventKind::Create, vec![file_info("/h/new.txt", true, true)]));
    assert_eq!(idx.len(), 4);
    assert_eq!(file_paths(&idx.rank_files("//new", 9)), vec!["/h/new.txt"]);
}

#[test]
fn create_skips_invalid_files() {
    let mut idx = sample();
    idx.handle_event(&event(
        FsEventKind::Create,
        vec![
            file_info("/h/.hidden", true, true),
            file_info("/h/dir", false, true),
            file_info("/h/.git/config", true, true),
        ],
    ));
    assert_eq!(idx.len(), 3);
}

#[test]
fn remove_drops_paths() {
    let mut idx = sample();
    idx.handle_event(&event(FsEventKind::Remove, vec![file_info("/h/notes.txt", false, false)]));
    assert_eq!(idx.len(), 2);
    assert!(!idx.has_path(&"/h/notes.txt".to_string()));
    assert!(idx.has_path(&"/h/tasks.md".to_string()));
}

#[test]
fn rename_moves_the_entry() {
    let mut idx = sample();
    idx.handle_event(&event(
        FsEventKind::Rename,
        vec![file_info("/h/tasks.md", false, false), file_info("/h/done.md", true, true)],
    ));
    assert!(!idx.has_path(&"/h/tasks.md".to_string()));
    assert!(idx.has_path(&"/h/done.md".to_string()));
    assert_eq!(idx.len(), 3);
}

#[test]
fn rename_onto_a_hidden_name_drops_the_entry() {
    let mut idx = sample();
    idx.handle_event(&event(
        FsEventKind::Rename,
        vec![file_info("/h/tasks.md", false, false), file_info("/h/.tasks.md", true, true)],
    ));
    assert!(!idx.has_path(&"/h/tasks.md".to_string()));
    assert_eq!(idx.len(), 2);
}

#[test]
fn rename_with_one_path_refreshes_it() {
    let mut idx = sample();
    idx.handle_event(&event(FsEventKind::Rename, vec![file_info("/h/notes.txt", true, false)]));
    assert!(!idx.has_path(&"/h/notes.txt".to_string()));
    idx.handle_event(&event(FsEventKind::Rename, vec![file_info("/h/back.txt", true, true)]));
    assert!(idx.has_path(&"/h/back.txt".to_string()));
    assert_eq!(idx.len(), 3);
}

#[test]
fn other_events_change_nothing() {
    let mut idx = sample();
    idx.handle_event(&event(FsEventKind::Other, vec![file_info("/h/notes.txt", false, false)]));
    assert_eq!(idx.len(), 3);
    assert!(idx.has_path(&"/h/notes.txt".to_string()));
}

#[test]
fn removed_files_are_not_found() {
    let mut idx = sample();
    idx.handle_event(&event(FsEventKind::Remove, vec![file_info("/h/tasks.md", false, false)]));
    assert_eq!(file_paths(&idx.rank_files("//", 9)), vec!["/h/notes.txt", "/h/docs/Report.PDF"]);
}

#[test]
fn rename_onto_a_listed_path_lists_it_twice() {
    let mut idx = sample();
    idx.handle_event(&event(
        FsEventKind::Rename,
        vec![file_info("/h/notes.txt", false, false), file_info("/h/tasks.md", true, true)],
    ));
    assert_eq!(file_paths(&idx.rank_files("//tasks", 9)), vec!["/h/tasks.md", "/h/tasks.md"]);
}

#[test]
fn folder_queries_name_a_directory_and_a_filter() {
    assert_eq!(folder_query_dir("/bin"), "/");
    assert_eq!(folder_query_dir("/usr/lo"), "/usr/");
    assert_eq!(folder_query_dir("/usr/"), "/usr/");
    assert_eq!(folder_query_dir("/"), "/");
    assert_eq!(folder_query_dir("docs"), "");
    let idx = FileIndex::new(vec![]);
    let root = vec![
        folder(Some("bin"), "/bin", true),
        folder(Some("sbin"), "/sbin", true),
        folder(Some("usr"), "/usr", true),
    ];
    assert_eq!(folder_names(&idx.rank_folders("/bin", &root, 9)), vec!["bin", "sbin"]);
    let usr = vec![folder(Some("local"), "/usr/local", true), folder(Some("lib"), "/usr/lib", true)];
    assert_eq!(folder_names(&idx.rank_folders("/usr/lo", &usr, 9)), vec!["local"]);
    assert_eq!(folder_names(&idx.rank_folders("/usr/", &usr, 9)), vec!["local", "lib"]);
}
