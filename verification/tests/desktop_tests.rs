use seekx::desktop::{load_installed_apps, parse_desktop_entry_section, parse_desktop_file};

const FIREFOX: &str = "[Desktop Entry]\n\
Type=Application\n\
Name= Firefox \n\
Exec=firefox %u\n\
Icon=firefox\n\
Comment=Web Browser\n\
Categories=Network;WebBrowser;\n\
Keywords=internet;www;\n";

fn entry(name: &str, exec: &str) -> String {
    format!("[Desktop Entry]\nType=Application\nName={name}\nExec={exec}\n")
}

#[test]
fn parses_an_application_entry() {
    let app = parse_desktop_file(FIREFOX).unwrap();
    assert_eq!(app.name, "Firefox");
    assert_eq!(app.exec_line, "firefox %u");
    assert_eq!(app.icon, Some("firefox".to_string()));
    assert_eq!(app.comment, Some("Web Browser".to_string()));
    assert_eq!(
        app.search_text,
        "firefox firefox %u web browser network;webbrowser; internet;www;"
    );
}

#[test]
fn search_text_holds_only_present_parts() {
    let app = parse_desktop_file(&entry("Calc", "gnome-calculator")).unwrap();
    assert_eq!(app.search_text, "calc gnome-calculator");
    assert_eq!(app.icon, None);
    assert_eq!(app.comment, None);
}

#[test]
fn blank_comment_and_icon_are_dropped() {
    let contents = "[Desktop Entry]\nType=Application\nName=A\nExec=a\nComment=  \nIcon=\n";
    let app = parse_desktop_file(contents).unwrap();
    assert_eq!(app.comment, None);
    assert_eq!(app.icon, None);
    assert_eq!(app.search_text, "a a");
}

#[test]
fn type_is_compared_ignoring_ascii_case() {
    let contents = "[Desktop Entry]\nType=APPLICATION\nName=A\nExec=a\n";
    assert!(parse_desktop_file(contents).is_some());
}

#[test]
fn other_types_are_skipped() {
    let contents = "[Desktop Entry]\nType=Link\nName=A\nExec=a\n";
    assert!(parse_desktop_file(contents).is_none());
    let no_type = "[Desktop Entry]\nName=A\nExec=a\n";
    assert!(parse_desktop_file(no_type).is_none());
}

#[test]
fn hidden_and_nodisplay_are_skipped() {
    let hidden = "[Desktop Entry]\nType=Application\nName=A\nExec=a\nHidden=TRUE\n";
    assert!(parse_desktop_file(hidden).is_none());
    let nodisplay = "[Desktop Entry]\nType=Application\nName=A\nExec=a\nNoDisplay=true\n";
    assert!(parse_desktop_file(nodisplay).is_none());
    let shown = "[Desktop Entry]\nType=Application\nName=A\nExec=a\nNoDisplay=false\n";
    assert!(parse_desktop_file(shown).is_some());
}

#[test]
fn name_and_exec_are_required() {
    assert!(parse_desktop_file("[Desktop Entry]\nType=Application\nExec=a\n").is_none());
    assert!(parse_desktop_file("[Desktop Entry]\nType=Application\nName=A\n").is_none());
    assert!(parse_desktop_file("[Desktop Entry]\nType=Application\nName=  \nExec=a\n").is_none());
}

#[test]
fn only_the_desktop_entry_section_counts() {
    let contents = "[Desktop Entry]\nType=Application\nName=Main\nExec=main\n\
[Desktop Action new]\nName=New Window\nExec=main --new\n";
    let app = parse_desktop_file(contents).unwrap();
    assert_eq!(app.name, "Main");
    assert_eq!(app.exec_line, "main");
}

#[test]
fn section_parsing_trims_and_keeps_the_last_value() {
    let contents = "# comment\n[Desktop Entry]\n  Name = A \nName=B\nnot a pair\n\n[Other]\nName=C\n";
    let section = parse_desktop_entry_section(contents).unwrap();
    assert_eq!(section.get("Name"), Some("B".to_string()));
    assert_eq!(section.get("Other"), None);
    assert_eq!(section.len(), 2);
}

#[test]
fn value_may_hold_equal_signs() {
    let section = parse_desktop_entry_section("[Desktop Entry]\nExec=env A=1 prog\n").unwrap();
    assert_eq!(section.get("Exec"), Some("env A=1 prog".to_string()));
}

#[test]
fn section_without_pairs_is_none() {
    assert!(parse_desktop_entry_section("").is_none());
    assert!(parse_desktop_entry_section("[Desktop Entry]\n# nothing\n").is_none());
    assert!(parse_desktop_entry_section("Name=outside\n[Other]\nName=x\n").is_none());
}

#[test]
fn installed_apps_are_sorted_by_lower_cased_name() {
    let files = vec![entry("zeta", "z"), entry("Alpha", "a"), entry("beta", "b")];
    let apps = load_installed_apps(&files);
    let names: Vec<&str> = apps.iter().map(|a| a.name.as_str()).collect();
    assert_eq!(names, vec!["Alpha", "beta", "zeta"]);
}

#[test]
fn installed_apps_are_deduplicated_by_name_and_command() {
    let files = vec![
        entry("Editor", "edit %f"),
        entry("EDITOR", "EDIT %F"),
        entry("Editor", "edit --other"),
        "not a desktop file".to_string(),
    ];
    let apps = load_installed_apps(&files);
    assert_eq!(apps.len(), 2);
    assert_eq!(apps[0].exec_line, "edit %f");
    assert_eq!(apps[1].exec_line, "edit --other");
}

#[test]
fn equal_names_keep_file_order() {
    let files = vec![entry("Same", "second"), entry("same", "first")];
    let apps = load_installed_apps(&files);
    assert_eq!(apps[0].exec_line, "second");
    assert_eq!(apps[1].exec_line, "first");
}

#[test]
fn no_files_no_apps() {
    assert!(load_installed_apps(&vec![]).is_empty());
}

#[test]
fn launcher_app_is_found_by_name_and_search_text() {
    let entry = parse_desktop_file(FIREFOX).unwrap();
    let app = entry.to_launcher_app();
    assert_eq!(app.name, "Firefox");
    assert_eq!(app.exec_line, "firefox %u");
    assert_eq!(app.icon, Some("firefox".to_string()));
    assert_eq!(
        app.search_terms,
        vec![
            "firefox".to_string(),
            "firefox firefox %u web browser network;webbrowser; internet;www;".to_string()
        ]
    );
    assert_eq!(
        app.normalized_terms,
        vec![
            "firefox".to_string(),
            "firefoxfirefoxuwebbrowsernetworkwebbrowserinternetwww".to_string()
        ]
    );
}
