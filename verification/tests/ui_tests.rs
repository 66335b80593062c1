use mark_hulk::ui::{
    marks_dirty, open_target, reloads_on_change, OpenTarget,
    cell_markup, export_file_name, export_title, hit_label, mode_panes, outline_label, seeds_find,
    tab_title, table_columns, window_title, ExportKind, Mode,
};

#[test]
fn panes_per_mode() {
    assert_eq!(mode_panes(Mode::Preview), (false, true));
    assert_eq!(mode_panes(Mode::Split), (true, true));
    assert_eq!(mode_panes(Mode::Edit), (true, false));
}

#[test]
fn titles() {
    assert_eq!(tab_title(None, false), "Untitled");
    assert_eq!(tab_title(Some("/a/notes.md"), true), "• notes.md");
    assert_eq!(window_title(Some("/a/notes.md")), "notes.md — Mark-Hulk");
    assert_eq!(window_title(None), "Mark-Hulk");
}

#[test]
fn table_layout() {
    let head = vec!["a".to_string()];
    let rows = vec![vec!["1".to_string(), "2".to_string(), "3".to_string()], vec![]];
    assert_eq!(table_columns(&head, &rows), 3);
    assert_eq!(table_columns(&Vec::new(), &Vec::new()), 0);
    assert_eq!(cell_markup("  ", true), " ");
    assert_eq!(cell_markup("x", true), "<b>x</b>");
    assert_eq!(cell_markup("x", false), "x");
}

#[test]
fn outline_labels_indent_by_level() {
    assert_eq!(outline_label(1, "Top"), "Top");
    assert_eq!(outline_label(3, "Deep"), "        Deep");
}

#[test]
fn export_names() {
    assert_eq!(export_title(Some("/d/report.final.md")), "report.final");
    assert_eq!(export_title(Some("/d/.notes")), ".notes");
    assert_eq!(export_title(None), "Untitled");
    assert_eq!(export_file_name("report", ExportKind::Html), "report.html");
    assert_eq!(export_file_name("report", ExportKind::Pdf), "report.pdf");
}

#[test]
fn search_labels_and_find_seed() {
    assert_eq!(hit_label("a.md", 12), "a.md:12");
    assert!(seeds_find("word"));
    assert!(!seeds_find(""));
    assert!(!seeds_find("two\nlines"));
}

#[test]
fn edits_mark_dirty_once_and_not_while_loading() {
    assert!(marks_dirty(false, false));
    assert!(!marks_dirty(true, false));
    assert!(!marks_dirty(false, true));
    assert!(!marks_dirty(true, true));
}

#[test]
fn only_the_clean_current_file_reloads() {
    assert!(reloads_on_change("/w/a.md", Some("/w/a.md"), false));
    assert!(!reloads_on_change("/w/a.md", Some("/w/a.md"), true));
    assert!(!reloads_on_change("/w/a.md", Some("/w/b.md"), false));
    assert!(!reloads_on_change("/w/a.md", None, false));
}

#[test]
fn files_open_in_an_existing_blank_or_new_tab() {
    let paths = vec![None, Some("/w/a.md".to_string()), Some("/w/a.md".to_string())];
    assert_eq!(open_target(&paths, "/w/a.md", Some(0), 0), OpenTarget::Focus(1));
    assert_eq!(open_target(&paths, "/w/b.md", Some(0), 0), OpenTarget::Reuse);
    assert_eq!(open_target(&paths, "/w/b.md", Some(0), 3), OpenTarget::New);
    assert_eq!(open_target(&paths, "/w/b.md", Some(1), 0), OpenTarget::New);
    assert_eq!(open_target(&paths, "/w/b.md", None, 0), OpenTarget::New);
    assert_eq!(open_target(&Vec::new(), "/w/b.md", Some(0), 0), OpenTarget::New);
}
