use mark_hulk::fs::{
    has_extension, launch_file_from_args, walk_skips, LaunchArg,
    build_tree, is_hidden, is_markdown, normalize_query, path_file_name, search_text, split_lines,
    DirEntry, SearchHit, TreeNode,
};

fn file(dir: &str, name: &str) -> DirEntry {
    DirEntry {
        name: name.to_string(),
        path: format!("{dir}/{name}"),
        is_dir: false,
        children: Vec::new(),
    }
}

fn dir(parent: &str, name: &str, children: Vec<DirEntry>) -> DirEntry {
    DirEntry {
        name: name.to_string(),
        path: format!("{parent}/{name}"),
        is_dir: true,
        children,
    }
}

fn names(node: &TreeNode) -> Vec<&str> {
    node.children.iter().map(|c| c.name.as_str()).collect()
}

#[test]
fn markdown_extensions() {
    assert!(is_markdown("notes/a.md"));
    assert!(is_markdown("b.markdown"));
    assert!(is_markdown("/x/c.mdx"));
    assert!(is_markdown("x/c.md/"));
    assert!(!is_markdown("a.MD"));
    assert!(!is_markdown(".md"));
    assert!(!is_markdown("readme.txt"));
    assert!(!is_markdown("md"));
    assert!(!is_markdown("dir/.."));
    assert!(!is_markdown(""));
}

#[test]
fn file_names() {
    assert_eq!(path_file_name("/a/b.md").as_deref(), Some("b.md"));
    assert_eq!(path_file_name("/a/b/").as_deref(), Some("b"));
    assert_eq!(path_file_name("/a/b/.").as_deref(), Some("b"));
    assert_eq!(path_file_name("/a/.."), None);
    assert_eq!(path_file_name("/"), None);
}

#[test]
fn hidden_names() {
    assert!(is_hidden(".git"));
    assert!(is_hidden("node_modules"));
    assert!(is_hidden("target"));
    assert!(!is_hidden("targets"));
    assert!(!is_hidden("docs"));
}

#[test]
fn tree_sorts_filters_and_prunes() {
    let root = dir(
        "",
        "ws",
        vec![
            file("/ws", "zeta.md"),
            file("/ws", "Alpha.md"),
            file("/ws", "image.png"),
            dir("/ws", "empty", vec![file("/ws/empty", "x.txt")]),
            dir("/ws", "docs", vec![file("/ws/docs", "b.md"), file("/ws/docs", "A.markdown")]),
            dir("/ws", ".hidden", vec![file("/ws/.hidden", "h.md")]),
            dir("/ws", "Books", vec![dir("/ws/Books", "deep", vec![file("/ws/Books/deep", "d.mdx")])]),
            file("/ws", ".secret.md"),
        ],
    );
    let tree = build_tree(&root);
    assert!(tree.is_dir);
    assert_eq!(tree.name, "ws");
    assert_eq!(names(&tree), vec!["Books", "docs", "Alpha.md", "zeta.md"]);
    assert_eq!(names(&tree.children[1]), vec!["A.markdown", "b.md"]);
    assert_eq!(names(&tree.children[0]), vec!["deep"]);
    assert_eq!(tree.children[0].children[0].children[0].path, "/ws/Books/deep/d.mdx");
}

#[test]
fn tree_of_a_file_is_a_leaf() {
    let tree = build_tree(&file("/x", "notes.txt"));
    assert!(!tree.is_dir);
    assert!(tree.children.is_empty());
}

#[test]
fn tree_keeps_read_order_for_equal_names() {
    let root = dir("", "ws", vec![file("/ws", "a.md"), file("/ws", "A.md")]);
    let tree = build_tree(&root);
    assert_eq!(names(&tree), vec!["a.md", "A.md"]);
}

#[test]
fn lines_split_like_str_lines() {
    assert_eq!(split_lines("a\r\nb\n\nc"), vec!["a", "b", "", "c"]);
    assert_eq!(split_lines("a\n"), vec!["a"]);
    assert_eq!(split_lines(""), Vec::<String>::new());
    assert_eq!(split_lines("x\r"), vec!["x\r"]);
}

#[test]
fn query_is_trimmed_and_lowercased() {
    assert_eq!(normalize_query("  HeLLo World \n"), "hello world");
    assert_eq!(normalize_query("   "), "");
}

#[test]
fn search_finds_matching_lines() {
    let mut hits: Vec<SearchHit> = Vec::new();
    let full = search_text(&mut hits, "/ws/notes.md", "First line\n  the FOX jumps  \nnothing\nfox again", "fox");
    assert!(!full);
    assert_eq!(hits.len(), 2);
    assert_eq!(hits[0].line, 2);
    assert_eq!(hits[0].text, "the FOX jumps");
    assert_eq!(hits[0].name, "notes.md");
    assert_eq!(hits[0].path, "/ws/notes.md");
    assert_eq!(hits[1].line, 4);
}

#[test]
fn search_cuts_long_lines() {
    let mut hits: Vec<SearchHit> = Vec::new();
    let line = format!("needle {}", "x".repeat(300));
    search_text(&mut hits, "a.md", &line, "needle");
    assert_eq!(hits[0].text.chars().count(), 200);
}

#[test]
fn search_stops_at_the_limit() {
    let mut hits: Vec<SearchHit> = Vec::new();
    let content = "hit\n".repeat(600);
    let full = search_text(&mut hits, "a.md", &content, "hit");
    assert!(full);
    assert_eq!(hits.len(), 500);
    assert_eq!(hits[499].line, 500);
}

#[test]
fn blank_query_finds_nothing() {
    assert_eq!(mark_hulk::fs::search_query("  \t "), None);
    assert_eq!(mark_hulk::fs::search_query(" Fox ").as_deref(), Some("fox"));
}

#[test]
fn extensions_as_path_tells_them() {
    assert!(has_extension("/w/notes.md"));
    assert!(has_extension("report.pdf"));
    assert!(has_extension("/w/b."));
    assert!(!has_extension("/w/report"));
    assert!(!has_extension("/w/.bashrc"));
    assert!(!has_extension("/"));
}

#[test]
fn search_walks_a_hidden_root_but_skips_hidden_entries() {
    assert!(!walk_skips(0, ".notes"));
    assert!(walk_skips(1, ".git"));
    assert!(walk_skips(2, "node_modules"));
    assert!(!walk_skips(1, "docs"));
}

#[test]
fn launch_opens_the_first_existing_markdown_argument() {
    let arg = |a: &str, is_file: bool| LaunchArg { arg: a.to_string(), is_file };
    let args = vec![
        arg("--flag", false),
        arg("/w/missing.md", false),
        arg("/w/notes.txt", true),
        arg("/w/a.md", true),
        arg("/w/b.md", true),
    ];
    assert_eq!(launch_file_from_args(&args), Some("/w/a.md".to_string()));
    let none = vec![arg("--flag", false), arg("/w/missing.md", false), arg("/w/notes.txt", true)];
    assert_eq!(launch_file_from_args(&none), None);
    assert_eq!(launch_file_from_args(&Vec::new()), None);
}
