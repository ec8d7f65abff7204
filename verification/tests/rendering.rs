use dirtree::render::render_tree;
use dirtree::render::Line;
use dirtree::render::Style;
use dirtree::FsNode;

fn file(name: &str) -> FsNode {
    FsNode::File { name: name.to_string() }
}

fn dir(name: &str, children: Vec<FsNode>) -> FsNode {
    FsNode::Dir { name: name.to_string(), children }
}

fn texts(lines: &Vec<Line>) -> Vec<String> {
    lines.iter().map(|l| l.rendered()).collect()
}

#[test]
fn capped_listing_of_dotless_root() {
    // Root `.`: no label line of its own; cap 2 shows the first two of three.
    let root = dir(
        "",
        vec![
            file("a.txt"),
            file("b.rs"),
            dir("sub", vec![file("x"), file("y"), file("z")]),
        ],
    );
    let lines = render_tree(&root, false, 2, false);
    assert_eq!(
        texts(&lines),
        vec![
            "    ├── a.txt".to_string(),
            "    └── b.rs".to_string(),
            "    ... (1 more entries)".to_string(),
        ]
    );
    assert_eq!(lines[0].style, Style::Text);
    assert_eq!(lines[1].style, Style::Rust);
    assert_eq!(lines[2].style, Style::Note);
}

#[test]
fn empty_directory_renders_label_only() {
    let root = dir("sub", vec![]);
    let lines = render_tree(&root, true, 4, false);
    assert_eq!(texts(&lines), vec!["└── sub".to_string()]);
    assert_eq!(lines[0].style, Style::Directory);
}

#[test]
fn zero_cap_renders_label_and_summary_only() {
    let root = dir("d", vec![file("a"), file("b"), file("c")]);
    let lines = render_tree(&root, true, 0, false);
    assert_eq!(
        texts(&lines),
        vec!["└── d".to_string(), "    ... (3 more entries)".to_string()]
    );
}

#[test]
fn zero_cap_on_empty_directory_has_no_summary() {
    let root = dir("d", vec![]);
    let lines = render_tree(&root, true, 0, false);
    assert_eq!(texts(&lines), vec!["└── d".to_string()]);
}

#[test]
fn children_are_sorted_by_name() {
    let root = dir("d", vec![file("pear"), file("apple"), dir("mango", vec![]), file("fig")]);
    let lines = render_tree(&root, true, 10, false);
    assert_eq!(
        texts(&lines),
        vec![
            "└── d".to_string(),
            "    ├── apple".to_string(),
            "    ├── fig".to_string(),
            "    ├── mango".to_string(),
            "    └── pear".to_string(),
        ]
    );
}

#[test]
fn cap_shows_min_and_counts_rest() {
    let root = dir("d", vec![file("a"), file("b"), file("c"), file("d"), file("e")]);
    let lines = render_tree(&root, true, 3, false);
    assert_eq!(
        texts(&lines),
        vec![
            "└── d".to_string(),
            "    ├── a".to_string(),
            "    ├── b".to_string(),
            "    └── c".to_string(),
            "    ... (2 more entries)".to_string(),
        ]
    );
}

#[test]
fn hidden_entries_are_dropped_by_default() {
    let root = dir("d", vec![dir(".git", vec![file("config")]), file(".hidden"), file("a")]);
    let lines = render_tree(&root, true, 10, false);
    assert_eq!(texts(&lines), vec!["└── d".to_string(), "    └── a".to_string()]);
}

#[test]
fn hidden_entries_participate_fully_when_requested() {
    let root = dir("d", vec![file("a"), file(".z"), file(".b")]);
    let lines = render_tree(&root, true, 2, true);
    // `.b` < `.z` < `a`; the cap counts the dotfiles like any other entry.
    assert_eq!(
        texts(&lines),
        vec![
            "└── d".to_string(),
            "    ├── .b".to_string(),
            "    └── .z".to_string(),
            "    ... (1 more entries)".to_string(),
        ]
    );
}

#[test]
fn exactly_one_terminal_connector_per_level() {
    let root = dir("d", vec![file("a"), file("b"), file("c")]);
    let lines = render_tree(&root, true, 10, false);
    let texts = texts(&lines);
    assert_eq!(texts[1], "    ├── a");
    assert_eq!(texts[2], "    ├── b");
    assert_eq!(texts[3], "    └── c");
    let last_count = texts.iter().skip(1).filter(|t| t.contains("└── ")).count();
    assert_eq!(last_count, 1);
}

#[test]
fn cap_equal_to_total_needs_no_summary() {
    let root = dir("d", vec![file("a"), file("b"), file("c")]);
    let lines = render_tree(&root, true, 3, false);
    assert_eq!(lines.len(), 4);
    assert_eq!(lines[3].rendered().as_str(), "    └── c");
}

#[test]
fn descendant_prefixes_carry_ancestor_segments() {
    let root = dir(
        "r",
        vec![dir("a", vec![file("f")]), file("z")],
    );
    let lines = render_tree(&root, true, 10, false);
    assert_eq!(
        texts(&lines),
        vec![
            "└── r".to_string(),
            "    ├── a".to_string(),
            "    │   └── f".to_string(),
            "    └── z".to_string(),
        ]
    );
}

#[test]
fn deep_nesting_adds_one_segment_per_level() {
    let root = dir("r", vec![dir("s", vec![dir("t", vec![file("f")])])]);
    let lines = render_tree(&root, true, 10, false);
    assert_eq!(
        texts(&lines),
        vec![
            "└── r".to_string(),
            "    └── s".to_string(),
            "        └── t".to_string(),
            "            └── f".to_string(),
        ]
    );
}

#[test]
fn rendering_twice_is_identical() {
    let root = dir(
        "r",
        vec![dir("a", vec![file("f"), file(".h")]), file("z.rs"), file("y.txt")],
    );
    let first = render_tree(&root, true, 2, false);
    let second = render_tree(&root, true, 2, false);
    assert_eq!(texts(&first), texts(&second));
    let styles_first: Vec<Style> = first.iter().map(|l| l.style).collect();
    let styles_second: Vec<Style> = second.iter().map(|l| l.style).collect();
    assert_eq!(styles_first, styles_second);
}

#[test]
fn summary_counts_above_nine_print_all_digits() {
    let children: Vec<FsNode> =
        (0..12).map(|i| file(&format!("f{:02}", i))).collect();
    let root = dir("d", children);
    let lines = render_tree(&root, true, 0, false);
    assert_eq!(lines[1].rendered().as_str(), "    ... (12 more entries)");
}

#[test]
fn labeled_root_gets_terminal_connector_line() {
    let root = dir("top", vec![file("a")]);
    let lines = render_tree(&root, true, 4, false);
    assert_eq!(lines[0].rendered().as_str(), "└── top");
    assert_eq!(lines[1].rendered().as_str(), "    └── a");
}

#[test]
fn file_root_renders_single_line() {
    let root = file("note.txt");
    let lines = render_tree(&root, true, 4, false);
    assert_eq!(texts(&lines), vec!["└── note.txt".to_string()]);
    assert_eq!(lines[0].style, Style::Text);
}

#[test]
fn styles_follow_directory_and_extension() {
    let root = dir(
        "d",
        vec![
            file("a.rs"),
            file("b.txt"),
            file("c.md"),
            file("Makefile"),
            file("x."),
            file("a.tar.gz"),
            dir("sub", vec![]),
            file(".bashrc"),
        ],
    );
    let lines = render_tree(&root, true, 10, true);
    let styled: Vec<(String, Style)> =
        lines.iter().map(|l| (l.text.clone(), l.style)).collect();
    assert_eq!(styled[0], ("d".to_string(), Style::Directory));
    assert_eq!(styled[1], (".bashrc".to_string(), Style::Plain));
    assert_eq!(styled[2], ("Makefile".to_string(), Style::Plain));
    assert_eq!(styled[3], ("a.rs".to_string(), Style::Rust));
    assert_eq!(styled[4], ("a.tar.gz".to_string(), Style::Plain));
    assert_eq!(styled[5], ("b.txt".to_string(), Style::Text));
    assert_eq!(styled[6], ("c.md".to_string(), Style::Plain));
    assert_eq!(styled[7], ("sub".to_string(), Style::Directory));
    assert_eq!(styled[8], ("x.".to_string(), Style::Plain));
}

#[test]
fn uppercase_sorts_before_lowercase() {
    let root = dir("d", vec![file("banana"), file("Apple"), file("Zebra")]);
    let lines = render_tree(&root, true, 10, false);
    assert_eq!(
        texts(&lines),
        vec![
            "└── d".to_string(),
            "    ├── Apple".to_string(),
            "    ├── Zebra".to_string(),
            "    └── banana".to_string(),
        ]
    );
}
