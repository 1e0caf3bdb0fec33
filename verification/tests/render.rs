use rtree::{list_dir, list_rows, Config, Node, Row};

const BLUE: &str = "\x1b[34m";
const GREEN: &str = "\x1b[32m";
const YELLOW: &str = "\x1b[33m";
const MAGENTA: &str = "\x1b[35m";
const RESET: &str = "\x1b[0m";

fn line(prefix: &str, branch: &str, color: &str, name: &str) -> String {
    format!("{}{}{}{}{}", prefix, branch, color, name, RESET)
}

fn sample() -> Vec<Node> {
    vec![
        Node::file("a.rs"),
        Node::dir("sub", vec![Node::file("b.txt")]),
    ]
}

/// Three levels, with hidden entries and a directory that is not the last.
fn forest() -> Vec<Node> {
    vec![
        Node::dir(
            ".git",
            vec![Node::file("config"), Node::dir("objects", vec![Node::file("pack")])],
        ),
        Node::dir(
            "src",
            vec![
                Node::file("main.rs"),
                Node::dir("data", vec![Node::file("table.CSV"), Node::file(".keep")]),
                Node::file("logo.png"),
            ],
        ),
        Node::file("notes"),
        Node::dir("empty", vec![]),
        Node::file(".env"),
    ]
}

#[test]
fn two_levels_without_flags() {
    let config = Config::new(1, false, false, false);
    let lines = list_dir(&sample(), 0, &config, "");
    assert_eq!(
        lines,
        vec![
            "├── \x1b[32ma.rs\x1b[0m".to_string(),
            "└── \x1b[34msub\x1b[0m".to_string(),
            "    └── \x1b[0mb.txt\x1b[0m".to_string(),
        ]
    );
}

#[test]
fn recursion_stops_below_the_bound() {
    let root = vec![
        Node::file("a.rs"),
        Node::dir(
            "sub",
            vec![Node::file("b.txt"), Node::dir("deep", vec![Node::file("c.txt")])],
        ),
    ];
    let config = Config::new(1, false, false, false);
    let lines = list_dir(&root, 0, &config, "");
    assert_eq!(
        lines,
        vec![
            line("", "├── ", GREEN, "a.rs"),
            line("", "└── ", BLUE, "sub"),
            line("    ", "├── ", RESET, "b.txt"),
            line("    ", "└── ", BLUE, "deep"),
        ]
    );
}

#[test]
fn depth_zero_prints_only_the_immediate_children() {
    let config = Config::new(0, false, false, false);
    let lines = list_dir(&sample(), 0, &config, "");
    assert_eq!(
        lines,
        vec![line("", "├── ", GREEN, "a.rs"), line("", "└── ", BLUE, "sub")]
    );
    let rows = list_rows(&sample(), 0, &config, "");
    assert!(rows.iter().all(|row| row.depth == 0 && !row.descend));
}

#[test]
fn hidden_directory_is_neither_printed_nor_entered() {
    let root = vec![
        Node::dir(".git", vec![Node::file("config"), Node::file("HEAD")]),
        Node::file("a.rs"),
    ];
    let config = Config::new(5, false, false, false);
    let lines = list_dir(&root, 0, &config, "");
    assert_eq!(lines, vec![line("", "└── ", GREEN, "a.rs")]);
    assert!(lines.iter().all(|l| !l.contains(".git") && !l.contains("config")));
}

#[test]
fn hidden_entries_appear_when_asked_for() {
    let root = vec![
        Node::dir(".git", vec![Node::file("config")]),
        Node::file("a.rs"),
        Node::file(".env"),
    ];
    let config = Config::new(5, false, false, true);
    let lines = list_dir(&root, 0, &config, "");
    assert_eq!(
        lines,
        vec![
            line("", "├── ", BLUE, ".git"),
            line("│   ", "└── ", RESET, "config"),
            line("", "├── ", GREEN, "a.rs"),
            line("", "└── ", RESET, ".env"),
        ]
    );
}

#[test]
fn whole_forest_without_flags() {
    let config = Config::new(10, false, false, false);
    let lines = list_dir(&forest(), 0, &config, "");
    assert_eq!(
        lines,
        vec![
            line("", "├── ", BLUE, "src"),
            line("│   ", "├── ", GREEN, "main.rs"),
            line("│   ", "├── ", BLUE, "data"),
            line("│   │   ", "└── ", YELLOW, "table.CSV"),
            line("│   ", "└── ", MAGENTA, "logo.png"),
            line("", "├── ", RESET, "notes"),
            line("", "└── ", BLUE, "empty"),
        ]
    );
}

#[test]
fn whole_forest_with_hidden_entries() {
    let config = Config::new(10, false, false, true);
    let lines = list_dir(&forest(), 0, &config, "");
    assert_eq!(
        lines,
        vec![
            line("", "├── ", BLUE, ".git"),
            line("│   ", "├── ", RESET, "config"),
            line("│   ", "└── ", BLUE, "objects"),
            line("│       ", "└── ", RESET, "pack"),
            line("", "├── ", BLUE, "src"),
            line("│   ", "├── ", GREEN, "main.rs"),
            line("│   ", "├── ", BLUE, "data"),
            line("│   │   ", "├── ", YELLOW, "table.CSV"),
            line("│   │   ", "└── ", RESET, ".keep"),
            line("│   ", "└── ", MAGENTA, "logo.png"),
            line("", "├── ", RESET, "notes"),
            line("", "├── ", BLUE, "empty"),
            line("", "└── ", RESET, ".env"),
        ]
    );
}

#[test]
fn no_row_lies_deeper_than_the_bound() {
    for max_depth in 0..4 {
        let config = Config::new(max_depth, false, false, true);
        let rows = list_rows(&forest(), 0, &config, "");
        assert!(!rows.is_empty());
        assert!(rows.iter().all(|row| row.depth <= max_depth));
        let deepest = rows.iter().map(|row| row.depth).max().unwrap();
        assert_eq!(deepest, max_depth.min(2));
    }
}

#[test]
fn listing_that_starts_beyond_the_bound_is_empty() {
    let config = Config::new(1, false, false, true);
    assert_eq!(list_dir(&forest(), 2, &config, ""), Vec::<String>::new());
    assert_eq!(list_rows(&forest(), 2, &config, "> "), Vec::<Row>::new());
    assert_eq!(list_dir(&forest(), usize::MAX, &config, ""), Vec::<String>::new());
}

#[test]
fn listing_at_the_largest_depth_enters_nothing() {
    let config = Config::new(usize::MAX, false, false, false);
    let rows = list_rows(&sample(), usize::MAX, &config, "");
    assert_eq!(rows.len(), 2);
    assert!(rows.iter().all(|row| row.depth == usize::MAX && !row.descend));
}

#[test]
fn files_only_prints_no_directory_and_enters_none() {
    let config = Config::new(10, true, false, false);
    let lines = list_dir(&forest(), 0, &config, "");
    assert_eq!(lines, vec![line("", "└── ", RESET, "notes")]);
    let rows = list_rows(&forest(), 0, &config, "");
    assert!(rows.iter().all(|row| !row.is_dir && row.depth == 0));
}

#[test]
fn files_only_gives_the_corner_to_the_last_printed_file() {
    let root = vec![Node::file("a.txt"), Node::dir("sub", vec![Node::file("b.txt")])];
    let config = Config::new(3, true, false, false);
    assert_eq!(list_dir(&root, 0, &config, ""), vec![line("", "└── ", RESET, "a.txt")]);
    let root = vec![Node::dir("sub", vec![Node::file("b.txt")]), Node::file("a.txt")];
    assert_eq!(list_dir(&root, 0, &config, ""), vec![line("", "└── ", RESET, "a.txt")]);
    let root = vec![
        Node::file("a.txt"),
        Node::dir("sub", vec![]),
        Node::file("b.txt"),
        Node::dir("end", vec![]),
        Node::file(".hidden"),
    ];
    assert_eq!(
        list_dir(&root, 0, &config, ""),
        vec![line("", "├── ", RESET, "a.txt"), line("", "└── ", RESET, "b.txt")]
    );
}

#[test]
fn dirs_only_indents_under_the_last_printed_directory_with_blanks() {
    let root = vec![
        Node::dir("first", vec![Node::dir("x", vec![])]),
        Node::dir("second", vec![Node::dir("y", vec![]), Node::file("z.txt")]),
        Node::file("tail.txt"),
    ];
    let config = Config::new(3, false, true, false);
    assert_eq!(
        list_dir(&root, 0, &config, ""),
        vec![
            line("", "├── ", BLUE, "first"),
            line("│   ", "└── ", BLUE, "x"),
            line("", "└── ", BLUE, "second"),
            line("    ", "└── ", BLUE, "y"),
        ]
    );
}

#[test]
fn dirs_only_prints_directories_at_every_level() {
    let config = Config::new(10, false, true, false);
    let lines = list_dir(&forest(), 0, &config, "");
    assert_eq!(
        lines,
        vec![
            line("", "├── ", BLUE, "src"),
            line("│   ", "└── ", BLUE, "data"),
            line("", "└── ", BLUE, "empty"),
        ]
    );
    let rows = list_rows(&forest(), 0, &config, "");
    assert!(rows.iter().all(|row| row.is_dir));
}

#[test]
fn both_type_flags_print_nothing() {
    for show_hidden in [false, true] {
        let config = Config::new(10, true, true, show_hidden);
        assert_eq!(list_dir(&forest(), 0, &config, ""), Vec::<String>::new());
    }
}

#[test]
fn last_is_decided_after_the_filters() {
    let root = vec![Node::file("a.txt"), Node::file("b.txt"), Node::file(".hidden")];
    let hidden_off = Config::new(0, false, false, false);
    assert_eq!(
        list_dir(&root, 0, &hidden_off, ""),
        vec![line("", "├── ", RESET, "a.txt"), line("", "└── ", RESET, "b.txt")]
    );
    let hidden_on = Config::new(0, false, false, true);
    assert_eq!(
        list_dir(&root, 0, &hidden_on, ""),
        vec![
            line("", "├── ", RESET, "a.txt"),
            line("", "├── ", RESET, "b.txt"),
            line("", "└── ", RESET, ".hidden"),
        ]
    );
}

#[test]
fn exactly_the_final_sibling_bears_the_corner() {
    for flags in 0..8 {
        for max_depth in 0..4 {
            let config = Config::new(max_depth, flags & 1 != 0, flags & 2 != 0, flags & 4 != 0);
            let rows = list_rows(&forest(), 0, &config, "");
            for a in 0..rows.len() {
                let next_sibling = (a + 1..rows.len())
                    .take_while(|&m| rows[m].depth >= rows[a].depth)
                    .find(|&m| rows[m].depth == rows[a].depth);
                assert_eq!(rows[a].last, next_sibling.is_none(), "flags {} row {}", flags, a);
                let branch = if rows[a].last { "└── " } else { "├── " };
                assert!(rows[a].text().starts_with(&format!("{}{}", rows[a].prefix, branch)));
            }
        }
    }
}

#[test]
fn child_indentation_extends_the_parent_prefix() {
    for flags in 0..8 {
        let config = Config::new(10, flags & 1 != 0, flags & 2 != 0, flags & 4 != 0);
        let rows = list_rows(&forest(), 0, &config, "  ");
        for k in 0..rows.len() {
            if rows[k].depth == 0 {
                assert_eq!(rows[k].prefix, "  ");
                continue;
            }
            let parent = (0..k).rev().find(|&p| rows[p].depth + 1 == rows[k].depth).unwrap();
            assert!(rows[parent].is_dir && rows[parent].descend);
            let step = if rows[parent].last { "    " } else { "│   " };
            assert_eq!(rows[k].prefix, format!("{}{}", rows[parent].prefix, step));
            assert_eq!(rows[k].prefix, rows[parent].child_prefix());
        }
    }
}

#[test]
fn start_prefix_is_carried_through() {
    let config = Config::new(1, false, false, false);
    let lines = list_dir(&sample(), 0, &config, ">> ");
    assert_eq!(
        lines,
        vec![
            line(">> ", "├── ", GREEN, "a.rs"),
            line(">> ", "└── ", BLUE, "sub"),
            line(">>     ", "└── ", RESET, "b.txt"),
        ]
    );
}

#[test]
fn start_depth_counts_against_the_bound() {
    let config = Config::new(3, false, false, false);
    let rows = list_rows(&sample(), 3, &config, "");
    assert_eq!(rows.len(), 2);
    assert!(rows.iter().all(|row| row.depth == 3 && !row.descend));
    let rows = list_rows(&sample(), 2, &config, "");
    assert_eq!(rows.iter().map(|row| row.depth).collect::<Vec<_>>(), vec![2, 2, 3]);
}

#[test]
fn rows_record_position_depth_and_descent() {
    let config = Config::new(1, false, false, false);
    let rows = list_rows(&forest(), 0, &config, "");
    let seen: Vec<(usize, usize, &str, bool, bool, bool)> = rows
        .iter()
        .map(|r| (r.index, r.depth, r.name.as_str(), r.is_dir, r.last, r.descend))
        .collect();
    assert_eq!(
        seen,
        vec![
            (1, 0, "src", true, false, true),
            (0, 1, "main.rs", false, false, false),
            (1, 1, "data", true, false, false),
            (2, 1, "logo.png", false, true, false),
            (2, 0, "notes", false, false, false),
            (3, 0, "empty", true, true, true),
        ]
    );
}

#[test]
fn children_of_a_file_are_ignored() {
    let odd = Node {
        entry: rtree::Entry::new("plain.txt", false),
        children: vec![Node::file("ghost")],
    };
    let config = Config::new(5, false, false, false);
    assert_eq!(
        list_dir(&vec![odd], 0, &config, ""),
        vec![line("", "└── ", RESET, "plain.txt")]
    );
}

#[test]
fn empty_directory_lists_nothing() {
    let config = Config::new(5, false, false, true);
    assert_eq!(list_dir(&Vec::new(), 0, &config, ""), Vec::<String>::new());
}

#[test]
fn directory_color_ignores_the_name() {
    let root = vec![Node::dir("photos.png", vec![]), Node::dir("main.rs", vec![])];
    let config = Config::new(0, false, false, false);
    assert_eq!(
        list_dir(&root, 0, &config, ""),
        vec![line("", "├── ", BLUE, "photos.png"), line("", "└── ", BLUE, "main.rs")]
    );
}

#[test]
fn list_dir_is_the_text_of_list_rows() {
    let config = Config::new(2, false, false, true);
    let rows = list_rows(&forest(), 0, &config, "");
    let lines = list_dir(&forest(), 0, &config, "");
    assert_eq!(lines, rows.iter().map(|row| row.text()).collect::<Vec<_>>());
}

#[test]
fn row_text_and_child_prefix() {
    let row = Row {
        index: 4,
        depth: 2,
        prefix: "│       ".to_string(),
        last: false,
        name: "Photo.JPG".to_string(),
        is_dir: false,
        descend: false,
    };
    assert_eq!(row.text(), "│       ├── \x1b[35mPhoto.JPG\x1b[0m");
    assert_eq!(row.child_prefix(), "│       │   ");
    let last = Row { last: true, is_dir: true, descend: true, ..row };
    assert_eq!(last.text(), "│       └── \x1b[34mPhoto.JPG\x1b[0m");
    assert_eq!(last.child_prefix(), "│           ");
}
