use line_tally::record::FileRecord;
use line_tally::report::aggregate;
use line_tally::rules::RuleSet;
use line_tally::walk::list_files;
use line_tally::walk::survey;
use line_tally::walk::Node;

fn file(path: &str, lines: usize) -> Node {
    Node::File { path: path.to_string(), lines: Ok(lines) }
}

fn rules_of(root: &str, lines: &[&str]) -> RuleSet {
    let lines: Vec<String> = lines.iter().map(|l| l.to_string()).collect();
    RuleSet::parse(root, &lines).0
}

fn dir(path: &str, rules: RuleSet, entries: Vec<Node>) -> Node {
    Node::Dir { path: path.to_string(), rules, entries: Ok(entries) }
}

fn pairs(files: &[FileRecord]) -> Vec<(String, usize)> {
    files.iter().map(|f| (f.path.clone(), f.line_count)).collect()
}

#[test]
fn vendored_directory_is_left_out() {
    let root = dir(
        "proj",
        rules_of("proj", &["vendor/"]),
        vec![
            file("proj/a.rs", 10),
            file("proj/b.rs", 5),
            file("proj/c.md", 3),
            dir("proj/vendor", RuleSet::empty(), vec![file("proj/vendor/d.rs", 100)]),
        ],
    );
    let files = list_files(&root);
    assert_eq!(
        pairs(&files),
        vec![
            ("proj/a.rs".to_string(), 10),
            ("proj/b.rs".to_string(), 5),
            ("proj/c.md".to_string(), 3),
        ]
    );
    let report = aggregate(&files);
    assert_eq!(report.summaries.len(), 2);
    assert_eq!(report.total_for("rs"), Some(15));
    assert_eq!(report.total_for("md"), Some(3));
    let top = report.top_files_for("rs").unwrap();
    assert_eq!(
        pairs(top),
        vec![("proj/a.rs".to_string(), 10), ("proj/b.rs".to_string(), 5)]
    );
}

#[test]
fn other_extensions_are_absent() {
    let root = dir(
        "proj",
        RuleSet::empty(),
        vec![
            file("proj/image.png", 40),
            file("proj/a.rs", 1),
            dir("proj/sub", RuleSet::empty(), vec![file("proj/sub/image.png", 7)]),
        ],
    );
    let files = list_files(&root);
    assert_eq!(pairs(&files), vec![("proj/a.rs".to_string(), 1)]);
    let report = aggregate(&files);
    assert_eq!(report.total_for("png"), None);
    assert!(report.top_files_for("png").is_none());
    assert_eq!(report.summaries.len(), 1);
}

#[test]
fn empty_directory_gives_empty_report() {
    let root = dir("proj", RuleSet::empty(), vec![]);
    let files = list_files(&root);
    assert!(files.is_empty());
    let report = aggregate(&files);
    assert!(report.summaries.is_empty());
}

#[test]
fn unreadable_file_counts_no_lines() {
    let root = dir(
        "proj",
        RuleSet::empty(),
        vec![
            Node::File { path: "proj/locked.rs".to_string(), lines: Err("permission denied".to_string()) },
            file("proj/open.rs", 4),
        ],
    );
    let found = survey(&root);
    assert_eq!(
        pairs(&found.files),
        vec![("proj/locked.rs".to_string(), 0), ("proj/open.rs".to_string(), 4)]
    );
    assert_eq!(found.problems.len(), 1);
    assert_eq!(found.problems[0].path, "proj/locked.rs");
    assert_eq!(found.problems[0].reason, "permission denied");
    let report = aggregate(&found.files);
    assert_eq!(report.total_for("rs"), Some(4));
    assert_eq!(
        pairs(report.top_files_for("rs").unwrap()),
        vec![("proj/open.rs".to_string(), 4), ("proj/locked.rs".to_string(), 0)]
    );
}

#[test]
fn negated_pattern_keeps_the_file() {
    let root = dir(
        "proj",
        rules_of("proj", &["*.md", "!important.md"]),
        vec![file("proj/notes.md", 9), file("proj/important.md", 2)],
    );
    let files = list_files(&root);
    assert_eq!(pairs(&files), vec![("proj/important.md".to_string(), 2)]);
}
