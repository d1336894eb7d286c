use line_tally::record::FileRecord;
use line_tally::report::aggregate;
use line_tally::report::AggregateReport;
use line_tally::report::TOP_COUNT;
use line_tally::rules::RuleSet;
use line_tally::tally::tally;
use line_tally::walk::Node;

fn record(path: &str, line_count: usize, extension: &str) -> FileRecord {
    FileRecord { path: path.to_string(), line_count, extension: extension.to_string() }
}

fn ranking(report: &AggregateReport, extension: &str) -> Vec<(String, usize)> {
    report
        .top_files_for(extension)
        .unwrap()
        .iter()
        .map(|f| (f.path.clone(), f.line_count))
        .collect()
}

fn counts(report: &AggregateReport, extension: &str) -> Vec<usize> {
    report.top_files_for(extension).unwrap().iter().map(|f| f.line_count).collect()
}

fn ranks(rows: &[(&str, usize)]) -> Vec<(String, usize)> {
    rows.iter().map(|(p, n)| (p.to_string(), *n)).collect()
}

#[test]
fn no_files_give_an_empty_report() {
    let report = aggregate(&Vec::new());
    assert!(report.summaries.is_empty());
    assert_eq!(report.total_for("rs"), None);
    assert!(report.top_files_for("rs").is_none());
}

#[test]
fn totals_sum_by_extension() {
    let files = vec![
        record("a.rs", 10, "rs"),
        record("c.md", 3, "md"),
        record("b.rs", 5, "rs"),
        record("d.py", 0, "py"),
        record("e.rs", 100, "rs"),
    ];
    let report = aggregate(&files);
    assert_eq!(report.total_for("rs"), Some(115));
    assert_eq!(report.total_for("md"), Some(3));
    assert_eq!(report.total_for("py"), Some(0));
    assert_eq!(report.total_for("js"), None);
    assert_eq!(report.total_for(""), None);
}

#[test]
fn summaries_stand_in_the_order_of_first_occurrence() {
    let files = vec![
        record("c.md", 3, "md"),
        record("a.rs", 10, "rs"),
        record("d.md", 1, "md"),
        record("x.py", 2, "py"),
        record("b.rs", 5, "rs"),
    ];
    let report = aggregate(&files);
    let order: Vec<&str> = report.summaries.iter().map(|s| s.extension.as_str()).collect();
    assert_eq!(order, vec!["md", "rs", "py"]);
    let totals: Vec<u128> = report.summaries.iter().map(|s| s.total).collect();
    assert_eq!(totals, vec![4, 15, 2]);
}

#[test]
fn ranking_falls_by_line_count() {
    let files = vec![
        record("a.rs", 3, "rs"),
        record("b.rs", 50, "rs"),
        record("c.rs", 7, "rs"),
        record("d.md", 1000, "md"),
    ];
    let report = aggregate(&files);
    assert_eq!(ranking(&report, "rs"), ranks(&[("b.rs", 50), ("c.rs", 7), ("a.rs", 3)]));
    assert_eq!(ranking(&report, "md"), ranks(&[("d.md", 1000)]));
}

#[test]
fn ranking_keeps_five_files() {
    let files = vec![
        record("f1.js", 4, "js"),
        record("f2.js", 9, "js"),
        record("f3.js", 1, "js"),
        record("f4.js", 7, "js"),
        record("f5.js", 3, "js"),
        record("f6.js", 8, "js"),
        record("f7.js", 2, "js"),
    ];
    let report = aggregate(&files);
    assert_eq!(TOP_COUNT, 5);
    assert_eq!(
        ranking(&report, "js"),
        ranks(&[("f2.js", 9), ("f6.js", 8), ("f4.js", 7), ("f1.js", 4), ("f5.js", 3)])
    );
    assert_eq!(report.total_for("js"), Some(34));
}

#[test]
fn ranking_of_exactly_five_keeps_all() {
    let files = vec![
        record("a.py", 1, "py"),
        record("b.py", 2, "py"),
        record("c.py", 3, "py"),
        record("d.py", 4, "py"),
        record("e.py", 5, "py"),
    ];
    let report = aggregate(&files);
    assert_eq!(counts(&report, "py"), vec![5, 4, 3, 2, 1]);
}

#[test]
fn equal_counts_keep_the_order_in_which_they_were_met() {
    let files = vec![
        record("first.rs", 5, "rs"),
        record("big.rs", 9, "rs"),
        record("second.rs", 5, "rs"),
        record("third.rs", 5, "rs"),
        record("small.rs", 1, "rs"),
        record("fourth.rs", 5, "rs"),
        record("fifth.rs", 5, "rs"),
    ];
    let report = aggregate(&files);
    assert_eq!(
        ranking(&report, "rs"),
        ranks(&[("big.rs", 9), ("first.rs", 5), ("second.rs", 5), ("third.rs", 5), ("fourth.rs", 5)])
    );
}

#[test]
fn late_large_file_pushes_the_smallest_out() {
    let files = vec![
        record("a.ts", 10, "ts"),
        record("b.ts", 20, "ts"),
        record("c.ts", 30, "ts"),
        record("d.ts", 40, "ts"),
        record("e.ts", 50, "ts"),
        record("f.ts", 5, "ts"),
        record("g.ts", 45, "ts"),
    ];
    let report = aggregate(&files);
    assert_eq!(counts(&report, "ts"), vec![50, 45, 40, 30, 20]);
}

#[test]
fn top_files_never_hold_more_than_the_total() {
    let files = vec![
        record("a.css", 6, "css"),
        record("b.css", 6, "css"),
        record("c.css", 2, "css"),
        record("d.css", 9, "css"),
        record("e.css", 1, "css"),
        record("f.css", 1, "css"),
    ];
    let report = aggregate(&files);
    let top: u128 = counts(&report, "css").iter().map(|n| *n as u128).sum();
    assert_eq!(top, 24);
    assert_eq!(report.total_for("css"), Some(25));
}

#[test]
fn totals_do_not_wrap_at_the_word_size() {
    let files = vec![
        record("a.rs", usize::MAX, "rs"),
        record("b.rs", usize::MAX, "rs"),
        record("c.rs", 2, "rs"),
    ];
    let report = aggregate(&files);
    assert_eq!(report.total_for("rs"), Some(2 * (usize::MAX as u128) + 2));
}

#[test]
fn order_of_the_files_changes_no_total_and_no_ranked_count() {
    let one = vec![
        record("a.rs", 10, "rs"),
        record("b.rs", 5, "rs"),
        record("c.md", 3, "md"),
        record("d.rs", 5, "rs"),
        record("e.md", 8, "md"),
        record("f.rs", 1, "rs"),
        record("g.rs", 7, "rs"),
        record("h.rs", 2, "rs"),
    ];
    let other = vec![
        record("h.rs", 2, "rs"),
        record("e.md", 8, "md"),
        record("d.rs", 5, "rs"),
        record("g.rs", 7, "rs"),
        record("b.rs", 5, "rs"),
        record("a.rs", 10, "rs"),
        record("c.md", 3, "md"),
        record("f.rs", 1, "rs"),
    ];
    let first = aggregate(&one);
    let second = aggregate(&other);
    for extension in ["rs", "md", "py"] {
        assert_eq!(first.total_for(extension), second.total_for(extension));
    }
    assert_eq!(first.total_for("rs"), Some(30));
    assert_eq!(counts(&first, "rs"), vec![10, 7, 5, 5, 2]);
    assert_eq!(counts(&second, "rs"), vec![10, 7, 5, 5, 2]);
    assert_eq!(counts(&first, "md"), counts(&second, "md"));
    assert_eq!(
        ranking(&first, "rs"),
        ranks(&[("a.rs", 10), ("g.rs", 7), ("b.rs", 5), ("d.rs", 5), ("h.rs", 2)])
    );
    assert_eq!(
        ranking(&second, "rs"),
        ranks(&[("a.rs", 10), ("g.rs", 7), ("d.rs", 5), ("b.rs", 5), ("h.rs", 2)])
    );
}

#[test]
fn copy_of_a_record_is_equal_to_it() {
    let source = record("proj/a.rs", 42, "rs");
    let copy = source.duplicate();
    assert_eq!(copy.path, "proj/a.rs");
    assert_eq!(copy.line_count, 42);
    assert_eq!(copy.extension, "rs");
}

#[test]
fn tally_walks_and_reports() {
    let lines: Vec<String> = vec!["vendor/".to_string()];
    let root = Node::Dir {
        path: "proj".to_string(),
        rules: RuleSet::parse("proj", &lines).0,
        entries: Ok(vec![
            Node::File { path: "proj/a.rs".to_string(), lines: Ok(10) },
            Node::File { path: "proj/b.rs".to_string(), lines: Ok(5) },
            Node::File { path: "proj/c.md".to_string(), lines: Ok(3) },
            Node::File { path: "proj/image.png".to_string(), lines: Ok(77) },
            Node::Dir {
                path: "proj/vendor".to_string(),
                rules: RuleSet::empty(),
                entries: Ok(vec![Node::File {
                    path: "proj/vendor/d.rs".to_string(),
                    lines: Ok(100),
                }]),
            },
        ]),
    };
    let outcome = tally(&root);
    assert!(outcome.problems.is_empty());
    let report = outcome.report;
    assert_eq!(report.summaries.len(), 2);
    assert_eq!(report.total_for("rs"), Some(15));
    assert_eq!(report.total_for("md"), Some(3));
    assert_eq!(report.total_for("png"), None);
    assert_eq!(ranking(&report, "rs"), ranks(&[("proj/a.rs", 10), ("proj/b.rs", 5)]));
    assert_eq!(ranking(&report, "md"), ranks(&[("proj/c.md", 3)]));
}

fn leaf(path: &str, lines: usize) -> Node {
    Node::File { path: path.to_string(), lines: Ok(lines) }
}

fn branch(path: &str, patterns: &[&str], entries: Vec<Node>) -> Node {
    let lines: Vec<String> = patterns.iter().map(|l| l.to_string()).collect();
    Node::Dir { path: path.to_string(), rules: RuleSet::parse(path, &lines).0, entries: Ok(entries) }
}

#[test]
fn tree_read_in_another_order_gives_the_same_report() {
    let one = branch(
        "proj",
        &["*.json"],
        vec![
            leaf("proj/a.rs", 10),
            branch(
                "proj/src",
                &["!keep.json"],
                vec![
                    leaf("proj/src/b.rs", 10),
                    leaf("proj/src/keep.json", 2),
                    Node::File { path: "proj/src/c.rs".to_string(), lines: Err("busy".to_string()) },
                    branch("proj/src/deep", &[], vec![leaf("proj/src/deep/d.rs", 7), leaf("proj/src/deep/e.md", 1)]),
                ],
            ),
            leaf("proj/f.md", 4),
            leaf("proj/drop.json", 99),
        ],
    );
    let other = branch(
        "proj",
        &["*.json"],
        vec![
            leaf("proj/drop.json", 99),
            leaf("proj/f.md", 4),
            branch(
                "proj/src",
                &["!keep.json"],
                vec![
                    branch("proj/src/deep", &[], vec![leaf("proj/src/deep/e.md", 1), leaf("proj/src/deep/d.rs", 7)]),
                    Node::File { path: "proj/src/c.rs".to_string(), lines: Err("busy".to_string()) },
                    leaf("proj/src/keep.json", 2),
                    leaf("proj/src/b.rs", 10),
                ],
            ),
            leaf("proj/a.rs", 10),
        ],
    );
    let first = tally(&one);
    let second = tally(&other);
    for extension in ["rs", "md", "json", "py"] {
        assert_eq!(first.report.total_for(extension), second.report.total_for(extension));
    }
    assert_eq!(first.report.total_for("rs"), Some(27));
    assert_eq!(first.report.total_for("md"), Some(5));
    assert_eq!(first.report.total_for("json"), Some(2));
    assert_eq!(first.report.total_for("py"), None);
    for extension in ["rs", "md", "json"] {
        assert_eq!(counts(&first.report, extension), counts(&second.report, extension));
    }
    assert_eq!(counts(&first.report, "rs"), vec![10, 10, 7, 0]);
    assert_eq!(
        ranking(&first.report, "rs"),
        ranks(&[("proj/a.rs", 10), ("proj/src/b.rs", 10), ("proj/src/deep/d.rs", 7), ("proj/src/c.rs", 0)])
    );
    assert_eq!(
        ranking(&second.report, "rs"),
        ranks(&[("proj/src/b.rs", 10), ("proj/a.rs", 10), ("proj/src/deep/d.rs", 7), ("proj/src/c.rs", 0)])
    );
    assert_eq!(first.problems.len(), 1);
    assert_eq!(second.problems.len(), 1);
    assert_eq!(first.problems[0].path, second.problems[0].path);
}
