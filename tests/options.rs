use fstat::options::{FileStats, OutputOption};
use fstat::ordering::{chars_le, sort_by_path, sort_entries};
use fstat::templates::{
    render_template_end, render_template_post, render_template_prog, render_template_start,
    TemplateData,
};
use std::str::FromStr;

fn record(path: &str) -> FileStats {
    FileStats {
        path: path.to_string(),
        name: path.to_string(),
        is_dir: false,
        child_count: 0,
        has_children: false,
        depth: 0,
        index: 0,
        total: 1,
        first: true,
        last: true,
        parents_last: vec![],
        time_s: 0,
        size_mb: 0,
        size_b: 0,
    }
}

fn chars(s: &str) -> Vec<char> {
    s.chars().collect()
}

#[test]
fn output_option_names() {
    assert_eq!(OutputOption::parse("root"), Ok(OutputOption::Root));
    assert_eq!(OutputOption::parse("all"), Ok(OutputOption::All));
    assert_eq!(OutputOption::parse("ROOT"), Ok(OutputOption::Root));
    assert_eq!(OutputOption::parse("All"), Ok(OutputOption::All));
    assert!(OutputOption::parse("alls").is_err());
    assert!(OutputOption::parse("").is_err());
    assert_eq!(OutputOption::parse("nope"), Err("no match"));
}

#[test]
fn output_option_from_str() {
    assert_eq!(OutputOption::from_str("rOoT"), Ok(OutputOption::Root));
    assert_eq!("ALL".parse::<OutputOption>(), Ok(OutputOption::All));
    assert!(OutputOption::from_str("tree").is_err());
}

#[test]
fn output_option_from_lowercase() {
    assert_eq!(OutputOption::from_lowercase(&chars("root")), Ok(OutputOption::Root));
    assert_eq!(OutputOption::from_lowercase(&chars("all")), Ok(OutputOption::All));
    assert!(OutputOption::from_lowercase(&chars("Root")).is_err());
    assert!(OutputOption::from_lowercase(&chars("roo")).is_err());
}

#[test]
fn char_order() {
    assert!(chars_le(&chars("abc"), &chars("abd")));
    assert!(!chars_le(&chars("abd"), &chars("abc")));
    assert!(chars_le(&chars("ab"), &chars("abc")));
    assert!(!chars_le(&chars("abc"), &chars("ab")));
    assert!(chars_le(&chars(""), &chars("")));
    assert!(chars_le(&chars("B"), &chars("a")));
    assert!(chars_le(&chars("same"), &chars("same")));
}

#[test]
fn entries_sorted_by_key() {
    let entries = vec![
        ((chars("c"), 0), record("c1")),
        ((chars("a"), 1), record("a")),
        ((chars("c"), 2), record("c2")),
        ((chars("b"), 3), record("b")),
        ((chars("ab"), 4), record("ab")),
    ];
    let sorted = sort_entries(entries);
    let keys: Vec<String> = sorted.iter().map(|e| e.0 .0.iter().collect()).collect();
    assert_eq!(keys, vec!["a", "ab", "b", "c", "c"]);
    let paths: Vec<&str> = sorted.iter().map(|e| e.1.path.as_str()).collect();
    assert_eq!(paths, vec!["a", "ab", "b", "c1", "c2"]);
}

#[test]
fn entries_with_equal_characters_follow_position() {
    let entries = vec![
        ((chars("k"), 5), record("late")),
        ((chars("k"), 1), record("early")),
        ((chars("j"), 9), record("first")),
    ];
    let sorted = sort_entries(entries);
    let paths: Vec<&str> = sorted.iter().map(|e| e.1.path.as_str()).collect();
    assert_eq!(paths, vec!["first", "early", "late"]);
}

#[test]
fn entries_edge_cases() {
    assert!(sort_entries(vec![]).is_empty());
    let one = sort_entries(vec![((chars("x"), 0), record("x"))]);
    assert_eq!(one.len(), 1);
    assert_eq!(one[0].1.path, "x");
}

#[test]
fn sort_many_records() {
    let mut recs = Vec::new();
    for i in 0..500u32 {
        recs.push(record(&format!("/d/{:03}", (i * 7919) % 500)));
    }
    let sorted = sort_by_path(recs);
    assert_eq!(sorted.len(), 500);
    for (i, r) in sorted.iter().enumerate() {
        assert_eq!(r.path, format!("/d/{:03}", i));
    }
}

#[test]
fn sort_ignores_case() {
    let recs = vec![record("/x/Beta"), record("/x/alpha"), record("/x/GAMMA"), record("/x")];
    let sorted = sort_by_path(recs);
    let paths: Vec<&str> = sorted.iter().map(|r| r.path.as_str()).collect();
    assert_eq!(paths, vec!["/x", "/x/alpha", "/x/Beta", "/x/GAMMA"]);
}

#[test]
fn sort_keeps_order_of_many_equal_keys() {
    let recs = vec![record("/X"), record("/b"), record("/x"), record("/a"), record("/x")];
    let sorted = sort_by_path(recs);
    let paths: Vec<&str> = sorted.iter().map(|r| r.path.as_str()).collect();
    assert_eq!(paths, vec!["/a", "/b", "/X", "/x", "/x"]);
}

#[test]
fn sort_keeps_order_of_equal_keys() {
    let recs = vec![record("/A"), record("/b"), record("/a")];
    let sorted = sort_by_path(recs);
    let paths: Vec<&str> = sorted.iter().map(|r| r.path.as_str()).collect();
    assert_eq!(paths, vec!["/A", "/a", "/b"]);
}

#[test]
fn sort_empty() {
    assert!(sort_by_path(vec![]).is_empty());
}

#[test]
fn templates_per_hook() {
    let data = TemplateData {
        post: "P {path}".to_string(),
        start: "S {path}".to_string(),
        prog: "G {size_b}".to_string(),
        end: "E {size_mb}".to_string(),
    };
    let (t, s) = render_template_post(record("/p"), &data);
    assert_eq!((t.as_str(), s.path.as_str()), ("P {path}", "/p"));
    let (t, s) = render_template_start(record("/s"), &data);
    assert_eq!((t.as_str(), s.path.as_str()), ("S {path}", "/s"));
    let (t, _) = render_template_prog(record("/g"), &data);
    assert_eq!(t, "G {size_b}");
    let (t, _) = render_template_end(record("/e"), &data);
    assert_eq!(t, "E {size_mb}");
}
