use todooer::{
    examine_dir, file_lines, gather_comments, get_comment_lines, path_matches, walk_file_for_lines,
    Report,
};

fn text(lines: &[&str]) -> Vec<String> {
    lines.iter().map(|s| s.to_string()).collect()
}

#[test]
fn test_walk_file() {
    let path = "./src/main.rs";
    let pattern = ".rs";
    let contents = text(&[
        "use std::{collections::HashMap, io::{self, stdout, Error, ErrorKind}, path::PathBuf};",
        "//Searches a path for duplicate files",
        "use clap::Parser;",
        "#[derive(Parser)]",
        "#[command(name = \"todooer\")]",
        "#[clap(",
        "    version = \"1.0\",",
        "    author = \"r4z4\",",
        "    about = \"Retrieve TODO or FIXME like comments from code files to view\",",
        "    after_help = \"Example: todooer report --path . --pattern .txt\"",
        ")]",
    ]);
    let lines = todooer::walk_file_for_lines(path, pattern, Some(&contents)).unwrap();
    assert!(lines.len() > 0)
}

#[test]
fn get_comment_lines_keeps_marked_lines_in_order() {
    let contents = text(&["fn main() {", "", "    // TODO one", "x", "TODOOO", "todo"]);
    let found = get_comment_lines(&contents);
    assert_eq!(
        found,
        vec![(2, "    // TODO one".to_string()), (4, "TODOOO".to_string())]
    );
    assert!(get_comment_lines(&Vec::new()).is_empty());
}

#[test]
fn walk_file_numbers_from_zero() {
    let contents = text(&["a", "b // TODOO later", "c"]);
    let lines = walk_file_for_lines("main.rs", ".rs", Some(&contents)).unwrap();
    assert_eq!(lines.len(), 1);
    assert_eq!(lines[0].line_text, "b // TODOO later");
    assert_eq!(lines[0].line_num, 1);
    assert_eq!(lines[0].priority, 2);
    assert_eq!(lines[0].filename, "main.rs");
    assert_eq!(lines[0].row_index, 5);
}

#[test]
fn walk_file_without_text_fails() {
    let r = walk_file_for_lines("gone.rs", ".rs", None);
    assert_eq!(r.unwrap_err(), "No lines");
}

#[test]
fn file_lines_numbers_from_one() {
    let contents = text(&["a", "b // TODOO later", "TODO"]);
    let lines = file_lines("./src/a.rs", &contents);
    assert_eq!(lines.len(), 2);
    assert_eq!(lines[0].line_num, 2);
    assert_eq!(lines[0].filename, "./src/a.rs");
    assert_eq!(lines[1].line_num, 3);
    assert_eq!(lines[1].priority, 1);
    assert_eq!(lines[1].row_index, 0);
}

#[test]
fn path_matching() {
    assert!(path_matches("./src/main.rs", ".rs"));
    assert!(!path_matches("./src/main.py", ".rs"));
    assert!(path_matches("anything", ""));
}

#[test]
fn report_insert_then_get() {
    let mut r = Report::new();
    assert_eq!(r.len(), 0);
    assert!(r.get("a.rs").is_none());
    r.insert("a.rs".to_string(), file_lines("a.rs", &text(&["TODO"])));
    r.insert("b.rs".to_string(), Vec::new());
    assert_eq!(r.len(), 2);
    assert_eq!(r.get("a.rs").unwrap().len(), 1);
    r.insert("a.rs".to_string(), Vec::new());
    assert_eq!(r.len(), 2);
    assert!(r.get("a.rs").unwrap().is_empty());
    assert!(r.get("c.rs").is_none());
    let entries = r.into_entries();
    assert_eq!(entries.len(), 2);
    assert_eq!(entries[0].0, "a.rs");
    assert_eq!(entries[1].0, "b.rs");
}

#[test]
fn gather_comments_gathers_matching_readable_files() {
    let files = vec![
        ("./a.rs".to_string(), Some(text(&["// TODO a", "x"]))),
        ("./b.py".to_string(), Some(text(&["# TODO b"]))),
        ("./c.rs".to_string(), None),
        ("./d.rs".to_string(), Some(text(&["nothing"]))),
        ("./a.rs".to_string(), Some(text(&["x", "y", "// TODOOO a2"]))),
    ];
    let report = gather_comments(&files, ".rs");
    assert_eq!(report.len(), 2);
    let a = report.get("./a.rs").unwrap();
    assert_eq!(a.len(), 1);
    assert_eq!(a[0].line_num, 3);
    assert_eq!(a[0].priority, 3);
    assert!(report.get("./d.rs").unwrap().is_empty());
    assert!(report.get("./b.py").is_none());
    assert!(report.get("./c.rs").is_none());
}

#[test]
fn numbering_differs_by_one_between_walk_and_file_lines() {
    let contents = text(&["TODO a", "b", "// TODOOO c", "TODO"]);
    let zero = walk_file_for_lines("x.rs", ".rs", Some(&contents)).unwrap();
    let one = file_lines("x.rs", &contents);
    assert_eq!(zero.len(), one.len());
    for (a, b) in zero.iter().zip(one.iter()) {
        assert_eq!(b.line_num, a.line_num + 1);
        assert_eq!(b.line_text, a.line_text);
        assert_eq!(b.priority, a.priority);
        assert_eq!(b.row_index, a.row_index);
    }
}

#[test]
fn described_lines_name_marked_lines_in_order() {
    let contents = text(&["x", "TODO a", "", "y // TODO", "z"]);
    let lines = walk_file_for_lines("x.rs", ".rs", Some(&contents)).unwrap();
    let nums: Vec<usize> = lines.iter().map(|l| l.line_num).collect();
    assert_eq!(nums, vec![1, 3]);
    for l in &lines {
        assert_eq!(l.line_text, contents[l.line_num]);
        assert!(l.priority >= 1);
    }
}

#[test]
fn get_comment_lines_keeps_fixme_lines() {
    let contents = text(&["FIXME later", "x", "// TODO and FIXME", "fixme"]);
    let found = get_comment_lines(&contents);
    assert_eq!(
        found,
        vec![(0, "FIXME later".to_string()), (2, "// TODO and FIXME".to_string())]
    );
}

#[test]
fn fixme_lines_have_no_column_or_priority() {
    let contents = text(&["x", "    // FIXME soon"]);
    let lines = walk_file_for_lines("a.rs", ".rs", Some(&contents)).unwrap();
    assert_eq!(lines.len(), 1);
    assert_eq!(lines[0].line_num, 1);
    assert_eq!(lines[0].row_index, 0);
    assert_eq!(lines[0].priority, 0);
}

#[test]
fn examine_dir_keeps_the_last_file_under_one_key() {
    let files = vec![
        ("lib.rs".to_string(), Some(text(&["// TODO x"]))),
        ("notes.txt".to_string(), Some(text(&["TODO y"]))),
        ("main.rs".to_string(), Some(text(&["a", "// TODOO z"]))),
        ("gone.rs".to_string(), None),
    ];
    let report = examine_dir(&files, ".rs");
    assert_eq!(report.len(), 1);
    let lines = report.get("Todo").unwrap();
    assert_eq!(lines.len(), 1);
    assert_eq!(lines[0].filename, "main.rs");
    assert_eq!(lines[0].line_num, 2);
    assert_eq!(lines[0].priority, 2);
    assert!(report.get("main.rs").is_none());
}

#[test]
fn examine_dir_of_nothing_is_empty() {
    let files = vec![("notes.txt".to_string(), Some(text(&["TODO y"])))];
    assert_eq!(examine_dir(&files, ".rs").len(), 0);
}

#[test]
fn relisting_a_file_changes_nothing() {
    let files = vec![
        ("./a.rs".to_string(), Some(text(&["// TODO a"]))),
        ("./b.rs".to_string(), Some(text(&["// TODOO b"]))),
    ];
    let mut twice = files.clone();
    twice.push(files[0].clone());
    let r1 = gather_comments(&files, ".rs").into_entries();
    let r2 = gather_comments(&twice, ".rs").into_entries();
    assert_eq!(r1.len(), r2.len());
    for (k, v) in &r1 {
        let w = &r2.iter().find(|(k2, _)| k2 == k).unwrap().1;
        assert_eq!(format!("{:?}", v), format!("{:?}", w));
    }
}
