use todooer::{comment_symbol, find_todo, get_priority, get_priority_and_proper, handle_t};

#[test]
fn test_find_todo() {
    let line1 = "TODOOOOOO";
    let res = todooer::find_todo(line1);
    assert!(res.is_ok());
    assert_eq!(res.unwrap(), 0);

    let line2 = "some other comments TODOOOOOO";
    let res = todooer::find_todo(line2);
    assert!(res.is_ok());
    assert_eq!(res.unwrap(), 20);

    let line = "some other T comments TODOOOOOO";
    let res = todooer::find_todo(line);
    assert!(res.is_ok());
    assert_eq!(res.unwrap(), 22);
}

#[test]
fn test_handle_t() {
    let line1 = "TODOOOOOO";
    let pattern = ".rs";
    let (_idx, priority, _proper) = todooer::handle_t(line1, pattern);
    assert_eq!(priority, 6);

    let line = "some other T comments TODOOOOOOOO";
    let (_idx, priority, _proper) = todooer::handle_t(line, pattern);
    assert_eq!(priority, 8);
}

#[test]
fn test_get_priority_and_proper() {
    let pattern = ".rs";
    let rem_6 = "TODOOOOOO";
    let old = "as long as last 3 good // ";
    let res = todooer::get_priority_and_proper(pattern, old, rem_6);
    assert_eq!(res, (6, true));

    let rem_17 = "TODOOOOOOOOOOOOOOOOO";
    let res = todooer::get_priority_and_proper(pattern, old, rem_17);
    assert_eq!(res, (17, true));

    let rem_17 = "TODOOOOOOOOOOOOOOOOO_OOOOOOOOOOO";
    let res = todooer::get_priority_and_proper(pattern, old, rem_17);
    assert_eq!(res, (17, true));

    let rem = "TODO";
    let res = todooer::get_priority_and_proper(pattern, old, rem);
    assert_eq!(res, (1, true));
}

#[test]
fn find_todo_reports_a_missing_marker() {
    assert_eq!(find_todo("nothing to see"), Err("No Todo Found"));
    assert_eq!(find_todo(""), Err("No Todo Found"));
    assert_eq!(find_todo("TOD O"), Err("No Todo Found"));
    assert_eq!(find_todo("todo in lower case"), Err("No Todo Found"));
}

#[test]
fn find_todo_gives_the_first_of_several_markers() {
    assert_eq!(find_todo("TODO and TODO"), Ok(0));
    assert_eq!(find_todo("TOTODO"), Ok(2));
}

#[test]
fn find_todo_counts_bytes_not_characters() {
    // 'é' takes two bytes in UTF-8.
    assert_eq!(find_todo("é TODO"), Ok(3));
    assert_eq!(find_todo("日本 TODO"), Ok(7));
}

#[test]
fn get_priority_counts_the_run_after_three_bytes() {
    assert_eq!(get_priority("TODO"), 1);
    assert_eq!(get_priority("TODOOO!"), 3);
    assert_eq!(get_priority("TOD"), 0);
    assert_eq!(get_priority("abcxxxy"), 3);
    assert_eq!(get_priority("abcééa"), 2);
}

#[test]
fn handle_t_without_a_marker() {
    assert_eq!(handle_t("plain text", ".rs"), (0, 0, false));
    assert_eq!(handle_t("", ".rs"), (0, 0, false));
}

#[test]
fn handle_t_reads_column_priority_and_comment() {
    assert_eq!(handle_t("    // TODOOO fix", ".rs"), (7, 3, true));
    assert_eq!(handle_t("    # TODO fix", ".py"), (6, 1, true));
    assert_eq!(handle_t("    # TODO fix", ".rs"), (6, 1, false));
    assert_eq!(handle_t("x = 1 //TODO", ".rs"), (8, 1, false));
    assert_eq!(handle_t("é // TODOO", ".rs"), (6, 2, true));
}

#[test]
fn proper_needs_a_known_pattern() {
    assert_eq!(get_priority_and_proper(".txt", "// ", "TODO"), (1, false));
    assert_eq!(get_priority_and_proper(".rs", "//", "TODO"), (1, false));
    assert_eq!(get_priority_and_proper(".rs", "", "TODO"), (1, false));
    assert_eq!(get_priority_and_proper(".py", "x # ", "TODOO"), (2, true));
}

#[test]
fn comment_symbols() {
    assert_eq!(comment_symbol(".rs"), Some("//"));
    assert_eq!(comment_symbol(".py"), Some("#"));
    assert_eq!(comment_symbol(".txt"), None);
    assert_eq!(comment_symbol("rs"), None);
    assert_eq!(comment_symbol(""), None);
}
