use vimoxide::history::{find_best_match, parse_history, render_history, update_history, History};

fn all_live(db: &History) -> Vec<bool> {
    vec![true; db.len()]
}

fn ranks(db: &History) -> Vec<(String, usize)> {
    db.entries().iter().map(|e| (e.path.clone(), e.rank)).collect()
}

#[test]
fn exact_stem_beats_higher_ranked_substring() {
    let db = parse_history("/a/foo.txt\t10\n/a/foobar.txt\t1\n");
    let live = all_live(&db);
    assert_eq!(find_best_match(&db, "foo", false, &live), Some("/a/foo.txt".to_string()));
    let db = parse_history("/a/foobar.txt\t50\n/a/foo.txt\t1\n");
    let live = all_live(&db);
    assert_eq!(find_best_match(&db, "foo", false, &live), Some("/a/foo.txt".to_string()));
}

#[test]
fn higher_rank_wins_among_substring_matches() {
    let db = parse_history("/a/report1.md\t2\n/a/report2.md\t5\n");
    let live = all_live(&db);
    assert_eq!(find_best_match(&db, "report", false, &live), Some("/a/report2.md".to_string()));
}

#[test]
fn unmatched_query_is_returned_unchanged() {
    let db = History::new();
    assert_eq!(find_best_match(&db, "doesnotexist", false, &vec![]), Some("doesnotexist".to_string()));
    let db = parse_history("/a/report1.md\t2\n");
    assert_eq!(find_best_match(&db, "zzz", false, &vec![true]), Some("zzz".to_string()));
}

#[test]
fn existing_query_is_returned_unchanged() {
    let db = parse_history("/a/foo.txt\t10\n");
    assert_eq!(find_best_match(&db, "foo", true, &vec![true]), Some("foo".to_string()));
}

#[test]
fn vanished_files_are_not_substring_matches() {
    let db = parse_history("/a/report1.md\t2\n/a/report2.md\t5\n");
    assert_eq!(find_best_match(&db, "report", false, &vec![true, false]), Some("/a/report1.md".to_string()));
    assert_eq!(find_best_match(&db, "report", false, &vec![false, false]), Some("report".to_string()));
}

#[test]
fn equal_ranks_pick_the_earliest_entry() {
    let db = parse_history("/x/notes_b.md\t3\n/x/notes_a.md\t3\n");
    let live = all_live(&db);
    assert_eq!(find_best_match(&db, "notes", false, &live), Some("/x/notes_b.md".to_string()));
    let db = parse_history("/x/a/todo.txt\t1\n/x/b/todo.md\t4\n");
    let live = all_live(&db);
    assert_eq!(find_best_match(&db, "todo", false, &live), Some("/x/b/todo.md".to_string()));
}

#[test]
fn substring_of_extension_matches_file_name() {
    let db = parse_history("/a/main.rs\t1\n");
    assert_eq!(find_best_match(&db, "n.r", false, &vec![true]), Some("/a/main.rs".to_string()));
    assert_eq!(find_best_match(&db, "a/m", false, &vec![true]), Some("a/m".to_string()));
}

#[test]
fn dot_files_keep_their_whole_name_as_stem() {
    let db = parse_history("/home/u/.bashrc\t1\n/home/u/b.tar.gz\t1\n");
    let live = all_live(&db);
    assert_eq!(find_best_match(&db, ".bashrc", false, &live), Some("/home/u/.bashrc".to_string()));
    assert_eq!(find_best_match(&db, "b.tar", false, &live), Some("/home/u/b.tar.gz".to_string()));
}

#[test]
fn parse_reads_records_and_skips_bad_lines() {
    let db = parse_history("/a\t1\nbad line\n/b\tx\n/c\t1\t2\n/d\t+7\r\n\n/e\t99999999999999999999999\n/f\t3");
    assert_eq!(ranks(&db), vec![("/a".to_string(), 1), ("/d".to_string(), 7), ("/f".to_string(), 3)]);
}

#[test]
fn parse_keeps_the_last_rank_of_a_repeated_path() {
    let db = parse_history("/a\t1\n/b\t2\n/a\t5\n");
    assert_eq!(ranks(&db), vec![("/a".to_string(), 5), ("/b".to_string(), 2)]);
}

#[test]
fn parse_of_empty_text_is_empty() {
    assert_eq!(parse_history("").len(), 0);
    assert_eq!(parse_history("\n\n").len(), 0);
}

#[test]
fn render_writes_one_line_per_entry() {
    let db = parse_history("/a/x.txt\t12\n/b/y.txt\t0\n");
    assert_eq!(render_history(&db), "/a/x.txt\t12\n/b/y.txt\t0\n");
    assert_eq!(render_history(&History::new()), "");
}

#[test]
fn save_load_save_round_trip() {
    let text = "/a/x.txt\t12\n/b/y.txt\t18446744073709551615\n/c\t0\n";
    let db = parse_history(text);
    let again = parse_history(&render_history(&db));
    assert_eq!(ranks(&again), ranks(&db));
    assert_eq!(render_history(&again), text);
}

#[test]
fn increment_then_reload_adds_one() {
    let mut db = parse_history("/a/x.txt\t4\n");
    update_history(&mut db, "/a/x.txt", true);
    let reloaded = parse_history(&render_history(&db));
    assert_eq!(ranks(&reloaded), vec![("/a/x.txt".to_string(), 5)]);
    update_history(&mut db, "/a/new.txt", true);
    let reloaded = parse_history(&render_history(&db));
    assert_eq!(ranks(&reloaded), vec![("/a/x.txt".to_string(), 5), ("/a/new.txt".to_string(), 1)]);
}

#[test]
fn increment_of_missing_path_changes_nothing() {
    let mut db = parse_history("/a/x.txt\t4\n");
    let before = render_history(&db);
    update_history(&mut db, "/no/such/file", false);
    assert_eq!(render_history(&db), before);
    assert_eq!(render_history(&parse_history(&render_history(&db))), before);
}

#[test]
fn increment_stops_at_the_largest_rank() {
    let mut db = parse_history("/a\t18446744073709551615\n");
    update_history(&mut db, "/a", true);
    assert_eq!(ranks(&db), vec![("/a".to_string(), usize::MAX)]);
}

#[test]
fn trailing_slash_is_ignored_in_file_names() {
    let db = parse_history("/x/dir/\t1\n/x/..\t9\n");
    let live = all_live(&db);
    assert_eq!(find_best_match(&db, "dir", false, &live), Some("/x/dir/".to_string()));
    assert_eq!(find_best_match(&db, ".", false, &live), Some(".".to_string()));
    let db = parse_history("/x/notes.txt/.\t1\n/x/.\t2\n");
    let live = all_live(&db);
    assert_eq!(find_best_match(&db, "notes", false, &live), Some("/x/notes.txt/.".to_string()));
}
