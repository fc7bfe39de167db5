use vimoxide::database::{find_best_match, update_database};
use vimoxide::history::parse_history;
use vimoxide::installer::{config_json, executor_from_answer, get_shell_config, shell_name};

#[test]
fn shell_names() {
    assert_eq!(shell_name("/bin/bash"), "bash");
    assert_eq!(shell_name("/usr/bin/zsh"), "zsh");
    assert_eq!(shell_name("/usr/local/bin/fish"), "fish");
    assert_eq!(shell_name("/bin/tcsh"), "/bin/tcsh");
}

#[test]
fn shell_config_paths() {
    assert_eq!(get_shell_config("/home/u", "bash"), "/home/u/.bashrc");
    assert_eq!(get_shell_config("/home/u/", "zsh"), "/home/u/.zshrc");
    assert_eq!(get_shell_config("/home/u", "fish"), "/home/u/.config/fish/config.fish");
    assert_eq!(get_shell_config("/home/u", "/bin/tcsh"), "/home/u/.bashrc");
}

#[test]
fn executor_answers() {
    assert_eq!(executor_from_answer("\n"), "nvim");
    assert_eq!(executor_from_answer("  vim \n"), "vim");
    assert_eq!(executor_from_answer("\u{3000}nvim\u{a0}\t"), "nvim");
    assert_eq!(executor_from_answer("a b"), "a b");
}

#[test]
fn config_file_text() {
    assert_eq!(config_json("nvim"), "{\n  \"executor\": \"nvim\"\n}");
    assert_eq!(config_json("a\"b"), "{\n  \"executor\": \"a\\\"b\"\n}");
}

#[test]
fn database_matches_by_substring_only() {
    let db = parse_history("/a/foo.txt\t1\n/a/foobar.txt\t10\n");
    assert_eq!(find_best_match(&db, "foo", &vec![true, true]), Some("/a/foobar.txt".to_string()));
    assert_eq!(find_best_match(&db, "nothing", &vec![true, true]), Some("nothing".to_string()));
}

#[test]
fn database_counts_only_existing_files() {
    let mut db = parse_history("");
    update_database(&mut db, "/no/such/file", false);
    assert_eq!(db.len(), 0);
    update_database(&mut db, "/a/x.txt", true);
    update_database(&mut db, "/a/x.txt", true);
    assert_eq!(db.entries()[0].rank, 2);
}
