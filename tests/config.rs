use vimoxide::file_handling::editor_command;
use vimoxide::utils::{config_from_executor, config_from_json, fallback, ConfigErrorKind};

#[test]
fn invalid_json_gives_vim() {
    let r = config_from_json("{ not json");
    assert_eq!(r.value.executor, "vim");
    assert!(r.used_default);
    assert_eq!(r.reason, Some(ConfigErrorKind::Malformed));
}

#[test]
fn unknown_executor_gives_vim() {
    let r = config_from_json("{\"executor\": \"emacs\"}");
    assert_eq!(r.value.executor, "vim");
    assert!(r.used_default);
    assert_eq!(r.reason, Some(ConfigErrorKind::UnknownExecutor));
}

#[test]
fn nvim_is_kept() {
    let r = config_from_json("{\n  \"executor\": \"nvim\"\n}");
    assert_eq!(r.value.executor, "nvim");
    assert!(!r.used_default);
    assert_eq!(r.reason, None);
    let r = config_from_json("{\"executor\": \"vim\", \"other\": 1}");
    assert_eq!(r.value.executor, "vim");
    assert!(!r.used_default);
}

#[test]
fn missing_or_non_string_executor_gives_vim() {
    for text in ["{}", "{\"executor\": 3}", "[\"nvim\"]", "\"nvim\""] {
        let r = config_from_json(text);
        assert_eq!(r.value.executor, "vim");
        assert_eq!(r.reason, Some(ConfigErrorKind::Malformed));
    }
}

#[test]
fn executor_field_decides() {
    assert_eq!(config_from_executor(Some("nvim")).value.executor, "nvim");
    assert_eq!(config_from_executor(Some("emacs")).reason, Some(ConfigErrorKind::UnknownExecutor));
    assert_eq!(config_from_executor(None).reason, Some(ConfigErrorKind::Malformed));
}

#[test]
fn unreadable_file_gives_vim() {
    let r = fallback(ConfigErrorKind::Unreadable);
    assert_eq!(r.value.executor, "vim");
    assert!(r.used_default);
    assert_eq!(r.reason, Some(ConfigErrorKind::Unreadable));
}

#[test]
fn editor_command_picks_program_and_argument() {
    let c = editor_command("/a/x.txt", "nvim");
    assert_eq!(c.program, "nvim");
    assert_eq!(c.args, vec!["/a/x.txt".to_string()]);
    assert!(!c.unknown_executor);
    let c = editor_command("", "vim");
    assert_eq!(c.program, "vim");
    assert!(c.args.is_empty());
    let c = editor_command("f", "emacs");
    assert_eq!(c.program, "vim");
    assert!(c.unknown_executor);
}

#[test]
fn executor_found_in_nested_layout() {
    let r = config_from_json("  {\"other\": {\"executor\": \"vim\"}, \"executor\": \"nvim\"}  ");
    assert_eq!(r.value.executor, "nvim");
    let r = config_from_json("{\"other\": {\"executor\": \"nvim\"}}");
    assert_eq!(r.reason, Some(ConfigErrorKind::Malformed));
}
