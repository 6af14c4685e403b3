use std::collections::VecDeque;

use sxhkd_visualiser::assembler::HotkeyCommand;
use sxhkd_visualiser::error::ConfigError;
use sxhkd_visualiser::pipeline::hotkey_commands;
use sxhkd_visualiser::sanitizer::{clean_line, clean_sxhkd_config_file};

fn raw(items: &[&str]) -> Vec<String> {
    items.iter().map(|s| s.to_string()).collect()
}

fn record(hotkey: &str, command: &str) -> HotkeyCommand {
    HotkeyCommand { hotkey: hotkey.to_string(), command: command.to_string() }
}

#[test]
fn test_clean_sxhkd_config_file() {
    let content = "\n\nhotkey\n#comment\ncommand\n   \n";
    let file_lines: Vec<String> = content.lines().map(|line| line.to_string()).collect();
    let cleaned_content = clean_sxhkd_config_file(file_lines);

    assert_eq!(cleaned_content, vec!["hotkey", "command"]);
}

#[test]
fn blank_lines_and_comments_are_dropped() {
    let cleaned = clean_sxhkd_config_file(raw(&["", "", "hotkey", "#comment", "command", "   "]));
    assert_eq!(cleaned, vec!["hotkey", "command"]);
    let records = hotkey_commands(raw(&["", "", "hotkey", "#comment", "command", "   "]));
    assert_eq!(records, Ok(vec![record("hotkey", "command")]));
}

#[test]
fn no_lines_clean_to_no_lines() {
    assert_eq!(clean_sxhkd_config_file(Vec::new()), VecDeque::<String>::new());
    assert_eq!(hotkey_commands(Vec::new()), Ok(Vec::new()));
}

#[test]
fn kept_lines_are_trimmed() {
    let cleaned = clean_sxhkd_config_file(raw(&["  super + a\t", "\tfirefox  ", " a  b "]));
    assert_eq!(cleaned, vec!["super + a", "firefox", "a  b"]);
}

#[test]
fn comment_may_be_indented() {
    assert_eq!(clean_line("   # a comment"), None);
    assert_eq!(clean_line("\t#"), None);
}

#[test]
fn hash_inside_a_line_is_no_comment() {
    assert_eq!(clean_line("echo a # b"), Some("echo a # b".to_string()));
    assert_eq!(clean_line(" a#"), Some("a#".to_string()));
}

#[test]
fn blank_line_is_dropped() {
    assert_eq!(clean_line(""), None);
    assert_eq!(clean_line(" \t \r"), None);
    assert_eq!(clean_line("\u{a0}\u{3000}\u{2003}"), None);
}

#[test]
fn white_space_beyond_ascii_is_trimmed() {
    assert_eq!(clean_line("\u{a0}super + é\u{3000} "), Some("super + é".to_string()));
}

#[test]
fn character_that_is_no_white_space_is_kept() {
    assert_eq!(clean_line("\u{200b}a"), Some("\u{200b}a".to_string()));
    assert_eq!(clean_line("_"), Some("_".to_string()));
}

#[test]
fn cleaning_twice_changes_nothing() {
    let once = clean_sxhkd_config_file(raw(&[" k1 ", "# c", "", "c1 \\", "  c1b", "\t"]));
    assert_eq!(once, vec!["k1", "c1 \\", "c1b"]);
    let twice = clean_sxhkd_config_file(once.iter().cloned().collect());
    assert_eq!(twice, once);
}

#[test]
fn ignored_lines_do_not_change_the_records() {
    let plain = hotkey_commands(raw(&["k1", "c1\\", "c1b", "k2", "c2"]));
    let padded = hotkey_commands(raw(&[
        "# head", "", "k1", "   ", "c1\\", "# inside", "c1b", "", "", "k2", "\t", "c2", "#",
    ]));
    assert_eq!(plain, Ok(vec![record("k1", "c1 c1b"), record("k2", "c2")]));
    assert_eq!(padded, plain);
}

#[test]
fn space_before_a_closing_backslash_is_kept() {
    let records = hotkey_commands(raw(&["k", "  echo a \\  ", "   b"]));
    assert_eq!(records, Ok(vec![record("k", "echo a  b")]));
}

#[test]
fn file_that_ends_with_a_hotkey_is_reported() {
    let records = hotkey_commands(raw(&["k1", "c1", "", "  k2  ", "# nothing more"]));
    assert_eq!(records, Err(ConfigError::MissingCommand { hotkey: "k2".to_string() }));
}
