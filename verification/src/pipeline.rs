//! From the lines of a configuration file to its hotkeys: the lines are cleaned,
//! and what is left is paired up.

use crate::assembler::{
    assemble, is_parse_of, lemma_records_are_whole, parse_sxhkd_config_file_content,
    HotkeyCommand, Record,
};
use crate::error::ConfigError;
use crate::sanitizer::{
    clean_sxhkd_config_file, cleaned, counts, kept, lemma_cleaned_idempotent,
    lemma_cleaned_lines_are_clean, lemma_ignored_line_leaves_no_trace,
};
use crate::text::{ends_with_backslash, is_white_space};
use vstd::prelude::*;

verus! {

/// The records that a file with the lines `raw` holds, or the hotkey whose command
/// is missing.
pub open spec fn hotkeys(raw: Seq<Seq<char>>) -> Result<Seq<Record>, Seq<char>> {
    assemble(cleaned(raw))
}

/// Reads the hotkeys and their commands from the lines of a configuration file, as
/// they come from the file: blank lines and comments are passed over, the other
/// lines are trimmed and grouped.
pub fn hotkey_commands(config_file_content: Vec<String>) -> (r: Result<
    Vec<HotkeyCommand>,
    ConfigError,
>)
    ensures
        is_parse_of(cleaned(config_file_content.deep_view()), r),
{
    parse_sxhkd_config_file_content(clean_sxhkd_config_file(config_file_content))
}

/// Blank lines and comments do not count: a file holds the same records, or fails on
/// the same hotkey, with such a line put in at any place as without it.
pub proof fn lemma_ignored_lines_do_not_count(raw: Seq<Seq<char>>, at: int, line: Seq<char>)
    requires
        0 <= at <= raw.len(),
        kept(line) is None,
    ensures
        cleaned(raw.insert(at, line)) == cleaned(raw),
        hotkeys(raw.insert(at, line)) == hotkeys(raw),
{
    lemma_ignored_line_leaves_no_trace(raw, at, line);
}

/// However many blank lines and comments a file has, it holds what it holds without
/// any of them.
pub proof fn lemma_only_lines_that_count_are_read(raw: Seq<Seq<char>>)
    ensures
        hotkeys(raw.filter(counts())) == hotkeys(raw),
{
    crate::sanitizer::lemma_only_lines_that_count_are_read(raw);
}

/// Reading lines that have been cleaned before gives what reading the lines as they
/// came gives.
pub proof fn lemma_cleaning_once_is_enough(raw: Seq<Seq<char>>)
    ensures
        hotkeys(cleaned(raw)) == hotkeys(raw),
{
    lemma_cleaned_idempotent(raw);
}

/// In every record that is read from a file the hotkey is a line that was kept, so it
/// is not empty and no comment, and the command is not empty and ends neither in a
/// backslash nor in white space.
pub proof fn lemma_records_of_a_file_are_whole(raw: Seq<Seq<char>>)
    ensures
        hotkeys(raw) matches Ok(records) ==> forall|i: int|
            0 <= i < records.len() ==> {
                let record = #[trigger] records[i];
                &&& kept(record.hotkey) == Some(record.hotkey)
                &&& record.hotkey.len() > 0
                &&& record.hotkey.first() != '#'
                &&& record.command.len() > 0
                &&& !ends_with_backslash(record.command)
                &&& !is_white_space(record.command.last())
            },
{
    let lines = cleaned(raw);
    lemma_cleaned_lines_are_clean(raw);
    lemma_records_are_whole(lines);
    if let Ok(records) = hotkeys(raw) {
        assert forall|i: int| 0 <= i < records.len() implies {
            let record = #[trigger] records[i];
            &&& kept(record.hotkey) == Some(record.hotkey)
            &&& record.hotkey.len() > 0
            &&& record.hotkey.first() != '#'
            &&& record.command.len() > 0
            &&& !ends_with_backslash(record.command)
            &&& !is_white_space(record.command.last())
        } by {
            let record = records[i];
            let at = choose|j: int| 0 <= j < lines.len() && lines[j] == record.hotkey;
            assert(kept(lines[at]) == Some(lines[at]));
            let end = choose|j: int|
                0 <= j < lines.len() && record.command.last() == (#[trigger] lines[j]).last();
            assert(!is_white_space(lines[end].last()));
        }
    }
}

} // verus!
