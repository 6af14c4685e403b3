//! Pairing the cleaned lines of a configuration into hotkeys and commands.
//!
//! A record is a hotkey line followed by the lines of its command. A command
//! line that ends in a backslash is continued on the next line; the command ends
//! with the first line that does not.

use crate::error::ConfigError;
use crate::text::{ends_with_backslash, strip_continuation, without_closing_backslash};
use std::collections::VecDeque;
use vstd::prelude::*;
use vstd::string::StringExecFns;

verus! {

/// A hotkey and the command that it runs.
#[derive(Debug, PartialEq, Eq)]
pub struct HotkeyCommand {
    /// The line that defines the key chord, as it stood in the file.
    pub hotkey: String,
    /// The command, its continuation lines joined by single spaces.
    pub command: String,
}

/// What a [`HotkeyCommand`] holds, as sequences of characters.
pub struct Record {
    pub hotkey: Seq<char>,
    pub command: Seq<char>,
}

impl View for HotkeyCommand {
    type V = Record;

    open spec fn view(&self) -> Record {
        Record { hotkey: self.hotkey@, command: self.command@ }
    }
}

impl DeepView for HotkeyCommand {
    type V = Record;

    open spec fn deep_view(&self) -> Record {
        self.view()
    }
}

/// What one command line adds to its command: a continued line gives its text
/// without the backslash that ends it and a single space, the closing line gives
/// itself.
pub open spec fn fragment(line: Seq<char>) -> Seq<char> {
    if ends_with_backslash(line) {
        line.drop_last().push(' ')
    } else {
        line
    }
}

/// The command that `lines` spell out, one fragment after the other.
pub open spec fn command_text(lines: Seq<Seq<char>>) -> Seq<char>
    decreases lines.len(),
{
    if lines.len() == 0 {
        Seq::empty()
    } else {
        command_text(lines.drop_last()) + fragment(lines.last())
    }
}

/// How many lines the command at the head of `lines` takes: all up to and including
/// the first that does not end in a backslash. `None` where every line is continued,
/// so that the command never closes.
pub open spec fn command_extent(lines: Seq<Seq<char>>) -> Option<nat>
    decreases lines.len(),
{
    if lines.len() == 0 {
        None
    } else if !ends_with_backslash(lines.first()) {
        Some(1)
    } else {
        match command_extent(lines.drop_first()) {
            Some(n) => Some(n + 1),
            None => None,
        }
    }
}

/// A command takes at least one line and no more than there are.
pub proof fn lemma_command_extent_bounds(lines: Seq<Seq<char>>)
    ensures
        command_extent(lines) matches Some(n) ==> 1 <= n <= lines.len(),
    decreases lines.len(),
{
    if lines.len() > 0 && ends_with_backslash(lines.first()) {
        lemma_command_extent_bounds(lines.drop_first());
    }
}

/// `records` in front of what the rest of the lines gave.
pub open spec fn preceded_by(
    records: Seq<Record>,
    rest: Result<Seq<Record>, Seq<char>>,
) -> Result<Seq<Record>, Seq<char>> {
    match rest {
        Ok(more) => Ok(records + more),
        Err(hotkey) => Err(hotkey),
    }
}

/// The records that `lines` hold, in their order: the first line is a hotkey, the
/// lines of its command follow, and the lines after them are read in the same way.
/// Where the lines end before a command is complete, the result is the hotkey
/// which that command belongs to.
pub open spec fn assemble(lines: Seq<Seq<char>>) -> Result<Seq<Record>, Seq<char>>
    decreases lines.len(),
{
    if lines.len() == 0 {
        Ok(Seq::empty())
    } else {
        let hotkey = lines.first();
        let body = lines.drop_first();
        match command_extent(body) {
            None => Err(hotkey),
            Some(n) => {
                proof {
                    lemma_command_extent_bounds(body);
                }
                preceded_by(
                    seq![Record { hotkey, command: command_text(body.take(n as int)) }],
                    assemble(body.skip(n as int)),
                )
            },
        }
    }
}

/// The command closes with the line at `k` when that is the first line that does not
/// end in a backslash.
pub proof fn lemma_command_extent_at(lines: Seq<Seq<char>>, k: int)
    requires
        0 <= k < lines.len(),
        forall|j: int| 0 <= j < k ==> ends_with_backslash(#[trigger] lines[j]),
        !ends_with_backslash(lines[k]),
    ensures
        command_extent(lines) == Some((k + 1) as nat),
    decreases k,
{
    if k > 0 {
        assert(ends_with_backslash(lines[0]));
        let rest = lines.drop_first();
        assert forall|j: int| 0 <= j < k - 1 implies ends_with_backslash(#[trigger] rest[j]) by {
            assert(rest[j] == lines[j + 1]);
        }
        lemma_command_extent_at(rest, k - 1);
    }
}

/// The command never closes when every line ends in a backslash.
pub proof fn lemma_command_extent_none(lines: Seq<Seq<char>>)
    requires
        forall|j: int| 0 <= j < lines.len() ==> ends_with_backslash(#[trigger] lines[j]),
    ensures
        command_extent(lines) is None,
    decreases lines.len(),
{
    if lines.len() > 0 {
        assert(ends_with_backslash(lines[0]));
        let rest = lines.drop_first();
        assert forall|j: int| 0 <= j < rest.len() implies ends_with_backslash(#[trigger] rest[j]) by {
            assert(rest[j] == lines[j + 1]);
        }
        lemma_command_extent_none(rest);
    }
}

/// Whether `fragments` are the lines of exactly one command: there is a line, the last
/// one closes the command, and every line before it is continued.
pub open spec fn is_command(fragments: Seq<Seq<char>>) -> bool {
    &&& fragments.len() > 0
    &&& !ends_with_backslash(fragments.last())
    &&& forall|j: int| 0 <= j < fragments.len() - 1 ==> ends_with_backslash(#[trigger] fragments[j])
}

/// `parts` one after the other with a single space between each two.
pub open spec fn joined_by_space(parts: Seq<Seq<char>>) -> Seq<char>
    decreases parts.len(),
{
    if parts.len() == 0 {
        Seq::empty()
    } else if parts.len() == 1 {
        parts.last()
    } else {
        joined_by_space(parts.drop_last()).push(' ') + parts.last()
    }
}

/// Each of `lines` without the backslash that ends it, if one does.
pub open spec fn without_continuation_marks(lines: Seq<Seq<char>>) -> Seq<Seq<char>> {
    Seq::new(lines.len(), |j: int| without_closing_backslash(lines[j]))
}

/// Whether `r` is an answer that [`parse_sxhkd_config_file_content`] may give for
/// `lines`: the records that the lines hold, or the hotkey whose command is missing.
pub open spec fn is_parse_of(
    lines: Seq<Seq<char>>,
    r: Result<Vec<HotkeyCommand>, ConfigError>,
) -> bool {
    match r {
        Ok(records) => assemble(lines) == Ok::<Seq<Record>, Seq<char>>(records.deep_view()),
        Err(e) => {
            &&& e matches ConfigError::MissingCommand { hotkey }
            &&& assemble(lines) == Err::<Seq<Record>, Seq<char>>(hotkey@)
        },
    }
}

/// The lines that a command takes are the lines of one command.
pub proof fn lemma_command_extent_is_command(lines: Seq<Seq<char>>)
    ensures
        command_extent(lines) matches Some(n) ==> n <= lines.len() && is_command(
            lines.take(n as int),
        ),
    decreases lines.len(),
{
    if lines.len() > 0 && ends_with_backslash(lines.first()) {
        let rest = lines.drop_first();
        lemma_command_extent_is_command(rest);
        if let Some(m) = command_extent(rest) {
            let head = lines.take(m as int + 1);
            let tail = rest.take(m as int);
            assert(head.last() == tail.last());
            assert forall|j: int| 0 <= j < head.len() - 1 implies ends_with_backslash(
                #[trigger] head[j],
            ) by {
                if j > 0 {
                    assert(head[j] == tail[j - 1]);
                }
            }
        }
    }
}

/// Lines that follow a command which closes do not change how many lines it takes.
pub proof fn lemma_command_extent_prefix(lines: Seq<Seq<char>>, more: Seq<Seq<char>>)
    ensures
        command_extent(lines) is Some ==> command_extent(lines + more) == command_extent(lines),
    decreases lines.len(),
{
    if lines.len() > 0 {
        assert((lines + more).first() == lines.first());
        assert((lines + more).drop_first() =~= lines.drop_first() + more);
        if ends_with_backslash(lines.first()) {
            lemma_command_extent_prefix(lines.drop_first(), more);
        }
    }
}

/// A file is read record by record: where the lines `a` hold whole records, the
/// lines `a` and then `b` hold those records and then whatever `b` holds.
pub proof fn lemma_assemble_concat(a: Seq<Seq<char>>, b: Seq<Seq<char>>)
    ensures
        assemble(a) matches Ok(records) ==> assemble(a + b) == preceded_by(records, assemble(b)),
    decreases a.len(),
{
    if a.len() == 0 {
        assert(a + b =~= b);
        if let Ok(more) = assemble(b) {
            assert(Seq::<Record>::empty() + more =~= more);
        }
    } else if let Ok(records) = assemble(a) {
        let hotkey = a.first();
        let body = a.drop_first();
        let n = command_extent(body)->0 as int;
        lemma_command_extent_bounds(body);
        lemma_command_extent_prefix(body, b);
        assert((a + b).first() == hotkey);
        assert((a + b).drop_first() =~= body + b);
        assert((body + b).take(n) =~= body.take(n));
        assert((body + b).skip(n) =~= body.skip(n) + b);
        lemma_assemble_concat(body.skip(n), b);
        let first = seq![Record { hotkey, command: command_text(body.take(n)) }];
        let others = assemble(body.skip(n))->Ok_0;
        assert(records == first + others);
        if let Ok(more) = assemble(b) {
            assert(first + (others + more) =~= (first + others) + more);
        }
    }
}

/// Continued lines spell out their texts, each without its closing backslash and each
/// followed by one space.
proof fn lemma_command_text_of_continued(lines: Seq<Seq<char>>)
    requires
        forall|j: int| 0 <= j < lines.len() ==> ends_with_backslash(#[trigger] lines[j]),
    ensures
        command_text(lines) == if lines.len() == 0 {
            Seq::<char>::empty()
        } else {
            joined_by_space(without_continuation_marks(lines)).push(' ')
        },
    decreases lines.len(),
{
    if lines.len() > 0 {
        let front = lines.drop_last();
        let marks = without_continuation_marks(lines);
        assert(ends_with_backslash(lines[lines.len() - 1]));
        assert forall|j: int| 0 <= j < front.len() implies ends_with_backslash(
            #[trigger] front[j],
        ) by {
            assert(front[j] == lines[j]);
        }
        lemma_command_text_of_continued(front);
        assert(marks.drop_last() =~= without_continuation_marks(front));
        assert(marks.last() == lines.last().drop_last());
        assert(command_text(lines) =~= joined_by_space(marks).push(' '));
    }
}

/// The command that the lines of one command spell out is their texts, each without
/// the backslash that marks it as continued, with a single space between each two. It
/// ends with the closing line as that line stands.
pub proof fn lemma_command_text_is_joined(fragments: Seq<Seq<char>>)
    requires
        is_command(fragments),
    ensures
        command_text(fragments) == joined_by_space(without_continuation_marks(fragments)),
        command_text(fragments).len() >= fragments.last().len(),
        command_text(fragments).skip(command_text(fragments).len() - fragments.last().len())
            == fragments.last(),
{
    let front = fragments.drop_last();
    let marks = without_continuation_marks(fragments);
    assert forall|j: int| 0 <= j < front.len() implies ends_with_backslash(#[trigger] front[j]) by {
        assert(front[j] == fragments[j]);
    }
    lemma_command_text_of_continued(front);
    assert(marks.drop_last() =~= without_continuation_marks(front));
    assert(marks.last() == fragments.last());
    let text = command_text(fragments);
    assert(text == command_text(front) + fragments.last());
    assert(text.skip(text.len() - fragments.last().len()) =~= fragments.last());
    if front.len() == 0 {
        assert(text =~= joined_by_space(marks));
    }
}

/// A hotkey and the lines of one command make one record: the hotkey as it stands,
/// and for the command the lines, each without the backslash that marks it as
/// continued, joined by single spaces.
pub proof fn lemma_continuation_joining(hotkey: Seq<char>, fragments: Seq<Seq<char>>)
    requires
        is_command(fragments),
    ensures
        assemble(seq![hotkey] + fragments) == Ok::<Seq<Record>, Seq<char>>(
            seq![
                Record {
                    hotkey,
                    command: joined_by_space(without_continuation_marks(fragments)),
                },
            ],
        ),
{
    let lines = seq![hotkey] + fragments;
    let n = fragments.len() as int;
    assert(lines.first() == hotkey);
    assert(lines.drop_first() =~= fragments);
    lemma_command_extent_at(fragments, n - 1);
    assert(fragments.take(n) =~= fragments);
    assert(fragments.skip(n) =~= Seq::<Seq<char>>::empty());
    lemma_command_text_is_joined(fragments);
    let record = Record { hotkey, command: command_text(fragments) };
    assert(assemble(fragments.skip(n)) == Ok::<Seq<Record>, Seq<char>>(Seq::empty()));
    assert(seq![record] + Seq::<Record>::empty() =~= seq![record]);
}

/// A hotkey whose command does not close is reported, whatever whole records stand
/// before it: after the hotkey there is no line at all, or every line after it ends
/// in a backslash.
pub proof fn lemma_unfinished_command(
    lines: Seq<Seq<char>>,
    hotkey: Seq<char>,
    fragments: Seq<Seq<char>>,
)
    requires
        assemble(lines) is Ok,
        forall|j: int| 0 <= j < fragments.len() ==> ends_with_backslash(#[trigger] fragments[j]),
    ensures
        assemble(lines + (seq![hotkey] + fragments)) == Err::<Seq<Record>, Seq<char>>(hotkey),
{
    let tail = seq![hotkey] + fragments;
    assert(tail.first() == hotkey);
    assert(tail.drop_first() =~= fragments);
    lemma_command_extent_none(fragments);
    lemma_assemble_concat(lines, tail);
}

/// Every record has its hotkey and the closing line of its command among the lines.
/// So where no line is empty, no hotkey and no command is empty, and where no line
/// ends in white space, no command does; and no command ends in a backslash.
pub proof fn lemma_records_are_whole(lines: Seq<Seq<char>>)
    requires
        forall|j: int| 0 <= j < lines.len() ==> (#[trigger] lines[j]).len() > 0,
    ensures
        assemble(lines) matches Ok(records) ==> forall|i: int|
            0 <= i < records.len() ==> {
                let record = #[trigger] records[i];
                &&& lines.contains(record.hotkey)
                &&& record.hotkey.len() > 0
                &&& record.command.len() > 0
                &&& !ends_with_backslash(record.command)
                &&& exists|j: int|
                    0 <= j < lines.len() && record.command.last() == (#[trigger] lines[j]).last()
            },
    decreases lines.len(),
{
    if lines.len() > 0 {
        if let Ok(records) = assemble(lines) {
            let hotkey = lines.first();
            let body = lines.drop_first();
            let n = command_extent(body)->0 as int;
            lemma_command_extent_is_command(body);
            let fragments = body.take(n);
            let rest = body.skip(n);
            assert forall|j: int| 0 <= j < rest.len() implies (#[trigger] rest[j]).len() > 0 by {
                assert(rest[j] == lines[j + n + 1]);
            }
            lemma_records_are_whole(rest);
            lemma_command_text_is_joined(fragments);
            let others = assemble(rest)->Ok_0;
            let first = Record { hotkey, command: command_text(fragments) };
            assert(records == seq![first] + others);
            assert(fragments.last() == lines[n]);
            assert forall|i: int| 0 <= i < records.len() implies {
                let record = #[trigger] records[i];
                &&& lines.contains(record.hotkey)
                &&& record.hotkey.len() > 0
                &&& record.command.len() > 0
                &&& !ends_with_backslash(record.command)
                &&& exists|j: int|
                    0 <= j < lines.len() && record.command.last() == (#[trigger] lines[j]).last()
            } by {
                let record = records[i];
                if i == 0 {
                    assert(record == first);
                    assert(lines[0] == hotkey);
                    let text = command_text(fragments);
                    let closing = fragments.last();
                    assert(text.skip(text.len() - closing.len()).last() == text.last());
                    assert(text.last() == lines[n].last());
                } else {
                    assert(record == others[i - 1]);
                    let at = choose|j: int| 0 <= j < rest.len() && rest[j] == record.hotkey;
                    assert(lines[at + n + 1] == record.hotkey);
                    let end = choose|j: int|
                        0 <= j < rest.len() && record.command.last() == (#[trigger] rest[j]).last();
                    assert(rest[end] == lines[end + n + 1]);
                }
            }
        }
    }
}

/// Parsing reads nothing but the lines: two answers for the same lines hold the same
/// records, or name the same hotkey.
pub proof fn lemma_parse_is_repeatable(
    lines: Seq<Seq<char>>,
    first: Result<Vec<HotkeyCommand>, ConfigError>,
    second: Result<Vec<HotkeyCommand>, ConfigError>,
)
    requires
        is_parse_of(lines, first),
        is_parse_of(lines, second),
    ensures
        match (first, second) {
            (Ok(a), Ok(b)) => a.deep_view() == b.deep_view(),
            (
                Err(ConfigError::MissingCommand { hotkey: a }),
                Err(ConfigError::MissingCommand { hotkey: b }),
            ) => a@ == b@,
            _ => false,
        },
{
}

/// Takes the lines of one command from the front of `queue` and returns the command.
/// Where the lines run out before the command closes, returns `None`.
fn take_command(queue: &mut VecDeque<String>) -> (r: Option<String>)
    ensures
        match command_extent(old(queue).deep_view()) {
            Some(n) => {
                &&& r matches Some(command)
                &&& command@ == command_text(old(queue).deep_view().take(n as int))
                &&& final(queue).deep_view() == old(queue).deep_view().skip(n as int)
            },
            None => r is None,
        },
{
    let ghost body = queue.deep_view();
    let ghost mut k: int = 0;
    let mut command = String::new();
    assert(body.skip(0) =~= body);
    assert(body.take(0) =~= Seq::<Seq<char>>::empty());
    loop
        invariant
            body == old(queue).deep_view(),
            0 <= k <= body.len(),
            queue.deep_view() == body.skip(k),
            forall|j: int| 0 <= j < k ==> ends_with_backslash(#[trigger] body[j]),
            command@ == command_text(body.take(k)),
        decreases body.len() - k,
    {
        let ghost before = queue.deep_view();
        match queue.pop_front() {
            None => {
                proof {
                    assert(before.len() == 0);
                    lemma_command_extent_none(body);
                }
                return None;
            },
            Some(line) => {
                proof {
                    assert(line@ == before[0]);
                    assert(queue.deep_view() =~= before.drop_first());
                    assert(before.drop_first() =~= body.skip(k + 1));
                    assert(body.take(k + 1).drop_last() =~= body.take(k));
                    reveal_strlit(" ");
                }
                match strip_continuation(line.as_str()) {
                    Some(head) => {
                        command.append(head);
                        command.append(" ");
                        proof {
                            assert(" "@ =~= seq![' ']);
                            assert(command@ =~= command_text(body.take(k)) + fragment(body[k]));
                            k = k + 1;
                        }
                    },
                    None => {
                        command.append(line.as_str());
                        proof {
                            lemma_command_extent_at(body, k);
                        }
                        return Some(command);
                    },
                }
            },
        }
    }
}

/// Groups the cleaned lines of a configuration into hotkeys and their commands, in
/// the order of the file.
///
/// Fails, naming the hotkey, where the lines end before the command of the last
/// hotkey is complete: there is no line after the hotkey, or the last line ends in a
/// backslash.
pub fn parse_sxhkd_config_file_content(clean_file_content: VecDeque<String>) -> (r: Result<
    Vec<HotkeyCommand>,
    ConfigError,
>)
    ensures
        is_parse_of(clean_file_content.deep_view(), r),
{
    let ghost all = clean_file_content.deep_view();
    let mut queue = clean_file_content;
    let mut hotkey_commands: Vec<HotkeyCommand> = Vec::new();
    assert(hotkey_commands.deep_view() + Seq::<Record>::empty() =~= hotkey_commands.deep_view());
    assert(hotkey_commands.deep_view() =~= Seq::<Record>::empty());
    while queue.len() > 0
        invariant
            all == clean_file_content.deep_view(),
            assemble(all) == preceded_by(hotkey_commands.deep_view(), assemble(queue.deep_view())),
        decreases queue@.len(),
    {
        let ghost lines = queue.deep_view();
        let ghost done = hotkey_commands.deep_view();
        let hotkey = queue.pop_front().unwrap();
        proof {
            assert(hotkey@ == lines.first());
            assert(queue.deep_view() =~= lines.drop_first());
            lemma_command_extent_bounds(lines.drop_first());
        }
        match take_command(&mut queue) {
            None => {
                assert(assemble(lines) == Err::<Seq<Record>, Seq<char>>(hotkey@));
                return Err(ConfigError::MissingCommand { hotkey });
            },
            Some(command) => {
                let ghost record = Record { hotkey: hotkey@, command: command@ };
                hotkey_commands.push(HotkeyCommand { hotkey, command });
                proof {
                    assert(hotkey_commands.deep_view() =~= done.push(record));
                    let rest = assemble(queue.deep_view());
                    if let Ok(more) = rest {
                        assert(done + (seq![record] + more) =~= done.push(record) + more);
                    }
                }
            },
        }
    }
    proof {
        assert(queue.deep_view() =~= Seq::<Seq<char>>::empty());
        assert(hotkey_commands.deep_view() + Seq::<Record>::empty()
            =~= hotkey_commands.deep_view());
    }
    Ok(hotkey_commands)
}

} // verus!
