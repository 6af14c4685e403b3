//! Which lines of a configuration count: a line is trimmed, and dropped when
//! nothing is left of it or when what is left is a comment.

use crate::text::{is_white_space, lemma_trimmed_idempotent, lemma_trimmed_is_tight, trim, trimmed};
use std::collections::VecDeque;
use vstd::prelude::*;
use vstd::string::StringExecFns;

verus! {

/// What is kept of one line: the line without the white space around it, or nothing
/// when that is empty or begins with `#`.
pub open spec fn kept(line: Seq<char>) -> Option<Seq<char>> {
    let text = trimmed(line);
    if text.len() == 0 || text.first() == '#' {
        None
    } else {
        Some(text)
    }
}

/// [`kept`] as a value, to hand to `filter_map`.
pub open spec fn keep() -> spec_fn(Seq<char>) -> Option<Seq<char>> {
    |line: Seq<char>| kept(line)
}

/// The predicate "something of this line is kept".
pub open spec fn counts() -> spec_fn(Seq<char>) -> bool {
    |line: Seq<char>| kept(line) is Some
}

/// The lines that are kept of `raw`, trimmed and in their order.
pub open spec fn cleaned(raw: Seq<Seq<char>>) -> Seq<Seq<char>> {
    raw.filter_map(keep())
}

/// Trims one line and tells whether it counts: `None` for a blank line and for a
/// comment, else the trimmed line.
pub fn clean_line(line: &str) -> (r: Option<String>)
    ensures
        match r {
            Some(text) => kept(line@) == Some(text@),
            None => kept(line@) is None,
        },
{
    let text = trim(line);
    if text.is_empty() || text.get_char(0) == '#' {
        None
    } else {
        Some(String::from_str(text))
    }
}

/// Trims the lines of a configuration and drops the blank lines and the comments.
/// What is left keeps its order.
pub fn clean_sxhkd_config_file(config_file_content: Vec<String>) -> (r: VecDeque<String>)
    ensures
        r.deep_view() == cleaned(config_file_content.deep_view()),
{
    let ghost raw = config_file_content.deep_view();
    let mut file_content: VecDeque<String> = VecDeque::new();
    assert(raw.take(0) =~= Seq::<Seq<char>>::empty());
    assert(file_content.deep_view() =~= Seq::<Seq<char>>::empty());
    let n: usize = config_file_content.len();
    let mut i: usize = 0;
    while i < n
        invariant
            raw == config_file_content.deep_view(),
            n == config_file_content.len(),
            i <= n,
            file_content.deep_view() == cleaned(raw.take(i as int)),
        decreases n - i,
    {
        let ghost before = file_content.deep_view();
        proof {
            assert(raw.take(i + 1).drop_last() =~= raw.take(i as int));
            assert(raw.take(i + 1).last() == config_file_content[i as int]@);
        }
        match clean_line(config_file_content[i].as_str()) {
            Some(text) => {
                file_content.push_back(text);
                assert(file_content.deep_view() =~= before.push(text@));
            },
            None => {},
        }
        i += 1;
    }
    assert(raw.take(n as int) =~= raw);
    file_content
}

/// Cleaning goes line by line: what is kept of two runs of lines, one after the
/// other, is what is kept of the first and then what is kept of the second.
pub proof fn lemma_cleaned_concat(a: Seq<Seq<char>>, b: Seq<Seq<char>>)
    ensures
        cleaned(a + b) == cleaned(a) + cleaned(b),
    decreases b.len(),
{
    if b.len() == 0 {
        assert(a + b =~= a);
        assert(cleaned(a) + cleaned(b) =~= cleaned(a));
    } else {
        assert((a + b).drop_last() =~= a + b.drop_last());
        assert((a + b).last() == b.last());
        lemma_cleaned_concat(a, b.drop_last());
        assert(cleaned(a + b) =~= cleaned(a) + cleaned(b));
    }
}

/// What is kept of a single line.
pub proof fn lemma_cleaned_single(line: Seq<char>)
    ensures
        cleaned(seq![line]) == match kept(line) {
            Some(text) => seq![text],
            None => Seq::empty(),
        },
{
    let one = seq![line];
    assert(one.drop_last() =~= Seq::<Seq<char>>::empty());
    assert(one.last() == line);
    assert(cleaned(one.drop_last()) =~= Seq::<Seq<char>>::empty());
    assert(cleaned(one) =~= match kept(line) {
        Some(text) => seq![text],
        None => Seq::empty(),
    });
}

/// A blank line or a comment leaves no trace, wherever it stands: the lines with it
/// clean to what the lines without it clean to.
pub proof fn lemma_ignored_line_leaves_no_trace(raw: Seq<Seq<char>>, at: int, line: Seq<char>)
    requires
        0 <= at <= raw.len(),
        kept(line) is None,
    ensures
        cleaned(raw.insert(at, line)) == cleaned(raw),
{
    let front = raw.take(at);
    let back = raw.skip(at);
    assert(raw.insert(at, line) =~= front + (seq![line] + back));
    assert(raw =~= front + back);
    lemma_cleaned_single(line);
    lemma_cleaned_concat(seq![line], back);
    lemma_cleaned_concat(front, seq![line] + back);
    lemma_cleaned_concat(front, back);
    assert(Seq::<Seq<char>>::empty() + cleaned(back) =~= cleaned(back));
}

/// Only the lines that count are read: with every blank line and every comment
/// taken out beforehand, the lines clean to the same.
pub proof fn lemma_only_lines_that_count_are_read(raw: Seq<Seq<char>>)
    ensures
        cleaned(raw.filter(counts())) == cleaned(raw),
    decreases raw.len(),
{
    reveal(Seq::filter);
    if raw.len() > 0 {
        let front = raw.drop_last().filter(counts());
        lemma_only_lines_that_count_are_read(raw.drop_last());
        if kept(raw.last()) is Some {
            assert(front.push(raw.last()).drop_last() =~= front);
        }
    }
}

/// Every cleaned line is one that cleaning would keep as it is: it is not empty, does
/// not begin with `#`, and has no white space at either end.
pub proof fn lemma_cleaned_lines_are_clean(raw: Seq<Seq<char>>)
    ensures
        forall|i: int|
            0 <= i < cleaned(raw).len() ==> {
                let text = #[trigger] cleaned(raw)[i];
                &&& kept(text) == Some(text)
                &&& text.len() > 0
                &&& text.first() != '#'
                &&& !is_white_space(text.first())
                &&& !is_white_space(text.last())
            },
    decreases raw.len(),
{
    if raw.len() > 0 {
        lemma_cleaned_lines_are_clean(raw.drop_last());
        lemma_trimmed_idempotent(raw.last());
        lemma_trimmed_is_tight(raw.last());
    }
}

/// Lines that cleaning would keep as they are come out of it unchanged.
pub proof fn lemma_clean_lines_stay(lines: Seq<Seq<char>>)
    requires
        forall|i: int| 0 <= i < lines.len() ==> kept(#[trigger] lines[i]) == Some(lines[i]),
    ensures
        cleaned(lines) == lines,
    decreases lines.len(),
{
    if lines.len() > 0 {
        let front = lines.drop_last();
        assert forall|i: int| 0 <= i < front.len() implies kept(#[trigger] front[i]) == Some(
            front[i],
        ) by {
            assert(front[i] == lines[i]);
        }
        lemma_clean_lines_stay(front);
        assert(kept(lines[lines.len() - 1]) == Some(lines.last()));
        assert(front.push(lines.last()) =~= lines);
    } else {
        assert(cleaned(lines) =~= lines);
    }
}

/// Cleaning what has been cleaned changes nothing.
pub proof fn lemma_cleaned_idempotent(raw: Seq<Seq<char>>)
    ensures
        cleaned(cleaned(raw)) == cleaned(raw),
{
    lemma_cleaned_lines_are_clean(raw);
    lemma_clean_lines_stay(cleaned(raw));
}

} // verus!
