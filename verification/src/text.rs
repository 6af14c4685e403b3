//! Characters and runs of characters: white space at the ends of a line and the
//! backslash that ends a continued line.

use vstd::prelude::*;

verus! {

/// Whether `c` is white space: whether it has the Unicode property `White_Space`.
/// These are the tab, the line feed, the vertical tab, the form feed and the carriage
/// return, the space, the next-line control, the no-break space, the Ogham space mark,
/// the spaces from the en quad to the hair space, the line and the paragraph
/// separator, the narrow no-break space, the medium mathematical space and the
/// ideographic space.
pub open spec fn is_white_space(c: char) -> bool {
    let code = c as u32;
    ||| 0x0009 <= code <= 0x000D
    ||| code == 0x0020
    ||| code == 0x0085
    ||| code == 0x00A0
    ||| code == 0x1680
    ||| 0x2000 <= code <= 0x200A
    ||| code == 0x2028
    ||| code == 0x2029
    ||| code == 0x202F
    ||| code == 0x205F
    ||| code == 0x3000
}

/// `char::is_whitespace` is taken to be true of the characters with the Unicode
/// property `White_Space`, which its documentation names, and of no others. The
/// characters are written out in [`is_white_space`].
pub assume_specification[ char::is_whitespace ](c: char) -> (b: bool)
    ensures
        b == is_white_space(c),
;

/// `s` without the white space at its start.
pub open spec fn trimmed_start(s: Seq<char>) -> Seq<char>
    decreases s.len(),
{
    if s.len() > 0 && is_white_space(s.first()) {
        trimmed_start(s.drop_first())
    } else {
        s
    }
}

/// `s` without the white space at its end.
pub open spec fn trimmed_end(s: Seq<char>) -> Seq<char>
    decreases s.len(),
{
    if s.len() > 0 && is_white_space(s.last()) {
        trimmed_end(s.drop_last())
    } else {
        s
    }
}

/// `s` without the white space at its start and at its end.
pub open spec fn trimmed(s: Seq<char>) -> Seq<char> {
    trimmed_end(trimmed_start(s))
}

/// Whether `s` ends in a backslash.
pub open spec fn ends_with_backslash(s: Seq<char>) -> bool {
    s.len() > 0 && s.last() == '\\'
}

/// `s` without the backslash that ends it, or `s` itself where it ends in none. Of
/// several backslashes at the end only the last is left out.
pub open spec fn without_closing_backslash(s: Seq<char>) -> Seq<char> {
    if ends_with_backslash(s) {
        s.drop_last()
    } else {
        s
    }
}

/// What `trimmed_end` leaves is the prefix that stops at `end`, when everything from
/// `end` on is white space and the character before `end`, if there is one, is not.
pub proof fn lemma_trimmed_end_is_prefix(s: Seq<char>, end: int)
    requires
        0 <= end <= s.len(),
        forall|k: int| end <= k < s.len() ==> is_white_space(#[trigger] s[k]),
        end > 0 ==> !is_white_space(s[end - 1]),
    ensures
        trimmed_end(s) == s.subrange(0, end),
    decreases s.len() - end,
{
    if s.len() == end {
        assert(s.subrange(0, end) =~= s);
    } else {
        assert(is_white_space(s[s.len() - 1]));
        lemma_trimmed_end_is_prefix(s.drop_last(), end);
        assert(s.drop_last().subrange(0, end) =~= s.subrange(0, end));
    }
}

/// What `trimmed_start` leaves is the suffix that begins at `start`, when everything
/// before `start` is white space and the character at `start`, if there is one, is not.
pub proof fn lemma_trimmed_start_is_suffix(s: Seq<char>, start: int)
    requires
        0 <= start <= s.len(),
        forall|k: int| 0 <= k < start ==> is_white_space(#[trigger] s[k]),
        start < s.len() ==> !is_white_space(s[start]),
    ensures
        trimmed_start(s) == s.subrange(start, s.len() as int),
    decreases start,
{
    if start == 0 {
        assert(s.subrange(0, s.len() as int) =~= s);
    } else {
        assert(is_white_space(s[0]));
        let rest = s.drop_first();
        assert forall|k: int| 0 <= k < start - 1 implies is_white_space(#[trigger] rest[k]) by {
            assert(rest[k] == s[k + 1]);
        }
        lemma_trimmed_start_is_suffix(rest, start - 1);
        assert(rest.subrange(start - 1, rest.len() as int) =~= s.subrange(start, s.len() as int));
    }
}

/// What `trimmed_end` leaves is a prefix of `s` that does not end in white space.
pub proof fn lemma_trimmed_end_result(s: Seq<char>)
    ensures
        trimmed_end(s).len() <= s.len(),
        trimmed_end(s) == s.take(trimmed_end(s).len() as int),
        trimmed_end(s).len() > 0 ==> !is_white_space(trimmed_end(s).last()),
    decreases s.len(),
{
    if s.len() > 0 && is_white_space(s.last()) {
        let rest = s.drop_last();
        lemma_trimmed_end_result(rest);
        let left = trimmed_end(rest).len() as int;
        assert(rest.take(left) =~= s.take(left));
    } else {
        assert(s.take(s.len() as int) =~= s);
    }
}

/// What `trimmed_start` leaves is a suffix of `s` that does not begin with white space.
pub proof fn lemma_trimmed_start_result(s: Seq<char>)
    ensures
        trimmed_start(s).len() <= s.len(),
        trimmed_start(s) == s.skip(s.len() - trimmed_start(s).len()),
        trimmed_start(s).len() > 0 ==> !is_white_space(trimmed_start(s).first()),
    decreases s.len(),
{
    if s.len() > 0 && is_white_space(s.first()) {
        let rest = s.drop_first();
        lemma_trimmed_start_result(rest);
        let left = trimmed_start(rest).len() as int;
        assert(rest.skip(rest.len() - left) =~= s.skip(s.len() - left));
    } else {
        assert(s.skip(0) =~= s);
    }
}

/// A trimmed line is empty, or begins and ends with a character that is not white
/// space.
pub proof fn lemma_trimmed_is_tight(s: Seq<char>)
    ensures
        trimmed(s).len() <= s.len(),
        trimmed(s).len() > 0 ==> !is_white_space(trimmed(s).first()) && !is_white_space(
            trimmed(s).last(),
        ),
{
    lemma_trimmed_start_result(s);
    lemma_trimmed_end_result(trimmed_start(s));
}

/// Trimming a trimmed line changes nothing.
pub proof fn lemma_trimmed_idempotent(s: Seq<char>)
    ensures
        trimmed(trimmed(s)) == trimmed(s),
{
    lemma_trimmed_is_tight(s);
}

/// The line without the white space around it, as `str::trim` gives it.
pub fn trim<'a>(line: &'a str) -> (r: &'a str)
    ensures
        r@ == trimmed(line@),
{
    let n: usize = line.unicode_len();
    let mut start: usize = 0;
    let mut end: usize = 0;
    let mut i: usize = 0;
    for c in it: line.chars()
        invariant
            n == line@.len(),
            it.seq() == line@,
            i == it.index(),
            start <= i <= n,
            forall|k: int| 0 <= k < start ==> is_white_space(#[trigger] line@[k]),
            end == 0 ==> start == i,
            end > 0 ==> start < end <= i && !is_white_space(line@[start as int])
                && !is_white_space(line@[end - 1]),
            forall|k: int| end <= k < i ==> is_white_space(#[trigger] line@[k]),
    {
        if !c.is_whitespace() {
            if end == 0 {
                start = i;
            }
            end = i + 1;
        } else if end == 0 {
            start = i + 1;
        }
        i += 1;
    }
    if end == 0 {
        end = start;
    }
    proof {
        lemma_trimmed_start_is_suffix(line@, start as int);
        let t = line@.subrange(start as int, n as int);
        assert forall|k: int| end - start <= k < t.len() implies is_white_space(
            #[trigger] t[k],
        ) by {
            assert(t[k] == line@[k + start]);
        }
        lemma_trimmed_end_is_prefix(t, end - start);
        assert(t.subrange(0, end - start) =~= line@.subrange(start as int, end as int));
    }
    line.substring_char(start, end)
}

/// What comes before the backslash that ends `line`, as `str::strip_suffix` gives it;
/// `None` when `line` does not end in a backslash.
pub fn strip_continuation<'a>(line: &'a str) -> (r: Option<&'a str>)
    ensures
        r is Some <==> ends_with_backslash(line@),
        r matches Some(t) ==> t@ == line@.drop_last(),
{
    let n: usize = line.unicode_len();
    if n > 0 && line.get_char(n - 1) == '\\' {
        Some(line.substring_char(0, n - 1))
    } else {
        None
    }
}

} // verus!
