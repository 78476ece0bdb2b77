//! Character sequences: conversion between `str` and `Vec<char>`, searching,
//! replacing and splitting. Every function states its result over `Seq<char>`.

use vstd::prelude::*;
use vstd::std_specs::iter::IteratorSpec;

verus! {

/// `String::push` of the standard library appends one character to the end
/// of the string and leaves what was there untouched.
pub assume_specification[ String::push ](s: &mut String, ch: char)
    ensures
        final(s)@ == old(s)@.push(ch),
;

/// The views of a sequence of strings, in order.
pub open spec fn texts(strings: Seq<String>) -> Seq<Seq<char>> {
    strings.map_values(|s: String| s@)
}

/// The views of a sequence of character vectors, in order.
pub open spec fn rows(vectors: Seq<Vec<char>>) -> Seq<Seq<char>> {
    vectors.map_values(|v: Vec<char>| v@)
}

/// `s` begins with `prefix`.
pub open spec fn starts_with(s: Seq<char>, prefix: Seq<char>) -> bool {
    prefix.len() <= s.len() && s.take(prefix.len() as int) == prefix
}

/// `pat` stands in `s` at index `i`.
pub open spec fn occurs_at(s: Seq<char>, pat: Seq<char>, i: int) -> bool {
    0 <= i && i + pat.len() <= s.len() && s.subrange(i, i + pat.len()) == pat
}

/// The least index at or after `from` where `pat` stands in `s`.
pub open spec fn first_occurrence(s: Seq<char>, pat: Seq<char>, from: int) -> Option<int>
    decreases s.len() - from,
{
    if from < 0 || from + pat.len() > s.len() {
        None
    } else if occurs_at(s, pat, from) {
        Some(from)
    } else if from >= s.len() {
        None
    } else {
        first_occurrence(s, pat, from + 1)
    }
}

/// `first_occurrence` finds an occurrence, and none lies before it.
pub proof fn lemma_first_occurrence(s: Seq<char>, pat: Seq<char>, from: int)
    requires
        0 <= from,
    ensures
        match first_occurrence(s, pat, from) {
            Some(k) => from <= k && occurs_at(s, pat, k) && forall|j: int|
                from <= j < k ==> !occurs_at(s, pat, j),
            None => forall|j: int| from <= j ==> !occurs_at(s, pat, j),
        },
    decreases s.len() - from,
{
    if from + pat.len() > s.len() {
    } else if occurs_at(s, pat, from) {
    } else if from >= s.len() {
    } else {
        lemma_first_occurrence(s, pat, from + 1);
    }
}

/// Whether `c` is white space: a character with the Unicode property
/// `White_Space`.
pub open spec fn is_space(c: char) -> bool {
    let u = c as u32;
    ||| 0x09 <= u <= 0x0d
    ||| u == 0x20
    ||| u == 0x85
    ||| u == 0xa0
    ||| u == 0x1680
    ||| 0x2000 <= u <= 0x200a
    ||| u == 0x2028
    ||| u == 0x2029
    ||| u == 0x202f
    ||| u == 0x205f
    ||| u == 0x3000
}

/// The index of the first white space at or after `from`, or the length
/// of `s` where there is none.
pub open spec fn word_end(s: Seq<char>, from: int) -> int
    decreases s.len() - from,
{
    if from < 0 || from >= s.len() {
        s.len() as int
    } else if is_space(s[from]) {
        from
    } else {
        word_end(s, from + 1)
    }
}

/// A word ends at or after the place it is looked for from, and within `s`.
pub proof fn lemma_word_end(s: Seq<char>, from: int)
    requires
        0 <= from <= s.len(),
    ensures
        from <= word_end(s, from) <= s.len(),
        forall|k: int| from <= k < word_end(s, from) ==> !is_space(#[trigger] s[k]),
        word_end(s, from) < s.len() ==> is_space(s[word_end(s, from)]),
    decreases s.len() - from,
{
    if from < s.len() && !is_space(s[from]) {
        lemma_word_end(s, from + 1);
    }
}

/// The words of `s` from index `from` on: the longest runs of characters
/// that are not white space, in order.
pub open spec fn words_from(s: Seq<char>, from: int) -> Seq<Seq<char>>
    decreases s.len() - from,
    via words_from_decreases
{
    if from < 0 || from >= s.len() {
        Seq::empty()
    } else if is_space(s[from]) {
        words_from(s, from + 1)
    } else {
        seq![s.subrange(from, word_end(s, from))] + words_from(s, word_end(s, from))
    }
}

#[via_fn]
proof fn words_from_decreases(s: Seq<char>, from: int) {
    if 0 <= from < s.len() && !is_space(s[from]) {
        lemma_word_end(s, from + 1);
    }
}

/// The words of `s`: what is left when `s` is cut at white space and the
/// empty pieces are dropped.
pub open spec fn words(s: Seq<char>) -> Seq<Seq<char>> {
    words_from(s, 0)
}

/// No line feed stands in `text[from..to)`.
pub open spec fn one_line(text: Seq<char>, from: int, to: int) -> bool {
    forall|k: int| from <= k < to ==> #[trigger] text[k] != '\n'
}

/// The index of the first line feed at or after `from`, or the length of
/// the text where there is none.
pub open spec fn line_end(text: Seq<char>, from: int) -> int
    decreases text.len() - from,
{
    if from < 0 || from >= text.len() {
        text.len() as int
    } else if text[from] == '\n' {
        from
    } else {
        line_end(text, from + 1)
    }
}

/// `line_end` is the end of the line that `from` stands on.
pub proof fn lemma_line_end(text: Seq<char>, from: int)
    requires
        0 <= from <= text.len(),
    ensures
        from <= line_end(text, from) <= text.len(),
        one_line(text, from, line_end(text, from)),
        line_end(text, from) < text.len() ==> text[line_end(text, from)] == '\n',
    decreases text.len() - from,
{
    if from < text.len() && text[from] != '\n' {
        lemma_line_end(text, from + 1);
    }
}

/// Two places on one line have the same line end.
pub proof fn lemma_same_line(text: Seq<char>, from: int, to: int)
    requires
        0 <= from <= to <= text.len(),
        one_line(text, from, to),
    ensures
        line_end(text, from) == line_end(text, to),
    decreases to - from,
{
    if from < to {
        assert(text[from] != '\n');
        lemma_same_line(text, from + 1, to);
    }
}

/// The line terminator: carriage return, line feed.
pub open spec fn crlf() -> Seq<char> {
    seq!['\r', '\n']
}

/// The lines of `s` from index `from` on: each stretch of text that a
/// terminator closes, without the terminator, the empty ones left out.
/// Text after the last terminator is not a line.
pub open spec fn lines_from(s: Seq<char>, from: int) -> Seq<Seq<char>>
    decreases s.len() - from,
    via lines_from_decreases
{
    match first_occurrence(s, crlf(), from) {
        None => Seq::empty(),
        Some(k) => if k == from {
            lines_from(s, k + 2)
        } else {
            seq![s.subrange(from, k)] + lines_from(s, k + 2)
        },
    }
}

#[via_fn]
proof fn lines_from_decreases(s: Seq<char>, from: int) {
    if from >= 0 {
        lemma_first_occurrence(s, crlf(), from);
    }
}

/// The complete lines of `s`.
pub open spec fn lines(s: Seq<char>) -> Seq<Seq<char>> {
    lines_from(s, 0)
}

/// What `split_lines` has so far, with the lines still to come, is the
/// whole result.
pub open spec fn lines_so_far(out: Seq<Vec<char>>, text: Seq<char>, from: int) -> bool {
    0 <= from && rows(out) + lines_from(text, from) == lines(text)
}

/// In a text that holds no terminator, closed by one, that terminator is
/// the first to be found from any place before it.
proof fn lemma_first_terminator(line: Seq<char>, from: int)
    requires
        forall|p: int| !occurs_at(line, crlf(), p),
        0 <= from <= line.len(),
    ensures
        first_occurrence(line + crlf(), crlf(), from) == Some(line.len() as int),
    decreases line.len() - from,
{
    let text = line + crlf();
    let n = line.len() as int;
    if from == n {
        assert(text.subrange(n, n + 2) =~= crlf());
    } else {
        let here = text.subrange(from, from + 2);
        if from + 1 < n {
            if here == crlf() {
                assert(line.subrange(from, from + 2) =~= here);
                assert(occurs_at(line, crlf(), from));
            }
        } else {
            assert(here[1] == text[from + 1]);
            assert(text[from + 1] == '\r');
            assert(here[1] != crlf()[1]);
        }
        lemma_first_terminator(line, from + 1);
    }
}

/// A text that holds no terminator, closed by one, is one line: itself.
pub proof fn lemma_single_line(line: Seq<char>)
    requires
        line.len() > 0,
        forall|p: int| !occurs_at(line, crlf(), p),
    ensures
        lines(line + crlf()) == seq![line],
{
    let text = line + crlf();
    let n = line.len() as int;
    lemma_first_terminator(line, 0);
    assert(text.subrange(0, n) =~= line);
    assert(first_occurrence(text, crlf(), n + 2) is None);
    assert(lines_from(text, n + 2) == Seq::<Seq<char>>::empty());
    assert(lines_from(text, 0) == seq![text.subrange(0, n)] + lines_from(text, n + 2));
    assert(seq![line] + Seq::<Seq<char>>::empty() =~= seq![line]);
}

/// A text without line feed holds no terminator.
pub proof fn lemma_no_feed_no_terminator(line: Seq<char>)
    requires
        one_line(line, 0, line.len() as int),
    ensures
        forall|p: int| !occurs_at(line, crlf(), p),
{
    assert forall|p: int| !occurs_at(line, crlf(), p) by {
        if occurs_at(line, crlf(), p) {
            assert(line.subrange(p, p + 2)[1] == crlf()[1]);
            assert(line[p + 1] == '\n');
        }
    }
}

/// The characters of a string slice.
pub fn chars_of(s: &str) -> (out: Vec<char>)
    ensures
        out@ == s@,
{
    let mut out: Vec<char> = Vec::new();
    for c in it: s.chars()
        invariant
            it.seq() == s@,
            out@ == s@.take(it.index()),
    {
        out.push(c);
    }
    out
}

/// The string made of `chars[from..to]`.
pub fn string_of(chars: &Vec<char>, from: usize, to: usize) -> (out: String)
    requires
        from <= to <= chars.len(),
    ensures
        out@ == chars@.subrange(from as int, to as int),
{
    let mut out = String::new();
    let mut i: usize = from;
    while i < to
        invariant
            from <= i <= to <= chars.len(),
            out@ == chars@.subrange(from as int, i as int),
        decreases to - i,
    {
        out.push(chars[i]);
        i += 1;
        assert(chars@.subrange(from as int, i as int) == chars@.subrange(
            from as int,
            i - 1,
        ).push(chars@[i - 1]));
    }
    out
}

/// The string made of `chars`.
pub fn string_from(chars: &Vec<char>) -> (out: String)
    ensures
        out@ == chars@,
{
    assert(chars@.subrange(0, chars.len() as int) =~= chars@);
    string_of(chars, 0, chars.len())
}

/// A copy of `chars[from..to]`.
pub fn slice_of(chars: &Vec<char>, from: usize, to: usize) -> (out: Vec<char>)
    requires
        from <= to <= chars.len(),
    ensures
        out@ == chars@.subrange(from as int, to as int),
{
    let mut out: Vec<char> = Vec::new();
    let mut i: usize = from;
    while i < to
        invariant
            from <= i <= to <= chars.len(),
            out@ == chars@.subrange(from as int, i as int),
        decreases to - i,
    {
        out.push(chars[i]);
        i += 1;
        assert(chars@.subrange(from as int, i as int) == chars@.subrange(
            from as int,
            i - 1,
        ).push(chars@[i - 1]));
    }
    out
}

/// Whether two string slices hold the same characters.
pub fn same_text(a: &str, b: &str) -> (same: bool)
    ensures
        same == (a@ == b@),
{
    let mut left = a.chars();
    let mut right = b.chars();
    let ghost mut seen: int = 0;
    loop
        invariant
            0 <= seen <= a@.len(),
            seen <= b@.len(),
            left.remaining() == a@.skip(seen),
            right.remaining() == b@.skip(seen),
            a@.take(seen) == b@.take(seen),
        decreases a@.len() - seen,
    {
        let x = left.next();
        let y = right.next();
        match (x, y) {
            (None, None) => {
                assert(a@.take(seen) == a@);
                assert(b@.take(seen) == b@);
                return true;
            },
            (Some(p), Some(q)) => {
                if p != q {
                    assert(a@[seen] != b@[seen]);
                    return false;
                }
                proof {
                    assert(a@.take(seen + 1) == a@.take(seen).push(a@[seen]));
                    assert(b@.take(seen + 1) == b@.take(seen).push(b@[seen]));
                    seen = seen + 1;
                }
            },
            _ => {
                assert(a@.len() != b@.len());
                return false;
            },
        }
    }
}

/// Whether `pat` stands in `text` at index `i`.
pub fn matches_at(text: &Vec<char>, pat: &Vec<char>, i: usize) -> (hit: bool)
    ensures
        hit == occurs_at(text@, pat@, i as int),
{
    if pat.len() > text.len() || i > text.len() - pat.len() {
        return false;
    }
    let mut j: usize = 0;
    while j < pat.len()
        invariant
            j <= pat.len(),
            i + pat.len() <= text.len(),
            forall|k: int| 0 <= k < j ==> text@[i + k] == pat@[k],
        decreases pat.len() - j,
    {
        if text[i + j] != pat[j] {
            assert(text@.subrange(i as int, i + pat.len())[j as int] != pat@[j as int]);
            return false;
        }
        j += 1;
    }
    assert(text@.subrange(i as int, i + pat.len()) =~= pat@);
    true
}

/// Whether `text` begins with `prefix`.
pub fn has_prefix(text: &Vec<char>, prefix: &Vec<char>) -> (hit: bool)
    ensures
        hit == starts_with(text@, prefix@),
{
    let hit = matches_at(text, prefix, 0);
    proof {
        if prefix.len() <= text.len() {
            assert(text@.take(prefix.len() as int) =~= text@.subrange(0, 0 + prefix.len()));
        }
    }
    hit
}

/// The first index at or after `from` where `pat` stands in `text`.
pub fn find(text: &Vec<char>, pat: &Vec<char>, from: usize) -> (found: Option<usize>)
    ensures
        match found {
            Some(k) => first_occurrence(text@, pat@, from as int) == Some(k as int),
            None => first_occurrence(text@, pat@, from as int) is None,
        },
{
    let mut i: usize = from;
    loop
        invariant
            from <= i,
            first_occurrence(text@, pat@, from as int) == first_occurrence(text@, pat@, i as int),
        decreases text.len() - i,
    {
        if i > text.len() || pat.len() > text.len() - i {
            return None;
        }
        if matches_at(text, pat, i) {
            return Some(i);
        }
        if i == text.len() {
            return None;
        }
        i += 1;
    }
}

/// Whether `c` is white space.
pub fn is_whitespace(c: char) -> (space: bool)
    ensures
        space == is_space(c),
{
    let u: u32 = c as u32;
    (0x09 <= u && u <= 0x0d) || u == 0x20 || u == 0x85 || u == 0xa0 || u == 0x1680 || (0x2000 <= u
        && u <= 0x200a) || u == 0x2028 || u == 0x2029 || u == 0x202f || u == 0x205f || u
        == 0x3000
}

/// The words of `text`, each as a string.
pub fn split_words(text: &Vec<char>) -> (out: Vec<String>)
    ensures
        texts(out@) == words(text@),
{
    let mut out: Vec<String> = Vec::new();
    let mut i: usize = 0;
    assert(texts(out@) + words_from(text@, 0) =~= words(text@));
    while i < text.len()
        invariant
            i <= text.len(),
            texts(out@) + words_from(text@, i as int) == words(text@),
        decreases text.len() - i,
    {
        if is_whitespace(text[i]) {
            i += 1;
        } else {
            let mut end: usize = i + 1;
            while end < text.len() && !is_whitespace(text[end])
                invariant
                    i < end <= text.len(),
                    word_end(text@, i as int) == word_end(text@, end as int),
                decreases text.len() - end,
            {
                end += 1;
            }
            let word = string_of(text, i, end);
            let ghost before = texts(out@);
            out.push(word);
            assert(texts(out@) =~= before.push(text@.subrange(i as int, end as int)));
            assert(before.push(text@.subrange(i as int, end as int)) + words_from(
                text@,
                end as int,
            ) =~= before + (seq![text@.subrange(i as int, end as int)] + words_from(
                text@,
                end as int,
            )));
            i = end;
        }
    }
    assert(texts(out@) + Seq::<Seq<char>>::empty() =~= texts(out@));
    out
}

/// The end of the line that `from` stands on.
pub fn end_of_line(text: &Vec<char>, from: usize) -> (end: usize)
    requires
        from <= text.len(),
    ensures
        end == line_end(text@, from as int),
        from <= end <= text.len(),
{
    let mut end: usize = from;
    while end < text.len() && text[end] != '\n'
        invariant
            from <= end <= text.len(),
            line_end(text@, from as int) == line_end(text@, end as int),
        decreases text.len() - end,
    {
        end += 1;
    }
    end
}

/// The complete lines of `text`.
pub fn split_lines(text: &Vec<char>) -> (out: Vec<Vec<char>>)
    ensures
        rows(out@) == lines(text@),
{
    let mut terminator: Vec<char> = Vec::new();
    terminator.push('\r');
    terminator.push('\n');
    assert(terminator@ =~= crlf());
    let mut out: Vec<Vec<char>> = Vec::new();
    let mut i: usize = 0;
    assert(rows(out@) + lines_from(text@, 0) =~= lines(text@));
    loop
        invariant
            terminator@ == crlf(),
            lines_so_far(out@, text@, i as int),
        decreases text.len() + 2 - i,
    {
        proof {
            lemma_first_occurrence(text@, crlf(), i as int);
        }
        match find(text, &terminator, i) {
            None => {
                assert(rows(out@) + Seq::<Seq<char>>::empty() =~= rows(out@));
                return out;
            },
            Some(k) => {
                if k > i {
                    let line = slice_of(text, i, k);
                    let ghost before = rows(out@);
                    out.push(line);
                    assert(rows(out@) =~= before.push(text@.subrange(i as int, k as int)));
                    assert(before.push(text@.subrange(i as int, k as int)) + lines_from(
                        text@,
                        k + 2,
                    ) =~= before + (seq![text@.subrange(i as int, k as int)] + lines_from(
                        text@,
                        k + 2,
                    )));
                }
                i = k + 2;
            },
        }
    }
}

} // verus!
