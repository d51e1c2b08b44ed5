//! Text as sequences of characters: lines, tokens, and the few string
//! operations that the table parsers need.

use vstd::prelude::*;

verus! {

/// `String::push` appends one character to the end of the string.
pub assume_specification[ String::push ](s: &mut String, ch: char)
    ensures
        final(s)@ == old(s)@.push(ch),
;

/// The characters of `s`, in order.
pub fn chars_of(s: &str) -> (out: Vec<char>)
    ensures
        out@ == s@,
{
    let mut out: Vec<char> = Vec::new();
    for c in it: s.chars()
        invariant
            out@ == it.seq().take(it.index() as int),
            it.seq() == s@,
    {
        out.push(c);
    }
    out
}

/// The string made of `chars`, in order.
pub fn string_of(chars: &Vec<char>) -> (out: String)
    ensures
        out@ == chars@,
{
    let mut out = String::new();
    let mut i: usize = 0;
    while i < chars.len()
        invariant
            i <= chars.len(),
            out@ == chars@.take(i as int),
        decreases chars.len() - i,
    {
        out.push(chars[i]);
        i += 1;
    }
    out
}

/// The characters of `text` from index `from` up to, not including, `to`.
pub fn copy_range(text: &Vec<char>, from: usize, to: usize) -> (out: Vec<char>)
    requires
        from <= to <= text.len(),
    ensures
        out@ == text@.subrange(from as int, to as int),
{
    let mut out: Vec<char> = Vec::new();
    let mut i: usize = from;
    while i < to
        invariant
            from <= i <= to <= text.len(),
            out@ == text@.subrange(from as int, i as int),
        decreases to - i,
    {
        out.push(text[i]);
        i += 1;
    }
    out
}

/// Whether two texts hold the same characters.
pub fn same_text(a: &Vec<char>, b: &Vec<char>) -> (same: bool)
    ensures
        same == (a@ == b@),
{
    if a.len() != b.len() {
        return false;
    }
    let mut i: usize = 0;
    while i < a.len()
        invariant
            i <= a.len(),
            a.len() == b.len(),
            a@.take(i as int) == b@.take(i as int),
        decreases a.len() - i,
    {
        if a[i] != b[i] {
            return false;
        }
        assert(a@.take(i + 1) == a@.take(i as int).push(a@[i as int]));
        assert(b@.take(i + 1) == b@.take(i as int).push(b@[i as int]));
        i += 1;
    }
    assert(a@.take(a.len() as int) == a@);
    assert(b@.take(b.len() as int) == b@);
    true
}

/// Whether `text` begins with `prefix`.
pub fn starts_with(text: &Vec<char>, prefix: &Vec<char>) -> (begins: bool)
    ensures
        begins == prefix@.is_prefix_of(text@),
{
    if prefix.len() > text.len() {
        return false;
    }
    let mut i: usize = 0;
    while i < prefix.len()
        invariant
            i <= prefix.len() <= text.len(),
            prefix@.take(i as int) == text@.take(i as int),
        decreases prefix.len() - i,
    {
        if prefix[i] != text[i] {
            assert(text@.subrange(0, prefix.len() as int)[i as int] != prefix@[i as int]);
            return false;
        }
        assert(prefix@.take(i + 1) == prefix@.take(i as int).push(prefix@[i as int]));
        assert(text@.take(i + 1) == text@.take(i as int).push(text@[i as int]));
        i += 1;
    }
    assert(prefix@.take(prefix.len() as int) == prefix@);
    true
}

/// Whether `pattern` stands in `text` at index `i`.
pub open spec fn occurs_at(text: Seq<char>, pattern: Seq<char>, i: int) -> bool {
    0 <= i && i + pattern.len() <= text.len() && text.subrange(i, i + pattern.len()) == pattern
}

/// Whether `pattern` stands anywhere in `text`.
pub open spec fn contains(text: Seq<char>, pattern: Seq<char>) -> bool {
    exists|i: int| occurs_at(text, pattern, i)
}

/// Whether `pattern` stands in `text` at index `at`.
pub fn matches_at(text: &Vec<char>, pattern: &Vec<char>, at: usize) -> (found: bool)
    ensures
        found == occurs_at(text@, pattern@, at as int),
{
    if at > text.len() || pattern.len() > text.len() - at {
        return false;
    }
    let mut k: usize = 0;
    while k < pattern.len()
        invariant
            k <= pattern.len(),
            at + pattern.len() <= text.len(),
            text@.subrange(at as int, at + k) == pattern@.take(k as int),
        decreases pattern.len() - k,
    {
        if text[at + k] != pattern[k] {
            assert(text@.subrange(at as int, at + pattern.len())[k as int] != pattern@[k as int]);
            return false;
        }
        assert(text@.subrange(at as int, at + k + 1) == text@.subrange(at as int, at + k).push(
            text@[at + k],
        ));
        assert(pattern@.take(k + 1) == pattern@.take(k as int).push(pattern@[k as int]));
        k += 1;
    }
    assert(pattern@.take(pattern.len() as int) == pattern@);
    true
}

/// The first index at which `pattern` stands in `text`, if there is one.
pub fn find(text: &Vec<char>, pattern: &Vec<char>) -> (found: Option<usize>)
    ensures
        match found {
            Some(i) => occurs_at(text@, pattern@, i as int) && forall|j: int|
                0 <= j < i ==> !occurs_at(text@, pattern@, j),
            None => !contains(text@, pattern@),
        },
{
    let mut i: usize = 0;
    while i <= text.len()
        invariant
            i <= text.len() + 1,
            forall|j: int| 0 <= j < i ==> !occurs_at(text@, pattern@, j),
        decreases text.len() + 1 - i,
    {
        if matches_at(text, pattern, i) {
            return Some(i);
        }
        if i == text.len() {
            return None;
        }
        i += 1;
    }
    None
}

/// White space, as Unicode defines it.
pub open spec fn is_space(c: char) -> bool {
    let n = c as u32;
    (0x09 <= n <= 0x0D) || n == 0x20 || n == 0x85 || n == 0xA0 || n == 0x1680 || (0x2000 <= n
        <= 0x200A) || n == 0x2028 || n == 0x2029 || n == 0x202F || n == 0x205F || n == 0x3000
}

/// Whether `c` is white space.
pub fn char_is_space(c: char) -> (space: bool)
    ensures
        space == is_space(c),
{
    let n: u32 = c as u32;
    (0x09 <= n && n <= 0x0D) || n == 0x20 || n == 0x85 || n == 0xA0 || n == 0x1680 || (0x2000 <= n
        && n <= 0x200A) || n == 0x2028 || n == 0x2029 || n == 0x202F || n == 0x205F || n == 0x3000
}

/// How many characters of `text` stand before its first line feed, or
/// before its end where it has none.
pub open spec fn line_len(text: Seq<char>) -> nat
    decreases text.len(),
{
    if text.len() == 0 || text[0] == '\n' {
        0
    } else {
        1 + line_len(text.skip(1))
    }
}

/// The lines of `text`: what stands between its line feeds. A line feed at
/// the very end opens no further line. A carriage return before a line feed
/// stays in its line; it is white space, so no token ever holds it.
pub open spec fn lines(text: Seq<char>) -> Seq<Seq<char>>
    decreases text.len(),
{
    if text.len() == 0 {
        Seq::empty()
    } else {
        let n = line_len(text) as int;
        if n >= text.len() {
            seq![text]
        } else {
            seq![text.take(n)] + lines(text.skip(n + 1))
        }
    }
}

/// The lines of `text`, each as a text of its own.
pub fn split_lines(text: &Vec<char>) -> (out: Vec<Vec<char>>)
    ensures
        out.deep_view() == lines(text@),
{
    let mut out: Vec<Vec<char>> = Vec::new();
    let mut start: usize = 0;
    assert(text@.skip(0) == text@);
    while start < text.len()
        invariant
            start <= text.len(),
            out.deep_view() + lines(text@.skip(start as int)) == lines(text@),
        decreases text.len() - start,
    {
        let ghost rest = text@.skip(start as int);
        let mut end: usize = start;
        assert(text@.skip(end as int) == rest);
        while end < text.len() && text[end] != '\n'
            invariant
                start <= end <= text.len(),
                rest == text@.skip(start as int),
                line_len(rest) == (end - start) + line_len(text@.skip(end as int)),
            decreases text.len() - end,
        {
            assert(text@.skip(end as int).skip(1) == text@.skip(end + 1));
            end += 1;
        }
        let line = copy_range(text, start, end);
        let ghost before = out.deep_view();
        out.push(line);
        assert(line.deep_view() == line@);
        assert(out.deep_view() == before.push(line@));
        assert(rest.take(end - start) == line@);
        if end < text.len() {
            assert(rest.skip(end - start + 1) == text@.skip(end + 1));
            assert(before.push(line@) + lines(text@.skip(end + 1)) == before + (seq![line@]
                + lines(text@.skip(end + 1))));
            start = end + 1;
        } else {
            assert(rest.take(end - start) == rest);
            assert(lines(text@.skip(end as int)) == Seq::<Seq<char>>::empty());
            assert(before.push(line@) + Seq::<Seq<char>>::empty() == before + seq![line@]);
            start = end;
        }
    }
    assert(out.deep_view() + Seq::<Seq<char>>::empty() == out.deep_view());
    out
}

/// How many characters of `text` stand before its first white space, or
/// before its end where it has none.
pub open spec fn word_len(text: Seq<char>) -> nat
    decreases text.len(),
{
    if text.len() == 0 || is_space(text[0]) {
        0
    } else {
        1 + word_len(text.skip(1))
    }
}

/// A word is no longer than the text it begins.
pub proof fn lemma_word_len_bound(text: Seq<char>)
    ensures
        word_len(text) <= text.len(),
    decreases text.len(),
{
    if text.len() > 0 && !is_space(text[0]) {
        lemma_word_len_bound(text.skip(1));
    }
}

/// The tokens of `text`: its longest runs of characters that are not white
/// space, from left to right.
pub open spec fn tokens(text: Seq<char>) -> Seq<Seq<char>>
    decreases text.len(),
{
    if text.len() == 0 {
        Seq::empty()
    } else if is_space(text[0]) {
        tokens(text.skip(1))
    } else {
        let n = word_len(text) as int;
        proof {
            lemma_word_len_bound(text);
        }
        seq![text.take(n)] + tokens(text.skip(n))
    }
}

/// The tokens of `text`, each as a text of its own.
pub fn split_tokens(text: &Vec<char>) -> (out: Vec<Vec<char>>)
    ensures
        out.deep_view() == tokens(text@),
{
    let mut out: Vec<Vec<char>> = Vec::new();
    let mut start: usize = 0;
    assert(text@.skip(0) == text@);
    while start < text.len()
        invariant
            start <= text.len(),
            out.deep_view() + tokens(text@.skip(start as int)) == tokens(text@),
        decreases text.len() - start,
    {
        let ghost rest = text@.skip(start as int);
        if char_is_space(text[start]) {
            assert(rest.skip(1) == text@.skip(start + 1));
            start += 1;
        } else {
            let mut end: usize = start;
            assert(text@.skip(end as int) == rest);
            while end < text.len() && !char_is_space(text[end])
                invariant
                    start <= end <= text.len(),
                    rest == text@.skip(start as int),
                    word_len(rest) == (end - start) + word_len(text@.skip(end as int)),
                decreases text.len() - end,
            {
                assert(text@.skip(end as int).skip(1) == text@.skip(end + 1));
                end += 1;
            }
            let token = copy_range(text, start, end);
            let ghost before = out.deep_view();
            out.push(token);
            assert(token.deep_view() == token@);
            assert(out.deep_view() == before.push(token@));
            assert(rest.take(end - start) == token@);
            assert(rest.skip(end - start) == text@.skip(end as int));
            assert(before.push(token@) + tokens(text@.skip(end as int)) == before + (seq![token@]
                + tokens(text@.skip(end as int))));
            start = end;
        }
    }
    assert(out.deep_view() + Seq::<Seq<char>>::empty() == out.deep_view());
    out
}

/// `text` without the characters `c` that it begins with.
pub open spec fn trim_start(text: Seq<char>, c: char) -> Seq<char>
    decreases text.len(),
{
    if text.len() > 0 && text[0] == c {
        trim_start(text.skip(1), c)
    } else {
        text
    }
}

/// `text` without the characters `c` that it ends with.
pub open spec fn trim_end(text: Seq<char>, c: char) -> Seq<char>
    decreases text.len(),
{
    if text.len() > 0 && text.last() == c {
        trim_end(text.drop_last(), c)
    } else {
        text
    }
}

/// `text` without the characters `open` that it begins with and, of what is
/// left, without the characters `close` that it ends with.
pub fn trim_enclosing(text: &Vec<char>, open: char, close: char) -> (out: Vec<char>)
    ensures
        out@ == trim_end(trim_start(text@, open), close),
{
    let mut from: usize = 0;
    assert(text@.skip(0) == text@);
    while from < text.len() && text[from] == open
        invariant
            from <= text.len(),
            trim_start(text@, open) == trim_start(text@.skip(from as int), open),
        decreases text.len() - from,
    {
        assert(text@.skip(from as int).skip(1) == text@.skip(from + 1));
        from += 1;
    }
    let mut to: usize = text.len();
    assert(text@.subrange(from as int, to as int) == text@.skip(from as int));
    while to > from && text[to - 1] == close
        invariant
            from <= to <= text.len(),
            trim_start(text@, open) == text@.skip(from as int),
            trim_end(text@.skip(from as int), close) == trim_end(
                text@.subrange(from as int, to as int),
                close,
            ),
        decreases to,
    {
        assert(text@.subrange(from as int, to as int).drop_last() == text@.subrange(
            from as int,
            to - 1,
        ));
        to -= 1;
    }
    copy_range(text, from, to)
}

} // verus!
