//! Text as bytes and characters: decoding, lines, white space and the
//! include directive.

use vstd::prelude::*;
use vstd::slice::*;
use vstd::std_specs::iter::IteratorSpec;
use vstd::string::*;
use vstd::utf8::*;

verus! {

/// The characters of a text, in order.
pub fn chars_of(text: &str) -> (chars: Vec<char>)
    ensures
        chars@ == text@,
{
    broadcast use vstd::string::group_string_axioms;

    let mut chars: Vec<char> = Vec::new();
    for c in it: text.chars()
        invariant
            it.seq() == text@,
            chars@ == text@.take(it.index()),
    {
        chars.push(c);
        assert(chars@ =~= text@.take(it.index() + 1));
    }
    assert(chars@ =~= text@);
    chars
}

/// Whether a character is white space, as Unicode defines it.
pub open spec fn is_space(c: char) -> bool {
    let n = c as u32;
    ||| 0x09 <= n <= 0x0D
    ||| n == 0x20
    ||| n == 0x85
    ||| n == 0xA0
    ||| n == 0x1680
    ||| 0x2000 <= n <= 0x200A
    ||| n == 0x2028
    ||| n == 0x2029
    ||| n == 0x202F
    ||| n == 0x205F
    ||| n == 0x3000
}

/// A text without the white space it starts with.
pub open spec fn trimmed_start(s: Seq<char>) -> Seq<char>
    decreases s.len(),
{
    if s.len() > 0 && is_space(s[0]) {
        trimmed_start(s.drop_first())
    } else {
        s
    }
}

/// A text without the white space it ends with.
pub open spec fn trimmed_end(s: Seq<char>) -> Seq<char>
    decreases s.len(),
{
    if s.len() > 0 && is_space(s.last()) {
        trimmed_end(s.drop_last())
    } else {
        s
    }
}

/// A text without the white space at either end.
pub open spec fn trimmed(s: Seq<char>) -> Seq<char> {
    trimmed_end(trimmed_start(s))
}

/// The path text of an include directive: where the line, after the white
/// space it starts with, begins with the prefix, what follows the prefix,
/// trimmed at both ends. Nothing for any other line.
pub open spec fn directive_path(line: Seq<char>, prefix: Seq<char>) -> Option<Seq<char>> {
    let body = trimmed_start(line);
    if prefix.is_prefix_of(body) {
        Some(trimmed(body.skip(prefix.len() as int)))
    } else {
        None
    }
}

/// Whether a character is white space.
pub fn is_whitespace(c: char) -> (space: bool)
    ensures
        space == is_space(c),
{
    let n: u32 = c as u32;
    (0x09 <= n && n <= 0x0D) || n == 0x20 || n == 0x85 || n == 0xA0 || n == 0x1680 || (0x2000 <= n
        && n <= 0x200A) || n == 0x2028 || n == 0x2029 || n == 0x202F || n == 0x205F || n == 0x3000
}

/// The first position at or after `from` that holds no white space.
fn skip_spaces(line: &Vec<char>, from: usize) -> (at: usize)
    requires
        from <= line.len(),
    ensures
        from <= at <= line.len(),
        line@.skip(at as int) == trimmed_start(line@.skip(from as int)),
{
    let mut at: usize = from;
    while at < line.len() && is_whitespace(line[at])
        invariant
            from <= at <= line.len(),
            trimmed_start(line@.skip(at as int)) == trimmed_start(line@.skip(from as int)),
        decreases line.len() - at,
    {
        assert(line@.skip(at as int).drop_first() =~= line@.skip(at + 1));
        at += 1;
    }
    at
}

/// The end of the part of `line` from `from` on, without the white space
/// that it ends with.
fn drop_spaces(line: &Vec<char>, from: usize) -> (to: usize)
    requires
        from <= line.len(),
    ensures
        from <= to <= line.len(),
        line@.subrange(from as int, to as int) == trimmed_end(line@.skip(from as int)),
{
    let mut to: usize = line.len();
    assert(line@.subrange(from as int, to as int) =~= line@.skip(from as int));
    while to > from && is_whitespace(line[to - 1])
        invariant
            from <= to <= line.len(),
            trimmed_end(line@.subrange(from as int, to as int)) == trimmed_end(
                line@.skip(from as int),
            ),
        decreases to,
    {
        assert(line@.subrange(from as int, to as int).drop_last() =~= line@.subrange(
            from as int,
            to - 1,
        ));
        to -= 1;
    }
    to
}

/// Whether `prefix` stands in `line` at position `at`.
fn has_prefix_at(line: &Vec<char>, at: usize, prefix: &Vec<char>) -> (found: bool)
    requires
        at <= line.len(),
    ensures
        found == prefix@.is_prefix_of(line@.skip(at as int)),
{
    if prefix.len() > line.len() - at {
        return false;
    }
    let mut i: usize = 0;
    while i < prefix.len()
        invariant
            i <= prefix.len(),
            at + prefix.len() <= line.len(),
            forall|j: int| 0 <= j < i ==> prefix@[j] == line@[at + j],
        decreases prefix.len() - i,
    {
        if prefix[i] != line[at + i] {
            assert(line@.skip(at as int)[i as int] != prefix@[i as int]);
            return false;
        }
        i += 1;
    }
    assert(prefix@ =~= line@.skip(at as int).subrange(0, prefix@.len() as int));
    true
}

/// Finds the path text of an include directive in a line: the positions in
/// the line at which it starts and ends.
pub fn find_directive(line: &Vec<char>, prefix: &Vec<char>) -> (found: Option<(usize, usize)>)
    ensures
        found is Some <==> directive_path(line@, prefix@) is Some,
        found matches Some((from, to)) ==> from <= to <= line.len() && line@.subrange(
            from as int,
            to as int,
        ) == directive_path(line@, prefix@)->0,
{
    let start = skip_spaces(line, 0);
    assert(line@.skip(0) =~= line@);
    if !has_prefix_at(line, start, prefix) {
        return None;
    }
    let after: usize = start + prefix.len();
    assert(line@.skip(start as int).skip(prefix@.len() as int) =~= line@.skip(after as int));
    let from = skip_spaces(line, after);
    let to = drop_spaces(line, from);
    Some((from, to))
}

/// The line feed that ends a line.
pub const LINE_FEED: u8 = 10;

/// The carriage return that may stand before a line feed.
pub const CARRIAGE_RETURN: u8 = 13;

/// How many bytes stand before the first line feed, or in all where there
/// is no line feed.
pub open spec fn line_len(bytes: Seq<u8>) -> nat
    decreases bytes.len(),
{
    if bytes.len() == 0 || bytes[0] == LINE_FEED {
        0
    } else {
        1 + line_len(bytes.drop_first())
    }
}

/// A line as it is read: one that a line feed ended loses a carriage return
/// at its end.
pub open spec fn line_body(line: Seq<u8>, ended: bool) -> Seq<u8> {
    if ended && line.len() > 0 && line.last() == CARRIAGE_RETURN {
        line.drop_last()
    } else {
        line
    }
}

/// The lines of a file: each runs up to a line feed, which is not part of it,
/// nor is a carriage return just before that line feed. What follows the
/// last line feed is a line too, unless it is empty.
pub open spec fn lines_of(bytes: Seq<u8>) -> Seq<Seq<u8>>
    decreases bytes.len(),
{
    if bytes.len() == 0 {
        Seq::empty()
    } else {
        let n = line_len(bytes) as int;
        if n >= bytes.len() {
            seq![bytes]
        } else {
            seq![line_body(bytes.take(n), true)] + lines_of(bytes.skip(n + 1))
        }
    }
}

/// The byte sequences that a vector of lines holds.
pub open spec fn byte_lines(lines: Seq<Vec<u8>>) -> Seq<Seq<u8>> {
    lines.map_values(|l: Vec<u8>| l@)
}

/// A line never runs past the end, it stops at the first line feed, and it
/// holds none.
pub proof fn lemma_line_len_bound(bytes: Seq<u8>)
    ensures
        line_len(bytes) <= bytes.len(),
        line_len(bytes) < bytes.len() ==> bytes[line_len(bytes) as int] == LINE_FEED,
        forall|i: int| 0 <= i < line_len(bytes) ==> bytes[i] != LINE_FEED,
    decreases bytes.len(),
{
    if bytes.len() == 0 || bytes[0] == LINE_FEED {
    } else {
        let rest = bytes.drop_first();
        lemma_line_len_bound(rest);
        assert forall|i: int| 0 <= i < line_len(bytes) implies bytes[i] != LINE_FEED by {
            if i > 0 {
                assert(bytes[i] == rest[i - 1]);
            }
        }
    }
}

/// No line holds a line feed.
pub proof fn lemma_lines_hold_no_line_feed(bytes: Seq<u8>, i: int, j: int)
    requires
        0 <= i < lines_of(bytes).len(),
        0 <= j < lines_of(bytes)[i].len(),
    ensures
        lines_of(bytes)[i][j] != LINE_FEED,
    decreases bytes.len(),
{
    lemma_line_len_bound(bytes);
    let n = line_len(bytes) as int;
    if n < bytes.len() {
        let first = line_body(bytes.take(n), true);
        let rest = lines_of(bytes.skip(n + 1));
        assert(lines_of(bytes) =~= seq![first] + rest);
        if i == 0 {
            assert(first[j] == bytes[j]);
        } else {
            assert(lines_of(bytes)[i] == rest[i - 1]);
            lemma_lines_hold_no_line_feed(bytes.skip(n + 1), i - 1, j);
        }
    }
}

/// The position of the first line feed at or after `from`, or the length.
fn find_line_end(content: &Vec<u8>, from: usize) -> (end: usize)
    requires
        from <= content.len(),
    ensures
        end == from + line_len(content@.skip(from as int)),
        from <= end <= content.len(),
{
    let mut end: usize = from;
    while end < content.len() && content[end] != LINE_FEED
        invariant
            from <= end <= content.len(),
            line_len(content@.skip(from as int)) == (end - from) + line_len(
                content@.skip(end as int),
            ),
        decreases content.len() - end,
    {
        assert(content@.skip(end as int).drop_first() =~= content@.skip(end + 1));
        end += 1;
    }
    end
}

/// The bytes of `content` from `from` up to `to`.
fn copy_range(content: &Vec<u8>, from: usize, to: usize) -> (bytes: Vec<u8>)
    requires
        from <= to <= content.len(),
    ensures
        bytes@ == content@.subrange(from as int, to as int),
{
    slice_to_vec(slice_subrange(content.as_slice(), from, to))
}

/// Splits the bytes of a file into its lines.
pub fn split_lines(content: &Vec<u8>) -> (lines: Vec<Vec<u8>>)
    ensures
        byte_lines(lines@) == lines_of(content@),
{
    let mut lines: Vec<Vec<u8>> = Vec::new();
    let mut pos: usize = 0;
    assert(content@.skip(0) =~= content@);
    while pos < content.len()
        invariant
            pos <= content.len(),
            byte_lines(lines@) + lines_of(content@.skip(pos as int)) == lines_of(content@),
        decreases content.len() - pos,
    {
        let ghost rest = content@.skip(pos as int);
        let ghost before = byte_lines(lines@);
        let end = find_line_end(content, pos);
        let ended = end < content.len();
        let stop: usize = if ended && end > pos && content[end - 1] == CARRIAGE_RETURN {
            end - 1
        } else {
            end
        };
        let line = copy_range(content, pos, stop);
        proof {
            let n = line_len(rest) as int;
            assert(rest.take(n) =~= content@.subrange(pos as int, end as int));
            assert(line@ =~= line_body(rest.take(n), ended));
            if ended {
                assert(rest.skip(n + 1) =~= content@.skip(end + 1));
            } else {
                assert(rest.take(n) =~= rest);
                assert(lines_of(content@.skip(content.len() as int)) =~= Seq::empty());
            }
            assert(byte_lines(lines@.push(line)) =~= before.push(line@));
        }
        lines.push(line);
        pos = if ended {
            end + 1
        } else {
            end
        };
        assert(byte_lines(lines@) + lines_of(content@.skip(pos as int)) =~= lines_of(content@));
    }
    assert(lines_of(content@.skip(pos as int)) =~= Seq::empty());
    assert(byte_lines(lines@) + Seq::<Seq<u8>>::empty() =~= byte_lines(lines@));
    lines
}

/// Reads bytes as text with `std::str::from_utf8`. The contract claims that
/// a text comes back exactly where the bytes are well-formed UTF-8, and that
/// the text then has those bytes.
#[verifier::external_body]
fn as_text(bytes: &[u8]) -> (text: Option<&str>)
    ensures
        text is Some <==> valid_utf8(bytes@),
        text matches Some(s) ==> s.spec_bytes() == bytes@,
{
    std::str::from_utf8(bytes).ok()
}

/// Whether a byte sequence is well-formed UTF-8.
pub fn is_utf8(bytes: &Vec<u8>) -> (valid: bool)
    ensures
        valid == valid_utf8(bytes@),
{
    as_text(bytes.as_slice()).is_some()
}

/// What a line of a source file is.
#[derive(Debug, Clone, PartialEq, Eq)]
pub enum LineKind {
    /// The line cannot be read as text.
    Binary,
    /// The line is text and no include directive.
    Plain,
    /// The line is an include directive that names this path text.
    Directive(String),
}

/// Says what a line is: binary where it is not well-formed UTF-8, else a
/// directive with its path text, or a plain line.
pub fn classify_line(line: &Vec<u8>, prefix: &Vec<char>) -> (kind: LineKind)
    ensures
        kind is Binary <==> !valid_utf8(line@),
        kind is Plain <==> valid_utf8(line@) && directive_path(decode_utf8(line@), prefix@)
            is None,
        kind matches LineKind::Directive(text) ==> directive_path(decode_utf8(line@), prefix@)
            == Some(text@),
{
    broadcast use encode_utf8_decode_utf8;

    match as_text(line.as_slice()) {
        None => LineKind::Binary,
        Some(text) => {
            let chars = chars_of(text);
            match find_directive(&chars, prefix) {
                None => LineKind::Plain,
                Some((from, to)) => {
                    let named = text.substring_char(from, to);
                    LineKind::Directive(named.to_owned())
                },
            }
        },
    }
}

} // verus!
