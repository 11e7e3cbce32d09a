//! Line splitting and blank detection with the semantics of Python's
//! `str.splitlines` and `str.strip`, which chunk boundaries depend on.
use vstd::prelude::*;

use crate::text;

verus! {

/// Whether `c` ends a line.
pub open spec fn line_break(c: char) -> bool {
    ||| '\u{a}' <= c <= '\u{d}'
    ||| '\u{1c}' <= c <= '\u{1e}'
    ||| c == '\u{85}'
    ||| c == '\u{2028}'
    ||| c == '\u{2029}'
}

/// Position of the first line break in `s`; its length where there is none.
pub open spec fn first_break(s: Seq<char>) -> nat
    decreases s.len(),
{
    if s.len() == 0 || line_break(s[0]) {
        0
    } else {
        1 + first_break(s.drop_first())
    }
}

/// How many characters the line break at `k` takes: two for `\r\n`, else one.
pub open spec fn break_len(s: Seq<char>, k: int) -> int {
    if s[k] == '\r' && k + 1 < s.len() && s[k + 1] == '\n' {
        2
    } else {
        1
    }
}

/// The lines of `s`, without their breaks. A break at the very end opens no
/// further line, so the empty text has none.
pub open spec fn split_lines(s: Seq<char>) -> Seq<Seq<char>>
    decreases s.len(),
{
    let k = first_break(s) as int;
    if s.len() == 0 {
        Seq::empty()
    } else if k >= s.len() {
        seq![s]
    } else {
        seq![s.take(k)] + split_lines(s.skip(k + break_len(s, k)))
    }
}

pub proof fn lemma_first_break(s: Seq<char>)
    ensures
        first_break(s) <= s.len(),
        forall|i: int| 0 <= i < first_break(s) ==> !line_break(#[trigger] s[i]),
        first_break(s) < s.len() ==> line_break(s[first_break(s) as int]),
    decreases s.len(),
{
    if s.len() > 0 && !line_break(s[0]) {
        let t = s.drop_first();
        lemma_first_break(t);
        assert forall|i: int| 0 <= i < first_break(s) implies !line_break(#[trigger] s[i]) by {
            if i > 0 {
                assert(s[i] == t[i - 1]);
            }
        }
    }
}

proof fn lemma_first_break_is(s: Seq<char>, k: int)
    requires
        0 <= k <= s.len(),
        forall|i: int| 0 <= i < k ==> !line_break(#[trigger] s[i]),
        k < s.len() ==> line_break(s[k]),
    ensures
        first_break(s) == k,
{
    lemma_first_break(s);
}

/// The first line of what is left from `start`, when its break stands at `i`.
proof fn lemma_split_step(s: Seq<char>, start: int, i: int)
    requires
        0 <= start <= i < s.len(),
        forall|k: int| start <= k < i ==> !line_break(#[trigger] s[k]),
        line_break(s[i]),
    ensures
        split_lines(s.skip(start)) == seq![s.subrange(start, i)] + split_lines(
            s.skip(i + break_len(s, i)),
        ),
        i + break_len(s, i) <= s.len(),
{
    let rest = s.skip(start);
    let k = i - start;
    assert forall|j: int| 0 <= j < k implies !line_break(#[trigger] rest[j]) by {
        assert(rest[j] == s[start + j]);
    }
    lemma_first_break_is(rest, k);
    assert(rest.take(k) == s.subrange(start, i));
    assert(break_len(rest, k) == break_len(s, i));
    assert(rest.skip(k + break_len(rest, k)) == s.skip(i + break_len(s, i)));
}

/// What is left from `start` is one line, when it holds no break.
proof fn lemma_split_last(s: Seq<char>, start: int)
    requires
        0 <= start <= s.len(),
        forall|k: int| start <= k < s.len() ==> !line_break(#[trigger] s[k]),
    ensures
        split_lines(s.skip(start)) == if start < s.len() {
            seq![s.skip(start)]
        } else {
            Seq::empty()
        },
{
    let rest = s.skip(start);
    assert forall|j: int| 0 <= j < rest.len() implies !line_break(#[trigger] rest[j]) by {
        assert(rest[j] == s[start + j]);
    }
    lemma_first_break_is(rest, rest.len() as int);
}

/// `str.splitlines()`: the lines of `s` under universal newlines, without the
/// breaks and without a trailing empty line.
pub fn py_splitlines(s: &str) -> (lines: Vec<&str>)
    ensures
        text::slices(lines@) == split_lines(s@),
{
    let v = text::chars_of(s);
    let total: usize = s.as_bytes().len();
    let mut lines: Vec<&str> = Vec::new();
    // `start` and `i` count characters; `from` and `at` are their byte offsets.
    let mut start: usize = 0;
    let mut from: usize = 0;
    let mut i: usize = 0;
    let mut at: usize = 0;
    proof {
        text::lemma_offset_bound(s@, 0);
        assert(s@.skip(0) == s@);
        assert(text::slices(lines@) + split_lines(s@) == split_lines(s@));
    }
    while i < v.len()
        invariant
            v@ == s@,
            total == text::offset(s@, s@.len() as int),
            start <= i <= s@.len(),
            from == text::offset(s@, start as int),
            at == text::offset(s@, i as int),
            forall|k: int| start <= k < i ==> !line_break(#[trigger] s@[k]),
            text::slices(lines@) + split_lines(s@.skip(start as int)) == split_lines(s@),
        decreases s@.len() - i,
    {
        let c = v[i];
        proof {
            text::lemma_offset_step(s@, i as int);
            text::lemma_offset_bound(s@, i + 1);
        }
        let next: usize = at + text::char_width(c);
        if is_line_break(c) {
            let line = text::part(s, from, at, Ghost(start as int), Ghost(i as int));
            let ghost before = lines@;
            proof {
                lemma_split_step(s@, start as int, i as int);
            }
            lines.push(line);
            proof {
                let tail = split_lines(s@.skip(i + break_len(s@, i as int)));
                assert(text::slices(lines@) + tail =~= text::slices(before) + (seq![line@] + tail));
            }
            if c == '\r' && i + 1 < v.len() && v[i + 1] == '\n' {
                proof {
                    text::lemma_offset_step(s@, i + 1);
                    text::lemma_offset_bound(s@, i + 2);
                }
                at = next + text::char_width('\n');
                i = i + 2;
            } else {
                at = next;
                i = i + 1;
            }
            from = at;
            start = i;
        } else {
            at = next;
            i = i + 1;
        }
    }
    proof {
        lemma_split_last(s@, start as int);
    }
    if start < v.len() {
        let line = text::part(s, from, total, Ghost(start as int), Ghost(s@.len() as int));
        let ghost before = lines@;
        lines.push(line);
        proof {
            assert(line@ == s@.skip(start as int));
            assert(text::slices(lines@) =~= text::slices(before) + seq![line@]);
        }
    }
    lines
}

/// Whether `c` ends a line.
pub fn is_line_break(c: char) -> (r: bool)
    ensures
        r == line_break(c),
{
    ('\u{a}' <= c && c <= '\u{d}') || ('\u{1c}' <= c && c <= '\u{1e}') || c == '\u{85}' || c
        == '\u{2028}' || c == '\u{2029}'
}

/// Whether `c` counts as blank: White_Space, and the separators U+001C..U+001F
/// (FS, GS, RS, US), which that property leaves out.
pub open spec fn blank_char(c: char) -> bool {
    text::white_space(c) || '\u{1c}' <= c <= '\u{1f}'
}

/// Whether `s` holds nothing but blank characters.
pub open spec fn blank(s: Seq<char>) -> bool {
    forall|i: int| 0 <= i < s.len() ==> blank_char(#[trigger] s[i])
}

/// `not s.strip()`: whether `s` holds nothing but blank characters.
pub fn is_py_blank(s: &str) -> (r: bool)
    ensures
        r == blank(s@),
{
    let v = text::chars_of(s);
    let mut i: usize = 0;
    while i < v.len()
        invariant
            v@ == s@,
            i <= v@.len(),
            forall|k: int| 0 <= k < i ==> blank_char(#[trigger] s@[k]),
        decreases v@.len() - i,
    {
        let c = v[i];
        if !(text::is_white_space(c) || ('\u{1c}' <= c && c <= '\u{1f}')) {
            assert(!blank_char(s@[i as int]));
            return false;
        }
        i = i + 1;
    }
    true
}

// ---------------------------------------------------------------------------
// Plain newlines
// ---------------------------------------------------------------------------

/// The pieces between the `\n` of `s`: one more than there are `\n`.
pub open spec fn newline_pieces(s: Seq<char>) -> Seq<Seq<char>>
    decreases s.len(),
{
    let k = text::first_of(s, '\n') as int;
    if k >= s.len() {
        seq![s]
    } else {
        seq![s.take(k)] + newline_pieces(s.skip(k + 1))
    }
}

/// `s` without one `\r` at its end.
pub open spec fn without_cr(s: Seq<char>) -> Seq<char> {
    if s.len() > 0 && s.last() == '\r' {
        s.drop_last()
    } else {
        s
    }
}

/// The lines of `s` that end in `\n` or `\r\n`, and what follows the last one
/// unless it is empty.
pub open spec fn text_lines(s: Seq<char>) -> Seq<Seq<char>>
    decreases s.len(),
{
    let k = text::first_of(s, '\n') as int;
    if s.len() == 0 {
        Seq::empty()
    } else if k >= s.len() {
        seq![s]
    } else {
        seq![without_cr(s.take(k))] + text_lines(s.skip(k + 1))
    }
}

/// `s.split('\n')`: the pieces between the `\n` of `s`.
pub fn split_newlines(s: &str) -> (pieces: Vec<&str>)
    ensures
        text::slices(pieces@) == newline_pieces(s@),
        pieces@.len() >= 1,
{
    let v = text::chars_of(s);
    let total: usize = s.as_bytes().len();
    let mut pieces: Vec<&str> = Vec::new();
    let mut start: usize = 0;
    let mut from: usize = 0;
    let mut i: usize = 0;
    let mut at: usize = 0;
    proof {
        text::lemma_offset_bound(s@, 0);
        assert(s@.skip(0) == s@);
        assert(text::slices(pieces@) + newline_pieces(s@) == newline_pieces(s@));
    }
    while i < v.len()
        invariant
            v@ == s@,
            total == text::offset(s@, s@.len() as int),
            start <= i <= s@.len(),
            from == text::offset(s@, start as int),
            at == text::offset(s@, i as int),
            forall|k: int| start <= k < i ==> #[trigger] s@[k] != '\n',
            text::slices(pieces@) + newline_pieces(s@.skip(start as int)) == newline_pieces(s@),
        decreases s@.len() - i,
    {
        let c = v[i];
        proof {
            text::lemma_offset_step(s@, i as int);
            text::lemma_offset_bound(s@, i + 1);
        }
        let next: usize = at + text::char_width(c);
        if c == '\n' {
            let piece = text::part(s, from, at, Ghost(start as int), Ghost(i as int));
            let ghost before = pieces@;
            pieces.push(piece);
            proof {
                let rest = s@.skip(start as int);
                text::lemma_first_of_is(s@, '\n', start as int, i as int);
                assert(rest.take(i - start) == piece@);
                assert(rest.skip(i - start + 1) == s@.skip(i + 1));
                let tail = newline_pieces(s@.skip(i + 1));
                assert(text::slices(pieces@) + tail =~= text::slices(before) + (seq![piece@]
                    + tail));
            }
            from = next;
            start = i + 1;
        }
        at = next;
        i = i + 1;
    }
    let piece = text::part(s, from, total, Ghost(start as int), Ghost(s@.len() as int));
    let ghost before = pieces@;
    pieces.push(piece);
    proof {
        text::lemma_first_of_is(s@, '\n', start as int, s@.len() as int);
        assert(piece@ == s@.skip(start as int));
        assert(text::slices(pieces@) =~= text::slices(before) + seq![piece@]);
    }
    pieces
}

/// `s.lines()`: the lines of `s`, ended by `\n` or `\r\n`, the last break optional.
pub fn lines_of(s: &str) -> (lines: Vec<&str>)
    ensures
        text::slices(lines@) == text_lines(s@),
{
    let v = text::chars_of(s);
    let total: usize = s.as_bytes().len();
    let mut lines: Vec<&str> = Vec::new();
    let mut start: usize = 0;
    let mut from: usize = 0;
    let mut i: usize = 0;
    let mut at: usize = 0;
    // Byte offset of the character before `i`.
    let mut prev: usize = 0;
    proof {
        text::lemma_offset_bound(s@, 0);
        assert(s@.skip(0) == s@);
        assert(text::slices(lines@) + text_lines(s@) == text_lines(s@));
    }
    while i < v.len()
        invariant
            v@ == s@,
            total == text::offset(s@, s@.len() as int),
            start <= i <= s@.len(),
            from == text::offset(s@, start as int),
            at == text::offset(s@, i as int),
            i > 0 ==> prev == text::offset(s@, i - 1),
            forall|k: int| start <= k < i ==> #[trigger] s@[k] != '\n',
            text::slices(lines@) + text_lines(s@.skip(start as int)) == text_lines(s@),
        decreases s@.len() - i,
    {
        let c = v[i];
        proof {
            text::lemma_offset_step(s@, i as int);
            text::lemma_offset_bound(s@, i + 1);
        }
        let next: usize = at + text::char_width(c);
        if c == '\n' {
            let line = if start < i && v[i - 1] == '\r' {
                text::part(s, from, prev, Ghost(start as int), Ghost(i - 1))
            } else {
                text::part(s, from, at, Ghost(start as int), Ghost(i as int))
            };
            let ghost before = lines@;
            lines.push(line);
            proof {
                let rest = s@.skip(start as int);
                text::lemma_first_of_is(s@, '\n', start as int, i as int);
                let whole = rest.take(i - start);
                assert(whole == s@.subrange(start as int, i as int));
                if start < i {
                    assert(whole.last() == s@[i - 1]);
                    assert(whole.drop_last() == s@.subrange(start as int, i - 1));
                }
                assert(line@ == without_cr(whole));
                assert(rest.skip(i - start + 1) == s@.skip(i + 1));
                let tail = text_lines(s@.skip(i + 1));
                assert(text::slices(lines@) + tail =~= text::slices(before) + (seq![line@] + tail));
            }
            from = next;
            start = i + 1;
        }
        prev = at;
        at = next;
        i = i + 1;
    }
    proof {
        text::lemma_first_of_is(s@, '\n', start as int, s@.len() as int);
    }
    if start < v.len() {
        let line = text::part(s, from, total, Ghost(start as int), Ghost(s@.len() as int));
        let ghost before = lines@;
        lines.push(line);
        proof {
            assert(line@ == s@.skip(start as int));
            assert(text::slices(lines@) =~= text::slices(before) + seq![line@]);
        }
    }
    lines
}

// ---------------------------------------------------------------------------
// Laws
// ---------------------------------------------------------------------------

/// The texts in order, with nothing between them.
pub open spec fn concat(parts: Seq<Seq<char>>) -> Seq<char>
    decreases parts.len(),
{
    if parts.len() == 0 {
        Seq::empty()
    } else {
        parts[0] + concat(parts.drop_first())
    }
}

/// `s` without its line breaks.
pub open spec fn without_breaks(s: Seq<char>) -> Seq<char>
    decreases s.len(),
{
    if s.len() == 0 {
        Seq::empty()
    } else if line_break(s[0]) {
        without_breaks(s.drop_first())
    } else {
        seq![s[0]] + without_breaks(s.drop_first())
    }
}

/// No line holds a line break.
pub proof fn law_lines_hold_no_break(s: Seq<char>, i: int, j: int)
    requires
        0 <= i < split_lines(s).len(),
        0 <= j < split_lines(s)[i].len(),
    ensures
        !line_break(split_lines(s)[i][j]),
    decreases s.len(),
{
    lemma_first_break(s);
    let k = first_break(s) as int;
    if s.len() > 0 && k < s.len() && i > 0 {
        let rest = s.skip(k + break_len(s, k));
        assert(split_lines(s)[i] == split_lines(rest)[i - 1]);
        law_lines_hold_no_break(rest, i - 1, j);
    }
}

proof fn lemma_without_breaks_step(s: Seq<char>, k: int)
    requires
        0 <= k <= s.len(),
        forall|i: int| 0 <= i < k ==> !line_break(#[trigger] s[i]),
    ensures
        without_breaks(s) == s.take(k) + without_breaks(s.skip(k)),
    decreases k,
{
    if k == 0 {
        assert(s.skip(0) == s);
        assert(s.take(0) + without_breaks(s) == without_breaks(s));
    } else {
        let t = s.drop_first();
        assert forall|i: int| 0 <= i < k - 1 implies !line_break(#[trigger] t[i]) by {
            assert(t[i] == s[i + 1]);
        }
        lemma_without_breaks_step(t, k - 1);
        assert(t.skip(k - 1) == s.skip(k));
        assert(without_breaks(s) =~= s.take(k) + without_breaks(s.skip(k)));
    }
}

/// Splitting loses nothing but the breaks: the lines in order are the text
/// without its line breaks.
pub proof fn law_lines_keep_text(s: Seq<char>)
    ensures
        concat(split_lines(s)) == without_breaks(s),
    decreases s.len(),
{
    lemma_first_break(s);
    let k = first_break(s) as int;
    if s.len() > 0 {
        lemma_without_breaks_step(s, k);
        if k >= s.len() {
            reveal_with_fuel(concat, 2);
            assert(s.take(k) == s);
            assert(seq![s].drop_first() == Seq::<Seq<char>>::empty());
            assert(concat(split_lines(s)) =~= s);
            assert(without_breaks(s) =~= s);
        } else {
            let n = break_len(s, k);
            let rest = s.skip(k + n);
            law_lines_keep_text(rest);
            assert(split_lines(s).drop_first() =~= split_lines(rest));
            assert(s.skip(k)[0] == s[k]);
            assert(s.skip(k).drop_first() == s.skip(k + 1));
            assert(without_breaks(s.skip(k)) == without_breaks(s.skip(k + 1)));
            if n == 2 {
                assert(s.skip(k + 1)[0] == '\n');
                assert(s.skip(k + 1).drop_first() == s.skip(k + 2));
                assert(without_breaks(s.skip(k + 1)) == without_breaks(s.skip(k + 2)));
            }
            assert(without_breaks(s.skip(k)) == without_breaks(rest));
        }
    }
}

/// Joining lines with `\n` and splitting again gives the lines back, when none
/// holds a break and the last is not empty.
pub proof fn law_split_of_join(lines: Seq<Seq<char>>)
    requires
        lines.len() > 0,
        lines.last().len() > 0,
        forall|i: int, j: int|
            0 <= i < lines.len() && 0 <= j < lines[i].len() ==> !line_break(#[trigger] lines[i][j]),
    ensures
        split_lines(text::join(lines, seq!['\n'])) == lines,
    decreases lines.len(),
{
    let s = text::join(lines, seq!['\n']);
    if lines.len() == 1 {
        lemma_first_break_is(s, s.len() as int);
        assert(split_lines(s) =~= lines);
    } else {
        text::lemma_join_front(lines, seq!['\n']);
        let tail = lines.drop_first();
        assert forall|i: int, j: int|
            0 <= i < tail.len() && 0 <= j < tail[i].len() implies !line_break(
            #[trigger] tail[i][j],
        ) by {
            assert(tail[i] == lines[i + 1]);
            assert(!line_break(lines[i + 1][j]));
        }
        assert(tail.last() == lines.last());
        law_split_of_join(tail);
        let k = lines[0].len() as int;
        assert forall|i: int| 0 <= i < k implies !line_break(#[trigger] s[i]) by {
            assert(s[i] == lines[0][i]);
        }
        assert(s[k] == '\n');
        lemma_first_break_is(s, k);
        assert(s.take(k) == lines[0]);
        assert(s.skip(k + 1) == text::join(tail, seq!['\n']));
        assert(split_lines(s) =~= lines);
    }
}

/// A text has no more lines than characters.
pub proof fn lemma_split_len(s: Seq<char>)
    ensures
        split_lines(s).len() <= s.len(),
    decreases s.len(),
{
    lemma_first_break(s);
    let k = first_break(s) as int;
    if s.len() > 0 && k < s.len() {
        lemma_split_len(s.skip(k + break_len(s, k)));
    }
}

/// Joining the pieces between the `\n` of a text with `\n` gives the text back.
pub proof fn law_join_of_pieces(s: Seq<char>)
    ensures
        text::join(newline_pieces(s), seq!['\n']) == s,
        newline_pieces(s).len() >= 1,
    decreases s.len(),
{
    text::lemma_first_of(s, '\n');
    let k = text::first_of(s, '\n') as int;
    if k < s.len() {
        let rest = s.skip(k + 1);
        law_join_of_pieces(rest);
        let pieces = newline_pieces(s);
        assert(pieces.drop_first() =~= newline_pieces(rest));
        text::lemma_join_front(pieces, seq!['\n']);
        assert(text::join(pieces, seq!['\n']) =~= s);
    }
}

/// No piece between the `\n` of a text holds one.
pub proof fn law_pieces_hold_no_newline(s: Seq<char>, i: int, j: int)
    requires
        0 <= i < newline_pieces(s).len(),
        0 <= j < newline_pieces(s)[i].len(),
    ensures
        newline_pieces(s)[i][j] != '\n',
    decreases s.len(),
{
    text::lemma_first_of(s, '\n');
    let k = text::first_of(s, '\n') as int;
    if k < s.len() && i > 0 {
        let rest = s.skip(k + 1);
        assert(newline_pieces(s)[i] == newline_pieces(rest)[i - 1]);
        law_pieces_hold_no_newline(rest, i - 1, j);
    }
}

proof fn lemma_join_prefix_len(parts: Seq<Seq<char>>, n: int)
    requires
        0 <= n <= parts.len(),
    ensures
        text::join(parts.take(n), seq!['\n']).len() <= text::join(parts, seq!['\n']).len(),
    decreases parts.len(),
{
    if n == parts.len() {
        assert(parts.take(n) =~= parts);
    } else {
        lemma_join_prefix_len(parts.drop_last(), n);
        assert(parts.drop_last().take(n) =~= parts.take(n));
        if parts.len() == 1 {
            assert(parts.take(n).len() == 0);
        }
    }
}

proof fn lemma_join_suffix_len(parts: Seq<Seq<char>>, n: int)
    requires
        0 <= n < parts.len(),
    ensures
        n + text::join(parts.skip(n), seq!['\n']).len() <= text::join(parts, seq!['\n']).len(),
    decreases n,
{
    if n == 0 {
        assert(parts.skip(0) =~= parts);
    } else {
        text::lemma_join_front(parts, seq!['\n']);
        lemma_join_suffix_len(parts.drop_first(), n - 1);
        assert(parts.drop_first().skip(n - 1) =~= parts.skip(n));
    }
}

/// The pieces `from..to` of a text, joined, take no more than what is left of it
/// after one `\n` for each piece before them.
pub proof fn lemma_part_len(s: Seq<char>, from: int, to: int)
    requires
        0 <= from <= to <= newline_pieces(s).len(),
    ensures
        from < to ==> from + text::join(
            newline_pieces(s).subrange(from, to),
            seq!['\n'],
        ).len() <= s.len(),
        from == to ==> text::join(newline_pieces(s).subrange(from, to), seq!['\n']).len() == 0,
{
    let pieces = newline_pieces(s);
    law_join_of_pieces(s);
    if from < to {
        lemma_join_suffix_len(pieces, from);
        lemma_join_prefix_len(pieces.skip(from), to - from);
        assert(pieces.skip(from).take(to - from) =~= pieces.subrange(from, to));
    }
}

/// The characters that end a line: line feed, vertical tab, form feed, carriage
/// return, the three information separators, next line, and the line and paragraph
/// separators.
pub proof fn law_line_breaks(c: char)
    ensures
        line_break(c) <==> (c == '\n' || c == '\u{b}' || c == '\u{c}' || c == '\r' || c == '\u{1c}'
            || c == '\u{1d}' || c == '\u{1e}' || c == '\u{85}' || c == '\u{2028}' || c
            == '\u{2029}'),
{
}

/// A line ends at the first break and what follows the break is split on its own. A
/// break takes one character, but for `\r\n`, which is a single break; a text without
/// breaks is one line, and the empty text has none.
pub proof fn law_lines_end_at_breaks(a: Seq<char>, c: char, b: Seq<char>)
    requires
        forall|i: int| 0 <= i < a.len() ==> !line_break(#[trigger] a[i]),
    ensures
        split_lines(Seq::empty()) == Seq::<Seq<char>>::empty(),
        a.len() > 0 ==> split_lines(a) == seq![a],
        line_break(c) && !(c == '\r' && b.len() > 0 && b[0] == '\n') ==> split_lines(
            a + seq![c] + b,
        ) == seq![a] + split_lines(b),
        split_lines(a + seq!['\r', '\n'] + b) == seq![a] + split_lines(b),
{
    let one = a + seq![c] + b;
    let two = a + seq!['\r', '\n'] + b;
    let k = a.len() as int;
    lemma_first_break_is(a, k);
    assert forall|i: int| 0 <= i < k implies !line_break(#[trigger] two[i]) by {
        assert(two[i] == a[i]);
    }
    lemma_first_break_is(two, k);
    assert(two.take(k) =~= a);
    assert(two.skip(k + 2) =~= b);
    assert(break_len(two, k) == 2);
    if line_break(c) {
        assert forall|i: int| 0 <= i < k implies !line_break(#[trigger] one[i]) by {
            assert(one[i] == a[i]);
        }
        lemma_first_break_is(one, k);
        assert(one.take(k) =~= a);
        assert(one.skip(k + 1) =~= b);
        if b.len() > 0 {
            assert(one[k + 1] == b[0]);
        }
    }
}

/// A text is read by its `\n`: each ends a line, which loses one `\r` at its end; what
/// follows the last is a line as it stands, unless it is empty.
pub proof fn law_text_lines_end_at_newlines(a: Seq<char>, b: Seq<char>)
    requires
        forall|i: int| 0 <= i < a.len() ==> #[trigger] a[i] != '\n',
    ensures
        text_lines(Seq::empty()) == Seq::<Seq<char>>::empty(),
        a.len() > 0 ==> text_lines(a) == seq![a],
        text_lines(a + seq!['\r', '\n'] + b) == seq![a] + text_lines(b),
        (a.len() == 0 || a.last() != '\r') ==> text_lines(a + seq!['\n'] + b) == seq![a]
            + text_lines(b),
{
    let one = a + seq!['\n'] + b;
    let two = a + seq!['\r', '\n'] + b;
    let k = a.len() as int;
    text::lemma_first_of_is(a, '\n', 0, k);
    assert(a.skip(0) =~= a);
    text::lemma_first_of_is(one, '\n', 0, k);
    assert(one.skip(0) =~= one);
    assert(one.take(k) =~= a);
    assert(one.skip(k + 1) =~= b);
    text::lemma_first_of_is(two, '\n', 0, k + 1);
    assert(two.skip(0) =~= two);
    assert(two.take(k + 1) =~= a.push('\r'));
    assert(a.push('\r').drop_last() =~= a);
    assert(two.skip(k + 2) =~= b);
}

/// A chunk counts as empty where each of its characters is white space or one of the
/// four information separators.
pub proof fn law_blank_text(s: Seq<char>)
    ensures
        blank(s) <==> forall|i: int|
            0 <= i < s.len() ==> {
                let c = #[trigger] s[i];
                text::white_space(c) || c == '\u{1c}' || c == '\u{1d}' || c == '\u{1e}' || c
                    == '\u{1f}'
            },
{
    assert forall|c: char| #[trigger] blank_char(c) <==> (text::white_space(c) || c == '\u{1c}' || c
        == '\u{1d}' || c == '\u{1e}' || c == '\u{1f}') by {}
}

} // verus!
