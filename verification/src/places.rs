//! Where the chunks of a file stand in it: laws of chunking on the text of the file.
use vstd::prelude::*;
use vstd::utf8::*;

use crate::chunk::ChunkView;
use crate::syntax::NodeView;
use crate::{chunk, config, grammar, paths, splitlines, syntax, text};

verus! {

/// How many `\n` there are in `s`.
pub open spec fn newlines(s: Seq<char>) -> nat
    decreases s.len(),
{
    if s.len() == 0 {
        0
    } else {
        newlines(s.drop_last()) + if s.last() == '\n' {
            1nat
        } else {
            0nat
        }
    }
}

/// Whether `\n` is the only line break in `s`.
pub open spec fn plain(s: Seq<char>) -> bool {
    forall|i: int| 0 <= i < s.len() && splitlines::line_break(#[trigger] s[i]) ==> s[i] == '\n'
}

/// Whether the text `part` stands in `s` from position `p` on, which is in the 1-based
/// line `line`.
pub open spec fn stands_on(s: Seq<char>, part: Seq<char>, line: nat, p: int) -> bool {
    &&& 0 <= p
    &&& p + part.len() <= s.len()
    &&& s.subrange(p, p + part.len()) == part
    &&& line == newlines(s.take(p)) + 1
}

/// The text of a range of the bytes of the source.
pub open spec fn text_between(source: Seq<char>, range: (nat, nat)) -> Seq<char> {
    text::utf8_lossy(encode_utf8(source).subrange(range.0 as int, range.1 as int))
}

/// Whether the node is that of the characters `a..b` of the source: its bytes are theirs,
/// and its rows are those in which they begin and end.
pub open spec fn node_at(source: Seq<char>, node: NodeView, a: int, b: int) -> bool {
    &&& 0 <= a <= b <= source.len()
    &&& text_between(source, (node.start_byte, node.end_byte)) == source.subrange(a, b)
    &&& node.start_row == newlines(source.take(a))
    &&& node.end_row == newlines(source.take(b))
}

/// Whether the node is that of some characters of the source.
pub open spec fn placed(source: Seq<char>, node: NodeView) -> bool {
    exists|a: int, b: int| #[trigger] node_at(source, node, a, b)
}

// ---------------------------------------------------------------------------
// Counting and joining
// ---------------------------------------------------------------------------

proof fn lemma_newlines_concat(a: Seq<char>, b: Seq<char>)
    ensures
        newlines(a + b) == newlines(a) + newlines(b),
    decreases b.len(),
{
    if b.len() == 0 {
        assert(a + b =~= a);
    } else {
        lemma_newlines_concat(a, b.drop_last());
        assert((a + b).drop_last() =~= a + b.drop_last());
    }
}

proof fn lemma_no_newlines(s: Seq<char>)
    requires
        forall|i: int| 0 <= i < s.len() ==> #[trigger] s[i] != '\n',
    ensures
        newlines(s) == 0,
    decreases s.len(),
{
    if s.len() > 0 {
        assert forall|i: int| 0 <= i < s.drop_last().len() implies #[trigger] s.drop_last()[i]
            != '\n' by {
            assert(s[i] != '\n');
        }
        lemma_no_newlines(s.drop_last());
        assert(s[s.len() - 1] != '\n');
    }
}

proof fn lemma_one_newline()
    ensures
        newlines(seq!['\n']) == 1,
{
    reveal_with_fuel(newlines, 2);
    assert(seq!['\n'].drop_last() =~= Seq::<char>::empty());
}

proof fn lemma_newlines_grow(s: Seq<char>, p: int, q: int)
    requires
        0 <= p <= q <= s.len(),
    ensures
        newlines(s.take(p)) <= newlines(s.take(q)),
{
    lemma_newlines_concat(s.take(p), s.subrange(p, q));
    assert(s.take(p) + s.subrange(p, q) =~= s.take(q));
}

/// Whether none of the lines holds a `\n`.
spec fn bare(lines: Seq<Seq<char>>) -> bool {
    forall|i: int, j: int|
        0 <= i < lines.len() && 0 <= j < lines[i].len() ==> #[trigger] lines[i][j] != '\n'
}

spec fn joined(lines: Seq<Seq<char>>) -> Seq<char> {
    text::join(lines, seq!['\n'])
}

/// Where the line `l` starts in the joined lines.
spec fn start(lines: Seq<Seq<char>>, l: int) -> int {
    joined(lines.take(l)).len() + if l > 0 {
        1int
    } else {
        0int
    }
}

proof fn lemma_join_split(lines: Seq<Seq<char>>, i: int)
    requires
        0 < i < lines.len(),
    ensures
        joined(lines) == joined(lines.take(i)) + seq!['\n'] + joined(lines.skip(i)),
    decreases i,
{
    text::lemma_join_front(lines, seq!['\n']);
    let tail = lines.drop_first();
    if i == 1 {
        assert(lines.take(1) =~= seq![lines[0]]);
        assert(lines.skip(1) =~= tail);
    } else {
        lemma_join_split(tail, i - 1);
        text::lemma_join_front(lines.take(i), seq!['\n']);
        assert(lines.take(i).drop_first() =~= tail.take(i - 1));
        assert(tail.skip(i - 1) =~= lines.skip(i));
        assert(joined(lines) =~= joined(lines.take(i)) + seq!['\n'] + joined(lines.skip(i)));
    }
}

proof fn lemma_newlines_joined(lines: Seq<Seq<char>>)
    requires
        bare(lines),
        lines.len() > 0,
    ensures
        newlines(joined(lines)) == lines.len() - 1,
    decreases lines.len(),
{
    assert forall|j: int| 0 <= j < lines.last().len() implies #[trigger] lines.last()[j] != '\n' by {
        assert(lines[lines.len() - 1][j] != '\n');
    }
    lemma_no_newlines(lines.last());
    if lines.len() > 1 {
        let t = lines.drop_last();
        assert(bare(t)) by {
            assert forall|i: int, j: int|
                0 <= i < t.len() && 0 <= j < t[i].len() implies #[trigger] t[i][j] != '\n' by {
                assert(lines[i][j] != '\n');
            }
        }
        lemma_newlines_joined(t);
        lemma_one_newline();
        lemma_newlines_concat(joined(t), seq!['\n']);
        lemma_newlines_concat(joined(t) + seq!['\n'], lines.last());
    }
}

/// The lines `i..end` stand where the line `i` starts.
#[verifier::rlimit(40)]
#[verifier::spinoff_prover]
proof fn lemma_lines_stand(s: Seq<char>, lines: Seq<Seq<char>>, i: int, end: int)
    requires
        bare(lines),
        0 <= i < end <= lines.len(),
        joined(lines).len() <= s.len(),
        s.take(joined(lines).len() as int) == joined(lines),
    ensures
        stands_on(s, joined(lines.subrange(i, end)), (i + 1) as nat, start(lines, i)),
        start(lines, i) + joined(lines.subrange(i, end)).len() == joined(lines.take(end)).len(),
        joined(lines.take(end)).len() <= joined(lines).len(),
{
    let all = joined(lines);
    let upto = joined(lines.take(end));
    // The lines before `end` are a prefix.
    if end < lines.len() {
        lemma_join_split(lines, end);
        assert(all.take(upto.len() as int) =~= upto);
    } else {
        assert(lines.take(end) =~= lines);
        assert(all.take(upto.len() as int) =~= upto);
    }
    assert(s.take(upto.len() as int) =~= upto) by {
        assert(s.take(all.len() as int).take(upto.len() as int) =~= s.take(upto.len() as int));
    }
    let part = joined(lines.subrange(i, end));
    if i > 0 {
        lemma_join_split(lines.take(end), i);
        assert(lines.take(end).take(i) =~= lines.take(i));
        assert(lines.take(end).skip(i) =~= lines.subrange(i, end));
        let head = joined(lines.take(i));
        let p = start(lines, i);
        assert(upto == head + seq!['\n'] + part);
        assert(upto.subrange(p, p + part.len()) =~= part);
        assert(s.subrange(p, p + part.len()) =~= s.take(upto.len() as int).subrange(
            p,
            p + part.len(),
        ));
        assert(s.take(p) =~= s.take(upto.len() as int).take(p));
        assert(upto.take(p) =~= head + seq!['\n']);
        assert(bare(lines.take(i))) by {
            let t = lines.take(i);
            assert forall|x: int, j: int|
                0 <= x < t.len() && 0 <= j < t[x].len() implies #[trigger] t[x][j] != '\n' by {
                assert(lines[x][j] != '\n');
            }
        }
        lemma_newlines_joined(lines.take(i));
        lemma_one_newline();
        lemma_newlines_concat(head, seq!['\n']);
    } else {
        assert(lines.subrange(0, end) =~= lines.take(end));
        assert(lines.take(0).len() == 0);
        assert(joined(lines.take(0)).len() == 0);
        assert(s.subrange(0, part.len() as int) =~= s.take(upto.len() as int));
        assert(s.take(0).len() == 0);
    }
}

/// What stands in a part of the text stands in the text.
#[verifier::rlimit(40)]
#[verifier::spinoff_prover]
proof fn lemma_stands_within(
    s: Seq<char>,
    body: Seq<char>,
    from: nat,
    a: int,
    part: Seq<char>,
    line: nat,
    p: int,
)
    requires
        stands_on(s, body, from, a),
        stands_on(body, part, line, p),
    ensures
        stands_on(s, part, (from + line - 1) as nat, a + p),
{
    assert(s.subrange(a + p, a + p + part.len()) =~= body.subrange(p, p + part.len())) by {
        assert(s.subrange(a, a + body.len()).subrange(p, p + part.len()) =~= s.subrange(
            a + p,
            a + p + part.len(),
        ));
    }
    assert(s.take(a + p) =~= s.take(a) + body.take(p)) by {
        assert(s.subrange(a, a + body.len()).take(p) =~= s.subrange(a, a + p));
    }
    lemma_newlines_concat(s.take(a), body.take(p));
}

proof fn lemma_plain_part(s: Seq<char>, a: int, b: int)
    requires
        plain(s),
        0 <= a <= b <= s.len(),
    ensures
        plain(s.subrange(a, b)),
{
    let t = s.subrange(a, b);
    assert forall|i: int| 0 <= i < t.len() && splitlines::line_break(#[trigger] t[i]) implies t[i]
        == '\n' by {
        assert(t[i] == s[a + i]);
    }
}

/// The lines of a text with no other breaks than `\n`, joined, are the text, but for a
/// `\n` at its end.
#[verifier::rlimit(40)]
#[verifier::spinoff_prover]
proof fn lemma_plain_lines(s: Seq<char>)
    requires
        plain(s),
        s.len() > 0,
    ensures
        splitlines::split_lines(s).len() > 0,
        bare(splitlines::split_lines(s)),
        s == joined(splitlines::split_lines(s)) || s == joined(splitlines::split_lines(s))
            + seq!['\n'],
    decreases s.len(),
{
    let lines = splitlines::split_lines(s);
    assert forall|i: int, j: int|
        0 <= i < lines.len() && 0 <= j < lines[i].len() implies #[trigger] lines[i][j] != '\n' by {
        splitlines::law_lines_hold_no_break(s, i, j);
    }
    splitlines::lemma_first_break(s);
    let k = splitlines::first_break(s) as int;
    if k < s.len() {
        assert(s[k] == '\n');
        let rest = s.skip(k + 1);
        assert(lines == seq![s.take(k)] + splitlines::split_lines(rest));
        if rest.len() == 0 {
            assert(lines =~= seq![s.take(k)]);
            assert(s =~= s.take(k) + seq!['\n']);
        } else {
            lemma_plain_part(s, k + 1, s.len() as int);
            assert(s.subrange(k + 1, s.len() as int) =~= rest);
            lemma_plain_lines(rest);
            text::lemma_join_front(lines, seq!['\n']);
            assert(lines.drop_first() =~= splitlines::split_lines(rest));
            assert(s =~= s.take(k) + seq!['\n'] + rest);
            assert(s.take(k) + seq!['\n'] + (joined(splitlines::split_lines(rest)) + seq!['\n'])
                =~= joined(lines) + seq!['\n']);
        }
    }
}

proof fn lemma_lines_prefix(s: Seq<char>)
    requires
        plain(s),
        s.len() > 0,
    ensures
        joined(splitlines::split_lines(s)).len() <= s.len(),
        s.take(joined(splitlines::split_lines(s)).len() as int) == joined(
            splitlines::split_lines(s),
        ),
{
    lemma_plain_lines(s);
    let all = joined(splitlines::split_lines(s));
    assert(s.take(all.len() as int) =~= all);
}

/// The character at `x`, which is no `\n`, is in one of the lines.
#[verifier::rlimit(40)]
#[verifier::spinoff_prover]
proof fn lemma_line_of(lines: Seq<Seq<char>>, x: int) -> (l: int)
    requires
        lines.len() > 0,
        0 <= x < joined(lines).len(),
        joined(lines)[x] != '\n',
    ensures
        0 <= l < lines.len(),
        start(lines, l) <= x < start(lines, l) + lines[l].len(),
        lines[l][x - start(lines, l)] == joined(lines)[x],
    decreases lines.len(),
{
    let n = lines.len() as int;
    if n == 1 {
        assert(lines.take(0).len() == 0);
        assert(joined(lines) == lines[0]);
        0
    } else {
        let t = lines.drop_last();
        assert(joined(lines) == joined(t) + seq!['\n'] + lines.last());
        assert(lines.take(n - 1) =~= t);
        if x < joined(t).len() {
            assert(joined(lines)[x] == joined(t)[x]);
            let l = lemma_line_of(t, x);
            assert(t.take(l) =~= lines.take(l));
            l
        } else {
            assert(x != joined(t).len());
            n - 1
        }
    }
}

// ---------------------------------------------------------------------------
// Windows
// ---------------------------------------------------------------------------

#[verifier::rlimit(40)]
#[verifier::spinoff_prover]
proof fn lemma_window_stands(s: Seq<char>, k: int) -> (p: int)
    requires
        plain(s),
        0 <= k < chunk::windows(s).len(),
    ensures
        stands_on(s, chunk::windows(s)[k].1, chunk::windows(s)[k].0, p),
        p == start(splitlines::split_lines(s), chunk::windows(s)[k].0 - 1),
{
    let lines = splitlines::split_lines(s);
    chunk::law_windows_in_order(s);
    let w = chunk::windows(s)[k];
    assert(chunk::proper_window(lines, w));
    if s.len() == 0 {
        assert(lines.len() == 0);
    }
    lemma_plain_lines(s);
    lemma_lines_prefix(s);
    let i = w.0 - 1;
    let end = if i + 120 <= lines.len() {
        i + 120
    } else {
        lines.len() as int
    };
    lemma_lines_stand(s, lines, i, end);
    assert((i + 1) as nat == w.0);
    start(lines, i)
}

/// Every character of a text that is not blank is in one of its windows.
#[verifier::rlimit(40)]
#[verifier::spinoff_prover]
proof fn lemma_windows_cover(s: Seq<char>, x: int) -> (r: (int, int))
    requires
        plain(s),
        0 <= x < s.len(),
        !splitlines::blank_char(s[x]),
    ensures
        0 <= r.0 < chunk::windows(s).len(),
        stands_on(s, chunk::windows(s)[r.0].1, chunk::windows(s)[r.0].0, r.1),
        r.1 <= x < r.1 + chunk::windows(s)[r.0].1.len(),
{
    let lines = splitlines::split_lines(s);
    lemma_plain_lines(s);
    lemma_lines_prefix(s);
    let all = joined(lines);
    assert(s[x] != '\n');
    if x >= all.len() {
        assert(s == all + seq!['\n']);
        assert(s[all.len() as int] == '\n');
    }
    assert(s.take(all.len() as int)[x] == s[x]);
    let l = lemma_line_of(lines, x);
    assert(!splitlines::blank(lines[l])) by {
        assert(!splitlines::blank_char(lines[l][x - start(lines, l)]));
    }
    chunk::law_windows_cover_lines(s, l);
    let k = choose|k: int|
        0 <= k < chunk::windows(s).len() && chunk::reaches(#[trigger] chunk::windows(s)[k], l);
    let p = lemma_window_holds_line(s, k, l);
    (k, p)
}

/// A window that reaches a line holds it.
#[verifier::rlimit(40)]
#[verifier::spinoff_prover]
proof fn lemma_window_holds_line(s: Seq<char>, k: int, l: int) -> (p: int)
    requires
        plain(s),
        0 <= k < chunk::windows(s).len(),
        0 <= l < splitlines::split_lines(s).len(),
        chunk::reaches(chunk::windows(s)[k], l),
    ensures
        stands_on(s, chunk::windows(s)[k].1, chunk::windows(s)[k].0, p),
        p <= start(splitlines::split_lines(s), l),
        start(splitlines::split_lines(s), l) + splitlines::split_lines(s)[l].len() <= p
            + chunk::windows(s)[k].1.len(),
{
    let lines = splitlines::split_lines(s);
    let w = chunk::windows(s)[k];
    assert(chunk::proper_window(lines, w)) by {
        chunk::law_windows_in_order(s);
    }
    if s.len() == 0 {
        assert(lines.len() == 0);
    }
    lemma_plain_lines(s);
    lemma_lines_prefix(s);
    let i = w.0 - 1;
    let end = if i + 120 <= lines.len() {
        i + 120
    } else {
        lines.len() as int
    };
    let p = lemma_window_stands(s, k);
    lemma_lines_stand(s, lines, i, end);
    lemma_lines_stand(s, lines, l, l + 1);
    assert(lines.subrange(l, l + 1) =~= seq![lines[l]]);
    assert(joined(seq![lines[l]]) == lines[l]);
    if l > i {
        lemma_lines_stand(s, lines, i, l);
    }
    if l + 1 < end {
        lemma_lines_stand(s, lines, l + 1, end);
    }
    p
}

// ---------------------------------------------------------------------------
// Gaps between nodes
// ---------------------------------------------------------------------------

proof fn lemma_pieces_bare(s: Seq<char>)
    ensures
        bare(splitlines::newline_pieces(s)),
        joined(splitlines::newline_pieces(s)) == s,
        splitlines::newline_pieces(s).len() == newlines(s) + 1,
{
    splitlines::law_join_of_pieces(s);
    let pieces = splitlines::newline_pieces(s);
    assert forall|i: int, j: int|
        0 <= i < pieces.len() && 0 <= j < pieces[i].len() implies #[trigger] pieces[i][j]
        != '\n' by {
        splitlines::law_pieces_hold_no_newline(s, i, j);
    }
    lemma_newlines_joined(pieces);
}

#[verifier::rlimit(40)]
#[verifier::spinoff_prover]
proof fn lemma_gap_stands(source: Seq<char>, from: int, to: int)
    requires
        0 <= from < to <= splitlines::newline_pieces(source).len(),
    ensures
        stands_on(
            source,
            joined(splitlines::newline_pieces(source).subrange(from, to)),
            (from + 1) as nat,
            start(splitlines::newline_pieces(source), from),
        ),
{
    lemma_pieces_bare(source);
    let pieces = splitlines::newline_pieces(source);
    assert(source.take(joined(pieces).len() as int) =~= joined(pieces));
    lemma_lines_stand(source, pieces, from, to);
}

/// Whether a chunk is one of the text between nodes, and stands at its line.
pub open spec fn is_preamble(source: Seq<char>, c: ChunkView) -> bool {
    c.2 == "preamble"@ && c.3.len() == 0 && exists|p: int| #[trigger]
        stands_on(source, c.1, c.0, p)
}

/// Whether a chunk is one of the node `i`: it has its kind and scope, and stands at its
/// line, which is one of the node's, within the node.
pub open spec fn is_of_node(
    source: Seq<char>,
    containers: Seq<Seq<char>>,
    nodes: Seq<NodeView>,
    i: int,
    c: ChunkView,
) -> bool {
    &&& c.2 == nodes[i].kind
    &&& c.3 == chunk::scope(source, containers, nodes, i)
    &&& nodes[i].start_row + 1 <= c.0 <= nodes[i].end_row + 1
    &&& exists|a: int, b: int, p: int|
        #![trigger node_at(source, nodes[i], a, b), stands_on(source, c.1, c.0, p)]
        node_at(source, nodes[i], a, b) && stands_on(source, c.1, c.0, p) && a <= p && p
            + c.1.len() <= b
}

#[verifier::rlimit(40)]
#[verifier::spinoff_prover]
proof fn lemma_gap_chunks(source: Seq<char>, from: int, to: int, k: int)
    requires
        plain(source),
        0 <= from < to <= splitlines::newline_pieces(source).len(),
        0 <= k < chunk::gap_chunks(splitlines::newline_pieces(source), from, to).len(),
    ensures
        is_preamble(
            source,
            chunk::gap_chunks(splitlines::newline_pieces(source), from, to)[k],
        ),
{
    let pieces = splitlines::newline_pieces(source);
    let gap = joined(pieces.subrange(from, to));
    let a = start(pieces, from);
    lemma_gap_stands(source, from, to);
    lemma_plain_part(source, a, a + gap.len());
    let p = lemma_window_stands(gap, k);
    let w = chunk::windows(gap)[k];
    lemma_stands_within(source, gap, (from + 1) as nat, a, w.1, w.0, p);
    let c = chunk::gap_chunks(pieces, from, to)[k];
    assert(stands_on(source, c.1, c.0, a + p));
}

/// Every character in the rows of a gap that is not blank is in one of its chunks.
#[verifier::rlimit(40)]
#[verifier::spinoff_prover]
proof fn lemma_gap_covers(source: Seq<char>, from: int, to: int, q: int) -> (r: (int, int))
    requires
        plain(source),
        0 <= from < to <= splitlines::newline_pieces(source).len(),
        0 <= q < source.len(),
        !splitlines::blank_char(source[q]),
        from <= newlines(source.take(q)) < to,
    ensures
        ({
            let all = chunk::gap_chunks(splitlines::newline_pieces(source), from, to);
            &&& 0 <= r.0 < all.len()
            &&& stands_on(source, all[r.0].1, all[r.0].0, r.1)
            &&& r.1 <= q < r.1 + all[r.0].1.len()
            &&& all[r.0].2 == "preamble"@
            &&& all[r.0].3.len() == 0
        }),
{
    let pieces = splitlines::newline_pieces(source);
    let gap = joined(pieces.subrange(from, to));
    let a = start(pieces, from);
    lemma_pieces_bare(source);
    lemma_gap_stands(source, from, to);
    lemma_plain_part(source, a, a + gap.len());
    assert(source[q] != '\n');
    let l = lemma_line_of(pieces, q);
    // The row of the character is the place of its piece.
    assert(source.take(joined(pieces).len() as int) =~= joined(pieces));
    lemma_lines_stand(source, pieces, l, l + 1);
    lemma_lines_stand(source, pieces, from, to);
    assert(pieces.subrange(l, l + 1) =~= seq![pieces[l]]);
    assert(joined(seq![pieces[l]]) == pieces[l]);
    let at = start(pieces, l);
    assert(newlines(source.take(q)) == l) by {
        lemma_newlines_concat(source.take(at), source.subrange(at, q));
        assert(source.take(at) + source.subrange(at, q) =~= source.take(q));
        assert forall|j: int| 0 <= j < source.subrange(at, q).len() implies #[trigger]
        source.subrange(at, q)[j] != '\n' by {
            assert(source.subrange(at, at + pieces[l].len())[j] == pieces[l][j]);
            assert(pieces[l][j] != '\n');
        }
        lemma_no_newlines(source.subrange(at, q));
    }
    if l > from {
        lemma_lines_stand(source, pieces, from, l);
    }
    if l + 1 < to {
        lemma_lines_stand(source, pieces, l + 1, to);
    }
    assert(a <= q < a + gap.len());
    assert(gap[q - a] == source[q]) by {
        assert(source.subrange(a, a + gap.len())[q - a] == source[q]);
    }
    let (k, p) = lemma_windows_cover(gap, q - a);
    assert(!splitlines::blank(gap)) by {
        assert(!splitlines::blank_char(gap[q - a]));
    }
    let w = chunk::windows(gap)[k];
    lemma_stands_within(source, gap, (from + 1) as nat, a, w.1, w.0, p);
    (k, a + p)
}

// ---------------------------------------------------------------------------
// Nodes
// ---------------------------------------------------------------------------

#[verifier::rlimit(40)]
#[verifier::spinoff_prover]
proof fn lemma_own_chunks(
    source: Seq<char>,
    containers: Seq<Seq<char>>,
    nodes: Seq<NodeView>,
    i: int,
    k: int,
)
    requires
        plain(source),
        placed(source, nodes[i]),
        0 <= k < chunk::own_chunks(
            source,
            nodes[i],
            chunk::scope(source, containers, nodes, i),
        ).len(),
    ensures
        is_of_node(
            source,
            containers,
            nodes,
            i,
            chunk::own_chunks(source, nodes[i], chunk::scope(source, containers, nodes, i))[k],
        ),
{
    let node = nodes[i];
    let (a, b) = choose|a: int, b: int| #[trigger] node_at(source, node, a, b);
    let body = source.subrange(a, b);
    let c = chunk::own_chunks(source, node, chunk::scope(source, containers, nodes, i))[k];
    assert(source.subrange(a, a + body.len()) =~= body);
    assert(stands_on(source, body, node.start_row + 1, a));
    let p = if splitlines::split_lines(body).len() > 200 {
        lemma_plain_part(source, a, b);
        let p = lemma_window_stands(body, k);
        let w = chunk::windows(body)[k];
        lemma_stands_within(source, body, node.start_row + 1, a, w.1, w.0, p);
        a + p
    } else {
        a
    };
    assert(stands_on(source, c.1, c.0, p));
    lemma_newlines_grow(source, a, p);
    lemma_newlines_grow(source, p, b);
    assert(node_at(source, node, a, b));
}

/// Every character of a node that is not blank is in one of its chunks.
#[verifier::rlimit(40)]
#[verifier::spinoff_prover]
proof fn lemma_own_covers(
    source: Seq<char>,
    node: NodeView,
    scope: Seq<char>,
    a: int,
    b: int,
    q: int,
) -> (r: (int, int))
    requires
        plain(source),
        node_at(source, node, a, b),
        a <= q < b,
        !splitlines::blank_char(source[q]),
    ensures
        0 <= r.0 < chunk::own_chunks(source, node, scope).len(),
        stands_on(
            source,
            chunk::own_chunks(source, node, scope)[r.0].1,
            chunk::own_chunks(source, node, scope)[r.0].0,
            r.1,
        ),
        a <= r.1 <= q < r.1 + chunk::own_chunks(source, node, scope)[r.0].1.len() <= b,
{
    let body = source.subrange(a, b);
    assert(source.subrange(a, a + body.len()) =~= body);
    assert(stands_on(source, body, node.start_row + 1, a));
    if splitlines::split_lines(body).len() > 200 {
        lemma_plain_part(source, a, b);
        assert(body[q - a] == source[q]);
        let (k, p) = lemma_windows_cover(body, q - a);
        let w = chunk::windows(body)[k];
        lemma_stands_within(source, body, node.start_row + 1, a, w.1, w.0, p);
        (k, a + p)
    } else {
        (0, a)
    }
}

// ---------------------------------------------------------------------------
// Files
// ---------------------------------------------------------------------------

#[verifier::rlimit(40)]
#[verifier::spinoff_prover]
proof fn lemma_chunks_stand(
    source: Seq<char>,
    containers: Seq<Seq<char>>,
    nodes: Seq<NodeView>,
    order: Seq<int>,
    k: int,
    cursor: int,
    m: int,
)
    requires
        plain(source),
        0 <= k <= order.len(),
        0 <= cursor,
        forall|j: int| 0 <= j < order.len() ==> placed(source, nodes[#[trigger] order[j]]),
        0 <= m < chunk::chunks_from(source, containers, nodes, order, k, cursor).len(),
    ensures
        ({
            let c = chunk::chunks_from(source, containers, nodes, order, k, cursor)[m];
            ||| is_preamble(source, c)
            ||| exists|j: int|
                0 <= j < order.len() && is_of_node(
                    source,
                    containers,
                    nodes,
                    #[trigger] order[j],
                    c,
                )
        }),
    decreases order.len() - k,
{
    let lines = splitlines::newline_pieces(source);
    let all = chunk::chunks_from(source, containers, nodes, order, k, cursor);
    if k == order.len() {
        lemma_gap_chunks(source, cursor, lines.len() as int, m);
    } else {
        let i = order[k];
        let node = nodes[i];
        assert(placed(source, node));
        let (a, b) = choose|a: int, b: int| #[trigger] node_at(source, node, a, b);
        lemma_newlines_grow(source, a, source.len() as int);
        assert(source.take(source.len() as int) =~= source);
        lemma_pieces_bare(source);
        let before = if cursor < node.start_row {
            chunk::gap_chunks(lines, cursor, node.start_row as int)
        } else {
            Seq::empty()
        };
        let own = chunk::own_chunks(source, node, chunk::scope(source, containers, nodes, i));
        let next = chunk::next_row(node, cursor);
        let rest = chunk::chunks_from(source, containers, nodes, order, k + 1, next);
        assert(all =~= before + own + rest);
        if m < before.len() {
            lemma_gap_chunks(source, cursor, node.start_row as int, m);
        } else if m < before.len() + own.len() {
            lemma_own_chunks(source, containers, nodes, i, m - before.len());
            assert(all[m] == own[m - before.len()]);
            assert(is_of_node(source, containers, nodes, order[k], all[m]));
        } else {
            lemma_chunks_stand(
                source,
                containers,
                nodes,
                order,
                k + 1,
                next,
                m - before.len() - own.len(),
            );
            assert(all[m] == rest[m - before.len() - own.len()]);
        }
    }
}

/// A chunk's line is the line of the file at which its text stands: every chunk of a
/// syntax tree is part of a semantic node, with its kind and scope and a line between
/// the node's first and last, or of the text between them, and its text stands in the
/// file from somewhere in that line on. The file has no other line breaks than `\n`.
#[verifier::rlimit(40)]
#[verifier::spinoff_prover]
pub proof fn law_tree_chunks_stand_at_their_lines(
    source: Seq<char>,
    lang: Seq<char>,
    nodes: Seq<NodeView>,
    m: int,
)
    requires
        plain(source),
        forall|i: int| #[trigger]
            chunk::semantic(nodes, config::semantic_kinds(lang), i) ==> placed(source, nodes[i]),
        0 <= m < chunk::tree_chunks(source, lang, nodes).len(),
    ensures
        is_preamble(source, chunk::tree_chunks(source, lang, nodes)[m]) || exists|i: int|
            #[trigger] chunk::semantic(nodes, config::semantic_kinds(lang), i) && is_of_node(
                source,
                config::scope_kinds(lang),
                nodes,
                i,
                chunk::tree_chunks(source, lang, nodes)[m],
            ),
{
    let kinds = config::semantic_kinds(lang);
    let containers = config::scope_kinds(lang);
    let found = chunk::semantic_below(nodes, kinds, nodes.len() as int);
    let order = chunk::sort_by_start(nodes, found);
    chunk::lemma_order_is_semantic(nodes, kinds);
    assert forall|j: int| 0 <= j < order.len() implies placed(source, nodes[#[trigger] order[j]]) by {
        assert(chunk::semantic(nodes, kinds, order[j]));
    }
    lemma_chunks_stand(source, containers, nodes, order, 0, 0, m);
    let c = chunk::tree_chunks(source, lang, nodes)[m];
    if !is_preamble(source, c) {
        let j = choose|j: int|
            0 <= j < order.len() && is_of_node(source, containers, nodes, #[trigger] order[j], c);
        assert(chunk::semantic(nodes, kinds, order[j]));
    }
}

/// No part of a semantic node is lost: each of its characters that is not blank is in a
/// chunk of the node's kind and scope that lies within the node and stands at its line.
#[verifier::rlimit(40)]
#[verifier::spinoff_prover]
pub proof fn law_nodes_are_covered(
    source: Seq<char>,
    lang: Seq<char>,
    nodes: Seq<NodeView>,
    i: int,
    a: int,
    b: int,
    q: int,
)
    requires
        plain(source),
        chunk::semantic(nodes, config::semantic_kinds(lang), i),
        node_at(source, nodes[i], a, b),
        a <= q < b,
        !splitlines::blank_char(source[q]),
    ensures
        exists|m: int, p: int| #![trigger
            stands_on(
                source,
                chunk::tree_chunks(source, lang, nodes)[m].1,
                chunk::tree_chunks(source, lang, nodes)[m].0,
                p,
            )]
            {
                let all = chunk::tree_chunks(source, lang, nodes);
                &&& 0 <= m < all.len()
                &&& all[m].2 == nodes[i].kind
                &&& all[m].3 == chunk::scope(source, config::scope_kinds(lang), nodes, i)
                &&& stands_on(source, all[m].1, all[m].0, p)
                &&& a <= p <= q < p + all[m].1.len() <= b
            },
{
    let scope = chunk::scope(source, config::scope_kinds(lang), nodes, i);
    let own = chunk::own_chunks(source, nodes[i], scope);
    let all = chunk::tree_chunks(source, lang, nodes);
    let (k, p) = lemma_own_covers(source, nodes[i], scope, a, b, q);
    chunk::law_nodes_are_chunked(source, lang, nodes, i);
    let at = choose|at: int| #[trigger] chunk::stands_at(own, all, at);
    assert(all.subrange(at, at + own.len())[k] == all[at + k]);
    assert(stands_on(source, all[at + k].1, all[at + k].0, p));
}

/// The last row that a node takes: one that ends at the start of a row does not take it.
pub open spec fn last_row(node: NodeView) -> int {
    if node.end_column == 0 && node.end_row > node.start_row {
        node.end_row - 1
    } else {
        node.end_row as int
    }
}

#[verifier::rlimit(40)]
#[verifier::spinoff_prover]
proof fn lemma_between_covered(
    source: Seq<char>,
    containers: Seq<Seq<char>>,
    nodes: Seq<NodeView>,
    order: Seq<int>,
    k: int,
    cursor: int,
    q: int,
) -> (r: (int, int))
    requires
        plain(source),
        0 <= k <= order.len(),
        0 <= q < source.len(),
        !splitlines::blank_char(source[q]),
        0 <= cursor <= newlines(source.take(q)),
        forall|j: int| 0 <= j < order.len() ==> placed(source, nodes[#[trigger] order[j]]),
        forall|j: int|
            0 <= j < order.len() ==> newlines(source.take(q)) < nodes[#[trigger] order[j]].start_row
                || newlines(source.take(q)) > last_row(nodes[order[j]]),
    ensures
        ({
            let all = chunk::chunks_from(source, containers, nodes, order, k, cursor);
            &&& 0 <= r.0 < all.len()
            &&& stands_on(source, all[r.0].1, all[r.0].0, r.1)
            &&& r.1 <= q < r.1 + all[r.0].1.len()
            &&& all[r.0].2 == "preamble"@
            &&& all[r.0].3.len() == 0
        }),
    decreases order.len() - k,
{
    let lines = splitlines::newline_pieces(source);
    let all = chunk::chunks_from(source, containers, nodes, order, k, cursor);
    let row = newlines(source.take(q));
    lemma_pieces_bare(source);
    lemma_newlines_grow(source, q, source.len() as int);
    assert(source.take(source.len() as int) =~= source);
    if k == order.len() {
        lemma_gap_covers(source, cursor, lines.len() as int, q)
    } else {
        let node = nodes[order[k]];
        assert(placed(source, node));
        let (a, b) = choose|a: int, b: int| #[trigger] node_at(source, node, a, b);
        lemma_newlines_grow(source, a, source.len() as int);
        let before = if cursor < node.start_row {
            chunk::gap_chunks(lines, cursor, node.start_row as int)
        } else {
            Seq::empty()
        };
        let own = chunk::own_chunks(
            source,
            node,
            chunk::scope(source, containers, nodes, order[k]),
        );
        let next = chunk::next_row(node, cursor);
        let rest = chunk::chunks_from(source, containers, nodes, order, k + 1, next);
        assert(all =~= before + own + rest);
        if row < node.start_row {
            let r = lemma_gap_covers(source, cursor, node.start_row as int, q);
            assert(all[r.0] == before[r.0]);
            r
        } else {
            assert(row > last_row(node));
            let r = lemma_between_covered(source, containers, nodes, order, k + 1, next, q);
            let d = before.len() + own.len();
            assert(all[d + r.0] == rest[r.0]);
            (d + r.0, r.1)
        }
    }
}

/// Nothing between the semantic nodes is lost: each character that is not blank, in a row
/// that no semantic node takes, is in a chunk of the kind `preamble` without a scope,
/// which stands at its line.
#[verifier::rlimit(40)]
#[verifier::spinoff_prover]
pub proof fn law_text_between_nodes_is_covered(
    source: Seq<char>,
    lang: Seq<char>,
    nodes: Seq<NodeView>,
    q: int,
)
    requires
        plain(source),
        chunk::tree_chunks(source, lang, nodes).len() > 0,
        0 <= q < source.len(),
        !splitlines::blank_char(source[q]),
        forall|i: int| #[trigger]
            chunk::semantic(nodes, config::semantic_kinds(lang), i) ==> placed(source, nodes[i])
                && (newlines(source.take(q)) < nodes[i].start_row || newlines(source.take(q))
                > last_row(nodes[i])),
    ensures
        exists|m: int, p: int| #![trigger
            stands_on(
                source,
                chunk::tree_chunks(source, lang, nodes)[m].1,
                chunk::tree_chunks(source, lang, nodes)[m].0,
                p,
            )]
            {
                let all = chunk::tree_chunks(source, lang, nodes);
                &&& 0 <= m < all.len()
                &&& all[m].2 == "preamble"@
                &&& all[m].3.len() == 0
                &&& stands_on(source, all[m].1, all[m].0, p)
                &&& p <= q < p + all[m].1.len()
            },
{
    let kinds = config::semantic_kinds(lang);
    let found = chunk::semantic_below(nodes, kinds, nodes.len() as int);
    let order = chunk::sort_by_start(nodes, found);
    chunk::lemma_order_is_semantic(nodes, kinds);
    assert forall|j: int| 0 <= j < order.len() implies placed(source, nodes[#[trigger] order[j]])
        && (newlines(source.take(q)) < nodes[order[j]].start_row || newlines(source.take(q))
        > last_row(nodes[order[j]])) by {
        assert(chunk::semantic(nodes, kinds, order[j]));
    }
    let (m, p) = lemma_between_covered(source, config::scope_kinds(lang), nodes, order, 0, 0, q);
    let all = chunk::tree_chunks(source, lang, nodes);
    assert(stands_on(source, all[m].1, all[m].0, p));
}

/// The windows of a file stand at their lines, are of the kind `window` and without a
/// scope, and none of its characters that are not blank is lost. The file has no other
/// line breaks than `\n`.
#[verifier::rlimit(40)]
#[verifier::spinoff_prover]
pub proof fn law_window_chunks_stand_and_cover(source: Seq<char>, m: int, q: int)
    requires
        plain(source),
    ensures
        0 <= m < chunk::window_chunks(source).len() ==> {
            let c = chunk::window_chunks(source)[m];
            &&& c.2 == "window"@
            &&& c.3.len() == 0
            &&& exists|p: int| #[trigger] stands_on(source, c.1, c.0, p)
        },
        0 <= q < source.len() && !splitlines::blank_char(source[q]) ==> exists|k: int, p: int|
            #![trigger stands_on(
                source,
                chunk::window_chunks(source)[k].1,
                chunk::window_chunks(source)[k].0,
                p,
            )]
            0 <= k < chunk::window_chunks(source).len() && stands_on(
                source,
                chunk::window_chunks(source)[k].1,
                chunk::window_chunks(source)[k].0,
                p,
            ) && p <= q < p + chunk::window_chunks(source)[k].1.len(),
{
    let all = chunk::window_chunks(source);
    if 0 <= m < all.len() {
        let p = lemma_window_stands(source, m);
        assert(stands_on(source, all[m].1, all[m].0, p));
    }
    if 0 <= q < source.len() && !splitlines::blank_char(source[q]) {
        let (k, p) = lemma_windows_cover(source, q);
        assert(stands_on(source, all[k].1, all[k].0, p));
    }
}

// ---------------------------------------------------------------------------
// What is cut, and where
// ---------------------------------------------------------------------------

proof fn lemma_filter_map_concat<A, B>(a: Seq<A>, b: Seq<A>, f: spec_fn(A) -> Option<B>)
    ensures
        (a + b).filter_map(f) == a.filter_map(f) + b.filter_map(f),
    decreases b.len(),
{
    if b.len() == 0 {
        assert(a + b =~= a);
        assert(a.filter_map(f) + b.filter_map(f) =~= a.filter_map(f));
    } else {
        lemma_filter_map_concat(a, b.drop_last(), f);
        assert((a + b).drop_last() =~= a + b.drop_last());
        assert((a + b).last() == b.last());
        assert((a + b).filter_map(f) =~= a.filter_map(f) + b.filter_map(f));
    }
}

/// Whether `s` holds nothing but blank characters.
pub open spec fn all_blank(s: Seq<char>) -> bool {
    forall|k: int| 0 <= k < s.len() ==> splitlines::blank_char(#[trigger] s[k])
}

/// The window that starts at the line `i`: 120 lines, or as many as there are, unless it
/// is blank.
pub open spec fn window_at(lines: Seq<Seq<char>>, i: int) -> Option<(nat, Seq<char>)> {
    let end = if i + 120 < lines.len() {
        i + 120
    } else {
        lines.len() as int
    };
    let body = text::join(lines.subrange(i, end), seq!['\n']);
    if all_blank(body) {
        None
    } else {
        Some(((i + 1) as nat, body))
    }
}

/// How many windows a text of `n` lines is cut into: one more for every 100 lines, until
/// one reaches the end.
pub open spec fn window_total(n: nat) -> nat {
    if n == 0 {
        0
    } else if n <= 120 {
        1
    } else {
        ((n - 21) / 100 + 1) as nat
    }
}

#[verifier::rlimit(40)]
#[verifier::spinoff_prover]
proof fn lemma_windows_every(lines: Seq<Seq<char>>, j: int)
    requires
        0 <= j < window_total(lines.len()) || (j == 0 && lines.len() == 0),
    ensures
        chunk::windows_from(lines, 100 * j) == Seq::new(
            (window_total(lines.len()) - j) as nat,
            |t: int| 100 * (j + t),
        ).filter_map(|i: int| window_at(lines, i)),
    decreases window_total(lines.len()) - j,
{
    let f = |i: int| window_at(lines, i);
    let n = lines.len() as int;
    let total = window_total(lines.len()) as int;
    let i = 100 * j;
    let starts = Seq::new((total - j) as nat, |t: int| 100 * (j + t));
    if n > 0 {
        assert(i < n);
        assert((i + 120 >= n) == (j == total - 1));
        let body = chunk::window(lines, i);
        let first = if splitlines::blank(body) {
            Seq::empty()
        } else {
            seq![((i + 1) as nat, body)]
        };
        let head = seq![i];
        let end = if i + 120 < n {
            i + 120
        } else {
            n
        };
        assert(body == text::join(lines.subrange(i, end), seq!['\n']));
        assert(f(i) == if splitlines::blank(body) {
            None
        } else {
            Some(((i + 1) as nat, body))
        });
        Seq::lemma_filter_map_singleton(i, f);
        assert(head.filter_map(f) =~= first);
        if j == total - 1 {
            assert(starts =~= head);
        } else {
            lemma_windows_every(lines, j + 1);
            let rest = Seq::new((total - (j + 1)) as nat, |t: int| 100 * (j + 1 + t));
            assert(starts =~= head + rest);
            lemma_filter_map_concat(head, rest, f);
        }
    } else {
        assert(starts.filter_map(f) =~= Seq::empty());
    }
}

/// A text is cut into windows of 120 lines, one every 100 lines until one reaches the
/// end; those that are blank are left out, and the others carry their first line.
pub proof fn law_windows_every_100_lines(s: Seq<char>)
    ensures
        chunk::windows(s) == Seq::new(
            window_total(splitlines::split_lines(s).len()),
            |t: int| 100 * t,
        ).filter_map(|i: int| window_at(splitlines::split_lines(s), i)),
{
    let lines = splitlines::split_lines(s);
    lemma_windows_every(lines, 0);
    assert(Seq::new((window_total(lines.len()) - 0) as nat, |t: int| 100 * (0 + t)) =~= Seq::new(
        window_total(lines.len()),
        |t: int| 100 * t,
    ));
}

/// A semantic node of at most 200 lines is one chunk, its whole text at its first line;
/// a longer one is a chunk for each window of its text, counted from its first line.
#[verifier::rlimit(40)]
#[verifier::spinoff_prover]
pub proof fn law_long_nodes_are_windowed(
    source: Seq<char>,
    lang: Seq<char>,
    nodes: Seq<NodeView>,
    i: int,
    k: int,
)
    requires
        chunk::semantic(nodes, config::semantic_kinds(lang), i),
    ensures
        ({
            let node = nodes[i];
            let body = text_between(source, (node.start_byte, node.end_byte));
            let scope = chunk::scope(source, config::scope_kinds(lang), nodes, i);
            let all = chunk::tree_chunks(source, lang, nodes);
            &&& splitlines::split_lines(body).len() <= 200 ==> all.contains(
                (node.start_row + 1, body, node.kind, scope),
            )
            &&& splitlines::split_lines(body).len() > 200 && 0 <= k < chunk::windows(body).len()
                ==> all.contains(
                (
                    node.start_row + chunk::windows(body)[k].0,
                    chunk::windows(body)[k].1,
                    node.kind,
                    scope,
                ),
            )
        }),
{
    let node = nodes[i];
    let body = text_between(source, (node.start_byte, node.end_byte));
    let scope = chunk::scope(source, config::scope_kinds(lang), nodes, i);
    let own = chunk::own_chunks(source, node, scope);
    let all = chunk::tree_chunks(source, lang, nodes);
    chunk::law_nodes_are_chunked(source, lang, nodes, i);
    let at = choose|at: int| #[trigger] chunk::stands_at(own, all, at);
    if splitlines::split_lines(body).len() <= 200 {
        assert(all.subrange(at, at + own.len())[0] == all[at]);
        assert(own[0] == (node.start_row + 1, body, node.kind, scope));
    } else if 0 <= k < chunk::windows(body).len() {
        assert(all.subrange(at, at + own.len())[k] == all[at + k]);
        assert(own[k] == all[at + k]);
    }
}

/// Whether the node `j` is above the node `i`: everything between them and `i` itself is
/// deeper.
pub open spec fn is_above(nodes: Seq<NodeView>, j: int, i: int) -> bool {
    0 <= j < i && forall|k: int| j < k <= i ==> (#[trigger] nodes[k]).depth > nodes[j].depth
}

/// A node is semantic where it is of one of the kinds, and no node above it is; and there
/// are chunks of a tree where there is a semantic node, and only there.
#[verifier::rlimit(40)]
#[verifier::spinoff_prover]
pub proof fn law_semantic_nodes(
    source: Seq<char>,
    lang: Seq<char>,
    nodes: Seq<NodeView>,
    targets: Seq<Seq<char>>,
    i: int,
)
    ensures
        chunk::semantic(nodes, targets, i) <==> 0 <= i < nodes.len() && targets.contains(
            nodes[i].kind,
        ) && forall|j: int| #[trigger] is_above(nodes, j, i) ==> !targets.contains(nodes[j].kind),
        (forall|j: int| !#[trigger] chunk::semantic(nodes, config::semantic_kinds(lang), j))
            ==> chunk::tree_chunks(source, lang, nodes).len() == 0,
{
    if 0 <= i < nodes.len() {
        assert forall|j: int| syntax::ancestor(nodes, j, i) == #[trigger] is_above(
            nodes,
            j,
            i,
        ) by {}
        if chunk::semantic(nodes, targets, i) {
            assert forall|j: int| #[trigger] is_above(nodes, j, i) implies !targets.contains(
                nodes[j].kind,
            ) by {
                assert(syntax::ancestor(nodes, j, i));
            }
        }
        if targets.contains(nodes[i].kind) && (forall|j: int| #[trigger]
            is_above(nodes, j, i) ==> !targets.contains(nodes[j].kind)) {
            assert forall|j: int| #[trigger] syntax::ancestor(nodes, j, i) implies !targets.contains(
                nodes[j].kind,
            ) by {
                assert(is_above(nodes, j, i));
            }
        }
    }
    let kinds = config::semantic_kinds(lang);
    if forall|j: int| !#[trigger] chunk::semantic(nodes, kinds, j) {
        let found = chunk::semantic_below(nodes, kinds, nodes.len() as int);
        if found.len() > 0 {
            chunk::law_nodes_found_are_outermost(nodes, kinds, found[0], 0);
            assert(found.contains(found[0]));
        }
    }
}

/// The scope of a node is made of the names of the containers above it, outermost first,
/// with dots between them: what stands in the name field, and for an `impl_item` without
/// one in the type field.
pub proof fn law_scope_names_the_containers(
    source: Seq<char>,
    containers: Seq<Seq<char>>,
    nodes: Seq<NodeView>,
    i: int,
)
    requires
        0 <= i < nodes.len(),
    ensures
        chunk::scope(source, containers, nodes, i) == text::join(
            Seq::new(i as nat, |j: int| j).filter_map(
                |j: int|
                    if !is_above(nodes, j, i) || !containers.contains(nodes[j].kind) {
                        None
                    } else if nodes[j].name_field is Some {
                        Some(text_between(source, nodes[j].name_field->0))
                    } else if nodes[j].kind == "impl_item"@ && nodes[j].type_field is Some {
                        Some(text_between(source, nodes[j].type_field->0))
                    } else {
                        None
                    },
            ),
            seq!['.'],
        ),
{
    let f = |j: int|
        if !is_above(nodes, j, i) || !containers.contains(nodes[j].kind) {
            None
        } else if nodes[j].name_field is Some {
            Some(text_between(source, nodes[j].name_field->0))
        } else if nodes[j].kind == "impl_item"@ && nodes[j].type_field is Some {
            Some(text_between(source, nodes[j].type_field->0))
        } else {
            None
        };
    lemma_scope_names(source, containers, nodes, i, i, f);
}

#[verifier::rlimit(40)]
#[verifier::spinoff_prover]
proof fn lemma_scope_names(
    source: Seq<char>,
    containers: Seq<Seq<char>>,
    nodes: Seq<NodeView>,
    i: int,
    n: int,
    f: spec_fn(int) -> Option<Seq<char>>,
)
    requires
        0 <= n <= i < nodes.len(),
        forall|j: int|
            0 <= j < i ==> #[trigger] f(j) == (if is_above(nodes, j, i) {
                chunk::scope_name(source, containers, nodes[j])
            } else {
                None
            }),
    ensures
        chunk::scope_below(source, containers, nodes, i, n) == Seq::new(
            n as nat,
            |j: int| j,
        ).filter_map(f),
    decreases n,
{
    let all = Seq::new(n as nat, |j: int| j);
    if n > 0 {
        lemma_scope_names(source, containers, nodes, i, n - 1, f);
        let prior = Seq::new((n - 1) as nat, |j: int| j);
        assert(all.drop_last() =~= prior);
        let j = n - 1;
        assert(all.last() == j);
        assert(syntax::ancestor(nodes, j, i) == is_above(nodes, j, i));
        assert(f(j) == (if is_above(nodes, j, i) {
            chunk::scope_name(source, containers, nodes[j])
        } else {
            None
        }));
        let head = chunk::scope_below(source, containers, nodes, i, n - 1);
        if f(j) is Some {
            assert(head.push(f(j)->0) =~= head + seq![f(j)->0]);
        }
    } else {
        assert(all.filter_map(f) =~= Seq::<Seq<char>>::empty());
    }
}

/// A file is chunked along its syntax tree where it has a language whose grammar gives a
/// tree with chunks, else into windows.
pub proof fn law_files_without_a_tree_are_windowed(source: Seq<char>, path: Seq<char>)
    ensures
        chunk::lang_of_path(path) is None ==> chunk::file_chunks(source, path)
            == chunk::window_chunks(source),
        chunk::lang_of_path(path) matches Some(lang) ==> {
            let tree = syntax::parsed(grammar::grammar(lang), source);
            if tree is Some && chunk::nodes_fit(source, lang, tree->0) && chunk::tree_chunks(
                source,
                lang,
                tree->0,
            ).len() > 0 {
                chunk::file_chunks(source, path) == chunk::tree_chunks(source, lang, tree->0)
            } else {
                chunk::file_chunks(source, path) == chunk::window_chunks(source)
            }
        },
{
    if chunk::lang_of_path(path) is Some {
        let name = paths::name_of(path)->0;
        let ext = paths::extension_of(name)->0;
        chunk::lemma_lang_known("."@ + text::lowercase(ext));
    }
}

// ---------------------------------------------------------------------------
// What is not cut twice
// ---------------------------------------------------------------------------

/// Whether the rows of the text of `len` characters at `p` are none of the node's.
pub open spec fn apart(source: Seq<char>, node: NodeView, p: int, len: int) -> bool {
    newlines(source.take(p + len)) < node.start_row || newlines(source.take(p)) > last_row(node)
}

#[verifier::rlimit(40)]
#[verifier::spinoff_prover]
proof fn lemma_gap_rows(source: Seq<char>, from: int, to: int, k: int) -> (p: int)
    requires
        plain(source),
        0 <= from < to <= splitlines::newline_pieces(source).len(),
        0 <= k < chunk::gap_chunks(splitlines::newline_pieces(source), from, to).len(),
    ensures
        ({
            let c = chunk::gap_chunks(splitlines::newline_pieces(source), from, to)[k];
            &&& stands_on(source, c.1, c.0, p)
            &&& from <= newlines(source.take(p))
            &&& newlines(source.take(p + c.1.len())) < to
        }),
{
    let pieces = splitlines::newline_pieces(source);
    let part = pieces.subrange(from, to);
    let gap = joined(part);
    let a = start(pieces, from);
    lemma_pieces_bare(source);
    lemma_gap_stands(source, from, to);
    lemma_plain_part(source, a, a + gap.len());
    let p = lemma_window_stands(gap, k);
    let w = chunk::windows(gap)[k];
    lemma_stands_within(source, gap, (from + 1) as nat, a, w.1, w.0, p);
    let c = chunk::gap_chunks(pieces, from, to)[k];
    assert(stands_on(source, c.1, c.0, a + p));
    lemma_newlines_grow(source, a, a + p);
    lemma_newlines_grow(source, a + p + c.1.len(), a + gap.len());
    lemma_newlines_concat(source.take(a), gap);
    assert(source.take(a) + gap =~= source.take(a + gap.len()));
    assert forall|i: int, j: int|
        0 <= i < part.len() && 0 <= j < part[i].len() implies #[trigger] part[i][j] != '\n' by {
        assert(part[i] == pieces[from + i]);
        assert(pieces[from + i][j] != '\n');
    }
    lemma_newlines_joined(part);
    a + p
}

#[verifier::rlimit(60)]
#[verifier::spinoff_prover]
proof fn lemma_rows_apart(
    source: Seq<char>,
    containers: Seq<Seq<char>>,
    nodes: Seq<NodeView>,
    order: Seq<int>,
    k: int,
    cursor: int,
    m: int,
) -> (p: int)
    requires
        plain(source),
        0 <= k <= order.len(),
        0 <= cursor,
        forall|j: int| 0 <= j < order.len() ==> placed(source, nodes[#[trigger] order[j]]),
        forall|j: int| 0 <= j < order.len() ==> nodes[#[trigger] order[j]].kind != "preamble"@,
        forall|i: int, j: int|
            0 <= i <= j < order.len() ==> nodes[#[trigger] order[i]].start_row
                <= nodes[#[trigger] order[j]].start_row,
        forall|j: int| 0 <= j < k ==> last_row(nodes[#[trigger] order[j]]) < cursor,
        0 <= m < chunk::chunks_from(source, containers, nodes, order, k, cursor).len(),
        chunk::chunks_from(source, containers, nodes, order, k, cursor)[m].2 == "preamble"@,
    ensures
        ({
            let c = chunk::chunks_from(source, containers, nodes, order, k, cursor)[m];
            &&& stands_on(source, c.1, c.0, p)
            &&& forall|j: int|
                0 <= j < order.len() ==> apart(source, nodes[#[trigger] order[j]], p, c.1.len() as int)
        }),
    decreases order.len() - k,
{
    let lines = splitlines::newline_pieces(source);
    let all = chunk::chunks_from(source, containers, nodes, order, k, cursor);
    if k == order.len() {
        lemma_gap_rows(source, cursor, lines.len() as int, m)
    } else {
        let i = order[k];
        let node = nodes[i];
        assert(placed(source, node));
        let (a, b) = choose|a: int, b: int| #[trigger] node_at(source, node, a, b);
        lemma_newlines_grow(source, a, source.len() as int);
        assert(source.take(source.len() as int) =~= source);
        lemma_pieces_bare(source);
        let before = if cursor < node.start_row {
            chunk::gap_chunks(lines, cursor, node.start_row as int)
        } else {
            Seq::empty()
        };
        let scope = chunk::scope(source, containers, nodes, i);
        let own = chunk::own_chunks(source, node, scope);
        let next = chunk::next_row(node, cursor);
        let rest = chunk::chunks_from(source, containers, nodes, order, k + 1, next);
        assert(all =~= before + own + rest);
        if m < before.len() {
            let p = lemma_gap_rows(source, cursor, node.start_row as int, m);
            assert forall|j: int| 0 <= j < order.len() implies apart(
                source,
                nodes[#[trigger] order[j]],
                p,
                all[m].1.len() as int,
            ) by {
                if j >= k {
                    assert(nodes[order[k]].start_row <= nodes[order[j]].start_row);
                }
            }
            p
        } else if m < before.len() + own.len() {
            assert(all[m] == own[m - before.len()]);
            assert(own[m - before.len()].2 == node.kind);
            assert(nodes[order[k]].kind != "preamble"@);
            0
        } else {
            let x = m - before.len() - own.len();
            assert(all[m] == rest[x]);
            assert forall|j: int| 0 <= j < k + 1 implies last_row(nodes[#[trigger] order[j]])
                < next by {}
            lemma_rows_apart(source, containers, nodes, order, k + 1, next, x)
        }
    }
}

/// The chunks between the nodes hold no row that a semantic node takes. The nodes are
/// those of the text, so that one that starts later starts in no earlier row.
#[verifier::rlimit(40)]
#[verifier::spinoff_prover]
pub proof fn law_text_between_nodes_is_apart(
    source: Seq<char>,
    lang: Seq<char>,
    nodes: Seq<NodeView>,
    m: int,
) -> (p: int)
    requires
        plain(source),
        forall|i: int| #[trigger]
            chunk::semantic(nodes, config::semantic_kinds(lang), i) ==> placed(source, nodes[i])
                && nodes[i].kind != "preamble"@,
        forall|i: int, j: int|
            #![trigger nodes[i], nodes[j]]
            0 <= i < nodes.len() && 0 <= j < nodes.len() && nodes[i].start_byte
                <= nodes[j].start_byte ==> nodes[i].start_row <= nodes[j].start_row,
        0 <= m < chunk::tree_chunks(source, lang, nodes).len(),
        chunk::tree_chunks(source, lang, nodes)[m].2 == "preamble"@,
    ensures
        ({
            let c = chunk::tree_chunks(source, lang, nodes)[m];
            &&& stands_on(source, c.1, c.0, p)
            &&& forall|i: int| #[trigger]
                chunk::semantic(nodes, config::semantic_kinds(lang), i) ==> apart(
                    source,
                    nodes[i],
                    p,
                    c.1.len() as int,
                )
        }),
{
    let kinds = config::semantic_kinds(lang);
    let containers = config::scope_kinds(lang);
    let found = chunk::semantic_below(nodes, kinds, nodes.len() as int);
    let order = chunk::sort_by_start(nodes, found);
    chunk::lemma_order_is_semantic(nodes, kinds);
    chunk::law_nodes_sorted(nodes, found);
    assert forall|j: int| 0 <= j < order.len() implies placed(source, nodes[#[trigger] order[j]])
        && nodes[order[j]].kind != "preamble"@ by {
        assert(chunk::semantic(nodes, kinds, order[j]));
    }
    assert forall|i: int, j: int| 0 <= i <= j < order.len() implies nodes[#[trigger] order[i]].start_row
        <= nodes[#[trigger] order[j]].start_row by {
        assert(chunk::semantic(nodes, kinds, order[i]));
        assert(chunk::semantic(nodes, kinds, order[j]));
        assert(nodes[order[i]].start_byte <= nodes[order[j]].start_byte);
    }
    let p = lemma_rows_apart(source, containers, nodes, order, 0, 0, m);
    let c = chunk::tree_chunks(source, lang, nodes)[m];
    assert forall|i: int| #[trigger] chunk::semantic(nodes, kinds, i) implies apart(
        source,
        nodes[i],
        p,
        c.1.len() as int,
    ) by {
        chunk::lemma_semantic_in_order(nodes, kinds, i);
        let j = choose|j: int| 0 <= j < order.len() && order[j] == i;
        assert(order[j] == i);
    }
    p
}

/// A node of at most 200 lines is one chunk and a longer one a chunk for each of its
/// windows, and nothing more.
pub proof fn law_chunks_of_a_node(source: Seq<char>, node: NodeView, scope: Seq<char>)
    ensures
        ({
            let body = text_between(source, (node.start_byte, node.end_byte));
            let ws = chunk::windows(body);
            &&& splitlines::split_lines(body).len() <= 200 ==> chunk::own_chunks(source, node, scope)
                == seq![(node.start_row + 1, body, node.kind, scope)]
            &&& splitlines::split_lines(body).len() > 200 ==> chunk::own_chunks(source, node, scope)
                == ws.map_values(|w: (nat, Seq<char>)| (node.start_row + w.0, w.1, node.kind, scope))
        }),
{
    let body = text_between(source, (node.start_byte, node.end_byte));
    let ws = chunk::windows(body);
    if splitlines::split_lines(body).len() > 200 {
        assert(chunk::own_chunks(source, node, scope) =~= ws.map_values(
            |w: (nat, Seq<char>)| (node.start_row + w.0, w.1, node.kind, scope),
        ));
    }
}

/// The chunks of the nodes come in the order in which the nodes start, those of each node
/// once and together.
pub proof fn law_nodes_in_turn(source: Seq<char>, lang: Seq<char>, nodes: Seq<NodeView>)
    requires
        forall|i: int| #[trigger]
            chunk::semantic(nodes, config::semantic_kinds(lang), i) ==> nodes[i].kind
                != "preamble"@,
    ensures
        chunk::tree_chunks(source, lang, nodes).filter(|c: ChunkView| c.2 != "preamble"@)
            == chunk::sort_by_start(
            nodes,
            chunk::semantic_below(nodes, config::semantic_kinds(lang), nodes.len() as int),
        ).map_values(
            |i: int|
                chunk::own_chunks(
                    source,
                    nodes[i],
                    chunk::scope(source, config::scope_kinds(lang), nodes, i),
                ),
        ).flatten(),
{
    let kinds = config::semantic_kinds(lang);
    let containers = config::scope_kinds(lang);
    let found = chunk::semantic_below(nodes, kinds, nodes.len() as int);
    let order = chunk::sort_by_start(nodes, found);
    let own = |i: int|
        chunk::own_chunks(source, nodes[i], chunk::scope(source, containers, nodes, i));
    let of_node = |c: ChunkView| c.2 != "preamble"@;
    chunk::lemma_order_is_semantic(nodes, kinds);
    assert forall|j: int| 0 <= j < order.len() implies nodes[#[trigger] order[j]].kind
        != "preamble"@ by {
        assert(chunk::semantic(nodes, kinds, order[j]));
    }
    assert(order.skip(0) =~= order);
    if found.len() == 0 {
        chunk::law_nodes_sorted(nodes, found);
        assert(order.len() == 0) by {
            if order.len() > 0 {
                assert(chunk::semantic(nodes, kinds, order[0]));
                chunk::lemma_semantic_in_order(nodes, kinds, order[0]);
            }
        }
        assert(order.map_values(own).flatten() =~= Seq::<ChunkView>::empty());
        assert(Seq::<ChunkView>::empty().filter(of_node) =~= Seq::<ChunkView>::empty()) by {
            reveal(Seq::filter);
        }
    } else {
        lemma_nodes_in_turn(source, containers, nodes, order, 0, 0, own);
    }
}

#[verifier::rlimit(40)]
#[verifier::spinoff_prover]
proof fn lemma_nodes_in_turn(
    source: Seq<char>,
    containers: Seq<Seq<char>>,
    nodes: Seq<NodeView>,
    order: Seq<int>,
    k: int,
    cursor: int,
    own: spec_fn(int) -> Seq<ChunkView>,
)
    requires
        0 <= k <= order.len(),
        forall|j: int| 0 <= j < order.len() ==> nodes[#[trigger] order[j]].kind != "preamble"@,
        forall|i: int| #[trigger]
            own(i) == chunk::own_chunks(source, nodes[i], chunk::scope(source, containers, nodes, i)),
    ensures
        chunk::chunks_from(source, containers, nodes, order, k, cursor).filter(
            |c: ChunkView| c.2 != "preamble"@,
        ) == order.skip(k).map_values(own).flatten(),
    decreases order.len() - k,
{
    let lines = splitlines::newline_pieces(source);
    let of_node = |c: ChunkView| c.2 != "preamble"@;
    let all = chunk::chunks_from(source, containers, nodes, order, k, cursor);
    let none = Seq::<ChunkView>::empty();
    assert(none.filter(of_node) =~= none) by {
        reveal(Seq::filter);
    }
    if k == order.len() {
        lemma_filter_none(all, of_node);
        assert(order.skip(k).map_values(own).flatten() =~= none);
    } else {
        let i = order[k];
        let node = nodes[i];
        let before = if cursor < node.start_row {
            chunk::gap_chunks(lines, cursor, node.start_row as int)
        } else {
            none
        };
        let mine = chunk::own_chunks(source, node, chunk::scope(source, containers, nodes, i));
        let next = chunk::next_row(node, cursor);
        let rest = chunk::chunks_from(source, containers, nodes, order, k + 1, next);
        assert(all =~= before + mine + rest);
        lemma_filter_none(before, of_node);
        assert(nodes[order[k]].kind != "preamble"@);
        lemma_filter_all(mine, of_node);
        Seq::filter_distributes_over_add(before, mine, of_node);
        Seq::filter_distributes_over_add(before + mine, rest, of_node);
        lemma_nodes_in_turn(source, containers, nodes, order, k + 1, next, own);
        let left = order.skip(k).map_values(own);
        assert(left.drop_first() =~= order.skip(k + 1).map_values(own));
        assert(left.first() == mine);
        assert(all.filter(of_node) =~= mine + rest.filter(of_node));
    }
}

proof fn lemma_filter_none<A>(s: Seq<A>, f: spec_fn(A) -> bool)
    requires
        forall|i: int| 0 <= i < s.len() ==> !f(#[trigger] s[i]),
    ensures
        s.filter(f) == Seq::<A>::empty(),
    decreases s.len(),
{
    reveal(Seq::filter);
    if s.len() > 0 {
        assert(!f(s[s.len() - 1]));
        lemma_filter_none(s.drop_last(), f);
    }
}

proof fn lemma_filter_all<A>(s: Seq<A>, f: spec_fn(A) -> bool)
    requires
        forall|i: int| 0 <= i < s.len() ==> f(#[trigger] s[i]),
    ensures
        s.filter(f) == s,
    decreases s.len(),
{
    reveal(Seq::filter);
    if s.len() > 0 {
        assert(f(s[s.len() - 1]));
        lemma_filter_all(s.drop_last(), f);
        assert(s.drop_last().push(s.last()) =~= s);
    }
}

/// The rows between nodes are cut into windows, which are chunks of the kind `preamble`
/// without a scope, with their lines counted from the first row; blank rows give none.
pub proof fn law_chunks_between_nodes(lines: Seq<Seq<char>>, from: int, to: int)
    requires
        0 <= from < to <= lines.len(),
    ensures
        ({
            let gap = text::join(lines.subrange(from, to), seq!['\n']);
            let ws = chunk::windows(gap);
            &&& !splitlines::blank(gap) ==> chunk::gap_chunks(lines, from, to) == ws.map_values(
                |w: (nat, Seq<char>)|
                    ((from + w.0) as nat, w.1, "preamble"@, Seq::<char>::empty()),
            )
            &&& splitlines::blank(gap) ==> chunk::gap_chunks(lines, from, to).len() == 0
        }),
{
    let gap = text::join(lines.subrange(from, to), seq!['\n']);
    if !splitlines::blank(gap) {
        assert(chunk::gap_chunks(lines, from, to) =~= chunk::windows(gap).map_values(
            |w: (nat, Seq<char>)| ((from + w.0) as nat, w.1, "preamble"@, Seq::<char>::empty()),
        ));
    }
}

/// A file that is not cut along a tree is a chunk of the kind `window`, without a scope,
/// for each of its windows, in order.
pub proof fn law_chunks_of_windows(source: Seq<char>)
    ensures
        chunk::window_chunks(source) == chunk::windows(source).map_values(
            |w: (nat, Seq<char>)| (w.0, w.1, "window"@, Seq::<char>::empty()),
        ),
{
    assert(chunk::window_chunks(source) =~= chunk::windows(source).map_values(
        |w: (nat, Seq<char>)| (w.0, w.1, "window"@, Seq::<char>::empty()),
    ));
}

} // verus!
