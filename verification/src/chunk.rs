//! Cutting a file into chunks.
use vstd::prelude::*;
use vstd::utf8::*;

use crate::config::{CHUNK_LINES, MAX_SEMANTIC_LINES, OVERLAP};
use crate::grammar::UsedGrammars;
use crate::syntax::{NodeView, SyntaxNode};
use crate::{config, grammar, paths, splitlines, syntax, text};

verus! {

/// A chunk: its 1-based line, its text, its kind and its scope.
pub type Chunk = (usize, String, String, String);

/// A chunk, as mathematical values.
pub type ChunkView = (nat, Seq<char>, Seq<char>, Seq<char>);

pub open spec fn chunk_view(c: Chunk) -> ChunkView {
    (c.0 as nat, c.1@, c.2@, c.3@)
}

/// The views of a list of chunks.
pub open spec fn chunk_views(v: Seq<Chunk>) -> Seq<ChunkView> {
    Seq::new(v.len(), |i: int| chunk_view(v[i]))
}

// ---------------------------------------------------------------------------
// Line windows
// ---------------------------------------------------------------------------

/// The lines `i..i + CHUNK_LINES` of `lines`, as far as there are any, joined.
pub open spec fn window(lines: Seq<Seq<char>>, i: int) -> Seq<char> {
    let end = if i + CHUNK_LINES <= lines.len() {
        i + CHUNK_LINES
    } else {
        lines.len() as int
    };
    text::join(lines.subrange(i, end), seq!['\n'])
}

/// The windows of `lines` from the line `i` on, each with its 1-based first line.
/// A window starts every `CHUNK_LINES - OVERLAP` lines until one reaches the last
/// line; those that are blank are left out.
pub open spec fn windows_from(lines: Seq<Seq<char>>, i: int) -> Seq<(nat, Seq<char>)>
    decreases lines.len() - i,
{
    if i < 0 || i >= lines.len() {
        Seq::empty()
    } else {
        let body = window(lines, i);
        let first = if splitlines::blank(body) {
            Seq::empty()
        } else {
            seq![((i + 1) as nat, body)]
        };
        if i + CHUNK_LINES >= lines.len() {
            first
        } else {
            first + windows_from(lines, i + (CHUNK_LINES - OVERLAP))
        }
    }
}

/// The line windows of a text.
pub open spec fn windows(s: Seq<char>) -> Seq<(nat, Seq<char>)> {
    windows_from(splitlines::split_lines(s), 0)
}

/// The views of a list of windows.
pub open spec fn window_views(v: Seq<(usize, String)>) -> Seq<(nat, Seq<char>)> {
    Seq::new(v.len(), |i: int| (v[i].0 as nat, v[i].1@))
}

/// Overlapping windows of lines, each with its 1-based first line. Blank windows
/// are left out.
pub fn line_window(s: &str) -> (r: Vec<(usize, String)>)
    ensures
        window_views(r@) == windows(s@),
{
    let lines = splitlines::py_splitlines(s);
    let ghost all = splitlines::split_lines(s@);
    let len: usize = lines.len();
    let step: usize = CHUNK_LINES - OVERLAP;
    let mut r: Vec<(usize, String)> = Vec::new();
    let mut i: usize = 0;
    proof {
        reveal_strlit("\n");
        assert("\n"@ == seq!['\n']);
        assert(text::slices(lines@).len() == len);
        assert(window_views(r@) + windows_from(all, 0) =~= windows_from(all, 0));
    }
    while i < len
        invariant_except_break
            i <= len,
            window_views(r@) + windows_from(all, i as int) == windows(s@),
        invariant
            all == splitlines::split_lines(s@),
            text::slices(lines@) == all,
            len == all.len(),
            len == lines@.len(),
            step == 100,
            "\n"@ == seq!['\n'],
        ensures
            window_views(r@) == windows(s@),
        decreases len - i,
    {
        let last = len - i <= CHUNK_LINES;
        let end: usize = if last {
            len
        } else {
            i + CHUNK_LINES
        };
        let body = text::join_slices(&lines, i, end, "\n");
        let ghost before = r@;
        proof {
            assert(body@ == window(all, i as int));
        }
        if !splitlines::is_py_blank(body.as_str()) {
            r.push((i + 1, body));
            proof {
                assert(window_views(r@) =~= window_views(before) + seq![((i + 1) as nat, body@)]);
            }
        } else {
            proof {
                assert(window_views(r@) =~= window_views(before) + Seq::<(nat, Seq<char>)>::empty());
            }
        }
        if last {
            break;
        }
        proof {
            let first = if splitlines::blank(body@) {
                Seq::empty()
            } else {
                seq![((i + 1) as nat, body@)]
            };
            let rest = windows_from(all, i + 100);
            assert(window_views(before) + (first + rest) =~= window_views(before) + first + rest);
        }
        i = i + step;
    }
    proof {
        if len == 0 {
            assert(windows_from(all, 0) =~= Seq::<(nat, Seq<char>)>::empty());
        }
    }
    r
}

// ---------------------------------------------------------------------------
// Semantic nodes
// ---------------------------------------------------------------------------

/// Whether the node `i` is semantic: of one of the kinds `targets`, and below no
/// node of these kinds.
pub open spec fn semantic(nodes: Seq<NodeView>, targets: Seq<Seq<char>>, i: int) -> bool {
    &&& 0 <= i < nodes.len()
    &&& targets.contains(nodes[i].kind)
    &&& forall|j: int| #[trigger]
        syntax::ancestor(nodes, j, i) ==> !targets.contains(nodes[j].kind)
}

/// The semantic nodes before position `n`, in order.
pub open spec fn semantic_below(nodes: Seq<NodeView>, targets: Seq<Seq<char>>, n: int) -> Seq<int>
    decreases n,
{
    if n <= 0 {
        Seq::empty()
    } else if semantic(nodes, targets, n - 1) {
        semantic_below(nodes, targets, n - 1).push(n - 1)
    } else {
        semantic_below(nodes, targets, n - 1)
    }
}

/// Positions as mathematical integers.
pub open spec fn positions(v: Seq<usize>) -> Seq<int> {
    Seq::new(v.len(), |i: int| v[i] as int)
}

/// None of the nodes `from..to` is semantic.
proof fn lemma_semantic_gap(nodes: Seq<NodeView>, targets: Seq<Seq<char>>, from: int, to: int)
    requires
        0 <= from <= to,
        forall|i: int| from <= i < to ==> !#[trigger] semantic(nodes, targets, i),
    ensures
        semantic_below(nodes, targets, to) == semantic_below(nodes, targets, from),
    decreases to - from,
{
    if from < to {
        lemma_semantic_gap(nodes, targets, from, to - 1);
        assert(!semantic(nodes, targets, to - 1));
    }
}

/// The positions of the semantic nodes, in order: a node of one of the kinds
/// `targets` is taken and nothing below it is looked at.
pub fn collect_semantic(nodes: &Vec<SyntaxNode>, targets: &[&str]) -> (r: Vec<usize>)
    ensures
        positions(r@) == semantic_below(
            syntax::node_views(nodes@),
            text::slices(targets@),
            nodes@.len() as int,
        ),
        forall|k: int| 0 <= k < r@.len() ==> (#[trigger] r@[k]) < nodes@.len(),
{
    let ghost all = syntax::node_views(nodes@);
    let ghost kinds = text::slices(targets@);
    let mut r: Vec<usize> = Vec::new();
    let mut i: usize = 0;
    while i < nodes.len()
        invariant
            all == syntax::node_views(nodes@),
            kinds == text::slices(targets@),
            i <= nodes@.len(),
            positions(r@) == semantic_below(all, kinds, i as int),
            forall|j: int| #[trigger]
                syntax::ancestor(all, j, i as int) ==> !kinds.contains(all[j].kind),
            forall|k: int| 0 <= k < r@.len() ==> (#[trigger] r@[k]) < nodes@.len(),
        decreases nodes@.len() - i,
    {
        proof {
            text::lemma_listed(targets@, nodes@[i as int].kind@);
            assert(all[i as int] == nodes@[i as int]@);
        }
        if text::contains_text(targets, nodes[i].kind.as_str()) {
            let ghost before = r@;
            r.push(i);
            proof {
                assert(semantic(all, kinds, i as int));
                assert(positions(r@) =~= positions(before).push(i as int));
            }
            let mut j: usize = i + 1;
            while j < nodes.len() && nodes[j].depth > nodes[i].depth
                invariant
                    all == syntax::node_views(nodes@),
                    i < j <= nodes@.len(),
                    forall|k: int| i < k < j ==> all[i as int].depth < #[trigger] all[k].depth,
                decreases nodes@.len() - j,
            {
                assert(all[j as int] == nodes@[j as int]@);
                j = j + 1;
            }
            proof {
                assert forall|k: int| i < k < j implies !#[trigger] semantic(all, kinds, k) by {
                    assert(syntax::ancestor(all, i as int, k));
                }
                lemma_semantic_gap(all, kinds, i + 1, j as int);
                assert forall|m: int| #[trigger]
                    syntax::ancestor(all, m, j as int) implies !kinds.contains(all[m].kind) by {
                    assert(all[j as int] == nodes@[j as int]@);
                    assert(all[i as int] == nodes@[i as int]@);
                    assert(all[m].depth < all[j as int].depth);
                    if m >= i {
                        assert(m == i || all[i as int].depth < all[m].depth);
                    } else {
                        assert(syntax::ancestor(all, m, i as int));
                    }
                }
            }
            i = j;
        } else {
            proof {
                assert(!semantic(all, kinds, i as int));
                assert forall|m: int| #[trigger]
                    syntax::ancestor(all, m, i + 1) implies !kinds.contains(all[m].kind) by {
                    if m < i {
                        assert(syntax::ancestor(all, m, i as int));
                    }
                }
            }
            i = i + 1;
        }
    }
    r
}

// ---------------------------------------------------------------------------
// Scope
// ---------------------------------------------------------------------------

/// The text of a byte range of `source`.
pub open spec fn bytes_text(source: Seq<char>, range: (nat, nat)) -> Seq<char> {
    text::utf8_lossy(encode_utf8(source).subrange(range.0 as int, range.1 as int))
}

/// What a node adds to the scope of the nodes below it: the text of its name, or
/// of its type for an `impl_item` without a name, where it is of one of the kinds
/// `containers`.
pub open spec fn scope_name(source: Seq<char>, containers: Seq<Seq<char>>, node: NodeView) -> Option<
    Seq<char>,
> {
    if !containers.contains(node.kind) {
        None
    } else {
        match node.name_field {
            Some(r) => Some(bytes_text(source, r)),
            None => match node.type_field {
                Some(r) => if node.kind == "impl_item"@ {
                    Some(bytes_text(source, r))
                } else {
                    None
                },
                None => None,
            },
        }
    }
}

/// The names that the ancestors of the node `i` before position `n` add to its
/// scope, outermost first.
pub open spec fn scope_below(
    source: Seq<char>,
    containers: Seq<Seq<char>>,
    nodes: Seq<NodeView>,
    i: int,
    n: int,
) -> Seq<Seq<char>>
    decreases n,
{
    if n <= 0 {
        Seq::empty()
    } else {
        let outer = scope_below(source, containers, nodes, i, n - 1);
        match scope_name(source, containers, nodes[n - 1]) {
            Some(name) => if syntax::ancestor(nodes, n - 1, i) {
                outer.push(name)
            } else {
                outer
            },
            None => outer,
        }
    }
}

/// The scope of the node `i`: the names of its ancestors, outermost first, joined
/// by dots.
pub open spec fn scope(
    source: Seq<char>,
    containers: Seq<Seq<char>>,
    nodes: Seq<NodeView>,
    i: int,
) -> Seq<char> {
    text::join(scope_below(source, containers, nodes, i, i), seq!['.'])
}

proof fn lemma_scope_gap(
    source: Seq<char>,
    containers: Seq<Seq<char>>,
    nodes: Seq<NodeView>,
    i: int,
    from: int,
    to: int,
)
    requires
        0 <= from <= to,
        forall|j: int| from <= j < to ==> !#[trigger] syntax::ancestor(nodes, j, i),
    ensures
        scope_below(source, containers, nodes, i, to) == scope_below(
            source,
            containers,
            nodes,
            i,
            from,
        ),
    decreases to - from,
{
    if from < to {
        lemma_scope_gap(source, containers, nodes, i, from, to - 1);
        assert(!syntax::ancestor(nodes, to - 1, i));
    }
}

/// Whether a byte range lies within `len` bytes.
pub open spec fn range_fits(r: Option<(nat, nat)>, len: nat) -> bool {
    match r {
        Some((a, b)) => a <= b <= len,
        None => true,
    }
}

/// Whether the byte ranges of a node lie within a text of `len` bytes, and its rows
/// within one of `rows` rows.
pub open spec fn node_fits(node: NodeView, len: nat, rows: nat) -> bool {
    &&& node.start_byte <= node.end_byte <= len
    &&& range_fits(node.name_field, len)
    &&& range_fits(node.type_field, len)
    &&& node.start_row <= rows
    &&& node.start_row < usize::MAX
    &&& node.end_row < usize::MAX
}

/// The text of the bytes `from..to` of `source`.
fn node_text(source: &str, from: usize, to: usize) -> (r: String)
    requires
        from <= to <= encode_utf8(source@).len(),
    ensures
        r@ == bytes_text(source@, (from as nat, to as nat)),
{
    let bytes = source.as_bytes();
    text::utf8_lossy_text(vstd::slice::slice_subrange(bytes, from, to))
}

fn scope_name_text(source: &str, containers: &[&str], node: &SyntaxNode) -> (r: Option<String>)
    requires
        range_fits(node@.name_field, encode_utf8(source@).len()),
        range_fits(node@.type_field, encode_utf8(source@).len()),
    ensures
        paths::opt_text(r) == scope_name(source@, text::slices(containers@), node@),
{
    proof {
        text::lemma_listed(containers@, node.kind@);
    }
    if !text::contains_text(containers, node.kind.as_str()) {
        return None;
    }
    match node.name_field {
        Some((a, b)) => Some(node_text(source, a, b)),
        None => match node.type_field {
            Some((a, b)) => if text::str_eq(node.kind.as_str(), "impl_item") {
                Some(node_text(source, a, b))
            } else {
                None
            },
            None => None,
        },
    }
}

/// The scope of the node `i`: the names of its ancestors, outermost first, joined
/// by dots.
pub fn get_scope(
    source: &str,
    containers: &[&str],
    nodes: &Vec<SyntaxNode>,
    parents: &Vec<Option<usize>>,
    i: usize,
) -> (r: String)
    requires
        i < nodes@.len(),
        parents@.len() == nodes@.len(),
        forall|k: int|
            0 <= k < nodes@.len() ==> syntax::parent(
                syntax::node_views(nodes@),
                k,
                #[trigger] parents@[k],
            ),
        forall|k: int|
            0 <= k < nodes@.len() ==> range_fits(
                (#[trigger] nodes@[k])@.name_field,
                encode_utf8(source@).len(),
            ) && range_fits(nodes@[k]@.type_field, encode_utf8(source@).len()),
    ensures
        r@ == scope(source@, text::slices(containers@), syntax::node_views(nodes@), i as int),
{
    let ghost all = syntax::node_views(nodes@);
    let ghost kinds = text::slices(containers@);
    let mut parts: Vec<String> = Vec::new();
    let mut next: Option<usize> = parents[i];
    // The last node climbed to.
    let ghost mut low = i as int;
    proof {
        assert(scope_below(source@, kinds, all, i as int, i as int) + text::texts(parts@)
            =~= scope_below(source@, kinds, all, i as int, i as int));
    }
    loop
        invariant_except_break
            0 <= low <= i,
            low == i || syntax::ancestor(all, low, i as int),
            syntax::parent(all, low, next),
            scope_below(source@, kinds, all, i as int, low) + text::texts(parts@) == scope_below(
                source@,
                kinds,
                all,
                i as int,
                i as int,
            ),
        invariant
            all == syntax::node_views(nodes@),
            kinds == text::slices(containers@),
            i < nodes@.len(),
            parents@.len() == nodes@.len(),
            forall|k: int|
                0 <= k < nodes@.len() ==> syntax::parent(all, k, #[trigger] parents@[k]),
            forall|k: int|
                0 <= k < nodes@.len() ==> range_fits(
                    (#[trigger] nodes@[k])@.name_field,
                    encode_utf8(source@).len(),
                ) && range_fits(nodes@[k]@.type_field, encode_utf8(source@).len()),
        ensures
            text::texts(parts@) == scope_below(source@, kinds, all, i as int, i as int),
        decreases low,
    {
        match next {
            None => {
                proof {
                    assert forall|j: int| 0 <= j < low implies !#[trigger] syntax::ancestor(
                        all,
                        j,
                        i as int,
                    ) by {
                        assert(all[low].depth <= all[j].depth);
                    }
                    lemma_scope_gap(source@, kinds, all, i as int, 0, low);
                    assert(scope_below(source@, kinds, all, i as int, 0) + text::texts(parts@)
                        =~= text::texts(parts@));
                }
                break;
            },
            Some(p) => {
                proof {
                    assert forall|j: int| p < j < low implies !#[trigger] syntax::ancestor(
                        all,
                        j,
                        i as int,
                    ) by {
                        assert(all[low].depth <= all[j].depth);
                    }
                    lemma_scope_gap(source@, kinds, all, i as int, p + 1, low);
                    assert(syntax::ancestor(all, p as int, i as int)) by {
                        assert forall|k: int| p < k <= i implies all[p as int].depth
                            < #[trigger] all[k].depth by {
                            if k < low {
                                assert(all[low].depth <= all[k].depth);
                            } else if k > low {
                                assert(all[low].depth < all[k].depth);
                            }
                        }
                    }
                    assert(all[p as int] == nodes@[p as int]@);
                }
                let ghost before = parts@;
                match scope_name_text(source, containers, &nodes[p]) {
                    Some(name) => {
                        parts.insert(0, name);
                        proof {
                            let outer = scope_below(source@, kinds, all, i as int, p as int);
                            assert(text::texts(parts@) =~= seq![name@] + text::texts(before));
                            assert(outer + text::texts(parts@) =~= outer.push(name@) + text::texts(
                                before,
                            ));
                        }
                    },
                    None => {},
                }
                proof {
                    low = p as int;
                }
                next = parents[p];
            },
        }
    }
    proof {
        reveal_strlit(".");
        assert("."@ == seq!['.']);
    }
    text::join_texts(&parts, ".")
}

// ---------------------------------------------------------------------------
// Order
// ---------------------------------------------------------------------------

/// `list`, ordered by first byte, with `x` added behind those that do not start
/// after it.
pub open spec fn insert_by_start(nodes: Seq<NodeView>, list: Seq<int>, x: int) -> Seq<int>
    decreases list.len(),
{
    if list.len() == 0 || nodes[list.last()].start_byte <= nodes[x].start_byte {
        list.push(x)
    } else {
        insert_by_start(nodes, list.drop_last(), x).push(list.last())
    }
}

/// `list` ordered by first byte; nodes that start together keep their order.
pub open spec fn sort_by_start(nodes: Seq<NodeView>, list: Seq<int>) -> Seq<int>
    decreases list.len(),
{
    if list.len() == 0 {
        list
    } else {
        insert_by_start(nodes, sort_by_start(nodes, list.drop_last()), list.last())
    }
}

proof fn lemma_insert_at(nodes: Seq<NodeView>, list: Seq<int>, x: int, p: int)
    requires
        0 <= p <= list.len(),
        p > 0 ==> nodes[list[p - 1]].start_byte <= nodes[x].start_byte,
        forall|k: int| p <= k < list.len() ==> nodes[#[trigger] list[k]].start_byte
            > nodes[x].start_byte,
    ensures
        insert_by_start(nodes, list, x) == list.insert(p, x),
    decreases list.len(),
{
    if p == list.len() {
        assert(list.insert(p, x) =~= list.push(x));
    } else {
        let t = list.drop_last();
        assert(list.last() == list[list.len() - 1]);
        lemma_insert_at(nodes, t, x, p);
        assert(list.insert(p, x) =~= t.insert(p, x).push(list.last()));
    }
}

/// `order` by first byte; nodes that start together keep their order.
pub fn sort_nodes(nodes: &Vec<SyntaxNode>, order: &Vec<usize>) -> (r: Vec<usize>)
    requires
        forall|k: int| 0 <= k < order@.len() ==> (#[trigger] order@[k]) < nodes@.len(),
    ensures
        positions(r@) == sort_by_start(syntax::node_views(nodes@), positions(order@)),
        forall|k: int| 0 <= k < r@.len() ==> (#[trigger] r@[k]) < nodes@.len(),
{
    let ghost all = syntax::node_views(nodes@);
    let ghost list = positions(order@);
    let mut r: Vec<usize> = Vec::new();
    let mut i: usize = 0;
    proof {
        assert(positions(r@) =~= sort_by_start(all, list.take(0)));
    }
    while i < order.len()
        invariant
            all == syntax::node_views(nodes@),
            list == positions(order@),
            i <= order@.len(),
            forall|k: int| 0 <= k < order@.len() ==> (#[trigger] order@[k]) < nodes@.len(),
            forall|k: int| 0 <= k < r@.len() ==> (#[trigger] r@[k]) < nodes@.len(),
            positions(r@) == sort_by_start(all, list.take(i as int)),
        decreases order@.len() - i,
    {
        let x: usize = order[i];
        let start: usize = nodes[x].start_byte;
        let mut p: usize = r.len();
        while p > 0 && nodes[r[p - 1]].start_byte > start
            invariant
                all == syntax::node_views(nodes@),
                p <= r@.len(),
                x < nodes@.len(),
                start == nodes@[x as int].start_byte,
                forall|k: int| 0 <= k < r@.len() ==> (#[trigger] r@[k]) < nodes@.len(),
                forall|k: int| p <= k < r@.len() ==> all[#[trigger] positions(r@)[k]].start_byte
                    > start,
            decreases p,
        {
            proof {
                assert(positions(r@)[p - 1] == r@[p - 1]);
                assert(all[r@[p - 1] as int] == nodes@[r@[p - 1] as int]@);
            }
            p = p - 1;
        }
        proof {
            if p > 0 {
                assert(all[r@[p - 1] as int] == nodes@[r@[p - 1] as int]@);
            }
            assert(all[x as int] == nodes@[x as int]@);
            lemma_insert_at(all, positions(r@), x as int, p as int);
            assert(list.take(i + 1).drop_last() =~= list.take(i as int));
            assert(list.take(i + 1).last() == x);
        }
        let ghost before = r@;
        r.insert(p, x);
        proof {
            assert(positions(r@) =~= positions(before).insert(p as int, x as int));
            assert forall|k: int| 0 <= k < r@.len() implies (#[trigger] r@[k]) < nodes@.len() by {
                if k < p {
                    assert(r@[k] == before[k]);
                } else if k > p {
                    assert(r@[k] == before[k - 1]);
                }
            }
        }
        i = i + 1;
    }
    proof {
        assert(list.take(order@.len() as int) =~= list);
    }
    r
}

// ---------------------------------------------------------------------------
// Semantic chunks
// ---------------------------------------------------------------------------

/// Windows as chunks of a kind and a scope, their lines counted from `base`.
pub open spec fn shifted(
    ws: Seq<(nat, Seq<char>)>,
    base: nat,
    kind: Seq<char>,
    scope: Seq<char>,
) -> Seq<ChunkView> {
    Seq::new(ws.len(), |i: int| (base + ws[i].0, ws[i].1, kind, scope))
}

/// The chunks of the rows `from..to` between two semantic nodes.
pub open spec fn gap_chunks(lines: Seq<Seq<char>>, from: int, to: int) -> Seq<ChunkView> {
    let gap = text::join(lines.subrange(from, to), seq!['\n']);
    if splitlines::blank(gap) {
        Seq::empty()
    } else {
        shifted(windows(gap), from as nat, "preamble"@, Seq::empty())
    }
}

/// The chunks of a semantic node: its text, in windows where it is too long.
pub open spec fn own_chunks(source: Seq<char>, node: NodeView, scope: Seq<char>) -> Seq<ChunkView> {
    let body = bytes_text(source, (node.start_byte, node.end_byte));
    if splitlines::split_lines(body).len() > MAX_SEMANTIC_LINES {
        shifted(windows(body), node.start_row, node.kind, scope)
    } else {
        seq![(node.start_row + 1, body, node.kind, scope)]
    }
}

/// The first row that is not covered once the node has been taken. A node that
/// ends at the start of a row does not occupy that row.
pub open spec fn next_row(node: NodeView, cursor: int) -> int {
    let last = if node.end_column == 0 && node.end_row > node.start_row {
        node.end_row - 1
    } else {
        node.end_row as int
    };
    if cursor > last + 1 {
        cursor
    } else {
        last + 1
    }
}

/// The chunks of the semantic nodes from `order[k]` on and of the rows around
/// them, when the rows before `cursor` are covered.
pub open spec fn chunks_from(
    source: Seq<char>,
    containers: Seq<Seq<char>>,
    nodes: Seq<NodeView>,
    order: Seq<int>,
    k: int,
    cursor: int,
) -> Seq<ChunkView>
    decreases order.len() - k,
{
    let lines = splitlines::newline_pieces(source);
    if k < 0 || k >= order.len() {
        if cursor < lines.len() {
            gap_chunks(lines, cursor, lines.len() as int)
        } else {
            Seq::empty()
        }
    } else {
        let i = order[k];
        let before = if cursor < nodes[i].start_row {
            gap_chunks(lines, cursor, nodes[i].start_row as int)
        } else {
            Seq::empty()
        };
        before + own_chunks(source, nodes[i], scope(source, containers, nodes, i)) + chunks_from(
            source,
            containers,
            nodes,
            order,
            k + 1,
            next_row(nodes[i], cursor),
        )
    }
}

/// The chunks of a text of which a syntax tree is known: the semantic nodes with
/// their scope, and what lies between them. None where there is no such node.
pub open spec fn tree_chunks(source: Seq<char>, lang: Seq<char>, nodes: Seq<NodeView>) -> Seq<
    ChunkView,
> {
    let found = semantic_below(nodes, config::semantic_kinds(lang), nodes.len() as int);
    if found.len() == 0 {
        Seq::empty()
    } else {
        chunks_from(
            source,
            config::scope_kinds(lang),
            nodes,
            sort_by_start(nodes, found),
            0,
            0,
        )
    }
}

/// Whether nodes can be those of a tree of the text: byte ranges and rows lie
/// within it, and the rows of what they cover can be counted.
pub open spec fn nodes_fit(source: Seq<char>, lang: Seq<char>, nodes: Seq<NodeView>) -> bool {
    &&& forall|i: int|
        0 <= i < nodes.len() ==> node_fits(
            #[trigger] nodes[i],
            encode_utf8(source).len(),
            splitlines::newline_pieces(source).len(),
        )
    &&& forall|i: int| #[trigger]
        semantic(nodes, config::semantic_kinds(lang), i) ==> nodes[i].start_row + bytes_text(
            source,
            (nodes[i].start_byte, nodes[i].end_byte),
        ).len() <= usize::MAX
}

proof fn lemma_windows_bound(lines: Seq<Seq<char>>, i: int)
    ensures
        forall|k: int|
            0 <= k < windows_from(lines, i).len() ==> 1 <= (#[trigger] windows_from(lines, i)[k]).0
                <= lines.len(),
    decreases lines.len() - i,
{
    if 0 <= i < lines.len() && i + CHUNK_LINES < lines.len() {
        let next = i + (CHUNK_LINES - OVERLAP);
        lemma_windows_bound(lines, next);
        let all = windows_from(lines, i);
        let rest = windows_from(lines, next);
        let d = all.len() - rest.len();
        assert forall|k: int| 0 <= k < all.len() implies 1 <= (#[trigger] all[k]).0
            <= lines.len() by {
            if k >= d {
                assert(all[k] == rest[k - d]);
            }
        }
    }
}

/// Adds windows as chunks, their lines counted from `base`.
fn push_windows(out: &mut Vec<Chunk>, s: &str, base: usize, kind: &str, scope: &str)
    requires
        base + s@.len() <= usize::MAX,
    ensures
        chunk_views(final(out)@) == chunk_views(old(out)@) + shifted(
            windows(s@),
            base as nat,
            kind@,
            scope@,
        ),
{
    let ws = line_window(s);
    let ghost all = windows(s@);
    let ghost before = out@;
    proof {
        splitlines::lemma_split_len(s@);
        lemma_windows_bound(splitlines::split_lines(s@), 0);
        assert(chunk_views(out@) =~= chunk_views(before) + shifted(
            all.take(0),
            base as nat,
            kind@,
            scope@,
        ));
    }
    let mut i: usize = 0;
    while i < ws.len()
        invariant
            i <= ws@.len(),
            window_views(ws@) == all,
            all == windows(s@),
            base + s@.len() <= usize::MAX,
            splitlines::split_lines(s@).len() <= s@.len(),
            forall|k: int|
                0 <= k < all.len() ==> 1 <= (#[trigger] all[k]).0 <= splitlines::split_lines(
                    s@,
                ).len(),
            chunk_views(out@) == chunk_views(before) + shifted(
                all.take(i as int),
                base as nat,
                kind@,
                scope@,
            ),
        decreases ws@.len() - i,
    {
        let ghost prior = out@;
        proof {
            assert(all[i as int] == (ws@[i as int].0 as nat, ws@[i as int].1@));
        }
        out.push((base + ws[i].0, ws[i].1.clone(), kind.to_string(), scope.to_string()));
        proof {
            let c = ((base + all[i as int].0) as nat, all[i as int].1, kind@, scope@);
            assert(chunk_views(out@) =~= chunk_views(prior).push(c));
            assert(shifted(all.take(i + 1), base as nat, kind@, scope@) =~= shifted(
                all.take(i as int),
                base as nat,
                kind@,
                scope@,
            ).push(c));
        }
        i = i + 1;
    }
    proof {
        assert(all.take(ws@.len() as int) =~= all);
    }
}

/// Adds the chunks of the rows `from..to` between two semantic nodes.
fn push_gap(out: &mut Vec<Chunk>, source: &str, lines: &Vec<&str>, from: usize, to: usize)
    requires
        text::slices(lines@) == splitlines::newline_pieces(source@),
        from <= to <= lines@.len(),
        source@.len() <= usize::MAX,
    ensures
        chunk_views(final(out)@) == chunk_views(old(out)@) + gap_chunks(
            splitlines::newline_pieces(source@),
            from as int,
            to as int,
        ),
{
    proof {
        reveal_strlit("\n");
        assert("\n"@ == seq!['\n']);
        reveal_strlit("");
        assert(""@ =~= Seq::<char>::empty());
    }
    let gap = text::join_slices(lines, from, to, "\n");
    let ghost pieces = splitlines::newline_pieces(source@);
    proof {
        splitlines::lemma_part_len(source@, from as int, to as int);
    }
    if !splitlines::is_py_blank(gap.as_str()) {
        push_windows(out, gap.as_str(), from, "preamble", "");
    } else {
        proof {
            assert(chunk_views(out@) + Seq::<ChunkView>::empty() =~= chunk_views(out@));
        }
    }
}

/// Adds the chunks of a semantic node.
fn push_node(out: &mut Vec<Chunk>, source: &str, node: &SyntaxNode, scope: &str)
    requires
        node.start_byte <= node.end_byte <= encode_utf8(source@).len(),
        node.start_row < usize::MAX,
        node.start_row + bytes_text(
            source@,
            (node.start_byte as nat, node.end_byte as nat),
        ).len() <= usize::MAX,
    ensures
        chunk_views(final(out)@) == chunk_views(old(out)@) + own_chunks(source@, node@, scope@),
{
    let body = node_text(source, node.start_byte, node.end_byte);
    let lines = splitlines::py_splitlines(body.as_str());
    proof {
        assert(text::slices(lines@).len() == lines@.len());
    }
    if lines.len() > MAX_SEMANTIC_LINES {
        push_windows(out, body.as_str(), node.start_row, node.kind.as_str(), scope);
    } else {
        let ghost before = out@;
        out.push((node.start_row + 1, body, node.kind.clone(), scope.to_string()));
        proof {
            assert(chunk_views(out@) =~= chunk_views(before) + own_chunks(source@, node@, scope@));
        }
    }
}

/// The chunks of a text of which a syntax tree is known: the semantic nodes with
/// their scope, and what lies between them.
pub fn chunk_nodes(source: &str, lang: &str, nodes: &Vec<SyntaxNode>) -> (r: Vec<Chunk>)
    requires
        nodes_fit(source@, lang@, syntax::node_views(nodes@)),
    ensures
        chunk_views(r@) == tree_chunks(source@, lang@, syntax::node_views(nodes@)),
{
    let ghost all = syntax::node_views(nodes@);
    let ghost kinds = config::scope_kinds(lang@);
    let ghost targets = config::semantic_kinds(lang@);
    let found = collect_semantic(nodes, config::semantic_types(lang));
    let mut out: Vec<Chunk> = Vec::new();
    proof {
        assert(positions(found@).len() == found@.len());
    }
    if found.len() == 0 {
        proof {
            assert(chunk_views(out@) =~= Seq::<ChunkView>::empty());
        }
        return out;
    }
    let containers = config::scope_types(lang);
    let parents = syntax::parents(nodes);
    let order = sort_nodes(nodes, &found);
    let lines = splitlines::split_newlines(source);
    let ghost list = positions(order@);
    let mut cursor: usize = 0;
    let mut k: usize = 0;
    proof {
        lemma_found_semantic(all, targets, nodes@.len() as int);
        lemma_sorted_members(all, positions(found@));
        text::lemma_encode_len(source@);
        assert(text::slices(lines@).len() == lines@.len());
        assert(chunk_views(out@) + chunks_from(source@, kinds, all, list, 0, 0) =~= chunks_from(
            source@,
            kinds,
            all,
            list,
            0,
            0,
        ));
    }
    let total: usize = source.as_bytes().len();
    while k < order.len()
        invariant
            all == syntax::node_views(nodes@),
            kinds == config::scope_kinds(lang@),
            targets == config::semantic_kinds(lang@),
            text::slices(containers@) == kinds,
            text::slices(lines@) == splitlines::newline_pieces(source@),
            lines@.len() == splitlines::newline_pieces(source@).len(),
            list == positions(order@),
            total == encode_utf8(source@).len(),
            source@.len() <= total,
            nodes_fit(source@, lang@, all),
            parents@.len() == nodes@.len(),
            forall|i: int|
                0 <= i < nodes@.len() ==> syntax::parent(all, i, #[trigger] parents@[i]),
            forall|i: int| 0 <= i < order@.len() ==> (#[trigger] order@[i]) < nodes@.len(),
            forall|i: int| 0 <= i < list.len() ==> semantic(all, targets, #[trigger] list[i]),
            k <= order@.len(),
            chunk_views(out@) + chunks_from(source@, kinds, all, list, k as int, cursor as int)
                == tree_chunks(source@, lang@, all),
        decreases order@.len() - k,
    {
        let i: usize = order[k];
        let node = &nodes[i];
        let ghost before = out@;
        let ghost head = if cursor < node.start_row {
            gap_chunks(
                splitlines::newline_pieces(source@),
                cursor as int,
                node.start_row as int,
            )
        } else {
            Seq::empty()
        };
        proof {
            assert(list[k as int] == i);
            assert(semantic(all, targets, i as int));
            assert(all[i as int] == node@);
            assert(node_fits(
                all[i as int],
                encode_utf8(source@).len(),
                splitlines::newline_pieces(source@).len(),
            ));
            assert forall|j: int| 0 <= j < nodes@.len() implies range_fits(
                (#[trigger] nodes@[j])@.name_field,
                encode_utf8(source@).len(),
            ) && range_fits(nodes@[j]@.type_field, encode_utf8(source@).len()) by {
                assert(all[j] == nodes@[j]@);
            }
        }
        if cursor < node.start_row {
            push_gap(&mut out, source, &lines, cursor, node.start_row);
        }
        proof {
            assert(chunk_views(out@) =~= chunk_views(before) + head);
        }
        let scope_text = get_scope(source, containers, nodes, &parents, i);
        push_node(&mut out, source, node, scope_text.as_str());
        let last: usize = if node.end_column == 0 && node.end_row > node.start_row {
            node.end_row - 1
        } else {
            node.end_row
        };
        proof {
            let own = own_chunks(source@, all[i as int], scope(source@, kinds, all, i as int));
            let rest = chunks_from(
                source@,
                kinds,
                all,
                list,
                k + 1,
                next_row(all[i as int], cursor as int),
            );
            assert(chunk_views(out@) =~= chunk_views(before) + head + own);
            assert(chunk_views(out@) + rest =~= chunk_views(before) + (head + own + rest));
        }
        if cursor < last + 1 {
            cursor = last + 1;
        }
        k = k + 1;
    }
    let ghost before = out@;
    if cursor < lines.len() {
        push_gap(&mut out, source, &lines, cursor, lines.len());
    } else {
        proof {
            assert(chunk_views(out@) + Seq::<ChunkView>::empty() =~= chunk_views(out@));
        }
    }
    out
}

/// The positions found are those of semantic nodes.
proof fn lemma_found_semantic(nodes: Seq<NodeView>, targets: Seq<Seq<char>>, n: int)
    ensures
        forall|k: int|
            0 <= k < semantic_below(nodes, targets, n).len() ==> semantic(
                nodes,
                targets,
                #[trigger] semantic_below(nodes, targets, n)[k],
            ),
    decreases n,
{
    if n > 0 {
        lemma_found_semantic(nodes, targets, n - 1);
        let prior = semantic_below(nodes, targets, n - 1);
        let list = semantic_below(nodes, targets, n);
        assert forall|k: int| 0 <= k < list.len() implies semantic(
            nodes,
            targets,
            #[trigger] list[k],
        ) by {
            if k < prior.len() {
                assert(list[k] == prior[k]);
            }
        }
    }
}

proof fn lemma_inserted_members(nodes: Seq<NodeView>, list: Seq<int>, x: int)
    ensures
        insert_by_start(nodes, list, x).to_multiset() == list.to_multiset().insert(x),
    decreases list.len(),
{
    broadcast use vstd::seq_lib::group_to_multiset_ensures;

    if list.len() == 0 || nodes[list.last()].start_byte <= nodes[x].start_byte {
    } else {
        let t = list.drop_last();
        lemma_inserted_members(nodes, t, x);
        assert(t.push(list.last()) =~= list);
        assert(insert_by_start(nodes, list, x).to_multiset() =~= list.to_multiset().insert(x));
    }
}

/// Ordering keeps every position, and adds none.
proof fn lemma_sorted_multiset(nodes: Seq<NodeView>, list: Seq<int>)
    ensures
        sort_by_start(nodes, list).to_multiset() == list.to_multiset(),
    decreases list.len(),
{
    broadcast use vstd::seq_lib::group_to_multiset_ensures;

    if list.len() > 0 {
        let t = list.drop_last();
        lemma_sorted_multiset(nodes, t);
        lemma_inserted_members(nodes, sort_by_start(nodes, t), list.last());
        assert(t.push(list.last()) =~= list);
    }
}

proof fn lemma_sorted_members(nodes: Seq<NodeView>, list: Seq<int>)
    ensures
        forall|k: int|
            0 <= k < sort_by_start(nodes, list).len() ==> list.contains(
                #[trigger] sort_by_start(nodes, list)[k],
            ),
{
    broadcast use vstd::seq_lib::group_to_multiset_ensures;

    lemma_sorted_multiset(nodes, list);
    let sorted = sort_by_start(nodes, list);
    assert forall|k: int| 0 <= k < sorted.len() implies list.contains(#[trigger] sorted[k]) by {
        assert(sorted.contains(sorted[k]));
        assert(sorted.to_multiset().count(sorted[k]) > 0);
        assert(list.to_multiset().count(sorted[k]) > 0);
    }
}

/// Each semantic node is found.
proof fn lemma_semantic_found(nodes: Seq<NodeView>, targets: Seq<Seq<char>>, n: int, i: int)
    requires
        semantic(nodes, targets, i),
        i < n,
    ensures
        semantic_below(nodes, targets, n).contains(i),
    decreases n,
{
    let list = semantic_below(nodes, targets, n);
    if i == n - 1 {
        assert(list[list.len() - 1] == i);
    } else {
        lemma_semantic_found(nodes, targets, n - 1, i);
        let prior = semantic_below(nodes, targets, n - 1);
        let k = choose|k: int| 0 <= k < prior.len() && prior[k] == i;
        assert(list[k] == i);
    }
}

fn in_range(r: Option<(usize, usize)>, len: usize) -> (b: bool)
    ensures
        b == range_fits(syntax::range_view(r), len as nat),
{
    match r {
        Some((a, b)) => a <= b && b <= len,
        None => true,
    }
}

/// Whether nodes can be those of a tree of the text.
pub fn check_fit(source: &str, lang: &str, nodes: &Vec<SyntaxNode>) -> (r: bool)
    ensures
        r == nodes_fit(source@, lang@, syntax::node_views(nodes@)),
{
    let ghost all = syntax::node_views(nodes@);
    let ghost targets = config::semantic_kinds(lang@);
    let total: usize = source.as_bytes().len();
    let lines = splitlines::split_newlines(source);
    let rows: usize = lines.len();
    proof {
        assert(text::slices(lines@).len() == rows);
    }
    let mut i: usize = 0;
    while i < nodes.len()
        invariant
            all == syntax::node_views(nodes@),
            total == encode_utf8(source@).len(),
            rows == splitlines::newline_pieces(source@).len(),
            i <= nodes@.len(),
            forall|k: int|
                0 <= k < i ==> node_fits(#[trigger] all[k], total as nat, rows as nat),
        decreases nodes@.len() - i,
    {
        let n = &nodes[i];
        proof {
            assert(all[i as int] == n@);
        }
        if !(n.start_byte <= n.end_byte && n.end_byte <= total && in_range(n.name_field, total)
            && in_range(n.type_field, total) && n.start_row <= rows && n.start_row < usize::MAX
            && n.end_row < usize::MAX) {
            assert(!node_fits(all[i as int], total as nat, rows as nat));
            return false;
        }
        i = i + 1;
    }
    let found = collect_semantic(nodes, config::semantic_types(lang));
    let ghost list = positions(found@);
    proof {
        lemma_found_semantic(all, targets, nodes@.len() as int);
    }
    let mut k: usize = 0;
    while k < found.len()
        invariant
            all == syntax::node_views(nodes@),
            targets == config::semantic_kinds(lang@),
            total == encode_utf8(source@).len(),
            rows == splitlines::newline_pieces(source@).len(),
            forall|j: int|
                0 <= j < nodes@.len() ==> node_fits(#[trigger] all[j], total as nat, rows as nat),
            list == positions(found@),
            forall|j: int| 0 <= j < found@.len() ==> (#[trigger] found@[j]) < nodes@.len(),
            forall|j: int| 0 <= j < list.len() ==> semantic(all, targets, #[trigger] list[j]),
            k <= found@.len(),
            forall|j: int|
                0 <= j < k ==> all[#[trigger] list[j]].start_row + bytes_text(
                    source@,
                    (all[list[j]].start_byte, all[list[j]].end_byte),
                ).len() <= usize::MAX,
        decreases found@.len() - k,
    {
        let n = &nodes[found[k]];
        proof {
            assert(list[k as int] == found@[k as int]);
            assert(all[list[k as int]] == n@);
            assert(node_fits(all[list[k as int]], total as nat, rows as nat));
        }
        let body = node_text(source, n.start_byte, n.end_byte);
        let count: usize = text::chars_of(body.as_str()).len();
        if n.start_row > usize::MAX - count {
            assert(semantic(all, targets, list[k as int]));
            return false;
        }
        k = k + 1;
    }
    proof {
        assert forall|j: int| #[trigger] semantic(all, targets, j) implies all[j].start_row
            + bytes_text(source@, (all[j].start_byte, all[j].end_byte)).len() <= usize::MAX by {
            lemma_semantic_found(all, targets, nodes@.len() as int, j);
            let m = choose|m: int| 0 <= m < list.len() && list[m] == j;
            assert(all[list[m]].start_row + bytes_text(
                source@,
                (all[list[m]].start_byte, all[list[m]].end_byte),
            ).len() <= usize::MAX);
        }
    }
    true
}

/// The semantic chunks of a text in a language: those of the tree that the grammar
/// makes of it. None where there is no grammar, no tree, or a tree that cannot be
/// one of the text.
pub open spec fn semantic_chunks(source: Seq<char>, lang: Seq<char>) -> Seq<ChunkView> {
    if !grammar::known(lang) {
        Seq::empty()
    } else {
        match syntax::parsed(grammar::grammar(lang), source) {
            Some(nodes) => if nodes_fit(source, lang, nodes) {
                tree_chunks(source, lang, nodes)
            } else {
                Seq::empty()
            },
            None => Seq::empty(),
        }
    }
}

/// The semantic chunks of a text in a language; none where the text cannot be
/// parsed or holds no semantic node. The grammar is marked as used.
pub fn ts_chunk(source: &str, lang: &str, used: &mut UsedGrammars) -> (r: Vec<Chunk>)
    ensures
        chunk_views(r@) == semantic_chunks(source@, lang@),
        final(used).keys() == if grammar::known(lang@) {
            old(used).keys().insert(lang@)
        } else {
            old(used).keys()
        },
{
    let none: Vec<Chunk> = Vec::new();
    proof {
        assert(chunk_views(none@) =~= Seq::<ChunkView>::empty());
    }
    let language = match grammar::language_for(lang, used) {
        Some(l) => l,
        None => {
            return none;
        },
    };
    match syntax::parse_nodes(&language, source) {
        Some(nodes) => if check_fit(source, lang, &nodes) {
            chunk_nodes(source, lang, &nodes)
        } else {
            none
        },
        None => none,
    }
}

// ---------------------------------------------------------------------------
// Files
// ---------------------------------------------------------------------------

/// The language key of a path: by its extension in lower case, except for Blade
/// templates, which have none.
pub open spec fn lang_of_path(path: Seq<char>) -> Option<Seq<char>> {
    match paths::name_of(path) {
        Some(name) => if text::has_suffix(name, ".blade.php"@) {
            None
        } else {
            match paths::extension_of(name) {
                Some(ext) => config::lang_of_ext("."@ + text::lowercase(ext)),
                None => None,
            }
        },
        None => None,
    }
}

/// The language key of a path, by its extension; Blade templates have none.
pub fn detect_lang(path: &str) -> (r: Option<&'static str>)
    ensures
        config::opt_slice(r) == lang_of_path(path@),
{
    let name = match paths::file_name(path) {
        Some(n) => n,
        None => {
            return None;
        },
    };
    if text::ends_with(name.as_str(), ".blade.php") {
        return None;
    }
    match paths::extension(path) {
        Some(ext) => {
            let lower = text::lowercase_text(ext.as_str());
            let mut key = ".".to_string();
            key.append(lower.as_str());
            config::ext_to_lang(key.as_str())
        },
        None => None,
    }
}

/// The windows of a text, as chunks.
pub open spec fn window_chunks(source: Seq<char>) -> Seq<ChunkView> {
    shifted(windows(source), 0, "window"@, Seq::empty())
}

/// The chunks of a file: the semantic ones where its language gives any, else
/// windows.
pub open spec fn file_chunks(source: Seq<char>, path: Seq<char>) -> Seq<ChunkView> {
    match lang_of_path(path) {
        Some(lang) => if semantic_chunks(source, lang).len() > 0 {
            semantic_chunks(source, lang)
        } else {
            window_chunks(source)
        },
        None => window_chunks(source),
    }
}

/// An extension with a language has a grammar.
pub proof fn lemma_lang_known(ext: Seq<char>)
    ensures
        match config::lang_of_ext(ext) {
            Some(lang) => grammar::known(lang),
            None => true,
        },
{
    assert forall|i: int| 0 <= i < grammar::LANG_KEYS@.len() implies grammar::known(
        (#[trigger] grammar::LANG_KEYS@[i])@,
    ) by {}
    assert(grammar::LANG_KEYS@[0]@ == "bash"@);
    assert(grammar::LANG_KEYS@[1]@ == "c"@);
    assert(grammar::LANG_KEYS@[2]@ == "cpp"@);
    assert(grammar::LANG_KEYS@[3]@ == "csharp"@);
    assert(grammar::LANG_KEYS@[4]@ == "go"@);
    assert(grammar::LANG_KEYS@[5]@ == "java"@);
    assert(grammar::LANG_KEYS@[6]@ == "javascript"@);
    assert(grammar::LANG_KEYS@[7]@ == "php"@);
    assert(grammar::LANG_KEYS@[8]@ == "python"@);
    assert(grammar::LANG_KEYS@[9]@ == "ruby"@);
    assert(grammar::LANG_KEYS@[10]@ == "rust"@);
    assert(grammar::LANG_KEYS@[11]@ == "tsx"@);
    assert(grammar::LANG_KEYS@[12]@ == "typescript"@);
}

/// The chunks of a file. The grammar of its language, if it has one, is marked as
/// used.
pub fn chunk_file(source: &str, path: &str, used: &mut UsedGrammars) -> (r: Vec<Chunk>)
    ensures
        chunk_views(r@) == file_chunks(source@, path@),
        final(used).keys() == match lang_of_path(path@) {
            Some(lang) => old(used).keys().insert(lang),
            None => old(used).keys(),
        },
{
    match detect_lang(path) {
        Some(lang) => {
            proof {
                let name = paths::name_of(path@)->0;
                let ext = paths::extension_of(name)->0;
                lemma_lang_known("."@ + text::lowercase(ext));
            }
            let ts = ts_chunk(source, lang, used);
            proof {
                assert(chunk_views(ts@).len() == ts@.len());
            }
            if ts.len() > 0 {
                return ts;
            }
        },
        None => {},
    }
    let mut r: Vec<Chunk> = Vec::new();
    let total: usize = source.as_bytes().len();
    proof {
        reveal_strlit("");
        assert(""@ =~= Seq::<char>::empty());
        text::lemma_encode_len(source@);
        assert(chunk_views(r@) =~= Seq::<ChunkView>::empty());
    }
    push_windows(&mut r, source, 0, "window", "");
    proof {
        assert(chunk_views(r@) =~= window_chunks(source@));
    }
    r
}

// ---------------------------------------------------------------------------
// Laws
// ---------------------------------------------------------------------------

/// Whether a window is one of the text with the lines `lines`: it is named by its
/// first line, which is the first or follows a whole number of steps, it holds the
/// lines from there on, and it is not blank.
pub open spec fn proper_window(lines: Seq<Seq<char>>, w: (nat, Seq<char>)) -> bool {
    &&& 1 <= w.0 <= lines.len()
    &&& (w.0 - 1) % (CHUNK_LINES - OVERLAP) == 0
    &&& w.1 == window(lines, w.0 - 1)
    &&& !splitlines::blank(w.1)
}

proof fn lemma_windows_shape(lines: Seq<Seq<char>>, i: int)
    requires
        0 <= i,
        i % (CHUNK_LINES - OVERLAP) == 0,
    ensures
        forall|k: int|
            0 <= k < windows_from(lines, i).len() ==> {
                &&& proper_window(lines, #[trigger] windows_from(lines, i)[k])
                &&& windows_from(lines, i)[k].0 > i
            },
        forall|k: int, m: int|
            0 <= k < m < windows_from(lines, i).len() ==> (#[trigger] windows_from(lines, i)[k]).0
                < (#[trigger] windows_from(lines, i)[m]).0,
    decreases lines.len() - i,
{
    let all = windows_from(lines, i);
    if i < lines.len() {
        let body = window(lines, i);
        let first = if splitlines::blank(body) {
            Seq::empty()
        } else {
            seq![((i + 1) as nat, body)]
        };
        if i + CHUNK_LINES < lines.len() {
            let step = CHUNK_LINES - OVERLAP;
            vstd::arithmetic::div_mod::lemma_mod_add_multiples_vanish(i, step);
            assert((i + step) % step == 0);
            lemma_windows_shape(lines, i + step);
            let rest = windows_from(lines, i + step);
            assert(all == first + rest);
            assert forall|k: int| 0 <= k < all.len() implies {
                &&& proper_window(lines, #[trigger] all[k])
                &&& all[k].0 > i
            } by {
                if k >= first.len() {
                    assert(all[k] == rest[k - first.len()]);
                }
            }
            assert forall|k: int, m: int| 0 <= k < m < all.len() implies (#[trigger] all[k]).0 < (
            #[trigger] all[m]).0 by {
                assert(all[m] == rest[m - first.len()]);
                if k >= first.len() {
                    assert(all[k] == rest[k - first.len()]);
                }
            }
        }
    }
}

/// The windows of a text stand in the order of their lines, and each is what its
/// line says.
pub proof fn law_windows_in_order(s: Seq<char>)
    ensures
        forall|k: int|
            0 <= k < windows(s).len() ==> proper_window(
                splitlines::split_lines(s),
                #[trigger] windows(s)[k],
            ),
        forall|k: int, m: int|
            0 <= k < m < windows(s).len() ==> (#[trigger] windows(s)[k]).0 < (#[trigger] windows(
                s,
            )[m]).0,
{
    lemma_windows_shape(splitlines::split_lines(s), 0);
}

/// Whether the window reaches over the line at the position `l`.
pub open spec fn reaches(w: (nat, Seq<char>), l: int) -> bool {
    w.0 - 1 <= l < w.0 - 1 + CHUNK_LINES
}

proof fn lemma_joined_blank(parts: Seq<Seq<char>>, sep: Seq<char>, k: int)
    requires
        0 <= k < parts.len(),
        splitlines::blank(text::join(parts, sep)),
    ensures
        splitlines::blank(parts[k]),
    decreases parts.len(),
{
    if parts.len() > 1 {
        let head = text::join(parts.drop_last(), sep);
        let all = text::join(parts, sep);
        assert(all == head + sep + parts.last());
        if k == parts.len() - 1 {
            let d = head.len() + sep.len();
            assert forall|i: int| 0 <= i < parts[k].len() implies splitlines::blank_char(
                #[trigger] parts[k][i],
            ) by {
                assert(parts[k][i] == all[d + i]);
            }
        } else {
            assert forall|i: int| 0 <= i < head.len() implies splitlines::blank_char(
                #[trigger] head[i],
            ) by {
                assert(head[i] == all[i]);
            }
            lemma_joined_blank(parts.drop_last(), sep, k);
            assert(parts.drop_last()[k] == parts[k]);
        }
    }
}

proof fn lemma_windows_cover(lines: Seq<Seq<char>>, i: int, l: int)
    requires
        0 <= i <= l < lines.len(),
        !splitlines::blank(lines[l]),
    ensures
        exists|k: int|
            0 <= k < windows_from(lines, i).len() && reaches(#[trigger] windows_from(lines, i)[k], l),
    decreases lines.len() - i,
{
    let all = windows_from(lines, i);
    let body = window(lines, i);
    if l < i + CHUNK_LINES {
        let end = if i + CHUNK_LINES <= lines.len() {
            i + CHUNK_LINES
        } else {
            lines.len() as int
        };
        let parts = lines.subrange(i, end);
        assert(parts[l - i] == lines[l]);
        if splitlines::blank(body) {
            lemma_joined_blank(parts, seq!['\n'], l - i);
        }
        assert(all[0] == ((i + 1) as nat, body));
        assert(reaches(all[0], l));
    } else {
        let step = CHUNK_LINES - OVERLAP;
        lemma_windows_cover(lines, i + step, l);
        let rest = windows_from(lines, i + step);
        let k = choose|k: int| 0 <= k < rest.len() && reaches(#[trigger] rest[k], l);
        let d = all.len() - rest.len();
        assert(all[d + k] == rest[k]);
    }
}

/// No line is lost: every line of a text that is not blank is in a window.
pub proof fn law_windows_cover_lines(s: Seq<char>, l: int)
    requires
        0 <= l < splitlines::split_lines(s).len(),
        !splitlines::blank(splitlines::split_lines(s)[l]),
    ensures
        exists|k: int| 0 <= k < windows(s).len() && reaches(#[trigger] windows(s)[k], l),
{
    let lines = splitlines::split_lines(s);
    lemma_windows_cover(lines, 0, l);
    let all = windows_from(lines, 0);
    let k = choose|k: int| 0 <= k < all.len() && reaches(#[trigger] all[k], l);
    assert(windows(s)[k] == all[k]);
}

proof fn lemma_insert_sorted(nodes: Seq<NodeView>, list: Seq<int>, x: int)
    requires
        forall|i: int, j: int|
            0 <= i < j < list.len() ==> nodes[#[trigger] list[i]].start_byte
                <= nodes[#[trigger] list[j]].start_byte,
    ensures
        ({
            let r = insert_by_start(nodes, list, x);
            &&& forall|i: int, j: int|
                0 <= i < j < r.len() ==> nodes[#[trigger] r[i]].start_byte
                    <= nodes[#[trigger] r[j]].start_byte
            &&& forall|i: int| 0 <= i < r.len() ==> #[trigger] r[i] == x || list.contains(r[i])
        }),
    decreases list.len(),
{
    let r = insert_by_start(nodes, list, x);
    if list.len() == 0 || nodes[list.last()].start_byte <= nodes[x].start_byte {
        assert forall|i: int| 0 <= i < r.len() implies #[trigger] r[i] == x || list.contains(r[i]) by {
            if i < list.len() {
                assert(r[i] == list[i]);
            }
        }
        assert forall|i: int, j: int| 0 <= i < j < r.len() implies nodes[#[trigger] r[i]].start_byte
            <= nodes[#[trigger] r[j]].start_byte by {
            if j == list.len() && i < list.len() - 1 {
                assert(nodes[list[i]].start_byte <= nodes[list[list.len() - 1]].start_byte);
            }
        }
    } else {
        let t = list.drop_last();
        lemma_insert_sorted(nodes, t, x);
        let q = insert_by_start(nodes, t, x);
        assert forall|i: int| 0 <= i < q.len() implies nodes[#[trigger] q[i]].start_byte
            <= nodes[list.last()].start_byte && (q[i] == x || list.contains(q[i])) by {
            if q[i] != x {
                assert(t.contains(q[i]));
                let k = choose|k: int| 0 <= k < t.len() && t[k] == q[i];
                assert(list[k] == q[i]);
                assert(nodes[list[k]].start_byte <= nodes[list[list.len() - 1]].start_byte);
            }
        }
        assert(list.contains(list.last())) by {
            assert(list[list.len() - 1] == list.last());
        }
    }
}

/// The nodes of a file are taken in the order in which they start, each once.
pub proof fn law_nodes_sorted(nodes: Seq<NodeView>, list: Seq<int>)
    ensures
        sort_by_start(nodes, list).to_multiset() == list.to_multiset(),
        forall|i: int, j: int|
            0 <= i < j < sort_by_start(nodes, list).len() ==> nodes[#[trigger] sort_by_start(
                nodes,
                list,
            )[i]].start_byte <= nodes[#[trigger] sort_by_start(nodes, list)[j]].start_byte,
    decreases list.len(),
{
    lemma_sorted_multiset(nodes, list);
    if list.len() > 0 {
        law_nodes_sorted(nodes, list.drop_last());
        lemma_insert_sorted(nodes, sort_by_start(nodes, list.drop_last()), list.last());
    }
}

/// The nodes found are the outermost ones of their kinds: each such one is found,
/// and none of them lies below another.
pub proof fn law_nodes_found_are_outermost(
    nodes: Seq<NodeView>,
    targets: Seq<Seq<char>>,
    i: int,
    j: int,
)
    ensures
        semantic_below(nodes, targets, nodes.len() as int).contains(i) <==> semantic(
            nodes,
            targets,
            i,
        ),
        semantic(nodes, targets, i) && semantic(nodes, targets, j) ==> !syntax::ancestor(
            nodes,
            j,
            i,
        ),
{
    lemma_found_semantic(nodes, targets, nodes.len() as int);
    if 0 <= i < nodes.len() && semantic(nodes, targets, i) {
        lemma_semantic_found(nodes, targets, nodes.len() as int, i);
    }
    lemma_found_below(nodes, targets, nodes.len() as int);
}

proof fn lemma_found_below(nodes: Seq<NodeView>, targets: Seq<Seq<char>>, n: int)
    ensures
        forall|k: int|
            0 <= k < semantic_below(nodes, targets, n).len() ==> 0 <= #[trigger] semantic_below(
                nodes,
                targets,
                n,
            )[k] < n,
    decreases n,
{
    if n > 0 {
        lemma_found_below(nodes, targets, n - 1);
        let prior = semantic_below(nodes, targets, n - 1);
        let list = semantic_below(nodes, targets, n);
        assert forall|k: int| 0 <= k < list.len() implies 0 <= #[trigger] list[k] < n by {
            if k < prior.len() {
                assert(list[k] == prior[k]);
            }
        }
    }
}

/// Whether the chunks `part` stand in `all`, one after the other.
pub open spec fn part_of(part: Seq<ChunkView>, all: Seq<ChunkView>) -> bool {
    exists|at: int| #[trigger] stands_at(part, all, at)
}

/// Whether the chunks `part` stand in `all` from position `at` on.
pub open spec fn stands_at(part: Seq<ChunkView>, all: Seq<ChunkView>, at: int) -> bool {
    0 <= at && at + part.len() <= all.len() && all.subrange(at, at + part.len()) == part
}

/// Whether the node reaches over the row.
pub open spec fn occupies(node: NodeView, row: int) -> bool {
    node.start_row <= row < next_row(node, 0)
}

/// Whether the row is one of a gap between nodes whose chunks are among `all`.
pub open spec fn in_gap(source: Seq<char>, row: int, all: Seq<ChunkView>) -> bool {
    exists|from: int, to: int|
        from <= row < to && #[trigger] part_of(
            gap_chunks(splitlines::newline_pieces(source), from, to),
            all,
        )
}

proof fn lemma_part_behind(part: Seq<ChunkView>, head: Seq<ChunkView>, rest: Seq<ChunkView>)
    requires
        part_of(part, rest),
    ensures
        part_of(part, head + rest),
{
    let at = choose|at: int| #[trigger] stands_at(part, rest, at);
    let n = head.len() as int;
    assert((head + rest).subrange(n + at, n + at + part.len()) =~= rest.subrange(
        at,
        at + part.len(),
    ));
    assert(stands_at(part, head + rest, n + at));
}

proof fn lemma_part_within(a: Seq<ChunkView>, part: Seq<ChunkView>, b: Seq<ChunkView>)
    ensures
        part_of(part, a + part + b),
{
    let n = a.len() as int;
    assert((a + part + b).subrange(n, n + part.len()) =~= part);
    assert(stands_at(part, a + part + b, n));
}

/// The nodes that are taken are semantic.
pub proof fn lemma_order_is_semantic(nodes: Seq<NodeView>, kinds: Seq<Seq<char>>)
    ensures
        forall|j: int|
            0 <= j < sort_by_start(
                nodes,
                semantic_below(nodes, kinds, nodes.len() as int),
            ).len() ==> semantic(
                nodes,
                kinds,
                #[trigger] sort_by_start(
                    nodes,
                    semantic_below(nodes, kinds, nodes.len() as int),
                )[j],
            ),
{
    let found = semantic_below(nodes, kinds, nodes.len() as int);
    let order = sort_by_start(nodes, found);
    lemma_sorted_members(nodes, found);
    lemma_found_semantic(nodes, kinds, nodes.len() as int);
    assert forall|j: int| 0 <= j < order.len() implies semantic(nodes, kinds, #[trigger] order[j]) by {
        assert(found.contains(order[j]));
        let m = choose|m: int| 0 <= m < found.len() && found[m] == order[j];
        assert(semantic(nodes, kinds, found[m]));
    }
}

/// Every semantic node is among those taken.
pub proof fn lemma_semantic_in_order(nodes: Seq<NodeView>, kinds: Seq<Seq<char>>, i: int)
    requires
        semantic(nodes, kinds, i),
    ensures
        sort_by_start(nodes, semantic_below(nodes, kinds, nodes.len() as int)).contains(i),
{
    broadcast use vstd::seq_lib::group_to_multiset_ensures;

    let found = semantic_below(nodes, kinds, nodes.len() as int);
    let order = sort_by_start(nodes, found);
    lemma_semantic_found(nodes, kinds, nodes.len() as int, i);
    lemma_sorted_multiset(nodes, found);
    assert(found.to_multiset().count(i) > 0);
    assert(order.to_multiset().count(i) > 0);
}

proof fn lemma_rows_chunked(
    source: Seq<char>,
    containers: Seq<Seq<char>>,
    nodes: Seq<NodeView>,
    order: Seq<int>,
    k: int,
    cursor: int,
    row: int,
)
    requires
        0 <= k <= order.len(),
        0 <= cursor <= row < splitlines::newline_pieces(source).len(),
        forall|j: int| k <= j < order.len() ==> !occupies(nodes[#[trigger] order[j]], row),
    ensures
        in_gap(source, row, chunks_from(source, containers, nodes, order, k, cursor)),
    decreases order.len() - k,
{
    let lines = splitlines::newline_pieces(source);
    let all = chunks_from(source, containers, nodes, order, k, cursor);
    if k == order.len() {
        let gap = gap_chunks(lines, cursor, lines.len() as int);
        lemma_part_within(Seq::empty(), gap, Seq::empty());
        assert(Seq::<ChunkView>::empty() + gap + Seq::<ChunkView>::empty() =~= all);
    } else {
        let node = nodes[order[k]];
        let own = own_chunks(source, node, scope(source, containers, nodes, order[k]));
        let next = next_row(node, cursor);
        let rest = chunks_from(source, containers, nodes, order, k + 1, next);
        if row < node.start_row {
            let gap = gap_chunks(lines, cursor, node.start_row as int);
            lemma_part_within(Seq::empty(), gap, own + rest);
            assert(Seq::<ChunkView>::empty() + gap + (own + rest) =~= all);
        } else {
            assert(!occupies(node, row));
            let before = if cursor < node.start_row {
                gap_chunks(lines, cursor, node.start_row as int)
            } else {
                Seq::empty()
            };
            lemma_rows_chunked(source, containers, nodes, order, k + 1, next, row);
            let (from, to) = choose|from: int, to: int|
                from <= row < to && #[trigger] part_of(gap_chunks(lines, from, to), rest);
            lemma_part_behind(gap_chunks(lines, from, to), before + own, rest);
            assert(all =~= before + own + rest);
        }
    }
}

/// Nothing is lost between the semantic nodes: a row that none of them occupies is in
/// a gap whose chunks are among those of the file.
pub proof fn law_rows_between_nodes_are_chunked(
    source: Seq<char>,
    lang: Seq<char>,
    nodes: Seq<NodeView>,
    row: int,
)
    requires
        semantic_below(nodes, config::semantic_kinds(lang), nodes.len() as int).len() > 0,
        0 <= row < splitlines::newline_pieces(source).len(),
        forall|i: int| #[trigger]
            semantic(nodes, config::semantic_kinds(lang), i) ==> !occupies(nodes[i], row),
    ensures
        in_gap(source, row, tree_chunks(source, lang, nodes)),
{
    let kinds = config::semantic_kinds(lang);
    let found = semantic_below(nodes, kinds, nodes.len() as int);
    let order = sort_by_start(nodes, found);
    lemma_sorted_members(nodes, found);
    lemma_found_semantic(nodes, kinds, nodes.len() as int);
    assert forall|j: int| 0 <= j < order.len() implies !occupies(nodes[#[trigger] order[j]], row) by {
        assert(found.contains(order[j]));
        let m = choose|m: int| 0 <= m < found.len() && found[m] == order[j];
        assert(semantic(nodes, kinds, found[m]));
    }
    lemma_rows_chunked(source, config::scope_kinds(lang), nodes, order, 0, 0, row);
}

proof fn lemma_node_chunked(
    source: Seq<char>,
    containers: Seq<Seq<char>>,
    nodes: Seq<NodeView>,
    order: Seq<int>,
    k: int,
    cursor: int,
    j: int,
)
    requires
        0 <= k <= j < order.len(),
    ensures
        part_of(
            own_chunks(
                source,
                nodes[order[j]],
                scope(source, containers, nodes, order[j]),
            ),
            chunks_from(source, containers, nodes, order, k, cursor),
        ),
    decreases order.len() - k,
{
    let lines = splitlines::newline_pieces(source);
    let all = chunks_from(source, containers, nodes, order, k, cursor);
    let node = nodes[order[k]];
    let before = if cursor < node.start_row {
        gap_chunks(lines, cursor, node.start_row as int)
    } else {
        Seq::empty()
    };
    let own = own_chunks(source, node, scope(source, containers, nodes, order[k]));
    let rest = chunks_from(source, containers, nodes, order, k + 1, next_row(node, cursor));
    assert(all =~= before + own + rest);
    if j == k {
        lemma_part_within(before, own, rest);
    } else {
        lemma_node_chunked(
            source,
            containers,
            nodes,
            order,
            k + 1,
            next_row(node, cursor),
            j,
        );
        lemma_part_behind(
            own_chunks(source, nodes[order[j]], scope(source, containers, nodes, order[j])),
            before + own,
            rest,
        );
    }
}

/// Every semantic node is in the chunks of the file, with its scope.
pub proof fn law_nodes_are_chunked(
    source: Seq<char>,
    lang: Seq<char>,
    nodes: Seq<NodeView>,
    i: int,
)
    requires
        semantic(nodes, config::semantic_kinds(lang), i),
    ensures
        part_of(
            own_chunks(source, nodes[i], scope(source, config::scope_kinds(lang), nodes, i)),
            tree_chunks(source, lang, nodes),
        ),
{
    broadcast use vstd::seq_lib::group_to_multiset_ensures;

    let kinds = config::semantic_kinds(lang);
    let found = semantic_below(nodes, kinds, nodes.len() as int);
    let order = sort_by_start(nodes, found);
    lemma_semantic_found(nodes, kinds, nodes.len() as int, i);
    lemma_sorted_multiset(nodes, found);
    assert(found.to_multiset().count(i) > 0);
    assert(order.to_multiset().count(i) > 0);
    assert(order.contains(i));
    let j = choose|j: int| 0 <= j < order.len() && order[j] == i;
    lemma_node_chunked(source, config::scope_kinds(lang), nodes, order, 0, 0, j);
}

/// The language of a file goes by what follows the last dot of its name, in lower case.
/// A name without a dot, or with one at its start only, has none, and neither has a
/// Blade template.
pub proof fn law_language_of_a_file(path: Seq<char>, stem: Seq<char>, ext: Seq<char>)
    requires
        !ext.contains('.'),
    ensures
        stem.len() > 0 && paths::name_of(path) == Some(stem + seq!['.'] + ext) && !(".blade.php"@)
            .is_suffix_of(stem + seq!['.'] + ext) ==> lang_of_path(path) == config::lang_of_ext(
            seq!['.'] + text::lowercase(ext),
        ),
        paths::name_of(path) is Some && (".blade.php"@).is_suffix_of(paths::name_of(path).unwrap())
            ==> lang_of_path(path) is None,
        paths::name_of(path) == Some(ext) ==> lang_of_path(path) is None,
        paths::name_of(path) == Some(seq!['.'] + ext) ==> lang_of_path(path) is None,
        paths::name_of(path) is None ==> lang_of_path(path) is None,
{
    reveal_strlit(".");
    assert("."@ =~= seq!['.']);
    if stem.len() > 0 {
        let name = stem + seq!['.'] + ext;
        assert(name.skip(name.len() - ext.len()) =~= ext);
        paths::lemma_extension_is(name, ext);
        let p = ".blade.php"@;
        if text::has_suffix(name, p) {
            assert(p =~= name.subrange(name.len() - p.len(), name.len() as int));
        }
    }
    if paths::name_of(path) is Some {
        let name = paths::name_of(path).unwrap();
        let p = ".blade.php"@;
        if p.is_suffix_of(name) {
            assert(name.skip(name.len() - p.len()) =~= p);
        }
    }
    paths::lemma_extension(ext);
    let hidden = seq!['.'] + ext;
    paths::lemma_extension(hidden);
    match paths::extension_of(ext) {
        Some(e) => {
            assert(ext.contains(ext[ext.len() - e.len() - 1]));
        },
        None => {},
    }
    match paths::extension_of(hidden) {
        Some(e) => {
            let k = hidden.len() - e.len() - 1;
            assert(ext[k - 1] == hidden[k]);
            assert(ext.contains(ext[k - 1]));
        },
        None => {},
    }
}

/// A tree is cut along where its ranges lie within the text, its rows within the rows of
/// the text, and its lines can be counted; nothing else of it counts.
pub proof fn law_trees_that_fit(source: Seq<char>, lang: Seq<char>, nodes: Seq<NodeView>)
    ensures
        nodes_fit(source, lang, nodes) <==> {
            let len = encode_utf8(source).len();
            &&& forall|i: int|
                0 <= i < nodes.len() ==> {
                    let n = #[trigger] nodes[i];
                    &&& n.start_byte <= n.end_byte <= len
                    &&& n.start_row <= splitlines::newline_pieces(source).len()
                    &&& n.start_row < usize::MAX && n.end_row < usize::MAX
                    &&& n.name_field is Some ==> range_fits(n.name_field, len)
                    &&& n.type_field is Some ==> range_fits(n.type_field, len)
                }
            &&& forall|i: int| #[trigger]
                semantic(nodes, config::semantic_kinds(lang), i) ==> nodes[i].start_row
                    + bytes_text(source, (nodes[i].start_byte, nodes[i].end_byte)).len()
                    <= usize::MAX
        },
{
    let len = encode_utf8(source).len();
    let rows = splitlines::newline_pieces(source).len();
    assert forall|i: int| 0 <= i < nodes.len() implies node_fits(#[trigger] nodes[i], len, rows) == {
        let n = nodes[i];
        &&& n.start_byte <= n.end_byte <= len
        &&& n.start_row <= rows
        &&& n.start_row < usize::MAX && n.end_row < usize::MAX
        &&& n.name_field is Some ==> range_fits(n.name_field, len)
        &&& n.type_field is Some ==> range_fits(n.type_field, len)
    } by {}
}

/// The semantic nodes are taken by where they start, and those that start together in
/// the order of the tree.
#[verifier::rlimit(40)]
#[verifier::spinoff_prover]
pub proof fn law_nodes_that_start_together(nodes: Seq<NodeView>, kinds: Seq<Seq<char>>)
    ensures
        ({
            let order = sort_by_start(nodes, semantic_below(nodes, kinds, nodes.len() as int));
            forall|a: int, b: int|
                0 <= a < b < order.len() ==> {
                    let x = #[trigger] order[a];
                    let y = #[trigger] order[b];
                    nodes[x].start_byte < nodes[y].start_byte || (nodes[x].start_byte
                        == nodes[y].start_byte && x < y)
                }
        }),
{
    let found = semantic_below(nodes, kinds, nodes.len() as int);
    lemma_found_ascends(nodes, kinds, nodes.len() as int);
    lemma_sort_is_stable(nodes, found);
}

proof fn lemma_found_ascends(nodes: Seq<NodeView>, kinds: Seq<Seq<char>>, n: int)
    ensures
        forall|a: int, b: int|
            0 <= a < b < semantic_below(nodes, kinds, n).len() ==> #[trigger] semantic_below(
                nodes,
                kinds,
                n,
            )[a] < #[trigger] semantic_below(nodes, kinds, n)[b],
    decreases n,
{
    if n > 0 {
        lemma_found_ascends(nodes, kinds, n - 1);
        lemma_found_below(nodes, kinds, n - 1);
        let prior = semantic_below(nodes, kinds, n - 1);
        let list = semantic_below(nodes, kinds, n);
        assert forall|a: int, b: int| 0 <= a < b < list.len() implies #[trigger] list[a]
            < #[trigger] list[b] by {
            assert(list[a] == prior[a]);
            if b < prior.len() {
                assert(list[b] == prior[b]);
            }
        }
    }
}

proof fn lemma_sort_is_stable(nodes: Seq<NodeView>, list: Seq<int>)
    requires
        forall|a: int, b: int|
            0 <= a < b < list.len() ==> #[trigger] list[a] < #[trigger] list[b],
    ensures
        ({
            let order = sort_by_start(nodes, list);
            forall|a: int, b: int|
                0 <= a < b < order.len() ==> {
                    let x = #[trigger] order[a];
                    let y = #[trigger] order[b];
                    nodes[x].start_byte < nodes[y].start_byte || (nodes[x].start_byte
                        == nodes[y].start_byte && x < y)
                }
        }),
    decreases list.len(),
{
    if list.len() > 0 {
        let t = list.drop_last();
        lemma_sort_is_stable(nodes, t);
        lemma_sorted_members(nodes, t);
        let order = sort_by_start(nodes, t);
        assert forall|k: int| 0 <= k < order.len() implies #[trigger] order[k] < list.last() by {
            let m = choose|m: int| 0 <= m < t.len() && t[m] == order[k];
            assert(list[m] == t[m]);
            assert(list[m] < list[list.len() - 1]);
        }
        lemma_insert_is_stable(nodes, order, list.last());
    }
}

#[verifier::rlimit(40)]
#[verifier::spinoff_prover]
proof fn lemma_insert_is_stable(nodes: Seq<NodeView>, list: Seq<int>, x: int)
    requires
        forall|a: int, b: int|
            0 <= a < b < list.len() ==> {
                let p = #[trigger] list[a];
                let q = #[trigger] list[b];
                nodes[p].start_byte < nodes[q].start_byte || (nodes[p].start_byte
                    == nodes[q].start_byte && p < q)
            },
        forall|k: int| 0 <= k < list.len() ==> #[trigger] list[k] < x,
    ensures
        ({
            let order = insert_by_start(nodes, list, x);
            &&& forall|a: int, b: int|
                0 <= a < b < order.len() ==> {
                    let p = #[trigger] order[a];
                    let q = #[trigger] order[b];
                    nodes[p].start_byte < nodes[q].start_byte || (nodes[p].start_byte
                        == nodes[q].start_byte && p < q)
                }
            &&& forall|k: int|
                0 <= k < order.len() ==> list.contains(#[trigger] order[k]) || order[k] == x
        }),
    decreases list.len(),
{
    let order = insert_by_start(nodes, list, x);
    if list.len() == 0 || nodes[list.last()].start_byte <= nodes[x].start_byte {
        assert forall|k: int| 0 <= k < order.len() implies list.contains(#[trigger] order[k])
            || order[k] == x by {
            if k < list.len() {
                assert(list[k] == order[k]);
            }
        }
        assert forall|a: int, b: int| 0 <= a < b < order.len() implies {
            let p = #[trigger] order[a];
            let q = #[trigger] order[b];
            nodes[p].start_byte < nodes[q].start_byte || (nodes[p].start_byte
                == nodes[q].start_byte && p < q)
        } by {
            assert(order[a] == list[a]);
            if b == list.len() && a < list.len() - 1 {
                assert(list[list.len() - 1] == list.last());
            }
        }
    } else {
        let t = list.drop_last();
        assert forall|a: int, b: int| 0 <= a < b < t.len() implies {
            let p = #[trigger] t[a];
            let q = #[trigger] t[b];
            nodes[p].start_byte < nodes[q].start_byte || (nodes[p].start_byte
                == nodes[q].start_byte && p < q)
        } by {
            assert(t[a] == list[a] && t[b] == list[b]);
        }
        assert forall|k: int| 0 <= k < t.len() implies #[trigger] t[k] < x by {
            assert(t[k] == list[k]);
        }
        lemma_insert_is_stable(nodes, t, x);
        let inner = insert_by_start(nodes, t, x);
        let last = list.last();
        assert forall|k: int| 0 <= k < inner.len() implies {
            let p = #[trigger] inner[k];
            nodes[p].start_byte < nodes[last].start_byte || (nodes[p].start_byte
                == nodes[last].start_byte && p < last)
        } by {
            if inner[k] != x {
                let m = choose|m: int| 0 <= m < t.len() && t[m] == inner[k];
                assert(list[m] == t[m]);
                assert(list[list.len() - 1] == last);
            }
        }
        assert forall|k: int| 0 <= k < order.len() implies list.contains(#[trigger] order[k])
            || order[k] == x by {
            if k < inner.len() {
                assert(order[k] == inner[k]);
                if inner[k] != x {
                    let m = choose|m: int| 0 <= m < t.len() && t[m] == inner[k];
                    assert(list[m] == order[k]);
                }
            } else {
                assert(list[list.len() - 1] == order[k]);
            }
        }
        assert forall|a: int, b: int| 0 <= a < b < order.len() implies {
            let p = #[trigger] order[a];
            let q = #[trigger] order[b];
            nodes[p].start_byte < nodes[q].start_byte || (nodes[p].start_byte
                == nodes[q].start_byte && p < q)
        } by {
            assert(order[a] == inner[a]);
            if b < inner.len() {
                assert(order[b] == inner[b]);
            }
        }
    }
}

} // verus!
