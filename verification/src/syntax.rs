//! Syntax trees as lists of nodes.
//!
//! A tree is held as its nodes in pre-order, each with its depth: a node comes
//! after its parent, and its descendants follow it as long as the depth stays
//! greater than its own.
use vstd::prelude::*;

verus! {

/// A node of a syntax tree.
#[derive(Debug)]
pub struct SyntaxNode {
    pub kind: String,
    /// Number of ancestors.
    pub depth: usize,
    pub start_byte: usize,
    pub end_byte: usize,
    /// 0-based row of the first character.
    pub start_row: usize,
    /// 0-based row and column where the node ends.
    pub end_row: usize,
    pub end_column: usize,
    /// Byte range of the child in the field `name`.
    pub name_field: Option<(usize, usize)>,
    /// Byte range of the child in the field `type`.
    pub type_field: Option<(usize, usize)>,
}

/// A node of a syntax tree, as mathematical values.
pub struct NodeView {
    pub kind: Seq<char>,
    pub depth: nat,
    pub start_byte: nat,
    pub end_byte: nat,
    pub start_row: nat,
    pub end_row: nat,
    pub end_column: nat,
    pub name_field: Option<(nat, nat)>,
    pub type_field: Option<(nat, nat)>,
}

pub open spec fn range_view(r: Option<(usize, usize)>) -> Option<(nat, nat)> {
    match r {
        Some((a, b)) => Some((a as nat, b as nat)),
        None => None,
    }
}

impl View for SyntaxNode {
    type V = NodeView;

    open spec fn view(&self) -> NodeView {
        NodeView {
            kind: self.kind@,
            depth: self.depth as nat,
            start_byte: self.start_byte as nat,
            end_byte: self.end_byte as nat,
            start_row: self.start_row as nat,
            end_row: self.end_row as nat,
            end_column: self.end_column as nat,
            name_field: range_view(self.name_field),
            type_field: range_view(self.type_field),
        }
    }
}

/// The views of a list of nodes.
pub open spec fn node_views(v: Seq<SyntaxNode>) -> Seq<NodeView> {
    Seq::new(v.len(), |i: int| v[i]@)
}

// ---------------------------------------------------------------------------
// Parsing
// ---------------------------------------------------------------------------

/// A parsed tree.
#[verifier::external_type_specification]
#[verifier::external_body]
pub struct ExTree(tree_sitter::Tree);

/// The nodes of a parsed tree, in pre-order.
pub uninterp spec fn tree_nodes(t: tree_sitter::Tree) -> Seq<NodeView>;

/// The nodes of the tree that a grammar makes of a text, where it makes one.
pub uninterp spec fn parsed(language: tree_sitter::Language, source: Seq<char>) -> Option<
    Seq<NodeView>,
>;

/// `tree_sitter::Parser::parse` on the bytes of `source`, with a new parser that
/// `set_language` has given the grammar: what comes back depends on the grammar
/// and the text alone. `None` where the grammar does not fit the library or the
/// parse does not finish.
#[verifier::external_body]
fn parse(language: &tree_sitter::Language, source: &str) -> (r: Option<tree_sitter::Tree>)
    ensures
        match r {
            Some(t) => parsed(*language, source@) == Some(tree_nodes(t)),
            None => parsed(*language, source@) is None,
        },
{
    let mut parser = tree_sitter::Parser::new();
    parser.set_language(language).ok()?;
    parser.parse(source.as_bytes(), None)
}

/// `tree_sitter::Node::descendant_count` of the root: the number of nodes of the
/// tree, the root among them.
#[verifier::external_body]
fn node_count(tree: &tree_sitter::Tree) -> (n: usize)
    ensures
        n == tree_nodes(*tree).len(),
{
    tree.root_node().descendant_count()
}

/// `tree_sitter::TreeCursor::goto_descendant` from the root: the node at position
/// `i` of the pre-order, with the data that `tree_sitter::Node` gives of it.
#[verifier::external_body]
fn node_at(tree: &tree_sitter::Tree, i: usize) -> (n: SyntaxNode)
    requires
        i < tree_nodes(*tree).len(),
    ensures
        n@ == tree_nodes(*tree)[i as int],
{
    let mut cursor = tree.walk();
    cursor.goto_descendant(i);
    let node = cursor.node();
    let (start, end) = (node.start_position(), node.end_position());
    SyntaxNode {
        kind: node.kind().to_string(),
        depth: cursor.depth() as usize,
        start_byte: node.start_byte(),
        end_byte: node.end_byte(),
        start_row: start.row,
        end_row: end.row,
        end_column: end.column,
        name_field: node.child_by_field_name("name").map(|n| (n.start_byte(), n.end_byte())),
        type_field: node.child_by_field_name("type").map(|n| (n.start_byte(), n.end_byte())),
    }
}

/// The nodes of the tree that the grammar makes of `source`, in pre-order.
pub fn parse_nodes(language: &tree_sitter::Language, source: &str) -> (r: Option<Vec<SyntaxNode>>)
    ensures
        match r {
            Some(v) => parsed(*language, source@) == Some(node_views(v@)),
            None => parsed(*language, source@) is None,
        },
{
    let tree = match parse(language, source) {
        Some(t) => t,
        None => {
            return None;
        },
    };
    let count: usize = node_count(&tree);
    let mut v: Vec<SyntaxNode> = Vec::new();
    let mut i: usize = 0;
    while i < count
        invariant
            i <= count,
            count == tree_nodes(tree).len(),
            v@.len() == i,
            forall|k: int| 0 <= k < i ==> (#[trigger] v@[k])@ == tree_nodes(tree)[k],
        decreases count - i,
    {
        v.push(node_at(&tree, i));
        i = i + 1;
    }
    proof {
        assert(node_views(v@) =~= tree_nodes(tree));
    }
    Some(v)
}

// ---------------------------------------------------------------------------
// Ancestors
// ---------------------------------------------------------------------------

/// Whether the node `j` is an ancestor of the node `i`.
pub open spec fn ancestor(nodes: Seq<NodeView>, j: int, i: int) -> bool {
    &&& 0 <= j < i < nodes.len()
    &&& forall|k: int| j < k <= i ==> nodes[j].depth < #[trigger] nodes[k].depth
}

/// Whether `p` is the parent of the node `i`: the last node before it of a smaller
/// depth, if there is one.
pub open spec fn parent(nodes: Seq<NodeView>, i: int, p: Option<usize>) -> bool {
    match p {
        Some(j) => {
            &&& j < i
            &&& nodes[j as int].depth < nodes[i].depth
            &&& forall|k: int| j < k < i ==> nodes[i].depth <= #[trigger] nodes[k].depth
        },
        None => forall|k: int| 0 <= k < i ==> nodes[i].depth <= #[trigger] nodes[k].depth,
    }
}

/// The parent of each node.
pub fn parents(nodes: &Vec<SyntaxNode>) -> (r: Vec<Option<usize>>)
    ensures
        r@.len() == nodes@.len(),
        forall|i: int|
            0 <= i < nodes@.len() ==> parent(node_views(nodes@), i, #[trigger] r@[i]),
{
    let ghost all = node_views(nodes@);
    let mut r: Vec<Option<usize>> = Vec::new();
    let mut i: usize = 0;
    while i < nodes.len()
        invariant
            all == node_views(nodes@),
            i <= nodes@.len(),
            r@.len() == i,
            forall|k: int| 0 <= k < i ==> parent(all, k, #[trigger] r@[k]),
        decreases nodes@.len() - i,
    {
        let depth: usize = nodes[i].depth;
        let mut candidate: Option<usize> = if i > 0 {
            Some(i - 1)
        } else {
            None
        };
        loop
            invariant_except_break
                match candidate {
                    Some(j) => j < i && forall|k: int|
                        j < k < i ==> depth <= #[trigger] all[k].depth,
                    None => forall|k: int| 0 <= k < i ==> depth <= #[trigger] all[k].depth,
                },
            invariant
                all == node_views(nodes@),
                i < nodes@.len(),
                r@.len() == i,
                depth == all[i as int].depth,
                forall|k: int| 0 <= k < i ==> parent(all, k, #[trigger] r@[k]),
            ensures
                parent(all, i as int, candidate),
            decreases
                (match candidate {
                    Some(j) => j + 1,
                    None => 0,
                }),
        {
            let j = match candidate {
                Some(j) => j,
                None => {
                    break;
                },
            };
            assert(nodes@[j as int]@ == all[j as int]);
            if nodes[j].depth < depth {
                break;
            }
            assert(parent(all, j as int, r@[j as int]));
            candidate = r[j];
        }
        r.push(candidate);
        i = i + 1;
    }
    r
}

} // verus!
