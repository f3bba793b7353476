//! The plain-value model of a parsed syntax tree.
//!
//! A tree is a vector of nodes. Node 0 is the root; every other node records
//! its parent and its position among the parent's children, and every child
//! has a larger index than its parent (nodes are stored in a topological
//! order, which any parse naturally produces). [`SyntaxTree::wf`] states
//! these link invariants; [`check_wf`] decides them at run time, so that an
//! unverified producer of trees can be checked before analysis starts.

use vstd::prelude::*;

verus! {

/// The kind tag of a syntax-tree node. Recognized statement and structure
/// kinds have their own variants; everything else is carried verbatim in
/// `Other`, so that an unrecognized shape can be reported, never dropped.
#[derive(Debug, Clone, PartialEq, Eq)]
pub enum NodeKind {
    Module,
    FunctionDefinition,
    Identifier,
    Parameters,
    Block,
    IfStatement,
    ElseClause,
    WhileStatement,
    ReturnStatement,
    BreakStatement,
    ContinueStatement,
    ExpressionStatement,
    PassStatement,
    Other(String),
}

/// The mathematical value of a [`NodeKind`]: the same tag, with the
/// unrecognized kind name as a sequence of characters.
pub ghost enum NodeKindV {
    Module,
    FunctionDefinition,
    Identifier,
    Parameters,
    Block,
    IfStatement,
    ElseClause,
    WhileStatement,
    ReturnStatement,
    BreakStatement,
    ContinueStatement,
    ExpressionStatement,
    PassStatement,
    Other(Seq<char>),
}

impl View for NodeKind {
    type V = NodeKindV;

    open spec fn view(&self) -> NodeKindV {
        match self {
            NodeKind::Module => NodeKindV::Module,
            NodeKind::FunctionDefinition => NodeKindV::FunctionDefinition,
            NodeKind::Identifier => NodeKindV::Identifier,
            NodeKind::Parameters => NodeKindV::Parameters,
            NodeKind::Block => NodeKindV::Block,
            NodeKind::IfStatement => NodeKindV::IfStatement,
            NodeKind::ElseClause => NodeKindV::ElseClause,
            NodeKind::WhileStatement => NodeKindV::WhileStatement,
            NodeKind::ReturnStatement => NodeKindV::ReturnStatement,
            NodeKind::BreakStatement => NodeKindV::BreakStatement,
            NodeKind::ContinueStatement => NodeKindV::ContinueStatement,
            NodeKind::ExpressionStatement => NodeKindV::ExpressionStatement,
            NodeKind::PassStatement => NodeKindV::PassStatement,
            NodeKind::Other(s) => NodeKindV::Other(s@),
        }
    }
}

/// The field by which a parent holds a child (a grammar's named fields).
/// Children outside the fields the analysis reads are `Unnamed`.
#[derive(Debug, Clone, Copy, PartialEq, Eq, Structural)]
pub enum FieldTag {
    Unnamed,
    Name,
    Parameters,
    Body,
    Condition,
    Consequence,
    Alternative,
}

/// One node of the tree: a kind tag, the byte span it covers in the source
/// buffer, the text that span decodes to, the field it fills in its parent,
/// and links to its parent and children (indices into the owning tree).
#[derive(Debug, Clone)]
pub struct SyntaxNode {
    pub kind: NodeKind,
    pub span_start: usize,
    pub span_end: usize,
    pub text: String,
    pub field: FieldTag,
    pub parent: Option<usize>,
    pub child_index: usize,
    pub children: Vec<usize>,
}

/// An immutable parsed tree, fully owned as plain values.
#[derive(Debug, Clone)]
pub struct SyntaxTree {
    pub nodes: Vec<SyntaxNode>,
}

impl SyntaxTree {
    /// The number of nodes.
    pub open spec fn node_count(self) -> int {
        self.nodes@.len() as int
    }

    /// Whether `n` is the index of a node.
    pub open spec fn valid_node(self, n: int) -> bool {
        0 <= n < self.node_count()
    }

    /// The kind tag of node `n`.
    pub open spec fn kind_of(self, n: int) -> NodeKind {
        self.nodes@[n].kind
    }

    /// The field tag of node `n`.
    pub open spec fn field_of(self, n: int) -> FieldTag {
        self.nodes@[n].field
    }

    /// The decoded source text of node `n`.
    pub open spec fn text_of(self, n: int) -> Seq<char> {
        self.nodes@[n].text@
    }

    /// The children of node `n`, as mathematical integers.
    pub open spec fn child_seq(self, n: int) -> Seq<int> {
        self.nodes@[n].children@.map(|i: int, c: usize| c as int)
    }

    /// How many children node `n` has.
    pub open spec fn num_children(self, n: int) -> int {
        self.child_seq(n).len() as int
    }

    /// The `i`-th child of node `n`.
    pub open spec fn child(self, n: int, i: int) -> int {
        self.child_seq(n)[i]
    }

    /// The parent of node `n` (meaningful for `n != 0` in a well-formed tree).
    pub open spec fn parent_of(self, n: int) -> int {
        match self.nodes@[n].parent {
            Some(p) => p as int,
            None => 0,
        }
    }

    /// The position of node `n` among its parent's children.
    pub open spec fn slot_of(self, n: int) -> int {
        self.nodes@[n].child_index as int
    }

    /// The upward link of a non-root node is consistent: its parent is an
    /// earlier node whose child list holds it at the recorded position.
    pub open spec fn wf_link(self, n: int) -> bool {
        &&& self.nodes@[n].parent is Some
        &&& 0 <= self.parent_of(n) < n
        &&& 0 <= self.slot_of(n) < self.num_children(self.parent_of(n))
        &&& self.child(self.parent_of(n), self.slot_of(n)) == n
    }

    /// The downward link of a child slot is consistent: the child is a later
    /// node that points back at this parent and this slot.
    pub open spec fn wf_child(self, n: int, i: int) -> bool {
        let c = self.child(n, i);
        &&& n < c < self.node_count()
        &&& self.nodes@[c].parent == Some(n as usize)
        &&& self.slot_of(c) == i
    }

    /// Well-formedness: node 0 is the root, and all parent/child links agree.
    /// Every node is then reachable from the root by following child links,
    /// and the child lists are disjoint.
    pub open spec fn wf(self) -> bool {
        &&& self.node_count() >= 1
        &&& self.nodes@[0].parent is None
        &&& forall|n: int| 1 <= n < self.node_count() ==> #[trigger] self.wf_link(n)
        &&& forall|n: int, i: int|
            0 <= n < self.node_count() && 0 <= i < self.num_children(n)
                ==> #[trigger] self.wf_child(n, i)
    }

    /// The first child of `n` held by field `f`, if any, looking from
    /// position `i` on.
    pub open spec fn child_with_field_from(self, n: int, i: int, f: FieldTag) -> Option<int>
        decreases self.num_children(n) - i,
            when 0 <= i
    {
        if i >= self.num_children(n) {
            None
        } else if self.field_of(self.child(n, i)) == f {
            Some(self.child(n, i))
        } else {
            self.child_with_field_from(n, i + 1, f)
        }
    }

    /// The first child of `n` held by field `f`, if any.
    pub open spec fn child_with_field(self, n: int, f: FieldTag) -> Option<int> {
        self.child_with_field_from(n, 0, f)
    }
}

/// Decides [`SyntaxTree::wf`] at run time, so that a tree assembled by
/// unverified code can be validated before any analysis relies on it.
pub fn check_wf(t: &SyntaxTree) -> (r: bool)
    ensures
        r == t.wf(),
{
    let n_total = t.nodes.len();
    if n_total == 0 {
        return false;
    }
    if t.nodes[0].parent.is_some() {
        return false;
    }
    let mut n: usize = 1;
    while n < n_total
        invariant
            1 <= n <= n_total,
            n_total == t.nodes@.len(),
            forall|m: int| 1 <= m < n ==> #[trigger] t.wf_link(m),
        decreases n_total - n,
    {
        proof {
            assert(t.wf() ==> t.wf_link(n as int));
        }
        let node = &t.nodes[n];
        match node.parent {
            None => {
                return false;
            },
            Some(p) => {
                if !(p < n) {
                    return false;
                }
                let slot = node.child_index;
                if !(slot < t.nodes[p].children.len()) {
                    return false;
                }
                if t.nodes[p].children[slot] != n {
                    return false;
                }
            },
        }
        assert(t.wf_link(n as int));
        n = n + 1;
    }
    let mut m: usize = 0;
    while m < n_total
        invariant
            0 <= m <= n_total,
            n_total == t.nodes@.len(),
            t.nodes@[0].parent is None,
            forall|q: int| 1 <= q < n_total ==> #[trigger] t.wf_link(q),
            forall|q: int, i: int|
                0 <= q < m && 0 <= i < t.num_children(q) ==> #[trigger] t.wf_child(q, i),
        decreases n_total - m,
    {
        let n_kids = t.nodes[m].children.len();
        let mut i: usize = 0;
        while i < n_kids
            invariant
                0 <= i <= n_kids,
                m < n_total,
                n_total == t.nodes@.len(),
                n_kids == t.num_children(m as int),
                forall|j: int| 0 <= j < i ==> #[trigger] t.wf_child(m as int, j),
            decreases n_kids - i,
        {
            proof {
                assert(t.wf() ==> t.wf_child(m as int, i as int));
            }
            let c = t.nodes[m].children[i];
            if !(c > m && c < n_total) {
                return false;
            }
            match t.nodes[c].parent {
                None => {
                    return false;
                },
                Some(p) => {
                    if p != m {
                        return false;
                    }
                },
            }
            if t.nodes[c].child_index != i {
                return false;
            }
            assert(t.wf_child(m as int, i as int));
            i = i + 1;
        }
        m = m + 1;
    }
    true
}

} // verus!
