//! Basic blocks, terminators, and the control-flow-graph builder.
//!
//! The construction is structured statement partitioning: statements are
//! appended to an open "current" block; a conditional closes it with a
//! `Branch` into two fresh blocks and merges the open arm exits with
//! `Fallthrough` edges; a loop closes it with a `Jump` into a fresh header
//! whose `Branch` enters a fresh body seed or a fresh exit block, the body's
//! open end jumping back to the header; `return`, `break` and `continue`
//! close the block outright. Block ids are assigned in creation order,
//! starting at 0, which is always the entry block. Statements found after
//! the current block was closed land in a fresh predecessor-less block and
//! are reported as unreachable-code diagnostics, never dropped.
//!
//! The whole construction is specified by [`build_cfg_spec`], a function of
//! the tree alone; [`build_cfg`] is proved to return exactly that value.

use vstd::prelude::*;

use crate::errors::clone_kind;
use crate::errors::AnalysisError;
use crate::errors::AnalysisErrorV;
use crate::tree::FieldTag;
use crate::tree::NodeKind;
use crate::tree::SyntaxTree;

verus! {

/// The defensive bound on statement nesting while building one graph;
/// deeper nesting is reported as `TraversalLimitExceeded` instead of
/// risking exhaustion of the call stack.
pub const BUILD_DEPTH_LIMIT: usize = 128;

/// How control leaves a basic block. Targets are block ids in the same
/// graph; `cond` and `value` are node indices into the analyzed tree.
#[derive(Debug, Clone, Copy, PartialEq, Eq)]
pub enum Terminator {
    /// Execution continues at `target` (a merge after a conditional).
    Fallthrough { target: usize },
    /// A two-way branch on the condition expression node.
    Branch { cond: usize, then_target: usize, else_target: usize },
    /// The function returns, with an optional value expression node.
    Return { value: Option<usize> },
    /// An unconditional transfer: a loop entry, a back-edge, or a
    /// `break`/`continue` jump.
    Jump { target: usize },
    /// No successor: the block never transfers control onward.
    Unreachable,
}

/// The mathematical value of a [`Terminator`].
pub ghost enum TermV {
    Fallthrough { target: int },
    Branch { cond: int, then_target: int, else_target: int },
    Return { value: Option<int> },
    Jump { target: int },
    Unreachable,
}

impl View for Terminator {
    type V = TermV;

    open spec fn view(&self) -> TermV {
        match self {
            Terminator::Fallthrough { target } => TermV::Fallthrough { target: *target as int },
            Terminator::Branch { cond, then_target, else_target } => TermV::Branch {
                cond: *cond as int,
                then_target: *then_target as int,
                else_target: *else_target as int,
            },
            Terminator::Return { value } => TermV::Return {
                value: match value {
                    Some(v) => Some(*v as int),
                    None => None,
                },
            },
            Terminator::Jump { target } => TermV::Jump { target: *target as int },
            Terminator::Unreachable => TermV::Unreachable,
        }
    }
}

/// The block ids a terminator can transfer control to.
pub open spec fn targets_of(term: TermV) -> Seq<int> {
    match term {
        TermV::Fallthrough { target } => seq![target],
        TermV::Branch { cond, then_target, else_target } => seq![then_target, else_target],
        TermV::Return { value } => Seq::empty(),
        TermV::Jump { target } => seq![target],
        TermV::Unreachable => Seq::empty(),
    }
}

/// A maximal straight-line run of statements with one entry and one exit.
/// `statements` are node indices into the analyzed tree, in source order;
/// `id` is the block's index in the owning graph.
#[derive(Debug, Clone, PartialEq, Eq)]
pub struct BasicBlock {
    pub id: usize,
    pub statements: Vec<usize>,
    pub terminator: Terminator,
}

/// The mathematical value of a [`BasicBlock`].
#[verifier::ext_equal]
pub ghost struct BlockV {
    pub id: int,
    pub stmts: Seq<int>,
    pub term: TermV,
}

impl View for BasicBlock {
    type V = BlockV;

    open spec fn view(&self) -> BlockV {
        BlockV {
            id: self.id as int,
            stmts: self.statements@.map(|i: int, v: usize| v as int),
            term: self.terminator@,
        }
    }
}

/// A per-function control-flow graph: an append-only, index-addressed
/// collection of blocks, with block 0 as the single entry.
#[derive(Debug, Clone, PartialEq, Eq)]
pub struct ControlFlowGraph {
    pub entry: usize,
    pub blocks: Vec<BasicBlock>,
}

/// The blocks of a graph (or of a graph under construction) as values.
pub open spec fn blocks_view(s: Seq<BasicBlock>) -> Seq<BlockV> {
    s.map(|i: int, b: BasicBlock| b@)
}

impl ControlFlowGraph {
    /// The graph's blocks as values.
    pub open spec fn blocks_v(self) -> Seq<BlockV> {
        blocks_view(self.blocks@)
    }

    /// Structural validity: block 0 is the entry, ids equal positions, and
    /// every terminator target names an existing block.
    pub open spec fn valid(self) -> bool {
        &&& self.entry == 0
        &&& self.blocks@.len() >= 1
        &&& forall|j: int|
            0 <= j < self.blocks_v().len() ==> (#[trigger] self.blocks_v()[j]).id == j
        &&& forall|j: int, e: int|
            0 <= j < self.blocks_v().len() && 0 <= e < targets_of(self.blocks_v()[j].term).len()
                ==> 0 <= #[trigger] targets_of(self.blocks_v()[j].term)[e]
                < self.blocks_v().len()
    }
}

/// The state of one graph under construction: the blocks made so far, the
/// id of the open "current" block if any, and the statement nodes reported
/// as unreachable code.
#[verifier::ext_equal]
pub ghost struct BuildState {
    pub blocks: Seq<BlockV>,
    pub cur: Option<int>,
    pub diags: Seq<int>,
}

/// A newly created, still-open block: no statements, no successors yet.
pub open spec fn fresh_block(id: int) -> BlockV {
    BlockV { id, stmts: Seq::empty(), term: TermV::Unreachable }
}

/// The id of the current block (meaningful when one is open).
pub open spec fn cur_id(st: BuildState) -> int {
    match st.cur {
        Some(k) => k,
        None => 0,
    }
}

/// Replaces the current-block marker.
pub open spec fn set_cur(st: BuildState, cur: Option<int>) -> BuildState {
    BuildState { blocks: st.blocks, cur, diags: st.diags }
}

/// Guarantees an open current block before statement `c` is placed: if the
/// current block was closed, a fresh block with no predecessors is opened
/// and `c` is recorded as the start of an unreachable-code region.
pub open spec fn st_open(st: BuildState, c: int) -> BuildState {
    match st.cur {
        Some(_) => st,
        None => BuildState {
            blocks: st.blocks.push(fresh_block(st.blocks.len() as int)),
            cur: Some(st.blocks.len() as int),
            diags: st.diags.push(c),
        },
    }
}

/// Appends statement node `c` to the current block.
pub open spec fn st_append(st: BuildState, c: int) -> BuildState {
    match st.cur {
        Some(k) => BuildState {
            blocks: st.blocks.update(
                k,
                BlockV { id: st.blocks[k].id, stmts: st.blocks[k].stmts.push(c), term: st.blocks[k].term },
            ),
            cur: st.cur,
            diags: st.diags,
        },
        None => st,
    }
}

/// Closes block `k` with the given terminator.
pub open spec fn st_close(st: BuildState, k: int, term: TermV) -> BuildState {
    BuildState {
        blocks: st.blocks.update(
            k,
            BlockV { id: st.blocks[k].id, stmts: st.blocks[k].stmts, term },
        ),
        cur: st.cur,
        diags: st.diags,
    }
}

/// Closes block `k` with a `Fallthrough` to `m` if `k` is given (an arm
/// exit that is still open), else changes nothing.
pub open spec fn st_merge_arm(st: BuildState, arm: Option<int>, m: int) -> BuildState {
    match arm {
        Some(k) => st_close(st, k, TermV::Fallthrough { target: m }),
        None => st,
    }
}

/// A field child found by [`SyntaxTree::child_with_field_from`] is a child:
/// a later node of the tree.
pub proof fn lemma_field_child_range(t: SyntaxTree, n: int, i: int, f: FieldTag)
    requires
        t.wf(),
        t.valid_node(n),
        0 <= i,
    ensures
        match t.child_with_field_from(n, i, f) {
            Some(x) => n < x < t.node_count(),
            None => true,
        },
    decreases t.num_children(n) - i,
{
    if i < t.num_children(n) {
        assert(t.wf_child(n, i));
        if t.field_of(t.child(n, i)) != f {
            lemma_field_child_range(t, n, i + 1, f);
        }
    }
}

/// The specification of the builder's walk over the statement children
/// `i..` of node `b`. `loops` is the stack of enclosing (header, exit)
/// pairs; `depth` the remaining nesting allowance. Returns the final state,
/// or the first error in source order.
pub open spec fn build_stmts_spec(
    t: SyntaxTree,
    b: int,
    i: int,
    loops: Seq<(int, int)>,
    st: BuildState,
    depth: int,
) -> Result<BuildState, AnalysisErrorV>
    decreases t.node_count() - b, t.num_children(b) - i,
        when t.wf() && t.valid_node(b) && 0 <= i
{
    if depth <= 0 {
        Err(AnalysisErrorV::TraversalLimitExceeded)
    } else if i >= t.num_children(b) {
        Ok(st)
    } else {
        proof {
            assert(t.wf_child(b, i));
        }
        let c = t.child(b, i);
        match t.kind_of(c) {
            NodeKind::ExpressionStatement | NodeKind::PassStatement
                | NodeKind::FunctionDefinition => {
                build_stmts_spec(t, b, i + 1, loops, st_append(st_open(st, c), c), depth)
            },
            NodeKind::ReturnStatement => {
                let st1 = st_append(st_open(st, c), c);
                let value = if t.num_children(c) >= 1 {
                    Some(t.child(c, 0))
                } else {
                    None
                };
                let st2 = set_cur(st_close(st1, cur_id(st1), TermV::Return { value }), None);
                build_stmts_spec(t, b, i + 1, loops, st2, depth)
            },
            NodeKind::BreakStatement => {
                if loops.len() == 0 {
                    Err(AnalysisErrorV::UnsupportedStatement { kind: t.kind_of(c)@ })
                } else {
                    let st1 = st_append(st_open(st, c), c);
                    let st2 = set_cur(
                        st_close(st1, cur_id(st1), TermV::Jump { target: loops.last().1 }),
                        None,
                    );
                    build_stmts_spec(t, b, i + 1, loops, st2, depth)
                }
            },
            NodeKind::ContinueStatement => {
                if loops.len() == 0 {
                    Err(AnalysisErrorV::UnsupportedStatement { kind: t.kind_of(c)@ })
                } else {
                    let st1 = st_append(st_open(st, c), c);
                    let st2 = set_cur(
                        st_close(st1, cur_id(st1), TermV::Jump { target: loops.last().0 }),
                        None,
                    );
                    build_stmts_spec(t, b, i + 1, loops, st2, depth)
                }
            },
            NodeKind::IfStatement => {
                proof {
                    lemma_field_child_range(t, c, 0, FieldTag::Condition);
                    lemma_field_child_range(t, c, 0, FieldTag::Consequence);
                    lemma_field_child_range(t, c, 0, FieldTag::Alternative);
                }
                match (t.child_with_field(c, FieldTag::Condition), t.child_with_field(
                    c,
                    FieldTag::Consequence,
                )) {
                    (Some(cond), Some(thenb)) => {
                        match t.child_with_field(c, FieldTag::Alternative) {
                            None => {
                                let st1 = st_open(st, c);
                                let a = st1.blocks.len() as int;
                                let st2 = BuildState {
                                    blocks: st1.blocks.push(fresh_block(a)).push(
                                        fresh_block(a + 1),
                                    ),
                                    cur: st1.cur,
                                    diags: st1.diags,
                                };
                                let st3 = set_cur(
                                    st_close(
                                        st2,
                                        cur_id(st1),
                                        TermV::Branch {
                                            cond,
                                            then_target: a,
                                            else_target: a + 1,
                                        },
                                    ),
                                    Some(a),
                                );
                                match build_stmts_spec(t, thenb, 0, loops, st3, depth - 1) {
                                    Err(e) => Err(e),
                                    Ok(st_then) => {
                                        let st4 = set_cur(
                                            st_merge_arm(st_then, st_then.cur, a + 1),
                                            Some(a + 1),
                                        );
                                        build_stmts_spec(t, b, i + 1, loops, st4, depth)
                                    },
                                }
                            },
                            Some(alt) => {
                                proof {
                                    lemma_field_child_range(t, alt, 0, FieldTag::Body);
                                }
                                if !(t.kind_of(alt) is ElseClause) {
                                    Err(
                                        AnalysisErrorV::UnsupportedStatement {
                                            kind: t.kind_of(c)@,
                                        },
                                    )
                                } else {
                                    match t.child_with_field(alt, FieldTag::Body) {
                                        None => Err(
                                            AnalysisErrorV::UnsupportedStatement {
                                                kind: t.kind_of(c)@,
                                            },
                                        ),
                                        Some(elseb) => {
                                            let st1 = st_open(st, c);
                                            let a = st1.blocks.len() as int;
                                            let st2 = BuildState {
                                                blocks: st1.blocks.push(fresh_block(a)).push(
                                                    fresh_block(a + 1),
                                                ),
                                                cur: st1.cur,
                                                diags: st1.diags,
                                            };
                                            let st3 = set_cur(
                                                st_close(
                                                    st2,
                                                    cur_id(st1),
                                                    TermV::Branch {
                                                        cond,
                                                        then_target: a,
                                                        else_target: a + 1,
                                                    },
                                                ),
                                                Some(a),
                                            );
                                            match build_stmts_spec(
                                                t,
                                                thenb,
                                                0,
                                                loops,
                                                st3,
                                                depth - 1,
                                            ) {
                                                Err(e) => Err(e),
                                                Ok(st_then) => {
                                                    match build_stmts_spec(
                                                        t,
                                                        elseb,
                                                        0,
                                                        loops,
                                                        set_cur(st_then, Some(a + 1)),
                                                        depth - 1,
                                                    ) {
                                                        Err(e) => Err(e),
                                                        Ok(st_else) => {
                                                            if st_then.cur is None
                                                                && st_else.cur is None {
                                                                build_stmts_spec(
                                                                    t,
                                                                    b,
                                                                    i + 1,
                                                                    loops,
                                                                    set_cur(st_else, None),
                                                                    depth,
                                                                )
                                                            } else {
                                                                let m =
                                                                    st_else.blocks.len() as int;
                                                                let st4 = BuildState {
                                                                    blocks: st_else.blocks.push(
                                                                        fresh_block(m),
                                                                    ),
                                                                    cur: st_else.cur,
                                                                    diags: st_else.diags,
                                                                };
                                                                let st5 = st_merge_arm(
                                                                    st4,
                                                                    st_then.cur,
                                                                    m,
                                                                );
                                                                let st6 = st_merge_arm(
                                                                    st5,
                                                                    st_else.cur,
                                                                    m,
                                                                );
                                                                build_stmts_spec(
                                                                    t,
                                                                    b,
                                                                    i + 1,
                                                                    loops,
                                                                    set_cur(st6, Some(m)),
                                                                    depth,
                                                                )
                                                            }
                                                        },
                                                    }
                                                },
                                            }
                                        },
                                    }
                                }
                            },
                        }
                    },
                    _ => Err(AnalysisErrorV::UnsupportedStatement { kind: t.kind_of(c)@ }),
                }
            },
            NodeKind::WhileStatement => {
                proof {
                    lemma_field_child_range(t, c, 0, FieldTag::Condition);
                    lemma_field_child_range(t, c, 0, FieldTag::Body);
                }
                match (t.child_with_field(c, FieldTag::Condition), t.child_with_field(
                    c,
                    FieldTag::Body,
                )) {
                    (Some(cond), Some(bodyb)) => {
                        let st1 = st_open(st, c);
                        let h = st1.blocks.len() as int;
                        let st2 = BuildState {
                            blocks: st1.blocks.push(
                                BlockV {
                                    id: h,
                                    stmts: Seq::empty(),
                                    term: TermV::Branch {
                                        cond,
                                        then_target: h + 1,
                                        else_target: h + 2,
                                    },
                                },
                            ).push(fresh_block(h + 1)).push(fresh_block(h + 2)),
                            cur: st1.cur,
                            diags: st1.diags,
                        };
                        let st3 = set_cur(
                            st_close(st2, cur_id(st1), TermV::Jump { target: h }),
                            Some(h + 1),
                        );
                        match build_stmts_spec(
                            t,
                            bodyb,
                            0,
                            loops.push((h, h + 2)),
                            st3,
                            depth - 1,
                        ) {
                            Err(e) => Err(e),
                            Ok(st_body) => {
                                let st4 = match st_body.cur {
                                    Some(x) => st_close(st_body, x, TermV::Jump { target: h }),
                                    None => st_body,
                                };
                                build_stmts_spec(
                                    t,
                                    b,
                                    i + 1,
                                    loops,
                                    set_cur(st4, Some(h + 2)),
                                    depth,
                                )
                            },
                        }
                    },
                    _ => Err(AnalysisErrorV::UnsupportedStatement { kind: t.kind_of(c)@ }),
                }
            },
            _ => Err(AnalysisErrorV::UnsupportedStatement { kind: t.kind_of(c)@ }),
        }
    }
}

/// The specification of building the graph of one function body: one open
/// entry block, the body's statement children partitioned in order, and
/// whatever block is still open at the end left without successors.
pub open spec fn build_cfg_spec(t: SyntaxTree, body: int) -> Result<
    (Seq<BlockV>, Seq<int>),
    AnalysisErrorV,
> {
    let st0 = BuildState {
        blocks: seq![fresh_block(0)],
        cur: Some(0),
        diags: Seq::empty(),
    };
    match build_stmts_spec(t, body, 0, Seq::empty(), st0, BUILD_DEPTH_LIMIT as int) {
        Ok(st) => Ok((st.blocks, st.diags)),
        Err(e) => Err(e),
    }
}

/// Every target of block `j` names an existing block other than the entry.
pub open spec fn block_targets_ok(bs: Seq<BlockV>, j: int) -> bool {
    forall|e: int|
        0 <= e < targets_of(bs[j].term).len() ==> 1 <= #[trigger] targets_of(bs[j].term)[e]
            < bs.len()
}

/// Block `j` is well formed: its id is its position and its targets are in
/// range.
pub open spec fn block_wf_at(bs: Seq<BlockV>, j: int) -> bool {
    bs[j].id == j && block_targets_ok(bs, j)
}

/// The construction invariant: ids equal positions and every edge leads to
/// an existing block that is not the entry.
pub open spec fn blocks_wf(bs: Seq<BlockV>) -> bool {
    forall|j: int| 0 <= j < bs.len() ==> #[trigger] block_wf_at(bs, j)
}

/// Every recorded loop header and exit is an existing, non-entry block.
pub open spec fn loops_wf(loops: Seq<(int, int)>, len: int) -> bool {
    forall|j: int|
        0 <= j < loops.len() ==> 1 <= (#[trigger] loops[j]).0 < len && 1 <= loops[j].1 < len
}

/// The open current block, if any, exists.
pub open spec fn cur_ok(st: BuildState) -> bool {
    match st.cur {
        Some(k) => 0 <= k < st.blocks.len(),
        None => true,
    }
}

/// The whole construction-state invariant.
pub open spec fn state_wf(st: BuildState) -> bool {
    st.blocks.len() >= 1 && blocks_wf(st.blocks) && cur_ok(st)
}

/// Growing a well-formed block sequence with well-formed new blocks keeps
/// it well-formed.
proof fn lemma_wf_extend(bs: Seq<BlockV>, bs2: Seq<BlockV>)
    requires
        blocks_wf(bs),
        bs2.len() >= bs.len(),
        forall|j: int| 0 <= j < bs.len() ==> bs2[j] == bs[j],
        forall|j: int|
            bs.len() <= j < bs2.len() ==> (#[trigger] bs2[j]).id == j && block_targets_ok(bs2, j),
    ensures
        blocks_wf(bs2),
{
    assert forall|j: int| 0 <= j < bs2.len() implies #[trigger] block_wf_at(bs2, j) by {
        if j < bs.len() {
            assert(block_wf_at(bs, j));
            assert forall|e: int|
                0 <= e < targets_of(bs2[j].term).len() implies 1 <= #[trigger] targets_of(
                bs2[j].term,
            )[e] < bs2.len() by {
                assert(targets_of(bs[j].term)[e] == targets_of(bs2[j].term)[e]);
            }
        }
    }
}

/// Replacing the statements of one block keeps the sequence well-formed.
proof fn lemma_wf_restmt(bs: Seq<BlockV>, k: int, stmts: Seq<int>)
    requires
        blocks_wf(bs),
        0 <= k < bs.len(),
    ensures
        blocks_wf(bs.update(k, BlockV { id: bs[k].id, stmts, term: bs[k].term })),
{
    let bs2 = bs.update(k, BlockV { id: bs[k].id, stmts, term: bs[k].term });
    assert forall|j: int| 0 <= j < bs2.len() implies #[trigger] block_wf_at(bs2, j) by {
        assert(block_wf_at(bs, j));
        assert forall|e: int|
            0 <= e < targets_of(bs2[j].term).len() implies 1 <= #[trigger] targets_of(
            bs2[j].term,
        )[e] < bs2.len() by {
            assert(targets_of(bs[j].term)[e] == targets_of(bs2[j].term)[e]);
        }
    }
}

/// Closing one block with a terminator whose targets are in range keeps the
/// sequence well-formed.
proof fn lemma_wf_close(bs: Seq<BlockV>, k: int, term: TermV)
    requires
        blocks_wf(bs),
        0 <= k < bs.len(),
        forall|e: int|
            0 <= e < targets_of(term).len() ==> 1 <= #[trigger] targets_of(term)[e] < bs.len(),
    ensures
        blocks_wf(bs.update(k, BlockV { id: bs[k].id, stmts: bs[k].stmts, term })),
{
    let bs2 = bs.update(k, BlockV { id: bs[k].id, stmts: bs[k].stmts, term });
    assert forall|j: int| 0 <= j < bs2.len() implies #[trigger] block_wf_at(bs2, j) by {
        assert(block_wf_at(bs, j));
        if j != k {
            assert forall|e: int|
                0 <= e < targets_of(bs2[j].term).len() implies 1 <= #[trigger] targets_of(
                bs2[j].term,
            )[e] < bs2.len() by {
                assert(targets_of(bs[j].term)[e] == targets_of(bs2[j].term)[e]);
            }
        }
    }
}

/// Making sure a current block is open keeps the state well-formed.
proof fn lemma_wf_open(st: BuildState, c: int)
    requires
        state_wf(st),
    ensures
        state_wf(st_open(st, c)),
        st_open(st, c).cur is Some,
        st_open(st, c).blocks.len() >= st.blocks.len(),
        0 <= cur_id(st_open(st, c)) < st_open(st, c).blocks.len(),
{
    match st.cur {
        Some(_) => {},
        None => {
            let bs2 = st.blocks.push(fresh_block(st.blocks.len() as int));
            assert(targets_of(TermV::Unreachable).len() == 0);
            lemma_wf_extend(st.blocks, bs2);
        },
    }
}

/// Appending a statement to the open block keeps the state well-formed.
proof fn lemma_wf_append(st: BuildState, c: int)
    requires
        state_wf(st),
    ensures
        state_wf(st_append(st, c)),
        st_append(st, c).blocks.len() == st.blocks.len(),
        st_append(st, c).cur == st.cur,
    decreases 0int,
{
    match st.cur {
        Some(k) => {
            lemma_wf_restmt(st.blocks, k, st.blocks[k].stmts.push(c));
        },
        None => {},
    }
}

/// The loop-stack invariant survives growth of the block sequence.
proof fn lemma_loops_wf_mono(loops: Seq<(int, int)>, l1: int, l2: int)
    requires
        loops_wf(loops, l1),
        l1 <= l2,
    ensures
        loops_wf(loops, l2),
{
}

/// Law (entry uniqueness and edge validity, by induction over the whole
/// construction): every state the builder can produce keeps ids equal to
/// positions and every edge target inside the graph and away from the
/// entry block.
#[verifier::rlimit(100)]
pub proof fn lemma_build_stmts_wf(
    t: SyntaxTree,
    b: int,
    i: int,
    loops: Seq<(int, int)>,
    st: BuildState,
    depth: int,
)
    requires
        t.wf(),
        t.valid_node(b),
        0 <= i,
        st.blocks.len() >= 1,
        blocks_wf(st.blocks),
        cur_ok(st),
        loops_wf(loops, st.blocks.len() as int),
    ensures
        match build_stmts_spec(t, b, i, loops, st, depth) {
            Ok(st2) => st2.blocks.len() >= st.blocks.len() && blocks_wf(st2.blocks) && cur_ok(
                st2,
            ),
            Err(_) => true,
        },
    decreases t.node_count() - b, t.num_children(b) - i,
{
    if depth <= 0 {
    } else if i >= t.num_children(b) {
    } else {
        assert(t.wf_child(b, i));
        let c = t.child(b, i);
        match t.kind_of(c) {
            NodeKind::ExpressionStatement | NodeKind::PassStatement
                | NodeKind::FunctionDefinition => {
                let st1 = st_open(st, c);
                lemma_wf_open(st, c);
                let st2 = st_append(st1, c);
                lemma_wf_append(st1, c);
                lemma_loops_wf_mono(loops, st.blocks.len() as int, st2.blocks.len() as int);
                lemma_build_stmts_wf(t, b, i + 1, loops, st2, depth);
            },
            NodeKind::ReturnStatement => {
                let st1 = st_append(st_open(st, c), c);
                lemma_wf_open(st, c);
                lemma_wf_append(st_open(st, c), c);
                let value = if t.num_children(c) >= 1 {
                    Some(t.child(c, 0))
                } else {
                    None
                };
                assert(targets_of(TermV::Return { value }).len() == 0);
                lemma_wf_close(st1.blocks, cur_id(st1), TermV::Return { value });
                let st2 = set_cur(st_close(st1, cur_id(st1), TermV::Return { value }), None);
                lemma_loops_wf_mono(loops, st.blocks.len() as int, st2.blocks.len() as int);
                lemma_build_stmts_wf(t, b, i + 1, loops, st2, depth);
            },
            NodeKind::BreakStatement => {
                if loops.len() > 0 {
                    let st1 = st_append(st_open(st, c), c);
                    lemma_wf_open(st, c);
                    lemma_wf_append(st_open(st, c), c);
                    let term = TermV::Jump { target: loops.last().1 };
                    assert(targets_of(term) == seq![loops.last().1]);
                    assert(loops_wf(loops, st.blocks.len() as int));
                    assert(1 <= loops.last().1 < st.blocks.len());
                    lemma_wf_close(st1.blocks, cur_id(st1), term);
                    let st2 = set_cur(st_close(st1, cur_id(st1), term), None);
                    lemma_loops_wf_mono(loops, st.blocks.len() as int, st2.blocks.len() as int);
                    lemma_build_stmts_wf(t, b, i + 1, loops, st2, depth);
                }
            },
            NodeKind::ContinueStatement => {
                if loops.len() > 0 {
                    let st1 = st_append(st_open(st, c), c);
                    lemma_wf_open(st, c);
                    lemma_wf_append(st_open(st, c), c);
                    let term = TermV::Jump { target: loops.last().0 };
                    assert(targets_of(term) == seq![loops.last().0]);
                    assert(1 <= loops.last().0 < st.blocks.len());
                    lemma_wf_close(st1.blocks, cur_id(st1), term);
                    let st2 = set_cur(st_close(st1, cur_id(st1), term), None);
                    lemma_loops_wf_mono(loops, st.blocks.len() as int, st2.blocks.len() as int);
                    lemma_build_stmts_wf(t, b, i + 1, loops, st2, depth);
                }
            },
            NodeKind::IfStatement => {
                lemma_field_child_range(t, c, 0, FieldTag::Condition);
                lemma_field_child_range(t, c, 0, FieldTag::Consequence);
                lemma_field_child_range(t, c, 0, FieldTag::Alternative);
                match (t.child_with_field(c, FieldTag::Condition), t.child_with_field(
                    c,
                    FieldTag::Consequence,
                )) {
                    (Some(cond), Some(thenb)) => {
                        match t.child_with_field(c, FieldTag::Alternative) {
                            None => {
                                let st1 = st_open(st, c);
                                lemma_wf_open(st, c);
                                let a = st1.blocks.len() as int;
                                let st2 = BuildState {
                                    blocks: st1.blocks.push(fresh_block(a)).push(
                                        fresh_block(a + 1),
                                    ),
                                    cur: st1.cur,
                                    diags: st1.diags,
                                };
                                assert(targets_of(TermV::Unreachable).len() == 0);
                                lemma_wf_extend(st1.blocks, st2.blocks);
                                let brt = TermV::Branch {
                                    cond,
                                    then_target: a,
                                    else_target: a + 1,
                                };
                                assert(targets_of(brt) == seq![a, a + 1]);
                                lemma_wf_close(st2.blocks, cur_id(st1), brt);
                                let st3 = set_cur(st_close(st2, cur_id(st1), brt), Some(a));
                                lemma_loops_wf_mono(
                                    loops,
                                    st.blocks.len() as int,
                                    st3.blocks.len() as int,
                                );
                                lemma_build_stmts_wf(t, thenb, 0, loops, st3, depth - 1);
                                match build_stmts_spec(t, thenb, 0, loops, st3, depth - 1) {
                                    Err(_) => {},
                                    Ok(st_then) => {
                                        let st4 = set_cur(
                                            st_merge_arm(st_then, st_then.cur, a + 1),
                                            Some(a + 1),
                                        );
                                        match st_then.cur {
                                            Some(x) => {
                                                let ft = TermV::Fallthrough { target: a + 1 };
                                                assert(targets_of(ft) == seq![a + 1]);
                                                lemma_wf_close(st_then.blocks, x, ft);
                                            },
                                            None => {},
                                        }
                                        lemma_loops_wf_mono(
                                            loops,
                                            st.blocks.len() as int,
                                            st4.blocks.len() as int,
                                        );
                                        lemma_build_stmts_wf(t, b, i + 1, loops, st4, depth);
                                    },
                                }
                            },
                            Some(alt) => {
                                lemma_field_child_range(t, alt, 0, FieldTag::Body);
                                if t.kind_of(alt) is ElseClause {
                                    match t.child_with_field(alt, FieldTag::Body) {
                                        None => {},
                                        Some(elseb) => {
                                            let st1 = st_open(st, c);
                                            lemma_wf_open(st, c);
                                            let a = st1.blocks.len() as int;
                                            let st2 = BuildState {
                                                blocks: st1.blocks.push(fresh_block(a)).push(
                                                    fresh_block(a + 1),
                                                ),
                                                cur: st1.cur,
                                                diags: st1.diags,
                                            };
                                            assert(targets_of(TermV::Unreachable).len() == 0);
                                            lemma_wf_extend(st1.blocks, st2.blocks);
                                            let brt = TermV::Branch {
                                                cond,
                                                then_target: a,
                                                else_target: a + 1,
                                            };
                                            assert(targets_of(brt) == seq![a, a + 1]);
                                            lemma_wf_close(st2.blocks, cur_id(st1), brt);
                                            let st3 = set_cur(
                                                st_close(st2, cur_id(st1), brt),
                                                Some(a),
                                            );
                                            lemma_loops_wf_mono(
                                                loops,
                                                st.blocks.len() as int,
                                                st3.blocks.len() as int,
                                            );
                                            lemma_build_stmts_wf(t, thenb, 0, loops, st3, depth - 1);
                                            match build_stmts_spec(t, thenb, 0, loops, st3, depth - 1) {
                                                Err(_) => {},
                                                Ok(st_then) => {
                                                    lemma_loops_wf_mono(
                                                        loops,
                                                        st.blocks.len() as int,
                                                        st_then.blocks.len() as int,
                                                    );
                                                    lemma_build_stmts_wf(
                                                        t,
                                                        elseb,
                                                        0,
                                                        loops,
                                                        set_cur(st_then, Some(a + 1)),
                                                        depth - 1,
                                                    );
                                                    match build_stmts_spec(
                                                        t,
                                                        elseb,
                                                        0,
                                                        loops,
                                                        set_cur(st_then, Some(a + 1)),
                                                        depth - 1,
                                                    ) {
                                                        Err(_) => {},
                                                        Ok(st_else) => {
                                                            if st_then.cur is None
                                                                && st_else.cur is None {
                                                                lemma_loops_wf_mono(
                                                                    loops,
                                                                    st.blocks.len() as int,
                                                                    st_else.blocks.len() as int,
                                                                );
                                                                lemma_build_stmts_wf(
                                                                    t,
                                                                    b,
                                                                    i + 1,
                                                                    loops,
                                                                    set_cur(st_else, None),
                                                                    depth,
                                                                );
                                                            } else {
                                                                let m =
                                                                    st_else.blocks.len() as int;
                                                                let st4 = BuildState {
                                                                    blocks: st_else.blocks.push(
                                                                        fresh_block(m),
                                                                    ),
                                                                    cur: st_else.cur,
                                                                    diags: st_else.diags,
                                                                };
                                                                assert(targets_of(
                                                                    TermV::Unreachable,
                                                                ).len() == 0);
                                                                lemma_wf_extend(
                                                                    st_else.blocks,
                                                                    st4.blocks,
                                                                );
                                                                let ft = TermV::Fallthrough {
                                                                    target: m,
                                                                };
                                                                assert(targets_of(ft)
                                                                    == seq![m]);
                                                                let st5 = st_merge_arm(
                                                                    st4,
                                                                    st_then.cur,
                                                                    m,
                                                                );
                                                                match st_then.cur {
                                                                    Some(x) => {
                                                                        lemma_wf_close(
                                                                            st4.blocks,
                                                                            x,
                                                                            ft,
                                                                        );
                                                                    },
                                                                    None => {},
                                                                }
                                                                let st6 = st_merge_arm(
                                                                    st5,
                                                                    st_else.cur,
                                                                    m,
                                                                );
                                                                match st_else.cur {
                                                                    Some(x) => {
                                                                        lemma_wf_close(
                                                                            st5.blocks,
                                                                            x,
                                                                            ft,
                                                                        );
                                                                    },
                                                                    None => {},
                                                                }
                                                                lemma_loops_wf_mono(
                                                                    loops,
                                                                    st.blocks.len() as int,
                                                                    st6.blocks.len() as int,
                                                                );
                                                                lemma_build_stmts_wf(
                                                                    t,
                                                                    b,
                                                                    i + 1,
                                                                    loops,
                                                                    set_cur(st6, Some(m)),
                                                                    depth,
                                                                );
                                                            }
                                                        },
                                                    }
                                                },
                                            }
                                        },
                                    }
                                }
                            },
                        }
                    },
                    _ => {},
                }
            },
            NodeKind::WhileStatement => {
                lemma_field_child_range(t, c, 0, FieldTag::Condition);
                lemma_field_child_range(t, c, 0, FieldTag::Body);
                match (t.child_with_field(c, FieldTag::Condition), t.child_with_field(
                    c,
                    FieldTag::Body,
                )) {
                    (Some(cond), Some(bodyb)) => {
                        let st1 = st_open(st, c);
                        lemma_wf_open(st, c);
                        let h = st1.blocks.len() as int;
                        let header = BlockV {
                            id: h,
                            stmts: Seq::empty(),
                            term: TermV::Branch {
                                cond,
                                then_target: h + 1,
                                else_target: h + 2,
                            },
                        };
                        let st2 = BuildState {
                            blocks: st1.blocks.push(header).push(fresh_block(h + 1)).push(
                                fresh_block(h + 2),
                            ),
                            cur: st1.cur,
                            diags: st1.diags,
                        };
                        assert(targets_of(header.term) == seq![h + 1, h + 2]);
                        assert(targets_of(TermV::Unreachable).len() == 0);
                        lemma_wf_extend(st1.blocks, st2.blocks);
                        let jt = TermV::Jump { target: h };
                        assert(targets_of(jt) == seq![h]);
                        lemma_wf_close(st2.blocks, cur_id(st1), jt);
                        let st3 = set_cur(st_close(st2, cur_id(st1), jt), Some(h + 1));
                        let loops2 = loops.push((h, h + 2));
                        lemma_loops_wf_mono(loops, st.blocks.len() as int, st3.blocks.len() as int);
                        assert(loops_wf(loops2, st3.blocks.len() as int));
                        lemma_build_stmts_wf(t, bodyb, 0, loops2, st3, depth - 1);
                        match build_stmts_spec(t, bodyb, 0, loops2, st3, depth - 1) {
                            Err(_) => {},
                            Ok(st_body) => {
                                let st4 = match st_body.cur {
                                    Some(x) => st_close(st_body, x, jt),
                                    None => st_body,
                                };
                                match st_body.cur {
                                    Some(x) => {
                                        lemma_wf_close(st_body.blocks, x, jt);
                                    },
                                    None => {},
                                }
                                lemma_loops_wf_mono(
                                    loops,
                                    st.blocks.len() as int,
                                    st4.blocks.len() as int,
                                );
                                lemma_build_stmts_wf(
                                    t,
                                    b,
                                    i + 1,
                                    loops,
                                    set_cur(st4, Some(h + 2)),
                                    depth,
                                );
                            },
                        }
                    },
                    _ => {},
                }
            },
            _ => {},
        }
    }
}

/// Law (entry uniqueness and edge validity for a whole build): a built
/// graph's blocks have their position as id, and every edge target names an
/// existing block other than the entry — so the entry block has no
/// predecessors, and no edge dangles.
pub proof fn lemma_build_cfg_wf(t: SyntaxTree, body: int)
    requires
        t.wf(),
        t.valid_node(body),
    ensures
        match build_cfg_spec(t, body) {
            Ok(pair) => pair.0.len() >= 1 && blocks_wf(pair.0),
            Err(_) => true,
        },
{
    let st0 = BuildState {
        blocks: seq![fresh_block(0)],
        cur: Some(0),
        diags: Seq::empty(),
    };
    assert(targets_of(TermV::Unreachable).len() == 0);
    assert(blocks_wf(st0.blocks)) by {
        assert forall|j: int| 0 <= j < st0.blocks.len() implies #[trigger] block_wf_at(
            st0.blocks,
            j,
        ) by {
            assert(st0.blocks[0] == fresh_block(0));
        }
    }
    lemma_build_stmts_wf(t, body, 0, Seq::empty(), st0, BUILD_DEPTH_LIMIT as int);
}

/// The construction is append-only: `st2` extends `st`, and the only block
/// of `st` it may have rewritten is the one that was open as current; the
/// new current block, if any, is the old one or a newly created one.
pub open spec fn frame_ok(st: BuildState, st2: BuildState) -> bool {
    &&& st2.blocks.len() >= st.blocks.len()
    &&& forall|j: int|
        0 <= j < st.blocks.len() && Some(j) != st.cur ==> st2.blocks[j] == #[trigger] st.blocks[j]
    &&& match st2.cur {
        Some(k2) => 0 <= k2 < st2.blocks.len() && (Some(k2) == st.cur || k2
            >= st.blocks.len()),
        None => true,
    }
}

/// `frame_ok` is reflexive on states whose current block exists.
proof fn lemma_frame_refl(st: BuildState)
    requires
        cur_ok(st),
    ensures
        frame_ok(st, st),
{
}

/// `frame_ok` composes.
proof fn lemma_frame_trans(st: BuildState, st2: BuildState, st3: BuildState)
    requires
        frame_ok(st, st2),
        frame_ok(st2, st3),
    ensures
        frame_ok(st, st3),
{
    assert forall|j: int|
        0 <= j < st.blocks.len() && Some(j) != st.cur implies st3.blocks[j]
        == #[trigger] st.blocks[j] by {
        assert(st2.blocks[j] == st.blocks[j]);
        assert(Some(j) != st2.cur);
    }
}

/// Law (append-only construction, by induction over the whole build): the
/// builder never removes a block, and never rewrites a block other than the
/// one that was open as current when it started.
pub proof fn lemma_build_stmts_frame(
    t: SyntaxTree,
    b: int,
    i: int,
    loops: Seq<(int, int)>,
    st: BuildState,
    depth: int,
)
    requires
        t.wf(),
        t.valid_node(b),
        0 <= i,
        cur_ok(st),
    ensures
        match build_stmts_spec(t, b, i, loops, st, depth) {
            Ok(st2) => frame_ok(st, st2),
            Err(_) => true,
        },
    decreases t.node_count() - b, t.num_children(b) - i,
{
    if depth <= 0 {
    } else if i >= t.num_children(b) {
        lemma_frame_refl(st);
    } else {
        assert(t.wf_child(b, i));
        let c = t.child(b, i);
        match t.kind_of(c) {
            NodeKind::ExpressionStatement | NodeKind::PassStatement
                | NodeKind::FunctionDefinition => {
                let st2 = st_append(st_open(st, c), c);
                assert(frame_ok(st, st2));
                lemma_build_stmts_frame(t, b, i + 1, loops, st2, depth);
                match build_stmts_spec(t, b, i + 1, loops, st2, depth) {
                    Ok(stf) => {
                        lemma_frame_trans(st, st2, stf);
                    },
                    Err(_) => {},
                }
            },
            NodeKind::ReturnStatement => {
                let st1 = st_append(st_open(st, c), c);
                let value = if t.num_children(c) >= 1 {
                    Some(t.child(c, 0))
                } else {
                    None
                };
                let st2 = set_cur(st_close(st1, cur_id(st1), TermV::Return { value }), None);
                assert(frame_ok(st, st2));
                lemma_build_stmts_frame(t, b, i + 1, loops, st2, depth);
                match build_stmts_spec(t, b, i + 1, loops, st2, depth) {
                    Ok(stf) => {
                        lemma_frame_trans(st, st2, stf);
                    },
                    Err(_) => {},
                }
            },
            NodeKind::BreakStatement => {
                if loops.len() > 0 {
                    let st1 = st_append(st_open(st, c), c);
                    let st2 = set_cur(
                        st_close(st1, cur_id(st1), TermV::Jump { target: loops.last().1 }),
                        None,
                    );
                    assert(frame_ok(st, st2));
                    lemma_build_stmts_frame(t, b, i + 1, loops, st2, depth);
                    match build_stmts_spec(t, b, i + 1, loops, st2, depth) {
                        Ok(stf) => {
                            lemma_frame_trans(st, st2, stf);
                        },
                        Err(_) => {},
                    }
                }
            },
            NodeKind::ContinueStatement => {
                if loops.len() > 0 {
                    let st1 = st_append(st_open(st, c), c);
                    let st2 = set_cur(
                        st_close(st1, cur_id(st1), TermV::Jump { target: loops.last().0 }),
                        None,
                    );
                    assert(frame_ok(st, st2));
                    lemma_build_stmts_frame(t, b, i + 1, loops, st2, depth);
                    match build_stmts_spec(t, b, i + 1, loops, st2, depth) {
                        Ok(stf) => {
                            lemma_frame_trans(st, st2, stf);
                        },
                        Err(_) => {},
                    }
                }
            },
            NodeKind::IfStatement => {
                lemma_field_child_range(t, c, 0, FieldTag::Condition);
                lemma_field_child_range(t, c, 0, FieldTag::Consequence);
                lemma_field_child_range(t, c, 0, FieldTag::Alternative);
                match (t.child_with_field(c, FieldTag::Condition), t.child_with_field(
                    c,
                    FieldTag::Consequence,
                )) {
                    (Some(cond), Some(thenb)) => {
                        match t.child_with_field(c, FieldTag::Alternative) {
                            None => {
                                let st1 = st_open(st, c);
                                let a = st1.blocks.len() as int;
                                let st2 = BuildState {
                                    blocks: st1.blocks.push(fresh_block(a)).push(
                                        fresh_block(a + 1),
                                    ),
                                    cur: st1.cur,
                                    diags: st1.diags,
                                };
                                let st3 = set_cur(
                                    st_close(
                                        st2,
                                        cur_id(st1),
                                        TermV::Branch {
                                            cond,
                                            then_target: a,
                                            else_target: a + 1,
                                        },
                                    ),
                                    Some(a),
                                );
                                assert(frame_ok(st, st3));
                                lemma_build_stmts_frame(t, thenb, 0, loops, st3, depth - 1);
                                match build_stmts_spec(t, thenb, 0, loops, st3, depth - 1) {
                                    Err(_) => {},
                                    Ok(st_then) => {
                                        lemma_frame_trans(st, st3, st_then);
                                        let st4 = set_cur(
                                            st_merge_arm(st_then, st_then.cur, a + 1),
                                            Some(a + 1),
                                        );
                                        assert(frame_ok(st, st4)) by {
                                            assert forall|j: int|
                                                0 <= j < st.blocks.len() && Some(j) != st.cur
                                                    implies st4.blocks[j]
                                                    == #[trigger] st.blocks[j] by {
                                                assert(st_then.blocks[j] == st.blocks[j]);
                                                match st_then.cur {
                                                    Some(x1) => {
                                                        assert(j != x1);
                                                    },
                                                    None => {},
                                                }
                                            }
                                            assert(a + 1 >= st.blocks.len());
                                        };
                                        lemma_build_stmts_frame(t, b, i + 1, loops, st4, depth);
                                        match build_stmts_spec(t, b, i + 1, loops, st4, depth) {
                                            Ok(stf) => {
                                                lemma_frame_trans(st, st4, stf);
                                            },
                                            Err(_) => {},
                                        }
                                    },
                                }
                            },
                            Some(alt) => {
                                lemma_field_child_range(t, alt, 0, FieldTag::Body);
                                if t.kind_of(alt) is ElseClause {
                                    match t.child_with_field(alt, FieldTag::Body) {
                                        None => {},
                                        Some(elseb) => {
                                            let st1 = st_open(st, c);
                                            let a = st1.blocks.len() as int;
                                            let st2 = BuildState {
                                                blocks: st1.blocks.push(fresh_block(a)).push(
                                                    fresh_block(a + 1),
                                                ),
                                                cur: st1.cur,
                                                diags: st1.diags,
                                            };
                                            let st3 = set_cur(
                                                st_close(
                                                    st2,
                                                    cur_id(st1),
                                                    TermV::Branch {
                                                        cond,
                                                        then_target: a,
                                                        else_target: a + 1,
                                                    },
                                                ),
                                                Some(a),
                                            );
                                            assert(frame_ok(st, st3));
                                            lemma_build_stmts_frame(
                                                t,
                                                thenb,
                                                0,
                                                loops,
                                                st3,
                                                depth - 1,
                                            );
                                            match build_stmts_spec(t, thenb, 0, loops, st3, depth - 1) {
                                                Err(_) => {},
                                                Ok(st_then) => {
                                                    lemma_frame_trans(st, st3, st_then);
                                                    let st_e0 = set_cur(st_then, Some(a + 1));
                                                    assert(frame_ok(st, st_e0)) by {
                                                        assert(a + 1 >= st.blocks.len());
                                                    };
                                                    lemma_build_stmts_frame(
                                                        t,
                                                        elseb,
                                                        0,
                                                        loops,
                                                        st_e0,
                                                        depth - 1,
                                                    );
                                                    match build_stmts_spec(
                                                        t,
                                                        elseb,
                                                        0,
                                                        loops,
                                                        st_e0,
                                                        depth - 1,
                                                    ) {
                                                        Err(_) => {},
                                                        Ok(st_else) => {
                                                            lemma_frame_trans(
                                                                st,
                                                                st_e0,
                                                                st_else,
                                                            );
                                                            if st_then.cur is None
                                                                && st_else.cur is None {
                                                                let st7 = set_cur(st_else, None);
                                                                assert(frame_ok(st_else, st7));
                                                                lemma_frame_trans(
                                                                    st,
                                                                    st_else,
                                                                    st7,
                                                                );
                                                                lemma_build_stmts_frame(
                                                                    t,
                                                                    b,
                                                                    i + 1,
                                                                    loops,
                                                                    st7,
                                                                    depth,
                                                                );
                                                                match build_stmts_spec(
                                                                    t,
                                                                    b,
                                                                    i + 1,
                                                                    loops,
                                                                    st7,
                                                                    depth,
                                                                ) {
                                                                    Ok(stf) => {
                                                                        lemma_frame_trans(
                                                                            st,
                                                                            st7,
                                                                            stf,
                                                                        );
                                                                    },
                                                                    Err(_) => {},
                                                                }
                                                            } else {
                                                                let m =
                                                                    st_else.blocks.len() as int;
                                                                let st4 = BuildState {
                                                                    blocks: st_else.blocks.push(
                                                                        fresh_block(m),
                                                                    ),
                                                                    cur: st_else.cur,
                                                                    diags: st_else.diags,
                                                                };
                                                                let st5 = st_merge_arm(
                                                                    st4,
                                                                    st_then.cur,
                                                                    m,
                                                                );
                                                                let st6 = st_merge_arm(
                                                                    st5,
                                                                    st_else.cur,
                                                                    m,
                                                                );
                                                                let st7 = set_cur(st6, Some(m));
                                                                assert(frame_ok(st, st7)) by {
                                                                    assert forall|j: int|
                                                                        0 <= j < st.blocks.len()
                                                                            && Some(j) != st.cur
                                                                            implies st7.blocks[j]
                                                                            == #[trigger] st.blocks[j] by {
                                                                        assert(st_else.blocks[j]
                                                                            == st.blocks[j]);
                                                                        match st_then.cur {
                                                                            Some(x1) => {
                                                                                assert(j != x1);
                                                                            },
                                                                            None => {},
                                                                        }
                                                                        match st_else.cur {
                                                                            Some(x2) => {
                                                                                assert(j != x2);
                                                                            },
                                                                            None => {},
                                                                        }
                                                                    }
                                                                    assert(m >= st.blocks.len());
                                                                };
                                                                lemma_build_stmts_frame(
                                                                    t,
                                                                    b,
                                                                    i + 1,
                                                                    loops,
                                                                    st7,
                                                                    depth,
                                                                );
                                                                match build_stmts_spec(
                                                                    t,
                                                                    b,
                                                                    i + 1,
                                                                    loops,
                                                                    st7,
                                                                    depth,
                                                                ) {
                                                                    Ok(stf) => {
                                                                        lemma_frame_trans(
                                                                            st,
                                                                            st7,
                                                                            stf,
                                                                        );
                                                                    },
                                                                    Err(_) => {},
                                                                }
                                                            }
                                                        },
                                                    }
                                                },
                                            }
                                        },
                                    }
                                }
                            },
                        }
                    },
                    _ => {},
                }
            },
            NodeKind::WhileStatement => {
                lemma_field_child_range(t, c, 0, FieldTag::Condition);
                lemma_field_child_range(t, c, 0, FieldTag::Body);
                match (t.child_with_field(c, FieldTag::Condition), t.child_with_field(
                    c,
                    FieldTag::Body,
                )) {
                    (Some(cond), Some(bodyb)) => {
                        let st1 = st_open(st, c);
                        let h = st1.blocks.len() as int;
                        let st2 = BuildState {
                            blocks: st1.blocks.push(
                                BlockV {
                                    id: h,
                                    stmts: Seq::empty(),
                                    term: TermV::Branch {
                                        cond,
                                        then_target: h + 1,
                                        else_target: h + 2,
                                    },
                                },
                            ).push(fresh_block(h + 1)).push(fresh_block(h + 2)),
                            cur: st1.cur,
                            diags: st1.diags,
                        };
                        let st3 = set_cur(
                            st_close(st2, cur_id(st1), TermV::Jump { target: h }),
                            Some(h + 1),
                        );
                        assert(frame_ok(st, st3));
                        let loops2 = loops.push((h, h + 2));
                        lemma_build_stmts_frame(t, bodyb, 0, loops2, st3, depth - 1);
                        match build_stmts_spec(t, bodyb, 0, loops2, st3, depth - 1) {
                            Err(_) => {},
                            Ok(st_body) => {
                                lemma_frame_trans(st, st3, st_body);
                                let st4 = match st_body.cur {
                                    Some(x) => st_close(st_body, x, TermV::Jump { target: h }),
                                    None => st_body,
                                };
                                let st5 = set_cur(st4, Some(h + 2));
                                assert(frame_ok(st, st5)) by {
                                    assert forall|j: int|
                                        0 <= j < st.blocks.len() && Some(j) != st.cur
                                            implies st5.blocks[j] == #[trigger] st.blocks[j] by {
                                        assert(st_body.blocks[j] == st.blocks[j]);
                                        match st_body.cur {
                                            Some(x) => {
                                                assert(j != x);
                                            },
                                            None => {},
                                        }
                                    }
                                    assert(h + 2 >= st.blocks.len());
                                };
                                lemma_build_stmts_frame(t, b, i + 1, loops, st5, depth);
                                match build_stmts_spec(t, b, i + 1, loops, st5, depth) {
                                    Ok(stf) => {
                                        lemma_frame_trans(st, st5, stf);
                                    },
                                    Err(_) => {},
                                }
                            },
                        }
                    },
                    _ => {},
                }
            },
            _ => {},
        }
    }
}

/// Law (branch symmetry): take a conditional with an else clause, standing
/// at position `i` among the statements of `b`. If neither arm exits early
/// — both sub-builds leave their last block open — then the builder closes
/// both arms' exit blocks with a `Fallthrough` into one and the same merge
/// block, and those edges still stand in the state the whole statement walk
/// returns.
pub proof fn lemma_branch_symmetry(
    t: SyntaxTree,
    b: int,
    i: int,
    loops: Seq<(int, int)>,
    st: BuildState,
    depth: int,
    cond: int,
    thenb: int,
    alt: int,
    elseb: int,
)
    requires
        t.wf(),
        t.valid_node(b),
        0 <= i < t.num_children(b),
        cur_ok(st),
        depth > 0,
        t.kind_of(t.child(b, i)) is IfStatement,
        t.child_with_field(t.child(b, i), FieldTag::Condition) == Some(cond),
        t.child_with_field(t.child(b, i), FieldTag::Consequence) == Some(thenb),
        t.child_with_field(t.child(b, i), FieldTag::Alternative) == Some(alt),
        t.kind_of(alt) is ElseClause,
        t.child_with_field(alt, FieldTag::Body) == Some(elseb),
    ensures
        ({
            let c = t.child(b, i);
            let st1 = st_open(st, c);
            let a = st1.blocks.len() as int;
            let st2 = BuildState {
                blocks: st1.blocks.push(fresh_block(a)).push(fresh_block(a + 1)),
                cur: st1.cur,
                diags: st1.diags,
            };
            let st3 = set_cur(
                st_close(
                    st2,
                    cur_id(st1),
                    TermV::Branch { cond, then_target: a, else_target: a + 1 },
                ),
                Some(a),
            );
            match build_stmts_spec(t, thenb, 0, loops, st3, depth - 1) {
                Ok(st_then) => match build_stmts_spec(
                    t,
                    elseb,
                    0,
                    loops,
                    set_cur(st_then, Some(a + 1)),
                    depth - 1,
                ) {
                    Ok(st_else) => (st_then.cur is Some && st_else.cur is Some) ==> {
                        let m = st_else.blocks.len() as int;
                        let x1 = cur_id(st_then);
                        let x2 = cur_id(st_else);
                        match build_stmts_spec(t, b, i, loops, st, depth) {
                            Ok(stf) => x1 != x2 && stf.blocks[x1].term == TermV::Fallthrough {
                                target: m,
                            } && stf.blocks[x2].term == TermV::Fallthrough { target: m },
                            Err(_) => true,
                        }
                    },
                    Err(_) => true,
                },
                Err(_) => true,
            }
        }),
{
    assert(t.wf_child(b, i));
    let c = t.child(b, i);
    lemma_field_child_range(t, c, 0, FieldTag::Condition);
    lemma_field_child_range(t, c, 0, FieldTag::Consequence);
    lemma_field_child_range(t, c, 0, FieldTag::Alternative);
    lemma_field_child_range(t, alt, 0, FieldTag::Body);
    let st1 = st_open(st, c);
    let a = st1.blocks.len() as int;
    let st2 = BuildState {
        blocks: st1.blocks.push(fresh_block(a)).push(fresh_block(a + 1)),
        cur: st1.cur,
        diags: st1.diags,
    };
    let st3 = set_cur(
        st_close(st2, cur_id(st1), TermV::Branch { cond, then_target: a, else_target: a + 1 }),
        Some(a),
    );
    match build_stmts_spec(t, thenb, 0, loops, st3, depth - 1) {
        Err(_) => {},
        Ok(st_then) => {
            lemma_build_stmts_frame(t, thenb, 0, loops, st3, depth - 1);
            let st_e0 = set_cur(st_then, Some(a + 1));
            match build_stmts_spec(t, elseb, 0, loops, st_e0, depth - 1) {
                Err(_) => {},
                Ok(st_else) => {
                    lemma_build_stmts_frame(t, elseb, 0, loops, st_e0, depth - 1);
                    if st_then.cur is Some && st_else.cur is Some {
                        let m = st_else.blocks.len() as int;
                        let x1 = cur_id(st_then);
                        let x2 = cur_id(st_else);
                        assert(x1 < st_then.blocks.len());
                        assert(x2 < st_else.blocks.len());
                        assert(x1 != x2) by {
                            assert(Some(x1) == st3.cur || x1 >= st3.blocks.len());
                            assert(Some(x2) == st_e0.cur || x2 >= st_e0.blocks.len());
                        };
                        let st4 = BuildState {
                            blocks: st_else.blocks.push(fresh_block(m)),
                            cur: st_else.cur,
                            diags: st_else.diags,
                        };
                        let st5 = st_merge_arm(st4, st_then.cur, m);
                        let st6 = st_merge_arm(st5, st_else.cur, m);
                        let st7 = set_cur(st6, Some(m));
                        assert(st6.blocks[x1].term == TermV::Fallthrough { target: m });
                        assert(st6.blocks[x2].term == TermV::Fallthrough { target: m });
                        assert(cur_ok(st7));
                        lemma_build_stmts_frame(t, b, i + 1, loops, st7, depth);
                        match build_stmts_spec(t, b, i + 1, loops, st7, depth) {
                            Ok(stf) => {
                                assert(stf.blocks[x1] == st7.blocks[x1]);
                                assert(stf.blocks[x2] == st7.blocks[x2]);
                            },
                            Err(_) => {},
                        }
                    }
                },
            }
        },
    }
}

/// Law (loop back-edge): take a loop standing at position `i` among the
/// statements of `b`. The builder gives the loop a header block whose
/// branch enters the body seed on the continue side and the loop exit
/// otherwise, and — whenever the body's build leaves its last block open —
/// closes that block with a `Jump` back to the header. Both facts still
/// stand in the state the whole statement walk returns.
pub proof fn lemma_loop_back_edge(
    t: SyntaxTree,
    b: int,
    i: int,
    loops: Seq<(int, int)>,
    st: BuildState,
    depth: int,
    cond: int,
    bodyb: int,
)
    requires
        t.wf(),
        t.valid_node(b),
        0 <= i < t.num_children(b),
        cur_ok(st),
        depth > 0,
        t.kind_of(t.child(b, i)) is WhileStatement,
        t.child_with_field(t.child(b, i), FieldTag::Condition) == Some(cond),
        t.child_with_field(t.child(b, i), FieldTag::Body) == Some(bodyb),
    ensures
        ({
            let c = t.child(b, i);
            let st1 = st_open(st, c);
            let h = st1.blocks.len() as int;
            let st2 = BuildState {
                blocks: st1.blocks.push(
                    BlockV {
                        id: h,
                        stmts: Seq::empty(),
                        term: TermV::Branch { cond, then_target: h + 1, else_target: h + 2 },
                    },
                ).push(fresh_block(h + 1)).push(fresh_block(h + 2)),
                cur: st1.cur,
                diags: st1.diags,
            };
            let st3 = set_cur(st_close(st2, cur_id(st1), TermV::Jump { target: h }), Some(h + 1));
            match build_stmts_spec(t, bodyb, 0, loops.push((h, h + 2)), st3, depth - 1) {
                Ok(st_body) => match build_stmts_spec(t, b, i, loops, st, depth) {
                    Ok(stf) => stf.blocks[h].term == TermV::Branch {
                        cond,
                        then_target: h + 1,
                        else_target: h + 2,
                    } && (st_body.cur is Some ==> stf.blocks[cur_id(st_body)].term == TermV::Jump {
                        target: h,
                    }),
                    Err(_) => true,
                },
                Err(_) => true,
            }
        }),
{
    assert(t.wf_child(b, i));
    let c = t.child(b, i);
    lemma_field_child_range(t, c, 0, FieldTag::Condition);
    lemma_field_child_range(t, c, 0, FieldTag::Body);
    let st1 = st_open(st, c);
    let h = st1.blocks.len() as int;
    let header = BlockV {
        id: h,
        stmts: Seq::empty(),
        term: TermV::Branch { cond, then_target: h + 1, else_target: h + 2 },
    };
    let st2 = BuildState {
        blocks: st1.blocks.push(header).push(fresh_block(h + 1)).push(fresh_block(h + 2)),
        cur: st1.cur,
        diags: st1.diags,
    };
    let st3 = set_cur(st_close(st2, cur_id(st1), TermV::Jump { target: h }), Some(h + 1));
    assert(cur_id(st1) < h);
    assert(st3.blocks[h].term == header.term);
    let loops2 = loops.push((h, h + 2));
    match build_stmts_spec(t, bodyb, 0, loops2, st3, depth - 1) {
        Err(_) => {},
        Ok(st_body) => {
            lemma_build_stmts_frame(t, bodyb, 0, loops2, st3, depth - 1);
            assert(st_body.blocks[h] == st3.blocks[h]);
            let st4 = match st_body.cur {
                Some(x) => st_close(st_body, x, TermV::Jump { target: h }),
                None => st_body,
            };
            let st5 = set_cur(st4, Some(h + 2));
            assert(cur_ok(st5));
            match st_body.cur {
                Some(x) => {
                    assert(Some(x) == st3.cur || x >= st3.blocks.len());
                    assert(x != h);
                    assert(st4.blocks[x].term == TermV::Jump { target: h });
                    assert(st4.blocks[h] == st_body.blocks[h]);
                },
                None => {},
            }
            lemma_build_stmts_frame(t, b, i + 1, loops, st5, depth);
            match build_stmts_spec(t, b, i + 1, loops, st5, depth) {
                Ok(stf) => {
                    assert(stf.blocks[h] == st5.blocks[h]);
                    match st_body.cur {
                        Some(x) => {
                            assert(x != h + 2);
                            assert(stf.blocks[x] == st5.blocks[x]);
                        },
                        None => {},
                    }
                },
                Err(_) => {},
            }
        },
    }
}

/// There is an edge from block `x` to block `y`.
pub open spec fn is_edge(bs: Seq<BlockV>, x: int, y: int) -> bool {
    0 <= x < bs.len() && targets_of(bs[x].term).contains(y)
}

/// `p` is a path along successor edges.
pub open spec fn is_path(bs: Seq<BlockV>, p: Seq<int>) -> bool {
    p.len() >= 1 && forall|j: int| 0 <= j < p.len() - 1 ==> is_edge(bs, #[trigger] p[j], p[j + 1])
}

/// Element `j` of a path from the entry is an existing block.
proof fn lemma_path_elem(bs: Seq<BlockV>, p: Seq<int>, j: int)
    requires
        blocks_wf(bs),
        bs.len() >= 1,
        is_path(bs, p),
        p[0] == 0,
        0 <= j < p.len(),
    ensures
        0 <= p[j] < bs.len(),
    decreases j,
{
    if j > 0 {
        lemma_path_elem(bs, p, j - 1);
        assert(is_edge(bs, p[j - 1], p[j]));
        let y = p[j];
        let e = choose|e: int|
            0 <= e < targets_of(bs[p[j - 1]].term).len() && #[trigger] targets_of(
                bs[p[j - 1]].term,
            )[e] == y;
        assert(block_wf_at(bs, p[j - 1]));
        assert(block_targets_ok(bs, p[j - 1]));
        assert(1 <= targets_of(bs[p[j - 1]].term)[e] < bs.len());
    }
}

/// Law (reachability closure): following successor edges from the entry of
/// a well-formed graph never leaves the graph — every reachable block is
/// present in the block collection.
pub proof fn lemma_reachable_closed(bs: Seq<BlockV>, p: Seq<int>)
    requires
        blocks_wf(bs),
        bs.len() >= 1,
        is_path(bs, p),
        p[0] == 0,
    ensures
        forall|j: int| 0 <= j < p.len() ==> 0 <= #[trigger] p[j] < bs.len(),
{
    assert forall|j: int| 0 <= j < p.len() implies 0 <= #[trigger] p[j] < bs.len() by {
        lemma_path_elem(bs, p, j);
    }
}

/// An exec current-block marker, as a value.
pub open spec fn cur_view(c: Option<usize>) -> Option<int> {
    match c {
        Some(k) => Some(k as int),
        None => None,
    }
}

/// Exec diagnostics, as values.
pub open spec fn diags_view(d: Seq<usize>) -> Seq<int> {
    d.map(|i: int, v: usize| v as int)
}

/// An exec loop stack, as values.
pub open spec fn loops_view(l: Seq<(usize, usize)>) -> Seq<(int, int)> {
    l.map(|i: int, p: (usize, usize)| (p.0 as int, p.1 as int))
}

/// The exec builder state, as a value.
pub open spec fn mk_state(blocks: Seq<BasicBlock>, cur: Option<usize>, diags: Seq<usize>) -> BuildState {
    BuildState { blocks: blocks_view(blocks), cur: cur_view(cur), diags: diags_view(diags) }
}

/// Appends a fresh open block and returns its id.
fn push_fresh(blocks: &mut Vec<BasicBlock>) -> (id: usize)
    ensures
        blocks_view(final(blocks)@) == blocks_view(old(blocks)@).push(
            fresh_block(old(blocks)@.len() as int),
        ),
        id as int == old(blocks)@.len(),
        final(blocks)@.len() == old(blocks)@.len() + 1,
{
    let id = blocks.len();
    blocks.push(BasicBlock { id, statements: Vec::new(), terminator: Terminator::Unreachable });
    proof {
        assert(blocks_view(blocks@) =~~= blocks_view(old(blocks)@).push(
            fresh_block(old(blocks)@.len() as int),
        ));
    }
    id
}

/// Overwrites the terminator of block `k`.
fn set_term(blocks: &mut Vec<BasicBlock>, k: usize, term: Terminator)
    requires
        (k as int) < old(blocks)@.len(),
    ensures
        final(blocks)@.len() == old(blocks)@.len(),
        blocks_view(final(blocks)@) == blocks_view(old(blocks)@).update(
            k as int,
            BlockV {
                id: blocks_view(old(blocks)@)[k as int].id,
                stmts: blocks_view(old(blocks)@)[k as int].stmts,
                term: term@,
            },
        ),
{
    let mut b = blocks.remove(k);
    b.terminator = term;
    blocks.insert(k, b);
    proof {
        assert(blocks_view(blocks@) =~~= blocks_view(old(blocks)@).update(
            k as int,
            BlockV {
                id: blocks_view(old(blocks)@)[k as int].id,
                stmts: blocks_view(old(blocks)@)[k as int].stmts,
                term: term@,
            },
        ));
    }
}

/// Appends statement node `c` to block `k`.
fn append_stmt(blocks: &mut Vec<BasicBlock>, k: usize, c: usize)
    requires
        (k as int) < old(blocks)@.len(),
    ensures
        final(blocks)@.len() == old(blocks)@.len(),
        blocks_view(final(blocks)@) == blocks_view(old(blocks)@).update(
            k as int,
            BlockV {
                id: blocks_view(old(blocks)@)[k as int].id,
                stmts: blocks_view(old(blocks)@)[k as int].stmts.push(c as int),
                term: blocks_view(old(blocks)@)[k as int].term,
            },
        ),
{
    let mut b = blocks.remove(k);
    b.statements.push(c);
    blocks.insert(k, b);
    proof {
        assert(blocks_view(blocks@) =~~= blocks_view(old(blocks)@).update(
            k as int,
            BlockV {
                id: blocks_view(old(blocks)@)[k as int].id,
                stmts: blocks_view(old(blocks)@)[k as int].stmts.push(c as int),
                term: blocks_view(old(blocks)@)[k as int].term,
            },
        ));
    }
}

/// Guarantees an open current block before statement `c` is placed,
/// recording `c` as unreachable code if a fresh block must be opened.
fn ensure_open(
    blocks: &mut Vec<BasicBlock>,
    diags: &mut Vec<usize>,
    cur: Option<usize>,
    c: usize,
) -> (k: usize)
    requires
        match cur {
            Some(k0) => (k0 as int) < old(blocks)@.len(),
            None => true,
        },
    ensures
        mk_state(final(blocks)@, Some(k), final(diags)@) == st_open(
            mk_state(old(blocks)@, cur, old(diags)@),
            c as int,
        ),
        (k as int) < final(blocks)@.len(),
{
    match cur {
        Some(k0) => k0,
        None => {
            let id = push_fresh(blocks);
            diags.push(c);
            proof {
                assert(diags_view(diags@) =~= diags_view(old(diags)@).push(c as int));
            }
            id
        },
    }
}

/// The first child of `n` held by field `f`, if any.
pub fn find_field_child(t: &SyntaxTree, n: usize, f: FieldTag) -> (r: Option<usize>)
    requires
        t.wf(),
        t.valid_node(n as int),
    ensures
        match t.child_with_field(n as int, f) {
            Some(x) => r matches Some(v) && v as int == x,
            None => r is None,
        },
{
    let n_kids = t.nodes[n].children.len();
    let mut i: usize = 0;
    while i < n_kids
        invariant
            t.wf(),
            t.valid_node(n as int),
            n_kids as int == t.num_children(n as int),
            0 <= i <= n_kids,
            t.child_with_field(n as int, f) == t.child_with_field_from(n as int, i as int, f),
        decreases n_kids - i,
    {
        let c = t.nodes[n].children[i];
        proof {
            assert(t.wf_child(n as int, i as int));
            assert(t.child(n as int, i as int) == c as int);
        }
        if t.nodes[c].field == f {
            return Some(c);
        }
        i = i + 1;
    }
    None
}

/// Walks the statement children of `b`, growing the graph exactly as
/// [`build_stmts_spec`] says.
#[verifier::loop_isolation(false)]
#[verifier::rlimit(100)]
fn build_stmts(
    t: &SyntaxTree,
    b: usize,
    loops: &mut Vec<(usize, usize)>,
    depth: usize,
    blocks: &mut Vec<BasicBlock>,
    diags: &mut Vec<usize>,
    cur: Option<usize>,
) -> (res: Result<Option<usize>, AnalysisError>)
    requires
        t.wf(),
        t.valid_node(b as int),
        match cur {
            Some(k) => (k as int) < old(blocks)@.len(),
            None => true,
        },
    ensures
        final(loops)@ == old(loops)@,
        final(blocks)@.len() >= old(blocks)@.len(),
        match build_stmts_spec(
            *t,
            b as int,
            0,
            loops_view(old(loops)@),
            mk_state(old(blocks)@, cur, old(diags)@),
            depth as int,
        ) {
            Ok(st) => res matches Ok(c2) && blocks_view(final(blocks)@) == st.blocks
                && cur_view(c2) == st.cur && diags_view(final(diags)@) == st.diags && (match c2 {
                Some(k) => (k as int) < final(blocks)@.len(),
                None => true,
            }),
            Err(e) => res matches Err(err) && err@ == e,
        },
    decreases t.node_count() - b,
{
    if depth == 0 {
        return Err(AnalysisError::TraversalLimitExceeded);
    }
    proof {
        assert(loops@ == old(loops)@);
    }
    let n_stmts = t.nodes[b].children.len();
    let ghost lv = loops_view(loops@);
    let ghost goal = build_stmts_spec(
        *t,
        b as int,
        0,
        lv,
        mk_state(blocks@, cur, diags@),
        depth as int,
    );
    let ghost cur0 = cur;
    let mut cur = cur;
    let mut i: usize = 0;
    while i < n_stmts
        invariant
            t.wf(),
            t.valid_node(b as int),
            n_stmts as int == t.num_children(b as int),
            0 <= i <= n_stmts,
            depth >= 1,
            loops@ == old(loops)@,
            lv == loops_view(loops@),
            blocks@.len() >= old(blocks)@.len(),
            match cur {
                Some(k) => (k as int) < blocks@.len(),
                None => true,
            },
            goal == build_stmts_spec(
                *t,
                b as int,
                i as int,
                lv,
                mk_state(blocks@, cur, diags@),
                depth as int,
            ),
        decreases n_stmts - i,
    {
        let ghost st_i = mk_state(blocks@, cur, diags@);
        let c = t.nodes[b].children[i];
        proof {
            assert(t.wf_child(b as int, i as int));
            assert(t.child(b as int, i as int) == c as int);
        }
        match &t.nodes[c].kind {
            NodeKind::ExpressionStatement | NodeKind::PassStatement
                | NodeKind::FunctionDefinition => {
                let k = ensure_open(blocks, diags, cur, c);
                append_stmt(blocks, k, c);
                cur = Some(k);
                proof {
                    assert(mk_state(blocks@, cur, diags@) =~~= st_append(
                        st_open(st_i, c as int),
                        c as int,
                    ));
                }
            },
            NodeKind::ReturnStatement => {
                let k = ensure_open(blocks, diags, cur, c);
                append_stmt(blocks, k, c);
                let value: Option<usize> = if t.nodes[c].children.len() > 0 {
                    Some(t.nodes[c].children[0])
                } else {
                    None
                };
                proof {
                    if t.num_children(c as int) >= 1 {
                        assert(t.child(c as int, 0) == t.nodes@[c as int].children@[0] as int);
                    }
                }
                set_term(blocks, k, Terminator::Return { value });
                cur = None;
                proof {
                    let st1 = st_append(st_open(st_i, c as int), c as int);
                    let sval = if t.num_children(c as int) >= 1 {
                        Some(t.child(c as int, 0))
                    } else {
                        None
                    };
                    assert(mk_state(blocks@, cur, diags@) =~~= set_cur(
                        st_close(st1, cur_id(st1), TermV::Return { value: sval }),
                        None,
                    ));
                }
            },
            NodeKind::BreakStatement => {
                if loops.len() == 0 {
                    return Err(
                        AnalysisError::UnsupportedStatement { kind: clone_kind(&t.nodes[c].kind) },
                    );
                }
                let k = ensure_open(blocks, diags, cur, c);
                append_stmt(blocks, k, c);
                let target = loops[loops.len() - 1].1;
                set_term(blocks, k, Terminator::Jump { target });
                cur = None;
                proof {
                    assert(lv.last() == (loops@.last().0 as int, loops@.last().1 as int));
                    let st1 = st_append(st_open(st_i, c as int), c as int);
                    assert(mk_state(blocks@, cur, diags@) =~~= set_cur(
                        st_close(st1, cur_id(st1), TermV::Jump { target: lv.last().1 }),
                        None,
                    ));
                }
            },
            NodeKind::ContinueStatement => {
                if loops.len() == 0 {
                    return Err(
                        AnalysisError::UnsupportedStatement { kind: clone_kind(&t.nodes[c].kind) },
                    );
                }
                let k = ensure_open(blocks, diags, cur, c);
                append_stmt(blocks, k, c);
                let target = loops[loops.len() - 1].0;
                set_term(blocks, k, Terminator::Jump { target });
                cur = None;
                proof {
                    assert(lv.last() == (loops@.last().0 as int, loops@.last().1 as int));
                    let st1 = st_append(st_open(st_i, c as int), c as int);
                    assert(mk_state(blocks@, cur, diags@) =~~= set_cur(
                        st_close(st1, cur_id(st1), TermV::Jump { target: lv.last().0 }),
                        None,
                    ));
                }
            },
            NodeKind::IfStatement => {
                proof {
                    lemma_field_child_range(*t, c as int, 0, FieldTag::Condition);
                    lemma_field_child_range(*t, c as int, 0, FieldTag::Consequence);
                    lemma_field_child_range(*t, c as int, 0, FieldTag::Alternative);
                }
                let cond_opt = find_field_child(t, c, FieldTag::Condition);
                let then_opt = find_field_child(t, c, FieldTag::Consequence);
                let (cond, thenb) = match (cond_opt, then_opt) {
                    (Some(cond), Some(thenb)) => (cond, thenb),
                    _ => {
                        return Err(
                            AnalysisError::UnsupportedStatement {
                                kind: clone_kind(&t.nodes[c].kind),
                            },
                        );
                    },
                };
                let alt_opt = find_field_child(t, c, FieldTag::Alternative);
                match alt_opt {
                    None => {
                        let k = ensure_open(blocks, diags, cur, c);
                        let a = push_fresh(blocks);
                        let a2 = push_fresh(blocks);
                        set_term(
                            blocks,
                            k,
                            Terminator::Branch { cond, then_target: a, else_target: a2 },
                        );
                        let ghost st1 = st_open(st_i, c as int);
                        let ghost st3 = set_cur(
                            st_close(
                                BuildState {
                                    blocks: st1.blocks.push(fresh_block(a as int)).push(
                                        fresh_block(a as int + 1),
                                    ),
                                    cur: st1.cur,
                                    diags: st1.diags,
                                },
                                cur_id(st1),
                                TermV::Branch {
                                    cond: cond as int,
                                    then_target: a as int,
                                    else_target: a as int + 1,
                                },
                            ),
                            Some(a as int),
                        );
                        proof {
                            assert(mk_state(blocks@, Some(a), diags@) =~~= st3);
                        }
                        let r1 = build_stmts(t, thenb, loops, depth - 1, blocks, diags, Some(a));
                        let cur_then = match r1 {
                            Ok(ct) => ct,
                            Err(e) => {
                                return Err(e);
                            },
                        };
                        match cur_then {
                            Some(x) => {
                                set_term(blocks, x, Terminator::Fallthrough { target: a2 });
                            },
                            None => {},
                        }
                        cur = Some(a2);
                        proof {
                            let st_then = match build_stmts_spec(
                                *t,
                                thenb as int,
                                0,
                                lv,
                                st3,
                                depth as int - 1,
                            ) {
                                Ok(stt) => stt,
                                Err(_) => st3,
                            };
                            assert(mk_state(blocks@, cur, diags@) =~~= set_cur(
                                st_merge_arm(st_then, st_then.cur, a as int + 1),
                                Some(a as int + 1),
                            ));
                        }
                    },
                    Some(alt) => {
                        proof {
                            lemma_field_child_range(*t, alt as int, 0, FieldTag::Body);
                        }
                        if !matches!(&t.nodes[alt].kind, NodeKind::ElseClause) {
                            return Err(
                                AnalysisError::UnsupportedStatement {
                                    kind: clone_kind(&t.nodes[c].kind),
                                },
                            );
                        }
                        let elseb = match find_field_child(t, alt, FieldTag::Body) {
                            Some(eb) => eb,
                            None => {
                                return Err(
                                    AnalysisError::UnsupportedStatement {
                                        kind: clone_kind(&t.nodes[c].kind),
                                    },
                                );
                            },
                        };
                        let k = ensure_open(blocks, diags, cur, c);
                        let a = push_fresh(blocks);
                        let a2 = push_fresh(blocks);
                        set_term(
                            blocks,
                            k,
                            Terminator::Branch { cond, then_target: a, else_target: a2 },
                        );
                        let ghost st1 = st_open(st_i, c as int);
                        let ghost st3 = set_cur(
                            st_close(
                                BuildState {
                                    blocks: st1.blocks.push(fresh_block(a as int)).push(
                                        fresh_block(a as int + 1),
                                    ),
                                    cur: st1.cur,
                                    diags: st1.diags,
                                },
                                cur_id(st1),
                                TermV::Branch {
                                    cond: cond as int,
                                    then_target: a as int,
                                    else_target: a as int + 1,
                                },
                            ),
                            Some(a as int),
                        );
                        proof {
                            assert(mk_state(blocks@, Some(a), diags@) =~~= st3);
                        }
                        let r1 = build_stmts(t, thenb, loops, depth - 1, blocks, diags, Some(a));
                        let cur_then = match r1 {
                            Ok(ct) => ct,
                            Err(e) => {
                                return Err(e);
                            },
                        };
                        let ghost st_then = mk_state(blocks@, cur_then, diags@);
                        let r2 = build_stmts(t, elseb, loops, depth - 1, blocks, diags, Some(a2));
                        let cur_else = match r2 {
                            Ok(ce) => ce,
                            Err(e) => {
                                return Err(e);
                            },
                        };
                        let ghost st_else = mk_state(blocks@, cur_else, diags@);
                        if cur_then.is_none() && cur_else.is_none() {
                            cur = None;
                            proof {
                                assert(mk_state(blocks@, cur, diags@) =~~= set_cur(st_else, None));
                            }
                        } else {
                            let m = push_fresh(blocks);
                            match cur_then {
                                Some(x) => {
                                    set_term(blocks, x, Terminator::Fallthrough { target: m });
                                },
                                None => {},
                            }
                            match cur_else {
                                Some(x) => {
                                    set_term(blocks, x, Terminator::Fallthrough { target: m });
                                },
                                None => {},
                            }
                            cur = Some(m);
                            proof {
                                let st4 = BuildState {
                                    blocks: st_else.blocks.push(fresh_block(m as int)),
                                    cur: st_else.cur,
                                    diags: st_else.diags,
                                };
                                let st5 = st_merge_arm(st4, st_then.cur, m as int);
                                let st6 = st_merge_arm(st5, st_else.cur, m as int);
                                assert(mk_state(blocks@, cur, diags@) =~~= set_cur(
                                    st6,
                                    Some(m as int),
                                ));
                            }
                        }
                    },
                }
            },
            NodeKind::WhileStatement => {
                proof {
                    lemma_field_child_range(*t, c as int, 0, FieldTag::Condition);
                    lemma_field_child_range(*t, c as int, 0, FieldTag::Body);
                }
                let cond_opt = find_field_child(t, c, FieldTag::Condition);
                let body_opt = find_field_child(t, c, FieldTag::Body);
                let (cond, bodyb) = match (cond_opt, body_opt) {
                    (Some(cond), Some(bodyb)) => (cond, bodyb),
                    _ => {
                        return Err(
                            AnalysisError::UnsupportedStatement {
                                kind: clone_kind(&t.nodes[c].kind),
                            },
                        );
                    },
                };
                let k = ensure_open(blocks, diags, cur, c);
                let h = push_fresh(blocks);
                let hb = push_fresh(blocks);
                let he = push_fresh(blocks);
                set_term(
                    blocks,
                    h,
                    Terminator::Branch { cond, then_target: hb, else_target: he },
                );
                set_term(blocks, k, Terminator::Jump { target: h });
                let ghost st1 = st_open(st_i, c as int);
                let ghost st3 = set_cur(
                    st_close(
                        BuildState {
                            blocks: st1.blocks.push(
                                BlockV {
                                    id: h as int,
                                    stmts: Seq::empty(),
                                    term: TermV::Branch {
                                        cond: cond as int,
                                        then_target: h as int + 1,
                                        else_target: h as int + 2,
                                    },
                                },
                            ).push(fresh_block(h as int + 1)).push(fresh_block(h as int + 2)),
                            cur: st1.cur,
                            diags: st1.diags,
                        },
                        cur_id(st1),
                        TermV::Jump { target: h as int },
                    ),
                    Some(h as int + 1),
                );
                proof {
                    assert(mk_state(blocks@, Some(hb), diags@) =~~= st3);
                }
                loops.push((h, he));
                proof {
                    assert(loops_view(loops@) =~= lv.push((h as int, h as int + 2)));
                }
                let r1 = build_stmts(t, bodyb, loops, depth - 1, blocks, diags, Some(hb));
                let popped = loops.pop();
                proof {
                    assert(loops@ =~= old(loops)@);
                }
                let cur_body = match r1 {
                    Ok(cb) => cb,
                    Err(e) => {
                        return Err(e);
                    },
                };
                match cur_body {
                    Some(x) => {
                        set_term(blocks, x, Terminator::Jump { target: h });
                    },
                    None => {},
                }
                cur = Some(he);
                proof {
                    let st_body = match build_stmts_spec(
                        *t,
                        bodyb as int,
                        0,
                        lv.push((h as int, h as int + 2)),
                        st3,
                        depth as int - 1,
                    ) {
                        Ok(stb) => stb,
                        Err(_) => st3,
                    };
                    let st4 = match st_body.cur {
                        Some(x) => st_close(st_body, x, TermV::Jump { target: h as int }),
                        None => st_body,
                    };
                    assert(mk_state(blocks@, cur, diags@) =~~= set_cur(st4, Some(h as int + 2)));
                }
            },
            _ => {
                return Err(
                    AnalysisError::UnsupportedStatement { kind: clone_kind(&t.nodes[c].kind) },
                );
            },
        }
        i = i + 1;
    }
    Ok(cur)
}

/// Builds the control-flow graph of the function body rooted at node
/// `body`, together with the unreachable-code diagnostics (the statement
/// nodes that started regions after the block was already closed). The
/// result is exactly what [`build_cfg_spec`] assigns to the tree.
pub fn build_cfg(t: &SyntaxTree, body: usize) -> (res: Result<
    (ControlFlowGraph, Vec<usize>),
    AnalysisError,
>)
    requires
        t.wf(),
        t.valid_node(body as int),
    ensures
        match build_cfg_spec(*t, body as int) {
            Ok(pair) => res matches Ok(out) && out.0.entry == 0 && blocks_view(out.0.blocks@)
                == pair.0 && diags_view(out.1@) == pair.1,
            Err(e) => res matches Err(err) && err@ == e,
        },
        res matches Ok(out) ==> out.0.valid(),
        res matches Ok(out) ==> forall|x: int| !is_edge(out.0.blocks_v(), x, out.0.entry as int),
{
    proof {
        lemma_build_cfg_wf(*t, body as int);
    }
    let mut blocks: Vec<BasicBlock> = Vec::new();
    let mut diags: Vec<usize> = Vec::new();
    let entry = push_fresh(&mut blocks);
    let mut loops: Vec<(usize, usize)> = Vec::new();
    proof {
        assert(blocks_view(blocks@) =~~= seq![fresh_block(0)]);
        assert(loops_view(loops@) =~= Seq::<(int, int)>::empty());
        assert(diags_view(diags@) =~= Seq::<int>::empty());
        assert(mk_state(blocks@, Some(0), diags@) =~~= BuildState {
            blocks: seq![fresh_block(0)],
            cur: Some(0),
            diags: Seq::empty(),
        });
    }
    let r = build_stmts(t, body, &mut loops, BUILD_DEPTH_LIMIT, &mut blocks, &mut diags, Some(0));
    match r {
        Ok(_cur) => {
            let g = ControlFlowGraph { entry: 0, blocks };
            proof {
                let bs = g.blocks_v();
                assert(blocks_wf(bs));
                assert forall|j: int| 0 <= j < bs.len() implies (#[trigger] bs[j]).id == j by {
                    assert(block_wf_at(bs, j));
                }
                assert forall|j: int, e: int|
                    0 <= j < bs.len() && 0 <= e < targets_of(bs[j].term).len() implies 0
                    <= #[trigger] targets_of(bs[j].term)[e] < bs.len() by {
                    assert(block_wf_at(bs, j));
                    assert(block_targets_ok(bs, j));
                }
                assert(g.valid());
                assert forall|x: int| !is_edge(bs, x, 0) by {
                    if is_edge(bs, x, 0) {
                        let e = choose|e: int|
                            0 <= e < targets_of(bs[x].term).len() && #[trigger] targets_of(
                                bs[x].term,
                            )[e] == 0;
                        assert(block_wf_at(bs, x));
                        assert(block_targets_ok(bs, x));
                        assert(1 <= targets_of(bs[x].term)[e]);
                    }
                }
            }
            Ok((g, diags))
        },
        Err(e) => Err(e),
    }
}

/// The predecessors of block `y`, among the blocks before position `k`:
/// every earlier-numbered block with an edge into `y`, in ascending order.
pub open spec fn preds_upto(bs: Seq<BlockV>, y: int, k: int) -> Seq<int>
    decreases k,
{
    if k <= 0 {
        Seq::empty()
    } else if targets_of(bs[k - 1].term).contains(y) {
        preds_upto(bs, y, k - 1).push(k - 1)
    } else {
        preds_upto(bs, y, k - 1)
    }
}

/// Whether a terminator can transfer control to block `y`.
fn term_has_target(term: &Terminator, y: usize) -> (r: bool)
    ensures
        r == targets_of(term@).contains(y as int),
{
    let r = match term {
        Terminator::Fallthrough { target } => *target == y,
        Terminator::Branch { cond: _, then_target, else_target } => {
            *then_target == y || *else_target == y
        },
        Terminator::Return { value: _ } => false,
        Terminator::Jump { target } => *target == y,
        Terminator::Unreachable => false,
    };
    proof {
        let ts = targets_of(term@);
        if r {
            match term {
                Terminator::Fallthrough { target } => {
                    assert(ts[0] == y as int);
                },
                Terminator::Branch { cond, then_target, else_target } => {
                    if *then_target == y {
                        assert(ts[0] == y as int);
                    } else {
                        assert(ts[1] == y as int);
                    }
                },
                Terminator::Jump { target } => {
                    assert(ts[0] == y as int);
                },
                _ => {},
            }
        } else {
            if ts.contains(y as int) {
                let e = choose|e: int| 0 <= e < ts.len() && ts[e] == y as int;
            }
        }
    }
    r
}

impl ControlFlowGraph {
    /// The successor block ids of `block`: the targets of its terminator,
    /// in terminator order.
    pub fn successors(&self, block: usize) -> (r: Vec<usize>)
        requires
            (block as int) < self.blocks@.len(),
        ensures
            r@.len() == targets_of(self.blocks_v()[block as int].term).len(),
            forall|e: int|
                0 <= e < r@.len() ==> r@[e] as int == targets_of(
                    self.blocks_v()[block as int].term,
                )[e],
    {
        let mut r: Vec<usize> = Vec::new();
        match &self.blocks[block].terminator {
            Terminator::Fallthrough { target } => {
                r.push(*target);
            },
            Terminator::Branch { cond: _, then_target, else_target } => {
                r.push(*then_target);
                r.push(*else_target);
            },
            Terminator::Return { value: _ } => {},
            Terminator::Jump { target } => {
                r.push(*target);
            },
            Terminator::Unreachable => {},
        }
        proof {
            assert(self.blocks_v()[block as int].term == self.blocks@[block as int].terminator@);
        }
        r
    }

    /// The predecessor block ids of `block`: every block with an edge into
    /// it, in ascending order. Derived purely from the edge set.
    pub fn predecessors(&self, block: usize) -> (r: Vec<usize>)
        ensures
            diags_view(r@) == preds_upto(self.blocks_v(), block as int, self.blocks_v().len() as int),
    {
        let n_blocks = self.blocks.len();
        let mut r: Vec<usize> = Vec::new();
        let mut j: usize = 0;
        while j < n_blocks
            invariant
                0 <= j <= n_blocks,
                n_blocks == self.blocks@.len(),
                diags_view(r@) == preds_upto(self.blocks_v(), block as int, j as int),
            decreases n_blocks - j,
        {
            let hit = term_has_target(&self.blocks[j].terminator, block);
            proof {
                assert(self.blocks_v()[j as int].term == self.blocks@[j as int].terminator@);
            }
            if hit {
                let ghost r_before = r@;
                r.push(j);
                proof {
                    assert(diags_view(r@) =~= diags_view(r_before).push(j as int));
                }
            }
            j = j + 1;
        }
        r
    }

    /// Decides [`ControlFlowGraph::valid`] at run time.
    pub fn check_valid(&self) -> (r: bool)
        ensures
            r == self.valid(),
    {
        if self.entry != 0 {
            return false;
        }
        let n_blocks = self.blocks.len();
        if n_blocks == 0 {
            return false;
        }
        let mut j: usize = 0;
        while j < n_blocks
            invariant
                0 <= j <= n_blocks,
                n_blocks == self.blocks@.len(),
                self.entry == 0,
                n_blocks >= 1,
                forall|q: int| 0 <= q < j ==> (#[trigger] self.blocks_v()[q]).id == q,
                forall|q: int, e: int|
                    0 <= q < j && 0 <= e < targets_of(self.blocks_v()[q].term).len() ==> 0
                        <= #[trigger] targets_of(self.blocks_v()[q].term)[e]
                        < self.blocks@.len(),
            decreases n_blocks - j,
        {
            proof {
                assert(self.blocks_v()[j as int] == self.blocks@[j as int]@);
            }
            if self.blocks[j].id != j {
                return false;
            }
            let succ = self.successors(j);
            let n_succ = succ.len();
            let mut e: usize = 0;
            while e < n_succ
                invariant
                    0 <= e <= n_succ,
                    j < n_blocks,
                    n_blocks == self.blocks@.len(),
                    n_succ == succ@.len(),
                    succ@.len() == targets_of(self.blocks_v()[j as int].term).len(),
                    forall|q: int|
                        0 <= q < succ@.len() ==> succ@[q] as int == targets_of(
                            self.blocks_v()[j as int].term,
                        )[q],
                    forall|q: int|
                        0 <= q < e ==> 0 <= #[trigger] targets_of(
                            self.blocks_v()[j as int].term,
                        )[q] < self.blocks@.len(),
                decreases n_succ - e,
            {
                if succ[e] >= n_blocks {
                    return false;
                }
                e = e + 1;
            }
            j = j + 1;
        }
        true
    }
}

} // verus!
