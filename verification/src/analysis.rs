//! The whole-tree analysis: extraction, then one graph per function.
//!
//! Failures stay per function: the caller receives the analyses that
//! succeeded and the list of failures, in source order.

use vstd::prelude::*;

use crate::cfg::blocks_view;
use crate::cfg::build_cfg;
use crate::cfg::build_cfg_spec;
use crate::cfg::diags_view;
use crate::cfg::BlockV;
use crate::cfg::ControlFlowGraph;
use crate::extract::defs_view;
use crate::extract::fails_view;
use crate::extract::tree_functions;
use crate::extract::tree_functions_spec;
use crate::extract::FunctionDef;
use crate::extract::FunctionDefV;
use crate::extract::FunctionFailure;
use crate::extract::FunctionFailureV;
use crate::tree::SyntaxTree;

verus! {

/// One analyzed function: its definition, its control-flow graph, and the
/// statement nodes reported as unreachable code while building it.
#[derive(Debug, Clone, PartialEq, Eq)]
pub struct FunctionAnalysis {
    pub def: FunctionDef,
    pub cfg: ControlFlowGraph,
    pub unreachable: Vec<usize>,
}

/// The mathematical value of a [`FunctionAnalysis`].
#[verifier::ext_equal]
pub ghost struct FunctionAnalysisV {
    pub def: FunctionDefV,
    pub entry: int,
    pub blocks: Seq<BlockV>,
    pub diags: Seq<int>,
}

impl View for FunctionAnalysis {
    type V = FunctionAnalysisV;

    open spec fn view(&self) -> FunctionAnalysisV {
        FunctionAnalysisV {
            def: self.def@,
            entry: self.cfg.entry as int,
            blocks: blocks_view(self.cfg.blocks@),
            diags: diags_view(self.unreachable@),
        }
    }
}

/// Analyses, as values.
pub open spec fn analyses_view(s: Seq<FunctionAnalysis>) -> Seq<FunctionAnalysisV> {
    s.map(|i: int, a: FunctionAnalysis| a@)
}

/// The specification of building graphs for the first `k` extracted
/// definitions: the successful analyses and the build failures, in order.
/// A build failure is attached to the function's body node.
pub open spec fn analyze_defs_spec(t: SyntaxTree, ds: Seq<FunctionDefV>, k: int) -> (
    Seq<FunctionAnalysisV>,
    Seq<FunctionFailureV>,
)
    decreases k,
{
    if k <= 0 {
        (Seq::empty(), Seq::empty())
    } else {
        let (az, fs) = analyze_defs_spec(t, ds, k - 1);
        let d = ds[k - 1];
        match build_cfg_spec(t, d.body) {
            Ok(pair) => (
                az.push(FunctionAnalysisV { def: d, entry: 0, blocks: pair.0, diags: pair.1 }),
                fs,
            ),
            Err(e) => (az, fs.push(FunctionFailureV { node: d.body, error: e })),
        }
    }
}

/// The specification of the whole analysis of a tree: extraction failures
/// first, then graph-construction failures, in source order.
pub open spec fn analyze_spec(t: SyntaxTree) -> (Seq<FunctionAnalysisV>, Seq<FunctionFailureV>) {
    let (ds, fs) = tree_functions_spec(t);
    let (az, fs2) = analyze_defs_spec(t, ds, ds.len() as int);
    (az, fs + fs2)
}

/// Analyzes every function of the tree: extracts the definitions, builds
/// one control-flow graph per function, and returns the partial result set
/// together with the per-function failures. Nothing aborts: every failure
/// is a value in the second component.
pub fn analyze(t: &SyntaxTree) -> (res: (Vec<FunctionAnalysis>, Vec<FunctionFailure>))
    requires
        t.wf(),
    ensures
        analyses_view(res.0@) == analyze_spec(*t).0,
        fails_view(res.1@) == analyze_spec(*t).1,
{
    let extracted = tree_functions(t);
    let mut remaining = extracted.0;
    let mut fails = extracted.1;
    let ghost ds = defs_view(remaining@);
    let ghost fs0 = fails_view(fails@);
    let mut out: Vec<FunctionAnalysis> = Vec::new();
    let mut fails2: Vec<FunctionFailure> = Vec::new();
    let n_defs = remaining.len();
    let mut k: usize = 0;
    while remaining.len() > 0
        invariant
            t.wf(),
            k as int + remaining@.len() == n_defs as int,
            n_defs as int == ds.len(),
            defs_view(remaining@) =~= ds.subrange(k as int, ds.len() as int),
            forall|j: int|
                0 <= j < remaining@.len() ==> t.valid_node(#[trigger] remaining@[j].body as int),
            (analyses_view(out@), fails_view(fails2@)) == analyze_defs_spec(*t, ds, k as int),
        decreases remaining@.len(),
    {
        let ghost rem_before = remaining@;
        let d = remaining.remove(0);
        proof {
            assert(defs_view(rem_before)[0] == ds[k as int]);
            assert(d@ == ds[k as int]);
            assert(remaining@ == rem_before.subrange(0, 0) + rem_before.subrange(
                1,
                rem_before.len() as int,
            ));
            assert forall|j: int| 0 <= j < remaining@.len() implies remaining@[j] == rem_before[j
                + 1] by {
                assert(remaining@[j] == rem_before.subrange(1, rem_before.len() as int)[j]);
            }
            assert(defs_view(rem_before) == ds.subrange(k as int, ds.len() as int));
            assert forall|j: int| 0 <= j < remaining@.len() implies defs_view(remaining@)[j]
                == ds.subrange(k as int + 1, ds.len() as int)[j] by {
                assert(defs_view(remaining@)[j] == remaining@[j]@);
                assert(defs_view(rem_before)[j + 1] == rem_before[j + 1]@);
                assert(defs_view(rem_before)[j + 1] == ds.subrange(k as int, ds.len() as int)[j
                    + 1]);
            }
            assert(defs_view(remaining@) =~= ds.subrange(k as int + 1, ds.len() as int));
        }
        match build_cfg(t, d.body) {
            Ok(built) => {
                let fa = FunctionAnalysis { def: d, cfg: built.0, unreachable: built.1 };
                let ghost out_before = out@;
                out.push(fa);
                proof {
                    let pair = build_cfg_spec(*t, ds[k as int].body)->Ok_0;
                    assert(fa@ =~= FunctionAnalysisV {
                        def: ds[k as int],
                        entry: 0,
                        blocks: pair.0,
                        diags: pair.1,
                    });
                    assert(analyses_view(out@) =~= analyses_view(out_before).push(fa@));
                }
            },
            Err(e) => {
                let fl = FunctionFailure { node: d.body, error: e };
                let ghost f_before = fails2@;
                fails2.push(fl);
                proof {
                    assert(fails_view(fails2@) =~= fails_view(f_before).push(fl@));
                }
            },
        }
        k = k + 1;
    }
    let ghost f2 = fails_view(fails2@);
    fails.append(&mut fails2);
    proof {
        assert(fails_view(fails@) =~= fs0 + f2);
        assert(fails_view(fails@) == analyze_spec(*t).1);
        assert(analyses_view(out@) == analyze_spec(*t).0);
    }
    (out, fails)
}

} // verus!
