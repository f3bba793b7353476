//! Extraction of function definitions from the traversal.
//!
//! The extractor filters the walker's depth-first stream for
//! function-definition nodes and assembles a [`FunctionDef`] from the named
//! children `name`, `parameters` and `body`. A missing named child is a
//! `MalformedFunction` failure; an unrecognized parameter shape is an
//! `UnsupportedParameterSyntax` failure carrying the kind — one bad function
//! never stops the extraction of the others.

use vstd::prelude::*;

use crate::errors::clone_kind;
use crate::errors::AnalysisError;
use crate::errors::AnalysisErrorV;
use crate::cfg::find_field_child;
use crate::cfg::lemma_field_child_range;
use crate::tree::FieldTag;
use crate::tree::NodeKind;
use crate::tree::SyntaxTree;
use crate::walker::lemma_preorder_in_subtree;
use crate::walker::preorder;
use crate::walker::TreeWalker;

verus! {

/// One formal parameter. Today only a plain identifier is recognized; the
/// variant set is meant to grow, and anything else is reported as
/// unsupported rather than dropped.
#[derive(Debug, Clone, PartialEq, Eq)]
pub enum Parameter {
    Ident(String),
}

/// The mathematical value of a [`Parameter`].
pub ghost enum ParamV {
    Ident(Seq<char>),
}

impl View for Parameter {
    type V = ParamV;

    open spec fn view(&self) -> ParamV {
        match self {
            Parameter::Ident(s) => ParamV::Ident(s@),
        }
    }
}

/// One extracted function definition: its name, its parameters in source
/// order, and the node index of its body subtree.
#[derive(Debug, Clone, PartialEq, Eq)]
pub struct FunctionDef {
    pub name: String,
    pub params: Vec<Parameter>,
    pub body: usize,
}

/// The mathematical value of a [`FunctionDef`].
#[verifier::ext_equal]
pub ghost struct FunctionDefV {
    pub name: Seq<char>,
    pub params: Seq<ParamV>,
    pub body: int,
}

impl View for FunctionDef {
    type V = FunctionDefV;

    open spec fn view(&self) -> FunctionDefV {
        FunctionDefV {
            name: self.name@,
            params: self.params@.map(|i: int, p: Parameter| p@),
            body: self.body as int,
        }
    }
}

/// A per-function failure: the node it is attached to, and why.
#[derive(Debug, Clone, PartialEq, Eq)]
pub struct FunctionFailure {
    pub node: usize,
    pub error: AnalysisError,
}

/// The mathematical value of a [`FunctionFailure`].
#[verifier::ext_equal]
pub ghost struct FunctionFailureV {
    pub node: int,
    pub error: AnalysisErrorV,
}

impl View for FunctionFailure {
    type V = FunctionFailureV;

    open spec fn view(&self) -> FunctionFailureV {
        FunctionFailureV { node: self.node as int, error: self.error@ }
    }
}

/// Extracted definitions, as values.
pub open spec fn defs_view(s: Seq<FunctionDef>) -> Seq<FunctionDefV> {
    s.map(|i: int, d: FunctionDef| d@)
}

/// Recorded failures, as values.
pub open spec fn fails_view(s: Seq<FunctionFailure>) -> Seq<FunctionFailureV> {
    s.map(|i: int, f: FunctionFailure| f@)
}

/// The specification of parameter extraction: children `i..` of the
/// parameters node, each of which must be an identifier; the first
/// unrecognized child is the failure.
pub open spec fn extract_params_spec(t: SyntaxTree, pn: int, i: int) -> Result<
    Seq<ParamV>,
    AnalysisErrorV,
>
    decreases t.num_children(pn) - i,
        when t.wf() && t.valid_node(pn) && 0 <= i
{
    if i >= t.num_children(pn) {
        Ok(Seq::empty())
    } else {
        proof {
            assert(t.wf_child(pn, i));
        }
        let c = t.child(pn, i);
        if t.kind_of(c) is Identifier {
            match extract_params_spec(t, pn, i + 1) {
                Ok(rest) => Ok(seq![ParamV::Ident(t.text_of(c))] + rest),
                Err(e) => Err(e),
            }
        } else {
            Err(AnalysisErrorV::UnsupportedParameterSyntax { kind: t.kind_of(c)@ })
        }
    }
}

/// The specification of extracting one function-definition node: the named
/// children `name`, `parameters` and `body` must all be present, else the
/// function is malformed.
pub open spec fn extract_function_spec(t: SyntaxTree, n: int) -> Result<
    FunctionDefV,
    AnalysisErrorV,
> {
    match (t.child_with_field(n, FieldTag::Name), t.child_with_field(n, FieldTag::Parameters),
    t.child_with_field(n, FieldTag::Body)) {
        (Some(nm), Some(ps), Some(bd)) => match extract_params_spec(t, ps, 0) {
            Ok(params) => Ok(FunctionDefV { name: t.text_of(nm), params, body: bd }),
            Err(e) => Err(e),
        },
        _ => Err(AnalysisErrorV::MalformedFunction),
    }
}

/// The specification of one pass over the first `k` entries of the node
/// stream `ids`: definitions extracted from the function-definition nodes,
/// in stream order, and the per-function failures, in stream order.
pub open spec fn scan_functions_spec(t: SyntaxTree, ids: Seq<int>, k: int) -> (
    Seq<FunctionDefV>,
    Seq<FunctionFailureV>,
)
    decreases k,
{
    if k <= 0 {
        (Seq::empty(), Seq::empty())
    } else {
        let (ds, fs) = scan_functions_spec(t, ids, k - 1);
        let n = ids[k - 1];
        if t.valid_node(n) && t.kind_of(n) is FunctionDefinition {
            match extract_function_spec(t, n) {
                Ok(d) => (ds.push(d), fs),
                Err(e) => (ds, fs.push(FunctionFailureV { node: n, error: e })),
            }
        } else {
            (ds, fs)
        }
    }
}

/// The specification of whole-tree extraction: one scan over the
/// depth-first node stream.
pub open spec fn tree_functions_spec(t: SyntaxTree) -> (Seq<FunctionDefV>, Seq<FunctionFailureV>) {
    scan_functions_spec(t, preorder(t, 0), preorder(t, 0).len() as int)
}

/// Extracts the parameters of one parameters node.
#[verifier::loop_isolation(false)]
fn extract_params(t: &SyntaxTree, pn: usize) -> (res: Result<Vec<Parameter>, AnalysisError>)
    requires
        t.wf(),
        t.valid_node(pn as int),
    ensures
        match extract_params_spec(*t, pn as int, 0) {
            Ok(ps) => res matches Ok(v) && v@.map(|i: int, p: Parameter| p@) == ps,
            Err(e) => res matches Err(err) && err@ == e,
        },
{
    let n_kids = t.nodes[pn].children.len();
    let mut acc: Vec<Parameter> = Vec::new();
    let mut i: usize = 0;
    while i < n_kids
        invariant
            0 <= i <= n_kids,
            match extract_params_spec(*t, pn as int, i as int) {
                Ok(rest) => extract_params_spec(*t, pn as int, 0) == Ok::<_, AnalysisErrorV>(
                    acc@.map(|j: int, p: Parameter| p@) + rest,
                ),
                Err(e) => extract_params_spec(*t, pn as int, 0) == Err::<Seq<ParamV>, _>(e),
            },
        decreases n_kids - i,
    {
        let c = t.nodes[pn].children[i];
        proof {
            assert(t.wf_child(pn as int, i as int));
            assert(t.child(pn as int, i as int) == c as int);
        }
        match &t.nodes[c].kind {
            NodeKind::Identifier => {
                let ghost acc_before = acc@;
                acc.push(Parameter::Ident(t.nodes[c].text.clone()));
                proof {
                    assert(acc@.map(|j: int, p: Parameter| p@) =~= acc_before.map(
                        |j: int, p: Parameter| p@,
                    ).push(ParamV::Ident(t.text_of(c as int))));
                    if extract_params_spec(*t, pn as int, i as int + 1) is Ok {
                        let rest = extract_params_spec(*t, pn as int, i as int + 1)->Ok_0;
                        assert(acc_before.map(|j: int, p: Parameter| p@) + (seq![
                            ParamV::Ident(t.text_of(c as int)),
                        ] + rest) =~= acc@.map(|j: int, p: Parameter| p@) + rest);
                    }
                }
            },
            _ => {
                return Err(
                    AnalysisError::UnsupportedParameterSyntax {
                        kind: clone_kind(&t.nodes[c].kind),
                    },
                );
            },
        }
        i = i + 1;
    }
    proof {
        assert(acc@.map(|j: int, p: Parameter| p@) + Seq::<ParamV>::empty() =~= acc@.map(
            |j: int, p: Parameter| p@,
        ));
    }
    Ok(acc)
}

/// Extracts one function definition from a function-definition node,
/// failing as a value on a malformed node or an unsupported parameter.
pub fn extract_function(t: &SyntaxTree, n: usize) -> (res: Result<FunctionDef, AnalysisError>)
    requires
        t.wf(),
        t.valid_node(n as int),
    ensures
        match extract_function_spec(*t, n as int) {
            Ok(d) => res matches Ok(f) && f@ == d,
            Err(e) => res matches Err(err) && err@ == e,
        },
        res matches Ok(f) ==> t.valid_node(f.body as int),
{
    proof {
        lemma_field_child_range(*t, n as int, 0, FieldTag::Name);
        lemma_field_child_range(*t, n as int, 0, FieldTag::Parameters);
        lemma_field_child_range(*t, n as int, 0, FieldTag::Body);
    }
    let name_opt = find_field_child(t, n, FieldTag::Name);
    let params_opt = find_field_child(t, n, FieldTag::Parameters);
    let body_opt = find_field_child(t, n, FieldTag::Body);
    match (name_opt, params_opt, body_opt) {
        (Some(nm), Some(ps), Some(bd)) => {
            let name = t.nodes[nm].text.clone();
            match extract_params(t, ps) {
                Ok(params) => {
                    let f = FunctionDef { name, params, body: bd };
                    proof {
                        let d = extract_function_spec(*t, n as int)->Ok_0;
                        assert(f@ =~= d);
                    }
                    Ok(f)
                },
                Err(e) => Err(e),
            }
        },
        _ => Err(AnalysisError::MalformedFunction),
    }
}

/// Walks the whole tree in depth-first prefix order and extracts every
/// function definition, returning the definitions in source order together
/// with the per-function failures: a partial result set, never an abort.
pub fn tree_functions(t: &SyntaxTree) -> (res: (Vec<FunctionDef>, Vec<FunctionFailure>))
    requires
        t.wf(),
    ensures
        defs_view(res.0@) == tree_functions_spec(*t).0,
        fails_view(res.1@) == tree_functions_spec(*t).1,
        forall|j: int| 0 <= j < res.0@.len() ==> t.valid_node(#[trigger] res.0@[j].body as int),
{
    let ghost full = preorder(*t, 0);
    let mut defs: Vec<FunctionDef> = Vec::new();
    let mut fails: Vec<FunctionFailure> = Vec::new();
    let mut w = TreeWalker::new(t);
    proof {
        lemma_preorder_in_subtree(*t, 0);
    }
    loop
        invariant_except_break
            t.wf(),
            full == preorder(*t, 0),
            w.inv(*t),
            w.visited_seq().len() <= full.len(),
            (defs_view(defs@), fails_view(fails@)) == scan_functions_spec(
                *t,
                full,
                w.visited_seq().len() as int,
            ),
            forall|j: int| 0 <= j < defs@.len() ==> t.valid_node(#[trigger] defs@[j].body as int),
        ensures
            (defs_view(defs@), fails_view(fails@)) == scan_functions_spec(
                *t,
                full,
                full.len() as int,
            ),
            forall|j: int| 0 <= j < defs@.len() ==> t.valid_node(#[trigger] defs@[j].body as int),
        decreases full.len() - w.visited_seq().len(),
    {
        let ghost k = w.visited_seq().len() as int;
        let id = match w.next(t) {
            Some(id) => id,
            None => {
                break;
            },
        };
        proof {
            lemma_preorder_in_subtree(*t, 0);
            assert(id as int == full[k]);
            assert(t.valid_node(id as int));
        }
        if matches!(&t.nodes[id].kind, NodeKind::FunctionDefinition) {
            match extract_function(t, id) {
                Ok(f) => {
                    let ghost defs_before = defs@;
                    defs.push(f);
                    proof {
                        assert(defs_view(defs@) =~= defs_view(defs_before).push(f@));
                    }
                },
                Err(e) => {
                    let ghost fails_before = fails@;
                    let fl = FunctionFailure { node: id, error: e };
                    fails.push(fl);
                    proof {
                        assert(fails_view(fails@) =~= fails_view(fails_before).push(fl@));
                    }
                },
            }
        }
    }
    (defs, fails)
}

} // verus!
