//! The compilation and elaboration driver.
//!
//! [`compile_kernel`] turns one kernel into a verified [`Object`]: it runs
//! constraint-based type inference, asserts inference completeness, lowers
//! the body into register instructions (using the path engine for every
//! sub-field access), runs the fixed two-round optimization pipeline, and
//! finally the mandatory type and data-flow checks, which must succeed.
//!
//! [`compile_design`] compiles a top-level kernel and then closes over the
//! call graph: every external kernel reference of every compiled object is
//! compiled exactly once, until a scan adds nothing new.  The resulting
//! [`Module`] is closed and contains only objects reachable from the top.
//!
//! In this representation a kernel node's stable identity is its index in
//! the kernel's expression vector, so identities need no separate
//! assignment step and runs are reproducible.

use crate::ast::exprs_view;
use crate::ast::lemma_exprs_view_index;
use crate::ast::lemma_exprs_view_len;
use crate::ast::Expr;
use crate::ast::ExprV;
use crate::ast::Kernel;
use crate::ast::KernelV;
use crate::check::flow_check;
use crate::check::flow_check_ok;
use crate::check::type_check;
use crate::check::type_check_ok;
use crate::check::VerificationError;
use crate::kind::kind_eq;
use crate::kind::kind_wf;
use crate::kind::kinds_view;
use crate::kind::lemma_kinds_view_index;
use crate::kind::lemma_kinds_view_len;
use crate::kind::Kind;
use crate::kind::KindV;
use crate::module::Module;
use crate::passes::pre_cast_literals;
use crate::passes::remove_extra_registers;
use crate::passes::remove_unneeded_muxes;
use crate::passes::remove_unused_literals;
use crate::passes::remove_useless_casts;
use crate::passes::spec_pre_cast_literals;
use crate::passes::spec_remove_extra_registers;
use crate::passes::spec_remove_unneeded_muxes;
use crate::passes::spec_remove_unused_literals;
use crate::passes::spec_remove_useless_casts;
use crate::path::bit_range;
use crate::path::path_star;
use crate::path::sub_kind;
use crate::path::Path;
use crate::path::PathElement;
use crate::path::PathElementV;
use crate::path::PathError;
use crate::rhif::extfns_view;
use crate::rhif::instrs_view;
use crate::rhif::lemma_instrs_view_index;
use crate::rhif::lemma_instrs_view_len;
use crate::rhif::lemma_extfns_view_index;
use crate::rhif::lemma_extfns_view_len;
use crate::rhif::AluBinary;
use crate::rhif::ExternalFunction;
use crate::rhif::ExternalFunctionV;
use crate::rhif::FunctionId;
use crate::rhif::Instr;
use crate::rhif::Object;
use crate::rhif::ObjectV;
use crate::rhif::Op;
use crate::rhif::Slot;
use crate::rhif::SpannedSource;
use crate::rhif::SymbolMap;
use vstd::prelude::*;

verus! {

/// Failures of type inference.
#[derive(Debug, Clone, Copy, PartialEq, Eq, Structural)]
pub enum TypeInferenceError {
    /// Two constraints bound the node to different types.
    UnificationFailure { node: usize },
    /// The node's type was still unresolved after inference.
    UnresolvedType { node: usize },
}

/// Failures of lowering a kernel body to register instructions.
#[derive(Debug, Clone, Copy, PartialEq, Eq, Structural)]
pub enum LoweringError {
    /// The construct at the node cannot be translated.
    UnsupportedConstruct { node: usize },
    /// A path at the node failed to resolve.
    Path { node: usize, error: PathError },
}

/// A compilation failure, tagged with the phase that produced it.
#[derive(Debug)]
pub enum CompileError {
    Type(TypeInferenceError),
    Lowering(LoweringError),
    Verification(VerificationError),
    /// A failure while compiling a kernel discovered during elaboration,
    /// tagged with that kernel's identity.
    Elaboration { fn_id: FunctionId, error: Box<CompileError> },
}

/// The result of type inference: the resolved kind of every expression
/// node, where inference succeeded in binding one.
#[derive(Debug)]
pub struct TypeCtx {
    pub res: Vec<Option<Kind>>,
}

/// Every binding of a context is a well-formed kind.
pub open spec fn ctx_wf(ctx: Seq<Option<Kind>>) -> bool {
    forall|i: int|
        0 <= i < ctx.len() ==> ((#[trigger] ctx[i]) matches Some(k) ==> kind_wf(k@))
}

/// The well-formedness a kernel's own interface must satisfy before
/// compilation: every argument kind and every called signature is
/// well formed.
pub open spec fn kernel_sig_wf(k: KernelV) -> bool {
    &&& forall|i: int| 0 <= i < k.arguments.len() ==> kind_wf(#[trigger] k.arguments[i])
    &&& forall|i: int|
        0 <= i < k.exprs.len() ==> ((#[trigger] k.exprs[i]) matches ExprV::Call { func, args }
            ==> extfn_sig_wf(func))
}

/// Well-formedness of a called function's declared interface.
pub open spec fn extfn_sig_wf(f: ExternalFunctionV) -> bool {
    &&& forall|j: int| 0 <= j < f.signature.arguments.len() ==> kind_wf(
        #[trigger] f.signature.arguments[j],
    )
    &&& kind_wf(f.signature.ret)
}

/// Number of resolved bindings in a context.
pub open spec fn somes(res: Seq<Option<Kind>>) -> nat
    decreases res,
{
    if res.len() == 0 {
        0
    } else {
        somes(res.drop_last()) + (if res.last() is Some {
            1nat
        } else {
            0nat
        })
    }
}

/// A context has no more bindings than entries.
proof fn lemma_somes_le_len(res: Seq<Option<Kind>>)
    ensures
        somes(res) <= res.len(),
    decreases res,
{
    if res.len() > 0 {
        lemma_somes_le_len(res.drop_last());
    }
}

/// Writing one entry changes the binding count by the entry's difference.
proof fn lemma_somes_update(res: Seq<Option<Kind>>, i: int, v: Option<Kind>)
    requires
        0 <= i < res.len(),
    ensures
        somes(res.update(i, v)) == somes(res) - (if res[i] is Some {
            1int
        } else {
            0int
        }) + (if v is Some {
            1int
        } else {
            0int
        }),
    decreases res,
{
    let u = res.update(i, v);
    if i == res.len() - 1 {
        assert(u.drop_last() =~= res.drop_last());
    } else {
        assert(u.drop_last() =~= res.drop_last().update(i, v));
        lemma_somes_update(res.drop_last(), i, v);
    }
}

/// The path used to resolve a navigated type: every dynamic index reads
/// as its first concrete index, which fixes the navigated kind because
/// all elements of an array share one kind.
pub open spec fn spec_type_path(p: Seq<PathElementV>) -> Seq<PathElementV> {
    p.map_values(
        |e: PathElementV|
            if e is DynamicIndex {
                PathElementV::Index(0)
            } else {
                e
            },
    )
}

/// Node `i` is resolved to exactly the kind `k`.
pub open spec fn bound_to(res: Seq<Option<Kind>>, i: int, k: KindV) -> bool {
    0 <= i < res.len() && (res[i] matches Some(b) && b@ == k)
}

/// Nodes `i` and `j` do not disagree: where both are resolved, their
/// kinds are equal.
pub open spec fn nodes_agree(res: Seq<Option<Kind>>, i: int, j: int) -> bool {
    0 <= i < res.len() && 0 <= j < res.len() && ((res[i] is Some && res[j] is Some)
        ==> res[i]->0@ == res[j]->0@)
}

/// The typing constraint of one expression node, evaluated against a
/// resolution context: arguments carry their declared kinds, annotated
/// literals their width, comparisons and select conditions a single bit,
/// operands of an operation agree with its result, a resolved sub-field
/// access carries the navigated kind, and a call carries its signature.
pub open spec fn node_constraint(kv: KernelV, res: Seq<Option<Kind>>, node: int) -> bool {
    match kv.exprs[node] {
        ExprV::Arg { index } => 0 <= index < kv.arguments.len() && bound_to(
            res,
            node,
            kv.arguments[index],
        ),
        ExprV::Literal { value, width } => match width {
            Some(w) => bound_to(res, node, KindV::Bits(w as nat)),
            None => true,
        },
        ExprV::Not { arg } => nodes_agree(res, arg, node),
        ExprV::Binary { op, arg1, arg2 } => if op is Eq {
            nodes_agree(res, arg1, arg2) && bound_to(res, node, KindV::Bits(1))
        } else {
            nodes_agree(res, arg1, arg2) && nodes_agree(res, arg1, node) && nodes_agree(
                res,
                arg2,
                node,
            )
        },
        ExprV::Select { cond, true_value, false_value } => bound_to(res, cond, KindV::Bits(1))
            && nodes_agree(res, true_value, false_value) && nodes_agree(res, true_value, node)
            && nodes_agree(res, false_value, node),
        ExprV::IndexPath { arg, path } => 0 <= arg < res.len() && (res[arg] matches Some(ka) ==> (
        crate::path::spec_bit_range(ka@, spec_type_path(path)) matches Ok(t) && bound_to(
            res,
            node,
            t.2,
        ))),
        ExprV::Call { func, args } => {
            &&& args.len() == func.signature.arguments.len()
            &&& forall|j: int|
                0 <= j < args.len() ==> bound_to(
                    res,
                    #[trigger] args[j],
                    func.signature.arguments[j],
                )
            &&& bound_to(res, node, func.signature.ret)
        },
    }
}

/// What inference guarantees of a successful result: the context is a
/// fixed point of constraint propagation — every node's typing
/// constraint holds of the bindings as returned.
pub open spec fn inference_post(kv: KernelV, res: Seq<Option<Kind>>) -> bool {
    &&& res.len() == kv.exprs.len()
    &&& forall|node: int|
        0 <= node < kv.exprs.len() ==> #[trigger] node_constraint(kv, res, node)
}

/// The typing constraint of one node under a total assignment of kinds:
/// the obligation [`node_constraint`] states over partial bindings, read
/// over an assignment that resolves every node.
pub open spec fn model_node_ok(kv: KernelV, m: Seq<KindV>, node: int) -> bool {
    match kv.exprs[node] {
        ExprV::Arg { index } => 0 <= index < kv.arguments.len() && m[node] == kv.arguments[index],
        ExprV::Literal { value, width } => match width {
            Some(w) => m[node] == KindV::Bits(w as nat),
            None => true,
        },
        ExprV::Not { arg } => 0 <= arg < m.len() && m[arg] == m[node],
        ExprV::Binary { op, arg1, arg2 } => {
            &&& 0 <= arg1 < m.len()
            &&& 0 <= arg2 < m.len()
            &&& m[arg1] == m[arg2]
            &&& if op is Eq {
                m[node] == KindV::Bits(1)
            } else {
                m[arg1] == m[node]
            }
        },
        ExprV::Select { cond, true_value, false_value } => {
            &&& 0 <= cond < m.len()
            &&& 0 <= true_value < m.len()
            &&& 0 <= false_value < m.len()
            &&& m[cond] == KindV::Bits(1)
            &&& m[true_value] == m[false_value]
            &&& m[true_value] == m[node]
        },
        ExprV::IndexPath { arg, path } => 0 <= arg < m.len() && (crate::path::spec_bit_range(
            m[arg],
            spec_type_path(path),
        ) matches Ok(t) && m[node] == t.2),
        ExprV::Call { func, args } => {
            &&& args.len() == func.signature.arguments.len()
            &&& forall|j: int|
                0 <= j < args.len() ==> 0 <= #[trigger] args[j] < m.len() && m[args[j]]
                    == func.signature.arguments[j]
            &&& m[node] == func.signature.ret
        },
    }
}

/// A total typing of a kernel: one kind per node, satisfying every node's
/// constraint.
pub open spec fn kernel_models(kv: KernelV, m: Seq<KindV>) -> bool {
    &&& m.len() == kv.exprs.len()
    &&& forall|node: int| 0 <= node < kv.exprs.len() ==> #[trigger] model_node_ok(kv, m, node)
}

/// The bindings agree with a total typing: every resolved node carries
/// the typing's kind.
pub open spec fn res_agrees(res: Seq<Option<Kind>>, m: Seq<KindV>) -> bool {
    &&& res.len() == m.len()
    &&& forall|i: int|
        0 <= i < res.len() ==> ((#[trigger] res[i]) matches Some(k) ==> k@ == m[i])
}

/// Binds a node to a kind, failing when a different kind is already bound.
fn bind(res: &mut Vec<Option<Kind>>, node: usize, kind: Kind, changed: &mut bool) -> (r: Result<
    (),
    TypeInferenceError,
>)
    requires
        node < old(res)@.len(),
        kind_wf(kind@),
        ctx_wf(old(res)@),
    ensures
        final(res)@.len() == old(res)@.len(),
        ctx_wf(final(res)@),
        r is Ok ==> (final(res)@[node as int] matches Some(k) && k@ == kind@),
        forall|i: int|
            0 <= i < final(res)@.len() && i != node ==> final(res)@[i] == #[trigger] old(
                res,
            )@[i],
        r matches Err(e) ==> e is UnificationFailure,
        r is Err ==> final(res)@ == old(res)@ && (old(res)@[node as int] matches Some(k) && k@
            != kind@),
        r is Ok ==> forall|m: Seq<KindV>|
            res_agrees(old(res)@, m) && m[node as int] == kind@ ==> res_agrees(final(res)@, m),
        somes(final(res)@) >= somes(old(res)@),
        *final(changed) == *old(changed) || *final(changed),
        *old(changed) == false && *final(changed) == false ==> final(res)@ == old(res)@,
        *old(changed) == false && *final(changed) == true ==> somes(final(res)@) >= somes(
            old(res)@,
        ) + 1,
{
    let is_none = match &res[node] {
        None => true,
        Some(_) => false,
    };
    if is_none {
        proof {
            lemma_somes_update(res@, node as int, Some(kind));
        }
        let slot = &mut res[node];
        *slot = Some(kind);
        *changed = true;
        proof {
            assert(ctx_wf(res@));
        }
        Ok(())
    } else {
        let same = match &res[node] {
            Some(k) => kind_eq(k, &kind),
            None => false,
        };
        if same {
            proof {
                assert(res@[node as int] matches Some(k) && k@ == kind@);
            }
            Ok(())
        } else {
            Err(TypeInferenceError::UnificationFailure { node })
        }
    }
}

/// A copy of the path with every dynamic index replaced by a leading
/// concrete index, used to resolve the navigated kind during inference.
fn type_path(path: &Path) -> (r: Path)
    ensures
        r@ == spec_type_path(path@),
{
    let mut elements: Vec<PathElement> = Vec::new();
    let mut i: usize = 0;
    while i < path.elements.len()
        invariant
            i <= path.elements@.len(),
            path@.len() == path.elements@.len(),
            elements@.len() == i,
            forall|j: int|
                0 <= j < i ==> #[trigger] elements@[j]@ == spec_type_path(path@)[j],
        decreases path.elements.len() - i,
    {
        proof {
            assert(path@[i as int] == path.elements@[i as int]@);
        }
        match &path.elements[i] {
            PathElement::DynamicIndex(_) => {
                elements.push(PathElement::Index(0));
            },
            e => {
                elements.push(e.clone());
            },
        }
        i = i + 1;
    }
    let r = Path { elements };
    proof {
        assert(r@ =~= spec_type_path(path@));
    }
    r
}

/// Constraint-based type inference: propagates argument, literal, and
/// signature kinds through the kernel body to a fixed point, producing
/// the resolved kind of every node it can determine.
///
/// Success is owed whenever the kernel has any total typing at all
/// ([`kernel_models`]); a failure therefore witnesses a genuine conflict
/// or an ill-scoped node.  On success the result is a fixed point of the
/// constraints ([`inference_post`]).  The iteration terminates because a
/// round either resolves at least one more node or changes nothing and
/// stops.
#[verifier::loop_isolation(false)]
#[verifier::rlimit(100)]
pub fn infer(kernel: &Kernel) -> (r: Result<TypeCtx, TypeInferenceError>)
    requires
        kernel_sig_wf(kernel@),
    ensures
        r matches Ok(ctx) ==> ctx.res@.len() == kernel@.exprs.len() && ctx_wf(ctx.res@)
            && inference_post(kernel@, ctx.res@),
        r matches Err(e) ==> e is UnificationFailure,
        (exists|m: Seq<KindV>| kernel_models(kernel@, m)) ==> r is Ok,
{
    let ghost kv = kernel@;
    let n = kernel.exprs.len();
    proof {
        lemma_exprs_view_len(kernel.exprs@);
        crate::kind::lemma_kinds_view_len(kernel.arguments@);
    }
    let mut res: Vec<Option<Kind>> = Vec::new();
    let mut i: usize = 0;
    while i < n
        invariant
            i <= n,
            res@.len() == i,
            ctx_wf(res@),
            forall|j: int| 0 <= j < i ==> (#[trigger] res@[j]) is None,
        decreases n - i,
    {
        res.push(None);
        proof {
            assert(ctx_wf(res@));
        }
        i = i + 1;
    }
    proof {
        assert forall|m: Seq<KindV>| #[trigger] kernel_models(kv, m) implies res_agrees(
            res@,
            m,
        ) by {}
    }
    let ghost mut round: int = 0;
    let mut changed = true;
    while changed
        invariant
            res@.len() == n,
            ctx_wf(res@),
            0 <= round,
            changed ==> round <= somes(res@),
            !changed ==> inference_post(kv, res@),
            forall|m: Seq<KindV>| #[trigger] kernel_models(kv, m) ==> res_agrees(res@, m),
        decreases n + 1 - round,
    {
        let ghost s0 = somes(res@);
        let ghost res0 = res@;
        changed = false;
        let mut node: usize = 0;
        while node < n
            invariant
                node <= n,
                res@.len() == n,
                ctx_wf(res@),
                somes(res@) >= s0,
                changed ==> somes(res@) >= s0 + 1,
                !changed ==> res@ == res0,
                !changed ==> forall|m: int|
                    0 <= m < node ==> #[trigger] node_constraint(kv, res0, m),
                forall|m: Seq<KindV>| #[trigger] kernel_models(kv, m) ==> res_agrees(res@, m),
            decreases n - node,
        {
            proof {
                lemma_exprs_view_index(kernel.exprs@, node as int);
            }
            let ghost pre_res = res@;
            let ghost pre_changed = changed;
            match &kernel.exprs[node] {
                Expr::Arg { index } => {
                    if *index >= kernel.arguments.len() {
                        proof {
                            assert forall|m: Seq<KindV>| !kernel_models(kv, m) by {
                                if kernel_models(kv, m) {
                                    assert(model_node_ok(kv, m, node as int));
                                }
                            }
                        }
                        return Err(TypeInferenceError::UnificationFailure { node });
                    }
                    proof {
                        lemma_kinds_view_index(kernel.arguments@, *index as int);
                        assert(kv.arguments == kinds_view(kernel.arguments@));
                        assert(kind_wf(kv.arguments[*index as int]));
                        assert(kv.arguments[*index as int] == crate::kind::kind_view(
                            kernel.arguments@[*index as int],
                        ));
                        assert(kernel.arguments@[*index as int]@ == crate::kind::kind_view(
                            kernel.arguments@[*index as int],
                        ));
                        assert(kind_wf(kernel.arguments@[*index as int]@));
                    }
                    let k = kernel.arguments[*index].clone();
                    let ghost kvw = k@;
                    match bind(&mut res, node, k, &mut changed) {
                        Ok(()) => {},
                        Err(e) => {
                            proof {
                                assert forall|m: Seq<KindV>| !kernel_models(kv, m) by {
                                    if kernel_models(kv, m) {
                                        assert(res_agrees(res@, m));
                                        assert(model_node_ok(kv, m, node as int));
                                        assert(m[node as int] == kvw);
                                    }
                                }
                            }
                            return Err(e);
                        },
                    }
                    proof {
                        assert forall|m: Seq<KindV>| #[trigger] kernel_models(
                            kv,
                            m,
                        ) implies res_agrees(res@, m) by {
                            assert(res_agrees(pre_res, m));
                            assert(model_node_ok(kv, m, node as int));
                            assert(m[node as int] == kvw);
                        }
                        if !changed {
                            assert(node_constraint(kv, res@, node as int));
                        }
                    }
                },
                Expr::Literal { value, width } => {
                    match width {
                        Some(w) => {
                            match bind(&mut res, node, Kind::Bits(*w), &mut changed) {
                                Ok(()) => {},
                                Err(e) => {
                                    proof {
                                        assert forall|m: Seq<KindV>| !kernel_models(kv, m) by {
                                            if kernel_models(kv, m) {
                                                assert(res_agrees(res@, m));
                                                assert(model_node_ok(kv, m, node as int));
                                                assert(m[node as int] == KindV::Bits(*w as nat));
                                            }
                                        }
                                    }
                                    return Err(e);
                                },
                            }
                            proof {
                                assert forall|m: Seq<KindV>| #[trigger] kernel_models(
                                    kv,
                                    m,
                                ) implies res_agrees(res@, m) by {
                                    assert(res_agrees(pre_res, m));
                                    assert(model_node_ok(kv, m, node as int));
                                    assert(m[node as int] == KindV::Bits(*w as nat));
                                }
                            }
                        },
                        None => {},
                    }
                    proof {
                        if !changed {
                            assert(node_constraint(kv, res@, node as int));
                        }
                    }
                },
                Expr::Not { arg } => {
                    if *arg >= n {
                        proof {
                            assert forall|m: Seq<KindV>| !kernel_models(kv, m) by {
                                if kernel_models(kv, m) {
                                    assert(model_node_ok(kv, m, node as int));
                                }
                            }
                        }
                        return Err(TypeInferenceError::UnificationFailure { node });
                    }
                    match propagate2(&mut res, *arg, node, &mut changed) {
                        Ok(()) => {},
                        Err(e) => {
                            proof {
                                assert forall|m: Seq<KindV>| !kernel_models(kv, m) by {
                                    if kernel_models(kv, m) {
                                        assert(res_agrees(res@, m));
                                        assert(model_node_ok(kv, m, node as int));
                                    }
                                }
                            }
                            return Err(e);
                        },
                    }
                    proof {
                        assert forall|m: Seq<KindV>| #[trigger] kernel_models(
                            kv,
                            m,
                        ) implies res_agrees(res@, m) by {
                            assert(res_agrees(pre_res, m));
                            assert(model_node_ok(kv, m, node as int));
                        }
                        if !changed {
                            assert(node_constraint(kv, res@, node as int));
                        }
                    }
                },
                Expr::Binary { op, arg1, arg2 } => {
                    if *arg1 >= n || *arg2 >= n {
                        proof {
                            assert forall|m: Seq<KindV>| !kernel_models(kv, m) by {
                                if kernel_models(kv, m) {
                                    assert(model_node_ok(kv, m, node as int));
                                }
                            }
                        }
                        return Err(TypeInferenceError::UnificationFailure { node });
                    }
                    let ghost r1 = res@;
                    match propagate2(&mut res, *arg1, *arg2, &mut changed) {
                        Ok(()) => {},
                        Err(e) => {
                            proof {
                                assert forall|m: Seq<KindV>| !kernel_models(kv, m) by {
                                    if kernel_models(kv, m) {
                                        assert(res_agrees(res@, m));
                                        assert(model_node_ok(kv, m, node as int));
                                    }
                                }
                            }
                            return Err(e);
                        },
                    }
                    proof {
                        assert forall|m: Seq<KindV>| #[trigger] kernel_models(
                            kv,
                            m,
                        ) implies res_agrees(res@, m) by {
                            assert(res_agrees(r1, m));
                            assert(model_node_ok(kv, m, node as int));
                        }
                    }
                    let is_eq = match op {
                        AluBinary::Eq => true,
                        _ => false,
                    };
                    if is_eq {
                        let ghost r2 = res@;
                        match bind(&mut res, node, Kind::Bits(1), &mut changed) {
                            Ok(()) => {},
                            Err(e) => {
                                proof {
                                    assert forall|m: Seq<KindV>| !kernel_models(kv, m) by {
                                        if kernel_models(kv, m) {
                                            assert(res_agrees(res@, m));
                                            assert(model_node_ok(kv, m, node as int));
                                            assert(m[node as int] == KindV::Bits(1));
                                        }
                                    }
                                }
                                return Err(e);
                            },
                        }
                        proof {
                            assert forall|m: Seq<KindV>| #[trigger] kernel_models(
                                kv,
                                m,
                            ) implies res_agrees(res@, m) by {
                                assert(res_agrees(r2, m));
                                assert(model_node_ok(kv, m, node as int));
                                assert(m[node as int] == KindV::Bits(1));
                            }
                        }
                    } else {
                        let ghost r2 = res@;
                        match propagate2(&mut res, *arg1, node, &mut changed) {
                            Ok(()) => {},
                            Err(e) => {
                                proof {
                                    assert forall|m: Seq<KindV>| !kernel_models(kv, m) by {
                                        if kernel_models(kv, m) {
                                            assert(res_agrees(res@, m));
                                            assert(model_node_ok(kv, m, node as int));
                                        }
                                    }
                                }
                                return Err(e);
                            },
                        }
                        proof {
                            assert forall|m: Seq<KindV>| #[trigger] kernel_models(
                                kv,
                                m,
                            ) implies res_agrees(res@, m) by {
                                assert(res_agrees(r2, m));
                                assert(model_node_ok(kv, m, node as int));
                            }
                        }
                        let ghost r3 = res@;
                        match propagate2(&mut res, *arg2, node, &mut changed) {
                            Ok(()) => {},
                            Err(e) => {
                                proof {
                                    assert forall|m: Seq<KindV>| !kernel_models(kv, m) by {
                                        if kernel_models(kv, m) {
                                            assert(res_agrees(res@, m));
                                            assert(model_node_ok(kv, m, node as int));
                                        }
                                    }
                                }
                                return Err(e);
                            },
                        }
                        proof {
                            assert forall|m: Seq<KindV>| #[trigger] kernel_models(
                                kv,
                                m,
                            ) implies res_agrees(res@, m) by {
                                assert(res_agrees(r3, m));
                                assert(model_node_ok(kv, m, node as int));
                            }
                        }
                    }
                    proof {
                        if !changed {
                            assert(node_constraint(kv, res@, node as int));
                        }
                    }
                },
                Expr::Select { cond, true_value, false_value } => {
                    if *cond >= n || *true_value >= n || *false_value >= n {
                        proof {
                            assert forall|m: Seq<KindV>| !kernel_models(kv, m) by {
                                if kernel_models(kv, m) {
                                    assert(model_node_ok(kv, m, node as int));
                                }
                            }
                        }
                        return Err(TypeInferenceError::UnificationFailure { node });
                    }
                    let ghost r1 = res@;
                    match bind(&mut res, *cond, Kind::Bits(1), &mut changed) {
                        Ok(()) => {},
                        Err(e) => {
                            proof {
                                assert forall|m: Seq<KindV>| !kernel_models(kv, m) by {
                                    if kernel_models(kv, m) {
                                        assert(res_agrees(res@, m));
                                        assert(model_node_ok(kv, m, node as int));
                                        assert(m[*cond as int] == KindV::Bits(1));
                                    }
                                }
                            }
                            return Err(e);
                        },
                    }
                    proof {
                        assert forall|m: Seq<KindV>| #[trigger] kernel_models(
                            kv,
                            m,
                        ) implies res_agrees(res@, m) by {
                            assert(res_agrees(r1, m));
                            assert(model_node_ok(kv, m, node as int));
                            assert(m[*cond as int] == KindV::Bits(1));
                        }
                    }
                    let ghost r2 = res@;
                    match propagate2(&mut res, *true_value, *false_value, &mut changed) {
                        Ok(()) => {},
                        Err(e) => {
                            proof {
                                assert forall|m: Seq<KindV>| !kernel_models(kv, m) by {
                                    if kernel_models(kv, m) {
                                        assert(res_agrees(res@, m));
                                        assert(model_node_ok(kv, m, node as int));
                                    }
                                }
                            }
                            return Err(e);
                        },
                    }
                    proof {
                        assert forall|m: Seq<KindV>| #[trigger] kernel_models(
                            kv,
                            m,
                        ) implies res_agrees(res@, m) by {
                            assert(res_agrees(r2, m));
                            assert(model_node_ok(kv, m, node as int));
                        }
                    }
                    let ghost r3 = res@;
                    match propagate2(&mut res, *true_value, node, &mut changed) {
                        Ok(()) => {},
                        Err(e) => {
                            proof {
                                assert forall|m: Seq<KindV>| !kernel_models(kv, m) by {
                                    if kernel_models(kv, m) {
                                        assert(res_agrees(res@, m));
                                        assert(model_node_ok(kv, m, node as int));
                                    }
                                }
                            }
                            return Err(e);
                        },
                    }
                    proof {
                        assert forall|m: Seq<KindV>| #[trigger] kernel_models(
                            kv,
                            m,
                        ) implies res_agrees(res@, m) by {
                            assert(res_agrees(r3, m));
                            assert(model_node_ok(kv, m, node as int));
                        }
                    }
                    let ghost r4 = res@;
                    match propagate2(&mut res, *false_value, node, &mut changed) {
                        Ok(()) => {},
                        Err(e) => {
                            proof {
                                assert forall|m: Seq<KindV>| !kernel_models(kv, m) by {
                                    if kernel_models(kv, m) {
                                        assert(res_agrees(res@, m));
                                        assert(model_node_ok(kv, m, node as int));
                                    }
                                }
                            }
                            return Err(e);
                        },
                    }
                    proof {
                        assert forall|m: Seq<KindV>| #[trigger] kernel_models(
                            kv,
                            m,
                        ) implies res_agrees(res@, m) by {
                            assert(res_agrees(r4, m));
                            assert(model_node_ok(kv, m, node as int));
                        }
                        if !changed {
                            assert(node_constraint(kv, res@, node as int));
                        }
                    }
                },
                Expr::IndexPath { arg, path } => {
                    if *arg >= n {
                        proof {
                            assert forall|m: Seq<KindV>| !kernel_models(kv, m) by {
                                if kernel_models(kv, m) {
                                    assert(model_node_ok(kv, m, node as int));
                                }
                            }
                        }
                        return Err(TypeInferenceError::UnificationFailure { node });
                    }
                    let base = match &res[*arg] {
                        Some(k) => Some(k.clone()),
                        None => None,
                    };
                    match base {
                        Some(k) => {
                            proof {
                                assert(res@[*arg as int] matches Some(kk) && kk@ == k@);
                                assert(kind_wf(k@));
                            }
                            let ghost kav = k@;
                            let tp = type_path(path);
                            match sub_kind(k, &tp) {
                                Ok(k2) => {
                                    let ghost k2v = k2@;
                                    match bind(&mut res, node, k2, &mut changed) {
                                        Ok(()) => {},
                                        Err(e) => {
                                            proof {
                                                assert forall|m: Seq<KindV>| !kernel_models(
                                                    kv,
                                                    m,
                                                ) by {
                                                    if kernel_models(kv, m) {
                                                        assert(res_agrees(res@, m));
                                                        assert(model_node_ok(
                                                            kv,
                                                            m,
                                                            node as int,
                                                        ));
                                                        assert(m[*arg as int] == kav);
                                                        assert(m[node as int] == k2v);
                                                    }
                                                }
                                            }
                                            return Err(e);
                                        },
                                    }
                                    proof {
                                        assert forall|m: Seq<KindV>| #[trigger] kernel_models(
                                            kv,
                                            m,
                                        ) implies res_agrees(res@, m) by {
                                            assert(res_agrees(pre_res, m));
                                            assert(model_node_ok(kv, m, node as int));
                                            assert(m[*arg as int] == kav);
                                            assert(m[node as int] == k2v);
                                        }
                                    }
                                },
                                Err(_) => {
                                    proof {
                                        assert forall|m: Seq<KindV>| !kernel_models(kv, m) by {
                                            if kernel_models(kv, m) {
                                                assert(res_agrees(pre_res, m));
                                                assert(model_node_ok(kv, m, node as int));
                                                assert(m[*arg as int] == kav);
                                            }
                                        }
                                    }
                                    return Err(
                                        TypeInferenceError::UnificationFailure { node },
                                    );
                                },
                            }
                        },
                        None => {},
                    }
                    proof {
                        if !changed {
                            assert(res@ == pre_res);
                            assert(node_constraint(kv, res@, node as int));
                        }
                    }
                },
                Expr::Call { func, args } => {
                    let ghost fv = func@;
                    let ghost av = (match kv.exprs[node as int] {
                        ExprV::Call { func: _, args: a } => a,
                        _ => Seq::empty(),
                    });
                    proof {
                        assert(kv.exprs[node as int] matches ExprV::Call { func: f2, args: a2 }
                            && f2 == fv && a2 == av);
                        assert(av.len() == args@.len());
                        assert(forall|j: int|
                            0 <= j < av.len() ==> #[trigger] av[j] == args@[j] as int);
                        assert(extfn_sig_wf(fv));
                        crate::kind::lemma_kinds_view_len(func.signature.arguments@);
                        assert(fv.signature.arguments == kinds_view(func.signature.arguments@));
                    }
                    if args.len() != func.signature.arguments.len() {
                        proof {
                            assert forall|m: Seq<KindV>| !kernel_models(kv, m) by {
                                if kernel_models(kv, m) {
                                    assert(model_node_ok(kv, m, node as int));
                                }
                            }
                        }
                        return Err(TypeInferenceError::UnificationFailure { node });
                    }
                    let mut j: usize = 0;
                    while j < args.len()
                        invariant
                            j <= args@.len(),
                            res@.len() == n,
                            ctx_wf(res@),
                            args@.len() == func.signature.arguments@.len(),
                            somes(res@) >= s0,
                            pre_changed ==> changed,
                            changed ==> somes(res@) >= s0 + 1,
                            !changed ==> res@ == res0,
                            !changed ==> forall|jj: int|
                                0 <= jj < j ==> bound_to(
                                    res@,
                                    #[trigger] av[jj],
                                    fv.signature.arguments[jj],
                                ),
                            forall|m: Seq<KindV>| #[trigger] kernel_models(kv, m)
                                ==> res_agrees(res@, m),
                        decreases args@.len() - j,
                    {
                        if args[j] >= n {
                            proof {
                                assert forall|m: Seq<KindV>| !kernel_models(kv, m) by {
                                    if kernel_models(kv, m) {
                                        assert(model_node_ok(kv, m, node as int));
                                        assert(0 <= av[j as int] < m.len());
                                    }
                                }
                            }
                            return Err(TypeInferenceError::UnificationFailure { node });
                        }
                        proof {
                            lemma_kinds_view_index(func.signature.arguments@, j as int);
                            assert(kind_wf(fv.signature.arguments[j as int]));
                            assert(func.signature.arguments@[j as int]@
                                == crate::kind::kind_view(func.signature.arguments@[j as int]));
                            assert(kind_wf(func.signature.arguments@[j as int]@));
                        }
                        let k = func.signature.arguments[j].clone();
                        let ghost kjw = k@;
                        let ghost rj = res@;
                        match bind(&mut res, args[j], k, &mut changed) {
                            Ok(()) => {},
                            Err(e) => {
                                proof {
                                    assert forall|m: Seq<KindV>| !kernel_models(kv, m) by {
                                        if kernel_models(kv, m) {
                                            assert(res_agrees(res@, m));
                                            assert(model_node_ok(kv, m, node as int));
                                            assert(m[av[j as int]] == kjw);
                                        }
                                    }
                                }
                                return Err(e);
                            },
                        }
                        proof {
                            assert forall|m: Seq<KindV>| #[trigger] kernel_models(
                                kv,
                                m,
                            ) implies res_agrees(res@, m) by {
                                assert(res_agrees(rj, m));
                                assert(model_node_ok(kv, m, node as int));
                                assert(m[av[j as int]] == kjw);
                            }
                        }
                        j = j + 1;
                    }
                    proof {
                        assert(fv.signature.ret == func.signature.ret@);
                        assert(kind_wf(func.signature.ret@));
                    }
                    let k = func.signature.ret.clone();
                    let ghost krw = k@;
                    let ghost rr = res@;
                    match bind(&mut res, node, k, &mut changed) {
                        Ok(()) => {},
                        Err(e) => {
                            proof {
                                assert forall|m: Seq<KindV>| !kernel_models(kv, m) by {
                                    if kernel_models(kv, m) {
                                        assert(res_agrees(res@, m));
                                        assert(model_node_ok(kv, m, node as int));
                                        assert(m[node as int] == krw);
                                    }
                                }
                            }
                            return Err(e);
                        },
                    }
                    proof {
                        assert forall|m: Seq<KindV>| #[trigger] kernel_models(
                            kv,
                            m,
                        ) implies res_agrees(res@, m) by {
                            assert(res_agrees(rr, m));
                            assert(model_node_ok(kv, m, node as int));
                            assert(m[node as int] == krw);
                        }
                        if !changed {
                            assert(node_constraint(kv, res@, node as int));
                        }
                    }
                },
            }
            proof {
                if !changed {
                    assert(!pre_changed);
                    assert(res@ == res0);
                    assert(node_constraint(kv, res0, node as int));
                    assert(forall|m: int|
                        0 <= m < node ==> #[trigger] node_constraint(kv, res0, m));
                }
            }
            node = node + 1;
        }
        proof {
            if !changed {
                assert(res@ == res0);
                assert(inference_post(kv, res@)) by {
                    assert(forall|m: int|
                        0 <= m < n ==> #[trigger] node_constraint(kv, res0, m));
                }
            }
            round = round + 1;
            lemma_somes_le_len(res@);
        }
    }
    Ok(TypeCtx { res })
}

/// Propagates a binding between two nodes that must have the same type.
fn propagate2(res: &mut Vec<Option<Kind>>, a: usize, b: usize, changed: &mut bool) -> (r: Result<
    (),
    TypeInferenceError,
>)
    requires
        a < old(res)@.len(),
        b < old(res)@.len(),
        ctx_wf(old(res)@),
    ensures
        final(res)@.len() == old(res)@.len(),
        ctx_wf(final(res)@),
        r matches Err(e) ==> e is UnificationFailure,
        r is Err ==> final(res)@ == old(res)@ && old(res)@[a as int] is Some
            && old(res)@[b as int] is Some && old(res)@[a as int]->0@ != old(res)@[b as int]->0@,
        r is Ok ==> forall|m: Seq<KindV>|
            res_agrees(old(res)@, m) && m[a as int] == m[b as int] ==> res_agrees(
                final(res)@,
                m,
            ),
        somes(final(res)@) >= somes(old(res)@),
        *final(changed) == *old(changed) || *final(changed),
        *old(changed) == false && *final(changed) == false ==> final(res)@ == old(res)@
            && (r is Ok ==> nodes_agree(old(res)@, a as int, b as int)),
        *old(changed) == false && *final(changed) == true ==> somes(final(res)@) >= somes(
            old(res)@,
        ) + 1,
{
    let ka = match &res[a] {
        Some(k) => Some(k.clone()),
        None => None,
    };
    match ka {
        Some(k) => {
            proof {
                assert(old(res)@[a as int] matches Some(kk) && kk@ == k@);
                assert(kind_wf(k@));
            }
            bind(res, b, k, changed)?;
            Ok(())
        },
        None => {
            let kb = match &res[b] {
                Some(k) => Some(k.clone()),
                None => None,
            };
            match kb {
                Some(k) => {
                    proof {
                        assert(old(res)@[b as int] matches Some(kk) && kk@ == k@);
                        assert(kind_wf(k@));
                    }
                    bind(res, a, k, changed)?;
                    Ok(())
                },
                None => Ok(()),
            }
        },
    }
}

/// Asserts inference completeness: fails with the first node whose type is
/// still unresolved.  Succeeds exactly when every node is resolved.
pub fn check_inference(kernel: &Kernel, ctx: &TypeCtx) -> (r: Result<(), TypeInferenceError>)
    requires
        ctx.res@.len() == kernel@.exprs.len(),
    ensures
        r is Ok <==> (forall|i: int| 0 <= i < ctx.res@.len() ==> (#[trigger] ctx.res@[i]) is Some),
        r matches Err(e) ==> e is UnresolvedType,
{
    let mut i: usize = 0;
    while i < ctx.res.len()
        invariant
            i <= ctx.res@.len(),
            forall|j: int| 0 <= j < i ==> (#[trigger] ctx.res@[j]) is Some,
        decreases ctx.res@.len() - i,
    {
        match &ctx.res[i] {
            None => {
                return Err(TypeInferenceError::UnresolvedType { node: i });
            },
            Some(_) => {},
        }
        i = i + 1;
    }
    Ok(())
}

/// The external functions a kernel body calls, in node order, one entry
/// per call site.
pub open spec fn spec_kernel_calls(exprs: Seq<ExprV>) -> Seq<ExternalFunctionV>
    decreases exprs,
{
    if exprs.len() == 0 {
        Seq::empty()
    } else {
        let rest = spec_kernel_calls(exprs.drop_last());
        match exprs.last() {
            ExprV::Call { func, args } => rest.push(func),
            _ => rest,
        }
    }
}

/// Node `m` of a kernel body was lowered: some instruction assigns the
/// node's register and carries the node as its source tag.
pub open spec fn lowered_node(instrs: Seq<crate::rhif::InstrV>, nargs: int, m: int) -> bool {
    exists|j: int|
        0 <= j < instrs.len() && (#[trigger] instrs[j]).lhs == nargs + m && instrs[j].node == m
}

/// Extending an instruction sequence preserves which nodes are lowered.
proof fn lemma_lowered_prefix(
    a: Seq<crate::rhif::InstrV>,
    b: Seq<crate::rhif::InstrV>,
    nargs: int,
    bound: int,
)
    requires
        a.len() <= b.len(),
        forall|j: int| 0 <= j < a.len() ==> #[trigger] b[j] == a[j],
        forall|m: int| 0 <= m < bound ==> #[trigger] lowered_node(a, nargs, m),
    ensures
        forall|m: int| 0 <= m < bound ==> #[trigger] lowered_node(b, nargs, m),
{
    assert forall|m: int| 0 <= m < bound implies #[trigger] lowered_node(b, nargs, m) by {
        assert(lowered_node(a, nargs, m));
        let j = choose|j: int|
            0 <= j < a.len() && (#[trigger] a[j]).lhs == nargs + m && a[j].node == m;
        assert(b[j] == a[j]);
    }
}

/// Lowers a kernel body into a register object.
///
/// Registers `0..arguments.len()` hold the arguments; the node at index
/// `i` is assigned to register `arguments.len() + i`; sub-field accesses
/// through paths become bit extractions via the path engine, and a path
/// with dynamic indices is expanded into its concrete extractions joined
/// by a chain of multiplexers over the index registers.
#[verifier::loop_isolation(false)]
pub fn compile(kernel: &Kernel, ctx: &TypeCtx) -> (r: Result<Object, LoweringError>)
    requires
        kernel_sig_wf(kernel@),
        ctx.res@.len() == kernel@.exprs.len(),
        ctx_wf(ctx.res@),
        forall|i: int| 0 <= i < ctx.res@.len() ==> (#[trigger] ctx.res@[i]) is Some,
    ensures
        r matches Ok(o) ==> o@.fn_id == kernel@.fn_id && o@.name == kernel@.name
            && o@.externals == spec_kernel_calls(kernel@.exprs) && o@.symbols.source.source
            == kernel@.name && o@.arguments.len() == kernel@.arguments.len() && (forall|j: int|
            0 <= j < o@.arguments.len() ==> #[trigger] o@.arguments[j] == j) && 0 <= kernel@.ret
            < kernel@.exprs.len() && o@.return_register == kernel@.arguments.len() + kernel@.ret
            && o@.kinds.len() >= kernel@.arguments.len() + kernel@.exprs.len() && (forall|j: int|
            0 <= j < kernel@.arguments.len() ==> #[trigger] o@.kinds[j] == kernel@.arguments[j])
            && (forall|i: int|
            0 <= i < kernel@.exprs.len() ==> ((#[trigger] ctx.res@[i]) matches Some(k)
                ==> o@.kinds[kernel@.arguments.len() + i] == k@)) && (forall|m: int|
            0 <= m < kernel@.exprs.len() ==> #[trigger] lowered_node(
                o@.instrs,
                kernel@.arguments.len() as int,
                m,
            )),
        r matches Err(e) ==> (e is UnsupportedConstruct || e is Path),
{
    let ghost kv = kernel@;
    let nargs = kernel.arguments.len();
    let n = kernel.exprs.len();
    proof {
        lemma_exprs_view_len(kernel.exprs@);
        crate::kind::lemma_kinds_view_len(kernel.arguments@);
    }
    if kernel.ret >= n {
        return Err(LoweringError::UnsupportedConstruct { node: kernel.ret });
    }
    if n > usize::MAX - nargs {
        return Err(LoweringError::UnsupportedConstruct { node: 0 });
    }
    // register kinds: arguments first, then one register per node
    let mut kinds: Vec<Kind> = Vec::new();
    let mut arguments: Vec<usize> = Vec::new();
    let mut i: usize = 0;
    while i < nargs
        invariant
            i <= nargs,
            nargs == kernel.arguments@.len(),
            kinds@.len() == i,
            arguments@.len() == i,
            forall|j: int| 0 <= j < i ==> #[trigger] arguments@[j] == j,
            forall|j: int| 0 <= j < i ==> #[trigger] kinds@[j]@ == kernel.arguments@[j]@,
        decreases nargs - i,
    {
        kinds.push(kernel.arguments[i].clone());
        arguments.push(i);
        i = i + 1;
    }
    let mut node: usize = 0;
    while node < n
        invariant
            node <= n,
            kinds@.len() == nargs + node,
            forall|j: int| 0 <= j < nargs ==> #[trigger] kinds@[j]@ == kernel.arguments@[j]@,
            forall|i2: int|
                0 <= i2 < node ==> ((#[trigger] ctx.res@[i2]) matches Some(k) ==> kinds@[nargs
                    + i2]@ == k@),
        decreases n - node,
    {
        proof {
            assert(ctx.res@[node as int] is Some);
        }
        match &ctx.res[node] {
            Some(k) => {
                kinds.push(k.clone());
            },
            None => {
                return Err(LoweringError::UnsupportedConstruct { node });
            },
        }
        node = node + 1;
    }
    // emit the instructions
    let mut instrs: Vec<Instr> = Vec::new();
    let mut externals: Vec<ExternalFunction> = Vec::new();
    let mut node: usize = 0;
    while node < n
        invariant
            node <= n,
            n == kernel.exprs@.len(),
            nargs == kernel.arguments@.len(),
            n <= usize::MAX - nargs,
            kinds@.len() >= nargs + n,
            forall|j: int| 0 <= j < nargs ==> #[trigger] kinds@[j]@ == kernel.arguments@[j]@,
            forall|i2: int|
                0 <= i2 < n ==> ((#[trigger] ctx.res@[i2]) matches Some(k) ==> kinds@[nargs
                    + i2]@ == k@),
            ctx.res@.len() == n,
            extfns_view(externals@) == spec_kernel_calls(exprs_view(kernel.exprs@.take(
                node as int,
            ))),
            forall|m: int|
                0 <= m < node ==> #[trigger] lowered_node(
                    instrs_view(instrs@),
                    nargs as int,
                    m,
                ),
        decreases n - node,
    {
        let ghost pre_instrs = instrs@;
        let ghost pre_kinds = kinds@;
        proof {
            lemma_exprs_view_index(kernel.exprs@, node as int);
            assert(exprs_view(kernel.exprs@.take(node + 1)).drop_last() =~= exprs_view(
                kernel.exprs@.take(node as int),
            )) by {
                assert(kernel.exprs@.take(node + 1).drop_last() =~= kernel.exprs@.take(
                    node as int,
                ));
            }
            assert(exprs_view(kernel.exprs@.take(node + 1)).last() == kernel.exprs@[node as int]@)
                by {
                assert(kernel.exprs@.take(node + 1).last() == kernel.exprs@[node as int]);
            }
            assert(exprs_view(kernel.exprs@.take(node + 1)) == exprs_view(kernel.exprs@.take(
                node as int,
            )).push(kernel.exprs@[node as int]@)) by {
                lemma_exprs_view_len(kernel.exprs@.take(node + 1));
            }
        }
        let lhs = nargs + node;
        match &kernel.exprs[node] {
            Expr::Arg { index } => {
                if *index >= nargs {
                    return Err(LoweringError::UnsupportedConstruct { node });
                }
                instrs.push(Instr { lhs, op: Op::Copy { arg: *index }, node });
            },
            Expr::Literal { value, width } => {
                let w = match &ctx.res[node] {
                    Some(Kind::Bits(w)) => *w,
                    Some(Kind::Signed(w)) => *w,
                    _ => {
                        return Err(LoweringError::UnsupportedConstruct { node });
                    },
                };
                instrs.push(Instr { lhs, op: Op::Literal { value: *value, width: w }, node });
            },
            Expr::Not { arg } => {
                if *arg >= node {
                    return Err(LoweringError::UnsupportedConstruct { node });
                }
                instrs.push(Instr { lhs, op: Op::Not { arg: nargs + *arg }, node });
            },
            Expr::Binary { op, arg1, arg2 } => {
                if *arg1 >= node || *arg2 >= node {
                    return Err(LoweringError::UnsupportedConstruct { node });
                }
                instrs.push(
                    Instr {
                        lhs,
                        op: Op::Binary { op: *op, arg1: nargs + *arg1, arg2: nargs + *arg2 },
                        node,
                    },
                );
            },
            Expr::Select { cond, true_value, false_value } => {
                if *cond >= node || *true_value >= node || *false_value >= node {
                    return Err(LoweringError::UnsupportedConstruct { node });
                }
                instrs.push(
                    Instr {
                        lhs,
                        op: Op::Select {
                            cond: nargs + *cond,
                            true_value: nargs + *true_value,
                            false_value: nargs + *false_value,
                        },
                        node,
                    },
                );
            },
            Expr::IndexPath { arg, path } => {
                if *arg >= node {
                    return Err(LoweringError::UnsupportedConstruct { node });
                }
                let base = match &ctx.res[*arg] {
                    Some(k) => k.clone(),
                    None => {
                        return Err(LoweringError::UnsupportedConstruct { node });
                    },
                };
                proof {
                    assert(ctx.res@[*arg as int] matches Some(kk) && kk@ == base@);
                    assert(kind_wf(base@));
                }
                if !path.any_dynamic() {
                    let base2 = base.clone();
                    match bit_range(base2, path) {
                        Ok(t) => {
                            instrs.push(
                                Instr {
                                    lhs,
                                    op: Op::Index {
                                        arg: nargs + *arg,
                                        bit_start: t.0.start,
                                        bit_len: t.0.end - t.0.start,
                                    },
                                    node,
                                },
                            );
                        },
                        Err(e) => {
                            return Err(LoweringError::Path { node, error: e });
                        },
                    }
                } else {
                    match lower_dynamic_path(
                        kernel,
                        ctx,
                        &mut instrs,
                        &mut kinds,
                        lhs,
                        nargs,
                        node,
                        *arg,
                        &base,
                        path,
                    ) {
                        Ok(()) => {},
                        Err(e) => {
                            return Err(e);
                        },
                    }
                }
            },
            Expr::Call { func, args } => {
                let mut regs: Vec<usize> = Vec::new();
                let mut j: usize = 0;
                while j < args.len()
                    invariant
                        j <= args@.len(),
                        regs@.len() == j,
                    decreases args@.len() - j,
                {
                    if args[j] >= node {
                        return Err(LoweringError::UnsupportedConstruct { node });
                    }
                    regs.push(nargs + args[j]);
                    j = j + 1;
                }
                let fidx = externals.len();
                let ghost pre_ext = externals@;
                externals.push(func.clone());
                proof {
                    assert(externals@.drop_last() =~= pre_ext);
                    assert(extfns_view(externals@) == extfns_view(externals@.drop_last()).push(
                        crate::rhif::extfn_view(externals@.last()),
                    ));
                    assert(crate::rhif::extfn_view(externals@.last()) == func@);
                }
                instrs.push(Instr { lhs, op: Op::Exec { func: fidx, args: regs }, node });
            },
        }
        proof {
            assert(instrs@.len() > pre_instrs.len());
            assert(forall|x: int|
                0 <= x < pre_instrs.len() ==> #[trigger] instrs@[x] == pre_instrs[x]);
            assert(instrs@.last().lhs == nargs + node && instrs@.last().node == node);
            lemma_instrs_view_len(instrs@);
            lemma_instrs_view_len(pre_instrs);
            assert forall|x: int| 0 <= x < instrs@.len() implies #[trigger] instrs_view(
                instrs@,
            )[x] == instrs@[x]@ by {
                lemma_instrs_view_index(instrs@, x);
            }
            assert forall|x: int| 0 <= x < pre_instrs.len() implies #[trigger] instrs_view(
                pre_instrs,
            )[x] == pre_instrs[x]@ by {
                lemma_instrs_view_index(pre_instrs, x);
            }
            assert(forall|x: int|
                0 <= x < pre_instrs.len() ==> #[trigger] instrs_view(instrs@)[x] == instrs_view(
                    pre_instrs,
                )[x]);
            lemma_lowered_prefix(
                instrs_view(pre_instrs),
                instrs_view(instrs@),
                nargs as int,
                node as int,
            );
            assert(lowered_node(instrs_view(instrs@), nargs as int, node as int)) by {
                let last = instrs@.len() - 1;
                assert(instrs_view(instrs@)[last] == instrs@[last]@);
            }
            assert forall|j: int| 0 <= j < nargs implies #[trigger] kinds@[j]@
                == kernel.arguments@[j]@ by {
                assert(kinds@[j] == pre_kinds[j]);
            }
            assert forall|i2: int|
                0 <= i2 < n implies ((#[trigger] ctx.res@[i2]) matches Some(k) ==> kinds@[nargs
                + i2]@ == k@) by {
                assert(kinds@[nargs + i2] == pre_kinds[nargs + i2]);
            }
        }
        node = node + 1;
    }
    proof {
        assert(kernel.exprs@.take(n as int) =~= kernel.exprs@);
    }
    let obj = Object {
        instrs,
        kinds,
        symbols: SymbolMap { source: SpannedSource { source: kernel.name.clone() } },
        externals,
        arguments,
        return_register: nargs + kernel.ret,
        name: kernel.name.clone(),
        fn_id: kernel.fn_id,
    };
    proof {
        crate::kind::lemma_kinds_view_len(obj.kinds@);
        assert forall|j: int| 0 <= j < obj.kinds@.len() implies #[trigger] crate::kind::kinds_view(
            obj.kinds@,
        )[j] == obj.kinds@[j]@ by {
            crate::kind::lemma_kinds_view_index(obj.kinds@, j);
        }
        assert forall|j: int| 0 <= j < nargs implies #[trigger] obj@.kinds[j]
            == kv.arguments[j] by {
            crate::kind::lemma_kinds_view_index(kernel.arguments@, j);
            assert(kv.arguments == kinds_view(kernel.arguments@));
            assert(kv.arguments[j] == crate::kind::kind_view(kernel.arguments@[j]));
            assert(kernel.arguments@[j]@ == crate::kind::kind_view(kernel.arguments@[j]));
        }
    }
    Ok(obj)
}

/// Lowers a sub-field access whose path has dynamic indices: expands the
/// path, extracts each concrete denotation, and joins the extractions with
/// a chain of multiplexers keyed on the index registers.
#[verifier::loop_isolation(false)]
fn lower_dynamic_path(
    kernel: &Kernel,
    ctx: &TypeCtx,
    instrs: &mut Vec<Instr>,
    kinds: &mut Vec<Kind>,
    lhs: usize,
    nargs: usize,
    node: usize,
    arg: usize,
    base: &Kind,
    path: &Path,
) -> (r: Result<(), LoweringError>)
    requires
        kind_wf(base@),
        nargs + node < usize::MAX,
        arg < node,
        node <= ctx.res@.len(),
    ensures
        final(kinds)@.len() >= old(kinds)@.len(),
        forall|j: int|
            0 <= j < old(kinds)@.len() ==> #[trigger] final(kinds)@[j] == old(kinds)@[j],
        r is Ok ==> final(instrs)@.len() > old(instrs)@.len() && (forall|j: int|
            0 <= j < old(instrs)@.len() ==> #[trigger] final(instrs)@[j] == old(instrs)@[j])
            && final(instrs)@.last().lhs == lhs && final(instrs)@.last().node == node,
        r matches Err(_) ==> final(instrs)@.len() >= old(instrs)@.len() && (forall|j: int|
            0 <= j < old(instrs)@.len() ==> #[trigger] final(instrs)@[j] == old(instrs)@[j]),
{
    let paths = match path_star(base, path) {
        Ok(p) => p,
        Err(e) => {
            return Err(LoweringError::Path { node, error: e });
        },
    };
    if paths.len() == 0 {
        return Err(LoweringError::UnsupportedConstruct { node });
    }
    // positions of the dynamic indices, and their index registers
    let mut positions: Vec<usize> = Vec::new();
    let mut dyn_regs: Vec<usize> = Vec::new();
    let mut dyn_widths: Vec<usize> = Vec::new();
    let mut p: usize = 0;
    while p < path.elements.len()
        invariant
            p <= path.elements@.len(),
            positions@.len() == dyn_regs@.len(),
            dyn_widths@.len() == dyn_regs@.len(),
            forall|q: int| 0 <= q < positions@.len() ==> #[trigger] positions@[q] < p,
        decreases path.elements@.len() - p,
    {
        match &path.elements[p] {
            PathElement::DynamicIndex(slot) => {
                let reg_node = match slot {
                    Slot::Register(rn) => *rn,
                    _ => {
                        return Err(LoweringError::UnsupportedConstruct { node });
                    },
                };
                if reg_node >= node {
                    return Err(LoweringError::UnsupportedConstruct { node });
                }
                let w = match &ctx.res[reg_node] {
                    Some(Kind::Bits(w)) => *w,
                    _ => {
                        return Err(LoweringError::UnsupportedConstruct { node });
                    },
                };
                positions.push(p);
                dyn_regs.push(nargs + reg_node);
                dyn_widths.push(w);
            },
            _ => {},
        }
        p = p + 1;
    }
    // extract the first denotation into an accumulator register
    let first = extract_concrete(instrs, kinds, nargs + arg, base, &paths[0], node)?;
    let mut acc = first;
    let mut j: usize = 1;
    let ghost kinds_low = kinds@.len();
    while j < paths.len()
        invariant
            1 <= j <= paths@.len(),
            acc < kinds@.len(),
            kinds@.len() >= kinds_low,
            kinds@.len() >= old(kinds)@.len(),
            forall|x: int|
                0 <= x < old(kinds)@.len() ==> #[trigger] kinds@[x] == old(kinds)@[x],
            instrs@.len() >= old(instrs)@.len(),
            forall|x: int|
                0 <= x < old(instrs)@.len() ==> #[trigger] instrs@[x] == old(instrs)@[x],
            positions@.len() == dyn_regs@.len(),
            dyn_widths@.len() == dyn_regs@.len(),
        decreases paths@.len() - j,
    {
        let e_j = match extract_concrete(instrs, kinds, nargs + arg, base, &paths[j], node) {
            Ok(r0) => r0,
            Err(e) => {
                return Err(e);
            },
        };
        // condition: every index register equals this denotation's index
        let mut cond: Option<usize> = None;
        let mut q: usize = 0;
        while q < positions.len()
            invariant
                q <= positions@.len(),
                positions@.len() == dyn_regs@.len(),
                dyn_widths@.len() == dyn_regs@.len(),
                kinds@.len() >= kinds_low,
                kinds@.len() >= old(kinds)@.len(),
                forall|x: int|
                    0 <= x < old(kinds)@.len() ==> #[trigger] kinds@[x] == old(kinds)@[x],
                instrs@.len() >= old(instrs)@.len(),
                forall|x: int|
                    0 <= x < old(instrs)@.len() ==> #[trigger] instrs@[x] == old(instrs)@[x],
                e_j < kinds@.len(),
                acc < kinds@.len(),
                (cond matches Some(c) ==> c < kinds@.len()),
            decreases positions@.len() - q,
        {
            let pos = positions[q];
            if pos >= paths[j].elements.len() {
                return Err(LoweringError::UnsupportedConstruct { node });
            }
            let idx_value = match &paths[j].elements[pos] {
                PathElement::Index(v) => *v,
                _ => {
                    return Err(LoweringError::UnsupportedConstruct { node });
                },
            };
            if kinds.len() >= usize::MAX - 2 || instrs.len() >= usize::MAX - 2 {
                return Err(LoweringError::UnsupportedConstruct { node });
            }
            // literal with the index value, at the index register's width
            let lit_reg = kinds.len();
            kinds.push(Kind::Bits(dyn_widths[q]));
            instrs.push(
                Instr {
                    lhs: lit_reg,
                    op: Op::Literal { value: idx_value as u128, width: dyn_widths[q] },
                    node,
                },
            );
            let eq_reg = kinds.len();
            kinds.push(Kind::Bits(1));
            instrs.push(
                Instr {
                    lhs: eq_reg,
                    op: Op::Binary { op: AluBinary::Eq, arg1: dyn_regs[q], arg2: lit_reg },
                    node,
                },
            );
            cond = match cond {
                None => Some(eq_reg),
                Some(c) => {
                    let and_reg = kinds.len();
                    kinds.push(Kind::Bits(1));
                    instrs.push(
                        Instr {
                            lhs: and_reg,
                            op: Op::Binary { op: AluBinary::And, arg1: c, arg2: eq_reg },
                            node,
                        },
                    );
                    Some(and_reg)
                },
            };
            q = q + 1;
        }
        let c = match cond {
            Some(c) => c,
            None => {
                return Err(LoweringError::UnsupportedConstruct { node });
            },
        };
        if kinds.len() >= usize::MAX - 1 || instrs.len() >= usize::MAX - 1 {
            return Err(LoweringError::UnsupportedConstruct { node });
        }
        // select this denotation when its indices are live
        let sel_reg = kinds.len();
        let sel_kind = match kind_at(kinds, acc) {
            Some(k) => k,
            None => {
                return Err(LoweringError::UnsupportedConstruct { node });
            },
        };
        kinds.push(sel_kind);
        instrs.push(
            Instr {
                lhs: sel_reg,
                op: Op::Select { cond: c, true_value: e_j, false_value: acc },
                node,
            },
        );
        acc = sel_reg;
        j = j + 1;
    }
    instrs.push(Instr { lhs, op: Op::Copy { arg: acc }, node });
    Ok(())
}

/// The kind of a register, cloned.
fn kind_at(kinds: &Vec<Kind>, r: usize) -> (ret: Option<Kind>)
    ensures
        r < kinds@.len() ==> ret is Some,
{
    if r < kinds.len() {
        Some(kinds[r].clone())
    } else {
        None
    }
}

/// Extracts the bit range a concrete path addresses into a fresh register
/// of the addressed kind, and returns that register.
fn extract_concrete(
    instrs: &mut Vec<Instr>,
    kinds: &mut Vec<Kind>,
    arg_reg: usize,
    base: &Kind,
    path: &Path,
    node: usize,
) -> (r: Result<usize, LoweringError>)
    requires
        kind_wf(base@),
    ensures
        final(kinds)@.len() >= old(kinds)@.len(),
        forall|j: int|
            0 <= j < old(kinds)@.len() ==> #[trigger] final(kinds)@[j] == old(kinds)@[j],
        final(instrs)@.len() >= old(instrs)@.len(),
        forall|j: int|
            0 <= j < old(instrs)@.len() ==> #[trigger] final(instrs)@[j] == old(instrs)@[j],
        r matches Ok(reg) ==> reg < final(kinds)@.len(),
{
    let base2 = base.clone();
    match bit_range(base2, path) {
        Ok(t) => {
            if kinds.len() >= usize::MAX - 1 || instrs.len() >= usize::MAX - 1 {
                return Err(LoweringError::UnsupportedConstruct { node });
            }
            let reg = kinds.len();
            kinds.push(t.1);
            instrs.push(
                Instr {
                    lhs: reg,
                    op: Op::Index {
                        arg: arg_reg,
                        bit_start: t.0.start,
                        bit_len: t.0.end - t.0.start,
                    },
                    node,
                },
            );
            Ok(reg)
        },
        Err(e) => Err(LoweringError::Path { node, error: e }),
    }
}

/// One round of the fixed pass order: copy elimination, multiplexer
/// removal, copy elimination again (mux removal exposes more copies),
/// dead-literal removal, literal pre-casting, useless-cast removal.
pub open spec fn spec_pass_round(o: ObjectV) -> ObjectV {
    spec_remove_useless_casts(
        spec_pre_cast_literals(
            spec_remove_unused_literals(
                spec_remove_extra_registers(
                    spec_remove_unneeded_muxes(spec_remove_extra_registers(o)),
                ),
            ),
        ),
    )
}

/// The whole optimization pipeline: two rounds of the fixed pass order.
pub open spec fn spec_pipeline(o: ObjectV) -> ObjectV {
    spec_pass_round(spec_pass_round(o))
}

/// Runs the fixed optimization pipeline: the six-pass round, twice.
///
/// Every pass rewrites only the instruction list (and, for copy
/// elimination, the returned register); the kinds, externals, arguments,
/// name and identity of the object are unchanged.
pub fn run_pass_pipeline(o: Object) -> (r: Object)
    ensures
        r@ == spec_pipeline(o@),
        r@.externals == o@.externals,
        r@.fn_id == o@.fn_id,
        r@.name == o@.name,
        r@.kinds == o@.kinds,
        r@.arguments == o@.arguments,
        r@.symbols == o@.symbols,
{
    let o = remove_extra_registers(o);
    let o = remove_unneeded_muxes(o);
    let o = remove_extra_registers(o);
    let o = remove_unused_literals(o);
    let o = pre_cast_literals(o);
    let o = remove_useless_casts(o);
    let o = remove_extra_registers(o);
    let o = remove_unneeded_muxes(o);
    let o = remove_extra_registers(o);
    let o = remove_unused_literals(o);
    let o = pre_cast_literals(o);
    let o = remove_useless_casts(o);
    o
}

/// Compiles one kernel into a verified object.
///
/// Runs type inference, asserts inference completeness, lowers the body,
/// runs the optimization pipeline, and then the two mandatory
/// verification passes; a failure of any phase is returned, never
/// retried.  On success the object passes both verification passes, keeps
/// the kernel's identity and name, and lists exactly the kernel's calls
/// as its externals.
pub fn compile_kernel(kernel: &Kernel) -> (r: Result<Object, CompileError>)
    requires
        kernel_sig_wf(kernel@),
    ensures
        r matches Ok(o) ==> o@.fn_id == kernel@.fn_id && o@.name == kernel@.name
            && o@.symbols.source.source == kernel@.name && o@.externals == spec_kernel_calls(
            kernel@.exprs,
        ) && type_check_ok(o@) && flow_check_ok(o@) && o@.arguments.len()
            == kernel@.arguments.len() && (forall|j: int|
            0 <= j < o@.arguments.len() ==> #[trigger] o@.arguments[j] == j) && o@.kinds.len()
            >= kernel@.arguments.len() + kernel@.exprs.len() && (forall|j: int|
            0 <= j < kernel@.arguments.len() ==> #[trigger] o@.kinds[j] == kernel@.arguments[j])
            && 0 <= kernel@.ret < kernel@.exprs.len(),
        r matches Err(e) ==> (e is Type || e is Lowering || e is Verification),
        (exists|m: Seq<KindV>| kernel_models(kernel@, m)) ==> (match r {
            Err(CompileError::Type(te)) => te is UnresolvedType,
            _ => true,
        }),
{
    let ctx = match infer(kernel) {
        Ok(ctx) => ctx,
        Err(e) => {
            return Err(CompileError::Type(e));
        },
    };
    match check_inference(kernel, &ctx) {
        Ok(()) => {},
        Err(e) => {
            return Err(CompileError::Type(e));
        },
    }
    let obj = match compile(kernel, &ctx) {
        Ok(o) => o,
        Err(e) => {
            return Err(CompileError::Lowering(e));
        },
    };
    let obj = run_pass_pipeline(obj);
    match type_check(&obj) {
        Ok(()) => {},
        Err(e) => {
            return Err(CompileError::Verification(e));
        },
    }
    match flow_check(&obj) {
        Ok(()) => {},
        Err(e) => {
            return Err(CompileError::Verification(e));
        },
    }
    Ok(obj)
}

/// The kernels among a list of external function references, in order.
pub open spec fn kernels_of(fs: Seq<ExternalFunctionV>) -> Seq<KernelV>
    decreases fs,
{
    if fs.len() == 0 {
        Seq::empty()
    } else {
        let rest = kernels_of(fs.drop_last());
        match fs.last().code {
            crate::rhif::ExternalFunctionCodeV::Kernel(b) => rest.push(*b),
            _ => rest,
        }
    }
}

/// Every kernel reachable from `k` through call edges, `k` included.
pub open spec fn all_kernels(k: KernelV) -> Set<KernelV>
    decreases k, 1int,
{
    set![k].union(exprs_closure(k.exprs))
}

/// Every kernel reachable from the callees of a list of expressions.
pub open spec fn exprs_closure(es: Seq<ExprV>) -> Set<KernelV>
    decreases es, 0int,
{
    if es.len() == 0 {
        Set::empty()
    } else {
        let rest = exprs_closure(es.drop_last());
        match es.last() {
            ExprV::Call { func, args } => match func.code {
                crate::rhif::ExternalFunctionCodeV::Kernel(b) => rest.union(all_kernels(*b)),
                _ => rest,
            },
            _ => rest,
        }
    }
}

/// The identities of every kernel reachable from `k`.
pub open spec fn all_ids(k: KernelV) -> Set<int>
    decreases k, 1int,
{
    set![k.fn_id].union(exprs_ids(k.exprs))
}

/// The identities of every kernel reachable from the callees of a list of
/// expressions.
pub open spec fn exprs_ids(es: Seq<ExprV>) -> Set<int>
    decreases es, 0int,
{
    if es.len() == 0 {
        Set::empty()
    } else {
        let rest = exprs_ids(es.drop_last());
        match es.last() {
            ExprV::Call { func, args } => match func.code {
                crate::rhif::ExternalFunctionCodeV::Kernel(b) => rest.union(all_ids(*b)),
                _ => rest,
            },
            _ => rest,
        }
    }
}

/// The reachable kernel set is finite.
pub proof fn lemma_all_kernels_finite(k: KernelV)
    ensures
        all_kernels(k).finite(),
        all_ids(k).finite(),
    decreases k, 1int,
{
    lemma_exprs_closure_finite(k.exprs);
}

/// The reachable kernel set of a callee list is finite.
pub proof fn lemma_exprs_closure_finite(es: Seq<ExprV>)
    ensures
        exprs_closure(es).finite(),
        exprs_ids(es).finite(),
    decreases es, 0int,
{
    if es.len() > 0 {
        lemma_exprs_closure_finite(es.drop_last());
        match es.last() {
            ExprV::Call { func, args } => {
                match func.code {
                    crate::rhif::ExternalFunctionCodeV::Kernel(b) => {
                        lemma_all_kernels_finite(*b);
                    },
                    _ => {},
                }
            },
            _ => {},
        }
    }
}

/// A member of the reachable set has its identity in the reachable
/// identity set.
pub proof fn lemma_member_id(k: KernelV, k2: KernelV)
    requires
        all_kernels(k).contains(k2),
    ensures
        all_ids(k).contains(k2.fn_id),
    decreases k, 1int,
{
    if k2 != k {
        lemma_member_id_exprs(k.exprs, k2);
    }
}

/// A member of a callee list's reachable set has its identity in its
/// reachable identity set.
pub proof fn lemma_member_id_exprs(es: Seq<ExprV>, k2: KernelV)
    requires
        exprs_closure(es).contains(k2),
    ensures
        exprs_ids(es).contains(k2.fn_id),
    decreases es, 0int,
{
    if es.len() > 0 {
        let rest = exprs_closure(es.drop_last());
        if rest.contains(k2) {
            lemma_member_id_exprs(es.drop_last(), k2);
        } else {
            match es.last() {
                ExprV::Call { func, args } => {
                    match func.code {
                        crate::rhif::ExternalFunctionCodeV::Kernel(b) => {
                            lemma_member_id(*b, k2);
                        },
                        _ => {},
                    }
                },
                _ => {},
            }
        }
    }
}

/// The reachable set is transitively closed: the reachable set of any
/// member is contained in the whole.
pub proof fn lemma_all_kernels_trans(k: KernelV, k2: KernelV)
    requires
        all_kernels(k).contains(k2),
    ensures
        all_kernels(k2).subset_of(all_kernels(k)),
    decreases k, 1int,
{
    if k2 != k {
        lemma_exprs_closure_trans(k.exprs, k2);
        assert(all_kernels(k2).subset_of(exprs_closure(k.exprs)));
    }
}

/// The reachable set of a member of a callee list's closure is contained
/// in that closure.
pub proof fn lemma_exprs_closure_trans(es: Seq<ExprV>, k2: KernelV)
    requires
        exprs_closure(es).contains(k2),
    ensures
        all_kernels(k2).subset_of(exprs_closure(es)),
    decreases es, 0int,
{
    if es.len() > 0 {
        let rest = exprs_closure(es.drop_last());
        if rest.contains(k2) {
            lemma_exprs_closure_trans(es.drop_last(), k2);
        } else {
            match es.last() {
                ExprV::Call { func, args } => {
                    match func.code {
                        crate::rhif::ExternalFunctionCodeV::Kernel(b) => {
                            assert(exprs_closure(es) == rest.union(all_kernels(*b)));
                            assert(all_kernels(*b).contains(k2));
                            if k2 == *b {
                                assert(all_kernels(k2).subset_of(exprs_closure(es)));
                            } else {
                                assert(all_kernels(*b) == set![*b].union(
                                    exprs_closure(b.exprs),
                                ));
                                assert(exprs_closure(b.exprs).contains(k2));
                                lemma_exprs_closure_trans(b.exprs, k2);
                                assert(all_kernels(k2).subset_of(exprs_closure(b.exprs)));
                                assert(exprs_closure(b.exprs).subset_of(all_kernels(*b)));
                                assert(all_kernels(k2).subset_of(exprs_closure(es)));
                            }
                        },
                        _ => {},
                    }
                },
                _ => {},
            }
        }
    }
}

/// The callee kernels of a kernel are in its reachable set.
pub proof fn lemma_callee_in_closure(k: KernelV, j: int)
    requires
        0 <= j < kernels_of(spec_kernel_calls(k.exprs)).len(),
    ensures
        all_kernels(k).contains(kernels_of(spec_kernel_calls(k.exprs))[j]),
{
    lemma_callees_in_exprs_closure(k.exprs, j);
}

/// The callee kernels of an expression list are in its closure.
pub proof fn lemma_callees_in_exprs_closure(es: Seq<ExprV>, j: int)
    requires
        0 <= j < kernels_of(spec_kernel_calls(es)).len(),
    ensures
        exprs_closure(es).contains(kernels_of(spec_kernel_calls(es))[j]),
    decreases es,
{
    if es.len() > 0 {
        let rest_calls = spec_kernel_calls(es.drop_last());
        match es.last() {
            ExprV::Call { func, args } => {
                match func.code {
                    crate::rhif::ExternalFunctionCodeV::Kernel(b) => {
                        if j < kernels_of(rest_calls).len() {
                            assert(spec_kernel_calls(es) == rest_calls.push(func));
                            assert(spec_kernel_calls(es).drop_last() =~= rest_calls);
                            lemma_callees_in_exprs_closure(es.drop_last(), j);
                        } else {
                            assert(spec_kernel_calls(es).drop_last() =~= rest_calls);
                            assert(kernels_of(spec_kernel_calls(es))[j] == *b);
                            assert(all_kernels(*b).contains(*b));
                        }
                    },
                    _ => {
                        assert(spec_kernel_calls(es).drop_last() =~= rest_calls);
                        lemma_callees_in_exprs_closure(es.drop_last(), j);
                    },
                }
            },
            _ => {
                assert(spec_kernel_calls(es) == rest_calls);
                lemma_callees_in_exprs_closure(es.drop_last(), j);
            },
        }
    }
}

/// Every kernel reachable from the top has a well-formed interface.
pub open spec fn design_wf(top: KernelV) -> bool {
    forall|k: KernelV| all_kernels(top).contains(k) ==> kernel_sig_wf(k)
}

/// The identities of the callee kernels of an object.
pub open spec fn callee_id_at(o: ObjectV, j: int) -> int {
    kernels_of(o.externals)[j].fn_id
}

/// What [`compile_design`] guarantees of its result: the module is keyed
/// by the top's identity and holds its object first; identities are
/// distinct (each function is compiled exactly once); every object's
/// callee kernels have objects of their own (the module is closed under
/// call edges); and every object was compiled from a kernel, with that
/// kernel's identity and calls, drawn from the kernels reachable from the
/// top.
pub open spec fn design_post(m: crate::module::ModuleV, top: KernelV) -> bool {
    &&& m.top == top.fn_id
    &&& m.objects.len() >= 1 && m.objects[0].fn_id == m.top
    &&& forall|i: int, j: int|
        0 <= i < j < m.objects.len() ==> (#[trigger] m.objects[i]).fn_id
            != (#[trigger] m.objects[j]).fn_id
    &&& forall|i: int, j: int|
        0 <= i < m.objects.len() && 0 <= j < kernels_of(
            (#[trigger] m.objects[i]).externals,
        ).len() ==> crate::module::contains_id(m, #[trigger] callee_id_at(m.objects[i], j))
    &&& forall|i: int|
        0 <= i < m.objects.len() ==> exists|k: KernelV|
            all_kernels(top).contains(k) && k.fn_id == (#[trigger] m.objects[i]).fn_id
                && m.objects[i].externals == spec_kernel_calls(k.exprs)
    &&& forall|i: int|
        0 <= i < m.objects.len() ==> type_check_ok(#[trigger] m.objects[i]) && flow_check_ok(
            m.objects[i],
        )
}

/// Whether the object list already holds an object for the identity.
#[verifier::loop_isolation(false)]
fn find_id(objs: &Vec<Object>, id: FunctionId) -> (r: bool)
    ensures
        r == crate::module::contains_id(
            crate::module::ModuleV { objects: crate::module::objects_view(objs@), top: 0 },
            id as int,
        ),
{
    let ghost vs = crate::module::objects_view(objs@);
    proof {
        crate::module::lemma_objects_view_len(objs@);
        assert forall|j: int| 0 <= j < vs.len() implies #[trigger] vs[j] == objs@[j]@ by {
            crate::module::lemma_objects_view_index(objs@, j);
        }
    }
    let mut i: usize = 0;
    while i < objs.len()
        invariant
            i <= objs@.len(),
            vs.len() == objs@.len(),
            forall|j: int| 0 <= j < vs.len() ==> #[trigger] vs[j] == objs@[j]@,
            forall|j: int| 0 <= j < i ==> (#[trigger] vs[j]).fn_id != id as int,
        decreases objs@.len() - i,
    {
        if objs[i].fn_id == id {
            proof {
                assert(vs[i as int].fn_id == id as int);
                let m = crate::module::ModuleV {
                    objects: crate::module::objects_view(objs@),
                    top: 0,
                };
                assert(m.objects[i as int].fn_id == id as int);
                assert(crate::module::contains_id(m, id as int));
            }
            return true;
        }
        i = i + 1;
    }
    proof {
        let m = crate::module::ModuleV { objects: crate::module::objects_view(objs@), top: 0 };
        if crate::module::contains_id(m, id as int) {
            let w = choose|w: int| 0 <= w < m.objects.len() && (#[trigger] m.objects[w]).fn_id
                == id as int;
            assert(vs[w].fn_id == id as int);
        }
    }
    false
}

/// Appends the kernels among the externals to the worklist.
#[verifier::loop_isolation(false)]
fn push_kernels(worklist: &mut Vec<Kernel>, externals: &Vec<ExternalFunction>)
    ensures
        final(worklist)@.len() == old(worklist)@.len() + kernels_of(
            extfns_view(externals@),
        ).len(),
        forall|j: int|
            0 <= j < old(worklist)@.len() ==> #[trigger] final(worklist)@[j] == old(
                worklist,
            )@[j],
        forall|j: int|
            0 <= j < kernels_of(extfns_view(externals@)).len() ==> (#[trigger] final(worklist)@[
                old(worklist)@.len() + j
            ])@ == kernels_of(extfns_view(externals@))[j],
{
    let ghost fv = extfns_view(externals@);
    let ghost base = worklist@.len() as int;
    proof {
        lemma_extfns_view_len(externals@);
        assert forall|j: int| 0 <= j < fv.len() implies #[trigger] fv[j] == externals@[j]@ by {
            lemma_extfns_view_index(externals@, j);
        }
    }
    let mut i: usize = 0;
    while i < externals.len()
        invariant
            i <= externals@.len(),
            fv.len() == externals@.len(),
            forall|j: int| 0 <= j < fv.len() ==> #[trigger] fv[j] == externals@[j]@,
            worklist@.len() == base + kernels_of(fv.take(i as int)).len(),
            forall|j: int|
                0 <= j < base ==> #[trigger] worklist@[j] == old(worklist)@[j],
            forall|j: int|
                0 <= j < kernels_of(fv.take(i as int)).len() ==> (#[trigger] worklist@[base + j])@
                    == kernels_of(fv.take(i as int))[j],
        decreases externals@.len() - i,
    {
        proof {
            assert(fv.take(i + 1).drop_last() =~= fv.take(i as int));
            assert(fv.take(i + 1).last() == fv[i as int]);
        }
        let ghost pre_wl = worklist@;
        match &externals[i].code {
            crate::rhif::ExternalFunctionCode::Kernel(k) => {
                worklist.push(k.clone());
                proof {
                    assert(fv[i as int].code matches crate::rhif::ExternalFunctionCodeV::Kernel(
                        b,
                    ) && *b == k@);
                    assert(kernels_of(fv.take(i + 1)) == kernels_of(fv.take(i as int)).push(k@));
                    assert forall|j: int| 0 <= j < base implies #[trigger] worklist@[j] == old(
                        worklist,
                    )@[j] by {
                        assert(worklist@[j] == pre_wl[j]);
                    }
                    assert forall|j: int|
                        0 <= j < kernels_of(fv.take(i + 1)).len() implies (
                    #[trigger] worklist@[base + j])@ == kernels_of(fv.take(i + 1))[j] by {
                        if j < kernels_of(fv.take(i as int)).len() {
                            assert(worklist@[base + j] == pre_wl[base + j]);
                            assert((pre_wl[base + j])@ == kernels_of(fv.take(i as int))[j]);
                        } else {
                            assert(worklist@[base + j] == worklist@.last());
                        }
                    }
                }
            },
            _ => {
                proof {
                    assert(kernels_of(fv.take(i + 1)) == kernels_of(fv.take(i as int)));
                }
            },
        }
        i = i + 1;
    }
    proof {
        assert(fv.take(i as int) =~= fv);
    }
}

/// Identities of distinct compiled objects drawn from a finite universe
/// are no more numerous than the universe.
proof fn lemma_distinct_ids_card(objs: Seq<ObjectV>, ids: Set<int>)
    requires
        ids.finite(),
        forall|i: int, j: int|
            0 <= i < j < objs.len() ==> (#[trigger] objs[i]).fn_id != (#[trigger] objs[j]).fn_id,
        forall|i: int| 0 <= i < objs.len() ==> ids.contains((#[trigger] objs[i]).fn_id),
    ensures
        objs.len() <= ids.len(),
{
    let idseq = Seq::new(objs.len(), |i: int| objs[i].fn_id);
    assert(idseq.no_duplicates());
    idseq.unique_seq_to_set();
    assert forall|x: int| idseq.to_set().contains(x) implies ids.contains(x) by {
        let i = choose|i: int| 0 <= i < idseq.len() && idseq[i] == x;
        assert(objs[i].fn_id == x);
    }
    vstd::set_lib::lemma_len_subset(idseq.to_set(), ids);
}


/// One elaboration step preserves the driver's invariants: appending the
/// object compiled for the worklist item at the cursor, and the item's
/// callees to the worklist, keeps the module distinct, provenanced,
/// pending-closed, and reachable.
#[verifier::rlimit(100)]
proof fn lemma_design_step(
    topv: KernelV,
    top_id: int,
    pre_ov: Seq<ObjectV>,
    obv: ObjectV,
    kv_c: KernelV,
    pre_wlv: Seq<KernelV>,
    new_wlv: Seq<KernelV>,
    cursor: int,
)
    requires
        forall|i: int, j: int|
            0 <= i < j < pre_ov.len() ==> (#[trigger] pre_ov[i]).fn_id != (
            #[trigger] pre_ov[j]).fn_id,
        forall|i: int| 0 <= i < pre_ov.len() ==> all_ids(topv).contains(
            (#[trigger] pre_ov[i]).fn_id,
        ),
        forall|i: int|
            0 <= i < pre_ov.len() ==> exists|k: KernelV|
                all_kernels(topv).contains(k) && k.fn_id == (#[trigger] pre_ov[i]).fn_id
                    && pre_ov[i].externals == spec_kernel_calls(k.exprs),
        forall|w: int| 0 <= w < pre_wlv.len() ==> all_kernels(topv).contains(
            #[trigger] pre_wlv[w],
        ),
        forall|i: int, j: int|
            0 <= i < pre_ov.len() && 0 <= j < kernels_of(
                (#[trigger] pre_ov[i]).externals,
            ).len() ==> crate::module::contains_id(
                crate::module::ModuleV { objects: pre_ov, top: top_id },
                #[trigger] callee_id_at(pre_ov[i], j),
            ) || exists|w: int|
                cursor <= w < pre_wlv.len() && (#[trigger] pre_wlv[w]).fn_id == callee_id_at(
                    pre_ov[i],
                    j,
                ),
        forall|i: int| 0 <= i < pre_ov.len() ==> (#[trigger] pre_ov[i]).fn_id != kv_c.fn_id,
        obv.fn_id == kv_c.fn_id,
        obv.externals == spec_kernel_calls(kv_c.exprs),
        all_kernels(topv).contains(kv_c),
        new_wlv == pre_wlv + kernels_of(obv.externals),
        0 <= cursor < pre_wlv.len(),
        pre_wlv[cursor] == kv_c,
        all_ids(topv).finite(),
    ensures
        forall|i: int, j: int|
            0 <= i < j < pre_ov.push(obv).len() ==> (#[trigger] pre_ov.push(obv)[i]).fn_id != (
            #[trigger] pre_ov.push(obv)[j]).fn_id,
        forall|i: int| 0 <= i < pre_ov.push(obv).len() ==> all_ids(topv).contains(
            (#[trigger] pre_ov.push(obv)[i]).fn_id,
        ),
        forall|i: int|
            0 <= i < pre_ov.push(obv).len() ==> exists|k: KernelV|
                all_kernels(topv).contains(k) && k.fn_id == (
                #[trigger] pre_ov.push(obv)[i]).fn_id && pre_ov.push(obv)[i].externals
                    == spec_kernel_calls(k.exprs),
        forall|w: int| 0 <= w < new_wlv.len() ==> all_kernels(topv).contains(
            #[trigger] new_wlv[w],
        ),
        forall|i: int, j: int|
            0 <= i < pre_ov.push(obv).len() && 0 <= j < kernels_of(
                (#[trigger] pre_ov.push(obv)[i]).externals,
            ).len() ==> crate::module::contains_id(
                crate::module::ModuleV { objects: pre_ov.push(obv), top: top_id },
                #[trigger] callee_id_at(pre_ov.push(obv)[i], j),
            ) || exists|w: int|
                cursor + 1 <= w < new_wlv.len() && (#[trigger] new_wlv[w]).fn_id == callee_id_at(
                    pre_ov.push(obv)[i],
                    j,
                ),
        pre_ov.push(obv).len() <= all_ids(topv).len(),
{
    let ov = pre_ov.push(obv);
    let new_idx = pre_ov.len() as int;
    let mv = crate::module::ModuleV { objects: ov, top: top_id };
    let pre_mv = crate::module::ModuleV { objects: pre_ov, top: top_id };
    let wl_base = pre_wlv.len() as int;
    lemma_member_id(topv, kv_c);
    // worklist membership in the universe
    assert forall|w: int| 0 <= w < new_wlv.len() implies all_kernels(topv).contains(
        #[trigger] new_wlv[w],
    ) by {
        if w >= wl_base {
            assert(new_wlv[w] == kernels_of(spec_kernel_calls(kv_c.exprs))[w - wl_base]);
            lemma_callee_in_closure(kv_c, w - wl_base);
            lemma_all_kernels_trans(topv, kv_c);
        }
    }
    // pending closure
    assert forall|i: int, j: int|
        0 <= i < ov.len() && 0 <= j < kernels_of(
            (#[trigger] ov[i]).externals,
        ).len() implies crate::module::contains_id(mv, #[trigger] callee_id_at(ov[i], j))
        || exists|w: int|
        cursor + 1 <= w < new_wlv.len() && (#[trigger] new_wlv[w]).fn_id == callee_id_at(
            ov[i],
            j,
        ) by {
        if i < new_idx {
            assert(ov[i] == pre_ov[i]);
            if crate::module::contains_id(pre_mv, callee_id_at(pre_ov[i], j)) {
                let x = choose|x: int|
                    0 <= x < pre_ov.len() && (#[trigger] pre_ov[x]).fn_id == callee_id_at(
                        pre_ov[i],
                        j,
                    );
                assert(mv.objects[x] == pre_ov[x]);
                assert(crate::module::contains_id(mv, callee_id_at(ov[i], j)));
            } else {
                let w = choose|w: int|
                    cursor <= w < pre_wlv.len() && (#[trigger] pre_wlv[w]).fn_id == callee_id_at(
                        pre_ov[i],
                        j,
                    );
                if w == cursor {
                    assert(mv.objects[new_idx] == obv);
                    assert(crate::module::contains_id(mv, callee_id_at(ov[i], j)));
                } else {
                    assert(new_wlv[w] == pre_wlv[w]);
                }
            }
        } else {
            assert(ov[i] == obv);
            assert(new_wlv[wl_base + j] == kernels_of(obv.externals)[j]);
            assert(wl_base + j >= cursor + 1);
        }
    }
    lemma_distinct_ids_card(ov, all_ids(topv));
}

/// Compiles a top-level kernel and every kernel it transitively calls
/// into a closed [`Module`].
///
/// The top kernel is compiled first; then a worklist of discovered
/// external kernels is drained, compiling each identity exactly once and
/// appending the newly discovered callees, until nothing remains.  The
/// result satisfies [`design_post`]: the module is closed under call
/// edges, holds only objects reachable from the top, and compiles each
/// function identity at most once.  A failure while compiling a
/// discovered kernel is reported as an elaboration error tagged with that
/// kernel's identity; nothing is retried and no partial module is
/// returned.
#[verifier::loop_isolation(false)]
#[verifier::rlimit(100)]
pub fn compile_design(top: Kernel) -> (r: Result<Module, CompileError>)
    requires
        design_wf(top@),
    ensures
        r matches Ok(m) ==> design_post(m@, top@) && m@.objects[0].name == top@.name
            && m@.objects[0].externals == spec_kernel_calls(top@.exprs),
        r matches Err(e) ==> (match e {
            CompileError::Elaboration { fn_id, error } => all_ids(top@).contains(fn_id as int)
                && ((*error) is Type || (*error) is Lowering || (*error) is Verification),
            _ => e is Type || e is Lowering || e is Verification,
        }),
{
    let ghost topv = top@;
    proof {
        assert(all_kernels(topv).contains(topv));
        assert(kernel_sig_wf(topv));
        lemma_all_kernels_finite(topv);
    }
    let main = match compile_kernel(&top) {
        Ok(o) => o,
        Err(e) => {
            return Err(e);
        },
    };
    let top_id = main.fn_id;
    let ghost mainv = main@;
    let mut worklist: Vec<Kernel> = Vec::new();
    push_kernels(&mut worklist, &main.externals);
    let mut objs: Vec<Object> = Vec::new();
    objs.push(main);
    let mut cursor: usize = 0;
    proof {
        crate::module::lemma_objects_view_len(objs@);
        crate::module::lemma_objects_view_index(objs@, 0);
        assert(crate::module::objects_view(objs@)[0] == mainv);
        assert(mainv.externals == spec_kernel_calls(topv.exprs));
        assert(worklist@.len() == kernels_of(mainv.externals).len());
        assert forall|w: int| 0 <= w < worklist@.len() implies (#[trigger] worklist@[w])@
            == kernels_of(mainv.externals)[w] by {
            assert((worklist@[0 + w])@ == kernels_of(mainv.externals)[w]);
        }
        assert forall|w: int| 0 <= w < worklist@.len() implies all_kernels(topv).contains(
            (#[trigger] worklist@[w])@,
        ) by {
            lemma_callee_in_closure(topv, w);
        }
        let ov = crate::module::objects_view(objs@);
        assert(all_ids(topv).contains(topv.fn_id));
        lemma_member_id(topv, topv);
        assert forall|i: int, j: int|
            0 <= i < objs@.len() && 0 <= j < kernels_of(ov[i].externals).len() implies exists|
            w: int,
        |
            cursor <= w < worklist@.len() && (#[trigger] worklist@[w])@.fn_id
                == #[trigger] callee_id_at(ov[i], j) by {
            assert((worklist@[j])@.fn_id == callee_id_at(ov[0], j));
        }
        lemma_distinct_ids_card(ov, all_ids(topv));
    }
    while cursor < worklist.len()
        invariant
            cursor <= worklist@.len(),
            top_id as int == topv.fn_id,
            crate::module::objects_view(objs@).len() == objs@.len(),
            objs@.len() >= 1,
            crate::module::objects_view(objs@)[0].fn_id == top_id as int,
            crate::module::objects_view(objs@)[0].name == topv.name,
            crate::module::objects_view(objs@)[0].externals == spec_kernel_calls(topv.exprs),
            forall|i: int, j: int|
                0 <= i < j < objs@.len() ==> (#[trigger] crate::module::objects_view(
                    objs@,
                )[i]).fn_id != (#[trigger] crate::module::objects_view(objs@)[j]).fn_id,
            forall|i: int|
                0 <= i < objs@.len() ==> type_check_ok(
                    #[trigger] crate::module::objects_view(objs@)[i],
                ) && flow_check_ok(crate::module::objects_view(objs@)[i]),
            forall|i: int|
                0 <= i < objs@.len() ==> all_ids(topv).contains(
                    (#[trigger] crate::module::objects_view(objs@)[i]).fn_id,
                ),
            forall|i: int|
                0 <= i < objs@.len() ==> exists|k: KernelV|
                    all_kernels(topv).contains(k) && k.fn_id == (
                    #[trigger] crate::module::objects_view(objs@)[i]).fn_id
                        && crate::module::objects_view(objs@)[i].externals == spec_kernel_calls(
                        k.exprs,
                    ),
            forall|w: int|
                0 <= w < worklist@.len() ==> all_kernels(topv).contains(
                    (#[trigger] worklist@[w])@,
                ),
            forall|i: int, j: int|
                0 <= i < objs@.len() && 0 <= j < kernels_of(
                    (#[trigger] crate::module::objects_view(objs@)[i]).externals,
                ).len() ==> crate::module::contains_id(
                    crate::module::ModuleV {
                        objects: crate::module::objects_view(objs@),
                        top: top_id as int,
                    },
                    #[trigger] callee_id_at(crate::module::objects_view(objs@)[i], j),
                ) || exists|w: int|
                    cursor <= w < worklist@.len() && (#[trigger] worklist@[w])@.fn_id
                        == callee_id_at(crate::module::objects_view(objs@)[i], j),
            objs@.len() <= all_ids(topv).len(),
        decreases all_ids(topv).len() - objs@.len(), worklist@.len() - cursor,
    {
        let ghost pre_objs = objs@;
        let ghost pre_ov = crate::module::objects_view(objs@);
        let ghost pre_wl = worklist@;
        let id = worklist[cursor].fn_id;
        let ghost kv_c = worklist@[cursor as int]@;
        proof {
            assert(kv_c.fn_id == id as int);
        }
        if find_id(&objs, id) {
            cursor = cursor + 1;
            proof {
                let ov = crate::module::objects_view(objs@);
                let mv = crate::module::ModuleV { objects: ov, top: top_id as int };
                assert forall|i: int, j: int|
                    0 <= i < objs@.len() && 0 <= j < kernels_of(
                        (#[trigger] ov[i]).externals,
                    ).len() implies crate::module::contains_id(
                    mv,
                    #[trigger] callee_id_at(ov[i], j),
                ) || exists|w: int|
                    cursor <= w < worklist@.len() && (#[trigger] worklist@[w])@.fn_id
                        == callee_id_at(ov[i], j) by {
                    if !crate::module::contains_id(mv, callee_id_at(ov[i], j)) {
                        let w = choose|w: int|
                            cursor - 1 <= w < worklist@.len() && (#[trigger] worklist@[w])@.fn_id
                                == callee_id_at(ov[i], j);
                        if w == cursor - 1 {
                            assert((worklist@[w])@.fn_id == id as int);
                            let x = choose|x: int|
                                0 <= x < ov.len() && (#[trigger] ov[x]).fn_id == id as int;
                            assert(mv.objects[x].fn_id == callee_id_at(ov[i], j));
                            assert(crate::module::contains_id(mv, callee_id_at(ov[i], j)));
                        }
                    }
                }
            }
        } else {
            proof {
                assert(all_kernels(topv).contains(kv_c));
                assert(kernel_sig_wf(kv_c));
            }
            let ob = match compile_kernel(&worklist[cursor]) {
                Ok(o) => o,
                Err(e) => {
                    proof {
                        lemma_member_id(topv, kv_c);
                    }
                    return Err(
                        CompileError::Elaboration { fn_id: id, error: Box::new(e) },
                    );
                },
            };
            let ghost obv = ob@;
            proof {
                assert(obv.fn_id == kv_c.fn_id);
                assert(obv.externals == spec_kernel_calls(kv_c.exprs));
            }
            let ghost wl_base = worklist@.len() as int;
            let ghost pre_wlv = Seq::new(pre_wl.len(), |w: int| (pre_wl[w])@);
            let ghost ext_v = extfns_view(ob.externals@);
            push_kernels(&mut worklist, &ob.externals);
            objs.push(ob);
            cursor = cursor + 1;
            proof {
                crate::module::lemma_objects_view_len(objs@);
                assert(objs@.drop_last() =~= pre_objs);
                assert(crate::module::objects_view(objs@) == pre_ov.push(obv));
                let new_wlv = Seq::new(worklist@.len() as nat, |w: int| (worklist@[w])@);
                assert(new_wlv =~= pre_wlv + kernels_of(obv.externals)) by {
                    assert forall|w: int| 0 <= w < new_wlv.len() implies new_wlv[w] == (pre_wlv
                        + kernels_of(obv.externals))[w] by {
                        if w < wl_base {
                            assert(worklist@[w] == pre_wl[w]);
                        } else {
                            let j = w - wl_base;
                            assert((worklist@[wl_base + j])@ == kernels_of(ext_v)[j]);
                            assert(ext_v == obv.externals);
                        }
                    }
                }
                assert forall|i: int| 0 <= i < pre_ov.len() implies (#[trigger] pre_ov[i]).fn_id
                    != kv_c.fn_id by {
                    if pre_ov[i].fn_id == id as int {
                        let m0 = crate::module::ModuleV { objects: pre_ov, top: 0 };
                        assert(m0.objects[i].fn_id == id as int);
                        assert(crate::module::contains_id(m0, id as int));
                    }
                }
                assert(pre_wlv[cursor - 1] == kv_c);
                assert forall|w: int| 0 <= w < pre_wlv.len() implies all_kernels(topv).contains(
                    #[trigger] pre_wlv[w],
                ) by {
                    assert(pre_wlv[w] == (pre_wl[w])@);
                }
                assert forall|i: int, j: int|
                    0 <= i < pre_ov.len() && 0 <= j < kernels_of(
                        (#[trigger] pre_ov[i]).externals,
                    ).len() implies crate::module::contains_id(
                    crate::module::ModuleV { objects: pre_ov, top: top_id as int },
                    #[trigger] callee_id_at(pre_ov[i], j),
                ) || exists|w: int|
                    cursor - 1 <= w < pre_wlv.len() && (#[trigger] pre_wlv[w]).fn_id
                        == callee_id_at(pre_ov[i], j) by {
                    if !crate::module::contains_id(
                        crate::module::ModuleV { objects: pre_ov, top: top_id as int },
                        callee_id_at(pre_ov[i], j),
                    ) {
                        let w = choose|w: int|
                            cursor - 1 <= w < pre_wl.len() && (#[trigger] pre_wl[w])@.fn_id
                                == callee_id_at(pre_ov[i], j);
                        assert(pre_wlv[w].fn_id == callee_id_at(pre_ov[i], j));
                    }
                }
                lemma_all_kernels_finite(topv);
                lemma_design_step(
                    topv,
                    top_id as int,
                    pre_ov,
                    obv,
                    kv_c,
                    pre_wlv,
                    new_wlv,
                    cursor - 1,
                );
                assert forall|w: int| 0 <= w < worklist@.len() implies all_kernels(topv).contains(
                    (#[trigger] worklist@[w])@,
                ) by {
                    assert(new_wlv[w] == (worklist@[w])@);
                }
                assert forall|i: int, j: int|
                    0 <= i < objs@.len() && 0 <= j < kernels_of(
                        (#[trigger] crate::module::objects_view(objs@)[i]).externals,
                    ).len() implies crate::module::contains_id(
                    crate::module::ModuleV {
                        objects: crate::module::objects_view(objs@),
                        top: top_id as int,
                    },
                    #[trigger] callee_id_at(crate::module::objects_view(objs@)[i], j),
                ) || exists|w: int|
                    cursor <= w < worklist@.len() && (#[trigger] worklist@[w])@.fn_id
                        == callee_id_at(crate::module::objects_view(objs@)[i], j) by {
                    let ov = pre_ov.push(obv);
                    if !crate::module::contains_id(
                        crate::module::ModuleV { objects: ov, top: top_id as int },
                        callee_id_at(ov[i], j),
                    ) {
                        let w = choose|w: int|
                            cursor <= w < new_wlv.len() && (#[trigger] new_wlv[w]).fn_id
                                == callee_id_at(ov[i], j);
                        assert((worklist@[w])@.fn_id == callee_id_at(ov[i], j));
                    }
                }
            }
        }
    }
    let m = Module { objects: objs, top: top_id };
    proof {
        assert(design_post(m@, topv));
    }
    Ok(m)
}

/// Identity really is identity: within the kernels reachable from the
/// top, two kernels with the same identity are the same kernel.
pub open spec fn ids_consistent(top: KernelV) -> bool {
    forall|k1: KernelV, k2: KernelV|
        all_kernels(top).contains(k1) && all_kernels(top).contains(k2) && k1.fn_id == k2.fn_id
            ==> k1 == k2
}

/// A call expression's kernel appears among the kernels of the
/// expression list's calls.
proof fn lemma_call_kernel_listed(es: Seq<ExprV>, j: int)
    requires
        0 <= j < es.len(),
    ensures
        (es[j] matches ExprV::Call { func, args } ==> (
        func.code matches crate::rhif::ExternalFunctionCodeV::Kernel(b) ==> exists|x: int|
            0 <= x < kernels_of(spec_kernel_calls(es)).len() && #[trigger] kernels_of(
                spec_kernel_calls(es),
            )[x] == *b)),
    decreases es,
{
    if es.len() > 0 {
        let rest_calls = spec_kernel_calls(es.drop_last());
        let lifted = (match es.last() {
            ExprV::Call { func, args } => match func.code {
                crate::rhif::ExternalFunctionCodeV::Kernel(_) => true,
                _ => false,
            },
            _ => false,
        });
        match es.last() {
            ExprV::Call { func, args } => {
                assert(spec_kernel_calls(es) == rest_calls.push(func));
                assert(spec_kernel_calls(es).drop_last() =~= rest_calls);
            },
            _ => {
                assert(spec_kernel_calls(es) == rest_calls);
            },
        }
        if j < es.len() - 1 {
            assert(es.drop_last()[j] == es[j]);
            lemma_call_kernel_listed(es.drop_last(), j);
            match es[j] {
                ExprV::Call { func, args } => {
                    match func.code {
                        crate::rhif::ExternalFunctionCodeV::Kernel(b) => {
                            let x = choose|x: int|
                                0 <= x < kernels_of(rest_calls).len() && #[trigger] kernels_of(
                                    rest_calls,
                                )[x] == *b;
                            if lifted {
                                assert(kernels_of(spec_kernel_calls(es)) == kernels_of(
                                    rest_calls,
                                ).push(kernels_of(spec_kernel_calls(es)).last()));
                                assert(kernels_of(spec_kernel_calls(es))[x] == *b);
                            } else {
                                match es.last() {
                                    ExprV::Call { func: f2, args: a2 } => {
                                        assert(spec_kernel_calls(es) == rest_calls.push(f2));
                                        assert(kernels_of(spec_kernel_calls(es)) == kernels_of(
                                            rest_calls,
                                        ));
                                    },
                                    _ => {
                                        assert(spec_kernel_calls(es) == rest_calls);
                                    },
                                }
                                assert(kernels_of(spec_kernel_calls(es))[x] == *b);
                            }
                        },
                        _ => {},
                    }
                },
                _ => {},
            }
        } else {
            match es.last() {
                ExprV::Call { func, args } => {
                    assert(spec_kernel_calls(es) == rest_calls.push(func));
                    match func.code {
                        crate::rhif::ExternalFunctionCodeV::Kernel(b) => {
                            assert(kernels_of(spec_kernel_calls(es)) == kernels_of(
                                rest_calls,
                            ).push(*b));
                            let x = kernels_of(rest_calls).len() as int;
                            assert(kernels_of(spec_kernel_calls(es))[x] == *b);
                        },
                        _ => {},
                    }
                },
                _ => {},
            }
        }
    }
}

/// A call expression's kernel lies in the expression list's closure.
proof fn lemma_call_kernel_in_closure(es: Seq<ExprV>, j: int)
    requires
        0 <= j < es.len(),
    ensures
        (es[j] matches ExprV::Call { func, args } ==> (
        func.code matches crate::rhif::ExternalFunctionCodeV::Kernel(b) ==> exprs_closure(
            es,
        ).contains(*b))),
    decreases es,
{
    if es.len() > 0 {
        if j < es.len() - 1 {
            lemma_call_kernel_in_closure(es.drop_last(), j);
        } else {
            match es.last() {
                ExprV::Call { func, args } => {
                    match func.code {
                        crate::rhif::ExternalFunctionCodeV::Kernel(b) => {
                            assert(all_kernels(*b).contains(*b));
                        },
                        _ => {},
                    }
                },
                _ => {},
            }
        }
    }
}

/// Elaboration closure completeness: with identities consistent, every
/// kernel reachable from the top through call edges has an object in the
/// module [`compile_design`] built.
pub proof fn lemma_design_complete(m: crate::module::ModuleV, top: KernelV)
    requires
        design_post(m, top),
        ids_consistent(top),
    ensures
        forall|k: KernelV| all_kernels(top).contains(k) ==> crate::module::contains_id(
            m,
            (#[trigger] k.fn_id) as int,
        ),
{
    assert(all_kernels(top).contains(top));
    assert(m.objects[0].fn_id == top.fn_id);
    assert(crate::module::contains_id(m, top.fn_id));
    lemma_complete_k(m, top, top);
}

/// Completeness, by induction over one reachable kernel's own closure.
proof fn lemma_complete_k(m: crate::module::ModuleV, top: KernelV, k: KernelV)
    requires
        design_post(m, top),
        ids_consistent(top),
        all_kernels(top).contains(k),
        crate::module::contains_id(m, k.fn_id),
    ensures
        forall|k2: KernelV| all_kernels(k).contains(k2) ==> crate::module::contains_id(
            m,
            (#[trigger] k2.fn_id) as int,
        ),
    decreases k, 1int,
{
    let i = choose|i: int| 0 <= i < m.objects.len() && (#[trigger] m.objects[i]).fn_id == k.fn_id;
    let kp = choose|kp: KernelV|
        all_kernels(top).contains(kp) && kp.fn_id == m.objects[i].fn_id && m.objects[i].externals
            == spec_kernel_calls(kp.exprs);
    assert(kp == k);
    assert(m.objects[i].externals == spec_kernel_calls(k.exprs));
    assert forall|j: int| 0 <= j < k.exprs.len() implies ((#[trigger] k.exprs[j]) matches
        ExprV::Call { func, args } ==> (func.code matches
        crate::rhif::ExternalFunctionCodeV::Kernel(b) ==> crate::module::contains_id(m, b.fn_id)
            && all_kernels(top).contains(*b))) by {
        match k.exprs[j] {
            ExprV::Call { func, args } => {
                match func.code {
                    crate::rhif::ExternalFunctionCodeV::Kernel(b) => {
                        lemma_call_kernel_listed(k.exprs, j);
                        let x = choose|x: int|
                            0 <= x < kernels_of(spec_kernel_calls(k.exprs)).len()
                                && #[trigger] kernels_of(spec_kernel_calls(k.exprs))[x] == *b;
                        assert(callee_id_at(m.objects[i], x) == b.fn_id);
                        assert(crate::module::contains_id(m, callee_id_at(m.objects[i], x)));
                        lemma_call_kernel_in_closure(k.exprs, j);
                        lemma_all_kernels_trans(top, k);
                        assert(exprs_closure(k.exprs).subset_of(all_kernels(k)));
                        assert(all_kernels(top).contains(*b));
                    },
                    _ => {},
                }
            },
            _ => {},
        }
    }
    lemma_complete_es(m, top, k.exprs);
}

/// Completeness over the callees of an expression list.
proof fn lemma_complete_es(m: crate::module::ModuleV, top: KernelV, es: Seq<ExprV>)
    requires
        design_post(m, top),
        ids_consistent(top),
        forall|j: int|
            0 <= j < es.len() ==> ((#[trigger] es[j]) matches ExprV::Call { func, args } ==> (
            func.code matches crate::rhif::ExternalFunctionCodeV::Kernel(b)
                ==> crate::module::contains_id(m, b.fn_id) && all_kernels(top).contains(*b))),
    ensures
        forall|k2: KernelV| exprs_closure(es).contains(k2) ==> crate::module::contains_id(
            m,
            (#[trigger] k2.fn_id) as int,
        ),
    decreases es, 0int,
{
    if es.len() > 0 {
        assert(forall|j: int| 0 <= j < es.len() - 1 ==> #[trigger] es.drop_last()[j] == es[j]);
        lemma_complete_es(m, top, es.drop_last());
        match es.last() {
            ExprV::Call { func, args } => {
                match func.code {
                    crate::rhif::ExternalFunctionCodeV::Kernel(b) => {
                        assert(es[es.len() - 1] == es.last());
                        lemma_complete_k(m, top, *b);
                        assert forall|k2: KernelV| exprs_closure(es).contains(
                            k2,
                        ) implies crate::module::contains_id(m, (#[trigger] k2.fn_id) as int) by {
                            if !exprs_closure(es.drop_last()).contains(k2) {
                                assert(all_kernels(*b).contains(k2));
                            }
                        }
                    },
                    _ => {},
                }
            },
            _ => {},
        }
    }
}

} // verus!
