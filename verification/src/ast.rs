//! Kernel syntax: the parsed form of a kernel function.
//!
//! A [`Kernel`] is a syntax tree with per-node identity: the expression
//! nodes live in a vector, and a node is identified by its index.  A node
//! may only refer to nodes with smaller indices, so a kernel body is read
//! in one forward pass.  A kernel's calls carry the callee's own
//! definition (or an opaque externally defined stub), which is what the
//! elaboration driver closes over.

use crate::kind::kinds_view;
use crate::kind::Kind;
use crate::kind::KindV;
use crate::path::Path;
use crate::path::PathElementV;
use crate::rhif::AluBinary;
use crate::rhif::ExternalFunction;
use crate::rhif::ExternalFunctionV;
use crate::rhif::FunctionId;
use vstd::prelude::*;

verus! {

/// A member access: by field name or by position.
#[derive(Debug)]
pub enum Member {
    Named(String),
    Unnamed(u32),
}

/// Mathematical model of a [`Member`].
pub enum MemberV {
    Named(Seq<char>),
    Unnamed(int),
}

impl View for Member {
    type V = MemberV;

    open spec fn view(&self) -> MemberV {
        match self {
            Member::Named(name) => MemberV::Named(name@),
            Member::Unnamed(i) => MemberV::Unnamed(*i as int),
        }
    }
}

impl Clone for Member {
    fn clone(&self) -> (r: Self)
        ensures
            r@ == self@,
    {
        match self {
            Member::Named(name) => Member::Named(name.clone()),
            Member::Unnamed(i) => Member::Unnamed(*i),
        }
    }
}

/// One expression node of a kernel body; operands are indices of earlier
/// nodes.
#[derive(Debug)]
pub enum Expr {
    /// The `index`-th argument of the kernel.
    Arg { index: usize },
    /// A literal value, with an optional annotated width; a missing width
    /// is inferred from the node's context.
    Literal { value: u128, width: Option<usize> },
    /// Bitwise complement.
    Not { arg: usize },
    /// A binary arithmetic, logic, or comparison operation.
    Binary { op: AluBinary, arg1: usize, arg2: usize },
    /// A two-way multiplexer: `cond` selects between the branches.
    Select { cond: usize, true_value: usize, false_value: usize },
    /// A sub-field access through a path.
    IndexPath { arg: usize, path: Path },
    /// A call of another kernel or an externally defined primitive.
    Call { func: ExternalFunction, args: Vec<usize> },
}

/// Mathematical model of an [`Expr`].
pub enum ExprV {
    Arg { index: int },
    Literal { value: u128, width: Option<int> },
    Not { arg: int },
    Binary { op: AluBinary, arg1: int, arg2: int },
    Select { cond: int, true_value: int, false_value: int },
    IndexPath { arg: int, path: Seq<PathElementV> },
    Call { func: ExternalFunctionV, args: Seq<int> },
}

/// The model of an expression node.
pub open spec fn expr_view(e: Expr) -> ExprV
    decreases e,
{
    match e {
        Expr::Arg { index } => ExprV::Arg { index: index as int },
        Expr::Literal { value, width } => ExprV::Literal {
            value,
            width: match width {
                Some(w) => Some(w as int),
                None => None,
            },
        },
        Expr::Not { arg } => ExprV::Not { arg: arg as int },
        Expr::Binary { op, arg1, arg2 } => ExprV::Binary {
            op,
            arg1: arg1 as int,
            arg2: arg2 as int,
        },
        Expr::Select { cond, true_value, false_value } => ExprV::Select {
            cond: cond as int,
            true_value: true_value as int,
            false_value: false_value as int,
        },
        Expr::IndexPath { arg, path } => ExprV::IndexPath { arg: arg as int, path: path@ },
        Expr::Call { func, args } => ExprV::Call {
            func: crate::rhif::extfn_view(func),
            args: args@.map_values(|x: usize| x as int),
        },
    }
}

impl View for Expr {
    type V = ExprV;

    open spec fn view(&self) -> ExprV {
        expr_view(*self)
    }
}

/// A kernel: one source-level hardware function, before compilation.
#[derive(Debug)]
pub struct Kernel {
    /// Stable identity of the function.
    pub fn_id: FunctionId,
    /// Source-level name, for diagnostics and rendering.
    pub name: String,
    /// Declared kinds of the arguments.
    pub arguments: Vec<Kind>,
    /// The body: expression nodes in evaluation order.
    pub exprs: Vec<Expr>,
    /// Index of the node whose value the kernel returns.
    pub ret: usize,
}

/// Mathematical model of a [`Kernel`].
pub struct KernelV {
    pub fn_id: int,
    pub name: Seq<char>,
    pub arguments: Seq<KindV>,
    pub exprs: Seq<ExprV>,
    pub ret: int,
}

/// Elementwise model of a sequence of expression nodes.
pub open spec fn exprs_view(s: Seq<Expr>) -> Seq<ExprV>
    decreases s,
{
    if s.len() == 0 {
        Seq::empty()
    } else {
        exprs_view(s.drop_last()).push(expr_view(s.last()))
    }
}

/// The model of a kernel.
pub open spec fn kernel_view(k: Kernel) -> KernelV
    decreases k,
{
    KernelV {
        fn_id: k.fn_id as int,
        name: k.name@,
        arguments: kinds_view(k.arguments@),
        exprs: exprs_view(k.exprs@),
        ret: k.ret as int,
    }
}

impl View for Kernel {
    type V = KernelV;

    open spec fn view(&self) -> KernelV {
        kernel_view(*self)
    }
}

/// The model of an expression sequence has the same length.
pub proof fn lemma_exprs_view_len(s: Seq<Expr>)
    ensures
        exprs_view(s).len() == s.len(),
    decreases s,
{
    if s.len() > 0 {
        lemma_exprs_view_len(s.drop_last());
    }
}

/// The model of an expression sequence is the model taken elementwise.
pub proof fn lemma_exprs_view_index(s: Seq<Expr>, i: int)
    requires
        0 <= i < s.len(),
    ensures
        exprs_view(s).len() == s.len(),
        exprs_view(s)[i] == s[i]@,
    decreases s,
{
    lemma_exprs_view_len(s);
    if i < s.len() - 1 {
        lemma_exprs_view_index(s.drop_last(), i);
    }
}

impl Clone for Expr {
    fn clone(&self) -> (r: Self)
        ensures
            r@ == self@,
        decreases *self,
    {
        match self {
            Expr::Arg { index } => Expr::Arg { index: *index },
            Expr::Literal { value, width } => Expr::Literal { value: *value, width: *width },
            Expr::Not { arg } => Expr::Not { arg: *arg },
            Expr::Binary { op, arg1, arg2 } => Expr::Binary {
                op: *op,
                arg1: *arg1,
                arg2: *arg2,
            },
            Expr::Select { cond, true_value, false_value } => Expr::Select {
                cond: *cond,
                true_value: *true_value,
                false_value: *false_value,
            },
            Expr::IndexPath { arg, path } => Expr::IndexPath { arg: *arg, path: path.clone() },
            Expr::Call { func, args } => {
                let mut a2: Vec<usize> = Vec::new();
                let mut i: usize = 0;
                while i < args.len()
                    invariant
                        i <= args@.len(),
                        a2@.len() == i,
                        forall|j: int| 0 <= j < i ==> #[trigger] a2@[j] == args@[j],
                    decreases args.len() - i,
                {
                    a2.push(args[i]);
                    i = i + 1;
                }
                let ghost a2v = a2@;
                let r = Expr::Call { func: func.clone(), args: a2 };
                proof {
                    assert(a2v =~= args@);
                    assert(a2v.map_values(|x: usize| x as int) =~= args@.map_values(
                        |x: usize| x as int,
                    ));
                }
                r
            },
        }
    }
}

impl Clone for Kernel {
    fn clone(&self) -> (r: Self)
        ensures
            r@ == self@,
        decreases *self,
    {
        let mut arguments: Vec<Kind> = Vec::new();
        let mut i: usize = 0;
        while i < self.arguments.len()
            invariant
                i <= self.arguments@.len(),
                arguments@.len() == i,
                forall|j: int| 0 <= j < i ==> #[trigger] arguments@[j]@ == self.arguments@[j]@,
            decreases self.arguments.len() - i,
        {
            arguments.push(self.arguments[i].clone());
            i = i + 1;
        }
        let mut exprs: Vec<Expr> = Vec::new();
        let mut j: usize = 0;
        while j < self.exprs.len()
            invariant
                j <= self.exprs@.len(),
                exprs@.len() == j,
                forall|m: int| 0 <= m < j ==> #[trigger] exprs@[m]@ == self.exprs@[m]@,
            decreases self.exprs.len() - j,
        {
            exprs.push(self.exprs[j].clone());
            j = j + 1;
        }
        let r = Kernel {
            fn_id: self.fn_id,
            name: self.name.clone(),
            arguments,
            exprs,
            ret: self.ret,
        };
        proof {
            crate::kind::lemma_kinds_view_len(r.arguments@);
            crate::kind::lemma_kinds_view_len(self.arguments@);
            assert forall|m: int| 0 <= m < r.arguments@.len() implies kinds_view(r.arguments@)[m]
                == kinds_view(self.arguments@)[m] by {
                crate::kind::lemma_kinds_view_index(r.arguments@, m);
                crate::kind::lemma_kinds_view_index(self.arguments@, m);
                assert(r.arguments@[m]@ == crate::kind::kind_view(r.arguments@[m]));
                assert(self.arguments@[m]@ == crate::kind::kind_view(self.arguments@[m]));
            }
            assert(kinds_view(r.arguments@) =~= kinds_view(self.arguments@));
            lemma_exprs_view_len(r.exprs@);
            lemma_exprs_view_len(self.exprs@);
            assert forall|m: int| 0 <= m < r.exprs@.len() implies exprs_view(r.exprs@)[m]
                == exprs_view(self.exprs@)[m] by {
                lemma_exprs_view_index(r.exprs@, m);
                lemma_exprs_view_index(self.exprs@, m);
            }
            assert(exprs_view(r.exprs@) =~= exprs_view(self.exprs@));
        }
        r
    }
}

} // verus!
