//! Register-based intermediate representation.
//!
//! The compiler lowers a kernel into an [`Object`]: a straight-line
//! sequence of instructions over virtual registers, together with a
//! per-register kind map, a symbol map for diagnostics, and the list of
//! external functions the kernel calls.

use crate::ast::Kernel;
use crate::ast::KernelV;
use crate::kind::kinds_view;
use crate::kind::Kind;
use crate::kind::KindV;
use vstd::prelude::*;

verus! {

/// Stable identity of a function; the module map is keyed by it.
pub type FunctionId = u64;

/// A storage slot referenced by a kernel or an instruction operand.
#[derive(Debug, Clone, Copy, PartialEq, Eq, Hash, Structural)]
pub enum Slot {
    /// A virtual register.
    Register(usize),
    /// A literal pool entry.
    Literal(usize),
    /// The empty (zero-width) slot.
    Empty,
}

/// Binary operations over equal-width bit vectors; `Eq` produces one bit.
#[derive(Debug, Clone, Copy, PartialEq, Eq, Structural)]
pub enum AluBinary {
    Add,
    Sub,
    And,
    Or,
    Xor,
    Eq,
}

/// The operation of one instruction; operands are register indices.
#[derive(Debug)]
pub enum Op {
    /// Loads a literal of the given width.
    Literal { value: u128, width: usize },
    /// Copies another register.
    Copy { arg: usize },
    /// Bitwise complement.
    Not { arg: usize },
    /// A binary operation over two registers.
    Binary { op: AluBinary, arg1: usize, arg2: usize },
    /// A two-way multiplexer.
    Select { cond: usize, true_value: usize, false_value: usize },
    /// Reinterprets the low `len` bits of a register; the signedness only
    /// changes the destination kind, never the bits (no sign extension).
    Cast { arg: usize, len: usize, signed: bool },
    /// Extracts `bit_len` bits starting at `bit_start`.
    Index { arg: usize, bit_start: usize, bit_len: usize },
    /// Calls the external function at the given index of the object's
    /// external list.
    Exec { func: usize, args: Vec<usize> },
}

/// Mathematical model of an [`Op`].
pub enum OpV {
    Literal { value: u128, width: int },
    Copy { arg: int },
    Not { arg: int },
    Binary { op: AluBinary, arg1: int, arg2: int },
    Select { cond: int, true_value: int, false_value: int },
    Cast { arg: int, len: int, signed: bool },
    Index { arg: int, bit_start: int, bit_len: int },
    Exec { func: int, args: Seq<int> },
}

impl View for Op {
    type V = OpV;

    open spec fn view(&self) -> OpV {
        match self {
            Op::Literal { value, width } => OpV::Literal { value: *value, width: *width as int },
            Op::Copy { arg } => OpV::Copy { arg: *arg as int },
            Op::Not { arg } => OpV::Not { arg: *arg as int },
            Op::Binary { op, arg1, arg2 } => OpV::Binary {
                op: *op,
                arg1: *arg1 as int,
                arg2: *arg2 as int,
            },
            Op::Select { cond, true_value, false_value } => OpV::Select {
                cond: *cond as int,
                true_value: *true_value as int,
                false_value: *false_value as int,
            },
            Op::Cast { arg, len, signed } => OpV::Cast {
                arg: *arg as int,
                len: *len as int,
                signed: *signed,
            },
            Op::Index { arg, bit_start, bit_len } => OpV::Index {
                arg: *arg as int,
                bit_start: *bit_start as int,
                bit_len: *bit_len as int,
            },
            Op::Exec { func, args } => OpV::Exec {
                func: *func as int,
                args: args@.map_values(|x: usize| x as int),
            },
        }
    }
}

/// One instruction: a destination register, an operation, and the source
/// node it came from (for diagnostics through the symbol map).
#[derive(Debug)]
pub struct Instr {
    pub lhs: usize,
    pub op: Op,
    pub node: usize,
}

/// Mathematical model of an [`Instr`].
pub struct InstrV {
    pub lhs: int,
    pub op: OpV,
    pub node: int,
}

impl View for Instr {
    type V = InstrV;

    open spec fn view(&self) -> InstrV {
        InstrV { lhs: self.lhs as int, op: self.op@, node: self.node as int }
    }
}

/// The body of an externally defined primitive: a pre-rendered textual
/// implementation plus its name.
#[derive(Debug)]
pub struct ExternalKernelDef {
    pub name: String,
    pub body: String,
}

/// The definition behind an external function reference: an in-source
/// kernel to be compiled, or an opaque externally defined primitive.
#[derive(Debug)]
pub enum ExternalFunctionCode {
    Kernel(Kernel),
    Extern(ExternalKernelDef),
}

/// The declared interface of a function.
#[derive(Debug)]
pub struct FnSig {
    pub arguments: Vec<Kind>,
    pub ret: Kind,
}

/// A reference to another function: its definition and its interface.
#[derive(Debug)]
pub struct ExternalFunction {
    pub code: ExternalFunctionCode,
    pub signature: FnSig,
}

/// Mathematical model of an [`ExternalFunctionCode`].
pub enum ExternalFunctionCodeV {
    Kernel(Box<KernelV>),
    Extern(Seq<char>, Seq<char>),
}

/// Mathematical model of an [`FnSig`].
pub struct FnSigV {
    pub arguments: Seq<KindV>,
    pub ret: KindV,
}

/// Mathematical model of an [`ExternalFunction`].
pub struct ExternalFunctionV {
    pub code: ExternalFunctionCodeV,
    pub signature: FnSigV,
}

/// The model of an external function reference.
pub open spec fn extfn_view(f: ExternalFunction) -> ExternalFunctionV
    decreases f,
{
    ExternalFunctionV {
        code: match f.code {
            ExternalFunctionCode::Kernel(k) => ExternalFunctionCodeV::Kernel(
                Box::new(crate::ast::kernel_view(k)),
            ),
            ExternalFunctionCode::Extern(d) => ExternalFunctionCodeV::Extern(d.name@, d.body@),
        },
        signature: FnSigV {
            arguments: kinds_view(f.signature.arguments@),
            ret: f.signature.ret@,
        },
    }
}

impl View for ExternalFunction {
    type V = ExternalFunctionV;

    open spec fn view(&self) -> ExternalFunctionV {
        extfn_view(*self)
    }
}

/// The source map of a compiled object: enough to tie a diagnostic back
/// to the kernel and node it came from.
#[derive(Debug)]
pub struct SpannedSource {
    /// Name of the kernel the object was compiled from.
    pub source: String,
}

/// Mathematical model of a [`SpannedSource`].
pub struct SpannedSourceV {
    pub source: Seq<char>,
}

impl View for SpannedSource {
    type V = SpannedSourceV;

    open spec fn view(&self) -> SpannedSourceV {
        SpannedSourceV { source: self.source@ }
    }
}

impl Clone for SpannedSource {
    fn clone(&self) -> (r: Self)
        ensures
            r@ == self@,
    {
        SpannedSource { source: self.source.clone() }
    }
}

/// The symbol map of a compiled object.
#[derive(Debug)]
pub struct SymbolMap {
    pub source: SpannedSource,
}

/// Mathematical model of a [`SymbolMap`].
pub struct SymbolMapV {
    pub source: SpannedSourceV,
}

impl View for SymbolMap {
    type V = SymbolMapV;

    open spec fn view(&self) -> SymbolMapV {
        SymbolMapV { source: self.source@ }
    }
}

/// The compiled form of one kernel: a straight-line instruction sequence
/// over virtual registers, the kind of every register, the argument and
/// return registers, the external functions called, and the symbol map.
#[derive(Debug)]
pub struct Object {
    pub instrs: Vec<Instr>,
    pub kinds: Vec<Kind>,
    pub symbols: SymbolMap,
    pub externals: Vec<ExternalFunction>,
    pub arguments: Vec<usize>,
    pub return_register: usize,
    pub name: String,
    pub fn_id: FunctionId,
}

/// Mathematical model of an [`Object`].
pub struct ObjectV {
    pub instrs: Seq<InstrV>,
    pub kinds: Seq<KindV>,
    pub symbols: SymbolMapV,
    pub externals: Seq<ExternalFunctionV>,
    pub arguments: Seq<int>,
    pub return_register: int,
    pub name: Seq<char>,
    pub fn_id: int,
}

/// Elementwise model of an instruction sequence.
pub open spec fn instrs_view(s: Seq<Instr>) -> Seq<InstrV>
    decreases s,
{
    if s.len() == 0 {
        Seq::empty()
    } else {
        instrs_view(s.drop_last()).push(s.last()@)
    }
}

/// Elementwise model of an external function list.
pub open spec fn extfns_view(s: Seq<ExternalFunction>) -> Seq<ExternalFunctionV>
    decreases s,
{
    if s.len() == 0 {
        Seq::empty()
    } else {
        extfns_view(s.drop_last()).push(extfn_view(s.last()))
    }
}

impl View for Object {
    type V = ObjectV;

    open spec fn view(&self) -> ObjectV {
        ObjectV {
            instrs: instrs_view(self.instrs@),
            kinds: kinds_view(self.kinds@),
            symbols: self.symbols@,
            externals: extfns_view(self.externals@),
            arguments: self.arguments@.map_values(|x: usize| x as int),
            return_register: self.return_register as int,
            name: self.name@,
            fn_id: self.fn_id as int,
        }
    }
}

/// The model of an instruction sequence has the same length.
pub proof fn lemma_instrs_view_len(s: Seq<Instr>)
    ensures
        instrs_view(s).len() == s.len(),
    decreases s,
{
    if s.len() > 0 {
        lemma_instrs_view_len(s.drop_last());
    }
}

/// The model of an instruction sequence is the model taken elementwise.
pub proof fn lemma_instrs_view_index(s: Seq<Instr>, i: int)
    requires
        0 <= i < s.len(),
    ensures
        instrs_view(s).len() == s.len(),
        instrs_view(s)[i] == s[i]@,
    decreases s,
{
    lemma_instrs_view_len(s);
    if i < s.len() - 1 {
        lemma_instrs_view_index(s.drop_last(), i);
    }
}

/// The model of an external list has the same length.
pub proof fn lemma_extfns_view_len(s: Seq<ExternalFunction>)
    ensures
        extfns_view(s).len() == s.len(),
    decreases s,
{
    if s.len() > 0 {
        lemma_extfns_view_len(s.drop_last());
    }
}

/// The model of an external list is the model taken elementwise.
pub proof fn lemma_extfns_view_index(s: Seq<ExternalFunction>, i: int)
    requires
        0 <= i < s.len(),
    ensures
        extfns_view(s).len() == s.len(),
        extfns_view(s)[i] == s[i]@,
    decreases s,
{
    lemma_extfns_view_len(s);
    if i < s.len() - 1 {
        lemma_extfns_view_index(s.drop_last(), i);
    }
}

impl Clone for Op {
    fn clone(&self) -> (r: Self)
        ensures
            r@ == self@,
    {
        match self {
            Op::Literal { value, width } => Op::Literal { value: *value, width: *width },
            Op::Copy { arg } => Op::Copy { arg: *arg },
            Op::Not { arg } => Op::Not { arg: *arg },
            Op::Binary { op, arg1, arg2 } => Op::Binary { op: *op, arg1: *arg1, arg2: *arg2 },
            Op::Select { cond, true_value, false_value } => Op::Select {
                cond: *cond,
                true_value: *true_value,
                false_value: *false_value,
            },
            Op::Cast { arg, len, signed } => Op::Cast { arg: *arg, len: *len, signed: *signed },
            Op::Index { arg, bit_start, bit_len } => Op::Index {
                arg: *arg,
                bit_start: *bit_start,
                bit_len: *bit_len,
            },
            Op::Exec { func, args } => {
                let mut a2: Vec<usize> = Vec::new();
                let mut i: usize = 0;
                while i < args.len()
                    invariant
                        i <= args@.len(),
                        a2@.len() == i,
                        forall|j: int| 0 <= j < i ==> #[trigger] a2@[j] == args@[j],
                    decreases args.len() - i,
                {
                    a2.push(args[i]);
                    i = i + 1;
                }
                let ghost a2v = a2@;
                let r = Op::Exec { func: *func, args: a2 };
                proof {
                    assert(a2v =~= args@);
                    assert(a2v.map_values(|x: usize| x as int) =~= args@.map_values(
                        |x: usize| x as int,
                    ));
                }
                r
            },
        }
    }
}

impl Clone for Instr {
    fn clone(&self) -> (r: Self)
        ensures
            r@ == self@,
    {
        Instr { lhs: self.lhs, op: self.op.clone(), node: self.node }
    }
}

impl Clone for ExternalKernelDef {
    fn clone(&self) -> (r: Self)
        ensures
            r.name@ == self.name@,
            r.body@ == self.body@,
    {
        ExternalKernelDef { name: self.name.clone(), body: self.body.clone() }
    }
}

impl Clone for FnSig {
    fn clone(&self) -> (r: Self)
        ensures
            kinds_view(r.arguments@) == kinds_view(self.arguments@),
            r.ret@ == self.ret@,
        decreases *self,
    {
        let mut arguments: Vec<Kind> = Vec::new();
        let mut i: usize = 0;
        while i < self.arguments.len()
            invariant
                i <= self.arguments@.len(),
                arguments@.len() == i,
                forall|j: int| 0 <= j < i ==> #[trigger] arguments@[j]@ == self.arguments@[j]@,
            decreases self.arguments.len() - i,
        {
            arguments.push(self.arguments[i].clone());
            i = i + 1;
        }
        let r = FnSig { arguments, ret: self.ret.clone() };
        proof {
            crate::kind::lemma_kinds_view_len(r.arguments@);
            crate::kind::lemma_kinds_view_len(self.arguments@);
            assert forall|m: int| 0 <= m < r.arguments@.len() implies kinds_view(r.arguments@)[m]
                == kinds_view(self.arguments@)[m] by {
                crate::kind::lemma_kinds_view_index(r.arguments@, m);
                crate::kind::lemma_kinds_view_index(self.arguments@, m);
                assert(r.arguments@[m]@ == crate::kind::kind_view(r.arguments@[m]));
                assert(self.arguments@[m]@ == crate::kind::kind_view(self.arguments@[m]));
            }
            assert(kinds_view(r.arguments@) =~= kinds_view(self.arguments@));
        }
        r
    }
}

impl Clone for ExternalFunction {
    fn clone(&self) -> (r: Self)
        ensures
            r@ == self@,
        decreases *self,
    {
        let code = match &self.code {
            ExternalFunctionCode::Kernel(k) => ExternalFunctionCode::Kernel(k.clone()),
            ExternalFunctionCode::Extern(d) => ExternalFunctionCode::Extern(d.clone()),
        };
        ExternalFunction { code, signature: self.signature.clone() }
    }
}

} // verus!
