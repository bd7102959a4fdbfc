//! The optimization pass pipeline.
//!
//! A pass is a pure rewrite of an [`Object`] that preserves the observable
//! behaviour of the instruction sequence and only changes its
//! representation.  Each pass is idempotent: run on its own output it
//! returns that output unchanged, which the `lemma_*_idempotent` proofs
//! state over the passes' specifications.

use crate::bits::spec_mask;
use crate::rhif::instrs_view;
use crate::rhif::lemma_instrs_view_index;
use crate::rhif::lemma_instrs_view_len;
use crate::rhif::Instr;
use crate::rhif::InstrV;
use crate::rhif::Object;
use crate::rhif::ObjectV;
use crate::rhif::Op;
use crate::rhif::OpV;
use vstd::prelude::*;

verus! {

/// The register that the first copy instruction assigning `r` reads.
pub open spec fn find_copy(instrs: Seq<InstrV>, r: int) -> Option<int>
    decreases instrs,
{
    if instrs.len() == 0 {
        None
    } else if instrs[0].lhs == r && instrs[0].op is Copy {
        Some(instrs[0].op->Copy_arg)
    } else {
        find_copy(instrs.drop_first(), r)
    }
}

/// Follows copy chains from `r` for at most `fuel` steps.
pub open spec fn resolve_reg(instrs: Seq<InstrV>, r: int, fuel: nat) -> int
    decreases fuel,
{
    if fuel == 0 {
        r
    } else {
        match find_copy(instrs, r) {
            None => r,
            Some(a) => resolve_reg(instrs, a, (fuel - 1) as nat),
        }
    }
}

/// Rewrites every operand of an operation through copy resolution.
pub open spec fn rewrite_op(instrs: Seq<InstrV>, op: OpV) -> OpV {
    let fuel = instrs.len();
    match op {
        OpV::Literal { value, width } => OpV::Literal { value, width },
        OpV::Copy { arg } => OpV::Copy { arg: resolve_reg(instrs, arg, fuel) },
        OpV::Not { arg } => OpV::Not { arg: resolve_reg(instrs, arg, fuel) },
        OpV::Binary { op, arg1, arg2 } => OpV::Binary {
            op,
            arg1: resolve_reg(instrs, arg1, fuel),
            arg2: resolve_reg(instrs, arg2, fuel),
        },
        OpV::Select { cond, true_value, false_value } => OpV::Select {
            cond: resolve_reg(instrs, cond, fuel),
            true_value: resolve_reg(instrs, true_value, fuel),
            false_value: resolve_reg(instrs, false_value, fuel),
        },
        OpV::Cast { arg, len, signed } => OpV::Cast {
            arg: resolve_reg(instrs, arg, fuel),
            len,
            signed,
        },
        OpV::Index { arg, bit_start, bit_len } => OpV::Index {
            arg: resolve_reg(instrs, arg, fuel),
            bit_start,
            bit_len,
        },
        OpV::Exec { func, args } => OpV::Exec {
            func,
            args: args.map_values(|a: int| resolve_reg(instrs, a, fuel)),
        },
    }
}

/// The kept instructions of the copy-elimination pass: copies are dropped
/// and the operands of the rest are resolved through the dropped copies.
pub open spec fn prune_copies(instrs: Seq<InstrV>, s: Seq<InstrV>) -> Seq<InstrV>
    decreases s,
{
    if s.len() == 0 {
        Seq::empty()
    } else {
        let rest = prune_copies(instrs, s.drop_last());
        if s.last().op is Copy {
            rest
        } else {
            rest.push(InstrV { lhs: s.last().lhs, op: rewrite_op(instrs, s.last().op), node: s.last().node })
        }
    }
}

/// Copy elimination: drops every copy instruction and redirects every use
/// of a copied register to the copy's ultimate source; the return register
/// is redirected the same way.
pub open spec fn spec_remove_extra_registers(o: ObjectV) -> ObjectV {
    ObjectV {
        instrs: prune_copies(o.instrs, o.instrs),
        return_register: resolve_reg(o.instrs, o.return_register, o.instrs.len()),
        ..o
    }
}

/// A pruned sequence holds no copies, and pruning a copy-free sequence
/// rewrites (only) its operands.
proof fn lemma_prune_copies_no_copy(instrs: Seq<InstrV>, s: Seq<InstrV>)
    ensures
        forall|i: int|
            0 <= i < prune_copies(instrs, s).len() ==> !((
            #[trigger] prune_copies(instrs, s)[i]).op is Copy),
    decreases s,
{
    if s.len() > 0 {
        lemma_prune_copies_no_copy(instrs, s.drop_last());
        let rest = prune_copies(instrs, s.drop_last());
        let whole = prune_copies(instrs, s);
        if !(s.last().op is Copy) {
            assert forall|i: int| 0 <= i < whole.len() implies !((#[trigger] whole[i]).op
                is Copy) by {
                if i < rest.len() {
                    assert(whole[i] == rest[i]);
                } else {
                    assert(whole[i].op == rewrite_op(instrs, s.last().op));
                }
            }
        }
    }
}

/// A sequence without copies yields no copy source for any register.
proof fn lemma_find_copy_none(instrs: Seq<InstrV>, r: int)
    requires
        forall|i: int| 0 <= i < instrs.len() ==> !((#[trigger] instrs[i]).op is Copy),
    ensures
        find_copy(instrs, r) is None,
    decreases instrs,
{
    if instrs.len() > 0 {
        assert(forall|k: int|
            1 <= k < instrs.len() ==> #[trigger] instrs[k] == instrs.drop_first()[k - 1]);
        lemma_find_copy_none(instrs.drop_first(), r);
    }
}

/// Resolution over a copy-free sequence is the identity.
proof fn lemma_resolve_reg_id(instrs: Seq<InstrV>, r: int, fuel: nat)
    requires
        forall|i: int| 0 <= i < instrs.len() ==> !((#[trigger] instrs[i]).op is Copy),
    ensures
        resolve_reg(instrs, r, fuel) == r,
{
    if fuel > 0 {
        lemma_find_copy_none(instrs, r);
    }
}

/// Rewriting over a copy-free sequence is the identity.
proof fn lemma_rewrite_op_id(instrs: Seq<InstrV>, op: OpV)
    requires
        forall|i: int| 0 <= i < instrs.len() ==> !((#[trigger] instrs[i]).op is Copy),
    ensures
        rewrite_op(instrs, op) == op,
{
    let fuel = instrs.len();
    match op {
        OpV::Copy { arg } => {
            lemma_resolve_reg_id(instrs, arg, fuel);
        },
        OpV::Not { arg } => {
            lemma_resolve_reg_id(instrs, arg, fuel);
        },
        OpV::Binary { op: _, arg1, arg2 } => {
            lemma_resolve_reg_id(instrs, arg1, fuel);
            lemma_resolve_reg_id(instrs, arg2, fuel);
        },
        OpV::Select { cond, true_value, false_value } => {
            lemma_resolve_reg_id(instrs, cond, fuel);
            lemma_resolve_reg_id(instrs, true_value, fuel);
            lemma_resolve_reg_id(instrs, false_value, fuel);
        },
        OpV::Cast { arg, len: _, signed: _ } => {
            lemma_resolve_reg_id(instrs, arg, fuel);
        },
        OpV::Index { arg, bit_start: _, bit_len: _ } => {
            lemma_resolve_reg_id(instrs, arg, fuel);
        },
        OpV::Exec { func: _, args } => {
            assert forall|j: int| 0 <= j < args.len() implies args.map_values(
                |a: int| resolve_reg(instrs, a, fuel),
            )[j] == args[j] by {
                lemma_resolve_reg_id(instrs, args[j], fuel);
            }
            assert(args.map_values(|a: int| resolve_reg(instrs, a, fuel)) =~= args);
        },
        _ => {},
    }
}

/// Pruning a copy-free sequence leaves it unchanged.
proof fn lemma_prune_copies_id(instrs: Seq<InstrV>, s: Seq<InstrV>)
    requires
        forall|i: int| 0 <= i < instrs.len() ==> !((#[trigger] instrs[i]).op is Copy),
        forall|i: int| 0 <= i < s.len() ==> !((#[trigger] s[i]).op is Copy),
    ensures
        prune_copies(instrs, s) == s,
    decreases s,
{
    if s.len() > 0 {
        lemma_prune_copies_id(instrs, s.drop_last());
        lemma_rewrite_op_id(instrs, s.last().op);
        assert(prune_copies(instrs, s) =~= s);
    }
}

/// Copy elimination is idempotent: run on its own output it returns the
/// output unchanged.
pub proof fn lemma_remove_extra_registers_idempotent(o: ObjectV)
    ensures
        spec_remove_extra_registers(spec_remove_extra_registers(o))
            == spec_remove_extra_registers(o),
{
    let o1 = spec_remove_extra_registers(o);
    lemma_prune_copies_no_copy(o.instrs, o.instrs);
    lemma_prune_copies_id(o1.instrs, o1.instrs);
    lemma_resolve_reg_id(o1.instrs, o1.return_register, o1.instrs.len());
    assert(spec_remove_extra_registers(o1) =~= o1);
}

/// The first copy source for `r`, characterized: the first copy
/// instruction assigning `r`, if any.
proof fn lemma_find_copy_char(s: Seq<InstrV>, r: int)
    ensures
        match find_copy(s, r) {
            Some(a) => exists|j: int|
                0 <= j < s.len() && (#[trigger] s[j]).lhs == r && s[j].op is Copy && s[j].op->Copy_arg
                    == a && forall|k: int|
                    0 <= k < j ==> !((#[trigger] s[k]).lhs == r && s[k].op is Copy),
            None => forall|k: int| 0 <= k < s.len() ==> !((#[trigger] s[k]).lhs == r && s[k].op is Copy),
        },
    decreases s,
{
    if s.len() > 0 && !(s[0].lhs == r && s[0].op is Copy) {
        lemma_find_copy_char(s.drop_first(), r);
        assert(forall|k: int| 1 <= k < s.len() ==> #[trigger] s[k] == s.drop_first()[k - 1]);
        match find_copy(s.drop_first(), r) {
            Some(a) => {
                let j0 = choose|j: int|
                    0 <= j < s.drop_first().len() && (#[trigger] s.drop_first()[j]).lhs == r
                        && s.drop_first()[j].op is Copy && s.drop_first()[j].op->Copy_arg == a
                        && forall|k: int|
                        0 <= k < j ==> !((#[trigger] s.drop_first()[k]).lhs == r
                            && s.drop_first()[k].op is Copy);
                assert((s[j0 + 1]).lhs == r && s[j0 + 1].op is Copy && s[j0 + 1].op->Copy_arg
                    == a);
                assert(forall|k: int|
                    0 <= k < j0 + 1 ==> !((#[trigger] s[k]).lhs == r && s[k].op is Copy));
            },
            None => {},
        }
    }
}

/// The first copy source for `r`, computed.
fn find_copy_exec(instrs: &Vec<Instr>, r: usize) -> (ret: Option<usize>)
    ensures
        (match find_copy(instrs_view(instrs@), r as int) {
            Some(a) => ret matches Some(x) && x == a,
            None => ret is None,
        }),
{
    let ghost vs = instrs_view(instrs@);
    proof {
        lemma_instrs_view_len(instrs@);
        assert forall|j: int| 0 <= j < vs.len() implies #[trigger] vs[j] == instrs@[j]@ by {
            lemma_instrs_view_index(instrs@, j);
        }
        lemma_find_copy_char(vs, r as int);
    }
    let mut i: usize = 0;
    while i < instrs.len()
        invariant
            i <= instrs@.len(),
            vs == instrs_view(instrs@),
            vs.len() == instrs@.len(),
            forall|j: int| 0 <= j < vs.len() ==> #[trigger] vs[j] == instrs@[j]@,
            forall|k: int| 0 <= k < i ==> !((#[trigger] vs[k]).lhs == r && vs[k].op is Copy),
            match find_copy(vs, r as int) {
                Some(a) => exists|j: int|
                    0 <= j < vs.len() && (#[trigger] vs[j]).lhs == r && vs[j].op is Copy
                        && vs[j].op->Copy_arg == a && forall|k: int|
                        0 <= k < j ==> !((#[trigger] vs[k]).lhs == r && vs[k].op is Copy),
                None => forall|k: int|
                    0 <= k < vs.len() ==> !((#[trigger] vs[k]).lhs == r && vs[k].op is Copy),
            },
        decreases instrs@.len() - i,
    {
        if instrs[i].lhs == r {
            match &instrs[i].op {
                Op::Copy { arg } => {
                    proof {
                        assert(vs[i as int].lhs == r && vs[i as int].op is Copy);
                        if find_copy(vs, r as int) is Some {
                            let j = choose|j: int|
                                0 <= j < vs.len() && (#[trigger] vs[j]).lhs == r && vs[j].op
                                    is Copy && vs[j].op->Copy_arg == find_copy(
                                    vs,
                                    r as int,
                                )->Some_0 && forall|k: int|
                                    0 <= k < j ==> !((#[trigger] vs[k]).lhs == r && vs[k].op
                                        is Copy);
                            assert(j == i);
                        }
                    }
                    return Some(*arg);
                },
                _ => {},
            }
        }
        i = i + 1;
    }
    None
}

/// Copy resolution, computed.
fn resolve_reg_exec(instrs: &Vec<Instr>, r: usize, fuel: usize) -> (ret: usize)
    ensures
        ret == resolve_reg(instrs_view(instrs@), r as int, fuel as nat),
    decreases fuel,
{
    if fuel == 0 {
        r
    } else {
        match find_copy_exec(instrs, r) {
            None => r,
            Some(a) => resolve_reg_exec(instrs, a, fuel - 1),
        }
    }
}

/// Operand rewriting, computed.
fn rewrite_op_exec(instrs: &Vec<Instr>, op: &Op) -> (ret: Op)
    ensures
        ret@ == rewrite_op(instrs_view(instrs@), op@),
{
    let ghost vs = instrs_view(instrs@);
    proof {
        lemma_instrs_view_len(instrs@);
    }
    let fuel = instrs.len();
    match op {
        Op::Literal { value, width } => Op::Literal { value: *value, width: *width },
        Op::Copy { arg } => Op::Copy { arg: resolve_reg_exec(instrs, *arg, fuel) },
        Op::Not { arg } => Op::Not { arg: resolve_reg_exec(instrs, *arg, fuel) },
        Op::Binary { op, arg1, arg2 } => Op::Binary {
            op: *op,
            arg1: resolve_reg_exec(instrs, *arg1, fuel),
            arg2: resolve_reg_exec(instrs, *arg2, fuel),
        },
        Op::Select { cond, true_value, false_value } => Op::Select {
            cond: resolve_reg_exec(instrs, *cond, fuel),
            true_value: resolve_reg_exec(instrs, *true_value, fuel),
            false_value: resolve_reg_exec(instrs, *false_value, fuel),
        },
        Op::Cast { arg, len, signed } => Op::Cast {
            arg: resolve_reg_exec(instrs, *arg, fuel),
            len: *len,
            signed: *signed,
        },
        Op::Index { arg, bit_start, bit_len } => Op::Index {
            arg: resolve_reg_exec(instrs, *arg, fuel),
            bit_start: *bit_start,
            bit_len: *bit_len,
        },
        Op::Exec { func, args } => {
            let mut a2: Vec<usize> = Vec::new();
            let mut i: usize = 0;
            while i < args.len()
                invariant
                    i <= args@.len(),
                    vs == instrs_view(instrs@),
                    fuel as int == vs.len(),
                    a2@.len() == i,
                    forall|j: int|
                        0 <= j < i ==> #[trigger] a2@[j] as int == resolve_reg(
                            vs,
                            args@[j] as int,
                            vs.len() as nat,
                        ),
                decreases args@.len() - i,
            {
                let x = resolve_reg_exec(instrs, args[i], fuel);
                a2.push(x);
                i = i + 1;
            }
            let ghost a2v = a2@;
            let r = Op::Exec { func: *func, args: a2 };
            proof {
                assert(a2v.map_values(|x: usize| x as int) =~= args@.map_values(
                    |x: usize| x as int,
                ).map_values(|a: int| resolve_reg(vs, a, vs.len() as nat)));
            }
            r
        },
    }
}

/// Copy elimination, per [`spec_remove_extra_registers`].
pub fn remove_extra_registers(o: Object) -> (r: Object)
    ensures
        r@ == spec_remove_extra_registers(o@),
{
    let ghost vs = instrs_view(o.instrs@);
    proof {
        lemma_instrs_view_len(o.instrs@);
    }
    let mut instrs: Vec<Instr> = Vec::new();
    let mut i: usize = 0;
    while i < o.instrs.len()
        invariant
            i <= o.instrs@.len(),
            vs == instrs_view(o.instrs@),
            vs.len() == o.instrs@.len(),
            instrs_view(instrs@) == prune_copies(vs, vs.take(i as int)),
        decreases o.instrs@.len() - i,
    {
        proof {
            lemma_instrs_view_index(o.instrs@, i as int);
            assert(vs.take(i + 1).drop_last() =~= vs.take(i as int));
            assert(vs.take(i + 1).last() == vs[i as int]);
        }
        let is_copy = match &o.instrs[i].op {
            Op::Copy { .. } => true,
            _ => false,
        };
        if !is_copy {
            let new_op = rewrite_op_exec(&o.instrs, &o.instrs[i].op);
            let ghost pre = instrs_view(instrs@);
            let ghost pre_elems = instrs@;
            instrs.push(Instr { lhs: o.instrs[i].lhs, op: new_op, node: o.instrs[i].node });
            proof {
                assert(instrs@.drop_last() =~= pre_elems);
                assert(instrs_view(instrs@) == instrs_view(instrs@.drop_last()).push(
                    instrs@.last()@,
                ));
                assert(instrs_view(instrs@) == pre.push(instrs@.last()@));
            }
        }
        i = i + 1;
    }
    let ret = resolve_reg_exec(&o.instrs, o.return_register, o.instrs.len());
    let r = Object {
        instrs,
        kinds: o.kinds,
        symbols: o.symbols,
        externals: o.externals,
        arguments: o.arguments,
        return_register: ret,
        name: o.name,
        fn_id: o.fn_id,
    };
    proof {
        assert(vs.take(vs.len() as int) =~= vs);
        assert(r@ =~= spec_remove_extra_registers(
            ObjectV {
                instrs: vs,
                kinds: crate::kind::kinds_view(o.kinds@),
                symbols: o.symbols@,
                externals: crate::rhif::extfns_view(o.externals@),
                arguments: o.arguments@.map_values(|x: usize| x as int),
                return_register: o.return_register as int,
                name: o.name@,
                fn_id: o.fn_id as int,
            },
        ));
    }
    r
}

/// The operation of the first instruction assigning `r`, if any.
pub open spec fn find_def(s: Seq<InstrV>, r: int) -> Option<OpV>
    decreases s,
{
    if s.len() == 0 {
        None
    } else if s[0].lhs == r {
        Some(s[0].op)
    } else {
        find_def(s.drop_first(), r)
    }
}

/// The literal value a register is known to hold: the value of the first
/// instruction assigning it, when that instruction loads a literal.
pub open spec fn lit_value(s: Seq<InstrV>, r: int) -> Option<u128> {
    match find_def(s, r) {
        Some(OpV::Literal { value, width }) => Some(value),
        _ => None,
    }
}

/// One step of multiplexer removal: a select whose branches are equal, or
/// whose condition is a known literal, becomes a copy of the surviving
/// branch.
pub open spec fn mux_step(all: Seq<InstrV>, i: InstrV) -> InstrV {
    match i.op {
        OpV::Select { cond, true_value, false_value } => if true_value == false_value {
            InstrV { lhs: i.lhs, op: OpV::Copy { arg: true_value }, node: i.node }
        } else {
            match lit_value(all, cond) {
                Some(v) => InstrV {
                    lhs: i.lhs,
                    op: OpV::Copy {
                        arg: if v != 0 {
                            true_value
                        } else {
                            false_value
                        },
                    },
                    node: i.node,
                },
                None => i,
            }
        },
        _ => i,
    }
}

/// Multiplexer removal applied to every instruction.
pub open spec fn mux_map(all: Seq<InstrV>, s: Seq<InstrV>) -> Seq<InstrV>
    decreases s,
{
    if s.len() == 0 {
        Seq::empty()
    } else {
        mux_map(all, s.drop_last()).push(mux_step(all, s.last()))
    }
}

/// Multiplexer removal: simplifies selects whose branches are provably
/// equal or whose condition is statically known.
pub open spec fn spec_remove_unneeded_muxes(o: ObjectV) -> ObjectV {
    ObjectV { instrs: mux_map(o.instrs, o.instrs), ..o }
}

/// The map over instructions, read elementwise.
proof fn lemma_mux_map_index(all: Seq<InstrV>, s: Seq<InstrV>)
    ensures
        mux_map(all, s).len() == s.len(),
        forall|i: int| 0 <= i < s.len() ==> #[trigger] mux_map(all, s)[i] == mux_step(all, s[i]),
    decreases s,
{
    if s.len() > 0 {
        lemma_mux_map_index(all, s.drop_last());
    }
}

/// Multiplexer removal keeps the position, destination, and
/// literal-or-not status of every instruction, so known literal values are
/// unchanged.
proof fn lemma_lit_value_preserved(a: Seq<InstrV>, b: Seq<InstrV>, r: int)
    requires
        a.len() == b.len(),
        forall|i: int|
            0 <= i < a.len() ==> (#[trigger] a[i]).lhs == b[i].lhs && ((a[i].op is Literal && b[i].op
                is Literal && a[i].op == b[i].op) || (!(a[i].op is Literal) && !(b[i].op
                is Literal))),
    ensures
        lit_value(a, r) == lit_value(b, r),
    decreases a,
{
    if a.len() > 0 {
        assert(forall|k: int| 1 <= k < a.len() ==> #[trigger] a[k] == a.drop_first()[k - 1]);
        assert(forall|k: int| 1 <= k < b.len() ==> #[trigger] b[k] == b.drop_first()[k - 1]);
        lemma_lit_value_preserved(a.drop_first(), b.drop_first(), r);
    }
}

/// Multiplexer removal is idempotent.
pub proof fn lemma_remove_unneeded_muxes_idempotent(o: ObjectV)
    ensures
        spec_remove_unneeded_muxes(spec_remove_unneeded_muxes(o)) == spec_remove_unneeded_muxes(o),
{
    let s = o.instrs;
    let m = mux_map(s, s);
    lemma_mux_map_index(s, s);
    lemma_mux_map_index(m, m);
    assert forall|i: int| 0 <= i < m.len() implies #[trigger] mux_map(m, m)[i] == m[i] by {
        assert forall|r: int| true implies #[trigger] lit_value(m, r) == lit_value(s, r) by {
            lemma_lit_value_preserved(m, s, r);
        }
        assert(m[i] == mux_step(s, s[i]));
        match s[i].op {
            OpV::Select { cond, true_value, false_value } => {
                if true_value == false_value {
                    assert(m[i].op is Copy);
                } else {
                    match lit_value(s, cond) {
                        Some(_) => {
                            assert(m[i].op is Copy);
                        },
                        None => {
                            assert(m[i] == s[i]);
                            assert(lit_value(m, cond) is None);
                        },
                    }
                }
            },
            _ => {},
        }
    }
    assert(mux_map(m, m) =~= m);
    assert(spec_remove_unneeded_muxes(spec_remove_unneeded_muxes(o)) =~= spec_remove_unneeded_muxes(
        o,
    ));
}

/// The first definition of `r`, characterized.
proof fn lemma_find_def_char(s: Seq<InstrV>, r: int)
    ensures
        match find_def(s, r) {
            Some(op) => exists|j: int|
                0 <= j < s.len() && (#[trigger] s[j]).lhs == r && s[j].op == op && forall|k: int|
                    0 <= k < j ==> (#[trigger] s[k]).lhs != r,
            None => forall|k: int| 0 <= k < s.len() ==> (#[trigger] s[k]).lhs != r,
        },
    decreases s,
{
    if s.len() > 0 && s[0].lhs != r {
        lemma_find_def_char(s.drop_first(), r);
        assert(forall|k: int| 1 <= k < s.len() ==> #[trigger] s[k] == s.drop_first()[k - 1]);
        match find_def(s.drop_first(), r) {
            Some(op) => {
                let j0 = choose|j: int|
                    0 <= j < s.drop_first().len() && (#[trigger] s.drop_first()[j]).lhs == r
                        && s.drop_first()[j].op == op && forall|k: int|
                        0 <= k < j ==> (#[trigger] s.drop_first()[k]).lhs != r;
                assert(s[j0 + 1].lhs == r && s[j0 + 1].op == op);
                assert(forall|k: int| 0 <= k < j0 + 1 ==> (#[trigger] s[k]).lhs != r);
            },
            None => {},
        }
    }
}

/// The literal value a register is known to hold, computed.
fn lit_value_exec(instrs: &Vec<Instr>, r: usize) -> (ret: Option<u128>)
    ensures
        (match lit_value(instrs_view(instrs@), r as int) {
            Some(v) => ret matches Some(x) && x == v,
            None => ret is None,
        }),
{
    let ghost vs = instrs_view(instrs@);
    proof {
        lemma_instrs_view_len(instrs@);
        assert forall|j: int| 0 <= j < vs.len() implies #[trigger] vs[j] == instrs@[j]@ by {
            lemma_instrs_view_index(instrs@, j);
        }
        lemma_find_def_char(vs, r as int);
    }
    let mut i: usize = 0;
    while i < instrs.len()
        invariant
            i <= instrs@.len(),
            vs == instrs_view(instrs@),
            vs.len() == instrs@.len(),
            forall|j: int| 0 <= j < vs.len() ==> #[trigger] vs[j] == instrs@[j]@,
            forall|k: int| 0 <= k < i ==> (#[trigger] vs[k]).lhs != r,
            match find_def(vs, r as int) {
                Some(op) => exists|j: int|
                    0 <= j < vs.len() && (#[trigger] vs[j]).lhs == r && vs[j].op == op && forall|
                        k: int,
                    | 0 <= k < j ==> (#[trigger] vs[k]).lhs != r,
                None => forall|k: int| 0 <= k < vs.len() ==> (#[trigger] vs[k]).lhs != r,
            },
        decreases instrs@.len() - i,
    {
        if instrs[i].lhs == r {
            proof {
                assert(vs[i as int].lhs == r);
                if find_def(vs, r as int) is Some {
                    let j = choose|j: int|
                        0 <= j < vs.len() && (#[trigger] vs[j]).lhs == r && vs[j].op == find_def(
                            vs,
                            r as int,
                        )->Some_0 && forall|k: int| 0 <= k < j ==> (#[trigger] vs[k]).lhs != r;
                    assert(j == i);
                }
            }
            match &instrs[i].op {
                Op::Literal { value, width } => {
                    return Some(*value);
                },
                _ => {
                    return None;
                },
            }
        }
        i = i + 1;
    }
    None
}

/// Multiplexer removal, per [`spec_remove_unneeded_muxes`].
pub fn remove_unneeded_muxes(o: Object) -> (r: Object)
    ensures
        r@ == spec_remove_unneeded_muxes(o@),
{
    let ghost vs = instrs_view(o.instrs@);
    proof {
        lemma_instrs_view_len(o.instrs@);
    }
    let mut instrs: Vec<Instr> = Vec::new();
    let mut i: usize = 0;
    while i < o.instrs.len()
        invariant
            i <= o.instrs@.len(),
            vs == instrs_view(o.instrs@),
            vs.len() == o.instrs@.len(),
            instrs_view(instrs@) == mux_map(vs, vs.take(i as int)),
        decreases o.instrs@.len() - i,
    {
        proof {
            lemma_instrs_view_index(o.instrs@, i as int);
            assert(vs.take(i + 1).drop_last() =~= vs.take(i as int));
            assert(vs.take(i + 1).last() == vs[i as int]);
        }
        let cur = &o.instrs[i];
        let mut replaced = false;
        let mut new_arg: usize = 0;
        match &cur.op {
            Op::Select { cond, true_value, false_value } => {
                if *true_value == *false_value {
                    replaced = true;
                    new_arg = *true_value;
                } else {
                    match lit_value_exec(&o.instrs, *cond) {
                        Some(v) => {
                            replaced = true;
                            new_arg = if v != 0 {
                                *true_value
                            } else {
                                *false_value
                            };
                        },
                        None => {},
                    }
                }
            },
            _ => {},
        }
        let ghost pre = instrs_view(instrs@);
        let ghost pre_elems = instrs@;
        if replaced {
            instrs.push(Instr { lhs: cur.lhs, op: Op::Copy { arg: new_arg }, node: cur.node });
        } else {
            instrs.push(cur.clone());
        }
        proof {
            assert(instrs@.drop_last() =~= pre_elems);
            assert(instrs_view(instrs@) == instrs_view(instrs@.drop_last()).push(
                instrs@.last()@,
            ));
            assert(instrs@.last()@ == mux_step(vs, vs[i as int]));
        }
        i = i + 1;
    }
    let r = Object {
        instrs,
        kinds: o.kinds,
        symbols: o.symbols,
        externals: o.externals,
        arguments: o.arguments,
        return_register: o.return_register,
        name: o.name,
        fn_id: o.fn_id,
    };
    proof {
        assert(vs.take(vs.len() as int) =~= vs);
        assert(r@ =~= spec_remove_unneeded_muxes(
            ObjectV {
                instrs: vs,
                kinds: crate::kind::kinds_view(o.kinds@),
                symbols: o.symbols@,
                externals: crate::rhif::extfns_view(o.externals@),
                arguments: o.arguments@.map_values(|x: usize| x as int),
                return_register: o.return_register as int,
                name: o.name@,
                fn_id: o.fn_id as int,
            },
        ));
    }
    r
}

/// Whether an operation reads register `r`.
pub open spec fn op_uses(op: OpV, r: int) -> bool {
    match op {
        OpV::Literal { .. } => false,
        OpV::Copy { arg } => arg == r,
        OpV::Not { arg } => arg == r,
        OpV::Binary { op: _, arg1, arg2 } => arg1 == r || arg2 == r,
        OpV::Select { cond, true_value, false_value } => cond == r || true_value == r
            || false_value == r,
        OpV::Cast { arg, .. } => arg == r,
        OpV::Index { arg, .. } => arg == r,
        OpV::Exec { func: _, args } => args.contains(r),
    }
}

/// Whether any instruction reads register `r`.
pub open spec fn uses(s: Seq<InstrV>, r: int) -> bool {
    exists|i: int| 0 <= i < s.len() && op_uses((#[trigger] s[i]).op, r)
}

/// Whether the object reads register `r` or returns it.
pub open spec fn used(o: ObjectV, r: int) -> bool {
    uses(o.instrs, r) || o.return_register == r
}

/// The kept instructions of dead-literal removal: a literal survives only
/// when some instruction reads it or it is returned.
pub open spec fn prune_literals(o: ObjectV, s: Seq<InstrV>) -> Seq<InstrV>
    decreases s,
{
    if s.len() == 0 {
        Seq::empty()
    } else {
        let rest = prune_literals(o, s.drop_last());
        if s.last().op is Literal && !used(o, s.last().lhs) {
            rest
        } else {
            rest.push(s.last())
        }
    }
}

/// Dead-literal removal: drops literal loads that nothing consumes.
pub open spec fn spec_remove_unused_literals(o: ObjectV) -> ObjectV {
    ObjectV { instrs: prune_literals(o, o.instrs), ..o }
}

/// Everything the pruned sequence holds comes from the input.
proof fn lemma_prune_literals_sub(o: ObjectV, s: Seq<InstrV>)
    ensures
        forall|j: int|
            0 <= j < prune_literals(o, s).len() ==> exists|i: int|
                0 <= i < s.len() && #[trigger] prune_literals(o, s)[j] == s[i],
    decreases s,
{
    if s.len() > 0 {
        lemma_prune_literals_sub(o, s.drop_last());
        let rest = prune_literals(o, s.drop_last());
        let whole = prune_literals(o, s);
        assert forall|j: int| 0 <= j < whole.len() implies exists|i: int|
            0 <= i < s.len() && #[trigger] whole[j] == s[i] by {
            if j < rest.len() {
                assert(whole[j] == rest[j]);
                let i0 = choose|i: int| 0 <= i < s.drop_last().len() && rest[j] == s.drop_last()[i];
                assert(whole[j] == s[i0]);
            } else {
                assert(whole[j] == s[s.len() - 1]);
            }
        }
    }
}

/// Every non-literal instruction survives pruning.
proof fn lemma_prune_literals_keeps(o: ObjectV, s: Seq<InstrV>, i: int)
    requires
        0 <= i < s.len(),
        !(s[i].op is Literal) || used(o, s[i].lhs),
    ensures
        exists|j: int|
            0 <= j < prune_literals(o, s).len() && #[trigger] prune_literals(o, s)[j] == s[i],
    decreases s,
{
    if i == s.len() - 1 {
        let whole = prune_literals(o, s);
        assert(whole[whole.len() - 1] == s[i]);
    } else {
        lemma_prune_literals_keeps(o, s.drop_last(), i);
        let rest = prune_literals(o, s.drop_last());
        let whole = prune_literals(o, s);
        let j0 = choose|j: int| 0 <= j < rest.len() && #[trigger] rest[j] == s.drop_last()[i];
        assert(whole[j0] == s[i]);
    }
}

/// Dead-literal removal is idempotent.
pub proof fn lemma_remove_unused_literals_idempotent(o: ObjectV)
    ensures
        spec_remove_unused_literals(spec_remove_unused_literals(o)) == spec_remove_unused_literals(
            o,
        ),
{
    let o1 = spec_remove_unused_literals(o);
    lemma_prune_literals_sub(o, o.instrs);
    assert forall|i: int|
        0 <= i < o1.instrs.len() && o1.instrs[i].op is Literal implies used(
        o1,
        o1.instrs[i].lhs,
    ) by {
        lemma_prune_literals_usedness(o, o.instrs, i);
        let r = o1.instrs[i].lhs;
        if uses(o.instrs, r) {
            let w = choose|w: int| 0 <= w < o.instrs.len() && op_uses((#[trigger] o.instrs[w]).op, r);
            assert(!(o.instrs[w].op is Literal));
            lemma_prune_literals_keeps(o, o.instrs, w);
            let j = choose|j: int|
                0 <= j < o1.instrs.len() && #[trigger] o1.instrs[j] == o.instrs[w];
            assert(op_uses(o1.instrs[j].op, r));
            assert(uses(o1.instrs, r));
        }
    }
    lemma_prune_literals_all_kept(o1, o1.instrs);
    assert(spec_remove_unused_literals(o1) =~= o1);
}

/// A literal kept by pruning was used in the object it was pruned from.
proof fn lemma_prune_literals_usedness(o: ObjectV, s: Seq<InstrV>, j: int)
    requires
        0 <= j < prune_literals(o, s).len(),
        prune_literals(o, s)[j].op is Literal,
    ensures
        used(o, prune_literals(o, s)[j].lhs),
    decreases s,
{
    if s.len() > 0 {
        let rest = prune_literals(o, s.drop_last());
        if j < rest.len() {
            lemma_prune_literals_usedness(o, s.drop_last(), j);
        }
    }
}

/// Pruning keeps a sequence in which every literal is used.
proof fn lemma_prune_literals_all_kept(o: ObjectV, s: Seq<InstrV>)
    requires
        forall|i: int| 0 <= i < s.len() && (#[trigger] s[i]).op is Literal ==> used(o, s[i].lhs),
    ensures
        prune_literals(o, s) == s,
    decreases s,
{
    if s.len() > 0 {
        lemma_prune_literals_all_kept(o, s.drop_last());
        assert(prune_literals(o, s) =~= s);
    }
}

/// Whether an instruction reads register `r`, computed.
#[verifier::loop_isolation(false)]
fn op_uses_exec(op: &Op, r: usize) -> (ret: bool)
    ensures
        ret == op_uses(op@, r as int),
{
    match op {
        Op::Literal { .. } => false,
        Op::Copy { arg } => *arg == r,
        Op::Not { arg } => *arg == r,
        Op::Binary { op: _, arg1, arg2 } => *arg1 == r || *arg2 == r,
        Op::Select { cond, true_value, false_value } => *cond == r || *true_value == r
            || *false_value == r,
        Op::Cast { arg, .. } => *arg == r,
        Op::Index { arg, .. } => *arg == r,
        Op::Exec { func: _, args } => {
            let ghost m = (match op@ {
                OpV::Exec { func: _, args: a } => a,
                _ => Seq::empty(),
            });
            proof {
                assert(m.len() == args@.len());
                assert(forall|j: int| 0 <= j < m.len() ==> #[trigger] m[j] == args@[j] as int);
            }
            let mut i: usize = 0;
            while i < args.len()
                invariant
                    i <= args@.len(),
                    m.len() == args@.len(),
                    forall|j: int| 0 <= j < m.len() ==> #[trigger] m[j] == args@[j] as int,
                    forall|j: int| 0 <= j < i ==> #[trigger] args@[j] != r,
                decreases args@.len() - i,
            {
                if args[i] == r {
                    proof {
                        assert(m[i as int] == r as int);
                        assert(m.contains(r as int));
                    }
                    return true;
                }
                i = i + 1;
            }
            proof {
                if m.contains(r as int) {
                    let j = choose|j: int| 0 <= j < m.len() && m[j] == r as int;
                    assert(args@[j] != r);
                    assert(m[j] == args@[j] as int);
                }
            }
            false
        },
    }
}

/// Whether anything in the object consumes register `r`, computed.
fn used_exec(o: &Object, r: usize) -> (ret: bool)
    ensures
        ret == used(o@, r as int),
{
    if o.return_register == r {
        return true;
    }
    let ghost vs = instrs_view(o.instrs@);
    proof {
        lemma_instrs_view_len(o.instrs@);
        assert forall|j: int| 0 <= j < vs.len() implies #[trigger] vs[j] == o.instrs@[j]@ by {
            lemma_instrs_view_index(o.instrs@, j);
        }
    }
    let mut i: usize = 0;
    while i < o.instrs.len()
        invariant
            i <= o.instrs@.len(),
            vs == instrs_view(o.instrs@),
            vs.len() == o.instrs@.len(),
            forall|j: int| 0 <= j < vs.len() ==> #[trigger] vs[j] == o.instrs@[j]@,
            forall|k: int| 0 <= k < i ==> !op_uses((#[trigger] vs[k]).op, r as int),
        decreases o.instrs@.len() - i,
    {
        if op_uses_exec(&o.instrs[i].op, r) {
            proof {
                assert(op_uses(vs[i as int].op, r as int));
            }
            return true;
        }
        i = i + 1;
    }
    false
}

/// Dead-literal removal, per [`spec_remove_unused_literals`].
pub fn remove_unused_literals(o: Object) -> (r: Object)
    ensures
        r@ == spec_remove_unused_literals(o@),
{
    let ghost vs = instrs_view(o.instrs@);
    let ghost ov = o@;
    proof {
        lemma_instrs_view_len(o.instrs@);
    }
    let mut instrs: Vec<Instr> = Vec::new();
    let mut i: usize = 0;
    while i < o.instrs.len()
        invariant
            i <= o.instrs@.len(),
            ov == o@,
            vs == instrs_view(o.instrs@),
            vs.len() == o.instrs@.len(),
            instrs_view(instrs@) == prune_literals(ov, vs.take(i as int)),
        decreases o.instrs@.len() - i,
    {
        proof {
            lemma_instrs_view_index(o.instrs@, i as int);
            assert(vs.take(i + 1).drop_last() =~= vs.take(i as int));
            assert(vs.take(i + 1).last() == vs[i as int]);
        }
        let is_literal = match &o.instrs[i].op {
            Op::Literal { .. } => true,
            _ => false,
        };
        let keep = if is_literal {
            used_exec(&o, o.instrs[i].lhs)
        } else {
            true
        };
        if keep {
            let ghost pre = instrs_view(instrs@);
            let ghost pre_elems = instrs@;
            instrs.push(o.instrs[i].clone());
            proof {
                assert(instrs@.drop_last() =~= pre_elems);
                assert(instrs_view(instrs@) == instrs_view(instrs@.drop_last()).push(
                    instrs@.last()@,
                ));
            }
        }
        i = i + 1;
    }
    let r = Object {
        instrs,
        kinds: o.kinds,
        symbols: o.symbols,
        externals: o.externals,
        arguments: o.arguments,
        return_register: o.return_register,
        name: o.name,
        fn_id: o.fn_id,
    };
    proof {
        assert(vs.take(vs.len() as int) =~= vs);
        assert(r@ =~= spec_remove_unused_literals(ov));
    }
    r
}

/// The value a cast leaves in its destination: the low `len` bits.
pub open spec fn cast_value(value: u128, len: int) -> u128 {
    if len >= 0 {
        value & spec_mask(len as nat)
    } else {
        value
    }
}

/// One step of literal pre-casting: with `m` the registers known to hold
/// literal values here, a cast of a known literal becomes the literal of
/// the cast's width, and the known-literal map advances past the
/// instruction's destination.
pub open spec fn pcl_step(m: Map<int, u128>, i: InstrV) -> (InstrV, Map<int, u128>) {
    let i2 = match i.op {
        OpV::Cast { arg, len, signed } => if m.contains_key(arg) {
            InstrV { lhs: i.lhs, op: OpV::Literal { value: cast_value(m[arg], len), width: len }, node: i.node }
        } else {
            i
        },
        _ => i,
    };
    let m2 = match i2.op {
        OpV::Literal { value, width } => m.insert(i.lhs, value),
        _ => m.remove(i.lhs),
    };
    (i2, m2)
}

/// Literal pre-casting over a whole sequence, threading the known-literal
/// map left to right.
pub open spec fn pcl(m: Map<int, u128>, s: Seq<InstrV>) -> Seq<InstrV>
    decreases s,
{
    if s.len() == 0 {
        Seq::empty()
    } else {
        let step = pcl_step(m, s[0]);
        seq![step.0] + pcl(step.1, s.drop_first())
    }
}

/// Literal pre-casting: folds a cast of a known literal into a literal of
/// the cast's width.
pub open spec fn spec_pre_cast_literals(o: ObjectV) -> ObjectV {
    ObjectV { instrs: pcl(Map::empty(), o.instrs), ..o }
}

/// The known-literal map after processing a whole sequence.
pub open spec fn pcl_state(m: Map<int, u128>, s: Seq<InstrV>) -> Map<int, u128>
    decreases s,
{
    if s.len() == 0 {
        m
    } else {
        pcl_state(pcl_step(m, s[0]).1, s.drop_first())
    }
}

/// Extending the processed prefix by one instruction appends that
/// instruction's step and advances the threaded map by its step.
proof fn lemma_pcl_take_succ(m: Map<int, u128>, s: Seq<InstrV>, i: int)
    requires
        0 <= i < s.len(),
    ensures
        pcl(m, s.take(i + 1)) == pcl(m, s.take(i)).push(pcl_step(pcl_state(m, s.take(i)), s[i]).0),
        pcl_state(m, s.take(i + 1)) == pcl_step(pcl_state(m, s.take(i)), s[i]).1,
    decreases i,
{
    if i == 0 {
        let t = s.take(1);
        assert(t[0] == s[0]);
        assert(t.drop_first() =~= Seq::<InstrV>::empty());
        assert(s.take(0) =~= Seq::<InstrV>::empty());
        let step = pcl_step(m, s[0]);
        assert(pcl(m, t) == seq![step.0] + pcl(step.1, t.drop_first()));
        assert(pcl(m, t) =~= Seq::<InstrV>::empty().push(step.0));
        assert(pcl_state(m, t) == pcl_state(step.1, t.drop_first()));
        assert(pcl_state(step.1, t.drop_first()) == step.1);
        assert(pcl_state(m, s.take(0)) == m);
    } else {
        let d = s.drop_first();
        let st0 = pcl_step(m, s[0]);
        lemma_pcl_take_succ(st0.1, d, i - 1);
        assert(s.take(i + 1)[0] == s[0]);
        assert(s.take(i)[0] == s[0]);
        assert(s.take(i + 1).drop_first() =~= d.take(i));
        assert(s.take(i).drop_first() =~= d.take(i - 1));
        assert(s[i] == d[i - 1]);
        assert(pcl(m, s.take(i + 1)) == seq![st0.0] + pcl(st0.1, d.take(i)));
        assert(pcl(m, s.take(i)) == seq![st0.0] + pcl(st0.1, d.take(i - 1)));
        assert(pcl_state(m, s.take(i + 1)) == pcl_state(st0.1, d.take(i)));
        assert(pcl_state(m, s.take(i)) == pcl_state(st0.1, d.take(i - 1)));
        assert(pcl(m, s.take(i + 1)) =~= pcl(m, s.take(i)).push(
            pcl_step(pcl_state(m, s.take(i)), s[i]).0,
        ));
    }
}

/// Literal pre-casting is idempotent from any starting map.
proof fn lemma_pcl_idem(m: Map<int, u128>, s: Seq<InstrV>)
    ensures
        pcl(m, pcl(m, s)) == pcl(m, s),
    decreases s,
{
    if s.len() > 0 {
        let step = pcl_step(m, s[0]);
        let out = pcl(m, s);
        assert(out == seq![step.0] + pcl(step.1, s.drop_first()));
        assert(out[0] == step.0);
        assert(out.drop_first() =~= pcl(step.1, s.drop_first()));
        let step2 = pcl_step(m, step.0);
        assert(step2.0 == step.0 && step2.1 == step.1) by {
            match s[0].op {
                OpV::Cast { arg, len, signed } => {},
                _ => {},
            }
        }
        lemma_pcl_idem(step.1, s.drop_first());
        assert(pcl(m, out) == seq![step2.0] + pcl(step2.1, out.drop_first()));
        assert(pcl(m, out) =~= out);
    }
}

/// Literal pre-casting is idempotent.
pub proof fn lemma_pre_cast_literals_idempotent(o: ObjectV)
    ensures
        spec_pre_cast_literals(spec_pre_cast_literals(o)) == spec_pre_cast_literals(o),
{
    lemma_pcl_idem(Map::empty(), o.instrs);
    assert(spec_pre_cast_literals(spec_pre_cast_literals(o)) =~= spec_pre_cast_literals(o));
}

/// Literal pre-casting, per [`spec_pre_cast_literals`].
#[verifier::loop_isolation(false)]
pub fn pre_cast_literals(o: Object) -> (r: Object)
    ensures
        r@ == spec_pre_cast_literals(o@),
{
    let ghost vs = instrs_view(o.instrs@);
    proof {
        lemma_instrs_view_len(o.instrs@);
    }
    let mut known: Vec<Option<u128>> = Vec::new();
    let ghost m0 = Map::<int, u128>::empty();
    let mut instrs: Vec<Instr> = Vec::new();
    let mut i: usize = 0;
    let ghost mut m = m0;
    while i < o.instrs.len()
        invariant
            i <= o.instrs@.len(),
            forall|r0: int|
                #[trigger] m.contains_key(r0) ==> 0 <= r0 < known@.len() && (
                known@[r0] matches Some(v) && v == m[r0]),
            forall|r0: int|
                0 <= r0 < known@.len() && (#[trigger] known@[r0]) is Some ==> m.contains_key(r0)
                    && known@[r0]->0 == m[r0],
            m == pcl_state(m0, vs.take(i as int)),
            instrs_view(instrs@) == pcl(m0, vs.take(i as int)),
        decreases o.instrs@.len() - i,
    {
        proof {
            lemma_instrs_view_index(o.instrs@, i as int);
            lemma_pcl_take_succ(m0, vs, i as int);
        }
        let cur = &o.instrs[i];
        let ghost step = pcl_step(m, vs[i as int]);
        let mut new_instr: Instr = cur.clone();
        let mut lit: Option<u128> = None;
        match &cur.op {
            Op::Cast { arg, len, signed } => {
                let kv = if *arg < known.len() {
                    known[*arg]
                } else {
                    None
                };
                match kv {
                    Some(v) => {
                        proof {
                            assert(m.contains_key(*arg as int));
                        }
                        let value = v & crate::bits::mask_of(*len);
                        new_instr = Instr {
                            lhs: cur.lhs,
                            op: Op::Literal { value, width: *len },
                            node: cur.node,
                        };
                        lit = Some(value);
                    },
                    None => {
                        proof {
                            assert(!m.contains_key(*arg as int));
                        }
                    },
                }
            },
            Op::Literal { value, width } => {
                lit = Some(*value);
            },
            _ => {},
        }
        proof {
            assert(new_instr@ == step.0);
        }
        while known.len() <= cur.lhs
            invariant
                forall|r0: int|
                    #[trigger] m.contains_key(r0) ==> 0 <= r0 < known@.len() && (
                    known@[r0] matches Some(v) && v == m[r0]),
                forall|r0: int|
                    0 <= r0 < known@.len() && (#[trigger] known@[r0]) is Some ==> m.contains_key(
                        r0,
                    ) && known@[r0]->0 == m[r0],
            decreases cur.lhs + 1 - known.len(),
        {
            known.push(None);
        }
        let slot = &mut known[cur.lhs];
        *slot = lit;
        proof {
            m = step.1;
        }
        let ghost pre_elems = instrs@;
        instrs.push(new_instr);
        proof {
            assert(instrs@.drop_last() =~= pre_elems);
            assert(instrs_view(instrs@) == instrs_view(instrs@.drop_last()).push(instrs@.last()@));
        }
        i = i + 1;
    }
    let r = Object {
        instrs,
        kinds: o.kinds,
        symbols: o.symbols,
        externals: o.externals,
        arguments: o.arguments,
        return_register: o.return_register,
        name: o.name,
        fn_id: o.fn_id,
    };
    proof {
        assert(vs.take(vs.len() as int) =~= vs);
        assert(r@ =~= spec_pre_cast_literals(
            ObjectV {
                instrs: vs,
                kinds: crate::kind::kinds_view(o.kinds@),
                symbols: o.symbols@,
                externals: crate::rhif::extfns_view(o.externals@),
                arguments: o.arguments@.map_values(|x: usize| x as int),
                return_register: o.return_register as int,
                name: o.name@,
                fn_id: o.fn_id as int,
            },
        ));
    }
    r
}

/// One useless-cast-removal step: a cast whose source register already has
/// exactly the cast's width and signedness becomes a copy.
pub open spec fn uc_step(kinds: Seq<crate::kind::KindV>, i: InstrV) -> InstrV {
    match i.op {
        OpV::Cast { arg, len, signed } => if 0 <= arg < kinds.len() && len >= 0 && kinds[arg] == (
        if signed {
            crate::kind::KindV::Signed(len as nat)
        } else {
            crate::kind::KindV::Bits(len as nat)
        }) {
            InstrV { lhs: i.lhs, op: OpV::Copy { arg }, node: i.node }
        } else {
            i
        },
        _ => i,
    }
}

/// Useless-cast removal applied to every instruction.
pub open spec fn uc_map(kinds: Seq<crate::kind::KindV>, s: Seq<InstrV>) -> Seq<InstrV>
    decreases s,
{
    if s.len() == 0 {
        Seq::empty()
    } else {
        uc_map(kinds, s.drop_last()).push(uc_step(kinds, s.last()))
    }
}

/// Useless-cast removal: drops casts that are provably the identity.
pub open spec fn spec_remove_useless_casts(o: ObjectV) -> ObjectV {
    ObjectV { instrs: uc_map(o.kinds, o.instrs), ..o }
}

/// The map over instructions, read elementwise.
proof fn lemma_uc_map_index(kinds: Seq<crate::kind::KindV>, s: Seq<InstrV>)
    ensures
        uc_map(kinds, s).len() == s.len(),
        forall|i: int| 0 <= i < s.len() ==> #[trigger] uc_map(kinds, s)[i] == uc_step(kinds, s[i]),
    decreases s,
{
    if s.len() > 0 {
        lemma_uc_map_index(kinds, s.drop_last());
    }
}

/// Useless-cast removal is idempotent.
pub proof fn lemma_remove_useless_casts_idempotent(o: ObjectV)
    ensures
        spec_remove_useless_casts(spec_remove_useless_casts(o)) == spec_remove_useless_casts(o),
{
    let m = uc_map(o.kinds, o.instrs);
    lemma_uc_map_index(o.kinds, o.instrs);
    lemma_uc_map_index(o.kinds, m);
    assert forall|i: int| 0 <= i < m.len() implies #[trigger] uc_map(o.kinds, m)[i] == m[i] by {
        assert(m[i] == uc_step(o.kinds, o.instrs[i]));
    }
    assert(uc_map(o.kinds, m) =~= m);
    assert(spec_remove_useless_casts(spec_remove_useless_casts(o)) =~= spec_remove_useless_casts(
        o,
    ));
}

/// Useless-cast removal, per [`spec_remove_useless_casts`].
#[verifier::loop_isolation(false)]
pub fn remove_useless_casts(o: Object) -> (r: Object)
    ensures
        r@ == spec_remove_useless_casts(o@),
{
    let ghost vs = instrs_view(o.instrs@);
    let ghost ks = crate::kind::kinds_view(o.kinds@);
    proof {
        lemma_instrs_view_len(o.instrs@);
        crate::kind::lemma_kinds_view_len(o.kinds@);
    }
    let mut instrs: Vec<Instr> = Vec::new();
    let mut i: usize = 0;
    while i < o.instrs.len()
        invariant
            i <= o.instrs@.len(),
            instrs_view(instrs@) == uc_map(ks, vs.take(i as int)),
        decreases o.instrs@.len() - i,
    {
        proof {
            lemma_instrs_view_index(o.instrs@, i as int);
            assert(vs.take(i + 1).drop_last() =~= vs.take(i as int));
            assert(vs.take(i + 1).last() == vs[i as int]);
        }
        let cur = &o.instrs[i];
        let mut replaced = false;
        let mut new_arg: usize = 0;
        match &cur.op {
            Op::Cast { arg, len, signed } => {
                if *arg < o.kinds.len() {
                    proof {
                        crate::kind::lemma_kinds_view_index(o.kinds@, *arg as int);
                    }
                    let same = match &o.kinds[*arg] {
                        crate::kind::Kind::Bits(w) => !*signed && *w == *len,
                        crate::kind::Kind::Signed(w) => *signed && *w == *len,
                        _ => false,
                    };
                    if same {
                        replaced = true;
                        new_arg = *arg;
                    }
                }
            },
            _ => {},
        }
        let ghost pre_elems = instrs@;
        if replaced {
            instrs.push(Instr { lhs: cur.lhs, op: Op::Copy { arg: new_arg }, node: cur.node });
        } else {
            instrs.push(cur.clone());
        }
        proof {
            assert(instrs@.drop_last() =~= pre_elems);
            assert(instrs_view(instrs@) == instrs_view(instrs@.drop_last()).push(instrs@.last()@));
            assert(instrs@.last()@ == uc_step(ks, vs[i as int]));
        }
        i = i + 1;
    }
    let r = Object {
        instrs,
        kinds: o.kinds,
        symbols: o.symbols,
        externals: o.externals,
        arguments: o.arguments,
        return_register: o.return_register,
        name: o.name,
        fn_id: o.fn_id,
    };
    proof {
        assert(vs.take(vs.len() as int) =~= vs);
        assert(r@ =~= spec_remove_useless_casts(
            ObjectV {
                instrs: vs,
                kinds: ks,
                symbols: o.symbols@,
                externals: crate::rhif::extfns_view(o.externals@),
                arguments: o.arguments@.map_values(|x: usize| x as int),
                return_register: o.return_register as int,
                name: o.name@,
                fn_id: o.fn_id as int,
            },
        ));
    }
    r
}

} // verus!
