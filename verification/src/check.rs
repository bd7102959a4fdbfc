//! The two mandatory verification passes.
//!
//! After the optimization rounds, every object must pass a type check
//! (operand and result kinds of every instruction are internally
//! consistent) and a data-flow check (every register is assigned before
//! use and assigned exactly once, and the returned register is assigned).
//! Both functions decide their specification exactly: they return `Ok`
//! if and only if the property holds.

use crate::kind::kind_eq;
use crate::kind::kinds_view;
use crate::kind::lemma_kinds_view_index;
use crate::kind::lemma_kinds_view_len;
use crate::kind::spec_bits;
use crate::kind::KindV;
use crate::rhif::instrs_view;
use crate::rhif::lemma_extfns_view_index;
use crate::rhif::lemma_extfns_view_len;
use crate::rhif::lemma_instrs_view_index;
use crate::rhif::lemma_instrs_view_len;
use crate::rhif::InstrV;
use crate::rhif::Object;
use crate::rhif::ObjectV;
use crate::rhif::Op;
use crate::rhif::OpV;
use vstd::prelude::*;

verus! {

/// A failure of one of the verification passes, tied to the instruction
/// at fault.
#[derive(Debug, Clone, Copy, PartialEq, Eq, Structural)]
pub enum VerificationError {
    /// The type check found an inconsistent instruction.
    TypeMismatch { instr: usize },
    /// The data-flow check found a register read before assignment, a
    /// second assignment, or an unassigned return register.
    FlowViolation { instr: usize, register: usize },
}

/// Whether `r` is a register of the object.
pub open spec fn reg_ok(o: ObjectV, r: int) -> bool {
    0 <= r < o.kinds.len()
}

/// Kind consistency of a single instruction.
pub open spec fn instr_type_ok(o: ObjectV, i: InstrV) -> bool {
    &&& reg_ok(o, i.lhs)
    &&& match i.op {
        OpV::Literal { value, width } => 0 <= width && (o.kinds[i.lhs] == KindV::Bits(width as nat)
            || o.kinds[i.lhs] == KindV::Signed(width as nat)),
        OpV::Copy { arg } => reg_ok(o, arg) && o.kinds[arg] == o.kinds[i.lhs],
        OpV::Not { arg } => reg_ok(o, arg) && o.kinds[arg] == o.kinds[i.lhs],
        OpV::Binary { op, arg1, arg2 } => {
            &&& reg_ok(o, arg1)
            &&& reg_ok(o, arg2)
            &&& o.kinds[arg1] == o.kinds[arg2]
            &&& if op is Eq {
                o.kinds[i.lhs] == KindV::Bits(1)
            } else {
                o.kinds[arg1] == o.kinds[i.lhs]
            }
        },
        OpV::Select { cond, true_value, false_value } => {
            &&& reg_ok(o, cond)
            &&& reg_ok(o, true_value)
            &&& reg_ok(o, false_value)
            &&& o.kinds[cond] == KindV::Bits(1)
            &&& o.kinds[true_value] == o.kinds[false_value]
            &&& o.kinds[true_value] == o.kinds[i.lhs]
        },
        OpV::Cast { arg, len, signed } => {
            &&& reg_ok(o, arg)
            &&& 0 <= len
            &&& o.kinds[i.lhs] == (if signed {
                KindV::Signed(len as nat)
            } else {
                KindV::Bits(len as nat)
            })
        },
        OpV::Index { arg, bit_start, bit_len } => {
            &&& reg_ok(o, arg)
            &&& crate::kind::kind_wf(o.kinds[arg])
            &&& crate::kind::kind_wf(o.kinds[i.lhs])
            &&& 0 <= bit_start
            &&& 0 <= bit_len
            &&& bit_start + bit_len <= spec_bits(o.kinds[arg])
            &&& spec_bits(o.kinds[i.lhs]) == bit_len
        },
        OpV::Exec { func, args } => {
            &&& 0 <= func < o.externals.len()
            &&& args.len() == o.externals[func].signature.arguments.len()
            &&& forall|j: int|
                0 <= j < args.len() ==> reg_ok(o, #[trigger] args[j]) && o.kinds[args[j]]
                    == o.externals[func].signature.arguments[j]
            &&& o.kinds[i.lhs] == o.externals[func].signature.ret
        },
    }
}

/// Kind consistency of a whole object: every instruction is consistent,
/// and the argument and return registers exist.
pub open spec fn type_check_ok(o: ObjectV) -> bool {
    &&& forall|i: int| 0 <= i < o.instrs.len() ==> instr_type_ok(o, #[trigger] o.instrs[i])
    &&& forall|j: int| 0 <= j < o.arguments.len() ==> reg_ok(o, #[trigger] o.arguments[j])
    &&& reg_ok(o, o.return_register)
}

/// The registers an operation reads.
pub open spec fn op_reads(op: OpV) -> Seq<int> {
    match op {
        OpV::Literal { .. } => Seq::empty(),
        OpV::Copy { arg } => seq![arg],
        OpV::Not { arg } => seq![arg],
        OpV::Binary { op: _, arg1, arg2 } => seq![arg1, arg2],
        OpV::Select { cond, true_value, false_value } => seq![cond, true_value, false_value],
        OpV::Cast { arg, .. } => seq![arg],
        OpV::Index { arg, .. } => seq![arg],
        OpV::Exec { func: _, args } => args,
    }
}

/// The assigned-register set after executing a prefix, or `None` when a
/// read-before-assignment or double assignment occurs.
pub open spec fn flow_from(assigned: Set<int>, s: Seq<InstrV>) -> Option<Set<int>>
    decreases s,
{
    if s.len() == 0 {
        Some(assigned)
    } else {
        let i = s[0];
        let reads = op_reads(i.op);
        if (forall|j: int| 0 <= j < reads.len() ==> assigned.contains(#[trigger] reads[j]))
            && !assigned.contains(i.lhs) {
            flow_from(assigned.insert(i.lhs), s.drop_first())
        } else {
            None
        }
    }
}

/// The set of argument registers.
pub open spec fn args_set(o: ObjectV) -> Set<int> {
    o.arguments.to_set()
}

/// Data-flow consistency: arguments are distinct and pre-assigned, every
/// register is assigned before use and at most once, and the returned
/// register is assigned.
pub open spec fn flow_check_ok(o: ObjectV) -> bool {
    &&& o.arguments.no_duplicates()
    &&& match flow_from(args_set(o), o.instrs) {
        Some(assigned) => assigned.contains(o.return_register),
        None => false,
    }
}

/// The type-check pass: decides [`type_check_ok`] exactly.
#[verifier::loop_isolation(false)]
pub fn type_check(o: &Object) -> (r: Result<(), VerificationError>)
    ensures
        r is Ok <==> type_check_ok(o@),
        r matches Err(e) ==> e is TypeMismatch,
{
    let ghost ov = o@;
    let ghost vs = instrs_view(o.instrs@);
    let ghost ks = kinds_view(o.kinds@);
    proof {
        lemma_instrs_view_len(o.instrs@);
        lemma_kinds_view_len(o.kinds@);
        lemma_extfns_view_len(o.externals@);
        assert forall|j: int| 0 <= j < vs.len() implies #[trigger] vs[j] == o.instrs@[j]@ by {
            lemma_instrs_view_index(o.instrs@, j);
        }
        assert forall|j: int| 0 <= j < ks.len() implies #[trigger] ks[j] == o.kinds@[j]@ by {
            lemma_kinds_view_index(o.kinds@, j);
        }
    }
    if o.return_register >= o.kinds.len() {
        return Err(VerificationError::TypeMismatch { instr: 0 });
    }
    let mut j: usize = 0;
    while j < o.arguments.len()
        invariant
            j <= o.arguments@.len(),
            forall|k: int| 0 <= k < j ==> reg_ok(ov, #[trigger] ov.arguments[k]),
        decreases o.arguments@.len() - j,
    {
        if o.arguments[j] >= o.kinds.len() {
            proof {
                assert(!reg_ok(ov, ov.arguments[j as int]));
            }
            return Err(VerificationError::TypeMismatch { instr: 0 });
        }
        j = j + 1;
    }
    let mut i: usize = 0;
    while i < o.instrs.len()
        invariant
            i <= o.instrs@.len(),
            forall|k: int| 0 <= k < i ==> instr_type_ok(ov, #[trigger] ov.instrs[k]),
        decreases o.instrs@.len() - i,
    {
        if !instr_type_check(o, i) {
            return Err(VerificationError::TypeMismatch { instr: i });
        }
        i = i + 1;
    }
    Ok(())
}

/// Kind consistency of one instruction, computed.
#[verifier::loop_isolation(false)]
fn instr_type_check(o: &Object, idx: usize) -> (r: bool)
    requires
        idx < o.instrs@.len(),
    ensures
        r == instr_type_ok(o@, o@.instrs[idx as int]),
{
    let ghost ov = o@;
    proof {
        lemma_instrs_view_len(o.instrs@);
        lemma_instrs_view_index(o.instrs@, idx as int);
        lemma_kinds_view_len(o.kinds@);
        lemma_extfns_view_len(o.externals@);
    }
    let instr = &o.instrs[idx];
    let nk = o.kinds.len();
    if instr.lhs >= nk {
        return false;
    }
    proof {
        lemma_kinds_view_index(o.kinds@, instr.lhs as int);
    }
    match &instr.op {
        Op::Literal { value, width } => {
            let ok = match &o.kinds[instr.lhs] {
                crate::kind::Kind::Bits(w) => *w == *width,
                crate::kind::Kind::Signed(w) => *w == *width,
                _ => false,
            };
            ok
        },
        Op::Copy { arg } => {
            if *arg >= nk {
                return false;
            }
            proof {
                lemma_kinds_view_index(o.kinds@, *arg as int);
            }
            kind_eq(&o.kinds[*arg], &o.kinds[instr.lhs])
        },
        Op::Not { arg } => {
            if *arg >= nk {
                return false;
            }
            proof {
                lemma_kinds_view_index(o.kinds@, *arg as int);
            }
            kind_eq(&o.kinds[*arg], &o.kinds[instr.lhs])
        },
        Op::Binary { op, arg1, arg2 } => {
            if *arg1 >= nk || *arg2 >= nk {
                return false;
            }
            proof {
                lemma_kinds_view_index(o.kinds@, *arg1 as int);
                lemma_kinds_view_index(o.kinds@, *arg2 as int);
            }
            if !kind_eq(&o.kinds[*arg1], &o.kinds[*arg2]) {
                return false;
            }
            let is_eq = match op {
                crate::rhif::AluBinary::Eq => true,
                _ => false,
            };
            if is_eq {
                match &o.kinds[instr.lhs] {
                    crate::kind::Kind::Bits(w) => *w == 1,
                    _ => false,
                }
            } else {
                kind_eq(&o.kinds[*arg1], &o.kinds[instr.lhs])
            }
        },
        Op::Select { cond, true_value, false_value } => {
            if *cond >= nk || *true_value >= nk || *false_value >= nk {
                return false;
            }
            proof {
                lemma_kinds_view_index(o.kinds@, *cond as int);
                lemma_kinds_view_index(o.kinds@, *true_value as int);
                lemma_kinds_view_index(o.kinds@, *false_value as int);
            }
            let cond_ok = match &o.kinds[*cond] {
                crate::kind::Kind::Bits(w) => *w == 1,
                _ => false,
            };
            cond_ok && kind_eq(&o.kinds[*true_value], &o.kinds[*false_value]) && kind_eq(
                &o.kinds[*true_value],
                &o.kinds[instr.lhs],
            )
        },
        Op::Cast { arg, len, signed } => {
            if *arg >= nk {
                return false;
            }
            proof {
                lemma_kinds_view_index(o.kinds@, *arg as int);
            }
            match &o.kinds[instr.lhs] {
                crate::kind::Kind::Bits(w) => !*signed && *w == *len,
                crate::kind::Kind::Signed(w) => *signed && *w == *len,
                _ => false,
            }
        },
        Op::Index { arg, bit_start, bit_len } => {
            if *arg >= nk {
                return false;
            }
            proof {
                lemma_kinds_view_index(o.kinds@, *arg as int);
            }
            let wa = match crate::kind::bits_checked(&o.kinds[*arg]) {
                Some(w) => w,
                None => {
                    return false;
                },
            };
            let wl = match crate::kind::bits_checked(&o.kinds[instr.lhs]) {
                Some(w) => w,
                None => {
                    return false;
                },
            };
            *bit_start <= wa && wa - *bit_start >= *bit_len && wl == *bit_len
        },
        Op::Exec { func, args } => {
            if *func >= o.externals.len() {
                return false;
            }
            proof {
                lemma_extfns_view_index(o.externals@, *func as int);
            }
            let sig = &o.externals[*func].signature;
            proof {
                crate::kind::lemma_kinds_view_len(sig.arguments@);
            }
            let ghost m = ov.instrs[idx as int].op->Exec_args;
            let ghost fi = ov.instrs[idx as int].op->Exec_func;
            proof {
                assert(fi == *func as int);
                assert(m.len() == args@.len());
                assert(forall|j: int| 0 <= j < m.len() ==> #[trigger] m[j] == args@[j] as int);
                crate::kind::lemma_kinds_view_len(sig.arguments@);
                assert(ov.externals[fi].signature.arguments.len() == sig.arguments@.len());
            }
            if args.len() != sig.arguments.len() {
                return false;
            }
            let mut j: usize = 0;
            while j < args.len()
                invariant
                    j <= args@.len(),
                    forall|k: int|
                        0 <= k < j ==> reg_ok(ov, #[trigger] m[k]) && ov.kinds[m[k]]
                            == ov.externals[fi].signature.arguments[k],
                decreases args@.len() - j,
            {
                if args[j] >= nk {
                    proof {
                        assert(!reg_ok(ov, m[j as int]));
                    }
                    return false;
                }
                proof {
                    lemma_kinds_view_index(o.kinds@, args@[j as int] as int);
                    crate::kind::lemma_kinds_view_index(sig.arguments@, j as int);
                }
                if !kind_eq(&o.kinds[args[j]], &sig.arguments[j]) {
                    proof {
                        assert(ov.kinds[m[j as int]] != ov.externals[fi].signature.arguments[
                            j as int
                        ]);
                    }
                    return false;
                }
                j = j + 1;
            }
            kind_eq(&o.kinds[instr.lhs], &sig.ret)
        },
    }
}

/// The data-flow pass: decides [`flow_check_ok`] exactly.
#[verifier::loop_isolation(false)]
pub fn flow_check(o: &Object) -> (r: Result<(), VerificationError>)
    ensures
        r is Ok <==> flow_check_ok(o@),
        r matches Err(e) ==> e is FlowViolation,
{
    let ghost ov = o@;
    let ghost vs = instrs_view(o.instrs@);
    proof {
        lemma_instrs_view_len(o.instrs@);
        assert forall|j: int| 0 <= j < vs.len() implies #[trigger] vs[j] == o.instrs@[j]@ by {
            lemma_instrs_view_index(o.instrs@, j);
        }
    }
    let mut seen: Vec<bool> = Vec::new();
    let ghost mut assigned = Set::<int>::empty();
    // mark the arguments, rejecting duplicates
    let mut j: usize = 0;
    while j < o.arguments.len()
        invariant
            j <= o.arguments@.len(),
            forall|r0: int|
                #[trigger] assigned.contains(r0) ==> 0 <= r0 < seen@.len() && seen@[r0],
            forall|r0: int| 0 <= r0 < seen@.len() && #[trigger] seen@[r0] ==> assigned.contains(r0),
            assigned == ov.arguments.take(j as int).to_set(),
            ov.arguments.take(j as int).no_duplicates(),
        decreases o.arguments@.len() - j,
    {
        let a = o.arguments[j];
        while seen.len() <= a
            invariant
                forall|r0: int|
                    #[trigger] assigned.contains(r0) ==> 0 <= r0 < seen@.len() && seen@[r0],
                forall|r0: int|
                    0 <= r0 < seen@.len() && #[trigger] seen@[r0] ==> assigned.contains(r0),
            decreases a + 1 - seen.len(),
        {
            seen.push(false);
        }
        if seen[a] {
            proof {
                assert(assigned.contains(a as int));
                assert(ov.arguments.take(j as int).contains(a as int));
                assert(ov.arguments[j as int] == a as int);
                assert(!ov.arguments.no_duplicates()) by {
                    let k = choose|k: int|
                        0 <= k < j && ov.arguments.take(j as int)[k] == a as int;
                    assert(ov.arguments[k] == ov.arguments[j as int]);
                }
            }
            return Err(VerificationError::FlowViolation { instr: 0, register: a });
        }
        let slot = &mut seen[a];
        *slot = true;
        proof {
            assert(!assigned.contains(a as int));
            assert(ov.arguments.take(j + 1).drop_last() =~= ov.arguments.take(j as int));
            let t1 = ov.arguments.take(j + 1);
            let t0 = ov.arguments.take(j as int);
            assert(t1[j as int] == a as int);
            assert forall|x: int| t1.contains(x) implies t0.contains(x) || x == a as int by {
                let k = choose|k: int| 0 <= k < t1.len() && t1[k] == x;
                if k < j {
                    assert(t0[k] == x);
                }
            }
            assert forall|x: int| t0.contains(x) || x == a as int implies t1.contains(x) by {
                if t0.contains(x) {
                    let k = choose|k: int| 0 <= k < t0.len() && t0[k] == x;
                    assert(t1[k] == x);
                } else {
                    assert(t1[j as int] == x);
                }
            }
            assert(t1.to_set() =~= t0.to_set().insert(a as int));
            assert(!t0.contains(a as int)) by {
                if t0.contains(a as int) {
                    assert(t0.to_set().contains(a as int));
                }
            }
            assigned = assigned.insert(a as int);
            assert forall|x: int, y: int| 0 <= x < y < t1.len() implies t1[x] != t1[y] by {
                if y < t1.len() - 1 {
                    assert(t0[x] == t1[x] && t0[y] == t1[y]);
                } else {
                    assert(t1[y] == a as int);
                    if t1[x] == a as int {
                        assert(t0[x] == a as int);
                        assert(t0.contains(a as int));
                    }
                }
            }
        }
        j = j + 1;
    }
    proof {
        assert(ov.arguments.take(ov.arguments.len() as int) =~= ov.arguments);
        assert(assigned == args_set(ov));
        assert(ov.instrs.skip(0) =~= ov.instrs);
    }
    // walk the instructions
    let mut i: usize = 0;
    while i < o.instrs.len()
        invariant
            i <= o.instrs@.len(),
            ov.arguments.no_duplicates(),
            forall|r0: int|
                #[trigger] assigned.contains(r0) ==> 0 <= r0 < seen@.len() && seen@[r0],
            forall|r0: int| 0 <= r0 < seen@.len() && #[trigger] seen@[r0] ==> assigned.contains(r0),
            flow_from(args_set(ov), ov.instrs) == flow_from(assigned, ov.instrs.skip(i as int)),
        decreases o.instrs@.len() - i,
    {
        proof {
            assert(ov.instrs.skip(i as int)[0] == ov.instrs[i as int]);
            assert(ov.instrs.skip(i as int).drop_first() =~= ov.instrs.skip(i + 1));
        }
        let instr = &o.instrs[i];
        // check the reads
        let reads_ok = op_reads_check(&instr.op, &seen);
        proof {
            let reads = op_reads(ov.instrs[i as int].op);
            assert forall|k: int|
                0 <= k < reads.len() implies (#[trigger] reads[k] < seen@.len() && 0 <= reads[k]
                && seen@[reads[k]]) == assigned.contains(reads[k]) by {
                if 0 <= reads[k] < seen@.len() && seen@[reads[k]] {
                    assert(assigned.contains(reads[k]));
                }
            }
        }
        if !reads_ok {
            return Err(VerificationError::FlowViolation { instr: i, register: instr.lhs });
        }
        // check and mark the destination
        let l = instr.lhs;
        while seen.len() <= l
            invariant
                forall|r0: int|
                    #[trigger] assigned.contains(r0) ==> 0 <= r0 < seen@.len() && seen@[r0],
                forall|r0: int|
                    0 <= r0 < seen@.len() && #[trigger] seen@[r0] ==> assigned.contains(r0),
            decreases l + 1 - seen.len(),
        {
            seen.push(false);
        }
        if seen[l] {
            proof {
                assert(assigned.contains(l as int));
            }
            return Err(VerificationError::FlowViolation { instr: i, register: l });
        }
        let slot = &mut seen[l];
        *slot = true;
        proof {
            assert(!assigned.contains(l as int));
            assigned = assigned.insert(l as int);
        }
        i = i + 1;
    }
    proof {
        assert(ov.instrs.skip(ov.instrs.len() as int) =~= Seq::<InstrV>::empty());
    }
    // the return register must be assigned
    let rr = o.return_register;
    if rr < seen.len() && seen[rr] {
        Ok(())
    } else {
        proof {
            assert(!assigned.contains(rr as int));
        }
        Err(VerificationError::FlowViolation { instr: 0, register: rr })
    }
}

/// Whether every register the operation reads is already assigned.
#[verifier::loop_isolation(false)]
fn op_reads_check(op: &Op, seen: &Vec<bool>) -> (r: bool)
    ensures
        r == (forall|j: int|
            0 <= j < op_reads(op@).len() ==> (0 <= #[trigger] op_reads(op@)[j] < seen@.len()
                && seen@[op_reads(op@)[j]])),
{
    let ghost reads = op_reads(op@);
    match op {
        Op::Literal { .. } => {
            proof {
                assert(reads.len() == 0);
            }
            true
        },
        Op::Copy { arg } => {
            proof {
                assert(reads.len() == 1 && reads[0] == *arg as int);
            }
            *arg < seen.len() && seen[*arg]
        },
        Op::Not { arg } => {
            proof {
                assert(reads.len() == 1 && reads[0] == *arg as int);
            }
            *arg < seen.len() && seen[*arg]
        },
        Op::Binary { op: _, arg1, arg2 } => {
            proof {
                assert(reads.len() == 2 && reads[0] == *arg1 as int && reads[1] == *arg2 as int);
            }
            *arg1 < seen.len() && seen[*arg1] && *arg2 < seen.len() && seen[*arg2]
        },
        Op::Select { cond, true_value, false_value } => {
            proof {
                assert(reads.len() == 3 && reads[0] == *cond as int && reads[1] == *true_value
                    as int && reads[2] == *false_value as int);
            }
            *cond < seen.len() && seen[*cond] && *true_value < seen.len() && seen[*true_value]
                && *false_value < seen.len() && seen[*false_value]
        },
        Op::Cast { arg, .. } => {
            proof {
                assert(reads.len() == 1 && reads[0] == *arg as int);
            }
            *arg < seen.len() && seen[*arg]
        },
        Op::Index { arg, .. } => {
            proof {
                assert(reads.len() == 1 && reads[0] == *arg as int);
            }
            *arg < seen.len() && seen[*arg]
        },
        Op::Exec { func: _, args } => {
            proof {
                assert(reads.len() == args@.len());
                assert(forall|j: int|
                    0 <= j < reads.len() ==> #[trigger] reads[j] == args@[j] as int);
            }
            let mut i: usize = 0;
            while i < args.len()
                invariant
                    i <= args@.len(),
                    forall|j: int|
                        0 <= j < i ==> 0 <= #[trigger] reads[j] < seen@.len() && seen@[reads[j]],
                decreases args@.len() - i,
            {
                if !(args[i] < seen.len() && seen[args[i]]) {
                    proof {
                        assert(!(0 <= reads[i as int] < seen@.len() && seen@[reads[i as int]]));
                    }
                    return false;
                }
                i = i + 1;
            }
            true
        },
    }
}

} // verus!
