//! A reference interpreter for compiled objects.
//!
//! Executes a straight-line object against concrete bit-vector inputs,
//! register by register.  It exists so that the behaviour of an object
//! before and after the optimization pipeline can be compared on concrete
//! inputs; calls into external functions are outside its scope and are
//! reported as unsupported.

use crate::bits::spec_mask;
use crate::kind::bits_checked;
use crate::kind::Kind;
use crate::rhif::AluBinary;
use crate::rhif::Object;
use crate::rhif::Op;
use vstd::prelude::*;

verus! {

/// Failures of simulation.
#[derive(Debug, Clone, Copy, PartialEq, Eq, Structural)]
pub enum SimError {
    /// The wrong number of inputs was supplied.
    ArityMismatch,
    /// A register was read before it was assigned, or out of range.
    UnassignedRegister,
    /// A register kind is too wide to simulate or not well formed.
    UnsupportedKind,
    /// The object calls an external function, which simulation does not
    /// execute.
    UnsupportedCall,
}

/// The low `n` bits of `v`, with `n` capped at the machine word.
fn mask_to(v: u128, n: usize) -> (r: u128)
    ensures
        r == v & spec_mask(n as nat),
        r <= spec_mask(n as nat),
{
    proof {
        lemma_and_le(v, spec_mask(n as nat));
    }
    v & crate::bits::mask_of(n)
}

/// Masking never exceeds the mask.
proof fn lemma_and_le(v: u128, m: u128)
    ensures
        v & m <= m,
{
    assert(v & m <= m) by (bit_vector);
}

/// Executes an object's instructions against concrete inputs and returns
/// the value of its return register, masked to that register's width.
///
/// Execution is deterministic and total: every failure is reported as a
/// [`SimError`].  External calls are not executed.  A cast reinterprets
/// the low bits of its source, matching the cast semantics the type check
/// and the literal pre-cast pass define; no sign extension happens on a
/// width change.
#[verifier::loop_isolation(false)]
pub fn simulate(o: &Object, inputs: &Vec<u128>) -> (r: Result<u128, SimError>)
    ensures
        inputs@.len() != o@.arguments.len() ==> r == Err::<u128, SimError>(
            SimError::ArityMismatch,
        ),
        r matches Ok(v) ==> 0 <= o@.return_register < o@.kinds.len() && v <= spec_mask(
            crate::kind::spec_bits(o@.kinds[o@.return_register]),
        ),
{
    proof {
        crate::kind::lemma_kinds_view_len(o.kinds@);
    }
    if inputs.len() != o.arguments.len() {
        return Err(SimError::ArityMismatch);
    }
    let nregs = o.kinds.len();
    let mut regs: Vec<Option<u128>> = Vec::new();
    let mut i: usize = 0;
    while i < nregs
        invariant
            i <= o.kinds@.len(),
            regs@.len() == i,
            forall|j: int| 0 <= j < i ==> (#[trigger] regs@[j]) is None,
        decreases o.kinds@.len() - i,
    {
        regs.push(None);
        i = i + 1;
    }
    // widths of every register
    let mut widths: Vec<usize> = Vec::new();
    let mut i: usize = 0;
    while i < nregs
        invariant
            i <= o.kinds@.len(),
            widths@.len() == i,
            forall|j: int|
                0 <= j < i ==> #[trigger] widths@[j] == crate::kind::spec_bits(o@.kinds[j]),
        decreases o.kinds@.len() - i,
    {
        proof {
            crate::kind::lemma_kinds_view_index(o.kinds@, i as int);
        }
        match bits_checked(&o.kinds[i]) {
            Some(w) => {
                if w > 128 {
                    return Err(SimError::UnsupportedKind);
                }
                widths.push(w);
            },
            None => {
                return Err(SimError::UnsupportedKind);
            },
        }
        i = i + 1;
    }
    // write the arguments
    let mut i: usize = 0;
    while i < o.arguments.len()
        invariant
            i <= o.arguments@.len(),
            inputs@.len() == o.arguments@.len(),
            regs@.len() == o.kinds@.len(),
            widths@.len() == o.kinds@.len(),
            forall|j: int|
                0 <= j < widths@.len() ==> #[trigger] widths@[j] == crate::kind::spec_bits(
                    o@.kinds[j],
                ),
            forall|j: int|
                0 <= j < regs@.len() ==> ((#[trigger] regs@[j]) matches Some(v) ==> v
                    <= spec_mask(widths@[j] as nat)),
        decreases o.arguments@.len() - i,
    {
        let a = o.arguments[i];
        if a >= nregs {
            return Err(SimError::UnassignedRegister);
        }
        let v = mask_to(inputs[i], widths[a]);
        let slot = &mut regs[a];
        *slot = Some(v);
        i = i + 1;
    }
    // execute
    let mut pc: usize = 0;
    while pc < o.instrs.len()
        invariant
            pc <= o.instrs@.len(),
            regs@.len() == o.kinds@.len(),
            widths@.len() == o.kinds@.len(),
            forall|j: int|
                0 <= j < widths@.len() ==> #[trigger] widths@[j] == crate::kind::spec_bits(
                    o@.kinds[j],
                ),
            forall|j: int|
                0 <= j < regs@.len() ==> ((#[trigger] regs@[j]) matches Some(v) ==> v
                    <= spec_mask(widths@[j] as nat)),
        decreases o.instrs@.len() - pc,
    {
        let instr = &o.instrs[pc];
        if instr.lhs >= nregs {
            return Err(SimError::UnassignedRegister);
        }
        let wl = widths[instr.lhs];
        let value = match &instr.op {
            Op::Literal { value, width } => mask_to(*value, *width),
            Op::Copy { arg } => read_reg(&regs, *arg)?,
            Op::Not { arg } => {
                let v = read_reg(&regs, *arg)?;
                !v
            },
            Op::Binary { op, arg1, arg2 } => {
                let a = read_reg(&regs, *arg1)?;
                let b = read_reg(&regs, *arg2)?;
                match op {
                    AluBinary::Add => a.wrapping_add(b),
                    AluBinary::Sub => a.wrapping_sub(b),
                    AluBinary::And => a & b,
                    AluBinary::Or => a | b,
                    AluBinary::Xor => a ^ b,
                    AluBinary::Eq => if a == b {
                        1
                    } else {
                        0
                    },
                }
            },
            Op::Select { cond, true_value, false_value } => {
                let c = read_reg(&regs, *cond)?;
                if c & 1 == 1 {
                    read_reg(&regs, *true_value)?
                } else {
                    read_reg(&regs, *false_value)?
                }
            },
            Op::Cast { arg, len, signed } => {
                let v = read_reg(&regs, *arg)?;
                mask_to(v, *len)
            },
            Op::Index { arg, bit_start, bit_len } => {
                let v = read_reg(&regs, *arg)?;
                let shifted = if *bit_start >= 128 {
                    0
                } else {
                    v >> *bit_start
                };
                mask_to(shifted, *bit_len)
            },
            Op::Exec { .. } => {
                return Err(SimError::UnsupportedCall);
            },
        };
        let masked = mask_to(value, wl);
        let slot = &mut regs[instr.lhs];
        *slot = Some(masked);
        pc = pc + 1;
    }
    let rr = o.return_register;
    if rr >= nregs {
        return Err(SimError::UnassignedRegister);
    }
    match &regs[rr] {
        Some(v) => Ok(*v),
        None => Err(SimError::UnassignedRegister),
    }
}

/// Reads an assigned register.
fn read_reg(regs: &Vec<Option<u128>>, r: usize) -> (ret: Result<u128, SimError>)
{
    if r < regs.len() {
        match &regs[r] {
            Some(v) => Ok(*v),
            None => Err(SimError::UnassignedRegister),
        }
    } else {
        Err(SimError::UnassignedRegister)
    }
}

} // verus!
