//! The opcode set: the eight instruction tags with their byte encodings,
//! and the deselector polynomials the gates use to pick one branch per
//! opcode without conditional logic.
use vstd::prelude::*;
use crate::P;
use crate::field::Fe;
use crate::math::lemma_mul_congruent;
use crate::math::lemma_prod8_zero;

verus! {

/// `<` — move the memory pointer left.
pub const SHL: u8 = 60;

/// `>` — move the memory pointer right.
pub const SHR: u8 = 62;

/// `+` — increment the current cell modulo `R`.
pub const ADD: u8 = 43;

/// `,` — read one input byte into the current cell.
pub const GETCHAR: u8 = 44;

/// `-` — decrement the current cell modulo `R`.
pub const SUB: u8 = 45;

/// `.` — emit the current cell.
pub const PUTCHAR: u8 = 46;

/// `[` — jump to the partner bracket when the current cell is zero.
pub const LB: u8 = 91;

/// `]` — jump to the partner bracket when the current cell is nonzero.
pub const RB: u8 = 93;

/// The cell range: memory values are confined to `[0, R)`.
pub const R: u64 = 256;

/// The eight instruction bytes.
pub open spec fn is_opcode(c: int) -> bool {
    c == SHL as int || c == SHR as int || c == ADD as int || c == SUB as int
        || c == GETCHAR as int || c == PUTCHAR as int || c == LB as int || c == RB as int
}

/// Executable form of `is_opcode`.
pub fn opcode_check(c: u64) -> (r: bool)
    ensures
        r == is_opcode(c as int),
{
    c == SHL as u64 || c == SHR as u64 || c == ADD as u64 || c == SUB as u64
        || c == GETCHAR as u64 || c == PUTCHAR as u64 || c == LB as u64 || c == RB as u64
}

/// One factor of a deselector: the factor for opcode `v` is skipped (set
/// to 1) when `v` is the selected opcode.
pub open spec fn desel_factor(ci: int, v: int, op: int) -> int {
    if v == op {
        1
    } else {
        ci - v
    }
}

/// The deselector for `op`: the product of `(ci - v)` over the other seven
/// opcodes `v`. It vanishes when `ci` is any other opcode and is nonzero
/// modulo `P` when `ci == op`.
#[verifier::opaque]
pub open spec fn deselector(op: int, ci: int) -> int {
    desel_factor(ci, SHL as int, op) * desel_factor(ci, SHR as int, op) * desel_factor(
        ci,
        ADD as int,
        op,
    ) * desel_factor(ci, GETCHAR as int, op) * desel_factor(ci, SUB as int, op) * desel_factor(
        ci,
        PUTCHAR as int,
        op,
    ) * desel_factor(ci, LB as int, op) * desel_factor(ci, RB as int, op)
}

/// A deselector vanishes on every opcode other than its own.
pub proof fn lemma_deselector_vanishes(op: int, ci: int)
    requires
        is_opcode(op),
        is_opcode(ci),
        op != ci,
    ensures
        deselector(op, ci) == 0,
{
    reveal(deselector);
    let f0 = desel_factor(ci, SHL as int, op);
    let f1 = desel_factor(ci, SHR as int, op);
    let f2 = desel_factor(ci, ADD as int, op);
    let f3 = desel_factor(ci, GETCHAR as int, op);
    let f4 = desel_factor(ci, SUB as int, op);
    let f5 = desel_factor(ci, PUTCHAR as int, op);
    let f6 = desel_factor(ci, LB as int, op);
    let f7 = desel_factor(ci, RB as int, op);
    assert(f0 == 0 || f1 == 0 || f2 == 0 || f3 == 0 || f4 == 0 || f5 == 0 || f6 == 0 || f7 == 0);
    lemma_prod8_zero(f0, f1, f2, f3, f4, f5, f6, f7);
}

/// A deselector does not vanish modulo `P` on its own opcode.
pub proof fn lemma_deselector_active(op: int)
    requires
        is_opcode(op),
    ensures
        deselector(op, op) % (P as int) != 0,
{
    reveal(deselector);
    if op == SHL as int {
        assert(deselector(op, op) % (P as int) != 0);
    } else if op == SHR as int {
        assert(deselector(op, op) % (P as int) != 0);
    } else if op == ADD as int {
        assert(deselector(op, op) % (P as int) != 0);
    } else if op == GETCHAR as int {
        assert(deselector(op, op) % (P as int) != 0);
    } else if op == SUB as int {
        assert(deselector(op, op) % (P as int) != 0);
    } else if op == PUTCHAR as int {
        assert(deselector(op, op) % (P as int) != 0);
    } else if op == LB as int {
        assert(deselector(op, op) % (P as int) != 0);
    } else {
        assert(deselector(op, op) % (P as int) != 0);
    }
}

/// Evaluates one deselector factor in the field.
fn factor_eval(ci: Fe, v: u8, op: u8) -> (r: Fe)
    requires
        ci.wf(),
        v < P,
    ensures
        r.wf(),
        r.val() == desel_factor(ci.val(), v as int, op as int) % (P as int),
{
    if v == op {
        Fe::one()
    } else {
        ci.sub(Fe::new(v as u64))
    }
}

/// Evaluates the deselector for `op` at `ci`, in the field.
pub fn deselector_eval(op: u8, ci: Fe) -> (r: Fe)
    requires
        ci.wf(),
    ensures
        r.wf(),
        r.val() == deselector(op as int, ci.val()) % (P as int),
{
    proof {
        reveal(deselector);
    }
    let ghost c = ci.val();
    let ghost o = op as int;
    let ghost f0 = desel_factor(c, SHL as int, o);
    let ghost f1 = desel_factor(c, SHR as int, o);
    let ghost f2 = desel_factor(c, ADD as int, o);
    let ghost f3 = desel_factor(c, GETCHAR as int, o);
    let ghost f4 = desel_factor(c, SUB as int, o);
    let ghost f5 = desel_factor(c, PUTCHAR as int, o);
    let ghost f6 = desel_factor(c, LB as int, o);
    let ghost f7 = desel_factor(c, RB as int, o);
    let a0 = factor_eval(ci, SHL, op);
    let e1 = factor_eval(ci, SHR, op);
    let a1 = a0.mul(e1);
    proof {
        lemma_mul_congruent(a0.val(), e1.val(), f0, f1);
    }
    let e2 = factor_eval(ci, ADD, op);
    let a2 = a1.mul(e2);
    proof {
        lemma_mul_congruent(a1.val(), e2.val(), f0 * f1, f2);
    }
    let e3 = factor_eval(ci, GETCHAR, op);
    let a3 = a2.mul(e3);
    proof {
        lemma_mul_congruent(a2.val(), e3.val(), f0 * f1 * f2, f3);
    }
    let e4 = factor_eval(ci, SUB, op);
    let a4 = a3.mul(e4);
    proof {
        lemma_mul_congruent(a3.val(), e4.val(), f0 * f1 * f2 * f3, f4);
    }
    let e5 = factor_eval(ci, PUTCHAR, op);
    let a5 = a4.mul(e5);
    proof {
        lemma_mul_congruent(a4.val(), e5.val(), f0 * f1 * f2 * f3 * f4, f5);
    }
    let e6 = factor_eval(ci, LB, op);
    let a6 = a5.mul(e6);
    proof {
        lemma_mul_congruent(a5.val(), e6.val(), f0 * f1 * f2 * f3 * f4 * f5, f6);
    }
    let e7 = factor_eval(ci, RB, op);
    let a7 = a6.mul(e7);
    proof {
        lemma_mul_congruent(a6.val(), e7.val(), f0 * f1 * f2 * f3 * f4 * f5 * f6, f7);
    }
    a7
}

} // verus!
