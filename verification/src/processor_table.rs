//! The Processor table: seven register columns and the polynomial gates
//! that hold between consecutive rows. Boundary gates pin the first row,
//! consistency gates keep the zero-test witness honest, the range lookup
//! confines memory values, and the four step gates encode the instruction
//! semantics through deselectors.
use vstd::prelude::*;
use crate::P;
use crate::field::Fe;
use crate::math::lemma_add_congruent;
use crate::math::lemma_mul_congruent;
use crate::math::lemma_sub_congruent;
use crate::math::lemma_zero_product;
use crate::range_table::RangeTableConfig;
use crate::range_table::in_range;
use crate::field::inv_p;
use crate::field::lemma_inv_p;
use crate::trace::Register;
use crate::trace::fault_of;
use crate::trace::init_state;
use crate::trace::is_halted;
use crate::trace::is_honest_trace;
use crate::trace::row_matches;
use crate::trace::state_at;
use crate::trace::step;
use crate::trace::tape_read;
use crate::utils::ADD;
use crate::utils::GETCHAR;
use crate::utils::LB;
use crate::utils::PUTCHAR;
use crate::utils::R;
use crate::utils::RB;
use crate::utils::SHL;
use crate::utils::SHR;
use crate::utils::SUB;
use crate::utils::deselector;
use crate::utils::deselector_eval;
use crate::utils::is_opcode;
use crate::utils::lemma_deselector_active;
use crate::utils::lemma_deselector_vanishes;

verus! {

/// A polynomial gate is satisfied when its value vanishes in the field.
pub open spec fn gate_sat(x: int) -> bool {
    x % (P as int) == 0
}

/// Boundary gates: the first row starts the machine at cycle 0, address 0,
/// pointer 0, value 0.
pub open spec fn boundary_sat(r: Register) -> bool {
    &&& gate_sat(r.cycle.val())
    &&& gate_sat(r.instruction_pointer.val())
    &&& gate_sat(r.memory_pointer.val())
    &&& gate_sat(r.memory_value.val())
}

/// Consistency gate: `mv * (mv * mvi - 1)`.
pub open spec fn c0(r: Register) -> int {
    let mv = r.memory_value.val();
    let mvi = r.memory_value_inverse.val();
    mv * (mv * mvi - 1)
}

/// Consistency gate: `mvi * (mv * mvi - 1)`.
pub open spec fn c1(r: Register) -> int {
    let mv = r.memory_value.val();
    let mvi = r.memory_value_inverse.val();
    mvi * (mv * mvi - 1)
}

/// Both consistency gates vanish: the inverse witness is honest.
pub open spec fn consistency_sat(r: Register) -> bool {
    gate_sat(c0(r)) && gate_sat(c1(r))
}

/// Step gate: the cycle counter advances by one.
pub open spec fn p0(r: Register, r2: Register) -> int {
    r2.cycle.val() - r.cycle.val() - 1
}

/// The deselector sum of the six opcodes that advance the instruction
/// pointer by one.
pub open spec fn dsum_ip(ci: int) -> int {
    deselector(ADD as int, ci) + deselector(SUB as int, ci) + deselector(SHR as int, ci)
        + deselector(SHL as int, ci) + deselector(GETCHAR as int, ci) + deselector(
        PUTCHAR as int,
        ci,
    )
}

/// Step gate: the instruction-pointer update. Plain opcodes advance by
/// one; `[` jumps to `ni` on zero and skips by two otherwise; `]` is the
/// mirror image, through the zero-test witness `mv * mvi`.
pub open spec fn p1(r: Register, r2: Register) -> int {
    let ci = r.current_instruction.val();
    let ip = r.instruction_pointer.val();
    let ip2 = r2.instruction_pointer.val();
    let mv = r.memory_value.val();
    let mvi = r.memory_value_inverse.val();
    let ni = r.next_instruction.val();
    dsum_ip(ci) * (ip2 - ip - 1) + deselector(LB as int, ci) * (mv * (ip2 - ip - 2) + (mv * mvi
        - 1) * (ip2 - ni)) + deselector(RB as int, ci) * ((mv * mvi - 1) * (ip2 - ip - 2) + mv * (
    ip2 - ni))
}

/// The deselector sum of the six opcodes that leave the memory pointer
/// where it is.
pub open spec fn dsum_mp(ci: int) -> int {
    deselector(ADD as int, ci) + deselector(SUB as int, ci) + deselector(LB as int, ci)
        + deselector(RB as int, ci) + deselector(GETCHAR as int, ci) + deselector(
        PUTCHAR as int,
        ci,
    )
}

/// Step gate: the memory-pointer update. `<` moves left, `>` moves right,
/// everything else stays.
pub open spec fn p2(r: Register, r2: Register) -> int {
    let ci = r.current_instruction.val();
    let mp = r.memory_pointer.val();
    let mp2 = r2.memory_pointer.val();
    dsum_mp(ci) * (mp2 - mp) + deselector(SHL as int, ci) * (mp2 - mp + 1) + deselector(
        SHR as int,
        ci,
    ) * (mp2 - mp - 1)
}

/// The deselector sum of the three opcodes that leave the memory value
/// where it is.
pub open spec fn dsum_mv(ci: int) -> int {
    deselector(LB as int, ci) + deselector(RB as int, ci) + deselector(PUTCHAR as int, ci)
}

/// Step gate: the memory-value update. Brackets and `.` keep the value;
/// `+` adds one or wraps down by `R - 1`; `-` subtracts one or wraps up;
/// `<`, `>` and `,` are unconstrained here (the Memory table and the input
/// stream constrain them).
pub open spec fn p3(r: Register, r2: Register) -> int {
    let ci = r.current_instruction.val();
    let mv = r.memory_value.val();
    let mv2 = r2.memory_value.val();
    dsum_mv(ci) * (mv2 - mv) + deselector(ADD as int, ci) * (mv2 - mv - 1) * (mv2 - mv + (R - 1))
        + deselector(SUB as int, ci) * (mv2 - mv + 1) * (mv2 - mv - (R - 1))
}

/// All four step gates vanish between two consecutive rows.
pub open spec fn step_sat(r: Register, r2: Register) -> bool {
    gate_sat(p0(r, r2)) && gate_sat(p1(r, r2)) && gate_sat(p2(r, r2)) && gate_sat(p3(r, r2))
}

/// The whole Processor table is satisfied: every cell reduced, boundary
/// gates on the first row, consistency and range lookup on every row, step
/// gates on every row but the last.
pub open spec fn processor_ok(rows: Seq<Register>) -> bool {
    &&& forall|i: int| 0 <= i < rows.len() ==> (#[trigger] rows[i]).wf()
    &&& rows.len() > 0 ==> boundary_sat(rows[0])
    &&& forall|i: int| 0 <= i < rows.len() ==> consistency_sat(#[trigger] rows[i])
    &&& forall|i: int| 0 <= i < rows.len() ==> in_range((#[trigger] rows[i]).memory_value.val())
    &&& forall|i: int| 0 <= i < rows.len() - 1 ==> step_sat(#[trigger] rows[i], rows[i + 1])
}

/// Checks that every column of the row holds a reduced field element.
pub fn check_row_wf(r: &Register) -> (b: bool)
    ensures
        b == r.wf(),
{
    r.cycle.is_reduced() && r.instruction_pointer.is_reduced() && r.current_instruction.is_reduced()
        && r.next_instruction.is_reduced() && r.memory_pointer.is_reduced()
        && r.memory_value.is_reduced() && r.memory_value_inverse.is_reduced()
}

/// Evaluates the consistency gates; both vanish exactly when
/// `consistency_sat` holds.
fn eval_consistency(r: &Register) -> (b: bool)
    requires
        r.wf(),
    ensures
        b == consistency_sat(*r),
{
    let mv = r.memory_value;
    let mvi = r.memory_value_inverse;
    let zt = mv.mul(mvi);
    let prod = zt.sub(Fe::one());
    proof {
        lemma_sub_congruent(zt.val(), 1, mv.val() * mvi.val(), 1);
    }
    let g0 = mv.mul(prod);
    let g1 = mvi.mul(prod);
    proof {
        lemma_mul_congruent(mv.val(), prod.val(), mv.val(), mv.val() * mvi.val() - 1);
        lemma_mul_congruent(mvi.val(), prod.val(), mvi.val(), mv.val() * mvi.val() - 1);
    }
    g0.is_zero() && g1.is_zero()
}

/// Evaluates the clock gate.
fn eval_p0(r: &Register, r2: &Register) -> (v: Fe)
    requires
        r.wf(),
        r2.wf(),
    ensures
        v.wf(),
        v.val() == p0(*r, *r2) % (P as int),
{
    let step = r2.cycle.sub(r.cycle);
    let d = step.sub(Fe::one());
    proof {
        lemma_sub_congruent(step.val(), 1, r2.cycle.val() - r.cycle.val(), 1);
    }
    d
}

/// Evaluates the deselector sum of the instruction-pointer gate.
#[verifier::rlimit(100)]
fn eval_dsum_ip(ci: Fe) -> (v: Fe)
    requires
        ci.wf(),
    ensures
        v.wf(),
        v.val() == dsum_ip(ci.val()) % (P as int),
{
    let ghost c = ci.val();
    let d_add = deselector_eval(ADD, ci);
    let d_sub = deselector_eval(SUB, ci);
    let d_shr = deselector_eval(SHR, ci);
    let d_shl = deselector_eval(SHL, ci);
    let d_get = deselector_eval(GETCHAR, ci);
    let d_put = deselector_eval(PUTCHAR, ci);
    let ghost da = deselector(ADD as int, c);
    let ghost ds = deselector(SUB as int, c);
    let ghost dr = deselector(SHR as int, c);
    let ghost dl = deselector(SHL as int, c);
    let ghost dg = deselector(GETCHAR as int, c);
    let ghost dp = deselector(PUTCHAR as int, c);
    let s1 = d_add.add(d_sub);
    let s2 = s1.add(d_shr);
    let s3 = s2.add(d_shl);
    let s4 = s3.add(d_get);
    let s5 = s4.add(d_put);
    proof {
        lemma_add_congruent(d_add.val(), d_sub.val(), da, ds);
        lemma_add_congruent(s1.val(), d_shr.val(), da + ds, dr);
        lemma_add_congruent(s2.val(), d_shl.val(), da + ds + dr, dl);
        lemma_add_congruent(s3.val(), d_get.val(), da + ds + dr + dl, dg);
        lemma_add_congruent(s4.val(), d_put.val(), da + ds + dr + dl + dg, dp);
    }
    s5
}

/// Evaluates the deselector sum of the memory-pointer gate.
#[verifier::rlimit(100)]
fn eval_dsum_mp(ci: Fe) -> (v: Fe)
    requires
        ci.wf(),
    ensures
        v.wf(),
        v.val() == dsum_mp(ci.val()) % (P as int),
{
    let ghost c = ci.val();
    let d_add = deselector_eval(ADD, ci);
    let d_sub = deselector_eval(SUB, ci);
    let d_lb = deselector_eval(LB, ci);
    let d_rb = deselector_eval(RB, ci);
    let d_get = deselector_eval(GETCHAR, ci);
    let d_put = deselector_eval(PUTCHAR, ci);
    let ghost da = deselector(ADD as int, c);
    let ghost ds = deselector(SUB as int, c);
    let ghost dlb = deselector(LB as int, c);
    let ghost drb = deselector(RB as int, c);
    let ghost dg = deselector(GETCHAR as int, c);
    let ghost dp = deselector(PUTCHAR as int, c);
    let s1 = d_add.add(d_sub);
    let s2 = s1.add(d_lb);
    let s3 = s2.add(d_rb);
    let s4 = s3.add(d_get);
    let s5 = s4.add(d_put);
    proof {
        lemma_add_congruent(d_add.val(), d_sub.val(), da, ds);
        lemma_add_congruent(s1.val(), d_lb.val(), da + ds, dlb);
        lemma_add_congruent(s2.val(), d_rb.val(), da + ds + dlb, drb);
        lemma_add_congruent(s3.val(), d_get.val(), da + ds + dlb + drb, dg);
        lemma_add_congruent(s4.val(), d_put.val(), da + ds + dlb + drb + dg, dp);
    }
    s5
}

/// Evaluates the instruction-pointer gate.
#[verifier::rlimit(100)]
fn eval_p1(r: &Register, r2: &Register) -> (v: Fe)
    requires
        r.wf(),
        r2.wf(),
    ensures
        v.wf(),
        v.val() == p1(*r, *r2) % (P as int),
{
    let ci = r.current_instruction;
    let ghost c = ci.val();
    let ghost ip = r.instruction_pointer.val();
    let ghost ip2 = r2.instruction_pointer.val();
    let ghost mvg = r.memory_value.val();
    let ghost mvig = r.memory_value_inverse.val();
    let ghost nig = r.next_instruction.val();
    let d_lb = deselector_eval(LB, ci);
    let d_rb = deselector_eval(RB, ci);
    let s5 = eval_dsum_ip(ci);
    let ip_diff = r2.instruction_pointer.sub(r.instruction_pointer);
    let ip_step = ip_diff.sub(Fe::one());
    let ip_skip = ip_diff.sub(Fe::new(2));
    proof {
        lemma_sub_congruent(ip_diff.val(), 1, ip2 - ip, 1);
        lemma_sub_congruent(ip_diff.val(), 2, ip2 - ip, 2);
    }
    let t1 = s5.mul(ip_step);
    proof {
        lemma_mul_congruent(s5.val(), ip_step.val(), dsum_ip(c), ip2 - ip - 1);
    }
    let mv = r.memory_value;
    let mvi = r.memory_value_inverse;
    let ni = r.next_instruction;
    let ztp = mv.mul(mvi);
    let zt = ztp.sub(Fe::one());
    proof {
        lemma_sub_congruent(ztp.val(), 1, mvg * mvig, 1);
    }
    let jmp = r2.instruction_pointer.sub(ni);
    let lb_a = mv.mul(ip_skip);
    let lb_b = zt.mul(jmp);
    let lb_inner = lb_a.add(lb_b);
    proof {
        lemma_mul_congruent(mv.val(), ip_skip.val(), mvg, ip2 - ip - 2);
        lemma_mul_congruent(zt.val(), jmp.val(), mvg * mvig - 1, ip2 - nig);
        lemma_add_congruent(
            lb_a.val(),
            lb_b.val(),
            mvg * (ip2 - ip - 2),
            (mvg * mvig - 1) * (ip2 - nig),
        );
    }
    let t_lb = d_lb.mul(lb_inner);
    proof {
        lemma_mul_congruent(
            d_lb.val(),
            lb_inner.val(),
            deselector(LB as int, c),
            mvg * (ip2 - ip - 2) + (mvg * mvig - 1) * (ip2 - nig),
        );
    }
    let rb_a = zt.mul(ip_skip);
    let rb_b = mv.mul(jmp);
    let rb_inner = rb_a.add(rb_b);
    proof {
        lemma_mul_congruent(zt.val(), ip_skip.val(), mvg * mvig - 1, ip2 - ip - 2);
        lemma_mul_congruent(mv.val(), jmp.val(), mvg, ip2 - nig);
        lemma_add_congruent(
            rb_a.val(),
            rb_b.val(),
            (mvg * mvig - 1) * (ip2 - ip - 2),
            mvg * (ip2 - nig),
        );
    }
    let t_rb = d_rb.mul(rb_inner);
    proof {
        lemma_mul_congruent(
            d_rb.val(),
            rb_inner.val(),
            deselector(RB as int, c),
            (mvg * mvig - 1) * (ip2 - ip - 2) + mvg * (ip2 - nig),
        );
    }
    let u1 = t1.add(t_lb);
    let u2 = u1.add(t_rb);
    proof {
        lemma_add_congruent(
            t1.val(),
            t_lb.val(),
            dsum_ip(c) * (ip2 - ip - 1),
            deselector(LB as int, c) * (mvg * (ip2 - ip - 2) + (mvg * mvig - 1) * (ip2 - nig)),
        );
        lemma_add_congruent(
            u1.val(),
            t_rb.val(),
            dsum_ip(c) * (ip2 - ip - 1) + deselector(LB as int, c) * (mvg * (ip2 - ip - 2) + (mvg
                * mvig - 1) * (ip2 - nig)),
            deselector(RB as int, c) * ((mvg * mvig - 1) * (ip2 - ip - 2) + mvg * (ip2 - nig)),
        );
    }
    u2
}

/// Evaluates the memory-pointer gate.
#[verifier::rlimit(100)]
fn eval_p2(r: &Register, r2: &Register) -> (v: Fe)
    requires
        r.wf(),
        r2.wf(),
    ensures
        v.wf(),
        v.val() == p2(*r, *r2) % (P as int),
{
    let ci = r.current_instruction;
    let ghost c = ci.val();
    let ghost mp = r.memory_pointer.val();
    let ghost mp2 = r2.memory_pointer.val();
    let d_shl = deselector_eval(SHL, ci);
    let d_shr = deselector_eval(SHR, ci);
    let s5 = eval_dsum_mp(ci);
    let stay = r2.memory_pointer.sub(r.memory_pointer);
    let left = stay.add(Fe::one());
    let right = stay.sub(Fe::one());
    proof {
        lemma_add_congruent(stay.val(), 1, mp2 - mp, 1);
        lemma_sub_congruent(stay.val(), 1, mp2 - mp, 1);
    }
    let t0 = s5.mul(stay);
    let t1 = d_shl.mul(left);
    let t2 = d_shr.mul(right);
    proof {
        lemma_mul_congruent(s5.val(), stay.val(), dsum_mp(c), mp2 - mp);
        lemma_mul_congruent(d_shl.val(), left.val(), deselector(SHL as int, c), mp2 - mp + 1);
        lemma_mul_congruent(d_shr.val(), right.val(), deselector(SHR as int, c), mp2 - mp - 1);
    }
    let u1 = t0.add(t1);
    let u2 = u1.add(t2);
    proof {
        lemma_add_congruent(
            t0.val(),
            t1.val(),
            dsum_mp(c) * (mp2 - mp),
            deselector(SHL as int, c) * (mp2 - mp + 1),
        );
        lemma_add_congruent(
            u1.val(),
            t2.val(),
            dsum_mp(c) * (mp2 - mp) + deselector(SHL as int, c) * (mp2 - mp + 1),
            deselector(SHR as int, c) * (mp2 - mp - 1),
        );
    }
    u2
}

/// Evaluates the memory-value gate.
#[verifier::rlimit(100)]
fn eval_p3(r: &Register, r2: &Register) -> (v: Fe)
    requires
        r.wf(),
        r2.wf(),
    ensures
        v.wf(),
        v.val() == p3(*r, *r2) % (P as int),
{
    let ci = r.current_instruction;
    let ghost c = ci.val();
    let ghost mv = r.memory_value.val();
    let ghost mv2 = r2.memory_value.val();
    let d_lb = deselector_eval(LB, ci);
    let d_rb = deselector_eval(RB, ci);
    let d_put = deselector_eval(PUTCHAR, ci);
    let d_add = deselector_eval(ADD, ci);
    let d_sub = deselector_eval(SUB, ci);
    let ghost dlb = deselector(LB as int, c);
    let ghost drb = deselector(RB as int, c);
    let ghost dp = deselector(PUTCHAR as int, c);
    let s1 = d_lb.add(d_rb);
    let s2 = s1.add(d_put);
    proof {
        lemma_add_congruent(d_lb.val(), d_rb.val(), dlb, drb);
        lemma_add_congruent(s1.val(), d_put.val(), dlb + drb, dp);
        assert(s2.val() == dsum_mv(c) % (P as int));
    }
    let diff = r2.memory_value.sub(r.memory_value);
    let t0 = s2.mul(diff);
    proof {
        lemma_mul_congruent(s2.val(), diff.val(), dsum_mv(c), mv2 - mv);
    }
    let range_max = Fe::new(R - 1);
    let up = diff.sub(Fe::one());
    let up_wrap = diff.add(range_max);
    let down = diff.add(Fe::one());
    let down_wrap = diff.sub(range_max);
    proof {
        lemma_sub_congruent(diff.val(), 1, mv2 - mv, 1);
        lemma_add_congruent(diff.val(), R - 1, mv2 - mv, R - 1);
        lemma_add_congruent(diff.val(), 1, mv2 - mv, 1);
        lemma_sub_congruent(diff.val(), R - 1, mv2 - mv, R - 1);
    }
    let t1a = d_add.mul(up);
    let t1 = t1a.mul(up_wrap);
    proof {
        lemma_mul_congruent(d_add.val(), up.val(), deselector(ADD as int, c), mv2 - mv - 1);
        lemma_mul_congruent(
            t1a.val(),
            up_wrap.val(),
            deselector(ADD as int, c) * (mv2 - mv - 1),
            mv2 - mv + (R - 1),
        );
    }
    let t2a = d_sub.mul(down);
    let t2 = t2a.mul(down_wrap);
    proof {
        lemma_mul_congruent(d_sub.val(), down.val(), deselector(SUB as int, c), mv2 - mv + 1);
        lemma_mul_congruent(
            t2a.val(),
            down_wrap.val(),
            deselector(SUB as int, c) * (mv2 - mv + 1),
            mv2 - mv - (R - 1),
        );
    }
    let u1 = t0.add(t1);
    let u2 = u1.add(t2);
    proof {
        lemma_add_congruent(
            t0.val(),
            t1.val(),
            dsum_mv(c) * (mv2 - mv),
            deselector(ADD as int, c) * (mv2 - mv - 1) * (mv2 - mv + (R - 1)),
        );
        lemma_add_congruent(
            u1.val(),
            t2.val(),
            dsum_mv(c) * (mv2 - mv) + deselector(ADD as int, c) * (mv2 - mv - 1) * (mv2 - mv + (R
                - 1)),
            deselector(SUB as int, c) * (mv2 - mv + 1) * (mv2 - mv - (R - 1)),
        );
    }
    u2
}

/// The Processor table's configuration: its gates and its range lookup.
#[derive(Clone, Copy, Debug, PartialEq, Eq, Structural)]
pub struct ProcessorTableConfig {
    pub lookup_table: RangeTableConfig,
}

impl ProcessorTableConfig {
    /// Declares the columns, gates and lookup.
    pub fn configure() -> (r: ProcessorTableConfig)
        ensures
            r.lookup_table.range == R,
    {
        ProcessorTableConfig { lookup_table: RangeTableConfig::configure() }
    }

    /// The mock prover for this table: accepts exactly the matrices on
    /// which every boundary, consistency, range and step gate is
    /// satisfied.
    pub fn check(&self, rows: &Vec<Register>) -> (r: bool)
        requires
            self.lookup_table.range == R,
        ensures
            r == processor_ok(rows@),
    {
        let n = rows.len();
        if n > 0 {
            let first = &rows[0];
            if !check_row_wf(first) {
                return false;
            }
            if !(first.cycle.is_zero() && first.instruction_pointer.is_zero()
                && first.memory_pointer.is_zero() && first.memory_value.is_zero()) {
                return false;
            }
        }
        let mut i: usize = 0;
        while i < n
            invariant
                n == rows@.len(),
                i <= n,
                n > 0 ==> rows@[0].wf() && boundary_sat(rows@[0]),
                forall|k: int| 0 <= k < i ==> (#[trigger] rows@[k]).wf(),
                forall|k: int| 0 <= k < i ==> consistency_sat(#[trigger] rows@[k]),
                forall|k: int| 0 <= k < i ==> in_range((#[trigger] rows@[k]).memory_value.val()),
                forall|k: int|
                    0 <= k < i && k + 1 < n ==> step_sat(#[trigger] rows@[k], rows@[k + 1]),
                self.lookup_table.range == R,
            decreases n - i,
        {
            let row = &rows[i];
            if !check_row_wf(row) {
                return false;
            }
            if !eval_consistency(row) {
                return false;
            }
            if !self.lookup_table.lookup(row.memory_value) {
                return false;
            }
            if i + 1 < n {
                let next = &rows[i + 1];
                if !check_row_wf(next) {
                    return false;
                }
                if !eval_p0(row, next).is_zero() {
                    return false;
                }
                if !eval_p1(row, next).is_zero() {
                    return false;
                }
                if !eval_p2(row, next).is_zero() {
                    return false;
                }
                if !eval_p3(row, next).is_zero() {
                    return false;
                }
            }
            i = i + 1;
        }
        true
    }
}

/// How the deselector sum for the instruction-pointer gate collapses once
/// `ci` is a single opcode: to the active deselector for the six plain
/// opcodes, to zero for the brackets.
proof fn lemma_dsum_ip_cases(ci: int)
    requires
        is_opcode(ci),
    ensures
        ci != LB as int && ci != RB as int ==> dsum_ip(ci) == deselector(ci, ci),
        ci == LB as int || ci == RB as int ==> dsum_ip(ci) == 0,
{
    if ci != ADD as int {
        lemma_deselector_vanishes(ADD as int, ci);
    }
    if ci != SUB as int {
        lemma_deselector_vanishes(SUB as int, ci);
    }
    if ci != SHR as int {
        lemma_deselector_vanishes(SHR as int, ci);
    }
    if ci != SHL as int {
        lemma_deselector_vanishes(SHL as int, ci);
    }
    if ci != GETCHAR as int {
        lemma_deselector_vanishes(GETCHAR as int, ci);
    }
    if ci != PUTCHAR as int {
        lemma_deselector_vanishes(PUTCHAR as int, ci);
    }
}

/// The same collapse for the memory-pointer gate's sum.
proof fn lemma_dsum_mp_cases(ci: int)
    requires
        is_opcode(ci),
    ensures
        ci != SHL as int && ci != SHR as int ==> dsum_mp(ci) == deselector(ci, ci),
        ci == SHL as int || ci == SHR as int ==> dsum_mp(ci) == 0,
{
    if ci != ADD as int {
        lemma_deselector_vanishes(ADD as int, ci);
    }
    if ci != SUB as int {
        lemma_deselector_vanishes(SUB as int, ci);
    }
    if ci != LB as int {
        lemma_deselector_vanishes(LB as int, ci);
    }
    if ci != RB as int {
        lemma_deselector_vanishes(RB as int, ci);
    }
    if ci != GETCHAR as int {
        lemma_deselector_vanishes(GETCHAR as int, ci);
    }
    if ci != PUTCHAR as int {
        lemma_deselector_vanishes(PUTCHAR as int, ci);
    }
}

/// The same collapse for the memory-value gate's sum.
proof fn lemma_dsum_mv_cases(ci: int)
    requires
        is_opcode(ci),
    ensures
        ci == LB as int || ci == RB as int || ci == PUTCHAR as int ==> dsum_mv(ci) == deselector(
            ci,
            ci,
        ),
        !(ci == LB as int || ci == RB as int || ci == PUTCHAR as int) ==> dsum_mv(ci) == 0,
{
    if ci != LB as int {
        lemma_deselector_vanishes(LB as int, ci);
    }
    if ci != RB as int {
        lemma_deselector_vanishes(RB as int, ci);
    }
    if ci != PUTCHAR as int {
        lemma_deselector_vanishes(PUTCHAR as int, ci);
    }
}

/// Soundness of the consistency gates: on any row that satisfies them, the
/// product `mv * mvi` is exactly the zero test of `mv` — zero when `mv` is
/// zero, one when it is not.
pub proof fn lemma_consistency_sound(r: Register)
    requires
        r.wf(),
        consistency_sat(r),
    ensures
        r.memory_value.val() == 0 <==> (r.memory_value.val() * r.memory_value_inverse.val()) % (
        P as int) == 0,
        r.memory_value.val() != 0 <==> (r.memory_value.val() * r.memory_value_inverse.val()) % (
        P as int) == 1,
{
    broadcast use vstd::arithmetic::mul::group_mul_basics;

    let p = P as int;
    let mv = r.memory_value.val();
    let mvi = r.memory_value_inverse.val();
    if mv == 0 {
        assert(mv * mvi == 0);
    } else {
        assert((mv * (mv * mvi - 1)) % p == 0);
        lemma_zero_product(mv, mv * mvi - 1);
        lemma_add_congruent(mv * mvi - 1, 1, 0, 1);
        assert((mv * mvi) % p == 1);
    }
}

/// Soundness of the clock gate: it vanishes only on an exact increment,
/// as long as the cycle counter has room left in the field.
pub proof fn lemma_p0_sound(r: Register, r2: Register)
    requires
        r.wf(),
        r2.wf(),
        gate_sat(p0(r, r2)),
        r.cycle.val() + 1 < P,
    ensures
        r2.cycle.val() == r.cycle.val() + 1,
{
    crate::math::lemma_small_cong_zero(p0(r, r2));
}

/// Soundness of the instruction-pointer gate: together with the
/// consistency gates it forces exactly the documented update — plain
/// opcodes advance by one, `[` jumps to `ni` exactly on zero, `]` jumps
/// to `ni` exactly on nonzero, and both skip by two otherwise.
pub proof fn lemma_p1_sound(r: Register, r2: Register)
    requires
        r.wf(),
        r2.wf(),
        is_opcode(r.current_instruction.val()),
        consistency_sat(r),
        gate_sat(p1(r, r2)),
        r.instruction_pointer.val() + 2 < P,
    ensures
        r.current_instruction.val() != LB as int && r.current_instruction.val() != RB as int
            ==> r2.instruction_pointer.val() == r.instruction_pointer.val() + 1,
        r.current_instruction.val() == LB as int ==> r2.instruction_pointer.val() == (
        if r.memory_value.val() == 0 {
            r.next_instruction.val()
        } else {
            r.instruction_pointer.val() + 2
        }),
        r.current_instruction.val() == RB as int ==> r2.instruction_pointer.val() == (
        if r.memory_value.val() != 0 {
            r.next_instruction.val()
        } else {
            r.instruction_pointer.val() + 2
        }),
{
    broadcast use vstd::arithmetic::mul::group_mul_basics;

    let p = P as int;
    let ci = r.current_instruction.val();
    let ip = r.instruction_pointer.val();
    let ip2 = r2.instruction_pointer.val();
    let mv = r.memory_value.val();
    let mvi = r.memory_value_inverse.val();
    let ni = r.next_instruction.val();
    lemma_dsum_ip_cases(ci);
    lemma_consistency_sound(r);
    let lb_inner = mv * (ip2 - ip - 2) + (mv * mvi - 1) * (ip2 - ni);
    let rb_inner = (mv * mvi - 1) * (ip2 - ip - 2) + mv * (ip2 - ni);
    if ci != LB as int && ci != RB as int {
        lemma_deselector_vanishes(LB as int, ci);
        lemma_deselector_vanishes(RB as int, ci);
        assert(p1(r, r2) == deselector(ci, ci) * (ip2 - ip - 1));
        lemma_deselector_active(ci);
        lemma_zero_product(deselector(ci, ci), ip2 - ip - 1);
        crate::math::lemma_small_cong_zero(ip2 - ip - 1);
    } else if ci == LB as int {
        lemma_deselector_vanishes(RB as int, ci);
        assert(p1(r, r2) == deselector(ci, ci) * lb_inner);
        lemma_deselector_active(ci);
        lemma_zero_product(deselector(ci, ci), lb_inner);
        if mv == 0 {
            assert(lb_inner == (-1) * (ip2 - ni));
            lemma_zero_product(-1, ip2 - ni);
            crate::math::lemma_small_cong_zero(ip2 - ni);
        } else {
            lemma_sub_congruent(mv * mvi, 1, 1, 1);
            lemma_mul_congruent(mv * mvi - 1, ip2 - ni, 0, ip2 - ni);
            lemma_add_congruent(mv * (ip2 - ip - 2), (mv * mvi - 1) * (ip2 - ni), mv * (ip2 - ip
                - 2), 0);
            assert((mv * (ip2 - ip - 2)) % p == 0);
            lemma_zero_product(mv, ip2 - ip - 2);
            crate::math::lemma_small_cong_zero(ip2 - ip - 2);
        }
    } else {
        lemma_deselector_vanishes(LB as int, ci);
        assert(p1(r, r2) == deselector(ci, ci) * rb_inner);
        lemma_deselector_active(ci);
        lemma_zero_product(deselector(ci, ci), rb_inner);
        if mv == 0 {
            assert(rb_inner == (-1) * (ip2 - ip - 2));
            lemma_zero_product(-1, ip2 - ip - 2);
            crate::math::lemma_small_cong_zero(ip2 - ip - 2);
        } else {
            lemma_sub_congruent(mv * mvi, 1, 1, 1);
            lemma_mul_congruent(mv * mvi - 1, ip2 - ip - 2, 0, ip2 - ip - 2);
            lemma_add_congruent((mv * mvi - 1) * (ip2 - ip - 2), mv * (ip2 - ni), 0, mv * (ip2
                - ni));
            assert((mv * (ip2 - ni)) % p == 0);
            lemma_zero_product(mv, ip2 - ni);
            crate::math::lemma_small_cong_zero(ip2 - ni);
        }
    }
}

/// Soundness of the memory-pointer gate: `<` and `>` move by exactly one,
/// everything else stays, as long as the pointer has room in the field.
pub proof fn lemma_p2_sound(r: Register, r2: Register)
    requires
        r.wf(),
        r2.wf(),
        is_opcode(r.current_instruction.val()),
        gate_sat(p2(r, r2)),
        r.memory_pointer.val() + 1 < P,
        r.current_instruction.val() == SHL as int ==> r.memory_pointer.val() >= 1,
    ensures
        r.current_instruction.val() != SHL as int && r.current_instruction.val() != SHR as int
            ==> r2.memory_pointer.val() == r.memory_pointer.val(),
        r.current_instruction.val() == SHL as int ==> r2.memory_pointer.val()
            == r.memory_pointer.val() - 1,
        r.current_instruction.val() == SHR as int ==> r2.memory_pointer.val()
            == r.memory_pointer.val() + 1,
{
    broadcast use vstd::arithmetic::mul::group_mul_basics;

    let p = P as int;
    let ci = r.current_instruction.val();
    let mp = r.memory_pointer.val();
    let mp2 = r2.memory_pointer.val();
    lemma_dsum_mp_cases(ci);
    if ci != SHL as int && ci != SHR as int {
        lemma_deselector_vanishes(SHL as int, ci);
        lemma_deselector_vanishes(SHR as int, ci);
        assert(p2(r, r2) == deselector(ci, ci) * (mp2 - mp));
        lemma_deselector_active(ci);
        lemma_zero_product(deselector(ci, ci), mp2 - mp);
        crate::math::lemma_small_cong_zero(mp2 - mp);
    } else if ci == SHL as int {
        lemma_deselector_vanishes(SHR as int, ci);
        assert(p2(r, r2) == deselector(ci, ci) * (mp2 - mp + 1));
        lemma_deselector_active(ci);
        lemma_zero_product(deselector(ci, ci), mp2 - mp + 1);
        crate::math::lemma_small_cong_zero(mp2 - mp + 1);
    } else {
        lemma_deselector_vanishes(SHL as int, ci);
        assert(p2(r, r2) == deselector(ci, ci) * (mp2 - mp - 1));
        lemma_deselector_active(ci);
        lemma_zero_product(deselector(ci, ci), mp2 - mp - 1);
        crate::math::lemma_small_cong_zero(mp2 - mp - 1);
    }
}

/// Soundness of the memory-value gate under the range lookup: brackets and
/// `.` keep the value, and `+`/`-` perform exactly the wrapping increment
/// and decrement — the quadratic gate alone admits two roots, and the
/// range bound on both rows eliminates the wrong one.
pub proof fn lemma_p3_sound(r: Register, r2: Register)
    requires
        r.wf(),
        r2.wf(),
        is_opcode(r.current_instruction.val()),
        gate_sat(p3(r, r2)),
        in_range(r.memory_value.val()),
        in_range(r2.memory_value.val()),
    ensures
        r.current_instruction.val() == LB as int || r.current_instruction.val() == RB as int
            || r.current_instruction.val() == PUTCHAR as int ==> r2.memory_value.val()
            == r.memory_value.val(),
        r.current_instruction.val() == ADD as int ==> r2.memory_value.val() == (
        if r.memory_value.val() == R - 1 {
            0int
        } else {
            r.memory_value.val() + 1
        }),
        r.current_instruction.val() == SUB as int ==> r2.memory_value.val() == (
        if r.memory_value.val() == 0 {
            (R - 1) as int
        } else {
            r.memory_value.val() - 1
        }),
{
    broadcast use vstd::arithmetic::mul::group_mul_basics;

    let p = P as int;
    let ci = r.current_instruction.val();
    let mv = r.memory_value.val();
    let mv2 = r2.memory_value.val();
    lemma_dsum_mv_cases(ci);
    if ci == LB as int || ci == RB as int || ci == PUTCHAR as int {
        lemma_deselector_vanishes(ADD as int, ci);
        lemma_deselector_vanishes(SUB as int, ci);
        assert(p3(r, r2) == deselector(ci, ci) * (mv2 - mv));
        lemma_deselector_active(ci);
        lemma_zero_product(deselector(ci, ci), mv2 - mv);
        crate::math::lemma_small_cong_zero(mv2 - mv);
    } else if ci == ADD as int {
        lemma_deselector_vanishes(SUB as int, ci);
        assert(p3(r, r2) == deselector(ci, ci) * (mv2 - mv - 1) * (mv2 - mv + (R - 1)));
        lemma_deselector_active(ci);
        if (mv2 - mv - 1) % p == 0 {
            crate::math::lemma_small_cong_zero(mv2 - mv - 1);
            assert(mv2 == mv + 1);
        } else {
            lemma_mul_nonzero_mod(deselector(ci, ci), mv2 - mv - 1);
            lemma_zero_product(deselector(ci, ci) * (mv2 - mv - 1), mv2 - mv + (R - 1));
            crate::math::lemma_small_cong_zero(mv2 - mv + (R - 1));
            assert(mv2 == mv - (R - 1));
        }
    } else if ci == SUB as int {
        lemma_deselector_vanishes(ADD as int, ci);
        assert(p3(r, r2) == deselector(ci, ci) * (mv2 - mv + 1) * (mv2 - mv - (R - 1)));
        lemma_deselector_active(ci);
        if (mv2 - mv + 1) % p == 0 {
            crate::math::lemma_small_cong_zero(mv2 - mv + 1);
            assert(mv2 == mv - 1);
        } else {
            lemma_mul_nonzero_mod(deselector(ci, ci), mv2 - mv + 1);
            lemma_zero_product(deselector(ci, ci) * (mv2 - mv + 1), mv2 - mv - (R - 1));
            crate::math::lemma_small_cong_zero(mv2 - mv - (R - 1));
            assert(mv2 == mv + (R - 1));
        }
    }
}

/// Soundness of step: on any two adjacent rows that satisfy the
/// consistency gates, the four step gates and the range lookup, the
/// registers evolve exactly as the instruction semantics dictate — so a
/// trace with any cell tampered in a way that breaks the semantics must
/// fail one of these gates. The side bounds keep the field arithmetic away
/// from its wrap-around points; every honest trace satisfies them.
pub proof fn lemma_step_sound(r: Register, r2: Register)
    requires
        r.wf(),
        r2.wf(),
        is_opcode(r.current_instruction.val()),
        consistency_sat(r),
        step_sat(r, r2),
        in_range(r.memory_value.val()),
        in_range(r2.memory_value.val()),
        r.cycle.val() + 1 < P,
        r.instruction_pointer.val() + 2 < P,
        r.memory_pointer.val() + 1 < P,
        r.current_instruction.val() == SHL as int ==> r.memory_pointer.val() >= 1,
    ensures
        r2.cycle.val() == r.cycle.val() + 1,
        r.current_instruction.val() != LB as int && r.current_instruction.val() != RB as int
            ==> r2.instruction_pointer.val() == r.instruction_pointer.val() + 1,
        r.current_instruction.val() == LB as int ==> r2.instruction_pointer.val() == (
        if r.memory_value.val() == 0 {
            r.next_instruction.val()
        } else {
            r.instruction_pointer.val() + 2
        }),
        r.current_instruction.val() == RB as int ==> r2.instruction_pointer.val() == (
        if r.memory_value.val() != 0 {
            r.next_instruction.val()
        } else {
            r.instruction_pointer.val() + 2
        }),
        r.current_instruction.val() != SHL as int && r.current_instruction.val() != SHR as int
            ==> r2.memory_pointer.val() == r.memory_pointer.val(),
        r.current_instruction.val() == SHL as int ==> r2.memory_pointer.val()
            == r.memory_pointer.val() - 1,
        r.current_instruction.val() == SHR as int ==> r2.memory_pointer.val()
            == r.memory_pointer.val() + 1,
        r.current_instruction.val() == LB as int || r.current_instruction.val() == RB as int
            || r.current_instruction.val() == PUTCHAR as int ==> r2.memory_value.val()
            == r.memory_value.val(),
        r.current_instruction.val() == ADD as int ==> r2.memory_value.val() == (
        if r.memory_value.val() == R - 1 {
            0int
        } else {
            r.memory_value.val() + 1
        }),
        r.current_instruction.val() == SUB as int ==> r2.memory_value.val() == (
        if r.memory_value.val() == 0 {
            (R - 1) as int
        } else {
            r.memory_value.val() - 1
        }),
{
    lemma_p0_sound(r, r2);
    lemma_p1_sound(r, r2);
    lemma_p2_sound(r, r2);
    lemma_p3_sound(r, r2);
}

/// A product of two factors that do not vanish modulo `P` does not vanish
/// either: the contrapositive of the zero-product property.
proof fn lemma_mul_nonzero_mod(a: int, b: int)
    requires
        a % (P as int) != 0,
        b % (P as int) != 0,
    ensures
        (a * b) % (P as int) != 0,
{
    if (a * b) % (P as int) == 0 {
        lemma_zero_product(a, b);
    }
}

/// An honest zero-test witness satisfies both consistency gates.
proof fn lemma_honest_consistency(r: Register)
    requires
        r.wf(),
        r.memory_value_inverse.val() == (if r.memory_value.val() == 0 {
            0int
        } else {
            inv_p(r.memory_value.val())
        }),
    ensures
        consistency_sat(r),
{
    broadcast use vstd::arithmetic::mul::group_mul_basics;

    let p = P as int;
    let mv = r.memory_value.val();
    let mvi = r.memory_value_inverse.val();
    if mv == 0 {
        assert(c0(r) == 0);
        assert(c1(r) == 0);
    } else {
        lemma_inv_p(mv);
        assert((mv * mvi) % p == 1);
        lemma_sub_congruent(mv * mvi, 1, 1, 1);
        assert((mv * mvi - 1) % p == 0);
        lemma_mul_congruent(mv, mv * mvi - 1, mv, 0);
        lemma_mul_congruent(mvi, mv * mvi - 1, mvi, 0);
    }
}

/// Completeness of the step gates: between two consecutive snapshots of a
/// run, all four vanish.
proof fn lemma_honest_step_sat(
    code: Seq<u64>,
    input: Seq<u8>,
    n: nat,
    r: Register,
    r2: Register,
)
    requires
        row_matches(code, state_at(code, input, n), n as int, r),
        row_matches(code, state_at(code, input, n + 1), n as int + 1, r2),
        !is_halted(code, state_at(code, input, n)),
        fault_of(code, input, state_at(code, input, n)) is None,
    ensures
        step_sat(r, r2),
{
    broadcast use vstd::arithmetic::mul::group_mul_basics;

    let p = P as int;
    let s = state_at(code, input, n);
    let s2 = state_at(code, input, n + 1);
    assert(s2 == step(code, input, s));
    let ci = r.current_instruction.val();
    let ip = r.instruction_pointer.val();
    let ip2 = r2.instruction_pointer.val();
    let mp = r.memory_pointer.val();
    let mp2 = r2.memory_pointer.val();
    let mv = r.memory_value.val();
    let mv2 = r2.memory_value.val();
    let mvi = r.memory_value_inverse.val();
    let ni = r.next_instruction.val();
    assert(is_opcode(ci));
    lemma_dsum_ip_cases(ci);
    lemma_dsum_mp_cases(ci);
    lemma_dsum_mv_cases(ci);
    assert(p0(r, r2) == 0);
    if ci != LB as int && ci != RB as int {
        lemma_deselector_vanishes(LB as int, ci);
        lemma_deselector_vanishes(RB as int, ci);
        assert(ip2 == ip + 1);
        assert(p1(r, r2) == 0);
        if ci == SHL as int {
            lemma_deselector_vanishes(SHR as int, ci);
            assert(mp2 == mp - 1);
            assert(p2(r, r2) == 0);
        } else if ci == SHR as int {
            lemma_deselector_vanishes(SHL as int, ci);
            assert(mp2 == mp + 1);
            assert(p2(r, r2) == 0);
        } else {
            lemma_deselector_vanishes(SHL as int, ci);
            lemma_deselector_vanishes(SHR as int, ci);
            assert(mp2 == mp);
            assert(p2(r, r2) == 0);
        }
        if ci == ADD as int {
            lemma_deselector_vanishes(SUB as int, ci);
            assert(s2.tape == s.tape.insert(s.mp, if tape_read(s.tape, s.mp) == 255 {
                0u8
            } else {
                (tape_read(s.tape, s.mp) + 1) as u8
            }));
            if mv == 255 {
                assert(mv2 == 0);
                assert(p3(r, r2) == 0);
            } else {
                assert(mv2 == mv + 1);
                assert(p3(r, r2) == 0);
            }
        } else if ci == SUB as int {
            lemma_deselector_vanishes(ADD as int, ci);
            if mv == 0 {
                assert(mv2 == 255);
                assert(p3(r, r2) == 0);
            } else {
                assert(mv2 == mv - 1);
                assert(p3(r, r2) == 0);
            }
        } else if ci == PUTCHAR as int {
            lemma_deselector_vanishes(ADD as int, ci);
            lemma_deselector_vanishes(SUB as int, ci);
            assert(mv2 == mv);
            assert(p3(r, r2) == 0);
        } else {
            lemma_deselector_vanishes(ADD as int, ci);
            lemma_deselector_vanishes(SUB as int, ci);
            assert(p3(r, r2) == 0);
        }
    } else {
        lemma_deselector_vanishes(ADD as int, ci);
        lemma_deselector_vanishes(SUB as int, ci);
        lemma_deselector_vanishes(SHL as int, ci);
        lemma_deselector_vanishes(SHR as int, ci);
        assert(mp2 == mp);
        assert(p2(r, r2) == 0);
        assert(mv2 == mv);
        assert(p3(r, r2) == 0);
        if ci == LB as int {
            lemma_deselector_vanishes(RB as int, ci);
            let lb_inner = mv * (ip2 - ip - 2) + (mv * mvi - 1) * (ip2 - ni);
            assert(p1(r, r2) == deselector(ci, ci) * lb_inner);
            if mv == 0 {
                assert(ip2 == ni);
                assert(lb_inner == 0);
                assert(p1(r, r2) == 0);
            } else {
                assert(ip2 == ip + 2);
                lemma_inv_p(mv);
                assert((mv * mvi) % p == 1);
                lemma_sub_congruent(mv * mvi, 1, 1, 1);
                lemma_mul_congruent(mv * mvi - 1, ip2 - ni, 0, ip2 - ni);
                assert(lb_inner % p == 0);
                lemma_mul_congruent(deselector(ci, ci), lb_inner, deselector(ci, ci), 0);
                assert(gate_sat(p1(r, r2)));
            }
        } else {
            lemma_deselector_vanishes(LB as int, ci);
            let rb_inner = (mv * mvi - 1) * (ip2 - ip - 2) + mv * (ip2 - ni);
            assert(p1(r, r2) == deselector(ci, ci) * rb_inner);
            if mv == 0 {
                assert(ip2 == ip + 2);
                assert(rb_inner == 0);
                assert(p1(r, r2) == 0);
            } else {
                assert(ip2 == ni);
                lemma_inv_p(mv);
                assert((mv * mvi) % p == 1);
                lemma_sub_congruent(mv * mvi, 1, 1, 1);
                lemma_mul_congruent(mv * mvi - 1, ip2 - ip - 2, 0, ip2 - ip - 2);
                assert(rb_inner % p == 0);
                lemma_mul_congruent(deselector(ci, ci), rb_inner, deselector(ci, ci), 0);
                assert(gate_sat(p1(r, r2)));
            }
        }
    }
}

/// Soundness of step, completeness half: every honest trace satisfies the
/// whole Processor table — boundary, consistency, range lookup and the
/// four step gates.
pub proof fn lemma_honest_trace_satisfies(code: Seq<u64>, input: Seq<u8>, rows: Seq<Register>)
    requires
        is_honest_trace(code, input, rows),
    ensures
        processor_ok(rows),
{
    assert forall|i: int| 0 <= i < rows.len() implies (#[trigger] rows[i]).wf() by {
        assert(row_matches(code, state_at(code, input, i as nat), i, rows[i]));
    }
    assert(state_at(code, input, 0) == init_state());
    assert(boundary_sat(rows[0])) by {
        assert(row_matches(code, state_at(code, input, 0nat), 0, rows[0]));
        assert(tape_read(init_state().tape, 0) == 0);
    }
    assert forall|i: int| 0 <= i < rows.len() implies consistency_sat(#[trigger] rows[i]) by {
        assert(row_matches(code, state_at(code, input, i as nat), i, rows[i]));
        lemma_honest_consistency(rows[i]);
    }
    assert forall|i: int|
        0 <= i < rows.len() implies in_range((#[trigger] rows[i]).memory_value.val()) by {
        assert(row_matches(code, state_at(code, input, i as nat), i, rows[i]));
    }
    assert forall|i: int|
        0 <= i < rows.len() - 1 implies step_sat(#[trigger] rows[i], rows[i + 1]) by {
        assert(row_matches(code, state_at(code, input, i as nat), i, rows[i]));
        assert(row_matches(code, state_at(code, input, (i + 1) as nat), i + 1, rows[i + 1]));
        assert((i as nat) + 1 == (i + 1) as nat);
        lemma_honest_step_sat(code, input, i as nat, rows[i], rows[i + 1]);
    }
}

/// Clock monotonicity: along an honest trace the cycle counter increases
/// by exactly one from each row to the next.
pub proof fn lemma_clock_monotonic(code: Seq<u64>, input: Seq<u8>, rows: Seq<Register>)
    requires
        is_honest_trace(code, input, rows),
    ensures
        forall|i: int|
            0 <= i < rows.len() - 1 ==> (#[trigger] rows[i + 1]).cycle.val() == rows[i].cycle.val()
                + 1,
{
    assert forall|i: int|
        0 <= i < rows.len() - 1 implies (#[trigger] rows[i + 1]).cycle.val() == rows[i].cycle.val()
        + 1 by {
        assert(row_matches(code, state_at(code, input, i as nat), i, rows[i]));
        assert(row_matches(code, state_at(code, input, (i + 1) as nat), i + 1, rows[i + 1]));
    }
}

/// Range confinement: every memory value of an honest trace lies in
/// `[0, R)`.
pub proof fn lemma_range_confinement(code: Seq<u64>, input: Seq<u8>, rows: Seq<Register>)
    requires
        is_honest_trace(code, input, rows),
    ensures
        forall|i: int| 0 <= i < rows.len() ==> in_range((#[trigger] rows[i]).memory_value.val()),
{
    assert forall|i: int|
        0 <= i < rows.len() implies in_range((#[trigger] rows[i]).memory_value.val()) by {
        assert(row_matches(code, state_at(code, input, i as nat), i, rows[i]));
    }
}

} // verus!
