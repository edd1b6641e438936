//! The Memory table: the Processor rows reordered by `(mp, clk)`, with
//! gates that make memory behave like memory — a cell read again without an
//! intervening write still holds its value, a freshly reached cell holds
//! zero, and the pointer column advances contiguously.
use vstd::prelude::*;
use crate::P;
use crate::field::Fe;
use crate::math::lemma_add_congruent;
use crate::math::lemma_mul_congruent;
use crate::math::lemma_sub_congruent;
use crate::trace::Register;
use crate::trace::fault_of;
use crate::trace::is_halted;
use crate::trace::is_honest_trace;
use crate::trace::lemma_mp_reaches;
use crate::trace::lemma_tape_stable;
use crate::trace::lemma_tape_untouched_zero;
use crate::trace::ok_upto;
use crate::trace::row_matches;
use crate::trace::state_at;
use crate::trace::step;
use crate::trace::tape_read;
use crate::utils::ADD;
use crate::utils::GETCHAR;
use crate::utils::SUB;
use crate::utils::is_opcode;
use crate::utils::lemma_deselector_vanishes;
use crate::utils::LB;
use crate::utils::PUTCHAR;
use crate::utils::RB;
use crate::utils::SHL;
use crate::utils::SHR;
use crate::utils::deselector;
use crate::utils::deselector_eval;
use crate::processor_table::check_row_wf;
use crate::processor_table::gate_sat;

verus! {

/// The Memory table's order: by memory pointer, then by cycle.
pub open spec fn mem_le(a: Register, b: Register) -> bool {
    a.memory_pointer.val() < b.memory_pointer.val() || (a.memory_pointer.val()
        == b.memory_pointer.val() && a.cycle.val() <= b.cycle.val())
}

/// Adjacent rows are ordered.
pub open spec fn mem_sorted(rows: Seq<Register>) -> bool {
    forall|i: int| 0 <= i < rows.len() - 1 ==> mem_le(#[trigger] rows[i], rows[i + 1])
}

/// Executable form of `mem_le`.
fn mem_le_exec(a: &Register, b: &Register) -> (r: bool)
    ensures
        r == mem_le(*a, *b),
{
    a.memory_pointer.v < b.memory_pointer.v || (a.memory_pointer.v == b.memory_pointer.v
        && a.cycle.v <= b.cycle.v)
}

/// Sorts rows by `(mp, clk)`: the result is a reordering (same multiset)
/// in Memory-table order.
pub fn sort_rows(rows: &Vec<Register>) -> (r: Vec<Register>)
    ensures
        r@.to_multiset() == rows@.to_multiset(),
        mem_sorted(r@),
        r@.len() == rows@.len(),
{
    broadcast use vstd::seq_lib::group_to_multiset_ensures;

    let mut work: Vec<Register> = Vec::new();
    let mut i: usize = 0;
    while i < rows.len()
        invariant
            i <= rows@.len(),
            work@ == rows@.subrange(0, i as int),
        decreases rows@.len() - i,
    {
        work.push(rows[i]);
        proof {
            assert(work@ =~= rows@.subrange(0, i + 1));
        }
        i = i + 1;
    }
    proof {
        assert(work@ =~= rows@);
    }
    let mut out: Vec<Register> = Vec::new();
    while work.len() > 0
        invariant
            out@.to_multiset().add(work@.to_multiset()) =~= rows@.to_multiset(),
            out@.len() + work@.len() == rows@.len(),
            mem_sorted(out@),
            forall|k: int, j: int|
                0 <= k < out@.len() && 0 <= j < work@.len() ==> mem_le(
                    #[trigger] out@[k],
                    #[trigger] work@[j],
                ),
        decreases work@.len(),
    {
        let mut m: usize = 0;
        let mut j: usize = 1;
        while j < work.len()
            invariant
                m < j <= work@.len(),
                work@.len() > 0,
                forall|k: int| 0 <= k < j ==> mem_le(work@[m as int], #[trigger] work@[k]),
            decreases work@.len() - j,
        {
            if mem_le_exec(&work[j], &work[m]) {
                m = j;
            }
            j = j + 1;
        }
        let ghost work0 = work@;
        let ghost out0 = out@;
        let x = work.remove(m);
        out.push(x);
        proof {
            work0.to_multiset_ensures();
            out0.to_multiset_ensures();
            assert(work0.contains(work0[m as int]));
            assert(work0.to_multiset().count(x) > 0);
            assert(work@ == work0.remove(m as int));
            assert(work@.to_multiset() =~= work0.to_multiset().remove(x));
            assert(out@.to_multiset() =~= out0.to_multiset().insert(x));
            assert(out@.to_multiset().add(work@.to_multiset()) =~= rows@.to_multiset());
            assert forall|k: int, j2: int|
                0 <= k < out@.len() && 0 <= j2 < work@.len() implies mem_le(
                #[trigger] out@[k],
                #[trigger] work@[j2],
            ) by {
                assert(work@[j2] == (if j2 < m { work0[j2] } else { work0[j2 + 1] }));
            }
            assert forall|i2: int| 0 <= i2 < out@.len() - 1 implies mem_le(
                #[trigger] out@[i2],
                out@[i2 + 1],
            ) by {
            }
        }
    }
    out
}

/// The deselector sum of the five opcodes that do not write to memory.
pub open spec fn dsum_nw(ci: int) -> int {
    deselector(SHL as int, ci) + deselector(SHR as int, ci) + deselector(LB as int, ci)
        + deselector(RB as int, ci) + deselector(PUTCHAR as int, ci)
}

/// Memory gate: on a re-visit of the same cell (`mp' == mp`), a row whose
/// opcode does not write forces the value to carry over.
pub open spec fn m0(r: Register, r2: Register) -> int {
    let mp = r.memory_pointer.val();
    let mp2 = r2.memory_pointer.val();
    let mv = r.memory_value.val();
    let mv2 = r2.memory_value.val();
    (mp2 - mp - 1) * dsum_nw(r.current_instruction.val()) * (mv2 - mv)
}

/// Memory gate: a freshly reached cell (`mp' == mp + 1`) holds zero.
pub open spec fn m1(r: Register, r2: Register) -> int {
    (r2.memory_pointer.val() - r.memory_pointer.val()) * r2.memory_value.val()
}

/// Memory gate: the pointer column advances by zero or one.
pub open spec fn m2(r: Register, r2: Register) -> int {
    let d = r2.memory_pointer.val() - r.memory_pointer.val();
    d * (d - 1)
}

/// All three memory gates vanish between two adjacent rows.
pub open spec fn mem_step_sat(r: Register, r2: Register) -> bool {
    gate_sat(m0(r, r2)) && gate_sat(m1(r, r2)) && gate_sat(m2(r, r2))
}

/// The whole Memory table is satisfied: reduced cells, table order, and
/// the three gates between every pair of adjacent rows.
pub open spec fn memory_ok(rows: Seq<Register>) -> bool {
    &&& forall|i: int| 0 <= i < rows.len() ==> (#[trigger] rows[i]).wf()
    &&& mem_sorted(rows)
    &&& forall|i: int| 0 <= i < rows.len() - 1 ==> mem_step_sat(#[trigger] rows[i], rows[i + 1])
}

/// Evaluates the deselector sum of the non-writing opcodes.
#[verifier::rlimit(100)]
fn eval_dsum_nw(ci: Fe) -> (v: Fe)
    requires
        ci.wf(),
    ensures
        v.wf(),
        v.val() == dsum_nw(ci.val()) % (P as int),
{
    let ghost c = ci.val();
    let d_shl = deselector_eval(SHL, ci);
    let d_shr = deselector_eval(SHR, ci);
    let d_lb = deselector_eval(LB, ci);
    let d_rb = deselector_eval(RB, ci);
    let d_put = deselector_eval(PUTCHAR, ci);
    let ghost dl = deselector(SHL as int, c);
    let ghost dr = deselector(SHR as int, c);
    let ghost dlb = deselector(LB as int, c);
    let ghost drb = deselector(RB as int, c);
    let ghost dp = deselector(PUTCHAR as int, c);
    let s1 = d_shl.add(d_shr);
    let s2 = s1.add(d_lb);
    let s3 = s2.add(d_rb);
    let s4 = s3.add(d_put);
    proof {
        lemma_add_congruent(d_shl.val(), d_shr.val(), dl, dr);
        lemma_add_congruent(s1.val(), d_lb.val(), dl + dr, dlb);
        lemma_add_congruent(s2.val(), d_rb.val(), dl + dr + dlb, drb);
        lemma_add_congruent(s3.val(), d_put.val(), dl + dr + dlb + drb, dp);
    }
    s4
}

/// Evaluates the three memory gates; all vanish exactly when
/// `mem_step_sat` holds.
#[verifier::rlimit(100)]
fn eval_mem_step(r: &Register, r2: &Register) -> (b: bool)
    requires
        r.wf(),
        r2.wf(),
    ensures
        b == mem_step_sat(*r, *r2),
{
    let ghost mp = r.memory_pointer.val();
    let ghost mp2 = r2.memory_pointer.val();
    let ghost mv = r.memory_value.val();
    let ghost mv2 = r2.memory_value.val();
    let ghost c = r.current_instruction.val();
    let d = r2.memory_pointer.sub(r.memory_pointer);
    let d1 = d.sub(Fe::one());
    proof {
        lemma_sub_congruent(d.val(), 1, mp2 - mp, 1);
    }
    let nw = eval_dsum_nw(r.current_instruction);
    let vdiff = r2.memory_value.sub(r.memory_value);
    let g0a = d1.mul(nw);
    let g0 = g0a.mul(vdiff);
    proof {
        lemma_mul_congruent(d1.val(), nw.val(), mp2 - mp - 1, dsum_nw(c));
        lemma_mul_congruent(g0a.val(), vdiff.val(), (mp2 - mp - 1) * dsum_nw(c), mv2 - mv);
    }
    let g1 = d.mul(r2.memory_value);
    proof {
        lemma_mul_congruent(d.val(), r2.memory_value.val(), mp2 - mp, mv2);
    }
    let g2 = d.mul(d1);
    proof {
        lemma_mul_congruent(d.val(), d1.val(), mp2 - mp, mp2 - mp - 1);
    }
    g0.is_zero() && g1.is_zero() && g2.is_zero()
}

/// The Memory table's configuration: its three gates.
#[derive(Clone, Copy, Debug, PartialEq, Eq, Structural)]
pub struct MemoryTableConfig {
    pub columns: u64,
}

impl MemoryTableConfig {
    /// Declares the columns and gates.
    pub fn configure() -> (r: MemoryTableConfig)
        ensures
            r.columns == 3,
    {
        MemoryTableConfig { columns: 3 }
    }

    /// The mock prover for this table.
    pub fn check(&self, rows: &Vec<Register>) -> (r: bool)
        ensures
            r == memory_ok(rows@),
    {
        let n = rows.len();
        let mut i: usize = 0;
        while i < n
            invariant
                n == rows@.len(),
                i <= n,
                forall|k: int| 0 <= k < i ==> (#[trigger] rows@[k]).wf(),
                forall|k: int|
                    0 <= k < i && k + 1 < n ==> mem_le(#[trigger] rows@[k], rows@[k + 1]),
                forall|k: int|
                    0 <= k < i && k + 1 < n ==> mem_step_sat(#[trigger] rows@[k], rows@[k + 1]),
            decreases n - i,
        {
            let row = &rows[i];
            if !check_row_wf(row) {
                return false;
            }
            if i + 1 < n {
                let next = &rows[i + 1];
                if !check_row_wf(next) {
                    return false;
                }
                if !mem_le_exec(row, next) {
                    return false;
                }
                if !eval_mem_step(row, next) {
                    return false;
                }
            }
            i = i + 1;
        }
        true
    }
}

/// Adjacent order extends to any two positions.
pub proof fn lemma_mem_sorted_total(rows: Seq<Register>, i: int, j: int)
    requires
        mem_sorted(rows),
        0 <= i <= j < rows.len(),
    ensures
        mem_le(rows[i], rows[j]),
    decreases j - i,
{
    if i < j {
        lemma_mem_sorted_total(rows, i + 1, j);
    }
}

/// The deselector sum of the non-writing opcodes vanishes on a writing one.
proof fn lemma_dsum_nw_write(ci: int)
    requires
        ci == ADD as int || ci == SUB as int || ci == GETCHAR as int,
    ensures
        dsum_nw(ci) == 0,
{
    lemma_deselector_vanishes(SHL as int, ci);
    lemma_deselector_vanishes(SHR as int, ci);
    lemma_deselector_vanishes(LB as int, ci);
    lemma_deselector_vanishes(RB as int, ci);
    lemma_deselector_vanishes(PUTCHAR as int, ci);
}

/// The three memory gates hold between two adjacent rows of any sorted
/// reordering of an honest trace.
proof fn lemma_honest_memory_pair(
    code: Seq<u64>,
    input: Seq<u8>,
    proc: Seq<Register>,
    mem: Seq<Register>,
    t: int,
)
    requires
        is_honest_trace(code, input, proc),
        mem.to_multiset() == proc.to_multiset(),
        mem_sorted(mem),
        mem.len() == proc.len(),
        0 <= t < mem.len() - 1,
    ensures
        mem_step_sat(mem[t], mem[t + 1]),
{
    broadcast use vstd::seq_lib::group_to_multiset_ensures;
    broadcast use vstd::arithmetic::mul::group_mul_basics;

    let nrows = proc.len() as int;
    let r = mem[t];
    let r2 = mem[t + 1];
    assert(mem.contains(r)) by {
        assert(mem[t] == r);
    }
    assert(proc.to_multiset().count(r) > 0);
    assert(proc.contains(r));
    let k = choose|k: int| 0 <= k < proc.len() && proc[k] == r;
    assert(mem.contains(r2)) by {
        assert(mem[t + 1] == r2);
    }
    assert(proc.to_multiset().count(r2) > 0);
    assert(proc.contains(r2));
    let k2 = choose|k2: int| 0 <= k2 < proc.len() && proc[k2] == r2;
    assert(row_matches(code, state_at(code, input, k as nat), k, r));
    assert(row_matches(code, state_at(code, input, k2 as nat), k2, r2));
    let sk = state_at(code, input, k as nat);
    let sk2 = state_at(code, input, k2 as nat);
    let mp = r.memory_pointer.val();
    let mp2 = r2.memory_pointer.val();
    assert(mem_le(r, r2));
    assert(ok_upto(code, input, (proc.len() - 1) as nat));
    // the pointer column advances by zero or one: a bigger jump would skip
    // an address some cycle stood on, and that cycle's row has no place in
    // the order
    if mp2 > mp + 1 {
        assert(ok_upto(code, input, k2 as nat));
        let k3 = lemma_mp_reaches(code, input, k2 as nat, mp + 1);
        let y = proc[k3 as int];
        assert(row_matches(code, state_at(code, input, k3), k3 as int, y));
        assert(y.memory_pointer.val() == mp + 1);
        assert(proc.contains(y)) by {
            assert(proc[k3 as int] == y);
        }
        assert(mem.to_multiset().count(y) > 0);
        assert(mem.contains(y));
        let t3 = choose|t3: int| 0 <= t3 < mem.len() && mem[t3] == y;
        if t3 <= t {
            lemma_mem_sorted_total(mem, t3, t);
            assert(false);
        } else {
            lemma_mem_sorted_total(mem, t + 1, t3);
            assert(false);
        }
    }
    assert(mp2 == mp || mp2 == mp + 1);
    assert(m2(r, r2) == 0);
    if mp2 == mp + 1 {
        // a freshly reached cell: no earlier cycle stood on it, so it
        // still holds zero
        assert forall|t0: nat| t0 < k2 implies (#[trigger] state_at(code, input, t0)).mp != mp2 by {
            if state_at(code, input, t0).mp == mp2 {
                let y = proc[t0 as int];
                assert(row_matches(code, state_at(code, input, t0), t0 as int, y));
                assert(y.memory_pointer.val() == mp2);
                assert(y.cycle.val() == t0);
                assert(proc.contains(y)) by {
                    assert(proc[t0 as int] == y);
                }
                assert(mem.to_multiset().count(y) > 0);
                assert(mem.contains(y));
                let t3 = choose|t3: int| 0 <= t3 < mem.len() && mem[t3] == y;
                if t3 <= t {
                    lemma_mem_sorted_total(mem, t3, t);
                    assert(false);
                } else {
                    lemma_mem_sorted_total(mem, t + 1, t3);
                    assert(false);
                }
            }
        }
        lemma_tape_untouched_zero(code, input, k2 as nat, mp2);
        assert(r2.memory_value.val() == 0);
        assert(m1(r, r2) == 0);
        assert(m0(r, r2) == 0);
    } else {
        assert(m1(r, r2) == 0);
        if k2 == k {
            assert(r == r2);
            assert(m0(r, r2) == 0);
        } else {
            assert(k < k2);
            let ci = r.current_instruction.val();
            assert(!is_halted(code, sk) && fault_of(code, input, sk) is None);
            assert(is_opcode(ci));
            if ci == ADD as int || ci == SUB as int || ci == GETCHAR as int {
                lemma_dsum_nw_write(ci);
                assert(m0(r, r2) == 0);
            } else {
                // the cell is not written at cycle k and no cycle strictly
                // between k and k2 stands on it, so its value carries over
                assert forall|t0: nat|
                    k + 1 <= t0 < k2 implies (#[trigger] state_at(code, input, t0)).mp != mp by {
                    if state_at(code, input, t0).mp == mp {
                        let y = proc[t0 as int];
                        assert(row_matches(code, state_at(code, input, t0), t0 as int, y));
                        assert(y.memory_pointer.val() == mp);
                        assert(y.cycle.val() == t0);
                        assert(proc.contains(y)) by {
                            assert(proc[t0 as int] == y);
                        }
                        assert(mem.to_multiset().count(y) > 0);
                        assert(mem.contains(y));
                        let t3 = choose|t3: int| 0 <= t3 < mem.len() && mem[t3] == y;
                        if t3 <= t {
                            lemma_mem_sorted_total(mem, t3, t);
                            assert(false);
                        } else {
                            lemma_mem_sorted_total(mem, t + 1, t3);
                            assert(false);
                        }
                    }
                }
                assert(state_at(code, input, (k + 1) as nat) == step(code, input, sk));
                assert(step(code, input, sk).tape == sk.tape);
                lemma_tape_stable(code, input, (k + 1) as nat, k2 as nat, mp);
                assert(tape_read(sk2.tape, mp) == tape_read(sk.tape, mp));
                assert(r2.memory_value.val() == r.memory_value.val());
                assert(m0(r, r2) == 0);
            }
        }
    }
}

/// Completeness of the Memory table: any sorted reordering of an honest
/// trace satisfies all three memory gates — memory really behaves like
/// memory on honest runs.
pub proof fn lemma_honest_memory_table(
    code: Seq<u64>,
    input: Seq<u8>,
    proc: Seq<Register>,
    mem: Seq<Register>,
)
    requires
        is_honest_trace(code, input, proc),
        mem.to_multiset() == proc.to_multiset(),
        mem_sorted(mem),
    ensures
        memory_ok(mem),
{
    broadcast use vstd::seq_lib::group_to_multiset_ensures;

    assert(mem.len() == proc.len()) by {
        mem.to_multiset_ensures();
        proc.to_multiset_ensures();
        assert(mem.to_multiset().len() == proc.to_multiset().len());
    }
    assert forall|i: int| 0 <= i < mem.len() implies (#[trigger] mem[i]).wf() by {
        assert(mem.contains(mem[i]));
        assert(proc.to_multiset().count(mem[i]) > 0);
        assert(proc.contains(mem[i]));
        let k = choose|k: int| 0 <= k < proc.len() && proc[k] == mem[i];
        assert(row_matches(code, state_at(code, input, k as nat), k, proc[k]));
    }
    assert forall|i: int| 0 <= i < mem.len() - 1 implies mem_step_sat(
        #[trigger] mem[i],
        mem[i + 1],
    ) by {
        lemma_honest_memory_pair(code, input, proc, mem, i);
    }
}

} // verus!
