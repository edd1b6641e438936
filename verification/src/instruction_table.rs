//! The Instruction table: one row per program address (the code view,
//! address `|code|` included with zero cells) glued to one row per executed
//! cycle (the trace view), sorted by address. Its gates force every row of
//! an address run to carry the same instruction and successor, so a trace
//! row can only repeat what the program says.
use vstd::prelude::*;
use crate::MAX_CODE;
use crate::P;
use crate::field::Fe;
use crate::math::lemma_mul_congruent;
use crate::math::lemma_sub_congruent;
use crate::processor_table::gate_sat;
use crate::linkage::count_ir;
use crate::linkage::ir_included;
use crate::linkage::lemma_count_ir_multiset;
use crate::trace::InstructionRow;
use crate::trace::Register;
use crate::trace::ci_at;
use crate::trace::is_honest_trace;
use crate::trace::ni_at;
use crate::trace::row_matches;
use crate::trace::state_at;

verus! {

/// The code view: for every address `i` of the program, the cell there and
/// the cell after it; the one-past-the-end address carries zeroes.
pub open spec fn code_rows(code: Seq<u64>) -> Seq<InstructionRow> {
    Seq::new(
        (code.len() + 1) as nat,
        |i: int|
            InstructionRow {
                instruction_pointer: Fe { v: i as u64 },
                current_instruction: Fe {
                    v: if i < code.len() {
                        code[i]
                    } else {
                        0
                    },
                },
                next_instruction: Fe {
                    v: if i + 1 < code.len() {
                        code[i + 1]
                    } else {
                        0
                    },
                },
            },
    )
}

/// The trace view: the `(ip, ci, ni)` columns of the Processor matrix.
pub open spec fn trace_rows(rows: Seq<Register>) -> Seq<InstructionRow> {
    Seq::new(
        rows.len(),
        |k: int|
            InstructionRow {
                instruction_pointer: rows[k].instruction_pointer,
                current_instruction: rows[k].current_instruction,
                next_instruction: rows[k].next_instruction,
            },
    )
}

impl InstructionRow {
    /// All three columns hold reduced field elements.
    pub open spec fn wf(self) -> bool {
        self.instruction_pointer.wf() && self.current_instruction.wf()
            && self.next_instruction.wf()
    }
}

/// The Instruction table's order: by address.
pub open spec fn ir_le(a: InstructionRow, b: InstructionRow) -> bool {
    a.instruction_pointer.val() <= b.instruction_pointer.val()
}

/// Adjacent rows are ordered by address.
pub open spec fn ir_sorted(rows: Seq<InstructionRow>) -> bool {
    forall|i: int| 0 <= i < rows.len() - 1 ==> ir_le(#[trigger] rows[i], rows[i + 1])
}

fn ir_le_exec(a: &InstructionRow, b: &InstructionRow) -> (r: bool)
    ensures
        r == ir_le(*a, *b),
{
    a.instruction_pointer.v <= b.instruction_pointer.v
}

/// Instruction gate: within a run of equal addresses, the instruction
/// column is constant.
pub open spec fn i0(r: InstructionRow, r2: InstructionRow) -> int {
    (r2.instruction_pointer.val() - r.instruction_pointer.val() - 1) * (
    r2.current_instruction.val() - r.current_instruction.val())
}

/// Instruction gate: within a run of equal addresses, the successor column
/// is constant.
pub open spec fn i1(r: InstructionRow, r2: InstructionRow) -> int {
    (r2.instruction_pointer.val() - r.instruction_pointer.val() - 1) * (
    r2.next_instruction.val() - r.next_instruction.val())
}

/// Instruction gate: the address column advances by zero or one.
pub open spec fn i2(r: InstructionRow, r2: InstructionRow) -> int {
    let d = r2.instruction_pointer.val() - r.instruction_pointer.val();
    d * (d - 1)
}

/// All three instruction gates vanish between two adjacent rows.
pub open spec fn ir_step_sat(r: InstructionRow, r2: InstructionRow) -> bool {
    gate_sat(i0(r, r2)) && gate_sat(i1(r, r2)) && gate_sat(i2(r, r2))
}

/// The whole Instruction table is satisfied.
pub open spec fn instruction_ok(rows: Seq<InstructionRow>) -> bool {
    &&& forall|i: int| 0 <= i < rows.len() ==> (#[trigger] rows[i]).wf()
    &&& ir_sorted(rows)
    &&& forall|i: int| 0 <= i < rows.len() - 1 ==> ir_step_sat(#[trigger] rows[i], rows[i + 1])
}

/// Sorts instruction rows by address: the result is a reordering.
fn sort_ir(rows: &Vec<InstructionRow>) -> (r: Vec<InstructionRow>)
    ensures
        r@.to_multiset() == rows@.to_multiset(),
        ir_sorted(r@),
        r@.len() == rows@.len(),
{
    broadcast use vstd::seq_lib::group_to_multiset_ensures;

    let mut work: Vec<InstructionRow> = Vec::new();
    let mut i: usize = 0;
    while i < rows.len()
        invariant
            i <= rows@.len(),
            work@ == rows@.subrange(0, i as int),
        decreases rows@.len() - i,
    {
        work.push(rows[i]);
        proof {
            assert(work@ =~= rows@.subrange(0, i + 1));
        }
        i = i + 1;
    }
    proof {
        assert(work@ =~= rows@);
    }
    let mut out: Vec<InstructionRow> = Vec::new();
    while work.len() > 0
        invariant
            out@.to_multiset().add(work@.to_multiset()) =~= rows@.to_multiset(),
            out@.len() + work@.len() == rows@.len(),
            ir_sorted(out@),
            forall|k: int, j: int|
                0 <= k < out@.len() && 0 <= j < work@.len() ==> ir_le(
                    #[trigger] out@[k],
                    #[trigger] work@[j],
                ),
        decreases work@.len(),
    {
        let mut m: usize = 0;
        let mut j: usize = 1;
        while j < work.len()
            invariant
                m < j <= work@.len(),
                work@.len() > 0,
                forall|k: int| 0 <= k < j ==> ir_le(work@[m as int], #[trigger] work@[k]),
            decreases work@.len() - j,
        {
            if ir_le_exec(&work[j], &work[m]) {
                m = j;
            }
            j = j + 1;
        }
        let ghost work0 = work@;
        let ghost out0 = out@;
        let x = work.remove(m);
        out.push(x);
        proof {
            work0.to_multiset_ensures();
            out0.to_multiset_ensures();
            assert(work0.contains(work0[m as int]));
            assert(work0.to_multiset().count(x) > 0);
            assert(work@ == work0.remove(m as int));
            assert(work@.to_multiset() =~= work0.to_multiset().remove(x));
            assert(out@.to_multiset() =~= out0.to_multiset().insert(x));
            assert(out@.to_multiset().add(work@.to_multiset()) =~= rows@.to_multiset());
            assert forall|k: int, j2: int|
                0 <= k < out@.len() && 0 <= j2 < work@.len() implies ir_le(
                #[trigger] out@[k],
                #[trigger] work@[j2],
            ) by {
                assert(work@[j2] == (if j2 < m { work0[j2] } else { work0[j2 + 1] }));
            }
        }
    }
    out
}

/// Builds the Instruction matrix: the code view and the trace view of the
/// run, merged and sorted by address.
pub fn build_instruction_matrix(code: &Vec<u64>, processor: &Vec<Register>) -> (r: Vec<
    InstructionRow,
>)
    requires
        code@.len() <= MAX_CODE,
        forall|k: int| 0 <= k < code@.len() ==> #[trigger] code@[k] < P,
    ensures
        r@.to_multiset() == (code_rows(code@) + trace_rows(processor@)).to_multiset(),
        ir_sorted(r@),
        r@.len() == code@.len() + 1 + processor@.len(),
{
    let mut merged: Vec<InstructionRow> = Vec::new();
    let mut i: usize = 0;
    while i <= code.len()
        invariant
            code@.len() <= MAX_CODE,
            forall|k: int| 0 <= k < code@.len() ==> #[trigger] code@[k] < P,
            i <= code@.len() + 1,
            merged@ == code_rows(code@).subrange(0, i as int),
        decreases code@.len() + 1 - i,
    {
        let ci: u64 = if i < code.len() {
            code[i]
        } else {
            0
        };
        let ni: u64 = if i + 1 < code.len() {
            code[i + 1]
        } else {
            0
        };
        merged.push(
            InstructionRow {
                instruction_pointer: Fe::new(i as u64),
                current_instruction: Fe::new(ci),
                next_instruction: Fe::new(ni),
            },
        );
        proof {
            assert(merged@ =~= code_rows(code@).subrange(0, i + 1));
        }
        i = i + 1;
    }
    proof {
        assert(merged@ =~= code_rows(code@));
    }
    let mut k: usize = 0;
    while k < processor.len()
        invariant
            k <= processor@.len(),
            merged@ == code_rows(code@) + trace_rows(processor@).subrange(0, k as int),
        decreases processor@.len() - k,
    {
        let row = &processor[k];
        merged.push(
            InstructionRow {
                instruction_pointer: row.instruction_pointer,
                current_instruction: row.current_instruction,
                next_instruction: row.next_instruction,
            },
        );
        proof {
            assert(merged@ =~= code_rows(code@) + trace_rows(processor@).subrange(0, k + 1));
        }
        k = k + 1;
    }
    proof {
        assert(merged@ =~= code_rows(code@) + trace_rows(processor@));
    }
    sort_ir(&merged)
}

fn check_ir_wf(r: &InstructionRow) -> (b: bool)
    ensures
        b == r.wf(),
{
    r.instruction_pointer.is_reduced() && r.current_instruction.is_reduced()
        && r.next_instruction.is_reduced()
}

/// Evaluates the three instruction gates.
fn eval_ir_step(r: &InstructionRow, r2: &InstructionRow) -> (b: bool)
    requires
        r.wf(),
        r2.wf(),
    ensures
        b == ir_step_sat(*r, *r2),
{
    let ghost ip = r.instruction_pointer.val();
    let ghost ip2 = r2.instruction_pointer.val();
    let d = r2.instruction_pointer.sub(r.instruction_pointer);
    let d1 = d.sub(Fe::one());
    proof {
        lemma_sub_congruent(d.val(), 1, ip2 - ip, 1);
    }
    let cdiff = r2.current_instruction.sub(r.current_instruction);
    let ndiff = r2.next_instruction.sub(r.next_instruction);
    let g0 = d1.mul(cdiff);
    let g1 = d1.mul(ndiff);
    let g2 = d.mul(d1);
    proof {
        lemma_mul_congruent(
            d1.val(),
            cdiff.val(),
            ip2 - ip - 1,
            r2.current_instruction.val() - r.current_instruction.val(),
        );
        lemma_mul_congruent(
            d1.val(),
            ndiff.val(),
            ip2 - ip - 1,
            r2.next_instruction.val() - r.next_instruction.val(),
        );
        lemma_mul_congruent(d.val(), d1.val(), ip2 - ip, ip2 - ip - 1);
    }
    g0.is_zero() && g1.is_zero() && g2.is_zero()
}

/// Every program address's code row appears in the table: the table is
/// bound to the compiled program, not merely internally consistent.
pub open spec fn code_view_present(rows: Seq<InstructionRow>, code: Seq<u64>) -> bool {
    forall|i: int| 0 <= i <= code.len() ==> rows.contains(#[trigger] code_rows(code)[i])
}

/// The Instruction table's configuration: its gates and its binding to the
/// program.
#[derive(Clone, Copy, Debug, PartialEq, Eq, Structural)]
pub struct InstructionTableConfig {
    pub columns: u64,
}

impl InstructionTableConfig {
    /// Declares the columns and gates.
    pub fn configure() -> (r: InstructionTableConfig)
        ensures
            r.columns == 3,
    {
        InstructionTableConfig { columns: 3 }
    }

    /// The mock prover for this table's gates and order.
    pub fn check(&self, rows: &Vec<InstructionRow>) -> (r: bool)
        ensures
            r == instruction_ok(rows@),
    {
        let n = rows.len();
        let mut i: usize = 0;
        while i < n
            invariant
                n == rows@.len(),
                i <= n,
                forall|k: int| 0 <= k < i ==> (#[trigger] rows@[k]).wf(),
                forall|k: int| 0 <= k < i && k + 1 < n ==> ir_le(#[trigger] rows@[k], rows@[k + 1]),
                forall|k: int|
                    0 <= k < i && k + 1 < n ==> ir_step_sat(#[trigger] rows@[k], rows@[k + 1]),
            decreases n - i,
        {
            let row = &rows[i];
            if !check_ir_wf(row) {
                return false;
            }
            if i + 1 < n {
                let next = &rows[i + 1];
                if !check_ir_wf(next) {
                    return false;
                }
                if !ir_le_exec(row, next) {
                    return false;
                }
                if !eval_ir_step(row, next) {
                    return false;
                }
            }
            i = i + 1;
        }
        true
    }

    /// Checks the binding to the program: every address's code row is in
    /// the table.
    pub fn check_code_view(&self, rows: &Vec<InstructionRow>, code: &Vec<u64>) -> (r: bool)
        requires
            code@.len() <= MAX_CODE,
            forall|k: int| 0 <= k < code@.len() ==> #[trigger] code@[k] < P,
        ensures
            r == code_view_present(rows@, code@),
    {
        let mut i: usize = 0;
        while i <= code.len()
            invariant
                code@.len() <= MAX_CODE,
                forall|k: int| 0 <= k < code@.len() ==> #[trigger] code@[k] < P,
                i <= code@.len() + 1,
                forall|k: int| 0 <= k < i ==> rows@.contains(#[trigger] code_rows(code@)[k]),
            decreases code@.len() + 1 - i,
        {
            let ci: u64 = if i < code.len() {
                code[i]
            } else {
                0
            };
            let ni: u64 = if i + 1 < code.len() {
                code[i + 1]
            } else {
                0
            };
            let want = InstructionRow {
                instruction_pointer: Fe::new(i as u64),
                current_instruction: Fe::new(ci),
                next_instruction: Fe::new(ni),
            };
            proof {
                assert(want == code_rows(code@)[i as int]);
            }
            let mut found = false;
            let mut j: usize = 0;
            while j < rows.len()
                invariant
                    j <= rows@.len(),
                    found ==> rows@.contains(want),
                    !found ==> forall|t: int| 0 <= t < j ==> rows@[t] != want,
                decreases rows@.len() - j,
            {
                if rows[j].instruction_pointer.v == want.instruction_pointer.v
                    && rows[j].current_instruction.v == want.current_instruction.v
                    && rows[j].next_instruction.v == want.next_instruction.v {
                    found = true;
                    proof {
                        assert(rows@[j as int] == want);
                    }
                }
                j = j + 1;
            }
            if !found {
                return false;
            }
            i = i + 1;
        }
        true
    }
}

/// Adjacent order extends to any two positions.
pub proof fn lemma_ir_sorted_total(rows: Seq<InstructionRow>, i: int, j: int)
    requires
        ir_sorted(rows),
        0 <= i <= j < rows.len(),
    ensures
        ir_le(rows[i], rows[j]),
    decreases j - i,
{
    if i < j {
        lemma_ir_sorted_total(rows, i + 1, j);
    }
}

/// Every row of a table built from the code and an honest trace whose
/// addresses stay within one past the program is itself a code-view row:
/// the one for its own address.
proof fn lemma_table_rows_are_code_rows(
    code: Seq<u64>,
    input: Seq<u8>,
    proc: Seq<Register>,
    table: Seq<InstructionRow>,
    t: int,
)
    requires
        is_honest_trace(code, input, proc),
        code.len() <= MAX_CODE,
        forall|k: int| 0 <= k < code.len() ==> #[trigger] code[k] < P,
        forall|k: int|
            0 <= k < proc.len() ==> (#[trigger] proc[k]).instruction_pointer.val() <= code.len(),
        table.to_multiset() == (code_rows(code) + trace_rows(proc)).to_multiset(),
        0 <= t < table.len(),
    ensures
        ({
            let v = table[t].instruction_pointer.val();
            0 <= v <= code.len() && table[t] == code_rows(code)[v]
        }),
{
    broadcast use vstd::seq_lib::group_to_multiset_ensures;

    let merged = code_rows(code) + trace_rows(proc);
    assert(table.contains(table[t]));
    assert(table.to_multiset().count(table[t]) > 0);
    assert(merged.to_multiset().count(table[t]) > 0);
    assert(merged.contains(table[t]));
    let u = choose|u: int| 0 <= u < merged.len() && merged[u] == table[t];
    if u < code.len() + 1 {
        assert(merged[u] == code_rows(code)[u]);
        assert(code_rows(code)[u].instruction_pointer == Fe { v: u as u64 });
    } else {
        let k = u - (code.len() + 1);
        assert(merged[u] == trace_rows(proc)[k]);
        let r = proc[k];
        assert(row_matches(code, state_at(code, input, k as nat), k, r));
        let s = state_at(code, input, k as nat);
        let v = r.instruction_pointer.val();
        assert(v == s.ip);
        assert(0 <= v <= code.len());
        assert(r.current_instruction.val() == ci_at(code, s));
        assert(r.next_instruction.val() == ni_at(code, s));
        let cr = code_rows(code)[v];
        assert(cr.instruction_pointer.val() == v);
        assert(cr.current_instruction.val() == ci_at(code, s));
        assert(cr.next_instruction.val() == ni_at(code, s));
        assert(r.instruction_pointer == cr.instruction_pointer);
        assert(r.current_instruction == cr.current_instruction);
        assert(r.next_instruction == cr.next_instruction);
        assert(trace_rows(proc)[k] == cr);
    }
}

/// Completeness of the Instruction table: on an honest run whose addresses
/// stay within one past the program, the built table satisfies its gates,
/// includes every trace row, and carries the whole code view.
pub proof fn lemma_honest_instruction_table(
    code: Seq<u64>,
    input: Seq<u8>,
    proc: Seq<Register>,
    table: Seq<InstructionRow>,
)
    requires
        is_honest_trace(code, input, proc),
        code.len() <= MAX_CODE,
        forall|k: int| 0 <= k < code.len() ==> #[trigger] code[k] < P,
        forall|k: int|
            0 <= k < proc.len() ==> (#[trigger] proc[k]).instruction_pointer.val() <= code.len(),
        table.to_multiset() == (code_rows(code) + trace_rows(proc)).to_multiset(),
        ir_sorted(table),
    ensures
        instruction_ok(table),
        ir_included(trace_rows(proc), table),
        code_view_present(table, code),
{
    broadcast use vstd::seq_lib::group_to_multiset_ensures;
    broadcast use vstd::multiset::group_multiset_axioms;

    let merged = code_rows(code) + trace_rows(proc);
    // every row is the code row of its own address
    assert forall|t: int| 0 <= t < table.len() implies {
        let v = (#[trigger] table[t]).instruction_pointer.val();
        0 <= v <= code.len() && table[t] == code_rows(code)[v]
    } by {
        lemma_table_rows_are_code_rows(code, input, proc, table, t);
    }
    // well-formed cells
    assert forall|t: int| 0 <= t < table.len() implies (#[trigger] table[t]).wf() by {
        let v = table[t].instruction_pointer.val();
        assert(table[t] == code_rows(code)[v]);
    }
    // the code view is present: each code row is in the merged multiset
    assert forall|i: int| 0 <= i <= code.len() implies table.contains(
        #[trigger] code_rows(code)[i],
    ) by {
        assert(merged[i] == code_rows(code)[i]);
        assert(merged.contains(code_rows(code)[i]));
        assert(merged.to_multiset().count(code_rows(code)[i]) > 0);
        assert(table.to_multiset().count(code_rows(code)[i]) > 0);
    }
    // the gates: adjacent rows are code rows at addresses that differ by
    // zero or one, since every address in between is present in the table
    assert forall|t: int| 0 <= t < table.len() - 1 implies ir_step_sat(
        #[trigger] table[t],
        table[t + 1],
    ) by {
        let v = table[t].instruction_pointer.val();
        let v2 = table[t + 1].instruction_pointer.val();
        assert(table[t] == code_rows(code)[v]);
        assert(table[t + 1] == code_rows(code)[v2]);
        assert(ir_le(table[t], table[t + 1]));
        if v2 > v + 1 {
            // the code row for address v + 1 sits somewhere; order leaves
            // it no place
            assert(table.contains(code_rows(code)[v + 1]));
            let t2 = choose|t2: int| 0 <= t2 < table.len() && table[t2] == code_rows(code)[v + 1];
            assert(table[t2].instruction_pointer.val() == v + 1);
            if t2 <= t {
                lemma_ir_sorted_total(table, t2, t);
                assert(false);
            } else {
                lemma_ir_sorted_total(table, t + 1, t2);
                assert(false);
            }
        }
        if v2 == v {
            assert(table[t] == table[t + 1]);
            assert(i0(table[t], table[t + 1]) == (v2 - v - 1) * 0);
            assert(i1(table[t], table[t + 1]) == (v2 - v - 1) * 0);
            assert(i2(table[t], table[t + 1]) == 0);
        } else {
            assert(v2 == v + 1);
            assert(i0(table[t], table[t + 1]) == 0 * (table[t + 1].current_instruction.val()
                - table[t].current_instruction.val()));
            assert(i1(table[t], table[t + 1]) == 0 * (table[t + 1].next_instruction.val()
                - table[t].next_instruction.val()));
            assert(i2(table[t], table[t + 1]) == 1 * 0);
        }
    }
    // inclusion: the table holds every trace row at least as often
    assert forall|k: int| 0 <= k < trace_rows(proc).len() implies count_ir(
        trace_rows(proc),
        #[trigger] trace_rows(proc)[k],
    ) <= count_ir(table, trace_rows(proc)[k]) by {
        let x = trace_rows(proc)[k];
        lemma_count_ir_multiset(trace_rows(proc), x);
        lemma_count_ir_multiset(table, x);
        vstd::seq_lib::lemma_multiset_commutative(code_rows(code), trace_rows(proc));
        assert(table.to_multiset().count(x) == code_rows(code).to_multiset().count(x)
            + trace_rows(proc).to_multiset().count(x));
    }
}

} // verus!
