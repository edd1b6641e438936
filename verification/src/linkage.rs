//! Table linkage: the multiset arguments binding the Processor table to
//! the Memory and Instruction tables, and the random-linear-combination
//! grand product that a proving backend would accumulate for them. The
//! mock prover checks the multiset facts exactly; the grand products give
//! the probabilistic form a verifier sees.
use vstd::prelude::*;
use vstd::multiset::Multiset;
use crate::P;
use crate::field::Fe;
use crate::math::lemma_add_congruent;
use crate::math::lemma_mul_congruent;
use crate::trace::InstructionRow;
use crate::trace::Register;

verus! {

/// How often `x` occurs in `s`.
pub open spec fn count_reg(s: Seq<Register>, x: Register) -> nat
    decreases s.len(),
{
    if s.len() == 0 {
        0
    } else {
        count_reg(s.drop_last(), x) + (if s.last() == x {
            1nat
        } else {
            0nat
        })
    }
}

/// The recursive count agrees with the multiset count.
pub proof fn lemma_count_reg_multiset(s: Seq<Register>, x: Register)
    ensures
        count_reg(s, x) == s.to_multiset().count(x),
    decreases s.len(),
{
    broadcast use vstd::seq_lib::group_to_multiset_ensures;

    if s.len() == 0 {
        assert(s.to_multiset() =~= Multiset::empty());
    } else {
        lemma_count_reg_multiset(s.drop_last(), x);
        assert(s =~= s.drop_last().push(s.last()));
        assert(s.to_multiset() =~= s.drop_last().to_multiset().insert(s.last()));
    }
}

/// Structural equality of two rows.
fn reg_eq(a: &Register, b: &Register) -> (r: bool)
    ensures
        r == (*a == *b),
{
    a.cycle.v == b.cycle.v && a.instruction_pointer.v == b.instruction_pointer.v
        && a.current_instruction.v == b.current_instruction.v && a.next_instruction.v
        == b.next_instruction.v && a.memory_pointer.v == b.memory_pointer.v && a.memory_value.v
        == b.memory_value.v && a.memory_value_inverse.v == b.memory_value_inverse.v
}

/// Counts the occurrences of `x` in `v`.
fn count_reg_exec(v: &Vec<Register>, x: &Register) -> (r: usize)
    ensures
        r == count_reg(v@, *x),
{
    let mut r: usize = 0;
    let mut i: usize = 0;
    while i < v.len()
        invariant
            i <= v@.len(),
            r == count_reg(v@.subrange(0, i as int), *x),
            r <= i,
        decreases v@.len() - i,
    {
        if reg_eq(&v[i], x) {
            r = r + 1;
        }
        proof {
            assert(v@.subrange(0, i + 1).drop_last() =~= v@.subrange(0, i as int));
        }
        i = i + 1;
    }
    proof {
        assert(v@.subrange(0, v@.len() as int) =~= v@);
    }
    r
}

/// The Processor-to-Memory permutation argument, checked exactly: are the
/// two tables equal as multisets of rows?
pub fn check_permutation(a: &Vec<Register>, b: &Vec<Register>) -> (r: bool)
    ensures
        r == (a@.to_multiset() == b@.to_multiset()),
{
    if a.len() != b.len() {
        proof {
            broadcast use vstd::seq_lib::group_to_multiset_ensures;

            if a@.to_multiset() == b@.to_multiset() {
                assert(a@.to_multiset().len() == b@.to_multiset().len());
            }
        }
        return false;
    }
    let mut i: usize = 0;
    while i < a.len()
        invariant
            i <= a@.len(),
            a@.len() == b@.len(),
            forall|k: int|
                0 <= k < i ==> count_reg(a@, #[trigger] a@[k]) == count_reg(b@, a@[k]),
        decreases a@.len() - i,
    {
        let ca = count_reg_exec(a, &a[i]);
        let cb = count_reg_exec(b, &a[i]);
        if ca != cb {
            proof {
                lemma_count_reg_multiset(a@, a@[i as int]);
                lemma_count_reg_multiset(b@, a@[i as int]);
            }
            return false;
        }
        i = i + 1;
    }
    let mut j: usize = 0;
    while j < b.len()
        invariant
            j <= b@.len(),
            a@.len() == b@.len(),
            forall|k: int|
                0 <= k < a@.len() ==> count_reg(a@, #[trigger] a@[k]) == count_reg(b@, a@[k]),
            forall|k: int|
                0 <= k < j ==> count_reg(a@, #[trigger] b@[k]) == count_reg(b@, b@[k]),
        decreases b@.len() - j,
    {
        let ca = count_reg_exec(a, &b[j]);
        let cb = count_reg_exec(b, &b[j]);
        if ca != cb {
            proof {
                lemma_count_reg_multiset(a@, b@[j as int]);
                lemma_count_reg_multiset(b@, b@[j as int]);
            }
            return false;
        }
        j = j + 1;
    }
    proof {
        broadcast use vstd::seq_lib::group_to_multiset_ensures;

        assert forall|x: Register| a@.to_multiset().count(x) == b@.to_multiset().count(x) by {
            lemma_count_reg_multiset(a@, x);
            lemma_count_reg_multiset(b@, x);
            if a@.to_multiset().count(x) > 0 {
                assert(a@.contains(x));
                let k = choose|k: int| 0 <= k < a@.len() && a@[k] == x;
                assert(count_reg(a@, a@[k]) == count_reg(b@, a@[k]));
            } else if b@.to_multiset().count(x) > 0 {
                assert(b@.contains(x));
                let k = choose|k: int| 0 <= k < b@.len() && b@[k] == x;
                assert(count_reg(a@, b@[k]) == count_reg(b@, b@[k]));
            }
        }
        assert(a@.to_multiset() =~= b@.to_multiset());
    }
    true
}

/// How often `x` occurs in `s`.
pub open spec fn count_ir(s: Seq<InstructionRow>, x: InstructionRow) -> nat
    decreases s.len(),
{
    if s.len() == 0 {
        0
    } else {
        count_ir(s.drop_last(), x) + (if s.last() == x {
            1nat
        } else {
            0nat
        })
    }
}

/// The recursive count agrees with the multiset count.
pub proof fn lemma_count_ir_multiset(s: Seq<InstructionRow>, x: InstructionRow)
    ensures
        count_ir(s, x) == s.to_multiset().count(x),
    decreases s.len(),
{
    broadcast use vstd::seq_lib::group_to_multiset_ensures;

    if s.len() == 0 {
        assert(s.to_multiset() =~= Multiset::empty());
    } else {
        lemma_count_ir_multiset(s.drop_last(), x);
        assert(s =~= s.drop_last().push(s.last()));
        assert(s.to_multiset() =~= s.drop_last().to_multiset().insert(s.last()));
    }
}

/// Every row of `a` occurs in `b` at least as often as in `a`: `a` is a
/// sub-multiset of `b`.
pub open spec fn ir_included(a: Seq<InstructionRow>, b: Seq<InstructionRow>) -> bool {
    forall|k: int| 0 <= k < a.len() ==> count_ir(a, #[trigger] a[k]) <= count_ir(b, a[k])
}

fn ir_eq(a: &InstructionRow, b: &InstructionRow) -> (r: bool)
    ensures
        r == (*a == *b),
{
    a.instruction_pointer.v == b.instruction_pointer.v && a.current_instruction.v
        == b.current_instruction.v && a.next_instruction.v == b.next_instruction.v
}

/// Counts the occurrences of `x` in `v`.
fn count_ir_exec(v: &Vec<InstructionRow>, x: &InstructionRow) -> (r: usize)
    ensures
        r == count_ir(v@, *x),
{
    let mut r: usize = 0;
    let mut i: usize = 0;
    while i < v.len()
        invariant
            i <= v@.len(),
            r == count_ir(v@.subrange(0, i as int), *x),
            r <= i,
        decreases v@.len() - i,
    {
        if ir_eq(&v[i], x) {
            r = r + 1;
        }
        proof {
            assert(v@.subrange(0, i + 1).drop_last() =~= v@.subrange(0, i as int));
        }
        i = i + 1;
    }
    proof {
        assert(v@.subrange(0, v@.len() as int) =~= v@);
    }
    r
}

/// The Processor-to-Instruction lookup argument, checked exactly: does
/// every trace row occur in the Instruction table at least as often?
pub fn check_inclusion(a: &Vec<InstructionRow>, b: &Vec<InstructionRow>) -> (r: bool)
    ensures
        r == ir_included(a@, b@),
{
    let mut i: usize = 0;
    while i < a.len()
        invariant
            i <= a@.len(),
            forall|k: int|
                0 <= k < i ==> count_ir(a@, #[trigger] a@[k]) <= count_ir(b@, a@[k]),
        decreases a@.len() - i,
    {
        let ca = count_ir_exec(a, &a[i]);
        let cb = count_ir_exec(b, &a[i]);
        if ca > cb {
            return false;
        }
        i = i + 1;
    }
    true
}

/// The random linear combination a grand-product argument condenses a row
/// to: `alpha + beta * clk + gamma * mp + delta * mv`.
pub open spec fn rlc(r: Register, alpha: int, beta: int, gamma: int, delta: int) -> int {
    alpha + beta * r.cycle.val() + gamma * r.memory_pointer.val() + delta * r.memory_value.val()
}

/// The running product of the condensed rows before index `i`.
pub open spec fn grand_upto(
    rows: Seq<Register>,
    i: int,
    alpha: int,
    beta: int,
    gamma: int,
    delta: int,
) -> int
    decreases i,
{
    if i <= 0 {
        1
    } else {
        grand_upto(rows, i - 1, alpha, beta, gamma, delta) * rlc(
            rows[i - 1],
            alpha,
            beta,
            gamma,
            delta,
        )
    }
}

/// The grand product of the whole table under the given challenges.
pub open spec fn grand_product_spec(
    rows: Seq<Register>,
    alpha: int,
    beta: int,
    gamma: int,
    delta: int,
) -> int {
    grand_upto(rows, rows.len() as int, alpha, beta, gamma, delta)
}

/// Accumulates the grand product of the `(clk, mp, mv)` columns under the
/// challenges, in the field.
pub fn grand_product(rows: &Vec<Register>, alpha: Fe, beta: Fe, gamma: Fe, delta: Fe) -> (v: Fe)
    requires
        alpha.wf(),
        beta.wf(),
        gamma.wf(),
        delta.wf(),
        forall|k: int| 0 <= k < rows@.len() ==> (#[trigger] rows@[k]).wf(),
    ensures
        v.wf(),
        v.val() == grand_product_spec(rows@, alpha.val(), beta.val(), gamma.val(), delta.val()) % (
        P as int),
{
    let ghost al = alpha.val();
    let ghost be = beta.val();
    let ghost ga = gamma.val();
    let ghost de = delta.val();
    let mut acc = Fe::one();
    let mut i: usize = 0;
    while i < rows.len()
        invariant
            i <= rows@.len(),
            alpha.wf() && beta.wf() && gamma.wf() && delta.wf(),
            al == alpha.val() && be == beta.val() && ga == gamma.val() && de == delta.val(),
            forall|k: int| 0 <= k < rows@.len() ==> (#[trigger] rows@[k]).wf(),
            acc.wf(),
            acc.val() == grand_upto(rows@, i as int, al, be, ga, de) % (P as int),
        decreases rows@.len() - i,
    {
        let row = &rows[i];
        let ghost clk = row.cycle.val();
        let ghost mp = row.memory_pointer.val();
        let ghost mv = row.memory_value.val();
        let t_clk = beta.mul(row.cycle);
        let t_mp = gamma.mul(row.memory_pointer);
        let t_mv = delta.mul(row.memory_value);
        let s1 = alpha.add(t_clk);
        let s2 = s1.add(t_mp);
        let s3 = s2.add(t_mv);
        proof {
            lemma_add_congruent(alpha.val(), t_clk.val(), al, be * clk);
            lemma_add_congruent(s1.val(), t_mp.val(), al + be * clk, ga * mp);
            lemma_add_congruent(s2.val(), t_mv.val(), al + be * clk + ga * mp, de * mv);
            assert(s3.val() == rlc(rows@[i as int], al, be, ga, de) % (P as int));
        }
        let ghost acc0 = acc;
        acc = acc.mul(s3);
        proof {
            lemma_mul_congruent(
                acc0.val(),
                s3.val(),
                grand_upto(rows@, i as int, al, be, ga, de),
                rlc(rows@[i as int], al, be, ga, de),
            );
        }
        i = i + 1;
    }
    acc
}

proof fn lemma_grand_agree(
    s1: Seq<Register>,
    s2: Seq<Register>,
    m: int,
    alpha: int,
    beta: int,
    gamma: int,
    delta: int,
)
    requires
        0 <= m <= s1.len(),
        m <= s2.len(),
        forall|k: int| 0 <= k < m ==> s1[k] == s2[k],
    ensures
        grand_upto(s1, m, alpha, beta, gamma, delta) == grand_upto(s2, m, alpha, beta, gamma, delta),
    decreases m,
{
    if m > 0 {
        lemma_grand_agree(s1, s2, m - 1, alpha, beta, gamma, delta);
    }
}

proof fn lemma_grand_remove(
    s: Seq<Register>,
    j: int,
    alpha: int,
    beta: int,
    gamma: int,
    delta: int,
)
    requires
        0 <= j < s.len(),
    ensures
        grand_upto(s, s.len() as int, alpha, beta, gamma, delta) == grand_upto(
            s.remove(j),
            s.len() - 1,
            alpha,
            beta,
            gamma,
            delta,
        ) * rlc(s[j], alpha, beta, gamma, delta),
    decreases s.len(),
{
    let n = s.len() as int;
    if j == n - 1 {
        lemma_grand_agree(s, s.remove(j), n - 1, alpha, beta, gamma, delta);
    } else {
        let sd = s.drop_last();
        assert(sd.remove(j) =~= s.remove(j).drop_last());
        lemma_grand_remove(sd, j, alpha, beta, gamma, delta);
        lemma_grand_agree(s, sd, n - 1, alpha, beta, gamma, delta);
        lemma_grand_agree(s.remove(j), s.remove(j).drop_last(), n - 2, alpha, beta, gamma, delta);
        assert(s.remove(j)[n - 2] == s[n - 1]);
        let x = grand_upto(sd.remove(j), n - 2, alpha, beta, gamma, delta);
        let fj = rlc(s[j], alpha, beta, gamma, delta);
        let fl = rlc(s[n - 1], alpha, beta, gamma, delta);
        assert(grand_upto(s, n, alpha, beta, gamma, delta) == (x * fj) * fl);
        assert(grand_upto(s.remove(j), n - 1, alpha, beta, gamma, delta) == x * fl);
        assert((x * fj) * fl == (x * fl) * fj) by (nonlinear_arith);
    }
}

/// Completeness of the permutation argument: two tables that are equal as
/// multisets of rows accumulate the same grand product, whatever the
/// challenges are. A backend comparing the two running products therefore
/// accepts every honest Memory table.
pub proof fn lemma_grand_product_permutation(
    s1: Seq<Register>,
    s2: Seq<Register>,
    alpha: int,
    beta: int,
    gamma: int,
    delta: int,
)
    requires
        s1.to_multiset() == s2.to_multiset(),
    ensures
        grand_product_spec(s1, alpha, beta, gamma, delta) == grand_product_spec(
            s2,
            alpha,
            beta,
            gamma,
            delta,
        ),
    decreases s1.len(),
{
    broadcast use vstd::seq_lib::group_to_multiset_ensures;

    if s1.len() == 0 {
        assert(s2.to_multiset().len() == 0);
    } else {
        let n1 = s1.len() as int;
        let x = s1.last();
        assert(s1.contains(x));
        assert(s1.to_multiset().count(x) > 0);
        assert(s2.to_multiset().count(x) > 0);
        assert(s2.contains(x));
        let j = choose|j: int| 0 <= j < s2.len() && s2[j] == x;
        assert(s1 =~= s1.drop_last().push(x));
        assert(s1.to_multiset() =~= s1.drop_last().to_multiset().insert(x));
        assert(s2.remove(j).to_multiset() =~= s2.to_multiset().remove(x));
        assert(s1.drop_last().to_multiset() =~= s2.remove(j).to_multiset());
        lemma_grand_product_permutation(s1.drop_last(), s2.remove(j), alpha, beta, gamma, delta);
        lemma_grand_remove(s2, j, alpha, beta, gamma, delta);
        lemma_grand_agree(s1, s1.drop_last(), n1 - 1, alpha, beta, gamma, delta);
    }
}

} // verus!
