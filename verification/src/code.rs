//! The program front-end: turns source bytes into the flat cell layout the
//! tables work on. Every instruction occupies one cell; a bracket carries a
//! second cell holding its partner's address, which becomes the `ni` column
//! value that the bracket gates jump through. Bytes outside the eight
//! opcodes are comments and are skipped.
use vstd::prelude::*;
use crate::Error;
use crate::MAX_CODE;
use crate::P;
use crate::utils::LB;
use crate::utils::RB;
use crate::utils::is_opcode;
use crate::utils::opcode_check;

verus! {

/// Brackets of the source suffix from `i` are balanced when the scan
/// starts `d` levels deep: the depth never drops below zero and ends at
/// zero. Non-opcode bytes do not take part.
pub open spec fn bal_from(s: Seq<u8>, i: int, d: int) -> bool
    decreases s.len() - i,
{
    if i < 0 || i >= s.len() {
        d == 0
    } else if s[i] == LB {
        bal_from(s, i + 1, d + 1)
    } else if s[i] == RB {
        d > 0 && bal_from(s, i + 1, d - 1)
    } else {
        bal_from(s, i + 1, d)
    }
}

/// The whole source has matched brackets.
pub open spec fn balanced(s: Seq<u8>) -> bool {
    bal_from(s, 0, 0)
}

/// How many cells the suffix of the source from `i` compiles to: two per
/// bracket, one per other opcode, none for comment bytes.
pub open spec fn cells_from(s: Seq<u8>, i: int) -> int
    decreases s.len() - i,
{
    if i < 0 || i >= s.len() {
        0
    } else if s[i] == LB || s[i] == RB {
        2 + cells_from(s, i + 1)
    } else if is_opcode(s[i] as int) {
        1 + cells_from(s, i + 1)
    } else {
        cells_from(s, i + 1)
    }
}

/// The number of cells a source compiles to.
pub open spec fn code_size(s: Seq<u8>) -> int {
    cells_from(s, 0)
}

proof fn lemma_cells_from_nonneg(s: Seq<u8>, i: int)
    ensures
        cells_from(s, i) >= 0,
    decreases s.len() - i,
{
    if 0 <= i < s.len() {
        lemma_cells_from_nonneg(s, i + 1);
    }
}

/// How many cells the instruction starting at `p` occupies.
spec fn width_at(code: Seq<u64>, p: int) -> int {
    if code[p] == LB as u64 || code[p] == RB as u64 {
        2
    } else {
        1
    }
}

/// The `k`th entry of a position chain; quantifiers over chains trigger on
/// this indirection so that an entry mentioned inside a body does not
/// re-instantiate them.
spec fn chain_at(chain: Seq<int>, k: int) -> int {
    chain[k]
}

/// `chain` lists the instruction start positions of `code` in order: they
/// begin at zero, step by each instruction's width, and end exactly at the
/// end of the code.
spec fn chain_ok(code: Seq<u64>, chain: Seq<int>) -> bool {
    &&& (chain.len() == 0 <==> code.len() == 0)
    &&& (chain.len() > 0 ==> chain[0] == 0)
    &&& forall|k: int|
        0 <= k < chain.len() ==> {
            let p = #[trigger] chain_at(chain, k);
            &&& 0 <= p < code.len()
            &&& is_opcode(code[p] as int)
            &&& p + width_at(code, p) == (if k + 1 < chain.len() {
                chain[k + 1]
            } else {
                code.len() as int
            })
        }
}

/// The closed bracket pairs: each `[` cell and its `]` cell point at each
/// other through their operand cells.
spec fn pairs_ok(code: Seq<u64>, pairs: Seq<(int, int)>) -> bool {
    forall|q: int|
        0 <= q < pairs.len() ==> {
            let lb = (#[trigger] pairs[q]).0;
            let rb = pairs[q].1;
            &&& 0 <= lb
            &&& lb + 1 < rb
            &&& rb + 1 < code.len()
            &&& code[lb] == LB as u64
            &&& code[lb + 1] == rb as u64
            &&& code[rb] == RB as u64
            &&& code[rb + 1] == lb as u64
        }
}

/// Every bracket on the chain is accounted for: a `]` belongs to a pair,
/// and a `[` either belongs to a pair or its operand cell still sits on
/// the scan's stack of open brackets.
spec fn brackets_tracked(
    code: Seq<u64>,
    chain: Seq<int>,
    pairs: Seq<(int, int)>,
    stack: Seq<usize>,
) -> bool {
    forall|k: int|
        0 <= k < chain.len() ==> {
            let p = #[trigger] chain[k];
            &&& (code[p] == LB as u64 ==> (exists|q: int|
                0 <= q < pairs.len() && (#[trigger] pairs[q]).0 == p) || (exists|s: int|
                0 <= s < stack.len() && #[trigger] stack[s] == p + 1))
            &&& (code[p] == RB as u64 ==> exists|q: int|
                0 <= q < pairs.len() && (#[trigger] pairs[q]).1 == p)
        }
}

/// Unfolds one step of the wiring check: a position whose local facts
/// hold and whose successor parses is itself well wired.
proof fn lemma_wf_step(code: Seq<u64>, p: int)
    requires
        0 <= p < code.len(),
        is_opcode(code[p] as int),
        code[p] == LB as u64 ==> ({
            let j = code[p + 1] as int;
            &&& p + 1 < code.len()
            &&& p + 1 < j
            &&& j + 1 < code.len()
            &&& code[j] == RB as u64
            &&& code[j + 1] == p
        }),
        code[p] == RB as u64 ==> ({
            let j = code[p + 1] as int;
            &&& p + 1 < code.len()
            &&& 0 <= j < p
            &&& code[j] == LB as u64
            &&& code[j + 1] == p
        }),
        wf_from(code, p + width_at(code, p)),
    ensures
        wf_from(code, p),
{
    reveal(wf_from);
}

/// A parse chain whose brackets are all paired is well wired, from any of
/// its positions to the end.
#[verifier::rlimit(100)]
proof fn lemma_chain_wf(code: Seq<u64>, chain: Seq<int>, pairs: Seq<(int, int)>, k: int)
    requires
        code.len() <= MAX_CODE,
        chain_ok(code, chain),
        pairs_ok(code, pairs),
        brackets_tracked(code, chain, pairs, Seq::empty()),
        0 <= k <= chain.len(),
    ensures
        wf_from(
            code,
            if k < chain.len() {
                chain[k]
            } else {
                code.len() as int
            },
        ),
    decreases chain.len() - k,
{
    if k == chain.len() {
        assert(wf_from(code, code.len() as int)) by {
            reveal(wf_from);
        }
    } else {
        lemma_chain_wf(code, chain, pairs, k + 1);
        let p = chain[k];
        let nxt = if k + 1 < chain.len() {
            chain[k + 1]
        } else {
            code.len() as int
        };
        assert(chain_at(chain, k) == p);
        assert(p + width_at(code, p) == nxt);
        assert(wf_from(code, nxt));
        if code[p] == LB as u64 {
            let q = choose|q: int| 0 <= q < pairs.len() && (#[trigger] pairs[q]).0 == p;
            assert(code[p + 1] == pairs[q].1 as u64);
        } else if code[p] == RB as u64 {
            let q = choose|q: int| 0 <= q < pairs.len() && (#[trigger] pairs[q]).1 == p;
            assert(code[p + 1] == pairs[q].0 as u64);
        }
        lemma_wf_step(code, p);
    }
}

/// One plain instruction extends the parse chain.
proof fn lemma_push_op(
    code0: Seq<u64>,
    code2: Seq<u64>,
    chain0: Seq<int>,
    chain2: Seq<int>,
    pairs: Seq<(int, int)>,
    stack: Seq<usize>,
    c: u64,
)
    requires
        code0.len() + 1 <= MAX_CODE,
        is_opcode(c as int),
        c != LB as u64,
        c != RB as u64,
        code2 == code0.push(c),
        chain2 == chain0.push(code0.len() as int),
        chain_ok(code0, chain0),
        pairs_ok(code0, pairs),
        brackets_tracked(code0, chain0, pairs, stack),
    ensures
        chain_ok(code2, chain2),
        pairs_ok(code2, pairs),
        brackets_tracked(code2, chain2, pairs, stack),
{
    assert forall|k: int| 0 <= k < chain2.len() implies {
        let p = #[trigger] chain_at(chain2, k);
        &&& 0 <= p < code2.len()
        &&& is_opcode(code2[p] as int)
        &&& p + width_at(code2, p) == (if k + 1 < chain2.len() {
            chain2[k + 1]
        } else {
            code2.len() as int
        })
    } by {
        assert(chain_at(chain2, k) == chain2[k]);
        if k < chain0.len() {
            assert(chain_at(chain0, k) == chain0[k]);
            assert(chain0[k] == chain2[k]);
        }
    }
    assert forall|k: int| 0 <= k < chain2.len() implies {
        let p = #[trigger] chain2[k];
        &&& (code2[p] == LB as u64 ==> (exists|q: int|
            0 <= q < pairs.len() && (#[trigger] pairs[q]).0 == p) || (exists|s: int|
            0 <= s < stack.len() && #[trigger] stack[s] == p + 1))
        &&& (code2[p] == RB as u64 ==> exists|q: int|
            0 <= q < pairs.len() && (#[trigger] pairs[q]).1 == p)
    } by {
        let p = chain2[k];
        if k < chain0.len() {
            assert(chain0[k] == p);
            assert(chain_at(chain0, k) == p);
            assert(code2[p] == code0[p]);
        } else {
            assert(p == code0.len() as int);
            assert(code2[p] == c);
        }
    }
}

/// An opening bracket extends the chain and the stack of open brackets.
#[verifier::rlimit(100)]
proof fn lemma_push_lb(
    code0: Seq<u64>,
    code2: Seq<u64>,
    chain0: Seq<int>,
    chain2: Seq<int>,
    pairs: Seq<(int, int)>,
    stack0: Seq<usize>,
    stack2: Seq<usize>,
)
    requires
        code0.len() + 2 <= MAX_CODE,
        code2 == code0.push(LB as u64).push(0u64),
        chain2 == chain0.push(code0.len() as int),
        stack2 == stack0.push((code0.len() + 1) as usize),
        chain_ok(code0, chain0),
        pairs_ok(code0, pairs),
        brackets_tracked(code0, chain0, pairs, stack0),
    ensures
        chain_ok(code2, chain2),
        pairs_ok(code2, pairs),
        brackets_tracked(code2, chain2, pairs, stack2),
{
    assert forall|k: int| 0 <= k < chain2.len() implies {
        let p = #[trigger] chain_at(chain2, k);
        &&& 0 <= p < code2.len()
        &&& is_opcode(code2[p] as int)
        &&& p + width_at(code2, p) == (if k + 1 < chain2.len() {
            chain2[k + 1]
        } else {
            code2.len() as int
        })
    } by {
        assert(chain_at(chain2, k) == chain2[k]);
        if k < chain0.len() {
            assert(chain_at(chain0, k) == chain0[k]);
            assert(chain0[k] == chain2[k]);
        }
    }
    assert forall|k: int| 0 <= k < chain2.len() implies {
        let p = #[trigger] chain2[k];
        &&& (code2[p] == LB as u64 ==> (exists|q: int|
            0 <= q < pairs.len() && (#[trigger] pairs[q]).0 == p) || (exists|s: int|
            0 <= s < stack2.len() && #[trigger] stack2[s] == p + 1))
        &&& (code2[p] == RB as u64 ==> exists|q: int|
            0 <= q < pairs.len() && (#[trigger] pairs[q]).1 == p)
    } by {
        let p = chain2[k];
        if k < chain0.len() {
            assert(chain0[k] == p);
            assert(chain_at(chain0, k) == p);
            assert(code2[p] == code0[p]);
            if code0[p] == LB as u64 && !(exists|q: int|
                0 <= q < pairs.len() && (#[trigger] pairs[q]).0 == p) {
                let s0 = choose|s0: int|
                    0 <= s0 < stack0.len() && #[trigger] stack0[s0] == p + 1;
                assert(stack2[s0] == p + 1);
            }
        } else {
            assert(p == code0.len() as int);
            assert(stack2[stack2.len() - 1] == p + 1);
        }
    }
}

/// A closing bracket extends the chain, closes the most recent open
/// bracket into a pair, and writes the two operand cells.
#[verifier::rlimit(100)]
proof fn lemma_push_rb(
    code0: Seq<u64>,
    code2: Seq<u64>,
    chain0: Seq<int>,
    chain2: Seq<int>,
    pairs0: Seq<(int, int)>,
    pairs2: Seq<(int, int)>,
    stack0: Seq<usize>,
    stack2: Seq<usize>,
    a: usize,
)
    requires
        code0.len() + 2 <= MAX_CODE,
        stack0.len() > 0,
        a == stack0.last(),
        forall|k: int| 0 <= k < stack0.len() ==> 1 <= #[trigger] stack0[k] < code0.len(),
        1 <= a < code0.len(),
        code0[a as int] == 0,
        code0[a - 1] == LB as u64,
        code2 == code0.push(RB as u64).push((a - 1) as u64).update(a as int, code0.len() as u64),
        chain2 == chain0.push(code0.len() as int),
        pairs2 == pairs0.push((a - 1, code0.len() as int)),
        stack2 == stack0.drop_last(),
        forall|k1: int, k2: int|
            0 <= k1 < k2 < stack0.len() ==> #[trigger] stack0[k1] < #[trigger] stack0[k2],
        forall|k: int|
            0 <= k < stack0.len() ==> code0[#[trigger] stack0[k] as int] == 0 && code0[stack0[k]
                - 1] == LB as u64,
        chain_ok(code0, chain0),
        pairs_ok(code0, pairs0),
        brackets_tracked(code0, chain0, pairs0, stack0),
    ensures
        chain_ok(code2, chain2),
        pairs_ok(code2, pairs2),
        brackets_tracked(code2, chain2, pairs2, stack2),
        forall|k: int|
            0 <= k < stack2.len() ==> code2[#[trigger] stack2[k] as int] == 0 && code2[stack2[k]
                - 1] == LB as u64,
{
    let n0 = code0.len() as int;
    // the overwritten operand cell belongs to the bracket being closed, so
    // no other constrained cell moves
    assert(code2[a - 1] == LB as u64);
    assert(code2[a as int] == n0 as u64);
    assert(code2[n0] == RB as u64);
    assert(code2[n0 + 1] == (a - 1) as u64);
    assert forall|q: int| 0 <= q < pairs2.len() implies {
        let lb = (#[trigger] pairs2[q]).0;
        let rb = pairs2[q].1;
        &&& 0 <= lb
        &&& lb + 1 < rb
        &&& rb + 1 < code2.len()
        &&& code2[lb] == LB as u64
        &&& code2[lb + 1] == rb as u64
        &&& code2[rb] == RB as u64
        &&& code2[rb + 1] == lb as u64
    } by {
        if q < pairs0.len() {
            let lb = pairs0[q].0;
            let rb = pairs0[q].1;
            assert(code0[lb] == LB as u64 && code0[lb + 1] == rb as u64 && code0[rb] == RB as u64
                && code0[rb + 1] == lb as u64);
            assert(lb != a as int);
            assert(rb != a as int);
            assert(rb + 1 != a as int) by {
                if rb + 1 == a as int {
                    assert(code0[a - 1] == RB as u64);
                }
            }
            assert(lb + 1 != a as int) by {
                if lb + 1 == a as int {
                    assert(code0[a as int] == rb as u64);
                    assert(rb >= lb + 2 >= 2);
                }
            }
        }
    }
    assert forall|k: int| 0 <= k < chain2.len() implies {
        let p = #[trigger] chain_at(chain2, k);
        &&& 0 <= p < code2.len()
        &&& is_opcode(code2[p] as int)
        &&& p + width_at(code2, p) == (if k + 1 < chain2.len() {
            chain2[k + 1]
        } else {
            code2.len() as int
        })
    } by {
        assert(chain_at(chain2, k) == chain2[k]);
        if k < chain0.len() {
            let p = chain0[k];
            assert(chain_at(chain0, k) == p);
            assert(chain2[k] == p);
            if p == a as int {
                assert(code0[p] == 0);
                assert(!is_opcode(0));
                assert(false);
            }
            assert(code2[p] == code0[p]);
        }
    }
    assert forall|k: int| 0 <= k < chain2.len() implies {
        let p = #[trigger] chain2[k];
        &&& (code2[p] == LB as u64 ==> (exists|q: int|
            0 <= q < pairs2.len() && (#[trigger] pairs2[q]).0 == p) || (exists|s: int|
            0 <= s < stack2.len() && #[trigger] stack2[s] == p + 1))
        &&& (code2[p] == RB as u64 ==> exists|q: int|
            0 <= q < pairs2.len() && (#[trigger] pairs2[q]).1 == p)
    } by {
        let p = chain2[k];
        if k < chain0.len() {
            assert(chain0[k] == p);
            assert(chain_at(chain0, k) == p);
            assert(p != a as int) by {
                if p == a as int {
                    assert(is_opcode(code0[p] as int));
                }
            }
            assert(code2[p] == code0[p]);
            if code0[p] == LB as u64 {
                if exists|q: int| 0 <= q < pairs0.len() && (#[trigger] pairs0[q]).0 == p {
                    let q0 = choose|q0: int|
                        0 <= q0 < pairs0.len() && (#[trigger] pairs0[q0]).0 == p;
                    assert(pairs2[q0].0 == p);
                } else {
                    let s0 = choose|s0: int|
                        0 <= s0 < stack0.len() && #[trigger] stack0[s0] == p + 1;
                    if s0 == stack0.len() - 1 {
                        assert(p == a - 1);
                        assert(pairs2[pairs2.len() - 1].0 == p);
                    } else {
                        assert(stack2[s0] == p + 1);
                    }
                }
            }
            if code0[p] == RB as u64 {
                let q0 = choose|q0: int|
                    0 <= q0 < pairs0.len() && (#[trigger] pairs0[q0]).1 == p;
                assert(pairs2[q0].1 == p);
            }
        } else {
            assert(p == n0);
            assert(pairs2[pairs2.len() - 1].1 == p);
        }
    }
    assert forall|k: int|
        0 <= k < stack2.len() implies code2[#[trigger] stack2[k] as int] == 0 && code2[stack2[k]
            - 1] == LB as u64 by {
        assert(stack2[k] == stack0[k]);
        assert(stack0[k] < stack0[stack0.len() - 1]);
    }
}

/// Compiles source bytes into cells, resolving each bracket's partner
/// address into the cell after it. Succeeds exactly on sources whose
/// brackets match and whose cell count fits `MAX_CODE`; the result's cells
/// are all reduced field elements.
#[verifier::rlimit(100)]
pub fn compile(src: &Vec<u8>) -> (r: Result<Vec<u64>, Error>)
    ensures
        r is Ok <==> balanced(src@) && code_size(src@) <= MAX_CODE,
        r matches Ok(code) ==> code@.len() <= MAX_CODE && wf_code(code@) && (forall|k: int|
            0 <= k < code@.len() ==> #[trigger] code@[k] < P),
        r matches Err(e) ==> e == Error::UnmatchedBracket || e == Error::ProgramTooLong,
        r == Err::<Vec<u64>, Error>(Error::UnmatchedBracket) ==> !balanced(src@),
        r == Err::<Vec<u64>, Error>(Error::ProgramTooLong) ==> code_size(src@) > MAX_CODE,
{
    let mut code: Vec<u64> = Vec::new();
    let mut stack: Vec<usize> = Vec::new();
    let ghost mut chain: Seq<int> = Seq::empty();
    let ghost mut pairs: Seq<(int, int)> = Seq::empty();
    let mut j: usize = 0;
    while j < src.len()
        invariant
            j <= src@.len(),
            stack@.len() <= code@.len(),
            code@.len() <= MAX_CODE,
            balanced(src@) <==> bal_from(src@, j as int, stack@.len() as int),
            code_size(src@) == code@.len() + cells_from(src@, j as int),
            forall|k: int| 0 <= k < stack@.len() ==> 1 <= #[trigger] stack@[k] < code@.len(),
            forall|k: int|
                0 <= k < stack@.len() ==> code@[#[trigger] stack@[k] as int] == 0
                    && code@[stack@[k] - 1] == LB as u64,
            forall|k1: int, k2: int|
                0 <= k1 < k2 < stack@.len() ==> #[trigger] stack@[k1] < #[trigger] stack@[k2],
            chain_ok(code@, chain),
            pairs_ok(code@, pairs),
            brackets_tracked(code@, chain, pairs, stack@),
            forall|k: int| 0 <= k < code@.len() ==> #[trigger] code@[k] < P,
        decreases src@.len() - j,
    {
        let c = src[j];
        proof {
            lemma_cells_from_nonneg(src@, j + 1);
        }
        let ghost code0 = code@;
        if c == LB {
            if code.len() + 2 > MAX_CODE as usize {
                return Err(Error::ProgramTooLong);
            }
            let ghost stack0 = stack@;
            code.push(c as u64);
            stack.push(code.len());
            code.push(0);
            proof {
                let chain0 = chain;
                chain = chain.push(code0.len() as int);
                lemma_push_lb(code0, code@, chain0, chain, pairs, stack0, stack@);
            }
        } else if c == RB {
            if code.len() + 2 > MAX_CODE as usize {
                return Err(Error::ProgramTooLong);
            }
            let ghost stack0 = stack@;
            match stack.pop() {
                Some(a) => {
                    code.push(c as u64);
                    // the partner cells point at each other
                    let here = code.len() - 1;
                    code.push((a - 1) as u64);
                    code.set(a, here as u64);
                    proof {
                        let chain0 = chain;
                        let pairs0 = pairs;
                        chain = chain.push(code0.len() as int);
                        pairs = pairs.push((a - 1, code0.len() as int));
                        assert(code@ == code0.push(RB as u64).push((a - 1) as u64).update(
                            a as int,
                            code0.len() as u64,
                        ));
                        lemma_push_rb(
                            code0,
                            code@,
                            chain0,
                            chain,
                            pairs0,
                            pairs,
                            stack0,
                            stack@,
                            a,
                        );
                    }
                },
                None => {
                    return Err(Error::UnmatchedBracket);
                },
            }
        } else if opcode_check(c as u64) {
            if code.len() + 1 > MAX_CODE as usize {
                return Err(Error::ProgramTooLong);
            }
            code.push(c as u64);
            proof {
                let chain0 = chain;
                chain = chain.push(code0.len() as int);
                lemma_push_op(code0, code@, chain0, chain, pairs, stack@, c as u64);
            }
        }
        j = j + 1;
    }
    if stack.len() > 0 {
        return Err(Error::UnmatchedBracket);
    }
    proof {
        assert(brackets_tracked(code@, chain, pairs, Seq::empty()));
        lemma_chain_wf(code@, chain, pairs, 0);
    }
    Ok(code)
}

/// The cell array parses as instructions: every instruction cell holds an
/// opcode, every bracket carries an operand cell, and each bracket's
/// operand points at a bracket cell of the opposite kind whose own operand
/// points straight back — `[` forward at its `]`, `]` backward at its `[`.
#[verifier::opaque]
pub open spec fn wf_from(code: Seq<u64>, i: int) -> bool
    decreases code.len() - i,
{
    if i < 0 || i >= code.len() {
        true
    } else {
        let c = code[i];
        if c == LB as u64 {
            &&& i + 1 < code.len()
            &&& {
                let j = code[i + 1] as int;
                &&& i + 1 < j
                &&& j + 1 < code.len()
                &&& code[j] == RB as u64
                &&& code[j + 1] == i
                &&& wf_from(code, i + 2)
            }
        } else if c == RB as u64 {
            &&& i + 1 < code.len()
            &&& {
                let j = code[i + 1] as int;
                &&& 0 <= j < i
                &&& code[j] == LB as u64
                &&& code[j + 1] == i
                &&& wf_from(code, i + 2)
            }
        } else {
            is_opcode(c as int) && wf_from(code, i + 1)
        }
    }
}

/// The whole cell array is well wired.
pub open spec fn wf_code(code: Seq<u64>) -> bool {
    wf_from(code, 0)
}

/// Checks the bracket wiring of a cell array.
pub fn check_code(code: &Vec<u64>) -> (r: bool)
    ensures
        r == wf_code(code@),
{
    let n = code.len();
    let mut i: usize = 0;
    while i < n
        invariant
            n == code@.len(),
            i <= n,
            wf_code(code@) <==> wf_from(code@, i as int),
        decreases n - i,
    {
        proof {
            reveal(wf_from);
        }
        let c = code[i];
        if c == LB as u64 {
            if i + 1 >= n {
                return false;
            }
            let j = code[i + 1];
            if j >= n as u64 {
                return false;
            }
            if !(i as u64 + 1 < j && j + 1 < n as u64 && code[j as usize] == RB as u64
                && code[(j + 1) as usize] == i as u64) {
                return false;
            }
            i = i + 2;
        } else if c == RB as u64 {
            if i + 1 >= n {
                return false;
            }
            let j = code[i + 1];
            if !(j < i as u64 && code[j as usize] == LB as u64 && code[(j + 1) as usize]
                == i as u64) {
                return false;
            }
            i = i + 2;
        } else {
            if !opcode_check(c) {
                return false;
            }
            i = i + 1;
        }
    }
    proof {
        reveal(wf_from);
    }
    true
}

} // verus!
