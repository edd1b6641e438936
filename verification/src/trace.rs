//! The execution-trace builder: a small machine stepped over the compiled
//! cells, recording one register snapshot per cycle. The snapshot sequence
//! is the Processor matrix; the Memory and Instruction matrices are sorted
//! views of it built in their own modules.
use vstd::prelude::*;
use crate::Error;
use crate::MAX_CODE;
use crate::MAX_TRACE;
use crate::P;
use crate::field::Fe;
use crate::field::inv_p;
use crate::utils::ADD;
use crate::utils::GETCHAR;
use crate::utils::LB;
use crate::utils::PUTCHAR;
use crate::utils::RB;
use crate::utils::SHL;
use crate::utils::SHR;
use crate::utils::SUB;
use crate::utils::is_opcode;
use crate::utils::opcode_check;

verus! {

/// One row of the Processor matrix: the seven register columns.
#[derive(Clone, Copy, Debug, PartialEq, Eq, Structural)]
pub struct Register {
    pub cycle: Fe,
    pub instruction_pointer: Fe,
    pub current_instruction: Fe,
    pub next_instruction: Fe,
    pub memory_pointer: Fe,
    pub memory_value: Fe,
    pub memory_value_inverse: Fe,
}

impl Register {
    /// All seven columns hold reduced field elements.
    pub open spec fn wf(self) -> bool {
        self.cycle.wf() && self.instruction_pointer.wf() && self.current_instruction.wf()
            && self.next_instruction.wf() && self.memory_pointer.wf() && self.memory_value.wf()
            && self.memory_value_inverse.wf()
    }
}

/// One row of the Instruction matrix.
#[derive(Clone, Copy, Debug, PartialEq, Eq, Structural)]
pub struct InstructionRow {
    pub instruction_pointer: Fe,
    pub current_instruction: Fe,
    pub next_instruction: Fe,
}

/// The three matrices a run produces, together with the program cells they
/// were produced from and the bytes the program emitted.
#[derive(Debug)]
pub struct Matrix {
    pub code: Vec<u64>,
    pub processor_matrix: Vec<Register>,
    pub memory_matrix: Vec<Register>,
    pub instruction_matrix: Vec<InstructionRow>,
    pub output: Vec<u8>,
}

/// The mathematical machine state the interpreter realizes.
pub struct MState {
    pub ip: int,
    pub mp: int,
    pub tape: Map<int, u8>,
    pub inp: int,
    pub out: Seq<u8>,
}

/// Tape cells start at zero and exist on demand.
pub open spec fn tape_read(t: Map<int, u8>, i: int) -> u8 {
    if t.dom().contains(i) {
        t[i]
    } else {
        0
    }
}

/// The state every run starts from.
pub open spec fn init_state() -> MState {
    MState { ip: 0, mp: 0, tape: Map::empty(), inp: 0, out: Seq::empty() }
}

/// Execution has left the program.
pub open spec fn is_halted(code: Seq<u64>, s: MState) -> bool {
    !(0 <= s.ip < code.len())
}

/// The instruction cell under the instruction pointer, zero past the end.
pub open spec fn ci_at(code: Seq<u64>, s: MState) -> int {
    if 0 <= s.ip < code.len() {
        code[s.ip] as int
    } else {
        0
    }
}

/// The cell after the instruction pointer, zero past the end: a bracket's
/// partner address, or whatever follows a plain instruction.
pub open spec fn ni_at(code: Seq<u64>, s: MState) -> int {
    if 0 <= s.ip + 1 < code.len() {
        code[s.ip + 1] as int
    } else {
        0
    }
}

/// What stops the machine on a non-halted state, if anything: a cell that
/// is no instruction, a move left of the tape, or a read past the input.
pub open spec fn fault_of(code: Seq<u64>, input: Seq<u8>, s: MState) -> Option<Error> {
    let c = ci_at(code, s);
    if !is_opcode(c) {
        Some(Error::BadInstruction)
    } else if c == SHL as int && s.mp <= 0 {
        Some(Error::PointerUnderflow)
    } else if c == GETCHAR as int && s.inp >= input.len() {
        Some(Error::EndOfInput)
    } else {
        None
    }
}

/// One machine step. Meaningful on non-halted, non-faulting states.
pub open spec fn step(code: Seq<u64>, input: Seq<u8>, s: MState) -> MState {
    let c = ci_at(code, s);
    let mv = tape_read(s.tape, s.mp);
    if c == SHL as int {
        MState { ip: s.ip + 1, mp: s.mp - 1, ..s }
    } else if c == SHR as int {
        MState { ip: s.ip + 1, mp: s.mp + 1, ..s }
    } else if c == ADD as int {
        MState {
            ip: s.ip + 1,
            tape: s.tape.insert(s.mp, if mv == 255 { 0u8 } else { (mv + 1) as u8 }),
            ..s
        }
    } else if c == SUB as int {
        MState {
            ip: s.ip + 1,
            tape: s.tape.insert(s.mp, if mv == 0 { 255u8 } else { (mv - 1) as u8 }),
            ..s
        }
    } else if c == GETCHAR as int {
        MState { ip: s.ip + 1, tape: s.tape.insert(s.mp, input[s.inp]), inp: s.inp + 1, ..s }
    } else if c == PUTCHAR as int {
        MState { ip: s.ip + 1, out: s.out.push(mv), ..s }
    } else if c == LB as int {
        MState { ip: if mv == 0 { ni_at(code, s) } else { s.ip + 2 }, ..s }
    } else if c == RB as int {
        MState { ip: if mv != 0 { ni_at(code, s) } else { s.ip + 2 }, ..s }
    } else {
        s
    }
}

/// The machine state after `n` steps.
pub open spec fn state_at(code: Seq<u64>, input: Seq<u8>, n: nat) -> MState
    decreases n,
{
    if n == 0 {
        init_state()
    } else {
        step(code, input, state_at(code, input, (n - 1) as nat))
    }
}

/// The first `n` steps all run: no step starts halted or faults.
pub open spec fn ok_upto(code: Seq<u64>, input: Seq<u8>, n: nat) -> bool {
    forall|k: nat|
        k < n ==> {
            let s = #[trigger] state_at(code, input, k);
            !is_halted(code, s) && fault_of(code, input, s) is None
        }
}

/// The machine halts cleanly after at most `MAX_TRACE - 1` steps.
pub open spec fn runs_to_halt(code: Seq<u64>, input: Seq<u8>) -> bool {
    exists|n: nat|
        n <= MAX_TRACE - 1 && ok_upto(code, input, n) && is_halted(
            code,
            #[trigger] state_at(code, input, n),
        )
}

/// Row `k` of the Processor matrix is the snapshot of state `s`: the cycle
/// counter, the four program registers, the memory value under the
/// pointer, and its inverse witness.
pub open spec fn row_matches(code: Seq<u64>, s: MState, k: int, r: Register) -> bool {
    &&& r.wf()
    &&& r.cycle.val() == k
    &&& r.instruction_pointer.val() == s.ip
    &&& r.current_instruction.val() == ci_at(code, s)
    &&& r.next_instruction.val() == ni_at(code, s)
    &&& r.memory_pointer.val() == s.mp
    &&& r.memory_value.val() == tape_read(s.tape, s.mp) as int
    &&& r.memory_value_inverse.val() == (if tape_read(s.tape, s.mp) == 0 {
        0int
    } else {
        inv_p(tape_read(s.tape, s.mp) as int)
    })
}

/// The whole Processor matrix is the honest trace of the run: one snapshot
/// per executed cycle and a final halted snapshot.
pub open spec fn is_honest_trace(code: Seq<u64>, input: Seq<u8>, rows: Seq<Register>) -> bool {
    &&& rows.len() >= 1
    &&& rows.len() <= MAX_TRACE
    &&& ok_upto(code, input, (rows.len() - 1) as nat)
    &&& is_halted(code, state_at(code, input, (rows.len() - 1) as nat))
    &&& forall|k: int|
        0 <= k < rows.len() ==> row_matches(
            code,
            state_at(code, input, k as nat),
            k,
            #[trigger] rows[k],
        )
}

/// Runs the program on the input and records the Processor matrix and the
/// emitted bytes. Succeeds exactly when the machine halts cleanly within
/// the trace bound; each error names what stopped it.
pub fn build_processor_matrix(code: &Vec<u64>, input: &Vec<u8>) -> (r: Result<
    (Vec<Register>, Vec<u8>),
    Error,
>)
    requires
        code@.len() <= MAX_CODE,
        forall|k: int| 0 <= k < code@.len() ==> #[trigger] code@[k] < P,
    ensures
        r is Ok <==> runs_to_halt(code@, input@),
        r matches Ok(pair) ==> is_honest_trace(code@, input@, pair.0@) && pair.1@ == state_at(
            code@,
            input@,
            (pair.0@.len() - 1) as nat,
        ).out,
        r matches Err(e) ==> e == Error::TraceTooLong || e == Error::BadInstruction
            || e == Error::PointerUnderflow || e == Error::EndOfInput,
        r == Err::<(Vec<Register>, Vec<u8>), Error>(Error::TraceTooLong) ==> ok_upto(
            code@,
            input@,
            (MAX_TRACE - 1) as nat,
        ) && !is_halted(code@, state_at(code@, input@, (MAX_TRACE - 1) as nat)),
        r matches Err(e) ==> e == Error::TraceTooLong || (exists|n: nat|
            ok_upto(code@, input@, n) && !is_halted(code@, #[trigger] state_at(code@, input@, n))
                && fault_of(code@, input@, state_at(code@, input@, n)) == Some(e)),
{
    let mut rows: Vec<Register> = Vec::new();
    let mut out: Vec<u8> = Vec::new();
    let mut tape: Vec<u8> = Vec::new();
    tape.push(0);
    let mut ip: u64 = 0;
    let mut mp: u64 = 0;
    let mut inp: usize = 0;
    let mut n: u64 = 0;
    loop
        invariant
            code@.len() <= MAX_CODE,
            forall|k: int| 0 <= k < code@.len() ==> #[trigger] code@[k] < P,
            n <= MAX_TRACE - 1,
            rows@.len() == n,
            ok_upto(code@, input@, n as nat),
            forall|k: int|
                0 <= k < n ==> row_matches(
                    code@,
                    state_at(code@, input@, k as nat),
                    k,
                    #[trigger] rows@[k],
                ),
            ip < P,
            ip == state_at(code@, input@, n as nat).ip,
            mp == state_at(code@, input@, n as nat).mp,
            mp <= n,
            mp < tape@.len(),
            tape@.len() <= n + 1,
            inp == state_at(code@, input@, n as nat).inp,
            inp <= input@.len(),
            out@ == state_at(code@, input@, n as nat).out,
            forall|i: int|
                #[trigger] tape_read(state_at(code@, input@, n as nat).tape, i) == (if 0 <= i
                    < tape@.len() {
                    tape@[i]
                } else {
                    0u8
                }),
        decreases MAX_TRACE - n,
    {
        let ghost st = state_at(code@, input@, n as nat);
        let ghost tape0 = tape@;
        let halted = ip >= code.len() as u64;
        let mv = tape[mp as usize];
        let mv_fe = Fe::new(mv as u64);
        let mvi_fe = if mv == 0 {
            Fe::zero()
        } else {
            mv_fe.inv()
        };
        let ci: u64 = if !halted {
            code[ip as usize]
        } else {
            0
        };
        let ni: u64 = if ip + 1 < code.len() as u64 {
            code[(ip + 1) as usize]
        } else {
            0
        };
        let row = Register {
            cycle: Fe::new(n),
            instruction_pointer: Fe::new(ip),
            current_instruction: Fe::new(ci),
            next_instruction: Fe::new(ni),
            memory_pointer: Fe::new(mp),
            memory_value: mv_fe,
            memory_value_inverse: mvi_fe,
        };
        proof {
            assert(row_matches(code@, st, n as int, row));
        }
        if halted {
            rows.push(row);
            return Ok((rows, out));
        }
        if n == MAX_TRACE - 1 {
            return Err(Error::TraceTooLong);
        }
        if !opcode_check(ci) {
            return Err(Error::BadInstruction);
        }
        if ci == SHL as u64 && mp == 0 {
            return Err(Error::PointerUnderflow);
        }
        if ci == GETCHAR as u64 && inp >= input.len() {
            return Err(Error::EndOfInput);
        }
        rows.push(row);
        proof {
            assert(fault_of(code@, input@, st) is None);
            assert(state_at(code@, input@, (n + 1) as nat) == step(code@, input@, st));
        }
        if ci == SHL as u64 {
            mp = mp - 1;
            ip = ip + 1;
        } else if ci == SHR as u64 {
            mp = mp + 1;
            if mp as usize == tape.len() {
                tape.push(0);
            }
            ip = ip + 1;
        } else if ci == ADD as u64 {
            let nv: u8 = if mv == 255 {
                0
            } else {
                mv + 1
            };
            tape.set(mp as usize, nv);
            ip = ip + 1;
        } else if ci == SUB as u64 {
            let nv: u8 = if mv == 0 {
                255
            } else {
                mv - 1
            };
            tape.set(mp as usize, nv);
            ip = ip + 1;
        } else if ci == GETCHAR as u64 {
            tape.set(mp as usize, input[inp]);
            inp = inp + 1;
            ip = ip + 1;
        } else if ci == PUTCHAR as u64 {
            out.push(mv);
            ip = ip + 1;
        } else if ci == LB as u64 {
            if mv == 0 {
                ip = ni;
            } else {
                ip = ip + 2;
            }
        } else {
            if mv != 0 {
                ip = ni;
            } else {
                ip = ip + 2;
            }
        }
        proof {
            let st2 = state_at(code@, input@, (n + 1) as nat);
            assert forall|i: int|
                #[trigger] tape_read(st2.tape, i) == (if 0 <= i < tape@.len() {
                    tape@[i]
                } else {
                    0u8
                }) by {
                assert(tape_read(st.tape, i) == (if 0 <= i < tape0.len() {
                    tape0[i]
                } else {
                    0u8
                }));
            }
        }
        n = n + 1;
    }
}

/// The pointer walks in single steps, so it passes through every value
/// below wherever it stands: some earlier cycle stood exactly at `w`.
pub proof fn lemma_mp_reaches(code: Seq<u64>, input: Seq<u8>, n: nat, w: int) -> (k: nat)
    requires
        ok_upto(code, input, n),
        0 <= w <= state_at(code, input, n).mp,
    ensures
        k <= n,
        state_at(code, input, k).mp == w,
    decreases n,
{
    if state_at(code, input, n).mp == w {
        n
    } else {
        let s = state_at(code, input, (n - 1) as nat);
        assert(state_at(code, input, n) == step(code, input, s));
        assert(state_at(code, input, n).mp <= s.mp + 1);
        assert(ok_upto(code, input, (n - 1) as nat));
        lemma_mp_reaches(code, input, (n - 1) as nat, w)
    }
}

/// A cell no cycle before `n` ever stood on still holds zero at cycle `n`.
pub proof fn lemma_tape_untouched_zero(code: Seq<u64>, input: Seq<u8>, n: nat, c: int)
    requires
        forall|t: nat| t < n ==> (#[trigger] state_at(code, input, t)).mp != c,
    ensures
        tape_read(state_at(code, input, n).tape, c) == 0,
    decreases n,
{
    if n > 0 {
        lemma_tape_untouched_zero(code, input, (n - 1) as nat, c);
        let s = state_at(code, input, (n - 1) as nat);
        assert(s.mp != c);
        assert(state_at(code, input, n) == step(code, input, s));
    }
}

/// A cell no cycle in `[k1, k2)` stands on reads the same at `k2` as at
/// `k1`: writes only happen under the pointer.
pub proof fn lemma_tape_stable(code: Seq<u64>, input: Seq<u8>, k1: nat, k2: nat, c: int)
    requires
        k1 <= k2,
        forall|t: nat| k1 <= t < k2 ==> (#[trigger] state_at(code, input, t)).mp != c,
    ensures
        tape_read(state_at(code, input, k2).tape, c) == tape_read(state_at(code, input, k1).tape, c),
    decreases k2 - k1,
{
    if k2 > k1 {
        lemma_tape_stable(code, input, k1, (k2 - 1) as nat, c);
        let s = state_at(code, input, (k2 - 1) as nat);
        assert(s.mp != c);
        assert(state_at(code, input, k2) == step(code, input, s));
    }
}

} // verus!
