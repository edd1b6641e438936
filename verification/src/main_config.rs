//! The whole constraint system: the three tables and the linkage between
//! them, and the circuit that runs a program and offers its matrices to
//! the mock prover.
use vstd::prelude::*;
use crate::Error;
use crate::MAX_CODE;
use crate::P;
use crate::instruction_table::InstructionTableConfig;
use crate::instruction_table::code_view_present;
use crate::instruction_table::instruction_ok;
use crate::instruction_table::trace_rows;
use crate::instruction_table::build_instruction_matrix;
use crate::linkage::check_inclusion;
use crate::linkage::check_permutation;
use crate::linkage::ir_included;
use crate::memory_table::MemoryTableConfig;
use crate::memory_table::memory_ok;
use crate::memory_table::sort_rows;
use crate::processor_table::ProcessorTableConfig;
use crate::processor_table::processor_ok;
use crate::trace::InstructionRow;
use crate::trace::Matrix;
use crate::trace::Register;
use crate::trace::build_processor_matrix;
use crate::trace::is_honest_trace;
use crate::trace::runs_to_halt;
use crate::trace::state_at;
use crate::utils::R;

verus! {

/// The program cells are usable as table input: bounded in number and all
/// reduced field elements.
pub open spec fn code_ok(code: Seq<u64>) -> bool {
    code.len() <= MAX_CODE && forall|k: int| 0 <= k < code.len() ==> #[trigger] code[k] < P
}

/// The whole constraint system is satisfied on the matrices: each table's
/// own gates hold, the Memory table is a permutation of the Processor
/// table, every Processor `(ip, ci, ni)` triple appears in the Instruction
/// table, and the Instruction table carries the program's code view.
pub open spec fn main_ok(m: Matrix) -> bool {
    &&& code_ok(m.code@)
    &&& processor_ok(m.processor_matrix@)
    &&& memory_ok(m.memory_matrix@)
    &&& instruction_ok(m.instruction_matrix@)
    &&& m.processor_matrix@.to_multiset() == m.memory_matrix@.to_multiset()
    &&& ir_included(trace_rows(m.processor_matrix@), m.instruction_matrix@)
    &&& code_view_present(m.instruction_matrix@, m.code@)
}

/// The three table configurations together.
#[derive(Clone, Copy, Debug, PartialEq, Eq, Structural)]
pub struct MainConfig {
    pub p_config: ProcessorTableConfig,
    pub m_config: MemoryTableConfig,
    pub i_config: InstructionTableConfig,
}

impl MainConfig {
    /// Declares every column, gate, lookup and linkage.
    pub fn configure() -> (r: MainConfig)
        ensures
            r.p_config.lookup_table.range == R,
    {
        MainConfig {
            p_config: ProcessorTableConfig::configure(),
            m_config: MemoryTableConfig::configure(),
            i_config: InstructionTableConfig::configure(),
        }
    }

    /// The mock prover: accepts exactly the matrices on which the whole
    /// constraint system is satisfied.
    pub fn check(&self, m: &Matrix) -> (r: bool)
        requires
            self.p_config.lookup_table.range == R,
        ensures
            r == main_ok(*m),
    {
        if m.code.len() > MAX_CODE as usize {
            return false;
        }
        let mut k: usize = 0;
        while k < m.code.len()
            invariant
                k <= m.code@.len(),
                forall|t: int| 0 <= t < k ==> #[trigger] m.code@[t] < P,
            decreases m.code@.len() - k,
        {
            if m.code[k] >= P {
                return false;
            }
            k = k + 1;
        }
        if !self.p_config.check(&m.processor_matrix) {
            return false;
        }
        if !self.m_config.check(&m.memory_matrix) {
            return false;
        }
        if !self.i_config.check(&m.instruction_matrix) {
            return false;
        }
        if !check_permutation(&m.processor_matrix, &m.memory_matrix) {
            return false;
        }
        let mut trace_view: Vec<InstructionRow> = Vec::new();
        let mut i: usize = 0;
        while i < m.processor_matrix.len()
            invariant
                i <= m.processor_matrix@.len(),
                trace_view@ == trace_rows(m.processor_matrix@).subrange(0, i as int),
            decreases m.processor_matrix@.len() - i,
        {
            let row = &m.processor_matrix[i];
            trace_view.push(
                InstructionRow {
                    instruction_pointer: row.instruction_pointer,
                    current_instruction: row.current_instruction,
                    next_instruction: row.next_instruction,
                },
            );
            proof {
                assert(trace_view@ =~= trace_rows(m.processor_matrix@).subrange(0, i + 1));
            }
            i = i + 1;
        }
        proof {
            assert(trace_view@ =~= trace_rows(m.processor_matrix@));
        }
        if !check_inclusion(&trace_view, &m.instruction_matrix) {
            return false;
        }
        self.i_config.check_code_view(&m.instruction_matrix, &m.code)
    }
}

/// Runs a compiled program on an input and assembles all three matrices.
/// Succeeds exactly when the machine halts cleanly within the trace bound;
/// the Processor matrix is the honest trace, the Memory matrix is its
/// reordering by `(mp, clk)`, the Instruction matrix merges the code and
/// trace views, and `output` is what the program emitted.
pub fn execute(code: &Vec<u64>, input: &Vec<u8>) -> (r: Result<Matrix, Error>)
    requires
        code_ok(code@),
    ensures
        r is Ok <==> runs_to_halt(code@, input@),
        r matches Ok(m) ==> {
            &&& m.code@ == code@
            &&& is_honest_trace(code@, input@, m.processor_matrix@)
            &&& m.memory_matrix@.to_multiset() == m.processor_matrix@.to_multiset()
            &&& crate::memory_table::mem_sorted(m.memory_matrix@)
            &&& m.instruction_matrix@.to_multiset() == (crate::instruction_table::code_rows(code@)
                + trace_rows(m.processor_matrix@)).to_multiset()
            &&& crate::instruction_table::ir_sorted(m.instruction_matrix@)
            &&& m.output@ == state_at(code@, input@, (m.processor_matrix@.len() - 1) as nat).out
        },
{
    let (processor, output) = match build_processor_matrix(code, input) {
        Ok(pair) => pair,
        Err(e) => {
            return Err(e);
        },
    };
    let memory = sort_rows(&processor);
    let instruction = build_instruction_matrix(code, &processor);
    let mut code_copy: Vec<u64> = Vec::new();
    let mut i: usize = 0;
    while i < code.len()
        invariant
            i <= code@.len(),
            code_copy@ == code@.subrange(0, i as int),
        decreases code@.len() - i,
    {
        code_copy.push(code[i]);
        proof {
            assert(code_copy@ =~= code@.subrange(0, i + 1));
        }
        i = i + 1;
    }
    proof {
        assert(code_copy@ =~= code@);
    }
    Ok(
        Matrix {
            code: code_copy,
            processor_matrix: processor,
            memory_matrix: memory,
            instruction_matrix: instruction,
            output,
        },
    )
}

/// On any satisfied matrix, a grand-product argument over the Processor
/// and Memory tables accumulates the same product under every choice of
/// challenges: the permutation linkage is invisible to the backend's
/// running products.
pub proof fn lemma_linkage_products_agree(
    m: Matrix,
    alpha: int,
    beta: int,
    gamma: int,
    delta: int,
)
    requires
        main_ok(m),
    ensures
        crate::linkage::grand_product_spec(m.processor_matrix@, alpha, beta, gamma, delta)
            == crate::linkage::grand_product_spec(m.memory_matrix@, alpha, beta, gamma, delta),
{
    crate::linkage::lemma_grand_product_permutation(
        m.processor_matrix@,
        m.memory_matrix@,
        alpha,
        beta,
        gamma,
        delta,
    );
}

/// The circuit: a run's matrices, ready for the prover.
pub struct MyCircuit {
    pub matrix: Matrix,
}

impl MyCircuit {
    /// Wraps a run's matrices as a circuit instance.
    pub fn new(matrix: Matrix) -> (r: MyCircuit)
        ensures
            r.matrix == matrix,
    {
        MyCircuit { matrix }
    }

    /// The mock prover's verdict on this instance: satisfied or not.
    pub fn mock_prove(&self) -> (r: bool)
        ensures
            r == main_ok(self.matrix),
    {
        let config = MainConfig::configure();
        config.check(&self.matrix)
    }
}

/// Soundness of step, completeness over the whole system: the matrices of
/// an honest run satisfy every table and both linkage arguments, provided
/// every address the run visits stays within one past the program (which
/// holds whenever the compiled jump targets point into the program). The
/// mock prover therefore accepts everything `execute` produces for such
/// programs.
pub proof fn lemma_honest_matrix_satisfies(input: Seq<u8>, m: Matrix)
    requires
        code_ok(m.code@),
        is_honest_trace(m.code@, input, m.processor_matrix@),
        m.memory_matrix@.to_multiset() == m.processor_matrix@.to_multiset(),
        crate::memory_table::mem_sorted(m.memory_matrix@),
        m.instruction_matrix@.to_multiset() == (crate::instruction_table::code_rows(m.code@)
            + trace_rows(m.processor_matrix@)).to_multiset(),
        crate::instruction_table::ir_sorted(m.instruction_matrix@),
        forall|k: int|
            0 <= k < m.processor_matrix@.len()
                ==> (#[trigger] m.processor_matrix@[k]).instruction_pointer.val()
                <= m.code@.len(),
    ensures
        main_ok(m),
{
    crate::processor_table::lemma_honest_trace_satisfies(m.code@, input, m.processor_matrix@);
    crate::memory_table::lemma_honest_memory_table(
        m.code@,
        input,
        m.processor_matrix@,
        m.memory_matrix@,
    );
    crate::instruction_table::lemma_honest_instruction_table(
        m.code@,
        input,
        m.processor_matrix@,
        m.instruction_matrix@,
    );
}

} // verus!
