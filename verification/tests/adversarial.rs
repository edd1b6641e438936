use bf_prover::code::compile;
use bf_prover::field::Fe;
use bf_prover::linkage::grand_product;
use bf_prover::main_config::{execute, MainConfig, MyCircuit};
use bf_prover::trace::Matrix;

fn honest_matrix(src: &[u8], input: &[u8]) -> Matrix {
    let code = compile(&src.to_vec()).expect("program must compile");
    execute(&code, &input.to_vec()).expect("program must run")
}

#[test]
fn test_tampered_memory_value_fails() {
    let mut matrix = honest_matrix(b"++>+<", b"");
    matrix.processor_matrix[3].memory_value = Fe::new(7);
    let circuit = MyCircuit::new(matrix);
    assert!(!circuit.mock_prove());
}

#[test]
fn test_tampered_clock_fails() {
    let mut matrix = honest_matrix(b"++>+<", b"");
    let clk = matrix.processor_matrix[2].cycle.v;
    matrix.processor_matrix[2].cycle = Fe::new(clk + 1);
    let circuit = MyCircuit::new(matrix);
    assert!(!circuit.mock_prove());
}

#[test]
fn test_tampered_instruction_pointer_fails() {
    let mut matrix = honest_matrix(b"+[-]", b"");
    // pretend the loop was skipped
    matrix.processor_matrix[1].instruction_pointer = Fe::new(6);
    let circuit = MyCircuit::new(matrix);
    assert!(!circuit.mock_prove());
}

#[test]
fn test_tampered_inverse_witness_fails() {
    let mut matrix = honest_matrix(b"+[-]", b"");
    // claim the cell is zero while it holds one
    matrix.processor_matrix[1].memory_value_inverse = Fe::new(0);
    let circuit = MyCircuit::new(matrix);
    assert!(!circuit.mock_prove());
}

#[test]
fn test_out_of_range_memory_value_fails() {
    let mut matrix = honest_matrix(b"+", b"");
    matrix.processor_matrix[1].memory_value = Fe::new(300);
    let circuit = MyCircuit::new(matrix);
    assert!(!circuit.mock_prove());
}

#[test]
fn test_tampered_memory_table_fails() {
    let mut matrix = honest_matrix(b"++>+<", b"");
    // replace one Memory-table entry with a value absent from the Processor
    matrix.memory_matrix[2].memory_value = Fe::new(9);
    let circuit = MyCircuit::new(matrix);
    assert!(!circuit.mock_prove());
}

#[test]
fn test_tampered_instruction_table_fails() {
    let mut matrix = honest_matrix(b"++>+<", b"");
    // rewrite the program's first instruction in the code view only
    for row in matrix.instruction_matrix.iter_mut() {
        if row.instruction_pointer.v == 0 {
            row.current_instruction = Fe::new(45);
        }
    }
    let circuit = MyCircuit::new(matrix);
    assert!(!circuit.mock_prove());
}

#[test]
fn test_dropped_processor_row_fails() {
    let mut matrix = honest_matrix(b"++>+<", b"");
    matrix.processor_matrix.remove(3);
    let circuit = MyCircuit::new(matrix);
    assert!(!circuit.mock_prove());
}

#[test]
fn test_unreduced_cell_fails() {
    let mut matrix = honest_matrix(b"+", b"");
    matrix.processor_matrix[0].memory_value_inverse = Fe { v: 70000 };
    let circuit = MyCircuit::new(matrix);
    assert!(!circuit.mock_prove());
}

#[test]
fn test_grand_products_agree_on_honest_tables() {
    let matrix = honest_matrix(b"++>+<", b"");
    let (a, b, c, d) = (Fe::new(17), Fe::new(3001), Fe::new(451), Fe::new(60000));
    let gp_processor = grand_product(&matrix.processor_matrix, a, b, c, d);
    let gp_memory = grand_product(&matrix.memory_matrix, a, b, c, d);
    assert_eq!(gp_processor.v, gp_memory.v);
}

#[test]
fn test_grand_products_expose_tampering() {
    let mut matrix = honest_matrix(b"++>+<", b"");
    let (a, b, c, d) = (Fe::new(17), Fe::new(3001), Fe::new(451), Fe::new(60000));
    let gp_processor = grand_product(&matrix.processor_matrix, a, b, c, d);
    matrix.memory_matrix[2].memory_value = Fe::new(9);
    let gp_memory = grand_product(&matrix.memory_matrix, a, b, c, d);
    assert_ne!(gp_processor.v, gp_memory.v);
}

#[test]
fn test_main_config_accepts_honest_run() {
    let matrix = honest_matrix(b",+.", b"A");
    let config = MainConfig::configure();
    assert!(config.check(&matrix));
}
