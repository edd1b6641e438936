use bf_prover::code::{check_code, compile};
use bf_prover::main_config::{execute, MyCircuit};
use bf_prover::Error;

fn prove(src: &[u8], input: &[u8]) -> MyCircuit {
    let code = compile(&src.to_vec()).expect("program must compile");
    let matrix = execute(&code, &input.to_vec()).expect("program must run");
    MyCircuit::new(matrix)
}

#[test]
fn test_inc_move_inc() {
    let circuit = prove(b"++>+<", b"");
    assert!(circuit.mock_prove());
    let rows = &circuit.matrix.processor_matrix;
    // five instructions and a halt row
    assert_eq!(rows.len(), 6);
    let last = rows[rows.len() - 1];
    // back on the first cell, which holds 2
    assert_eq!(last.memory_pointer.v, 0);
    assert_eq!(last.memory_value.v, 2);
    // the row executing `<` sits on the second cell, which holds 1
    let at_shl = rows[4];
    assert_eq!(at_shl.memory_pointer.v, 1);
    assert_eq!(at_shl.memory_value.v, 1);
}

#[test]
fn test_loop_to_zero() {
    let circuit = prove(b"+[-]", b"");
    assert!(circuit.mock_prove());
    let rows = &circuit.matrix.processor_matrix;
    // +, [ taken once, -, ] looping once, and a halt row
    assert_eq!(rows.len(), 5);
    let last = rows[rows.len() - 1];
    assert_eq!(last.memory_value.v, 0);
}

#[test]
fn test_getchar_putchar() {
    let circuit = prove(b",+.", b"A");
    assert!(circuit.mock_prove());
    assert_eq!(circuit.matrix.output, vec![66u8]);
}

#[test]
fn test_prove_wrapping() {
    let circuit = prove(b"-", b"");
    assert!(circuit.mock_prove());
    let rows = &circuit.matrix.processor_matrix;
    assert_eq!(rows[0].memory_value.v, 0);
    assert_eq!(rows[1].memory_value.v, 255);
}

#[test]
fn test_wrapping_up() {
    // 255 increments then one more wraps to zero
    let mut src: Vec<u8> = Vec::new();
    for _ in 0..256 {
        src.push(b'+');
    }
    let circuit = prove(&src, b"");
    assert!(circuit.mock_prove());
    let rows = &circuit.matrix.processor_matrix;
    let last = rows[rows.len() - 1];
    assert_eq!(last.memory_value.v, 0);
    assert_eq!(rows[rows.len() - 2].memory_value.v, 255);
}

#[test]
fn test_prove_hello_world() {
    let src = b"++++++++[>++++[>++>+++>+++>+<<<<-]>+>+>->>+[<]<-]>>.>---.+++++++..+++.>>.<-.<.+++.------.--------.>>+.>++.";
    let circuit = prove(src, b"");
    assert_eq!(circuit.matrix.output, b"Hello World!\n".to_vec());
    assert!(circuit.mock_prove());
}

#[test]
fn test_comments_are_skipped() {
    let circuit = prove(b"inc twice: + and +", b"");
    assert!(circuit.mock_prove());
    let rows = &circuit.matrix.processor_matrix;
    assert_eq!(rows.len(), 3);
    assert_eq!(rows[2].memory_value.v, 2);
}

#[test]
fn test_empty_program() {
    let circuit = prove(b"", b"");
    assert!(circuit.mock_prove());
    assert_eq!(circuit.matrix.processor_matrix.len(), 1);
}

#[test]
fn test_unmatched_open_bracket() {
    assert_eq!(compile(&b"+[".to_vec()).unwrap_err(), Error::UnmatchedBracket);
}

#[test]
fn test_unmatched_close_bracket() {
    assert_eq!(compile(&b"]".to_vec()).unwrap_err(), Error::UnmatchedBracket);
}

#[test]
fn test_pointer_underflow() {
    let code = compile(&b"<".to_vec()).unwrap();
    assert_eq!(execute(&code, &Vec::new()).unwrap_err(), Error::PointerUnderflow);
}

#[test]
fn test_end_of_input() {
    let code = compile(&b",".to_vec()).unwrap();
    assert_eq!(execute(&code, &Vec::new()).unwrap_err(), Error::EndOfInput);
}

#[test]
fn test_trace_too_long() {
    let code = compile(&b"+[]".to_vec()).unwrap();
    assert_eq!(execute(&code, &Vec::new()).unwrap_err(), Error::TraceTooLong);
}

#[test]
fn test_bad_instruction() {
    // a hand-made cell that is no opcode
    let code = vec![99u64];
    assert_eq!(execute(&code, &Vec::new()).unwrap_err(), Error::BadInstruction);
}

#[test]
fn test_compiled_code_is_well_wired() {
    for src in [
        b"+[-]".to_vec(),
        b"++>+<".to_vec(),
        b"[[]][]".to_vec(),
        b",+.".to_vec(),
        b"".to_vec(),
    ] {
        let code = compile(&src).unwrap();
        assert!(check_code(&code));
    }
}

#[test]
fn test_bracket_cells_point_at_partners() {
    // cells: + [ j - ] j  with the brackets pointing at each other
    let code = compile(&b"+[-]".to_vec()).unwrap();
    assert_eq!(code, vec![43, 91, 4, 45, 93, 1]);
}

#[test]
fn test_check_code_rejects_bad_wiring() {
    // a lone bracket, a bracket whose partner points elsewhere, a stray byte
    assert!(!check_code(&vec![91, 0]));
    assert!(!check_code(&vec![91, 2, 93, 3]));
    assert!(!check_code(&vec![7]));
}

#[test]
fn test_nested_loops_multiply() {
    // cell0 = 2; loop adds 3 to cell1 per decrement: cell1 ends at 6
    let circuit = prove(b"++[>+++<-]>", b"");
    assert!(circuit.mock_prove());
    let rows = &circuit.matrix.processor_matrix;
    let last = rows[rows.len() - 1];
    assert_eq!(last.memory_pointer.v, 1);
    assert_eq!(last.memory_value.v, 6);
}

#[test]
fn test_echo_two_bytes() {
    let circuit = prove(b",.,.", b"hi");
    assert!(circuit.mock_prove());
    assert_eq!(circuit.matrix.output, b"hi".to_vec());
}

#[test]
fn test_program_too_long() {
    let src: Vec<u8> = vec![b'+'; 40000];
    assert_eq!(compile(&src).unwrap_err(), Error::ProgramTooLong);
}
