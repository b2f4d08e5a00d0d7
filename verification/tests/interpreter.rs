use brainfuck::engine::{load_program, run_program, BfError};
use brainfuck::tape::Tape;

fn run_src(src: &str, input: Vec<u8>) -> Result<Vec<u8>, BfError> {
    let text: Vec<char> = src.chars().collect();
    run_program(load_program(&text), input)
}

#[test]
fn load_keeps_only_instruction_characters_in_order() {
    let text: Vec<char> = "say [hello] to the world! \n\t plus: + minus: -".chars().collect();
    let mut t = load_program(&text);
    assert_eq!(t.pos(), 0);
    assert_eq!(t.next(), '[');
    assert_eq!(t.next(), ']');
    assert_eq!(t.next(), '+');
    assert_eq!(t.next(), '-');
    assert_eq!(t.next(), '\0');
}

#[test]
fn load_of_pure_prose_gives_empty_program() {
    let text: Vec<char> = "just words and spaces".chars().collect();
    let mut t = load_program(&text);
    assert_eq!(t.next(), '\0');
    assert_eq!(run_src("just words and spaces", vec![]), Ok(vec![]));
}

#[test]
fn multiply_loop_six_times_four() {
    assert_eq!(run_src("++++++[->++++<].>.", vec![]), Ok(vec![0, 24]));
    assert_eq!(run_src("++++++[->++++<]", vec![]), Ok(vec![]));
}

#[test]
fn comma_then_dot_echoes_input_byte() {
    assert_eq!(run_src(",.", vec![65]), Ok(vec![65]));
}

#[test]
fn comma_stores_zero_on_exhausted_input() {
    assert_eq!(run_src(",.", vec![]), Ok(vec![0]));
    assert_eq!(run_src(",.,.", vec![9]), Ok(vec![9, 0]));
}

#[test]
fn clear_loop_zeroes_nonzero_cell_and_skips_zero_cell() {
    assert_eq!(run_src("+++[-].", vec![]), Ok(vec![0]));
    assert_eq!(run_src("[-].", vec![]), Ok(vec![0]));
    assert_eq!(run_src("[-]", vec![]), Ok(vec![]));
}

#[test]
fn unmatched_close_bracket_fails() {
    assert_eq!(run_src("]", vec![]), Err(BfError::UnmatchedClose));
    assert_eq!(run_src("+].", vec![]), Err(BfError::UnmatchedClose));
}

#[test]
fn unmatched_open_bracket_fails() {
    assert_eq!(run_src("[", vec![]), Err(BfError::UnmatchedOpen));
    assert_eq!(run_src("[+", vec![]), Err(BfError::UnmatchedOpen));
}

#[test]
fn moving_left_of_origin_fails() {
    assert_eq!(run_src("<", vec![]), Err(BfError::PointerOutOfRange));
    assert_eq!(run_src("><<", vec![]), Err(BfError::PointerOutOfRange));
}

#[test]
fn symbol_outside_alphabet_fails_dispatch() {
    let program = Tape::from_elems(&vec!['x']);
    assert_eq!(run_program(program, vec![]), Err(BfError::InvalidSymbol));
}

#[test]
fn increment_then_decrement_restores_cell() {
    assert_eq!(run_src("+-.", vec![]), Ok(vec![0]));
    assert_eq!(run_src(",+-.", vec![200]), Ok(vec![200]));
    assert_eq!(run_src(",-+.", vec![137]), Ok(vec![137]));
}

#[test]
fn byte_arithmetic_wraps() {
    assert_eq!(run_src("-.", vec![]), Ok(vec![255]));
    assert_eq!(run_src("-+.", vec![]), Ok(vec![0]));
}

#[test]
fn nested_loops_multiply_twice() {
    assert_eq!(run_src("++[>++[>+<-]<-]>>.", vec![]), Ok(vec![4]));
}

#[test]
fn skipped_loop_ignores_nested_brackets() {
    assert_eq!(run_src("[[-]+].", vec![]), Ok(vec![0]));
    assert_eq!(run_src("[[[]]].", vec![]), Ok(vec![0]));
}

#[test]
fn error_messages_describe_the_failure() {
    let err = run_src("]", vec![]).unwrap_err();
    assert_eq!(err.message(), "Encountered ] without matching [");
    let err = run_src("[", vec![]).unwrap_err();
    assert_eq!(err.message(), "Reached end of tape before finding matching ]");
    let err = run_src("<", vec![]).unwrap_err();
    assert_eq!(err.message(), "Attempted to move tape head out of range.");
}
