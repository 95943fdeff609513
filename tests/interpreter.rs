use bf::ast;
use bf::ast::Statement::{Cmd, Loop};
use bf::bytecode;
use bf::common::Command::{In, Out, Right, Up};
use bf::common::{BfResult, Error};
use bf::peephole;
use bf::rle;
use bf::rts::RtsState;
use bf::state::State;
use bf::traits::Interpretable;

const FUEL: u64 = u64::MAX;

const HELLO_WORLD_SRC: &[u8] = b"++++++[>++++++++++++<-]>.\
      >++++++++++[>++++++++++<-]>+.\
      +++++++..+++.>++++[>+++++++++++<-]>.\
      <+++[>----<-]>.<<<<<+++[>+++++<-]>.\
      >>.+++.------.--------.>>+.";

/// Runs an AST through every interpreter, checks that they agree, and
/// returns their common result.
fn run_tree(program: &Vec<ast::Statement>, size: Option<usize>, input: &[u8], fuel: u64)
    -> Option<BfResult<Vec<u8>>>
{
    let rle_program = rle::compile(program);
    let peep_program = peephole::compile(&rle_program);
    let code = bytecode::compile(&peep_program);
    let expected = program.interpret_memory(size, input, fuel);
    assert_eq!(rle_program.interpret_memory(size, input, fuel), expected, "run-length form");
    assert_eq!(peep_program.interpret_memory(size, input, fuel), expected, "peephole form");
    assert_eq!(code.interpret_memory(size, input, fuel), expected, "bytecode");
    expected
}

fn run_source(src: &[u8], input: &str) -> Option<BfResult<Vec<u8>>> {
    let program = ast::parse_program(src).unwrap();
    run_tree(&program, None, input.as_bytes(), FUEL)
}

fn assert_interpret(program: Vec<ast::Statement>, input: &[u8], output: &[u8]) {
    assert_eq!(run_tree(&program, None, input, FUEL), Some(Ok(output.to_vec())));
}

fn assert_parse_interpret(src: &[u8], input: &str, output: BfResult<&str>) {
    let expected = output.map(|s| s.as_bytes().to_vec());
    assert_eq!(run_source(src, input), Some(expected));
}

#[test]
fn interpreter_assert_no_output() {
    assert_interpret(vec![Cmd(Right)], &[], &[]);
}

#[test]
fn interpreter_assert_output_0() {
    assert_interpret(vec![Cmd(Right), Cmd(Out)], &[], &[0]);
}

#[test]
fn interpreter_assert_output_1() {
    assert_interpret(vec![Cmd(Up), Cmd(Out)], &[], &[1]);
}

#[test]
fn interpreter_assert_increment_input() {
    let prog = || vec![Cmd(In), Cmd(Up), Cmd(Out)];
    assert_interpret(prog(), &[0], &[1]);
    assert_interpret(prog(), &[5], &[6]);
    assert_interpret(prog(), &[255], &[0]);
}

#[test]
fn interpreter_assert_increment_loop() {
    let prog = || vec![Cmd(In), Loop(vec![Cmd(Up), Cmd(Out), Cmd(In)])];
    assert_interpret(prog(), &[0], &[]);
    assert_interpret(prog(), &[1, 0], &[2]);
    assert_interpret(prog(), &[1, 4, 0], &[2, 5]);
    assert_interpret(prog(), &[8, 255, 18, 0], &[9, 0, 19]);
}

#[test]
fn interpreter_hello_world() {
    assert_parse_interpret(HELLO_WORLD_SRC, "", Ok("Hello, World!"));
}

#[test]
fn move_right_once() {
    assert_parse_interpret(b">", "", Ok(""));
}

#[test]
fn move_left_once() {
    assert_parse_interpret(b"<", "", Err(Error::PointerUnderflow));
}

#[test]
fn move_right_forever() {
    assert_parse_interpret(b"+[>+]", "", Err(Error::PointerOverflow));
}

#[test]
fn echo_one_byte() {
    assert_parse_interpret(b",.", "A", Ok("A"));
}

#[test]
fn inc_echo_one_byte() {
    assert_parse_interpret(b",+.", "A", Ok("B"));
}

#[test]
fn mod_hello_world() {
    assert_parse_interpret(HELLO_WORLD_SRC, "", Ok("Hello, World!"));
}

#[test]
fn empty_program_does_nothing() {
    assert_eq!(run_tree(&vec![], None, b"xyz", 0), Some(Ok(vec![])));
}

#[test]
fn end_of_input_reads_zero() {
    assert_parse_interpret(b",.,.", "", Ok("\0\0"));
    assert_parse_interpret(b"+,.", "", Ok("\0"));
}

#[test]
fn wrapping_at_both_ends_of_a_cell() {
    assert_eq!(run_source(b"-.+.", ""), Some(Ok(vec![255, 0])));
}

#[test]
fn tape_size_is_respected() {
    let program = ast::parse_program(b">").unwrap();
    assert_eq!(run_tree(&program, Some(1), b"", FUEL), Some(Err(Error::PointerOverflow)));
    assert_eq!(run_tree(&program, Some(2), b"", FUEL), Some(Ok(vec![])));
}

#[test]
fn running_out_of_fuel_is_reported() {
    let program = ast::parse_program(b"+[]").unwrap();
    assert_eq!(run_tree(&program, None, b"", 1000), None);
}

#[test]
fn peephole_loops_run_like_the_loops_they_replace() {
    assert_parse_interpret(b"+++++[->>+<<]>>.", "", Ok("\u{5}"));
    assert_parse_interpret(b">>+++[-<<+>>]<<.", "", Ok("\u{3}"));
    assert_parse_interpret(b"+>+>+>>+<<<<[>]>.", "", Ok("\u{1}"));
    assert_parse_interpret(b"++[+].", "", Ok("\0"));
    assert_parse_interpret(b"+[-<+>]", "", Err(Error::PointerUnderflow));
    assert_parse_interpret(b"+[<]", "", Err(Error::PointerUnderflow));
}

#[test]
fn runtime_error_keeps_output_so_far() {
    let mut state = State::with_capacity(4);
    let mut rts = RtsState::new(vec![], vec![]);
    let program = ast::parse_program(b"+.<").unwrap();
    assert_eq!(program.interpret_state(&mut state, &mut rts, FUEL), Some(Err(Error::PointerUnderflow)));
    assert_eq!(rts.output(), &vec![1]);
    assert_eq!(state.load(), 1);
}

#[test]
fn failed_transfer_leaves_the_tape_the_loop_leaves() {
    let tree = ast::parse_program(b"++[->+<]").unwrap();
    let peep_program = peephole::compile(&rle::compile(&tree));
    assert_eq!(
        peep_program,
        vec![
            peephole::Statement::Instr(bf::common::Instruction::Add(2)),
            peephole::Statement::Instr(bf::common::Instruction::OffsetAddRight(1)),
        ]
    );
    let mut loop_state = State::with_capacity(1);
    let mut rts = RtsState::new(vec![], vec![]);
    assert_eq!(tree.interpret_state(&mut loop_state, &mut rts, FUEL), Some(Err(Error::PointerOverflow)));
    let mut rewritten_state = State::with_capacity(1);
    let mut rts = RtsState::new(vec![], vec![]);
    assert_eq!(
        peep_program.interpret_state(&mut rewritten_state, &mut rts, FUEL),
        Some(Err(Error::PointerOverflow))
    );
    assert_eq!(loop_state.load(), 1);
    assert_eq!(rewritten_state.load(), 1);
    let code = bytecode::compile(&peep_program);
    let mut code_state = State::with_capacity(1);
    let mut rts = RtsState::new(vec![], vec![]);
    assert_eq!(code.interpret_state(&mut code_state, &mut rts, FUEL), Some(Err(Error::PointerOverflow)));
    assert_eq!(code_state.load(), 1);
}
