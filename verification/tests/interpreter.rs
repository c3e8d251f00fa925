use snowlang::ast::LanguageNode;
use snowlang::eval::EvalError;
use snowlang::eval::IoBuffer;
use snowlang::eval::TAPE_LEN;
use snowlang::eval::run;
use snowlang::eval::run_params;
use snowlang::parser::TokenStream;
use snowlang::parser::parse;

fn parse_text(text: &str) -> LanguageNode {
    let mut strs = TokenStream::new(text.chars().collect());
    parse(&mut strs)
}

#[test]
fn three_increments_then_output() {
    let tree = parse_text("+++.");
    let r = run(&tree, vec![], 0);
    assert_eq!(r, Ok(vec![3]));
}

#[test]
fn loop_drains_cell_to_zero() {
    let tree = parse_text("+[-]");
    let mut buffer: Vec<usize> = vec![0; 16];
    let mut io = IoBuffer::new(vec![]);
    let mut fuel: u64 = 100;
    let r = run_params(&tree, &mut buffer, 0, &mut io, &mut fuel);
    assert_eq!(r, Ok(0));
    assert_eq!(buffer[0], 0);
    assert_eq!(io.outputs, vec![]);
}

#[test]
fn loop_halts_on_the_check_that_sees_zero() {
    // One pass of the body drains the cell, so one loop re-entry is the
    // whole budget the program needs.
    let tree = parse_text("+[-]");
    assert_eq!(run(&tree, vec![], 1), Ok(vec![]));
    assert_eq!(run(&tree, vec![], 0), Err(EvalError::OutOfFuel));
}

#[test]
fn move_backward_at_zero_stays_at_zero() {
    let tree = parse_text("<");
    let mut buffer: Vec<usize> = vec![0; 4];
    let mut io = IoBuffer::new(vec![]);
    let mut fuel: u64 = 0;
    assert_eq!(run_params(&tree, &mut buffer, 0, &mut io, &mut fuel), Ok(0));
}

#[test]
fn move_forward_fails_on_the_exact_step_past_the_end() {
    let tree = parse_text(">>");
    let mut buffer: Vec<usize> = vec![0; 2];
    let mut io = IoBuffer::new(vec![]);
    let mut fuel: u64 = 0;
    let r = run_params(&tree, &mut buffer, 0, &mut io, &mut fuel);
    assert_eq!(r, Err(EvalError::OutOfBounds { at: 2 }));
}

#[test]
fn move_forward_within_bounds_succeeds() {
    let tree = parse_text(">");
    let mut buffer: Vec<usize> = vec![0; 2];
    let mut io = IoBuffer::new(vec![]);
    let mut fuel: u64 = 0;
    assert_eq!(run_params(&tree, &mut buffer, 0, &mut io, &mut fuel), Ok(1));
}

#[test]
fn increment_wraps_at_maximum() {
    let tree = parse_text("+");
    let mut buffer: Vec<usize> = vec![usize::MAX, 5];
    let mut io = IoBuffer::new(vec![]);
    let mut fuel: u64 = 0;
    assert_eq!(run_params(&tree, &mut buffer, 0, &mut io, &mut fuel), Ok(0));
    assert_eq!(buffer[0], 0);
}

#[test]
fn decrement_wraps_at_zero() {
    let tree = parse_text("-");
    let mut buffer: Vec<usize> = vec![0, 5];
    let mut io = IoBuffer::new(vec![]);
    let mut fuel: u64 = 0;
    assert_eq!(run_params(&tree, &mut buffer, 0, &mut io, &mut fuel), Ok(0));
    assert_eq!(buffer[0], usize::MAX);
}

#[test]
fn input_is_stored_and_echoed() {
    let tree = parse_text(",.");
    assert_eq!(run(&tree, vec![7], 0), Ok(vec![7]));
}

#[test]
fn inputs_are_consumed_front_to_back() {
    let tree = parse_text(",.>,.");
    assert_eq!(run(&tree, vec![7, 9], 0), Ok(vec![7, 9]));
}

#[test]
fn exhausted_input_is_an_error() {
    let tree = parse_text(",");
    assert_eq!(run(&tree, vec![], 0), Err(EvalError::InputExhausted));
}

#[test]
fn endless_loop_exhausts_the_budget() {
    let tree = parse_text("+[]");
    assert_eq!(run(&tree, vec![], 1000), Err(EvalError::OutOfFuel));
}

#[test]
fn cursor_reaches_the_last_cell_of_the_tape() {
    let text: String = ">".repeat(TAPE_LEN - 1) + "+.";
    let tree = parse_text(&text);
    assert_eq!(run(&tree, vec![], 0), Ok(vec![1]));
}

#[test]
fn cursor_past_the_tape_is_fatal() {
    let text: String = ">".repeat(TAPE_LEN);
    let tree = parse_text(&text);
    assert_eq!(run(&tree, vec![], 0), Err(EvalError::OutOfBounds { at: TAPE_LEN }));
}

#[test]
fn outputs_come_in_program_order() {
    let tree = parse_text("+.+.+.");
    assert_eq!(run(&tree, vec![], 0), Ok(vec![1, 2, 3]));
}

#[test]
fn nested_loops_multiply() {
    // 2 * 3 computed the usual way: each pass of the outer loop moves
    // a fresh 3 into the accumulator cell.
    let tree = parse_text("++[>+++[->>+<<]<-]>>>.");
    assert_eq!(run(&tree, vec![], 1000), Ok(vec![6]));
}

#[test]
fn cursor_threads_through_sequence() {
    let tree = parse_text(">+<+.>.");
    assert_eq!(run(&tree, vec![], 0), Ok(vec![1, 1]));
}
