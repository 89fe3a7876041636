use rsbf::interp::{run_buf, BFState, RunStatus, Step, CELL_COUNT};

const HELLO: &str = "++++++++[>++++[>++>+++>+++>+<<<<-]>+>+>->>+[<]<-]>>.>---.+++++++..+++.>>.<-.<.+++.------.--------.>>+.>++.";

const HELLO_TRICKY: &str = ">++++++++[-<+++++++++>]<.>>+>-[+]++>++>+++[>[->+++<<+++>]<<]>-----.>->+++..+++.>-.<<+[>[+>+]>>]<--------------.>>.+++.------.--------.>+.>+.";

const HELLO_PRIMO: &str = "+[-->-[>>+>-----<<]<--<---]>-.>>>+.>>..+++[.>]<<<<.+++.------.<<-.>>>>+.";

const CAT: &str = ",[.,]";

fn expect_output(program: &str, input: &str, output: &str) {
    let report = run_buf(input.as_bytes(), program.as_bytes(), 10_000_000);
    assert_eq!(report.status, RunStatus::Finished);
    assert_eq!(std::str::from_utf8(&report.output).unwrap(), output);
}

#[test]
fn hello_world() {
    expect_output(HELLO, "", "Hello World!\n");
    expect_output(HELLO_TRICKY, "", "Hello World!\n");
    expect_output(HELLO_PRIMO, "", "Hello, World!");
}

#[test]
fn cat() {
    expect_output(CAT, "asdf", "asdf");
    expect_output(CAT, "blah", "blah");
}

#[test]
fn echo_until_newline() {
    let program = ",----------[++++++++++.,----------]";
    expect_output(program, "first line\nsecond line\n", "first line");
    expect_output(program, "\nrest", "");
}

#[test]
fn empty_program_finishes_at_once() {
    let report = run_buf(b"abc", b"", 1);
    assert_eq!(report.status, RunStatus::Finished);
    assert!(report.output.is_empty());
}

#[test]
fn no_steps_allowed() {
    let report = run_buf(b"", b"", 0);
    assert_eq!(report.status, RunStatus::StepLimit);
    assert!(report.output.is_empty());
}

#[test]
fn step_limit_stops_an_endless_loop() {
    let report = run_buf(b"", b"+[.]", 12);
    assert_eq!(report.status, RunStatus::StepLimit);
    assert_eq!(report.output, vec![1, 1, 1, 1]);
}

#[test]
fn the_step_that_finds_the_end_counts() {
    assert_eq!(run_buf(b"", b"+.", 2).status, RunStatus::StepLimit);
    assert_eq!(run_buf(b"", b"+.", 3).status, RunStatus::Finished);
    assert_eq!(run_buf(b"", b"+.", 2).output, vec![1]);
    assert_eq!(run_buf(b"", b"+.", 3).output, vec![1]);
    assert_eq!(run_buf(b"", b"+.", 300).output, vec![1]);
}

#[test]
fn hello_world_needs_its_steps() {
    assert_eq!(run_buf(b"", HELLO.as_bytes(), 969).status, RunStatus::StepLimit);
    let report = run_buf(b"", HELLO.as_bytes(), 970);
    assert_eq!(report.status, RunStatus::Finished);
    assert_eq!(report.output, b"Hello World!\n");
}

#[test]
fn incrementing_255_gives_0() {
    let mut program = vec![b'+'; 255];
    program.push(b'.');
    program.push(b'+');
    program.push(b'.');
    let report = run_buf(b"", &program, 1000);
    assert_eq!(report.status, RunStatus::Finished);
    assert_eq!(report.output, vec![255, 0]);
}

#[test]
fn decrementing_0_gives_255() {
    let report = run_buf(b"", b".-.-.", 1000);
    assert_eq!(report.status, RunStatus::Finished);
    assert_eq!(report.output, vec![0, 255, 254]);
}

#[test]
fn moving_left_from_the_first_cell_reaches_the_last() {
    let mut state = BFState::new(b"<+>");
    assert_eq!(state.cell_ptr(), 0);
    assert_eq!(state.run_next(), Step::Ran);
    assert_eq!(state.cell_ptr(), CELL_COUNT - 1);
    assert_eq!(state.cell_ptr(), 29999);
    assert_eq!(state.run_next(), Step::Ran);
    assert_eq!(state.curr_cell(), 1);
    assert_eq!(state.run_next(), Step::Ran);
    assert_eq!(state.cell_ptr(), 0);
    assert_eq!(state.curr_cell(), 0);
    assert_eq!(state.run_next(), Step::Finished);
}

#[test]
fn moving_right_from_the_last_cell_reaches_the_first() {
    let program = vec![b'>'; 30001];
    let mut state = BFState::new(&program);
    for k in 1..30000 {
        assert_eq!(state.run_next(), Step::Ran);
        assert_eq!(state.cell_ptr(), k);
    }
    assert_eq!(state.run_next(), Step::Ran);
    assert_eq!(state.cell_ptr(), 0);
    assert_eq!(state.run_next(), Step::Ran);
    assert_eq!(state.cell_ptr(), 1);
    assert_eq!(state.run_next(), Step::Finished);
}

#[test]
fn the_tape_is_a_ring() {
    let mut program = vec![b'+'];
    program.extend(std::iter::repeat(b'>').take(30000));
    program.push(b'.');
    program.push(b'<');
    program.push(b'.');
    let report = run_buf(b"", &program, 100_000);
    assert_eq!(report.status, RunStatus::Finished);
    assert_eq!(report.output, vec![1, 0]);
}

#[test]
fn output_is_the_raw_cell_value() {
    let report = run_buf(b"", b"-.--.", 100);
    assert_eq!(report.output, vec![255, 253]);
    let mut program = vec![b'+'; 128];
    program.push(b'.');
    let report = run_buf(b"", &program, 1000);
    assert_eq!(report.output, vec![128]);
}

#[test]
fn input_is_read_byte_by_byte() {
    let report = run_buf(&[7, 200, 0, 9], b",.,.,.,.", 100);
    assert_eq!(report.status, RunStatus::Finished);
    assert_eq!(report.output, vec![7, 200, 0, 9]);
}

#[test]
fn end_of_input_stores_zero() {
    let report = run_buf(b"", b"+++,.", 100);
    assert_eq!(report.status, RunStatus::Finished);
    assert_eq!(report.output, vec![0]);
    let report = run_buf(b"x", b",.,.+,.", 100);
    assert_eq!(report.output, vec![b'x', 0, 0]);
}

#[test]
fn a_zero_cell_skips_the_loop() {
    let report = run_buf(b"", b"[+.[-]>,.]+.", 100);
    assert_eq!(report.status, RunStatus::Finished);
    assert_eq!(report.output, vec![1]);
}

#[test]
fn a_loop_runs_until_its_cell_is_zero() {
    let report = run_buf(b"", b"+++[.-]", 100);
    assert_eq!(report.status, RunStatus::Finished);
    assert_eq!(report.output, vec![3, 2, 1]);
}

#[test]
fn nested_loops_multiply() {
    let report = run_buf(b"", b"+++[>++++[>+<-]<-]>>.", 1000);
    assert_eq!(report.status, RunStatus::Finished);
    assert_eq!(report.output, vec![12]);
}

#[test]
fn inert_bytes_do_nothing() {
    let report = run_buf(b"", b"add one + and print . done\n", 100);
    assert_eq!(report.status, RunStatus::Finished);
    assert_eq!(report.output, vec![1]);
}

#[test]
fn skipping_an_unclosed_loop_is_fatal() {
    let report = run_buf(b"", b"+.-[+.", 100);
    assert_eq!(report.status, RunStatus::Unbalanced);
    assert_eq!(report.output, vec![1]);
}

#[test]
fn entering_an_unclosed_loop_is_not() {
    let report = run_buf(b"", b"+[.", 100);
    assert_eq!(report.status, RunStatus::Finished);
    assert_eq!(report.output, vec![1]);
}

#[test]
fn a_loop_end_without_loop_begin_is_fatal() {
    let report = run_buf(b"", b"+.]+.", 100);
    assert_eq!(report.status, RunStatus::Unbalanced);
    assert_eq!(report.output, vec![1]);
    let report = run_buf(b"", b"[]].", 100);
    assert_eq!(report.status, RunStatus::Unbalanced);
}

#[test]
fn the_breakpoint_stops_the_run() {
    let program = [b'+', b'.', 0xb0, b'.'];
    let report = run_buf(b"", &program, 100);
    assert_eq!(report.status, RunStatus::Breakpoint);
    assert_eq!(report.output, vec![1]);
}

#[test]
fn a_skipped_breakpoint_does_not_stop_the_run() {
    let program = [b'[', 0xb0, b']', b'+', b'.'];
    let report = run_buf(b"", &program, 100);
    assert_eq!(report.status, RunStatus::Finished);
    assert_eq!(report.output, vec![1]);
}

#[test]
fn a_fresh_machine_is_blank() {
    let state = BFState::new(b"+");
    assert_eq!(state.program_counter(), 0);
    assert_eq!(state.cell_ptr(), 0);
    assert_eq!(state.curr_cell(), 0);
    assert_eq!(CELL_COUNT, 30000);
}

#[test]
fn steps_say_what_they_need() {
    let mut state = BFState::new(b"+ . , . x");
    assert_eq!(state.run_next(), Step::Ran);
    assert_eq!(state.program_counter(), 1);
    assert_eq!(state.run_next(), Step::Output(1));
    assert_eq!(state.program_counter(), 3);
    assert_eq!(state.run_next(), Step::Input);
    assert_eq!(state.curr_cell(), 1);
    state.store_input(Some(65));
    assert_eq!(state.curr_cell(), 65);
    assert_eq!(state.run_next(), Step::Output(65));
    assert_eq!(state.run_next(), Step::Finished);
    assert_eq!(state.program_counter(), 9);
    assert_eq!(state.run_next(), Step::Finished);
    assert_eq!(state.program_counter(), 9);
}

#[test]
fn store_input_at_end_of_input() {
    let mut state = BFState::new(b"+,");
    state.run_next();
    assert_eq!(state.run_next(), Step::Input);
    state.store_input(None);
    assert_eq!(state.curr_cell(), 0);
}

#[test]
fn a_skip_lands_on_the_loop_end_and_then_behind_it() {
    let mut state = BFState::new(b"[+]-");
    assert_eq!(state.run_next(), Step::Ran);
    assert_eq!(state.program_counter(), 2);
    assert_eq!(state.curr_cell(), 0);
    assert_eq!(state.run_next(), Step::Ran);
    assert_eq!(state.program_counter(), 3);
    assert_eq!(state.run_next(), Step::Ran);
    assert_eq!(state.curr_cell(), 255);
}

#[test]
fn a_loop_end_jumps_back_to_its_loop_begin() {
    let mut state = BFState::new(b"++[-]");
    state.run_next();
    state.run_next();
    assert_eq!(state.run_next(), Step::Ran);
    assert_eq!(state.program_counter(), 3);
    assert_eq!(state.run_next(), Step::Ran);
    assert_eq!(state.run_next(), Step::Ran);
    assert_eq!(state.program_counter(), 2);
    assert_eq!(state.run_next(), Step::Ran);
    assert_eq!(state.program_counter(), 3);
    assert_eq!(state.run_next(), Step::Ran);
    assert_eq!(state.curr_cell(), 0);
    assert_eq!(state.run_next(), Step::Ran);
    assert_eq!(state.program_counter(), 5);
    assert_eq!(state.run_next(), Step::Finished);
}

#[test]
fn a_fatal_step_leaves_the_machine_in_place() {
    let program = [b'+', b' ', 0xb0, b'+'];
    let mut state = BFState::new(&program);
    assert_eq!(state.run_next(), Step::Ran);
    assert_eq!(state.program_counter(), 1);
    assert_eq!(state.run_next(), Step::Breakpoint);
    assert_eq!(state.program_counter(), 1);
    assert_eq!(state.curr_cell(), 1);
    assert_eq!(state.run_next(), Step::Breakpoint);
    assert_eq!(state.program_counter(), 1);

    let mut state = BFState::new(b"> [+");
    assert_eq!(state.run_next(), Step::Ran);
    assert_eq!(state.run_next(), Step::Unbalanced);
    assert_eq!(state.program_counter(), 1);
    assert_eq!(state.cell_ptr(), 1);
    assert_eq!(state.run_next(), Step::Unbalanced);

    let mut state = BFState::new(b"+]");
    assert_eq!(state.run_next(), Step::Ran);
    assert_eq!(state.run_next(), Step::Unbalanced);
    assert_eq!(state.program_counter(), 1);
    assert_eq!(state.run_next(), Step::Unbalanced);
}
