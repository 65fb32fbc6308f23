use bf_interp::compiler::compile;
use bf_interp::instruction::DATA_SIZE;
use bf_interp::interpreter::{execute, ExecError, Interpreter, Status, Step};

const PLENTY: u64 = 10_000_000;

#[test]
fn two_increments_print_two() {
    let run = execute(compile(b"++.").unwrap(), b"", PLENTY);
    assert_eq!(run.status, Status::Halted);
    assert_eq!(run.output, vec![2]);
}

#[test]
fn empty_loop_is_skipped() {
    let run = execute(compile(b"[]").unwrap(), b"", PLENTY);
    assert_eq!(run.status, Status::Halted);
    assert_eq!(run.output, Vec::<u8>::new());
}

#[test]
fn one_byte_is_copied() {
    let run = execute(compile(b",.").unwrap(), b"A", PLENTY);
    assert_eq!(run.status, Status::Halted);
    assert_eq!(run.output, vec![b'A']);
    assert_eq!(run.consumed, 1);
}

#[test]
fn moving_left_of_the_first_cell_fails() {
    let run = execute(compile(b"<").unwrap(), b"", PLENTY);
    assert_eq!(run.status, Status::Failed(ExecError::PointerOutOfBounds));
}

#[test]
fn moving_right_of_the_last_cell_fails() {
    let run = execute(compile(b"+[>+]").unwrap(), b"", PLENTY);
    assert_eq!(run.status, Status::Failed(ExecError::PointerOutOfBounds));
    assert_eq!(run.output, Vec::<u8>::new());
}

#[test]
fn the_last_cell_can_be_reached() {
    // One step for the first `+`, one for `[`, then three for each move
    // to the right: the move itself, `+` and `]`.
    let moves = DATA_SIZE as u64 - 1;
    let run = execute(compile(b"+[>+]").unwrap(), b"", 2 + 3 * moves);
    assert_eq!(run.status, Status::Suspended);
    let run = execute(compile(b"+[>+]").unwrap(), b"", 2 + 3 * moves + 1);
    assert_eq!(run.status, Status::Failed(ExecError::PointerOutOfBounds));
}

#[test]
fn reading_without_input_fails() {
    let run = execute(compile(b",").unwrap(), b"", PLENTY);
    assert_eq!(run.status, Status::Failed(ExecError::InputClosed));
    assert_eq!(run.consumed, 0);
}

#[test]
fn reading_past_the_input_fails() {
    let run = execute(compile(b",.,.,.").unwrap(), b"ab", PLENTY);
    assert_eq!(run.status, Status::Failed(ExecError::InputClosed));
    assert_eq!(run.output, b"ab".to_vec());
    assert_eq!(run.consumed, 2);
}

#[test]
fn incrementing_255_gives_0() {
    let mut source = vec![b'+'; 255];
    source.extend_from_slice(b".+.");
    let run = execute(compile(&source).unwrap(), b"", PLENTY);
    assert_eq!(run.status, Status::Halted);
    assert_eq!(run.output, vec![255, 0]);
}

#[test]
fn decrementing_0_gives_255() {
    let run = execute(compile(b".-.").unwrap(), b"", PLENTY);
    assert_eq!(run.status, Status::Halted);
    assert_eq!(run.output, vec![0, 255]);
}

#[test]
fn input_overwrites_the_cell() {
    let run = execute(compile(b"+++,.").unwrap(), &[200], PLENTY);
    assert_eq!(run.output, vec![200]);
}

#[test]
fn loop_runs_until_the_cell_is_zero() {
    let run = execute(compile(b"+++[.-]").unwrap(), b"", PLENTY);
    assert_eq!(run.status, Status::Halted);
    assert_eq!(run.output, vec![3, 2, 1]);
}

#[test]
fn loop_multiplies() {
    let run = execute(compile(b"++++++[>+++++++<-]>.").unwrap(), b"", PLENTY);
    assert_eq!(run.status, Status::Halted);
    assert_eq!(run.output, vec![42]);
}

#[test]
fn input_is_echoed_until_a_zero_byte() {
    let run = execute(compile(b",[.,]").unwrap(), b"tape\0rest", PLENTY);
    assert_eq!(run.status, Status::Halted);
    assert_eq!(run.output, b"tape".to_vec());
    assert_eq!(run.consumed, 5);
}

#[test]
fn greeting_program_prints_its_greeting() {
    let source = b"++++++++[>++++[>++>+++>+++>+<<<<-]>+>+>->>+[<]<-]>>.>---.+++++++..+++.\
        >>.<-.<.+++.------.--------.>>+.>++.";
    let run = execute(compile(source).unwrap(), b"", PLENTY);
    assert_eq!(run.status, Status::Halted);
    assert_eq!(run.output, b"Hello World!\n".to_vec());
}

#[test]
fn endless_loop_is_suspended_when_the_steps_run_out() {
    let run = execute(compile(b"+[]").unwrap(), b"", 1000);
    assert_eq!(run.status, Status::Suspended);
    assert_eq!(run.output, Vec::<u8>::new());
}

#[test]
fn halting_takes_one_step() {
    let program = compile(b"+.").unwrap();
    assert_eq!(execute(program, b"", 2).status, Status::Suspended);
    let program = compile(b"+.").unwrap();
    let run = execute(program, b"", 3);
    assert_eq!(run.status, Status::Halted);
    assert_eq!(run.output, vec![1]);
}

#[test]
fn no_steps_do_nothing() {
    let run = execute(compile(b".").unwrap(), b"", 0);
    assert_eq!(run.status, Status::Suspended);
    assert_eq!(run.output, Vec::<u8>::new());
}

#[test]
fn a_suspended_run_can_go_on() {
    let mut interpreter = Interpreter::new(compile(b"+.+.+.").unwrap());
    let first = interpreter.run(b"", 3);
    assert_eq!(first.status, Status::Suspended);
    assert_eq!(first.output, vec![1]);
    let second = interpreter.run(b"", 100);
    assert_eq!(second.status, Status::Halted);
    assert_eq!(second.output, vec![2, 3]);
}

#[test]
fn stepping_reports_each_instruction() {
    let mut interpreter = Interpreter::new(compile(b"+,.<").unwrap());
    assert!(!interpreter.needs_input());
    assert_eq!(interpreter.step(None), Ok(Step::Ran));
    assert!(interpreter.needs_input());
    assert_eq!(interpreter.step(None), Err(ExecError::InputClosed));
    assert!(interpreter.needs_input());
    assert_eq!(interpreter.step(Some(7)), Ok(Step::Ran));
    assert!(!interpreter.needs_input());
    assert_eq!(interpreter.step(Some(9)), Ok(Step::Wrote(7)));
    assert_eq!(interpreter.step(None), Err(ExecError::PointerOutOfBounds));
    assert_eq!(interpreter.step(None), Err(ExecError::PointerOutOfBounds));
}

#[test]
fn the_run_starts_on_the_first_cell_with_all_cells_zero() {
    let mut interpreter = Interpreter::new(compile(b">>>>").unwrap());
    assert_eq!(interpreter.pc(), 0);
    assert_eq!(interpreter.pointer(), 0);
    assert_eq!(interpreter.cell(), 0);
    for moved in 1..=4 {
        assert_eq!(interpreter.step(None), Ok(Step::Ran));
        assert_eq!(interpreter.pointer(), moved);
        assert_eq!(interpreter.cell(), 0);
    }
}

#[test]
fn a_taken_jump_lands_behind_its_partner() {
    let mut interpreter = Interpreter::new(compile(b"[+]+[-]").unwrap());
    assert_eq!(interpreter.step(None), Ok(Step::Ran));
    assert_eq!(interpreter.pc(), 3);
    assert_eq!(interpreter.step(None), Ok(Step::Ran));
    assert_eq!(interpreter.cell(), 1);
    assert_eq!(interpreter.step(None), Ok(Step::Ran));
    assert_eq!(interpreter.pc(), 5);
    assert_eq!(interpreter.step(None), Ok(Step::Ran));
    assert_eq!(interpreter.cell(), 0);
    assert_eq!(interpreter.step(None), Ok(Step::Ran));
    assert_eq!(interpreter.pc(), 7);
    assert_eq!(interpreter.step(None), Ok(Step::Halted));
}

#[test]
fn a_jump_back_repeats_the_loop_body() {
    let mut interpreter = Interpreter::new(compile(b"++[-]").unwrap());
    for _ in 0..3 {
        assert_eq!(interpreter.step(None), Ok(Step::Ran));
    }
    assert_eq!(interpreter.pc(), 3);
    assert_eq!(interpreter.step(None), Ok(Step::Ran));
    assert_eq!(interpreter.cell(), 1);
    assert_eq!(interpreter.step(None), Ok(Step::Ran));
    assert_eq!(interpreter.pc(), 3);
}

#[test]
fn a_failed_step_changes_nothing() {
    let mut interpreter = Interpreter::new(compile(b"+<").unwrap());
    assert_eq!(interpreter.step(None), Ok(Step::Ran));
    assert_eq!(interpreter.step(None), Err(ExecError::PointerOutOfBounds));
    assert_eq!(interpreter.pc(), 1);
    assert_eq!(interpreter.pointer(), 0);
    assert_eq!(interpreter.cell(), 1);
}

#[test]
fn a_finished_run_does_not_depend_on_the_budget() {
    // Four steps for the count, one for `[`, six for each of the four
    // turns of the loop, then `>`, `.` and `End`.
    let source = b"++++[>++<-]>.";
    let short = execute(compile(source).unwrap(), b"", 31);
    let tight = execute(compile(source).unwrap(), b"", 32);
    let ample = execute(compile(source).unwrap(), b"", PLENTY);
    assert_eq!(short.status, Status::Suspended);
    assert_eq!(tight.status, Status::Halted);
    assert_eq!(ample.status, Status::Halted);
    assert_eq!(short.output, vec![8]);
    assert_eq!(tight.output, vec![8]);
    assert_eq!(ample.output, vec![8]);
}

#[test]
fn a_halted_interpreter_stays_halted() {
    let mut interpreter = Interpreter::new(compile(b"").unwrap());
    assert_eq!(interpreter.step(None), Ok(Step::Halted));
    assert_eq!(interpreter.step(Some(1)), Ok(Step::Halted));
}

#[test]
fn the_crate_root_offers_the_whole_pipeline() {
    let program = bf_interp::compile(b"++[>+++<-]>.").unwrap();
    let run = bf_interp::execute(program, b"", 1000);
    assert_eq!(run.status, bf_interp::Status::Halted);
    assert_eq!(run.output, vec![6]);
}
