use brainfuck::machine::Machine;
use brainfuck::{parse, run, ParseError, TAPE_SIZE};

const HELLO_WORLD: &str = "++++++++[>++++[>++>+++>+++>+<<<<-]>+>+>->>+[<]<-]>>.>---.+++++++..+++.>>.<-.<.+++.------.--------.>>+.>++.";

const PLENTY: u64 = 1_000_000;

fn machine_for(code: &str) -> Machine {
    Machine::new(parse(code).expect("the source is a program"))
}

#[test]
fn new_machine_starts_at_zero() {
    let machine = machine_for("+");
    assert_eq!(machine.pc(), 0);
    assert_eq!(machine.pointer(), 0);
    assert_eq!(machine.cell(), 0);
    assert_eq!(machine.tape().len(), 65536);
    assert_eq!(TAPE_SIZE, 65536);
    assert!(machine.tape().iter().all(|&cell| cell == 0));
    assert!(!machine.halted());
}

#[test]
fn increment_wraps_after_256() {
    let mut machine = machine_for(&"+".repeat(256));
    for expected in 1..=255u8 {
        assert_eq!(machine.step(None), None);
        assert_eq!(machine.cell(), expected);
    }
    assert_eq!(machine.step(None), None);
    assert_eq!(machine.cell(), 0);
    assert!(machine.halted());
}

#[test]
fn run_of_256_increments_returns_cell_to_zero() {
    let mut machine = machine_for(&"+".repeat(256));
    let outcome = machine.run(&[], PLENTY);
    assert!(outcome.halted);
    assert_eq!(machine.cell(), 0);
    assert_eq!(machine.pc(), 256);
    assert!(machine.tape().iter().all(|&cell| cell == 0));
}

#[test]
fn decrement_of_zero_is_255() {
    let mut machine = machine_for("-");
    assert_eq!(machine.step(None), None);
    assert_eq!(machine.cell(), 255);
    assert_eq!(machine.tape()[0], 255);
}

#[test]
fn pointer_wraps_to_the_left() {
    let mut machine = machine_for("<+");
    machine.run(&[], PLENTY);
    assert_eq!(machine.pointer(), 65535);
    assert_eq!(machine.tape()[65535], 1);
    assert_eq!(machine.tape()[0], 0);
}

#[test]
fn pointer_wraps_to_the_right() {
    let mut machine = machine_for(&format!("+{}", ">".repeat(65536)));
    let outcome = machine.run(&[], PLENTY);
    assert!(outcome.halted);
    assert_eq!(machine.pointer(), 0);
    assert_eq!(machine.cell(), 1);
}

#[test]
fn pointer_moves_one_cell_at_a_time() {
    let mut machine = machine_for(">>+<");
    machine.run(&[], PLENTY);
    assert_eq!(machine.pointer(), 1);
    assert_eq!(machine.tape()[2], 1);
}

#[test]
fn clear_loop_halts_with_cell_at_zero() {
    let mut machine = machine_for("+[-]");
    let outcome = machine.run(&[], PLENTY);
    assert!(outcome.halted);
    assert!(machine.halted());
    assert_eq!(machine.cell(), 0);
    assert_eq!(machine.pc(), 4);
    assert!(outcome.output.is_empty());
}

#[test]
fn clear_loop_takes_four_steps() {
    let mut machine = machine_for("+[-]");
    assert!(!machine.run(&[], 3).halted);
    assert_eq!(machine.pc(), 3);
    assert!(machine.run(&[], 1).halted);
    assert_eq!(machine.pc(), 4);
}

#[test]
fn left_bracket_skips_the_loop_on_zero() {
    let mut machine = machine_for("[+.]-");
    assert_eq!(machine.step(None), None);
    assert_eq!(machine.pc(), 4);
    assert_eq!(machine.step(None), None);
    assert_eq!(machine.cell(), 255);
    assert!(machine.halted());
}

#[test]
fn left_bracket_enters_the_loop_on_non_zero() {
    let mut machine = machine_for("+[-]");
    machine.step(None);
    machine.step(None);
    assert_eq!(machine.pc(), 2);
}

#[test]
fn right_bracket_jumps_back_on_non_zero() {
    let mut machine = machine_for("++[-]");
    for _ in 0..5 {
        machine.step(None);
    }
    assert_eq!(machine.cell(), 1);
    assert_eq!(machine.pc(), 3);
    machine.step(None);
    machine.step(None);
    assert_eq!(machine.cell(), 0);
    assert_eq!(machine.pc(), 5);
}

#[test]
fn hello_world() {
    let outcome = run(HELLO_WORLD, &[], PLENTY).unwrap();
    assert_eq!(outcome.output, b"Hello World!\n");
    assert!(outcome.halted);
    assert_eq!(outcome.consumed, 0);
}

#[test]
fn hello_world_step_by_step() {
    let mut machine = machine_for(HELLO_WORLD);
    let mut output = Vec::new();
    while !machine.halted() {
        assert!(!machine.wants_input());
        if let Some(byte) = machine.step(None) {
            output.push(byte);
        }
    }
    assert_eq!(output, b"Hello World!\n");
}

#[test]
fn empty_program_is_a_no_op() {
    for code in ["", "just words", " \n\t"] {
        let outcome = run(code, b"unread", PLENTY).unwrap();
        assert!(outcome.halted);
        assert!(outcome.output.is_empty());
        assert_eq!(outcome.consumed, 0);
    }
    let mut machine = machine_for("");
    assert!(machine.halted());
    assert_eq!(machine.step(Some(1)), None);
    assert_eq!(machine.pc(), 0);
    assert!(machine.tape().iter().all(|&cell| cell == 0));
}

#[test]
fn input_at_end_of_stream_stores_zero() {
    let outcome = run("+++,.", &[], PLENTY).unwrap();
    assert!(outcome.halted);
    assert_eq!(outcome.output, vec![0]);
    assert_eq!(outcome.consumed, 0);
}

#[test]
fn input_after_the_last_byte_stores_zero() {
    let outcome = run(",.,.,.", b"A", PLENTY).unwrap();
    assert!(outcome.halted);
    assert_eq!(outcome.output, vec![b'A', 0, 0]);
    assert_eq!(outcome.consumed, 1);
}

#[test]
fn step_with_no_input_byte_clears_the_cell() {
    let mut machine = machine_for("+,");
    machine.step(None);
    assert_eq!(machine.cell(), 1);
    assert!(machine.wants_input());
    assert_eq!(machine.step(None), None);
    assert_eq!(machine.cell(), 0);
    assert!(machine.halted());
}

#[test]
fn step_stores_the_input_byte() {
    let mut machine = machine_for(",");
    assert!(machine.wants_input());
    assert_eq!(machine.step(Some(0x41)), None);
    assert_eq!(machine.cell(), 0x41);
}

#[test]
fn step_ignores_input_unless_it_reads() {
    let mut machine = machine_for("+.");
    assert!(!machine.wants_input());
    assert_eq!(machine.step(Some(9)), None);
    assert_eq!(machine.cell(), 1);
    assert_eq!(machine.step(Some(9)), Some(1));
    assert_eq!(machine.cell(), 1);
}

#[test]
fn output_writes_the_current_cell() {
    let outcome = run("+++.>++.<.", &[], PLENTY).unwrap();
    assert_eq!(outcome.output, vec![3, 2, 3]);
}

#[test]
fn echo_until_end_of_input() {
    let outcome = run(",[.,]", b"abc", PLENTY).unwrap();
    assert!(outcome.halted);
    assert_eq!(outcome.output, b"abc");
    assert_eq!(outcome.consumed, 3);
}

#[test]
fn input_is_read_lazily() {
    let outcome = run(",.", b"xyz", PLENTY).unwrap();
    assert_eq!(outcome.output, b"x");
    assert_eq!(outcome.consumed, 1);
}

#[test]
fn halted_machine_stays_as_it_is() {
    let mut machine = machine_for("+");
    machine.run(&[], PLENTY);
    assert!(machine.halted());
    assert!(!machine.wants_input());
    assert_eq!(machine.step(Some(5)), None);
    assert_eq!(machine.pc(), 1);
    assert_eq!(machine.cell(), 1);
    let outcome = machine.run(b"12", PLENTY);
    assert!(outcome.halted);
    assert_eq!(outcome.consumed, 0);
    assert!(outcome.output.is_empty());
}

#[test]
fn endless_loop_stops_at_the_step_limit() {
    let mut machine = machine_for("+[.]");
    let outcome = machine.run(&[], 9);
    assert!(!outcome.halted);
    assert_eq!(outcome.output, vec![1, 1, 1, 1]);
    assert!(!machine.halted());
}

#[test]
fn zero_steps_do_nothing() {
    let mut machine = machine_for("+.");
    let outcome = machine.run(&[], 0);
    assert!(!outcome.halted);
    assert!(outcome.output.is_empty());
    assert_eq!(machine.pc(), 0);
    assert_eq!(machine.cell(), 0);
}

#[test]
fn run_in_two_parts_equals_run_in_one() {
    let mut whole = machine_for(HELLO_WORLD);
    let all = whole.run(&[], PLENTY);
    let mut parts = machine_for(HELLO_WORLD);
    let mut first = parts.run(&[], 500);
    assert!(!first.halted);
    let second = parts.run(&[], PLENTY);
    assert!(second.halted);
    first.output.extend(second.output);
    assert_eq!(first.output, all.output);
    assert_eq!(parts.tape(), whole.tape());
    assert_eq!(parts.pointer(), whole.pointer());
}

#[test]
fn run_rejects_unmatched_brackets_before_running() {
    assert_eq!(
        run(".[", &[], PLENTY).unwrap_err(),
        ParseError::UnmatchedLeftBracket
    );
    assert_eq!(
        run(".]", &[], PLENTY).unwrap_err(),
        ParseError::UnmatchedRightBracket
    );
}

#[test]
fn increments_add_modulo_256() {
    let mut machine = machine_for(&format!("+++++{}", "+".repeat(295)));
    let outcome = machine.run(&[], PLENTY);
    assert!(outcome.halted);
    assert_eq!(machine.cell(), 44);
    assert_eq!(machine.pc(), 300);
}

#[test]
fn decrement_undoes_increment() {
    let mut machine = machine_for("-+>+-");
    machine.run(&[], PLENTY);
    assert_eq!(machine.tape()[0], 0);
    assert_eq!(machine.tape()[1], 0);
}

#[test]
fn clear_loop_takes_two_steps_for_each_unit_and_one() {
    let mut machine = machine_for("+++[-]");
    assert!(!machine.run(&[], 3 + 6).halted);
    assert!(machine.run(&[], 1).halted);
    assert_eq!(machine.cell(), 0);
    assert_eq!(machine.pc(), 6);
}

#[test]
fn clear_loop_on_zero_is_one_step() {
    let mut machine = machine_for("[-]");
    assert!(machine.run(&[], 1).halted);
    assert_eq!(machine.pc(), 3);
    assert_eq!(machine.cell(), 0);
}

#[test]
fn clear_loop_clears_a_byte_that_was_read() {
    let mut machine = machine_for(",[-]");
    let outcome = machine.run(&[200], 1 + 2 * 200 + 1);
    assert!(outcome.halted);
    assert_eq!(outcome.consumed, 1);
    assert_eq!(machine.cell(), 0);
}
