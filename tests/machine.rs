use tapelang::machine::{interpret, Action, Machine, Outcome};
use tapelang::parser::Parser;
use tapelang::program::Program;
use tapelang::tape::Tape;

fn program(source: &[u8]) -> Program {
    Parser::new(source).parse().unwrap()
}

fn run(source: &[u8], input: &[u8]) -> (Vec<u8>, Outcome) {
    interpret(&program(source), &input.to_vec(), 100_000)
}

#[test]
fn three_increments_then_output_emit_three() {
    assert_eq!(run(b"+++.", b""), (vec![3], Outcome::Halted));
}

#[test]
fn decrement_on_empty_tape_emits_255() {
    assert_eq!(run(b"-.", b""), (vec![255], Outcome::Halted));
}

#[test]
fn retreat_increment_output_grows_left_by_one() {
    let program = program(b"<+.");
    let mut machine = Machine::new(&program);
    let mut output = Vec::new();
    loop {
        match machine.step() {
            Action::Output(b) => output.push(b),
            Action::Halt => break,
            Action::Continue => {}
            Action::Input => panic!("no input instruction here"),
        }
    }
    assert_eq!(output, vec![1]);
    let tape = machine.tape();
    assert_eq!(tape.storage_len(), 1);
    assert_eq!(tape.origin_offset(), 1);
    assert_eq!(tape.cursor(), -1);
}

#[test]
fn clearing_loop_from_five_runs_five_times() {
    let program = program(b"[-]");
    let mut tape = Tape::new();
    for _ in 0..5 {
        tape.increment_cell();
    }
    let mut machine = Machine::with_tape(&program, tape);
    let mut entries = 0;
    let mut depth = machine.depth();
    loop {
        let action = machine.step();
        if machine.depth() > depth {
            entries += 1;
        }
        depth = machine.depth();
        if action == Action::Halt {
            break;
        }
    }
    assert_eq!(entries, 5);
    let mut tape = machine.into_tape();
    assert_eq!(tape.read(), 0);
}

#[test]
fn loop_on_zero_cell_is_skipped() {
    assert_eq!(run(b"[.+]", b""), (vec![], Outcome::Halted));
    let program = program(b"[+]");
    let mut machine = Machine::new(&program);
    assert_eq!(machine.step(), Action::Continue);
    assert_eq!(machine.depth(), 1);
    assert_eq!(machine.step(), Action::Halt);
    let mut tape = machine.into_tape();
    assert_eq!(tape.read(), 0);
}

#[test]
fn repeated_output_emits_same_byte() {
    assert_eq!(run(b"+++++..", b""), (vec![5, 5], Outcome::Halted));
}

#[test]
fn input_is_written_to_the_cell() {
    assert_eq!(run(b",+.,.", b"AZ"), (vec![b'B', b'Z'], Outcome::Halted));
}

#[test]
fn exhausted_input_ends_the_run() {
    assert_eq!(run(b".,.,.", b"x"), (vec![0, b'x'], Outcome::InputExhausted));
}

#[test]
fn endless_loop_hits_step_limit() {
    let (output, outcome) = interpret(&program(b"+[]"), &Vec::new(), 1000);
    assert_eq!(output, Vec::<u8>::new());
    assert_eq!(outcome, Outcome::StepLimit);
    assert_eq!(interpret(&program(b"+."), &Vec::new(), 0), (vec![], Outcome::StepLimit));
}

#[test]
fn step_waits_at_input_until_fed() {
    let program = program(b",.");
    let mut machine = Machine::new(&program);
    assert!(machine.can_step());
    assert_eq!(machine.step(), Action::Input);
    assert_eq!(machine.step(), Action::Input);
    assert!(machine.feed(42));
    assert!(!machine.feed(43));
    assert_eq!(machine.step(), Action::Output(42));
    assert_eq!(machine.step(), Action::Halt);
}

#[test]
fn copy_loop_moves_value() {
    let source = b"+++++[->++<]>.";
    assert_eq!(run(source, b""), (vec![10], Outcome::Halted));
}

#[test]
fn hello_world_program() {
    let source = b"++++++++[>++++[>++>+++>+++>+<<<<-]>+>+>->>+[<]<-]>>.>---.+++++++..+++.>>.<-.<.+++.------.--------.>>+.>++.";
    assert_eq!(run(source, b"").0, b"Hello World!\n".to_vec());
}

#[test]
fn buffer_layout_after_moves_both_ways() {
    let program = program(b"+<<+++>>.");
    let mut machine = Machine::new(&program);
    let mut output = Vec::new();
    loop {
        match machine.step() {
            Action::Output(b) => output.push(b),
            Action::Halt => break,
            _ => {}
        }
    }
    assert_eq!(output, vec![1]);
    let mut tape = machine.into_tape();
    assert_eq!(tape.storage_len(), 3);
    assert_eq!(tape.origin_offset(), 2);
    assert_eq!(tape.cursor(), 0);
    assert_eq!(tape.read(), 1);
    tape.retreat();
    assert_eq!(tape.read(), 0);
    tape.retreat();
    assert_eq!(tape.read(), 3);
    assert_eq!(tape.storage_len(), 3);
}
