use bf::{compile, Action, Error, Instr, Machine, TAPE_LEN};

const HELLO: &str = "++++++++[>++++[>++>+++>+++>+<<<<-]>+>+>->>+[<]<-]>>.>---.+++++++..+++.>>.<-.<.+++.------.--------.>>+.>++.";

fn run_source(source: &str, input: Vec<u8>) -> (Result<Vec<u8>, Error>, Machine, usize) {
    let prog = compile(source).unwrap();
    let mut m = Machine::new(TAPE_LEN);
    let r = m.run(&prog, &input, 1_000_000);
    (r, m, prog.len())
}

#[test]
fn three_increments_output_three() {
    let (r, _, _) = run_source("+++.", Vec::new());
    assert_eq!(r, Ok(vec![3]));
}

#[test]
fn hello_world_program() {
    let (r, m, len) = run_source(HELLO, Vec::new());
    assert_eq!(r, Ok(b"Hello World!\n".to_vec()));
    assert_eq!(m.pc(), len);
}

#[test]
fn input_is_echoed() {
    let (r, _, _) = run_source(",.", vec![65]);
    assert_eq!(r, Ok(vec![65]));
}

#[test]
fn transfer_loop_terminates() {
    let (r, m, len) = run_source("+[->+<]", Vec::new());
    assert_eq!(r, Ok(Vec::new()));
    assert_eq!(m.pc(), len);
    assert_eq!(m.tape()[0], 0);
    assert_eq!(m.tape()[1], 1);
    assert_eq!(m.dp(), 0);
}

#[test]
fn empty_program_halts_at_once() {
    for source in ["", "only words"] {
        let prog = compile(source).unwrap();
        let mut m = Machine::new(TAPE_LEN);
        assert_eq!(m.step(&prog), Ok(Action::Halt));
        assert_eq!(m.run(&prog, &Vec::new(), 10), Ok(Vec::new()));
        assert_eq!(m.pc(), 0);
        assert_eq!(m.dp(), 0);
        assert_eq!(m.tape().len(), TAPE_LEN);
        assert!(m.tape().iter().all(|&c| c == 0));
    }
}

#[test]
fn decrement_wraps_below_zero() {
    let (r, _, _) = run_source("-.", Vec::new());
    assert_eq!(r, Ok(vec![255]));
    let source = format!("{}+.", "-".repeat(257));
    let (r, _, _) = run_source(&source, Vec::new());
    assert_eq!(r, Ok(vec![0]));
}

#[test]
fn loop_on_zero_cell_is_skipped() {
    let (r, m, len) = run_source("[+.]>+.", Vec::new());
    assert_eq!(r, Ok(vec![1]));
    assert_eq!(m.pc(), len);
}

#[test]
fn moving_left_of_the_tape_faults() {
    let (r, _, _) = run_source("<", Vec::new());
    assert_eq!(r, Err(Error::MemoryFault));
}

#[test]
fn moving_right_of_the_tape_faults() {
    let prog = vec![Instr::Forward(3)];
    let mut m = Machine::new(3);
    assert_eq!(m.run(&prog, &Vec::new(), 10), Err(Error::MemoryFault));
    let prog = vec![Instr::Forward(2), Instr::Output];
    let mut m = Machine::new(3);
    assert_eq!(m.run(&prog, &Vec::new(), 10), Ok(vec![0]));
    assert_eq!(m.dp(), 2);
}

#[test]
fn reading_past_the_input_faults() {
    let (r, _, _) = run_source(",.,.", vec![7]);
    assert_eq!(r, Err(Error::InputExhausted));
}

#[test]
fn step_and_feed_drive_input() {
    let prog = compile(",+.").unwrap();
    let mut m = Machine::new(TAPE_LEN);
    assert_eq!(m.step(&prog), Ok(Action::Read));
    assert_eq!(m.pc(), 0);
    assert_eq!(m.feed(&prog, Some(9)), Ok(()));
    assert_eq!(m.step(&prog), Ok(Action::Continue));
    assert_eq!(m.step(&prog), Ok(Action::Emit(10)));
    assert_eq!(m.step(&prog), Ok(Action::Halt));
    let mut m = Machine::new(TAPE_LEN);
    assert_eq!(m.step(&prog), Ok(Action::Read));
    assert_eq!(m.feed(&prog, None), Err(Error::InputExhausted));
}

#[test]
fn step_budget_stops_an_endless_loop() {
    let (r, m, len) = run_source("+[]", Vec::new());
    assert_eq!(r, Ok(Vec::new()));
    assert!(m.pc() < len);
}
