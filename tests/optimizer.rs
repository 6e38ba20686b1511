use bf::{lex, opt, Instr};

#[test]
fn opt_is_idempotent_on_mixed_program() {
    let raw = lex("++>>-<<[->+<].,,+++---");
    let once = opt(raw);
    let twice = opt(once.clone());
    assert_eq!(once, twice);
}

#[test]
fn opt_fuses_unit_moves_into_one() {
    let raw = vec![Instr::Forward(1); 5];
    assert_eq!(opt(raw), vec![Instr::Forward(5)]);
    let raw = vec![Instr::Backward(1); 7];
    assert_eq!(opt(raw), vec![Instr::Backward(7)]);
}

#[test]
fn opt_fuses_cell_changes_modulo_256() {
    assert_eq!(opt(vec![Instr::Increment(1); 3]), vec![Instr::Increment(3)]);
    assert_eq!(opt(vec![Instr::Increment(1); 256]), vec![Instr::Increment(0)]);
    assert_eq!(opt(vec![Instr::Decrement(1); 300]), vec![Instr::Decrement(44)]);
    assert_eq!(
        opt(vec![Instr::Increment(200), Instr::Increment(100)]),
        vec![Instr::Increment(44)]
    );
}

#[test]
fn opt_saturates_move_counts() {
    assert_eq!(
        opt(vec![Instr::Forward(usize::MAX), Instr::Forward(1)]),
        vec![Instr::Forward(usize::MAX)]
    );
    assert_eq!(
        opt(vec![Instr::Backward(usize::MAX - 1), Instr::Backward(5)]),
        vec![Instr::Backward(usize::MAX)]
    );
}

#[test]
fn opt_keeps_categories_apart() {
    let raw = vec![
        Instr::Forward(1),
        Instr::Backward(1),
        Instr::Increment(1),
        Instr::Decrement(1),
    ];
    assert_eq!(opt(raw.clone()), raw);
}

#[test]
fn opt_never_fuses_barriers() {
    let raw = vec![Instr::Output, Instr::Output, Instr::Input, Instr::Input];
    assert_eq!(opt(raw.clone()), raw);
    let raw = vec![Instr::Jump(1), Instr::Jump(1), Instr::Jump(-1), Instr::Jump(-1)];
    assert_eq!(opt(raw.clone()), raw);
    let raw = vec![
        Instr::Increment(1),
        Instr::Output,
        Instr::Increment(1),
        Instr::Jump(1),
        Instr::Increment(1),
        Instr::Input,
        Instr::Increment(1),
    ];
    assert_eq!(opt(raw.clone()), raw);
}

#[test]
fn opt_fuses_on_each_side_of_a_barrier() {
    let raw = lex("++.+++");
    assert_eq!(
        opt(raw),
        vec![Instr::Increment(2), Instr::Output, Instr::Increment(3)]
    );
}

#[test]
fn opt_of_empty_is_empty() {
    assert_eq!(opt(Vec::new()), Vec::new());
}

#[test]
fn lex_drops_comments() {
    assert_eq!(
        lex("a+b-c>d<e.f,g[h]i"),
        vec![
            Instr::Increment(1),
            Instr::Decrement(1),
            Instr::Forward(1),
            Instr::Backward(1),
            Instr::Output,
            Instr::Input,
            Instr::Jump(1),
            Instr::Jump(-1),
        ]
    );
    assert_eq!(lex("hello, world"), vec![Instr::Input]);
    assert_eq!(lex("no commands here"), Vec::new());
    assert_eq!(lex("été ☃ +"), vec![Instr::Increment(1)]);
}
