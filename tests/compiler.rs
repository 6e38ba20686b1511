use bf::{compile, resolve_jumps, Error, Instr};

#[test]
fn resolve_links_nested_loops() {
    let raw = vec![Instr::Jump(1), Instr::Jump(1), Instr::Jump(-1), Instr::Jump(-1)];
    assert_eq!(
        resolve_jumps(raw),
        Ok(vec![Instr::Jump(3), Instr::Jump(1), Instr::Jump(-1), Instr::Jump(-3)])
    );
}

#[test]
fn resolve_links_sibling_loops() {
    let raw = vec![
        Instr::Jump(1),
        Instr::Output,
        Instr::Jump(-1),
        Instr::Jump(1),
        Instr::Jump(-1),
    ];
    assert_eq!(
        resolve_jumps(raw),
        Ok(vec![
            Instr::Jump(2),
            Instr::Output,
            Instr::Jump(-2),
            Instr::Jump(1),
            Instr::Jump(-1),
        ])
    );
}

#[test]
fn resolve_round_trip_on_compiled_program() {
    let prog = compile("++[>+[-]<-]>.").unwrap();
    for (idx, ins) in prog.iter().enumerate() {
        if let Instr::Jump(d) = ins {
            let target = (idx as isize + d) as usize;
            match prog[target] {
                Instr::Jump(back) => assert_eq!(target as isize + back, idx as isize),
                other => panic!("jump at {} lands on {:?}", idx, other),
            }
        }
    }
    assert_eq!(
        prog,
        vec![
            Instr::Increment(2),
            Instr::Jump(8),
            Instr::Forward(1),
            Instr::Increment(1),
            Instr::Jump(2),
            Instr::Decrement(1),
            Instr::Jump(-2),
            Instr::Backward(1),
            Instr::Decrement(1),
            Instr::Jump(-8),
            Instr::Forward(1),
            Instr::Output,
        ]
    );
}

#[test]
fn unmatched_close_is_a_mismatch() {
    assert_eq!(compile("]"), Err(Error::BracketMismatch));
    assert_eq!(compile("[]]"), Err(Error::BracketMismatch));
    assert_eq!(compile("+][+"), Err(Error::BracketMismatch));
}

#[test]
fn unmatched_open_is_a_mismatch() {
    assert_eq!(compile("["), Err(Error::BracketMismatch));
    assert_eq!(compile("[[]"), Err(Error::BracketMismatch));
    assert_eq!(
        resolve_jumps(vec![Instr::Jump(1), Instr::Output]),
        Err(Error::BracketMismatch)
    );
}

#[test]
fn empty_and_comment_sources_compile_to_nothing() {
    assert_eq!(compile(""), Ok(Vec::new()));
    assert_eq!(compile("just a comment"), Ok(Vec::new()));
}

#[test]
fn compile_fuses_then_resolves() {
    assert_eq!(
        compile("+++."),
        Ok(vec![Instr::Increment(3), Instr::Output])
    );
}
