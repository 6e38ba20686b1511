use vstd::prelude::*;

use crate::error::Error;
use crate::instr::{is_close, is_open, Instr};
use crate::machine::{jumps_in_bounds, run_for, Trace};
use crate::optimize::{opt, optimized};
use crate::resolve::{
    depth, lemma_optimized_keeps_brackets, lemma_resolution_round_trip, resolve_jumps, resolved,
    well_bracketed,
};

verus! {

/// The instruction that a source character stands for, if it is a command.
pub open spec fn lex_char(c: char) -> Option<Instr> {
    match c {
        '>' => Some(Instr::Forward(1)),
        '<' => Some(Instr::Backward(1)),
        '+' => Some(Instr::Increment(1)),
        '-' => Some(Instr::Decrement(1)),
        '.' => Some(Instr::Output),
        ',' => Some(Instr::Input),
        '[' => Some(Instr::Jump(1)),
        ']' => Some(Instr::Jump(-1isize)),
        _ => None,
    }
}

/// The unit instructions of the commands in `cs`, in order; every other
/// character is a comment and is dropped.
pub open spec fn lexed(cs: Seq<char>) -> Seq<Instr>
    decreases cs.len(),
{
    if cs.len() == 0 {
        Seq::empty()
    } else {
        match lex_char(cs.last()) {
            Some(i) => lexed(cs.drop_last()).push(i),
            None => lexed(cs.drop_last()),
        }
    }
}

/// The program that a source text compiles to before its jumps are resolved.
pub open spec fn unresolved(cs: Seq<char>) -> Seq<Instr> {
    optimized(lexed(cs))
}

proof fn lemma_lexed_len(cs: Seq<char>)
    ensures
        lexed(cs).len() <= cs.len(),
    decreases cs.len(),
{
    if cs.len() > 0 {
        lemma_lexed_len(cs.drop_last());
    }
}

proof fn lemma_optimized_len(s: Seq<Instr>)
    ensures
        optimized(s).len() <= s.len(),
    decreases s.len(),
{
    if s.len() > 0 {
        lemma_optimized_len(s.drop_last());
    }
}

/// Turns each command character of `source` into its unit instruction and drops
/// every other character.
pub fn lex(source: &str) -> (r: Vec<Instr>)
    ensures
        r@ == lexed(source@),
        r@.len() <= source@.len(),
{
    let mut v: Vec<Instr> = Vec::new();
    for c in it: source.chars()
        invariant
            it.seq() == source@,
            v@ == lexed(source@.take(it.index() as int)),
    {
        let ghost k = it.index();
        proof {
            assert(source@.take(k + 1).drop_last() =~= source@.take(k as int));
        }
        let x = match c {
            '>' => Some(Instr::Forward(1)),
            '<' => Some(Instr::Backward(1)),
            '+' => Some(Instr::Increment(1)),
            '-' => Some(Instr::Decrement(1)),
            '.' => Some(Instr::Output),
            ',' => Some(Instr::Input),
            '[' => Some(Instr::Jump(1)),
            ']' => Some(Instr::Jump(-1)),
            _ => None,
        };
        if let Some(i) = x {
            v.push(i);
        }
    }
    proof {
        assert(source@.take(source@.len() as int) =~= source@);
        lemma_lexed_len(source@);
    }
    v
}

/// Compiles source text into a runnable program: lexes it, fuses runs of like
/// instructions, and resolves every loop bracket into the offset of its partner.
/// Fails with `BracketMismatch` exactly when the brackets of the source do not
/// balance.
pub fn compile(source: &str) -> (r: Result<Vec<Instr>, Error>)
    requires
        source@.len() <= isize::MAX,
    ensures
        match r {
            Ok(v) => {
                &&& well_bracketed(lexed(source@))
                &&& well_bracketed(unresolved(source@))
                &&& resolved(unresolved(source@), v@)
                &&& jumps_in_bounds(v@)
                &&& v@.len() <= isize::MAX
            },
            Err(e) => !well_bracketed(lexed(source@)) && e == Error::BracketMismatch,
        },
{
    let v = lex(source);
    let v = opt(v);
    proof {
        lemma_optimized_len(lexed(source@));
        lemma_optimized_keeps_brackets(lexed(source@));
    }
    let r = resolve_jumps(v);
    proof {
        if r is Ok {
            lemma_resolved_jumps_in_bounds(unresolved(source@), r->Ok_0@);
        }
    }
    r
}

proof fn lemma_resolved_jumps_in_bounds(s: Seq<Instr>, r: Seq<Instr>)
    requires
        s.len() <= isize::MAX,
        well_bracketed(s),
        resolved(s, r),
    ensures
        jumps_in_bounds(r),
{
    lemma_resolution_round_trip(s, r);
    assert forall|p: int| 0 <= p < r.len() && (#[trigger] r[p]) is Jump implies 0 <= p
        + r[p]->Jump_0 < r.len() by {
        if !is_open(s[p]) && !is_close(s[p]) {
            assert(r[p] == s[p]);
        }
    }
}

/// A source without a single command character compiles to the empty program,
/// which halts at once: running it for any number of steps leaves the machine,
/// its tape and its input as they were, and outputs nothing.
pub proof fn lemma_comment_only_source(cs: Seq<char>, r: Seq<Instr>, t: Trace, fuel: nat)
    requires
        forall|k: int| 0 <= k < cs.len() ==> lex_char(#[trigger] cs[k]) is None,
        resolved(unresolved(cs), r),
        t.m.pc >= 0,
    ensures
        unresolved(cs).len() == 0,
        well_bracketed(unresolved(cs)),
        r.len() == 0,
        run_for(r, t, fuel) == (t, None::<Error>),
{
    lemma_comment_only_lexed(cs);
    assert(depth(unresolved(cs), 0) == 0);
}

proof fn lemma_comment_only_lexed(cs: Seq<char>)
    requires
        forall|k: int| 0 <= k < cs.len() ==> lex_char(#[trigger] cs[k]) is None,
    ensures
        lexed(cs).len() == 0,
    decreases cs.len(),
{
    if cs.len() > 0 {
        let p = cs.drop_last();
        assert forall|k: int| 0 <= k < p.len() implies lex_char(#[trigger] p[k]) is None by {
            assert(p[k] == cs[k]);
        }
        lemma_comment_only_lexed(p);
        assert(lex_char(cs[cs.len() - 1]) is None);
    }
}

} // verus!
