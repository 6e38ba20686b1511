use vstd::prelude::*;

use crate::error::Error;
use crate::instr::Instr;

verus! {

/// The number of cells of a machine's tape unless another length is chosen.
pub const TAPE_LEN: usize = 1000;

/// The tape machine: a program counter, a data pointer and a fixed-length tape
/// of byte cells.
pub struct Machine {
    tape: Vec<u8>,
    pc: usize,
    dp: usize,
}

/// The abstract state of a machine.
pub struct MachineView {
    pub pc: int,
    pub dp: int,
    pub tape: Seq<u8>,
}

/// A machine state together with the input still to be read and the output so far.
pub struct Trace {
    pub m: MachineView,
    pub input: Seq<u8>,
    pub output: Seq<u8>,
}

/// What a step of the machine asks of whoever drives it.
#[derive(Copy, Clone, Debug, PartialEq, Eq, Hash, Structural)]
pub enum Action {
    /// An instruction was executed; nothing is asked.
    Continue,
    /// An output instruction was executed: this byte goes to the output stream.
    Emit(u8),
    /// The current instruction reads input: hand the next byte to `feed`.
    Read,
    /// The program counter is past the end of the program.
    Halt,
}

impl View for Machine {
    type V = MachineView;

    closed spec fn view(&self) -> MachineView {
        MachineView { pc: self.pc as int, dp: self.dp as int, tape: self.tape@ }
    }
}

/// Every jump of `prog` targets an index inside `prog`.
pub open spec fn jumps_in_bounds(prog: Seq<Instr>) -> bool {
    forall|p: int|
        0 <= p < prog.len() && (#[trigger] prog[p]) is Jump ==> 0 <= p + prog[p]->Jump_0
            < prog.len()
}

/// The machine has run past the end of the program.
pub open spec fn halted(prog: Seq<Instr>, m: MachineView) -> bool {
    m.pc >= prog.len()
}

/// The state after executing the current instruction, which is not `Input`;
/// an error when it would move the data pointer off the tape.
pub open spec fn advance(prog: Seq<Instr>, m: MachineView) -> Result<MachineView, Error> {
    let cell = m.tape[m.dp];
    let next = MachineView { pc: m.pc + 1, ..m };
    match prog[m.pc] {
        Instr::Forward(n) => if m.dp + n < m.tape.len() {
            Ok(MachineView { dp: m.dp + n, ..next })
        } else {
            Err(Error::MemoryFault)
        },
        Instr::Backward(n) => if m.dp - n >= 0 {
            Ok(MachineView { dp: m.dp - n, ..next })
        } else {
            Err(Error::MemoryFault)
        },
        Instr::Increment(n) => Ok(
            MachineView { tape: m.tape.update(m.dp, ((cell + n) % 256) as u8), ..next },
        ),
        Instr::Decrement(n) => Ok(
            MachineView { tape: m.tape.update(m.dp, ((cell - n) % 256) as u8), ..next },
        ),
        Instr::Jump(d) => if (d > 0 && cell == 0) || (d < 0 && cell != 0) {
            Ok(MachineView { pc: m.pc + d, ..m })
        } else {
            Ok(next)
        },
        _ => Ok(next),
    }
}

/// The state after the current instruction, an `Input`, has read byte `b`.
pub open spec fn after_input(m: MachineView, b: u8) -> MachineView {
    MachineView { pc: m.pc + 1, dp: m.dp, tape: m.tape.update(m.dp, b) }
}

/// One step of a machine that is not halted, reading from and writing to the trace.
pub open spec fn exec_step(prog: Seq<Instr>, t: Trace) -> Result<Trace, Error> {
    if prog[t.m.pc] is Input {
        if t.input.len() == 0 {
            Err(Error::InputExhausted)
        } else {
            Ok(Trace { m: after_input(t.m, t.input[0]), input: t.input.drop_first(), output: t.output })
        }
    } else {
        match advance(prog, t.m) {
            Ok(m2) => Ok(
                Trace {
                    m: m2,
                    input: t.input,
                    output: if prog[t.m.pc] is Output {
                        t.output.push(t.m.tape[t.m.dp])
                    } else {
                        t.output
                    },
                },
            ),
            Err(e) => Err(e),
        }
    }
}

/// The trace after at most `fuel` steps, stopping early when the machine halts or
/// a step faults; the fault, if one ended the run, with the trace as it stood
/// before the faulting step.
pub open spec fn run_for(prog: Seq<Instr>, t: Trace, fuel: nat) -> (Trace, Option<Error>)
    decreases fuel,
{
    if halted(prog, t.m) || fuel == 0 {
        (t, None)
    } else {
        match exec_step(prog, t) {
            Ok(t2) => run_for(prog, t2, (fuel - 1) as nat),
            Err(e) => (t, Some(e)),
        }
    }
}

impl Machine {
    /// The data pointer is on the tape.
    pub open spec fn wf(&self) -> bool {
        0 <= self@.dp < self@.tape.len()
    }

    /// A machine at the start of a program, on a tape of `tape_len` zero cells.
    pub fn new(tape_len: usize) -> (m: Machine)
        requires
            tape_len > 0,
        ensures
            m.wf(),
            m@.pc == 0,
            m@.dp == 0,
            m@.tape == Seq::new(tape_len as nat, |i: int| 0u8),
    {
        let mut tape: Vec<u8> = Vec::new();
        let mut k: usize = 0;
        while k < tape_len
            invariant
                k <= tape_len,
                tape@ == Seq::new(k as nat, |i: int| 0u8),
            decreases tape_len - k,
        {
            tape.push(0u8);
            k += 1;
            assert(tape@ =~= Seq::new(k as nat, |i: int| 0u8));
        }
        Machine { tape, pc: 0, dp: 0 }
    }

    /// Executes the current instruction of `prog`, unless the machine has halted or
    /// the instruction reads input: then it reports `Halt` or `Read` and changes
    /// nothing. An output instruction hands its byte back in `Emit`. A move off the
    /// tape is a `MemoryFault`, and leaves the machine as it was.
    pub fn step(&mut self, prog: &Vec<Instr>) -> (r: Result<Action, Error>)
        requires
            old(self).wf(),
            jumps_in_bounds(prog@),
            prog@.len() <= isize::MAX,
        ensures
            final(self).wf(),
            halted(prog@, old(self)@) ==> r == Ok::<Action, Error>(Action::Halt) && final(self)@
                == old(self)@,
            !halted(prog@, old(self)@) && prog@[old(self)@.pc] is Input ==> r == Ok::<
                Action,
                Error,
            >(Action::Read) && final(self)@ == old(self)@,
            !halted(prog@, old(self)@) && !(prog@[old(self)@.pc] is Input) ==> match advance(
                prog@,
                old(self)@,
            ) {
                Ok(m2) => final(self)@ == m2 && r == Ok::<Action, Error>(
                    if prog@[old(self)@.pc] is Output {
                        Action::Emit(old(self)@.tape[old(self)@.dp])
                    } else {
                        Action::Continue
                    },
                ),
                Err(e) => r == Err::<Action, Error>(e) && final(self)@ == old(self)@,
            },
    {
        if self.pc >= prog.len() {
            return Ok(Action::Halt);
        }
        let cell = self.tape[self.dp];
        match prog[self.pc] {
            Instr::Forward(n) => {
                if n < self.tape.len() - self.dp {
                    self.dp = self.dp + n;
                    self.pc = self.pc + 1;
                    Ok(Action::Continue)
                } else {
                    Err(Error::MemoryFault)
                }
            },
            Instr::Backward(n) => {
                if n <= self.dp {
                    self.dp = self.dp - n;
                    self.pc = self.pc + 1;
                    Ok(Action::Continue)
                } else {
                    Err(Error::MemoryFault)
                }
            },
            Instr::Increment(n) => {
                self.tape.set(self.dp, cell.wrapping_add(n));
                self.pc = self.pc + 1;
                Ok(Action::Continue)
            },
            Instr::Decrement(n) => {
                self.tape.set(self.dp, cell.wrapping_sub(n));
                self.pc = self.pc + 1;
                Ok(Action::Continue)
            },
            Instr::Output => {
                self.pc = self.pc + 1;
                Ok(Action::Emit(cell))
            },
            Instr::Input => Ok(Action::Read),
            Instr::Jump(d) => {
                if (d > 0 && cell == 0) || (d < 0 && cell != 0) {
                    self.pc = (self.pc as isize + d) as usize;
                } else {
                    self.pc = self.pc + 1;
                }
                Ok(Action::Continue)
            },
        }
    }

    /// Completes the current instruction, which reads input, with the next byte of
    /// the input stream; `None` means the stream has ended, an `InputExhausted` fault.
    pub fn feed(&mut self, prog: &Vec<Instr>, byte: Option<u8>) -> (r: Result<(), Error>)
        requires
            old(self).wf(),
            prog@.len() <= isize::MAX,
            !halted(prog@, old(self)@),
            prog@[old(self)@.pc] is Input,
        ensures
            final(self).wf(),
            match byte {
                Some(b) => r == Ok::<(), Error>(()) && final(self)@ == after_input(old(self)@, b),
                None => r == Err::<(), Error>(Error::InputExhausted) && final(self)@ == old(self)@,
            },
    {
        match byte {
            Some(b) => {
                self.tape.set(self.dp, b);
                self.pc = self.pc + 1;
                Ok(())
            },
            None => Err(Error::InputExhausted),
        }
    }

    /// Runs `prog` for at most `max_steps` steps or until it halts, reading input
    /// bytes from `input` in order, and returns the bytes it output. A fault ends
    /// the run with its error, the machine left as it was before the faulting step.
    pub fn run(&mut self, prog: &Vec<Instr>, input: &Vec<u8>, max_steps: usize) -> (r: Result<
        Vec<u8>,
        Error,
    >)
        requires
            old(self).wf(),
            jumps_in_bounds(prog@),
            prog@.len() <= isize::MAX,
        ensures
            final(self).wf(),
            ({
                let (t, fault) = run_for(
                    prog@,
                    (Trace { m: old(self)@, input: input@, output: Seq::empty() }),
                    max_steps as nat,
                );
                &&& final(self)@ == t.m
                &&& match fault {
                    None => r is Ok && r->Ok_0@ == t.output,
                    Some(e) => r == Err::<Vec<u8>, Error>(e),
                }
            }),
    {
        let ghost start = Trace { m: self@, input: input@, output: Seq::empty() };
        let mut out: Vec<u8> = Vec::new();
        let mut k: usize = 0;
        let mut steps: usize = 0;
        proof {
            assert(input@.subrange(0, input@.len() as int) =~= input@);
            assert(out@ =~= Seq::<u8>::empty());
        }
        while steps < max_steps
            invariant
                start == (Trace { m: old(self)@, input: input@, output: Seq::empty() }),
                self.wf(),
                jumps_in_bounds(prog@),
                prog@.len() <= isize::MAX,
                k <= input@.len(),
                steps <= max_steps,
                run_for(prog@, start, max_steps as nat) == run_for(
                    prog@,
                    (Trace { m: self@, input: input@.subrange(k as int, input@.len() as int), output: out@ }),
                    (max_steps - steps) as nat,
                ),
            decreases max_steps - steps,
        {
            let ghost t = Trace {
                m: self@,
                input: input@.subrange(k as int, input@.len() as int),
                output: out@,
            };
            match self.step(prog) {
                Err(e) => {
                    return Err(e);
                },
                Ok(Action::Halt) => {
                    return Ok(out);
                },
                Ok(Action::Continue) => {},
                Ok(Action::Emit(b)) => {
                    out.push(b);
                },
                Ok(Action::Read) => {
                    if k < input.len() {
                        let _ = self.feed(prog, Some(input[k]));
                        proof {
                            assert(t.input[0] == input@[k as int]);
                            assert(t.input.drop_first() =~= input@.subrange(
                                k + 1,
                                input@.len() as int,
                            ));
                        }
                        k = k + 1;
                    } else {
                        return Err(Error::InputExhausted);
                    }
                },
            }
            steps = steps + 1;
        }
        Ok(out)
    }

    /// The program counter.
    pub fn pc(&self) -> (r: usize)
        ensures
            r == self@.pc,
    {
        self.pc
    }

    /// The data pointer.
    pub fn dp(&self) -> (r: usize)
        ensures
            r == self@.dp,
    {
        self.dp
    }

    /// The tape's cells.
    pub fn tape(&self) -> (r: &[u8])
        ensures
            r@ == self@.tape,
    {
        self.tape.as_slice()
    }
}

} // verus!
