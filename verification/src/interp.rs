//! The interpreter: a machine with a tape of byte cells that runs a program
//! one instruction at a time.

use vstd::prelude::*;
use crate::ast::{Instruction, Program};
use crate::nesting::runnable;

verus! {

/// Number of cells on the tape.
pub const TAPE_LEN: usize = 30000;

/// Why a run was aborted.
#[derive(Debug, Clone, Copy, PartialEq, Eq, Structural)]
pub enum RuntimeError {
    /// The data pointer was moved off the tape.
    BoundsViolation,
    /// An `Input` instruction found the input at its end.
    StreamError,
}

/// How a run stands.
#[derive(Debug, Clone, Copy, PartialEq, Eq, Structural)]
pub enum Status {
    /// The program counter is still inside the program.
    Running,
    /// The program counter has left the program: the run is complete.
    Halted,
    /// The run was aborted.
    Failed(RuntimeError),
}

/// What a run has written and how it stands.
#[derive(Debug, PartialEq, Eq)]
pub struct Outcome {
    /// The bytes written so far, in order.
    pub output: Vec<u8>,
    /// Whether the run is complete, aborted or cut short.
    pub status: Status,
}

/// The state of the machine proper: program counter, data pointer and tape.
pub struct Cells {
    pub pc: nat,
    pub dp: nat,
    pub tape: Seq<u8>,
}

/// The state of a run: the machine, how much of the input it has read, what
/// it has written, and the failure that aborted it, if one did.
pub struct Config {
    pub cells: Cells,
    pub consumed: nat,
    pub output: Seq<u8>,
    pub failure: Option<RuntimeError>,
}

/// What the instruction `instr`, standing at the program counter, does to
/// the machine. `byte` is the next byte of the input, if there is one; only
/// `Input` looks at it. The result is the new state and the byte written, if
/// one was, or the failure.
///
/// A move that would leave the tape fails. Cell values wrap around. A jump
/// sets the program counter to the instruction behind its target. An
/// `Input` that finds no byte fails: the end of the input is not read as a
/// zero.
pub open spec fn perform(instr: Instruction, m: Cells, byte: Option<u8>) -> Result<
    (Cells, Option<u8>),
    RuntimeError,
> {
    let cell = m.tape[m.dp as int];
    match instr {
        Instruction::MoveLeft(n) => if n > m.dp {
            Err(RuntimeError::BoundsViolation)
        } else {
            Ok((Cells { pc: m.pc + 1, dp: (m.dp - n) as nat, tape: m.tape }, None))
        },
        Instruction::MoveRight(n) => if m.dp + n >= TAPE_LEN {
            Err(RuntimeError::BoundsViolation)
        } else {
            Ok((Cells { pc: m.pc + 1, dp: (m.dp + n) as nat, tape: m.tape }, None))
        },
        Instruction::Inc(n) => Ok(
            (
                Cells {
                    pc: m.pc + 1,
                    dp: m.dp,
                    tape: m.tape.update(m.dp as int, ((cell + n) % 256) as u8),
                },
                None,
            ),
        ),
        Instruction::Dec(n) => Ok(
            (
                Cells {
                    pc: m.pc + 1,
                    dp: m.dp,
                    tape: m.tape.update(m.dp as int, ((cell - n) % 256) as u8),
                },
                None,
            ),
        ),
        Instruction::Input => match byte {
            Some(b) => Ok(
                (Cells { pc: m.pc + 1, dp: m.dp, tape: m.tape.update(m.dp as int, b) }, None),
            ),
            None => Err(RuntimeError::StreamError),
        },
        Instruction::Output => Ok((Cells { pc: m.pc + 1, dp: m.dp, tape: m.tape }, Some(cell))),
        Instruction::LoopEntry(t) => Ok(
            (
                Cells {
                    pc: if cell == 0 {
                        (t + 1) as nat
                    } else {
                        m.pc + 1
                    },
                    dp: m.dp,
                    tape: m.tape,
                },
                None,
            ),
        ),
        Instruction::LoopExit(t) => Ok(
            (
                Cells {
                    pc: if cell != 0 {
                        (t + 1) as nat
                    } else {
                        m.pc + 1
                    },
                    dp: m.dp,
                    tape: m.tape,
                },
                None,
            ),
        ),
    }
}

/// What one step does to a machine that runs `p`: it performs the
/// instruction at the program counter. A machine whose program counter has
/// left the program stays as it is.
pub open spec fn execute(p: Seq<Instruction>, m: Cells, byte: Option<u8>) -> Result<
    (Cells, Option<u8>),
    RuntimeError,
> {
    if m.pc >= p.len() {
        Ok((m, None))
    } else {
        perform(p[m.pc as int], m, byte)
    }
}

/// The state in which every run starts: all cells zero, both pointers at
/// the start, nothing read and nothing written.
pub open spec fn initial() -> Config {
    Config {
        cells: Cells { pc: 0, dp: 0, tape: Seq::new(TAPE_LEN as nat, |i: int| 0u8) },
        consumed: 0,
        output: Seq::empty(),
        failure: None,
    }
}

/// A run that takes no further step: it was aborted, or its program counter
/// has left the program.
pub open spec fn stopped(p: Seq<Instruction>, c: Config) -> bool {
    c.failure is Some || c.cells.pc >= p.len()
}

/// The next byte of `input` for a run that has read `consumed` bytes.
pub open spec fn next_byte(input: Seq<u8>, consumed: nat) -> Option<u8> {
    if consumed < input.len() {
        Some(input[consumed as int])
    } else {
        None
    }
}

/// One step of a run on `input`. A stopped run stays as it is. A failure is
/// recorded and leaves the rest of the state, the output with it, as it was.
pub open spec fn step(p: Seq<Instruction>, input: Seq<u8>, c: Config) -> Config {
    if stopped(p, c) {
        c
    } else {
        match execute(p, c.cells, next_byte(input, c.consumed)) {
            Ok((cells, written)) => Config {
                cells,
                consumed: if p[c.cells.pc as int] is Input {
                    c.consumed + 1
                } else {
                    c.consumed
                },
                output: match written {
                    Some(b) => c.output.push(b),
                    None => c.output,
                },
                failure: None,
            },
            Err(e) => Config { failure: Some(e), ..c },
        }
    }
}

/// The state of a run after `n` steps from `c`.
pub open spec fn run(p: Seq<Instruction>, input: Seq<u8>, c: Config, n: nat) -> Config
    decreases n,
{
    if n == 0 {
        c
    } else {
        step(p, input, run(p, input, c, (n - 1) as nat))
    }
}

/// How the run in state `c` stands.
pub open spec fn status_of(p: Seq<Instruction>, c: Config) -> Status {
    match c.failure {
        Some(e) => Status::Failed(e),
        None => if c.cells.pc >= p.len() {
            Status::Halted
        } else {
            Status::Running
        },
    }
}

/// Once a run has stopped, further steps change nothing.
pub proof fn lemma_run_stays(p: Seq<Instruction>, input: Seq<u8>, c: Config, k: nat, n: nat)
    requires
        k <= n,
        stopped(p, run(p, input, c, k)),
    ensures
        run(p, input, c, n) == run(p, input, c, k),
    decreases n,
{
    if k < n {
        lemma_run_stays(p, input, c, k, (n - 1) as nat);
    }
}

/// The machine: a tape of `TAPE_LEN` cells, a data pointer into it and a
/// program counter.
pub struct Machine {
    pc: usize,
    dp: usize,
    tape: Vec<u8>,
}

impl View for Machine {
    type V = Cells;

    closed spec fn view(&self) -> Cells {
        Cells { pc: self.pc as nat, dp: self.dp as nat, tape: self.tape@ }
    }
}

impl Machine {
    /// The tape has its length and the data pointer is on it.
    pub open spec fn inv(&self) -> bool {
        self@.tape.len() == TAPE_LEN && self@.dp < TAPE_LEN
    }

    /// A machine in its initial state.
    pub fn new() -> (machine: Machine)
        ensures
            machine.inv(),
            machine@ == initial().cells,
    {
        let mut tape: Vec<u8> = Vec::new();
        let mut i: usize = 0;
        while i < TAPE_LEN
            invariant
                i <= TAPE_LEN,
                tape@.len() == i,
                forall|k: int| 0 <= k < i ==> tape@[k] == 0u8,
            decreases TAPE_LEN - i,
        {
            tape.push(0u8);
            i += 1;
        }
        assert(tape@ =~= initial().cells.tape);
        Machine { pc: 0, dp: 0, tape }
    }

    /// True when the program counter has left `program`.
    pub fn halted(&self, program: &Program) -> (done: bool)
        ensures
            done == (self@.pc >= program@.len()),
    {
        self.pc >= program.instructions.len()
    }

    /// True when the next instruction is `Input`, so that the next step
    /// takes a byte of input.
    pub fn wants_input(&self, program: &Program) -> (wants: bool)
        ensures
            wants == (self@.pc < program@.len() && program@[self@.pc as int] is Input),
    {
        if self.pc < program.instructions.len() {
            match program.instructions[self.pc] {
                Instruction::Input => true,
                _ => false,
            }
        } else {
            false
        }
    }

    /// Executes the instruction at the program counter. `byte` is the next
    /// byte of input, `None` at its end. Returns the byte to write, if the
    /// instruction was `Output`. On a failure the machine stays as it was.
    pub fn step(&mut self, program: &Program, byte: Option<u8>) -> (r: Result<
        Option<u8>,
        RuntimeError,
    >)
        requires
            old(self).inv(),
            runnable(program@),
        ensures
            final(self).inv(),
            match execute(program@, old(self)@, byte) {
                Ok((cells, written)) => {
                    &&& r == Ok::<Option<u8>, RuntimeError>(written)
                    &&& final(self)@ == cells
                },
                Err(e) => {
                    &&& r == Err::<Option<u8>, RuntimeError>(e)
                    &&& final(self)@ == old(self)@
                },
            },
    {
        if self.pc >= program.instructions.len() {
            return Ok(None);
        }
        let cell = self.tape[self.dp];
        let mut written: Option<u8> = None;
        let mut next = self.pc + 1;
        match program.instructions[self.pc] {
            Instruction::MoveLeft(n) => {
                if n > self.dp {
                    return Err(RuntimeError::BoundsViolation);
                }
                self.dp = self.dp - n;
            },
            Instruction::MoveRight(n) => {
                if n >= TAPE_LEN - self.dp {
                    return Err(RuntimeError::BoundsViolation);
                }
                self.dp = self.dp + n;
            },
            Instruction::Inc(n) => {
                self.tape.set(self.dp, cell.wrapping_add(n));
            },
            Instruction::Dec(n) => {
                self.tape.set(self.dp, cell.wrapping_sub(n));
            },
            Instruction::Input => {
                match byte {
                    Some(b) => {
                        self.tape.set(self.dp, b);
                    },
                    None => {
                        return Err(RuntimeError::StreamError);
                    },
                }
            },
            Instruction::Output => {
                written = Some(cell);
            },
            Instruction::LoopEntry(t) => {
                if cell == 0 {
                    next = t + 1;
                }
            },
            Instruction::LoopExit(t) => {
                if cell != 0 {
                    next = t + 1;
                }
            },
        }
        self.pc = next;
        Ok(written)
    }
}

/// Runs `program` from the initial state on `input`, for at most `limit`
/// steps, and returns what it wrote and how the run stands then: complete,
/// aborted, or still running when the steps were used up. What was written
/// before a failure is part of the outcome.
pub fn interp(program: &Program, input: &[u8], limit: u64) -> (outcome: Outcome)
    requires
        runnable(program@),
    ensures
        outcome.output@ == run(program@, input@, initial(), limit as nat).output,
        outcome.status == status_of(program@, run(program@, input@, initial(), limit as nat)),
{
    let mut machine = Machine::new();
    let mut output: Vec<u8> = Vec::new();
    let mut consumed: usize = 0;
    let mut steps: u64 = 0;
    while steps < limit
        invariant
            steps <= limit,
            machine.inv(),
            runnable(program@),
            consumed <= input@.len(),
            run(program@, input@, initial(), steps as nat) == (Config {
                cells: machine@,
                consumed: consumed as nat,
                output: output@,
                failure: None,
            }),
        decreases limit - steps,
    {
        if machine.halted(program) {
            proof {
                lemma_run_stays(program@, input@, initial(), steps as nat, limit as nat);
            }
            return Outcome { output, status: Status::Halted };
        }
        let byte = if consumed < input.len() {
            Some(input[consumed])
        } else {
            None
        };
        let reads = machine.wants_input(program);
        match machine.step(program, byte) {
            Ok(written) => {
                if reads {
                    consumed += 1;
                }
                if let Some(b) = written {
                    output.push(b);
                }
            },
            Err(e) => {
                proof {
                    lemma_run_stays(
                        program@,
                        input@,
                        initial(),
                        (steps + 1) as nat,
                        limit as nat,
                    );
                }
                return Outcome { output, status: Status::Failed(e) };
            },
        }
        steps += 1;
    }
    let status = if machine.halted(program) {
        Status::Halted
    } else {
        Status::Running
    };
    Outcome { output, status }
}

} // verus!
