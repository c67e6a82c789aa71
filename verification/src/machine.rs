//! The meaning of a program: a machine that performs one instruction at a
//! time and says, after each step, what its driver has to do.

use vstd::prelude::*;
use crate::parser::{paired, Token};

verus! {

/// Why a run failed.
#[derive(Debug, PartialEq, Eq, Clone, Copy, Structural)]
pub enum RuntimeError {
    /// The pointer was asked to move left of the first cell.
    PointerUnderflow,
}

/// Where a run stands between two steps.
#[derive(Debug, PartialEq, Eq, Clone, Copy, Structural)]
pub enum Phase {
    /// Nothing has happened yet.
    Idle,
    /// The instruction at the counter is the next to be performed.
    Running,
    /// The instruction at the counter waits for a byte of input.
    Reading,
    /// A character was handed out for display and the display is not
    /// refreshed yet.
    Shown,
    /// The run is over and the terminal is not released yet.
    Closing,
    /// The run is over.
    Finished,
}

/// What the driver reports to the machine.
#[derive(Debug, PartialEq, Eq, Clone, Copy, Structural)]
pub enum Event {
    /// The last action, if there was one, has been performed.
    Done,
    /// The byte that was read after the machine asked for one.
    Byte(u8),
}

/// What the machine asks of the driver after a step.
#[derive(Debug, PartialEq, Eq, Clone, Copy, Structural)]
pub enum Action {
    /// Take hold of the terminal.
    Acquire,
    /// Nothing.
    Continue,
    /// Read one byte and report it as `Event::Byte`.
    Read,
    /// Show this character.
    Display(char),
    /// Refresh the display.
    Refresh,
    /// Let go of the terminal.
    Release,
    /// Stop: the run is over.
    Finish,
}

/// The state of a run.
pub struct State {
    /// The instructions.
    pub program: Seq<Token>,
    /// Whether the run uses the terminal.
    pub interactive: bool,
    /// The cells.
    pub tape: Seq<u8>,
    /// The position of the current cell.
    pub pointer: int,
    /// The position of the next instruction.
    pub counter: int,
    /// The characters written so far.
    pub output: Seq<char>,
    /// Where the run stands.
    pub phase: Phase,
    /// Whether the pointer was asked to move left of the first cell.
    pub failed: bool,
}

impl State {
    /// The value of the current cell.
    pub open spec fn cell(self) -> u8 {
        self.tape[self.pointer]
    }

    /// The state of a run of `program` before its first step: one cell
    /// that holds zero, nothing written, and the terminal in use exactly
    /// if the program holds an instruction that reads.
    pub open spec fn initial(program: Seq<Token>) -> State {
        State {
            program,
            interactive: program.contains(Token::Read),
            tape: seq![0u8],
            pointer: 0,
            counter: 0,
            output: Seq::empty(),
            phase: Phase::Idle,
            failed: false,
        }
    }

    /// The pointer is at a cell, the counter at an instruction or at the
    /// end of the program, and the phase fits both.
    pub open spec fn valid(self) -> bool {
        &&& 0 <= self.pointer < self.tape.len()
        &&& 0 <= self.counter <= self.program.len()
        &&& self.interactive == self.program.contains(Token::Read)
        &&& self.phase == Phase::Reading ==> self.counter < self.program.len()
            && self.program[self.counter] == Token::Read
        &&& self.phase == Phase::Shown || self.phase == Phase::Closing ==> self.interactive
        &&& self.failed ==> self.phase == Phase::Closing || self.phase == Phase::Finished
    }

    /// The next step performs the instruction `token`.
    pub open spec fn performs(self, token: Token) -> bool {
        &&& self.phase == Phase::Running || (self.phase == Phase::Idle && !self.interactive)
        &&& 0 <= self.counter < self.program.len()
        &&& self.program[self.counter] == token
    }

    /// The outcome of a run that is over: what was written, or the failure,
    /// with which everything written is lost.
    pub open spec fn result(self) -> Result<Seq<char>, RuntimeError> {
        if self.failed {
            Err(RuntimeError::PointerUnderflow)
        } else {
            Ok(self.output)
        }
    }
}

/// The cell value after an increment: one more, and zero after 255.
pub open spec fn incremented(cell: u8) -> u8 {
    ((cell + 1) % 256) as u8
}

/// The cell value after a decrement: one less, and 255 before zero.
pub open spec fn decremented(cell: u8) -> u8 {
    ((cell + 255) % 256) as u8
}

/// The value stored for a byte that was read: the end-of-transmission byte
/// counts as zero.
pub open spec fn normalized(byte: u8) -> u8 {
    if byte == 4 {
        0
    } else {
        byte
    }
}

/// The counter after a jump to the bracket at `target`: the position after
/// that bracket, or the end of the program if there is no such position.
pub open spec fn landing(program: Seq<Token>, target: usize) -> int {
    if target < program.len() {
        target + 1
    } else {
        program.len() as int
    }
}

/// The state after `token`, which is not `Read`, was performed in `s` with
/// the pointer not asked to leave the tape.
pub open spec fn perform(s: State, token: Token) -> State {
    match token {
        Token::Increase => State {
            tape: s.tape.update(s.pointer, incremented(s.cell())),
            counter: s.counter + 1,
            ..s
        },
        Token::Decrease => State {
            tape: s.tape.update(s.pointer, decremented(s.cell())),
            counter: s.counter + 1,
            ..s
        },
        Token::MoveRight => State {
            tape: if s.pointer + 1 == s.tape.len() {
                s.tape.push(0)
            } else {
                s.tape
            },
            pointer: s.pointer + 1,
            counter: s.counter + 1,
            ..s
        },
        Token::MoveLeft => State { pointer: s.pointer - 1, counter: s.counter + 1, ..s },
        Token::Write => State {
            output: if s.cell() > 0 {
                s.output.push(s.cell() as char)
            } else {
                s.output
            },
            counter: s.counter + 1,
            ..s
        },
        Token::Read => s,
        Token::WhileBegin(target) => State {
            counter: if s.cell() == 0 {
                landing(s.program, target)
            } else {
                s.counter + 1
            },
            ..s
        },
        Token::WhileEnd(target) => State {
            counter: if s.cell() != 0 {
                landing(s.program, target)
            } else {
                s.counter + 1
            },
            ..s
        },
    }
}

/// The end of a run: the terminal is released first if it is in use.
pub open spec fn stop(s: State) -> (State, Action) {
    if s.interactive {
        (State { phase: Phase::Closing, ..s }, Action::Release)
    } else {
        (State { phase: Phase::Finished, ..s }, Action::Finish)
    }
}

/// A step that starts at the instruction at the counter.
pub open spec fn dispatch(s: State) -> (State, Action) {
    if s.counter >= s.program.len() {
        stop(s)
    } else {
        let token = s.program[s.counter];
        if token == Token::Read {
            (State { phase: Phase::Reading, ..s }, Action::Read)
        } else if token == Token::MoveLeft && s.pointer == 0 {
            stop(State { failed: true, ..s })
        } else if token == Token::Write && s.cell() > 0 && s.interactive {
            (State { phase: Phase::Shown, ..perform(s, token) }, Action::Display(s.cell() as char))
        } else {
            (
                State { phase: Phase::Running, ..perform(s, token) },
                if s.interactive {
                    Action::Refresh
                } else {
                    Action::Continue
                },
            )
        }
    }
}

/// One step: the state after `event` arrived in state `s`, and what the
/// driver has to do next.
pub open spec fn transition(s: State, event: Event) -> (State, Action) {
    match s.phase {
        Phase::Idle => if s.interactive {
            (State { phase: Phase::Running, ..s }, Action::Acquire)
        } else {
            dispatch(s)
        },
        Phase::Running => dispatch(s),
        Phase::Reading => match event {
            Event::Byte(byte) => (
                State {
                    tape: s.tape.update(s.pointer, normalized(byte)),
                    counter: s.counter + 1,
                    phase: Phase::Running,
                    ..s
                },
                Action::Refresh,
            ),
            Event::Done => (s, Action::Read),
        },
        Phase::Shown => (State { phase: Phase::Running, ..s }, Action::Refresh),
        Phase::Closing => (State { phase: Phase::Finished, ..s }, Action::Finish),
        Phase::Finished => (s, Action::Finish),
    }
}

/// The outcome of a run that is driven from state `s` for at most `steps`
/// steps and reads its bytes from `input`, in order: `None` if the run is
/// not over by then, or asks for a byte when none is left.
pub open spec fn outcome(s: State, input: Seq<u8>, steps: nat) -> Option<
    Result<Seq<char>, RuntimeError>,
>
    decreases steps,
{
    if s.phase == Phase::Finished {
        Some(s.result())
    } else if steps == 0 {
        None
    } else if s.phase == Phase::Reading {
        if input.len() == 0 {
            None
        } else {
            outcome(
                transition(s, Event::Byte(input[0])).0,
                input.drop_first(),
                (steps - 1) as nat,
            )
        }
    } else {
        outcome(transition(s, Event::Done).0, input, (steps - 1) as nat)
    }
}

/// Every step leaves the pointer at a cell and the counter within the
/// program, keeps the program, and never shortens the tape.
pub proof fn lemma_transition_valid(s: State, event: Event)
    requires
        s.valid(),
    ensures
        transition(s, event).0.valid(),
        transition(s, event).0.program == s.program,
        transition(s, event).0.interactive == s.interactive,
        transition(s, event).0.tape.len() >= s.tape.len(),
{
}

/// A run starts in a valid state.
pub proof fn lemma_initial_valid(program: Seq<Token>)
    ensures
        State::initial(program).valid(),
{
}

/// Cell arithmetic is modulo 256: an increment leaves one more in the
/// current cell and a decrement one less, both modulo 256, so that 255 is
/// followed by zero and zero preceded by 255. Neither touches another cell,
/// the pointer or the length of the tape.
pub proof fn lemma_cells_wrap(s: State, event: Event)
    requires
        s.valid(),
        s.performs(Token::Increase) || s.performs(Token::Decrease),
    ensures
        s.performs(Token::Increase) ==> transition(s, event).0.cell() == (s.cell() + 1) % 256,
        s.performs(Token::Decrease) ==> transition(s, event).0.cell() == (s.cell() - 1) % 256,
        s.performs(Token::Increase) && s.cell() == 255 ==> transition(s, event).0.cell() == 0,
        s.performs(Token::Decrease) && s.cell() == 0 ==> transition(s, event).0.cell() == 255,
        transition(s, event).0.pointer == s.pointer,
        transition(s, event).0.tape.len() == s.tape.len(),
        forall|k: int|
            0 <= k < s.tape.len() && k != s.pointer ==> transition(s, event).0.tape[k]
                == s.tape[k],
{
}

/// A move to the left from the first cell always fails: the step ends the
/// run with `PointerUnderflow`, whatever was written before.
pub proof fn lemma_left_of_first_cell_fails(s: State, event: Event)
    requires
        s.valid(),
        s.performs(Token::MoveLeft),
        s.pointer == 0,
    ensures
        transition(s, event).0.failed,
        transition(s, event).0.result() == Err::<Seq<char>, RuntimeError>(
            RuntimeError::PointerUnderflow,
        ),
        transition(s, event).1 == if s.interactive {
            Action::Release
        } else {
            Action::Finish
        },
        forall|input: Seq<u8>, steps: nat|
            steps >= 2 ==> #[trigger] outcome(s, input, steps) == Some(
                Err::<Seq<char>, RuntimeError>(RuntimeError::PointerUnderflow),
            ),
{
    assert forall|input: Seq<u8>, steps: nat| steps >= 2 implies #[trigger] outcome(
        s,
        input,
        steps,
    ) == Some(Err::<Seq<char>, RuntimeError>(RuntimeError::PointerUnderflow)) by {
        let failed = transition(s, Event::Done).0;
        assert(outcome(s, input, steps) == outcome(failed, input, (steps - 1) as nat));
        if s.interactive {
            let closed = transition(failed, Event::Done).0;
            assert(outcome(failed, input, (steps - 1) as nat) == outcome(
                closed,
                input,
                (steps - 2) as nat,
            ));
        }
    }
}

/// A move to the right from the last cell grows the tape by exactly one
/// cell, which holds zero; no other step changes the length of the tape.
pub proof fn lemma_tape_grows_by_one_cell(s: State, event: Event)
    requires
        s.valid(),
    ensures
        s.performs(Token::MoveRight) ==> transition(s, event).0.pointer == s.pointer + 1,
        s.performs(Token::MoveRight) && s.pointer + 1 == s.tape.len() ==> transition(
            s,
            event,
        ).0.tape == s.tape.push(0),
        !(s.performs(Token::MoveRight) && s.pointer + 1 == s.tape.len()) ==> transition(
            s,
            event,
        ).0.tape.len() == s.tape.len(),
{
}

/// A cell that holds zero is not written: the step appends nothing to the
/// output and hands no character out for display. And no step but the
/// writing of a cell that does not hold zero changes the output or hands a
/// character out, which is then the character of that cell.
pub proof fn lemma_zero_is_not_written(s: State, event: Event)
    requires
        s.valid(),
    ensures
        s.performs(Token::Write) && s.cell() == 0 ==> transition(s, event).0.output == s.output
            && !(transition(s, event).1 is Display),
        s.performs(Token::Write) && s.cell() > 0 ==> transition(s, event).0.output
            == s.output.push(s.cell() as char),
        !s.performs(Token::Write) ==> transition(s, event).0.output == s.output,
        transition(s, event).1 is Display ==> s.interactive && s.performs(Token::Write)
            && s.cell() > 0 && transition(s, event).1 == Action::Display(s.cell() as char),
{
}

/// A loop whose cell holds zero is skipped: the counter lands behind the
/// closing bracket, and tape, pointer and output stay as they are.
pub proof fn lemma_loop_skipped(s: State, event: Event, target: usize)
    requires
        s.valid(),
        s.performs(Token::WhileBegin(target)),
        s.cell() == 0,
        target < s.program.len(),
    ensures
        transition(s, event).0.counter == target + 1,
        transition(s, event).0.tape == s.tape,
        transition(s, event).0.pointer == s.pointer,
        transition(s, event).0.output == s.output,
{
}

/// In a program whose brackets are paired, a jump lands right behind the
/// partner bracket: behind the end of a loop that is skipped, and at the
/// first instruction of a loop that is repeated.
pub proof fn lemma_jump_lands_behind_partner(program: Seq<Token>, at: int)
    requires
        paired(program),
        0 <= at < program.len(),
    ensures
        program[at] matches Token::WhileBegin(target) ==> landing(program, target) == target + 1
            && at < target,
        program[at] matches Token::WhileEnd(target) ==> landing(program, target) == target + 1
            && target < at,
{
}

/// A program that never reads never touches the terminal: its run asks
/// for nothing but to go on or to stop. A program that reads takes hold of
/// the terminal before anything else, and only once: no step leads back to
/// the state in which it does.
pub proof fn lemma_terminal_acquired(s: State, event: Event)
    requires
        s.valid(),
    ensures
        !s.interactive ==> transition(s, event).1 == Action::Continue || transition(s, event).1
            == Action::Finish,
        s.phase == Phase::Idle && s.interactive ==> transition(s, event) == (
            State { phase: Phase::Running, ..s },
            Action::Acquire,
        ),
        transition(s, event).1 == Action::Acquire ==> s.phase == Phase::Idle && s.interactive,
        transition(s, event).0.phase != Phase::Idle,
{
}

/// The terminal is released once, when the run of a program that reads
/// ends, whether it ends well or fails: only a step that ends such a run
/// asks for the release, such a run is not over before it was asked for,
/// the step after it says that the run is over, and from then on no step
/// asks for anything else.
pub proof fn lemma_terminal_released(s: State, event: Event)
    requires
        s.valid(),
    ensures
        transition(s, event).1 == Action::Release <==> s.interactive && s.phase == Phase::Running
            && (s.counter >= s.program.len() || (s.performs(Token::MoveLeft) && s.pointer == 0)),
        transition(s, event).1 == Action::Release ==> transition(s, event).0.phase
            == Phase::Closing,
        s.interactive && s.phase != Phase::Finished && transition(s, event).0.phase
            == Phase::Finished ==> s.phase == Phase::Closing,
        s.phase == Phase::Closing ==> transition(s, event) == (
            State { phase: Phase::Finished, ..s },
            Action::Finish,
        ),
        s.phase == Phase::Finished ==> transition(s, event) == (s, Action::Finish),
{
}

/// Once a run is over within some number of steps, more steps change
/// nothing: the outcome does not depend on the limit.
pub proof fn lemma_outcome_stable(s: State, input: Seq<u8>, steps: nat, more: nat)
    requires
        outcome(s, input, steps) is Some,
        steps <= more,
    ensures
        outcome(s, input, more) == outcome(s, input, steps),
    decreases steps,
{
    if s.phase != Phase::Finished && steps > 0 {
        if s.phase == Phase::Reading {
            lemma_outcome_stable(
                transition(s, Event::Byte(input[0])).0,
                input.drop_first(),
                (steps - 1) as nat,
                (more - 1) as nat,
            );
        } else {
            lemma_outcome_stable(
                transition(s, Event::Done).0,
                input,
                (steps - 1) as nat,
                (more - 1) as nat,
            );
        }
    }
}

/// A run has at most one outcome: whatever limits let it end, it ends the
/// same way.
pub proof fn lemma_outcome_unique(s: State, input: Seq<u8>, steps: nat, other: nat)
    requires
        outcome(s, input, steps) is Some,
        outcome(s, input, other) is Some,
    ensures
        outcome(s, input, steps) == outcome(s, input, other),
{
    if steps <= other {
        lemma_outcome_stable(s, input, steps, other);
    } else {
        lemma_outcome_stable(s, input, other, steps);
    }
}

} // verus!
