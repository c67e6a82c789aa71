//! Execution of a program, one step at a time.

use vstd::prelude::*;
use crate::machine::{outcome, transition, Action, Event, Phase, RuntimeError, State};
use crate::parser::{Parser, Token};

verus! {

/// A run of a program: the instructions, the tape, the pointer, the
/// counter, and what was written so far.
pub struct Interpreter {
    program: Vec<Token>,
    interactive: bool,
    memory: Vec<u8>,
    pointer: usize,
    counter: usize,
    output: String,
    phase: Phase,
    failed: bool,
}

impl View for Interpreter {
    type V = State;

    closed spec fn view(&self) -> State {
        State {
            program: self.program@,
            interactive: self.interactive,
            tape: self.memory@,
            pointer: self.pointer as int,
            counter: self.counter as int,
            output: self.output@,
            phase: self.phase,
            failed: self.failed,
        }
    }
}

/// Whether `program` holds an instruction that reads.
pub fn takes_input(program: &Vec<Token>) -> (found: bool)
    ensures
        found == program@.contains(Token::Read),
{
    let mut i: usize = 0;
    while i < program.len()
        invariant
            i <= program.len(),
            forall|k: int| 0 <= k < i ==> program@[k] != Token::Read,
        decreases program.len() - i,
    {
        if program[i] == Token::Read {
            return true;
        }
        i += 1;
    }
    false
}

impl Interpreter {
    #[verifier::type_invariant]
    closed spec fn inv(&self) -> bool {
        self@.valid()
    }

    /// A run of the instructions of `parser`, before its first step.
    pub fn new(parser: Parser) -> (run: Interpreter)
        ensures
            run@ == State::initial(parser.parsed@),
    {
        let program = parser.parsed;
        let interactive = takes_input(&program);
        let mut memory: Vec<u8> = Vec::new();
        memory.push(0);
        let run = Interpreter {
            program,
            interactive,
            memory,
            pointer: 0,
            counter: 0,
            output: String::new(),
            phase: Phase::Idle,
            failed: false,
        };
        assert(run@.tape =~= seq![0u8]);
        run
    }

    /// Takes one step: performs at most one instruction and says what the
    /// driver has to do before the next step.
    pub fn step(self, event: Event) -> (next: (Interpreter, Action))
        ensures
            self@.valid(),
            next.0@.valid(),
            (next.0@, next.1) == transition(self@, event),
    {
        proof {
            use_type_invariant(&self);
        }
        let ghost before = self@;
        let Interpreter {
            program,
            interactive,
            mut memory,
            mut pointer,
            mut counter,
            mut output,
            mut phase,
            mut failed,
        } = self;
        assert(pointer < memory.len() && counter <= program.len());
        let mut action = if interactive {
            Action::Refresh
        } else {
            Action::Continue
        };
        if phase == Phase::Idle && interactive {
            phase = Phase::Running;
            action = Action::Acquire;
        } else if phase == Phase::Idle || phase == Phase::Running {
            phase = Phase::Running;
            if counter >= program.len() {
                phase = if interactive {
                    Phase::Closing
                } else {
                    Phase::Finished
                };
                action = if interactive {
                    Action::Release
                } else {
                    Action::Finish
                };
            } else {
                let cell = memory[pointer];
                match program[counter] {
                    Token::Increase => {
                        memory[pointer] = if cell == 255 {
                            0
                        } else {
                            cell + 1
                        };
                        counter += 1;
                    },
                    Token::Decrease => {
                        memory[pointer] = if cell == 0 {
                            255
                        } else {
                            cell - 1
                        };
                        counter += 1;
                    },
                    Token::MoveRight => {
                        pointer += 1;
                        if memory.len() <= pointer {
                            memory.push(0);
                        }
                        counter += 1;
                    },
                    Token::MoveLeft => {
                        if pointer == 0 {
                            failed = true;
                            phase = if interactive {
                                Phase::Closing
                            } else {
                                Phase::Finished
                            };
                            action = if interactive {
                                Action::Release
                            } else {
                                Action::Finish
                            };
                        } else {
                            pointer -= 1;
                            counter += 1;
                        }
                    },
                    Token::Write => {
                        if cell > 0 {
                            let shown = cell as char;
                            output.push(shown);
                            if interactive {
                                phase = Phase::Shown;
                                action = Action::Display(shown);
                            }
                        }
                        counter += 1;
                    },
                    Token::Read => {
                        phase = Phase::Reading;
                        action = Action::Read;
                    },
                    Token::WhileBegin(target) => {
                        if cell == 0 {
                            counter = target;
                        }
                        counter = if counter < program.len() {
                            counter + 1
                        } else {
                            program.len()
                        };
                    },
                    Token::WhileEnd(target) => {
                        if cell != 0 {
                            counter = target;
                        }
                        counter = if counter < program.len() {
                            counter + 1
                        } else {
                            program.len()
                        };
                    },
                }
            }
        } else if phase == Phase::Reading {
            match event {
                Event::Byte(byte) => {
                    memory[pointer] = if byte == 4 {
                        0
                    } else {
                        byte
                    };
                    counter += 1;
                    phase = Phase::Running;
                    action = Action::Refresh;
                },
                Event::Done => {
                    action = Action::Read;
                },
            }
        } else if phase == Phase::Shown {
            phase = Phase::Running;
            action = Action::Refresh;
        } else {
            phase = Phase::Finished;
            action = Action::Finish;
        }
        let next = Interpreter {
            program,
            interactive,
            memory,
            pointer,
            counter,
            output,
            phase,
            failed,
        };
        proof {
            let after = transition(before, event).0;
            assert(next@.tape =~= after.tape);
            assert(next@.output =~= after.output);
        }
        (next, action)
    }

    /// The cells of the tape.
    pub fn memory(&self) -> (cells: &Vec<u8>)
        ensures
            cells@ == self@.tape,
    {
        &self.memory
    }

    /// The position of the current cell.
    pub fn pointer(&self) -> (position: usize)
        ensures
            position == self@.pointer,
    {
        self.pointer
    }

    /// Whether the run is over.
    pub fn finished(&self) -> (over: bool)
        ensures
            over == (self@.phase == Phase::Finished),
    {
        self.phase == Phase::Finished
    }

    /// The outcome of the run, if it is over: what was written, or the
    /// failure.
    pub fn result(self) -> (outcome: Option<Result<String, RuntimeError>>)
        ensures
            match outcome {
                Some(Ok(text)) => self@.phase == Phase::Finished && self@.result() == Ok::<
                    Seq<char>,
                    RuntimeError,
                >(text@),
                Some(Err(error)) => self@.phase == Phase::Finished && self@.result() == Err::<
                    Seq<char>,
                    RuntimeError,
                >(error),
                None => self@.phase != Phase::Finished,
            },
    {
        if self.phase != Phase::Finished {
            None
        } else if self.failed {
            Some(Err(RuntimeError::PointerUnderflow))
        } else {
            Some(Ok(self.output))
        }
    }

    /// Runs the instructions of `parser` for at most `limit` steps, with
    /// the bytes of `input` as what the program reads, in order. `None` if
    /// the run is not over after `limit` steps, or asks for a byte when
    /// none is left.
    pub fn run(parser: Parser, input: &Vec<u8>, limit: usize) -> (ended: Option<
        Result<String, RuntimeError>,
    >)
        ensures
            match ended {
                Some(Ok(text)) => outcome(
                    State::initial(parser.parsed@),
                    input@,
                    limit as nat,
                ) == Some(Ok::<Seq<char>, RuntimeError>(text@)),
                Some(Err(error)) => outcome(
                    State::initial(parser.parsed@),
                    input@,
                    limit as nat,
                ) == Some(Err::<Seq<char>, RuntimeError>(error)),
                None => outcome(
                    State::initial(parser.parsed@),
                    input@,
                    limit as nat,
                ) is None,
            },
    {
        let ghost start = State::initial(parser.parsed@);
        let mut run = Interpreter::new(parser);
        let mut fed: usize = 0;
        let mut steps: usize = 0;
        proof {
            assert(input@.skip(0) == input@);
        }
        while !run.finished() && steps < limit
            invariant
                start == State::initial(parser.parsed@),
                fed <= input.len(),
                steps <= limit,
                outcome(start, input@, limit as nat) == outcome(
                    run@,
                    input@.skip(fed as int),
                    (limit - steps) as nat,
                ),
            decreases limit - steps,
        {
            let event = if run.phase == Phase::Reading {
                if fed >= input.len() {
                    assert(input@.skip(fed as int).len() == 0);
                    return None;
                }
                proof {
                    assert(input@.skip(fed as int).drop_first() == input@.skip(fed + 1));
                    assert(input@.skip(fed as int)[0] == input@[fed as int]);
                }
                fed += 1;
                Event::Byte(input[fed - 1])
            } else {
                Event::Done
            };
            let (next, _) = run.step(event);
            run = next;
            steps += 1;
        }
        run.result()
    }
}

} // verus!
