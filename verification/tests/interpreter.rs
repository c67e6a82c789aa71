use brainfuck::interpreter::{takes_input, Interpreter};
use brainfuck::machine::{Action, Event, RuntimeError};
use brainfuck::parser::{Parser, Token};

const LIMIT: usize = 1_000_000;

fn parsed(program: &str) -> Parser {
    let mut parser = Parser::new(String::from(program));
    assert_eq!(parser.parse(), Ok(()));
    parser
}

#[test]
fn interpreter_hello_world() {
    let program = String::from("++++++++[>++++[>++>+++>+++>+<<<<-]>+>+>->>+[<]<-]>>.>---.+++++++..+++.>>.<-.<.+++.------.--------.>>+.>++.");
    let mut parser = Parser::new(program);
    assert_eq!(parser.parse(), Ok(()));
    assert_eq!(
        Interpreter::run(parser, &Vec::new(), LIMIT),
        Some(Ok(String::from("Hello World!\n")))
    );
}

#[test]
fn complexer_hello_world() {
    let program = String::from(">++++++++[<+++++++++>-]<.>>+>+>++>[-]+<[>[->+<<++++>]<<]>.+++++++..+++.>>+++++++.<<<[[-]<[-]>]<+++++++++++++++.>>.+++.------.--------.>>+.>++++.");
    let mut parser = Parser::new(program);
    assert_eq!(parser.parse(), Ok(()));
    assert_eq!(
        Interpreter::run(parser, &Vec::new(), LIMIT),
        Some(Ok(String::from("Hello World!\n")))
    );
}

#[test]
fn pointer_underflow() {
    let program = String::from("<");
    let mut parser = Parser::new(program);
    assert_eq!(parser.parse(), Ok(()));
    let outcome = Interpreter::run(parser, &Vec::new(), LIMIT).unwrap();
    assert!(outcome.is_err());
    assert_eq!(outcome, Err(RuntimeError::PointerUnderflow));
}

#[test]
fn memory_underflow() {
    let program = String::from("-");
    let mut parser = Parser::new(program);
    assert_eq!(parser.parse(), Ok(()));
    let outcome = Interpreter::run(parser, &Vec::new(), LIMIT).unwrap();
    assert!(outcome.is_ok());
    assert_eq!(outcome, Ok(String::new()));
}

#[test]
fn comment_loop_runs_no_iteration() {
    assert_eq!(
        Interpreter::run(parsed("[comment]"), &Vec::new(), LIMIT),
        Some(Ok(String::new()))
    );
    assert_eq!(
        Interpreter::run(parsed("[this . would + write]+++."), &Vec::new(), LIMIT),
        Some(Ok(String::from("\u{3}")))
    );
}

#[test]
fn empty_program_writes_nothing() {
    assert_eq!(
        Interpreter::run(parsed(""), &Vec::new(), LIMIT),
        Some(Ok(String::new()))
    );
    assert_eq!(
        Interpreter::run(parsed(""), &Vec::new(), 1),
        Some(Ok(String::new()))
    );
    assert_eq!(Interpreter::run(parsed(""), &Vec::new(), 0), None);
}

#[test]
fn zero_cell_is_not_written() {
    assert_eq!(
        Interpreter::run(parsed("."), &Vec::new(), LIMIT),
        Some(Ok(String::new()))
    );
    assert_eq!(
        Interpreter::run(parsed("+.-.+.>.<."), &Vec::new(), LIMIT),
        Some(Ok(String::from("\u{1}\u{1}\u{1}")))
    );
}

#[test]
fn failure_discards_what_was_written() {
    assert_eq!(
        Interpreter::run(parsed("+++.<."), &Vec::new(), LIMIT),
        Some(Err(RuntimeError::PointerUnderflow))
    );
    assert_eq!(
        Interpreter::run(parsed("><<"), &Vec::new(), LIMIT),
        Some(Err(RuntimeError::PointerUnderflow))
    );
    assert_eq!(
        Interpreter::run(parsed("><"), &Vec::new(), LIMIT),
        Some(Ok(String::new()))
    );
}

#[test]
fn program_reads_its_input_in_order() {
    let input = vec![b'h', b'i', 4];
    assert_eq!(
        Interpreter::run(parsed(",[.,]"), &input, LIMIT),
        Some(Ok(String::from("hi")))
    );
    assert_eq!(
        Interpreter::run(parsed(",>,.<."), &vec![b'a', b'b', b'c'], LIMIT),
        Some(Ok(String::from("ba")))
    );
}

#[test]
fn run_without_enough_input_has_no_outcome() {
    assert_eq!(Interpreter::run(parsed(","), &Vec::new(), LIMIT), None);
    assert_eq!(Interpreter::run(parsed(",[.,]"), &vec![b'h', b'i'], LIMIT), None);
    assert_eq!(
        Interpreter::run(parsed(","), &vec![7], LIMIT),
        Some(Ok(String::new()))
    );
}

#[test]
fn run_that_does_not_end_has_no_outcome() {
    assert_eq!(Interpreter::run(parsed("+[]"), &Vec::new(), 10_000), None);
    assert_eq!(Interpreter::run(parsed("+[>+]"), &Vec::new(), 10_000), None);
}

#[test]
fn outcome_does_not_depend_on_the_limit() {
    // Three instructions and the step that finds the end of the program.
    assert_eq!(Interpreter::run(parsed("++."), &Vec::new(), 3), None);
    for limit in [4, 5, 100, usize::MAX] {
        assert_eq!(
            Interpreter::run(parsed("++."), &Vec::new(), limit),
            Some(Ok(String::from("\u{2}")))
        );
    }
    // Two steps end a failing run.
    assert_eq!(Interpreter::run(parsed("<"), &Vec::new(), 0), None);
    for limit in [1, 2, 3, usize::MAX] {
        assert_eq!(
            Interpreter::run(parsed("<"), &Vec::new(), limit),
            Some(Err(RuntimeError::PointerUnderflow))
        );
    }
}

#[test]
fn bytes_above_127_are_written_as_their_characters() {
    let program = format!("{}.", "+".repeat(200));
    assert_eq!(
        Interpreter::run(parsed(&program), &Vec::new(), LIMIT),
        Some(Ok(String::from("\u{c8}")))
    );
    assert_eq!(
        Interpreter::run(parsed(",."), &vec![255], LIMIT),
        Some(Ok(String::from("\u{ff}")))
    );
}

#[test]
fn loop_runs_while_the_cell_is_not_zero() {
    // 3 * 5 = 15, then the line feed at 10.
    assert_eq!(
        Interpreter::run(parsed("+++[>+++++<-]>.-----."), &Vec::new(), LIMIT),
        Some(Ok(String::from("\u{f}\n")))
    );
}

#[test]
fn jump_to_a_target_outside_the_program_ends_the_run() {
    let mut parser = Parser::new(String::new());
    parser.parsed = vec![
        Token::WhileBegin(usize::MAX),
        Token::Increase,
        Token::Write,
    ];
    assert_eq!(
        Interpreter::run(parser, &Vec::new(), LIMIT),
        Some(Ok(String::new()))
    );
}

fn actions(program: &str, input: &[u8]) -> (Vec<Action>, Interpreter) {
    let mut run = Interpreter::new(parsed(program));
    let mut seen = Vec::new();
    let mut fed = 0;
    let mut event = Event::Done;
    for _ in 0..1000 {
        let (next, action) = run.step(event);
        run = next;
        seen.push(action);
        event = Event::Done;
        match action {
            Action::Read => {
                event = Event::Byte(input[fed]);
                fed += 1;
            }
            Action::Finish => break,
            _ => {}
        }
    }
    (seen, run)
}

#[test]
fn program_that_never_reads_never_touches_the_terminal() {
    let (seen, run) = actions("+.>.<-", &[]);
    assert_eq!(
        seen,
        vec![
            Action::Continue,
            Action::Continue,
            Action::Continue,
            Action::Continue,
            Action::Continue,
            Action::Continue,
            Action::Finish,
        ]
    );
    assert!(run.finished());
    assert_eq!(run.result(), Some(Ok(String::from("\u{1}"))));
}

#[test]
fn program_that_reads_uses_the_terminal() {
    let (seen, run) = actions("+,.>.", &[b'A']);
    assert_eq!(
        seen,
        vec![
            Action::Acquire,
            Action::Refresh,
            Action::Read,
            Action::Refresh,
            Action::Display('A'),
            Action::Refresh,
            Action::Refresh,
            Action::Refresh,
            Action::Release,
            Action::Finish,
        ]
    );
    assert_eq!(run.result(), Some(Ok(String::from("A"))));
}

#[test]
fn terminal_is_released_when_the_run_fails() {
    let (seen, run) = actions(",.<", &[b'x']);
    assert_eq!(
        seen,
        vec![
            Action::Acquire,
            Action::Read,
            Action::Refresh,
            Action::Display('x'),
            Action::Refresh,
            Action::Release,
            Action::Finish,
        ]
    );
    assert_eq!(run.result(), Some(Err(RuntimeError::PointerUnderflow)));
}

#[test]
fn decrement_of_zero_is_255_and_increment_of_255_is_zero() {
    let run = Interpreter::new(parsed("-+"));
    assert_eq!(run.memory(), &vec![0]);
    let (run, action) = run.step(Event::Done);
    assert_eq!(action, Action::Continue);
    assert_eq!(run.memory(), &vec![255]);
    assert_eq!(run.pointer(), 0);
    let (run, _) = run.step(Event::Done);
    assert_eq!(run.memory(), &vec![0]);
    assert_eq!(run.pointer(), 0);
}

#[test]
fn increment_and_decrement_move_by_one() {
    let (_, run) = actions("+++-", &[]);
    assert_eq!(run.memory(), &vec![2]);
    let (_, run) = actions("->-->---", &[]);
    assert_eq!(run.memory(), &vec![255, 254, 253]);
}

#[test]
fn tape_grows_by_one_zero_cell_at_its_end() {
    let run = Interpreter::new(parsed("+>><>"));
    let (run, _) = run.step(Event::Done);
    assert_eq!(run.memory(), &vec![1]);
    let (run, _) = run.step(Event::Done);
    assert_eq!(run.memory(), &vec![1, 0]);
    assert_eq!(run.pointer(), 1);
    let (run, _) = run.step(Event::Done);
    assert_eq!(run.memory(), &vec![1, 0, 0]);
    assert_eq!(run.pointer(), 2);
    let (run, _) = run.step(Event::Done);
    assert_eq!(run.memory(), &vec![1, 0, 0]);
    assert_eq!(run.pointer(), 1);
    let (run, _) = run.step(Event::Done);
    assert_eq!(run.memory(), &vec![1, 0, 0]);
    assert_eq!(run.pointer(), 2);
}

#[test]
fn decrement_does_not_grow_the_tape() {
    let (_, run) = actions("-", &[]);
    assert_eq!(run.memory(), &vec![255]);
    assert_eq!(run.pointer(), 0);
    assert_eq!(run.result(), Some(Ok(String::new())));
}

#[test]
fn move_left_from_the_first_cell_fails() {
    let run = Interpreter::new(parsed("+.<+"));
    let (run, _) = run.step(Event::Done);
    let (run, _) = run.step(Event::Done);
    assert!(!run.finished());
    let (run, action) = run.step(Event::Done);
    assert_eq!(action, Action::Finish);
    assert!(run.finished());
    assert_eq!(run.memory(), &vec![1]);
    assert_eq!(run.result(), Some(Err(RuntimeError::PointerUnderflow)));
}

#[test]
fn end_of_transmission_is_stored_as_zero() {
    let (seen, run) = actions(",.", &[4]);
    assert_eq!(run.memory(), &vec![0]);
    assert!(!seen.iter().any(|action| matches!(action, Action::Display(_))));
    assert_eq!(run.result(), Some(Ok(String::new())));

    let (_, run) = actions(",>,>,", &[3, 4, 5]);
    assert_eq!(run.memory(), &vec![3, 0, 5]);
}

#[test]
fn zero_cell_is_neither_written_nor_shown() {
    let (seen, run) = actions(",[-].", &[2]);
    assert!(!seen.iter().any(|action| matches!(action, Action::Display(_))));
    assert_eq!(run.result(), Some(Ok(String::new())));
}

#[test]
fn waiting_run_asks_again_until_it_gets_a_byte() {
    let run = Interpreter::new(parsed(","));
    let (run, action) = run.step(Event::Done);
    assert_eq!(action, Action::Acquire);
    let (run, action) = run.step(Event::Done);
    assert_eq!(action, Action::Read);
    let (run, action) = run.step(Event::Done);
    assert_eq!(action, Action::Read);
    assert_eq!(run.memory(), &vec![0]);
    let (run, action) = run.step(Event::Byte(9));
    assert_eq!(action, Action::Refresh);
    assert_eq!(run.memory(), &vec![9]);
}

#[test]
fn byte_that_was_not_asked_for_is_ignored() {
    let run = Interpreter::new(parsed("+"));
    let (run, action) = run.step(Event::Byte(9));
    assert_eq!(action, Action::Continue);
    assert_eq!(run.memory(), &vec![1]);
}

#[test]
fn finished_run_stays_finished() {
    let run = Interpreter::new(parsed(""));
    assert!(!run.finished());
    let (run, action) = run.step(Event::Done);
    assert_eq!(action, Action::Finish);
    assert!(run.finished());
    let (run, action) = run.step(Event::Byte(1));
    assert_eq!(action, Action::Finish);
    assert!(run.finished());
    assert_eq!(run.memory(), &vec![0]);
    assert_eq!(run.result(), Some(Ok(String::new())));
}

#[test]
fn run_that_is_not_over_has_no_result() {
    let run = Interpreter::new(parsed("+"));
    assert_eq!(run.result(), None);
    let run = Interpreter::new(parsed("+."));
    let (run, _) = run.step(Event::Done);
    let (run, _) = run.step(Event::Done);
    assert_eq!(run.result(), None);
}

#[test]
fn input_is_taken_exactly_if_an_instruction_reads() {
    assert!(takes_input(&parsed("+,-").parsed));
    assert!(takes_input(&parsed(",").parsed));
    assert!(!takes_input(&parsed("+[>.<-]").parsed));
    assert!(!takes_input(&parsed("").parsed));
}
