//! From source text to instructions.

use vstd::prelude::*;
use crate::brackets::{
    balanced, closes, closing_bracket, depth, depth_after, first_unmatched,
    lemma_balanced_is_well_nested, lemma_closes_unique, lemma_closing_pairs_back,
    lemma_depth_bounds, lemma_depth_outside, lemma_depth_split, lemma_opening_pairs_forth,
    lemma_opens_unique, opening_bracket, opens, unmatched, weight_at, well_nested,
};
use crate::text::characters;

verus! {

/// One instruction. A bracket carries the position of its partner in the
/// instruction sequence.
#[derive(Debug, PartialEq, Eq, Clone, Copy, Structural)]
pub enum Token {
    Increase,
    Decrease,
    MoveRight,
    MoveLeft,
    Write,
    Read,
    WhileBegin(usize),
    WhileEnd(usize),
}

/// Why a text holds no program.
#[derive(Debug, PartialEq, Eq, Clone, Copy, Structural)]
pub enum ParseError {
    /// The bracket at `index`, counted in command characters, has no partner.
    UnbalancedBrackets { index: usize },
}

/// A source text and the instructions parsed so far.
pub struct Parser {
    pub input: String,
    pub parsed: Vec<Token>,
}

/// Whether `c` is one of the eight command characters.
pub open spec fn is_command(c: char) -> bool {
    c == '+' || c == '-' || c == '>' || c == '<' || c == '.' || c == ',' || c == '[' || c == ']'
}

/// The command characters of `text`, in order.
pub open spec fn commands(text: Seq<char>) -> Seq<char> {
    text.filter(|c: char| is_command(c))
}

/// The instruction that the character at `index` of `text` stands for:
/// `None` where there is no character, where it is no command, or where it
/// is a bracket without a partner.
pub open spec fn token_at(text: Seq<char>, index: int) -> Option<Token> {
    if !(0 <= index < text.len()) {
        None
    } else if text[index] == '+' {
        Some(Token::Increase)
    } else if text[index] == '-' {
        Some(Token::Decrease)
    } else if text[index] == '>' {
        Some(Token::MoveRight)
    } else if text[index] == '<' {
        Some(Token::MoveLeft)
    } else if text[index] == '.' {
        Some(Token::Write)
    } else if text[index] == ',' {
        Some(Token::Read)
    } else if text[index] == '[' {
        match closing_bracket(text, index) {
            Some(close) => Some(Token::WhileBegin(close as usize)),
            None => None,
        }
    } else if text[index] == ']' {
        match opening_bracket(text, index) {
            Some(open) => Some(Token::WhileEnd(open as usize)),
            None => None,
        }
    } else {
        None
    }
}

/// The instructions that `source` stands for: one for each of its
/// command characters, in order, with brackets paired by position among
/// the command characters.
pub open spec fn instructions(source: Seq<char>) -> Seq<Token> {
    Seq::new(commands(source).len(), |i: int| token_at(commands(source), i).unwrap())
}

/// How many characters of `text` are commands.
pub open spec fn command_count(text: Seq<char>) -> nat
    decreases text.len(),
{
    if text.len() == 0 {
        0
    } else if is_command(text.last()) {
        command_count(text.drop_last()) + 1
    } else {
        command_count(text.drop_last())
    }
}

/// The command characters of a text are as many as its characters that are
/// commands.
pub proof fn lemma_commands_counted(text: Seq<char>)
    ensures
        commands(text).len() == command_count(text),
    decreases text.len(),
{
    if text.len() > 0 {
        lemma_commands_counted(text.drop_last());
        lemma_commands_push(text.drop_last(), text.last());
        assert(text.drop_last().push(text.last()) == text);
    } else {
        assert(commands(text).len() <= text.len()) by {
            text.lemma_filter_len(|c: char| is_command(c));
        }
    }
}

/// Every bracket instruction of `program` points at a bracket instruction
/// of the other kind that points back at it: a `WhileBegin` forward, a
/// `WhileEnd` backward.
pub open spec fn paired(program: Seq<Token>) -> bool {
    forall|p: int|
        0 <= p < program.len() ==> match #[trigger] program[p] {
            Token::WhileBegin(target) => p < target < program.len() && program[target as int]
                == Token::WhileEnd(p as usize),
            Token::WhileEnd(target) => target < p && program[target as int] == Token::WhileBegin(
                p as usize,
            ),
            _ => true,
        }
}

/// A text stands for one instruction for each of its characters that is a
/// command, and for none for any other character.
pub proof fn lemma_instruction_count(source: Seq<char>)
    ensures
        instructions(source).len() == command_count(source),
        instructions(source).len() <= source.len(),
{
    lemma_commands_counted(source);
    source.lemma_filter_len(|c: char| is_command(c));
}

/// Pairing is symmetric and total: in the instructions of a text whose
/// brackets all have partners, every `WhileBegin` points at the `WhileEnd`
/// that points back at it, and every `WhileEnd` at its `WhileBegin`.
pub proof fn lemma_instructions_paired(source: Seq<char>)
    requires
        balanced(commands(source)),
        commands(source).len() <= usize::MAX,
    ensures
        paired(instructions(source)),
{
    let text = commands(source);
    let program = instructions(source);
    assert forall|p: int| 0 <= p < program.len() implies match #[trigger] program[p] {
        Token::WhileBegin(target) => p < target < program.len() && program[target as int]
            == Token::WhileEnd(p as usize),
        Token::WhileEnd(target) => target < p && program[target as int] == Token::WhileBegin(
            p as usize,
        ),
        _ => true,
    } by {
        assert(!unmatched(text, p));
        if text[p] == '[' {
            let close = closing_bracket(text, p).unwrap();
            lemma_closing_pairs_back(text, p, close);
            lemma_opens_unique(text, close, p, opening_bracket(text, close).unwrap());
        } else if text[p] == ']' {
            let open = opening_bracket(text, p).unwrap();
            lemma_opening_pairs_forth(text, p, open);
            lemma_closes_unique(text, open, p, closing_bracket(text, open).unwrap());
        }
    }
}

/// Appending a character appends it to the command characters if it is
/// one, and leaves them as they are if not.
pub proof fn lemma_commands_push(text: Seq<char>, c: char)
    ensures
        commands(text.push(c)) == if is_command(c) {
            commands(text).push(c)
        } else {
            commands(text)
        },
{
    reveal(Seq::filter);
    assert(text.push(c).drop_last() == text);
}

/// Scans `text` forward from the position after `index` for the bracket
/// that closes a loop opened at `index`.
fn scan_forward(text: &Vec<char>, index: usize) -> (found: Option<usize>)
    ensures
        match found {
            Some(close) => closes(text@, index as int, close as int),
            None => forall|close: int| !closes(text@, index as int, close),
        },
{
    if index >= text.len() {
        return None;
    }
    let mut opened: usize = 0;
    let mut i: usize = index + 1;
    while i < text.len()
        invariant
            index < i <= text.len(),
            opened == depth(text@, index + 1, i as int),
            forall|k: int| index < k < i ==> #[trigger] depth_after(text@, index as int, k) >= 0,
        decreases text.len() - i,
    {
        proof {
            lemma_depth_bounds(text@, index + 1, i as int);
        }
        let c = text[i];
        if c == '[' {
            opened += 1;
        } else if c == ']' {
            if opened == 0 {
                return Some(i);
            } else {
                opened -= 1;
            }
        }
        i += 1;
    }
    None
}

/// Scans `text` backward from the position before `index` for the bracket
/// that opens a loop closed at `index`.
fn scan_backward(text: &Vec<char>, index: usize) -> (found: Option<usize>)
    ensures
        match found {
            Some(open) => opens(text@, index as int, open as int),
            None => forall|open: int| !opens(text@, index as int, open),
        },
{
    let mut i: usize = if index < text.len() {
        index
    } else {
        text.len()
    };
    let mut closed: usize = 0;
    proof {
        assert forall|k: int| i <= k < index implies #[trigger] depth(text@, k, index as int)
            <= 0 by {
            lemma_depth_outside(text@, k, index as int);
        }
        if i < index {
            lemma_depth_outside(text@, i as int, index as int);
        }
    }
    while i > 0
        invariant
            i <= index,
            i <= text.len(),
            closed == -depth(text@, i as int, index as int),
            forall|k: int| i <= k < index ==> #[trigger] depth(text@, k, index as int) <= 0,
        decreases i,
    {
        proof {
            lemma_depth_bounds(text@, i as int, index as int);
            lemma_depth_split(text@, i - 1, i as int, index as int);
            assert(depth(text@, i - 1, i as int) == depth(text@, i - 1, i - 1) + weight_at(
                text@,
                i - 1,
            ));
        }
        i -= 1;
        let c = text[i];
        if c == ']' {
            closed += 1;
        } else if c == '[' {
            if closed == 0 {
                return Some(i);
            } else {
                closed -= 1;
            }
        }
    }
    None
}

/// The instruction for the character at `index` of `text`.
fn token_in(text: &Vec<char>, index: usize) -> (token: Result<Option<Token>, ParseError>)
    ensures
        match token {
            Ok(found) => !unmatched(text@, index as int) && found == token_at(text@, index as int),
            Err(error) => unmatched(text@, index as int) && error == (
            ParseError::UnbalancedBrackets { index }),
        },
{
    if index >= text.len() {
        return Ok(None);
    }
    let c = text[index];
    if c == '+' {
        Ok(Some(Token::Increase))
    } else if c == '-' {
        Ok(Some(Token::Decrease))
    } else if c == '>' {
        Ok(Some(Token::MoveRight))
    } else if c == '<' {
        Ok(Some(Token::MoveLeft))
    } else if c == '.' {
        Ok(Some(Token::Write))
    } else if c == ',' {
        Ok(Some(Token::Read))
    } else if c == '[' {
        match scan_forward(text, index) {
            Some(close) => {
                proof {
                    lemma_closes_unique(
                        text@,
                        index as int,
                        close as int,
                        closing_bracket(text@, index as int).unwrap(),
                    );
                }
                Ok(Some(Token::WhileBegin(close)))
            },
            None => Err(ParseError::UnbalancedBrackets { index }),
        }
    } else if c == ']' {
        match scan_backward(text, index) {
            Some(open) => {
                proof {
                    lemma_opens_unique(
                        text@,
                        index as int,
                        open as int,
                        opening_bracket(text@, index as int).unwrap(),
                    );
                }
                Ok(Some(Token::WhileEnd(open)))
            },
            None => Err(ParseError::UnbalancedBrackets { index }),
        }
    } else {
        Ok(None)
    }
}

/// The position of the bracket that closes a loop opened at `index` of
/// `input`: the first position after `index` at which the text that follows
/// `index` has closed more loops than it opened. Positions count
/// characters; `None` if there is no such position.
pub fn find_closing_bracket(input: &String, index: usize) -> (found: Option<usize>)
    ensures
        match found {
            Some(close) => closes(input@, index as int, close as int) && closing_bracket(
                input@,
                index as int,
            ) == Some(close as int),
            None => closing_bracket(input@, index as int) is None,
        },
{
    let text = characters(input);
    let found = scan_forward(&text, index);
    proof {
        if let Some(close) = found {
            lemma_closes_unique(
                text@,
                index as int,
                close as int,
                closing_bracket(text@, index as int).unwrap(),
            );
        }
    }
    found
}

/// The position of the bracket that opens a loop closed at `index` of
/// `input`: the last position before `index` from which the text up to
/// `index` has opened more loops than it closed. Positions count
/// characters, and those past the end of the input hold no bracket; `None`
/// if there is no such position.
pub fn find_opening_bracket(input: &String, index: usize) -> (found: Option<usize>)
    ensures
        match found {
            Some(open) => opens(input@, index as int, open as int) && opening_bracket(
                input@,
                index as int,
            ) == Some(open as int),
            None => opening_bracket(input@, index as int) is None,
        },
{
    let text = characters(input);
    let found = scan_backward(&text, index);
    proof {
        if let Some(open) = found {
            lemma_opens_unique(
                text@,
                index as int,
                open as int,
                opening_bracket(text@, index as int).unwrap(),
            );
        }
    }
    found
}

impl Parser {
    /// A parser for `input` that has parsed nothing yet.
    pub fn new(input: String) -> (parser: Parser)
        ensures
            parser.input@ == input@,
            parser.parsed@ == Seq::<Token>::empty(),
    {
        Parser { input, parsed: Vec::new() }
    }

    /// Removes from the input every character that is no command.
    pub fn filter_input(&mut self)
        ensures
            final(self).input@ == commands(old(self).input@),
            final(self).parsed@ == old(self).parsed@,
    {
        let source = characters(&self.input);
        let mut kept = String::new();
        let mut i: usize = 0;
        while i < source.len()
            invariant
                i <= source.len(),
                kept@ == commands(source@.take(i as int)),
            decreases source.len() - i,
        {
            let c = source[i];
            proof {
                lemma_commands_push(source@.take(i as int), c);
                assert(source@.take(i + 1) == source@.take(i as int).push(c));
            }
            if c == '+' || c == '-' || c == '>' || c == '<' || c == '.' || c == ',' || c == '['
                || c == ']' {
                kept.push(c);
            }
            i += 1;
        }
        proof {
            assert(source@.take(i as int) == source@);
        }
        self.input = kept;
    }

    /// Parses the input: reduces it to its command characters and, if
    /// every bracket among them has a partner, appends their instructions
    /// to `parsed`. Otherwise reports the first bracket without a partner
    /// and leaves `parsed` as it was.
    pub fn parse(&mut self) -> (result: Result<(), ParseError>)
        ensures
            final(self).input@ == commands(old(self).input@),
            result is Ok <==> balanced(commands(old(self).input@)),
            result is Ok <==> well_nested(commands(old(self).input@)),
            result is Ok ==> final(self).parsed@ == old(self).parsed@ + instructions(
                old(self).input@,
            ),
            result is Ok ==> final(self).parsed@.len() == old(self).parsed@.len() + command_count(
                old(self).input@,
            ),
            result is Ok ==> paired(instructions(old(self).input@)),
            result matches Err(error) ==> first_unmatched(
                final(self).input@,
                error->index as int,
            ),
            result is Err ==> final(self).parsed@ == old(self).parsed@,
    {
        let ghost source = self.input@;
        let ghost before = self.parsed@;
        self.filter_input();
        let text = characters(&self.input);
        let mut tokens: Vec<Token> = Vec::new();
        let mut i: usize = 0;
        while i < text.len()
            invariant
                source == old(self).input@,
                before == old(self).parsed@,
                text@ == commands(source),
                self.input@ == text@,
                self.parsed@ == before,
                i <= text.len(),
                tokens@.len() == i,
                forall|k: int| 0 <= k < i ==> !unmatched(text@, k),
                forall|k: int| 0 <= k < i ==> #[trigger] token_at(text@, k) == Some(tokens@[k]),
            decreases text.len() - i,
        {
            proof {
                source.lemma_filter_pred(|c: char| is_command(c), i as int);
            }
            match token_in(&text, i) {
                Err(error) => {
                    proof {
                        lemma_balanced_is_well_nested(text@);
                    }
                    return Err(error);
                },
                Ok(Some(token)) => {
                    tokens.push(token);
                },
                Ok(None) => {},
            }
            i += 1;
        }
        proof {
            assert(tokens@ =~= instructions(source));
            assert(balanced(text@));
            lemma_balanced_is_well_nested(text@);
            lemma_instructions_paired(source);
            lemma_instruction_count(source);
        }
        self.parsed.append(&mut tokens);
        Ok(())
    }

    /// The instruction for the character at `index` of the input as it
    /// stands, or the error for a bracket there that has no partner.
    /// `Ok(None)` where there is no character or it is no command.
    pub fn parse_token(&self, index: usize) -> (token: Result<Option<Token>, ParseError>)
        ensures
            match token {
                Ok(found) => !unmatched(self.input@, index as int) && found == token_at(
                    self.input@,
                    index as int,
                ),
                Err(error) => unmatched(self.input@, index as int) && error == (
                ParseError::UnbalancedBrackets { index }),
            },
    {
        let text = characters(&self.input);
        token_in(&text, index)
    }
}

} // verus!
