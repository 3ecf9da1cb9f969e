//! The text form of commands: one command per line, a direction letter, one
//! blank, and a decimal count.

use vstd::prelude::*;
use crate::instruction::Instruction;

verus! {

/// The byte that ends a line.
pub const NEWLINE: u8 = 10;

/// The byte that may stand before [`NEWLINE`] and then belongs to the line end.
pub const RETURN: u8 = 13;

/// The byte between the direction letter and the count.
pub const BLANK: u8 = 32;

/// The letter `U`.
pub const LETTER_UP: u8 = 85;

/// The letter `D`.
pub const LETTER_DOWN: u8 = 68;

/// The letter `L`.
pub const LETTER_LEFT: u8 = 76;

/// The letter `R`.
pub const LETTER_RIGHT: u8 = 82;

/// The digit `0`.
pub const DIGIT_ZERO: u8 = 48;

/// The digit `9`.
pub const DIGIT_NINE: u8 = 57;

/// Why a line is not a command.
#[derive(Clone, Copy, Debug, PartialEq, Eq, Structural)]
pub enum ParseError {
    /// The line does not start with one of the letters `U`, `D`, `L`, `R`
    /// followed by a blank or by the end of the line.
    BadDirection,
    /// Nothing follows the direction letter, or nothing follows the blank.
    MissingCount,
    /// What follows the blank holds a byte that is no decimal digit.
    BadCount,
    /// The count is a decimal number above `u32::MAX`.
    CountTooLarge,
}

/// The command with direction letter `letter` and count `k`, if `letter` is a
/// direction letter.
pub open spec fn command(letter: u8, k: u32) -> Option<Instruction> {
    if letter == LETTER_UP {
        Some(Instruction::Up(k))
    } else if letter == LETTER_DOWN {
        Some(Instruction::Down(k))
    } else if letter == LETTER_LEFT {
        Some(Instruction::Left(k))
    } else if letter == LETTER_RIGHT {
        Some(Instruction::Right(k))
    } else {
        None
    }
}

/// Whether `b` is one of the bytes `0` to `9`.
pub open spec fn is_digit(b: u8) -> bool {
    DIGIT_ZERO <= b <= DIGIT_NINE
}

/// Whether `s` holds decimal digits only.
pub open spec fn all_digits(s: Seq<u8>) -> bool {
    forall|i: int| 0 <= i < s.len() ==> is_digit(#[trigger] s[i])
}

/// The number that the decimal digits `s` write, most significant first.
pub open spec fn decimal(s: Seq<u8>) -> nat
    decreases s.len(),
{
    if s.len() == 0 {
        0
    } else {
        decimal(s.drop_last()) * 10 + (s.last() - DIGIT_ZERO) as nat
    }
}

/// What a line, given without its line end, says.
///
/// A command is a direction letter, one blank, and one or more decimal digits
/// whose number is at most `u32::MAX`: no sign, no other blank, nothing
/// before or after. Leading zeros are allowed. Of any other line this tells
/// the first thing that is wrong with it.
pub open spec fn parsed_line(line: Seq<u8>) -> Result<Instruction, ParseError> {
    if line.len() == 0 || command(line[0], 0) is None {
        Err(ParseError::BadDirection)
    } else if line.len() == 1 {
        Err(ParseError::MissingCount)
    } else if line[1] != BLANK {
        Err(ParseError::BadDirection)
    } else if line.len() == 2 {
        Err(ParseError::MissingCount)
    } else if !all_digits(line.skip(2)) {
        Err(ParseError::BadCount)
    } else if decimal(line.skip(2)) > u32::MAX {
        Err(ParseError::CountTooLarge)
    } else {
        Ok(command(line[0], decimal(line.skip(2)) as u32).unwrap())
    }
}

/// Reads one line, given without its line end.
pub fn parse_line(line: &[u8]) -> (result: Result<Instruction, ParseError>)
    ensures
        result == parsed_line(line@),
{
    if line.len() == 0 {
        return Err(ParseError::BadDirection);
    }
    let letter = line[0];
    if letter != LETTER_UP && letter != LETTER_DOWN && letter != LETTER_LEFT && letter != LETTER_RIGHT
    {
        return Err(ParseError::BadDirection);
    }
    if line.len() == 1 {
        return Err(ParseError::MissingCount);
    }
    if line[1] != BLANK {
        return Err(ParseError::BadDirection);
    }
    if line.len() == 2 {
        return Err(ParseError::MissingCount);
    }
    let ghost digits = line@.skip(2);
    let mut value: u64 = 0;
    let mut too_large = false;
    let mut at: usize = 2;
    while at < line.len()
        invariant
            2 <= at <= line.len(),
            command(line@[0], 0) is Some,
            line@[1] == BLANK,
            line@.len() > 2,
            digits == line@.skip(2),
            all_digits(digits.take(at - 2)),
            !too_large ==> value == decimal(digits.take(at - 2)) && value <= u32::MAX,
            too_large ==> decimal(digits.take(at - 2)) > u32::MAX,
        decreases line.len() - at,
    {
        let b = line[at];
        if b < DIGIT_ZERO || b > DIGIT_NINE {
            assert(!is_digit(digits[at - 2]));
            return Err(ParseError::BadCount);
        }
        assert(digits.take(at - 1).drop_last() =~= digits.take(at - 2));
        if !too_large {
            value = value * 10 + (b - DIGIT_ZERO) as u64;
            if value > u32::MAX as u64 {
                too_large = true;
            }
        }
        at += 1;
    }
    assert(digits.take(at - 2) =~= digits);
    if too_large {
        return Err(ParseError::CountTooLarge);
    }
    let k = value as u32;
    if letter == LETTER_UP {
        Ok(Instruction::Up(k))
    } else if letter == LETTER_DOWN {
        Ok(Instruction::Down(k))
    } else if letter == LETTER_LEFT {
        Ok(Instruction::Left(k))
    } else {
        Ok(Instruction::Right(k))
    }
}

/// A line that is not a command, as contracts speak of it.
pub struct Rejection {
    /// The line's number, counted from 1.
    pub line: nat,
    pub reason: ParseError,
}

/// The first line of an input that is not a command.
#[derive(Clone, Copy, Debug, PartialEq, Eq, Structural)]
pub struct InputError {
    /// The line's number, counted from 1.
    pub line: usize,
    pub reason: ParseError,
}

impl View for InputError {
    type V = Rejection;

    open spec fn view(&self) -> Rejection {
        Rejection { line: self.line as nat, reason: self.reason }
    }
}

/// The number of bytes before the first [`NEWLINE`] of `text`, or the length
/// of `text` if it holds none.
pub open spec fn first_newline(text: Seq<u8>) -> nat
    decreases text.len(),
{
    if text.len() == 0 || text[0] == NEWLINE {
        0
    } else {
        1 + first_newline(text.skip(1))
    }
}

/// `line` without one [`RETURN`] at its end, if there is one.
pub open spec fn without_return(line: Seq<u8>) -> Seq<u8> {
    if line.len() > 0 && line.last() == RETURN {
        line.drop_last()
    } else {
        line
    }
}

/// The lines of a text, each without its line end.
///
/// A line ends with [`NEWLINE`], or with [`RETURN`] and [`NEWLINE`]. What
/// follows the last [`NEWLINE`] is a line too unless it is empty, and it is
/// taken as it stands. So the empty text has no lines, and a text that is one
/// [`NEWLINE`] has one empty line.
pub open spec fn lines_of(text: Seq<u8>) -> Seq<Seq<u8>>
    decreases text.len(),
{
    if text.len() == 0 {
        Seq::empty()
    } else {
        let end = first_newline(text) as int;
        if end >= text.len() {
            Seq::empty().push(text)
        } else {
            Seq::empty().push(without_return(text.take(end))) + lines_of(text.skip(end + 1))
        }
    }
}

/// The commands that `lines` say, in order, or the first line among them that
/// is not a command.
pub open spec fn parsed_lines(lines: Seq<Seq<u8>>) -> Result<Seq<Instruction>, Rejection>
    decreases lines.len(),
{
    if lines.len() == 0 {
        Ok(Seq::empty())
    } else {
        match parsed_lines(lines.drop_last()) {
            Err(rejection) => Err(rejection),
            Ok(commands) => match parsed_line(lines.last()) {
                Ok(command) => Ok(commands.push(command)),
                Err(reason) => Err(Rejection { line: lines.len(), reason }),
            },
        }
    }
}

/// The commands that a whole text says, or its first line that is not a
/// command.
pub open spec fn parsed_input(text: Seq<u8>) -> Result<Seq<Instruction>, Rejection> {
    parsed_lines(lines_of(text))
}

/// `first_newline` is at most the length, no byte before it is a
/// [`NEWLINE`], and the byte at it is one unless the text ends there.
pub proof fn lemma_first_newline(text: Seq<u8>)
    ensures
        first_newline(text) <= text.len(),
        forall|j: int| 0 <= j < first_newline(text) ==> text[j] != NEWLINE,
        first_newline(text) < text.len() ==> text[first_newline(text) as int] == NEWLINE,
    decreases text.len(),
{
    if !(text.len() == 0 || text[0] == NEWLINE) {
        let rest = text.skip(1);
        lemma_first_newline(rest);
        assert forall|j: int| 0 <= j < first_newline(text) implies text[j] != NEWLINE by {
            if j > 0 {
                assert(rest[j - 1] == text[j]);
            }
        }
        if first_newline(text) < text.len() {
            assert(rest[first_newline(rest) as int] == text[first_newline(text) as int]);
        }
    }
}

/// The place where the first line ends is `first_newline`: a place with no
/// [`NEWLINE`] before it that holds one, or is the end of the text.
pub proof fn lemma_first_newline_found(text: Seq<u8>, end: int)
    requires
        0 <= end <= text.len(),
        forall|j: int| 0 <= j < end ==> text[j] != NEWLINE,
        end < text.len() ==> text[end] == NEWLINE,
    ensures
        first_newline(text) == end,
{
    lemma_first_newline(text);
    let found = first_newline(text) as int;
    if found < end {
        assert(text[found] == NEWLINE);
    }
}

/// Once the lines so far hold one that is not a command, further lines do
/// not change what is reported.
pub proof fn lemma_rejection_stands(lines: Seq<Seq<u8>>, more: Seq<Seq<u8>>)
    requires
        parsed_lines(lines) is Err,
    ensures
        parsed_lines(lines + more) == parsed_lines(lines),
    decreases more.len(),
{
    if more.len() == 0 {
        assert(lines + more =~= lines);
    } else {
        lemma_rejection_stands(lines, more.drop_last());
        assert((lines + more).drop_last() =~= lines + more.drop_last());
    }
}

/// Reads a whole text: its lines, in order, as commands. The first line that
/// is not a command ends the reading and is reported with its number.
pub fn parse_input(input: &[u8]) -> (result: Result<Vec<Instruction>, InputError>)
    ensures
        match result {
            Ok(commands) => parsed_input(input@) == Ok::<Seq<Instruction>, Rejection>(commands@),
            Err(error) => parsed_input(input@) == Err::<Seq<Instruction>, Rejection>(error@),
        },
{
    let mut commands: Vec<Instruction> = Vec::new();
    let ghost mut done: Seq<Seq<u8>> = Seq::empty();
    let mut start: usize = 0;
    assert(input@.skip(0) =~= input@);
    assert(done + lines_of(input@) =~= lines_of(input@));
    while start < input.len()
        invariant
            start <= input.len(),
            lines_of(input@) == done + lines_of(input@.skip(start as int)),
            parsed_lines(done) == Ok::<Seq<Instruction>, Rejection>(commands@),
            commands@.len() == done.len(),
            done.len() <= start,
        decreases input.len() - start,
    {
        let ghost rest = input@.skip(start as int);
        let mut end: usize = start;
        while end < input.len() && input[end] != NEWLINE
            invariant
                start <= end <= input.len(),
                forall|j: int| start <= j < end ==> input@[j] != NEWLINE,
            decreases input.len() - end,
        {
            end += 1;
        }
        proof {
            lemma_first_newline_found(rest, end - start);
        }
        let ended = end < input.len();
        let stop = if ended && start < end && input[end - 1] == RETURN {
            end - 1
        } else {
            end
        };
        let next = if ended {
            end + 1
        } else {
            end
        };
        let line = &input[start..stop];
        proof {
            let after = input@.skip(next as int);
            if ended {
                assert(rest.take(end - start) =~= input@.subrange(start as int, end as int));
                assert(line@ =~= without_return(rest.take(end - start)));
                assert(rest.skip(end - start + 1) =~= after);
            } else {
                assert(line@ =~= rest);
                assert(lines_of(after) =~= Seq::<Seq<u8>>::empty());
            }
            assert(lines_of(rest) =~= Seq::empty().push(line@) + lines_of(after));
            assert(lines_of(input@) =~= done.push(line@) + lines_of(after));
            assert(done.push(line@).drop_last() =~= done);
        }
        match parse_line(line) {
            Ok(command) => {
                commands.push(command);
            },
            Err(reason) => {
                proof {
                    lemma_rejection_stands(done.push(line@), lines_of(input@.skip(next as int)));
                }
                return Err(InputError { line: commands.len() + 1, reason });
            },
        }
        proof {
            done = done.push(line@);
        }
        start = next;
    }
    assert(lines_of(input@) =~= done);
    Ok(commands)
}

} // verus!
