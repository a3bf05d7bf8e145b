//! The words in which a parse error is told.
use vstd::prelude::*;
use vstd::string::StringExecFns;
use crate::lexeme::Position;
use crate::parse::{ParseError, ParseErrorView};

verus! {

/// The numeral of a number below ten.
pub open spec fn digit_text(digit: nat) -> Seq<char> {
    if digit == 0 {
        "0"@
    } else if digit == 1 {
        "1"@
    } else if digit == 2 {
        "2"@
    } else if digit == 3 {
        "3"@
    } else if digit == 4 {
        "4"@
    } else if digit == 5 {
        "5"@
    } else if digit == 6 {
        "6"@
    } else if digit == 7 {
        "7"@
    } else if digit == 8 {
        "8"@
    } else {
        "9"@
    }
}

/// A number in decimal notation: the last digit behind the notation of the
/// rest.
pub open spec fn decimal_text(number: nat) -> Seq<char>
    decreases number,
{
    if number < 10 {
        digit_text(number)
    } else {
        decimal_text(number / 10) + digit_text(number % 10)
    }
}

/// A place as a message tells it: the line, then line and column.
pub open spec fn place_text(pos: Position) -> Seq<char> {
    "Line "@ + decimal_text(pos.line as nat) + " ("@ + decimal_text(pos.line as nat) + ":"@
        + decimal_text(pos.column as nat) + ")"@
}

/// The message of a parse error.
pub open spec fn message_of(error: ParseErrorView) -> Seq<char> {
    match error {
        ParseErrorView::LexError { lexeme, pos } => {
            "Lexing failed. It did not recognize the characters '"@ + lexeme + "'. "@
                + place_text(pos)
        },
        ParseErrorView::ExtraSeparator { separator, pos } => {
            "Parsing failed. It did not expect to find '"@ + separator + "' on its own. "@
                + place_text(pos)
        },
        ParseErrorView::MissingSeparator { op_name, separator, pos } => {
            "Parsing failed. It expected to find '"@ + separator + "' as part of "@ + op_name
                + ", but could not. "@ + place_text(pos)
        },
    }
}

/// The numeral of a number below ten.
fn digit(value: usize) -> (text: &'static str)
    requires
        value < 10,
    ensures
        text@ == digit_text(value as nat),
{
    if value == 0 {
        "0"
    } else if value == 1 {
        "1"
    } else if value == 2 {
        "2"
    } else if value == 3 {
        "3"
    } else if value == 4 {
        "4"
    } else if value == 5 {
        "5"
    } else if value == 6 {
        "6"
    } else if value == 7 {
        "7"
    } else if value == 8 {
        "8"
    } else {
        "9"
    }
}

/// A number in decimal notation.
pub fn decimal(number: usize) -> (text: String)
    ensures
        text@ == decimal_text(number as nat),
{
    let mut text = String::from_str(digit(number % 10));
    let mut rest: usize = number / 10;
    while rest > 0
        invariant
            decimal_text(number as nat) == if rest == 0 {
                text@
            } else {
                decimal_text(rest as nat) + text@
            },
        decreases rest,
    {
        let ghost behind = text@;
        let front = String::from_str(digit(rest % 10));
        text = front.concat(text.as_str());
        proof {
            if rest >= 10 {
                assert(decimal_text((rest / 10) as nat) + text@ =~= (decimal_text(
                    (rest / 10) as nat,
                ) + digit_text((rest % 10) as nat)) + behind);
            }
        }
        rest = rest / 10;
    }
    text
}

/// A place as a message tells it.
fn place(pos: &Position) -> (text: String)
    ensures
        text@ == place_text(*pos),
{
    let line = decimal(pos.line);
    let column = decimal(pos.column);
    String::from_str("Line ").concat(line.as_str()).concat(" (").concat(line.as_str()).concat(
        ":",
    ).concat(column.as_str()).concat(")")
}

impl ParseError {
    /// The message of the error: what was found or not found, and where.
    pub fn message(&self) -> (text: String)
        ensures
            text@ == message_of(self@),
    {
        match self {
            ParseError::LexError { lexeme, pos } => {
                let at = place(pos);
                String::from_str("Lexing failed. It did not recognize the characters '").concat(
                    lexeme.as_str(),
                ).concat("'. ").concat(at.as_str())
            },
            ParseError::ExtraSeparator { separator, pos } => {
                let at = place(pos);
                String::from_str("Parsing failed. It did not expect to find '").concat(
                    separator.as_str(),
                ).concat("' on its own. ").concat(at.as_str())
            },
            ParseError::MissingSeparator { op_name, separator, pos } => {
                let at = place(pos);
                String::from_str("Parsing failed. It expected to find '").concat(
                    separator.as_str(),
                ).concat("' as part of ").concat(op_name.as_str()).concat(
                    ", but could not. ",
                ).concat(at.as_str())
            },
        }
    }
}

} // verus!
