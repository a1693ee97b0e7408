//! The ways a compilation fails.

use crate::range::char_to_string;
use crate::syntax::Span;
use vstd::prelude::*;
use vstd::string::StringExecFns;

verus! {

/// What is wrong with the endpoints of a range.
#[derive(Clone, Copy, Debug, PartialEq, Eq, Structural)]
pub enum RangeFault {
    /// An endpoint is missing or is not a single character.
    Malformed,
    /// An endpoint is not an ASCII character.
    NotAscii,
    /// The lower endpoint does not lie strictly below the upper one.
    Inverted,
}

/// Why a configuration did not compile. Every failure ends the whole
/// compilation: there is no partial result.
#[derive(Debug, PartialEq, Eq)]
pub enum ParseError {
    /// The text does not match the grammar; `message` is the grammar's own
    /// report, `path` the file it speaks of.
    Grammar { message: String, path: String },
    /// The parsed text holds no main section.
    MainSection,
    /// The file at `path` could not be read.
    ReadingConfig { path: String },
    /// A binding expands to `bindings` triggers but `commands` commands.
    VariantMismatch { bindings: usize, commands: usize, span: Span },
    /// One side of a binding expands to more variants than can be counted.
    VariantLimit { span: Span },
    /// The endpoints of a range cannot be expanded.
    RangeBounds { fault: RangeFault, span: Span },
}

/// What a `ParseError` stands for in contracts.
pub enum Failure {
    Grammar { message: Seq<char>, path: Seq<char> },
    MainSection,
    ReadingConfig { path: Seq<char> },
    VariantMismatch { bindings: nat, commands: nat, span: Span },
    VariantLimit { span: Span },
    RangeBounds { fault: RangeFault, span: Span },
}

impl View for ParseError {
    type V = Failure;

    open spec fn view(&self) -> Failure {
        match *self {
            ParseError::Grammar { message, path } => Failure::Grammar {
                message: message@,
                path: path@,
            },
            ParseError::MainSection => Failure::MainSection,
            ParseError::ReadingConfig { path } => Failure::ReadingConfig { path: path@ },
            ParseError::VariantMismatch { bindings, commands, span } => Failure::VariantMismatch {
                bindings: bindings as nat,
                commands: commands as nat,
                span,
            },
            ParseError::VariantLimit { span } => Failure::VariantLimit { span },
            ParseError::RangeBounds { fault, span } => Failure::RangeBounds { fault, span },
        }
    }
}

/// The character of a decimal digit.
pub open spec fn digit(d: nat) -> char {
    ((48 + d) as u8) as char
}

/// The number written in decimal, without leading zeros.
pub open spec fn decimal(n: nat) -> Seq<char>
    decreases n,
{
    if n < 10 {
        seq![digit(n)]
    } else {
        decimal(n / 10).push(digit(n % 10))
    }
}

/// What is said of a fault in the endpoints of a range.
pub open spec fn fault_message(fault: RangeFault) -> Seq<char> {
    match fault {
        RangeFault::Malformed => "the bounds of a range must be single characters"@,
        RangeFault::NotAscii => "the bounds of a range must be ascii"@,
        RangeFault::Inverted => "the lower bound of a range must be less than the upper bound"@,
    }
}

/// What is said of a failure.
pub open spec fn message_of(failure: Failure) -> Seq<char> {
    match failure {
        Failure::Grammar { .. } => "unable to parse grammar from invalid contents"@,
        Failure::MainSection => "hotkey config must contain one and only one main section"@,
        Failure::ReadingConfig { .. } => "unable to read config file"@,
        Failure::VariantMismatch { bindings, commands, .. } =>
            "the number of possible binding variants "@ + decimal(bindings)
            + " does not equal the number of possible command variants "@ + decimal(commands)
            + "."@,
        Failure::VariantLimit { .. } => "the number of possible variants cannot be counted"@,
        Failure::RangeBounds { fault, .. } => fault_message(fault),
    }
}

/// Writes the number in decimal.
pub fn write_decimal(n: usize) -> (s: String)
    ensures
        s@ == decimal(n as nat),
    decreases n,
{
    if n < 10 {
        char_to_string((48 + n as u8) as char)
    } else {
        let mut s = write_decimal(n / 10);
        let last = char_to_string((48 + (n % 10) as u8) as char);
        s.append(last.as_str());
        assert(s@ =~= decimal((n / 10) as nat).push(digit((n % 10) as nat)));
        s
    }
}

impl RangeFault {
    /// What is said of the fault.
    pub fn message(&self) -> (s: String)
        ensures
            s@ == fault_message(*self),
    {
        match self {
            RangeFault::Malformed => "the bounds of a range must be single characters".to_owned(),
            RangeFault::NotAscii => "the bounds of a range must be ascii".to_owned(),
            RangeFault::Inverted => "the lower bound of a range must be less than the upper bound".to_owned(),
        }
    }
}

impl ParseError {
    /// What is said of the failure, in one line. A mismatch of variants is
    /// told with both numbers.
    pub fn message(&self) -> (s: String)
        ensures
            s@ == message_of(self@),
    {
        match self {
            ParseError::Grammar { .. } => "unable to parse grammar from invalid contents".to_owned(),
            ParseError::MainSection => "hotkey config must contain one and only one main section".to_owned(),
            ParseError::ReadingConfig { .. } => "unable to read config file".to_owned(),
            ParseError::VariantMismatch { bindings, commands, .. } => {
                let mut s = "the number of possible binding variants ".to_owned();
                s.append(write_decimal(*bindings).as_str());
                s.append(" does not equal the number of possible command variants ");
                s.append(write_decimal(*commands).as_str());
                s.append(".");
                s
            },
            ParseError::VariantLimit { .. } => "the number of possible variants cannot be counted".to_owned(),
            ParseError::RangeBounds { fault, .. } => fault.message(),
        }
    }
}

} // verus!
