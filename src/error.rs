use vstd::prelude::*;
use crate::color::ColorError;

verus! {

/// Declares `serde_json::Error`, which `IntegrationError` carries; nothing is
/// assumed of its values.
#[verifier::external_type_specification]
#[verifier::external_body]
pub struct ExJsonError(serde_json::Error);

/// Declares `std::io::Error`, which `IntegrationError` carries; nothing is
/// assumed of its values.
#[verifier::external_type_specification]
#[verifier::external_body]
pub struct ExIoError(std::io::Error);

/// Why a line of trigger text was rejected.
#[derive(Debug, Clone, PartialEq, Eq)]
pub enum ParsingError {
    MissingArguments,
    ColorVariableNotFound(String),
    InvalidColorVariableName(String),
    ColorError(ColorError),
    InvalidFloat(String),
    InvalidInt(String),
    InvalidBool(String),
    InvalidNote(String),
    NoDefaultColorForNote(String),
    NoTriggerForNote(String),
    UnrecognizedCommand(String),
    InvalidRepeatCommand,
    UnexpectedEndRepeat,
    UnclosedRepeat,
    NoNestedRepeats,
}

/// `ParsingError` with its texts as sequences of characters.
pub enum ParseFault {
    MissingArguments,
    ColorVariableNotFound(Seq<char>),
    InvalidColorVariableName(Seq<char>),
    ColorError(ColorError),
    InvalidFloat(Seq<char>),
    InvalidInt(Seq<char>),
    InvalidBool(Seq<char>),
    InvalidNote(Seq<char>),
    NoDefaultColorForNote(Seq<char>),
    NoTriggerForNote(Seq<char>),
    UnrecognizedCommand(Seq<char>),
    InvalidRepeatCommand,
    UnexpectedEndRepeat,
    UnclosedRepeat,
    NoNestedRepeats,
}

impl View for ParsingError {
    type V = ParseFault;

    open spec fn view(&self) -> ParseFault {
        match self {
            ParsingError::MissingArguments => ParseFault::MissingArguments,
            ParsingError::ColorVariableNotFound(s) => ParseFault::ColorVariableNotFound(s@),
            ParsingError::InvalidColorVariableName(s) => ParseFault::InvalidColorVariableName(s@),
            ParsingError::ColorError(e) => ParseFault::ColorError(*e),
            ParsingError::InvalidFloat(s) => ParseFault::InvalidFloat(s@),
            ParsingError::InvalidInt(s) => ParseFault::InvalidInt(s@),
            ParsingError::InvalidBool(s) => ParseFault::InvalidBool(s@),
            ParsingError::InvalidNote(s) => ParseFault::InvalidNote(s@),
            ParsingError::NoDefaultColorForNote(s) => ParseFault::NoDefaultColorForNote(s@),
            ParsingError::NoTriggerForNote(s) => ParseFault::NoTriggerForNote(s@),
            ParsingError::UnrecognizedCommand(s) => ParseFault::UnrecognizedCommand(s@),
            ParsingError::InvalidRepeatCommand => ParseFault::InvalidRepeatCommand,
            ParsingError::UnexpectedEndRepeat => ParseFault::UnexpectedEndRepeat,
            ParsingError::UnclosedRepeat => ParseFault::UnclosedRepeat,
            ParsingError::NoNestedRepeats => ParseFault::NoNestedRepeats,
        }
    }
}

/// Why an integration step failed.
#[derive(Debug)]
pub enum IntegrationError {
    IoError(std::io::Error),
    SerdeJsonError(serde_json::Error),
    /// The line (counted from 0) and what was wrong with it.
    ParsingError(usize, ParsingError),
    MissingData,
    Cancelled,
}

} // verus!
