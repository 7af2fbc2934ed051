//! Errors of the preprocessor, the decoder and the machine.

use vstd::prelude::*;

verus! {

/// Why a program was refused or stopped.
#[derive(Debug, Clone)]
pub enum ZonaryError {
    /// A directive with no words.
    EmptyDirective,
    /// `/00` without exactly two parameters.
    ReplaceCharsArity,
    /// `/00` naming the same character twice.
    IdenticalCustomChars,
    /// `/00` naming `<`, `>`, `/`, `0` or `1`.
    ReservedCustomChar,
    /// `/01` without exactly one parameter.
    BitWidthArity,
    /// A bit width below 2.
    BitWidthTooSmall,
    /// A directive whose first word is none of `/00`, `/01`, `/10`, `/11`.
    UnknownDirective(String),
    /// A directive parameter that is not 8 bytes long.
    ParameterLength,
    /// A directive parameter with a character other than `0` and `1`.
    ParameterNotBinary,
    /// A character code outside 32..=126.
    AsciiOutOfRange,
    /// An instruction cut short by the end of the code; `opcode` is its
    /// 3-bit opcode and `position` the bit just after it.
    IncompleteInstruction { opcode: u8, position: usize },
    /// A second definition of a label.
    LabelAlreadyDefined(u64),
    /// Fewer bits left than a field needs, at the given position.
    NotEnoughBits(usize),
    /// A character other than `0` and `1` where a bit was expected.
    InvalidBinaryChar(char, usize),
    /// An output mode above 3.
    InvalidOutputMode(u8),
    /// An input mode above 3.
    InvalidInputMode(u8),
}

/// The mathematical form of `ZonaryError`, with text as a sequence.
pub enum Fault {
    EmptyDirective,
    ReplaceCharsArity,
    IdenticalCustomChars,
    ReservedCustomChar,
    BitWidthArity,
    BitWidthTooSmall,
    UnknownDirective(Seq<char>),
    ParameterLength,
    ParameterNotBinary,
    AsciiOutOfRange,
    IncompleteInstruction { opcode: u8, position: usize },
    LabelAlreadyDefined(u64),
    NotEnoughBits(usize),
    InvalidBinaryChar(char, usize),
    InvalidOutputMode(u8),
    InvalidInputMode(u8),
}

impl View for ZonaryError {
    type V = Fault;

    open spec fn view(&self) -> Fault {
        match self {
            ZonaryError::EmptyDirective => Fault::EmptyDirective,
            ZonaryError::ReplaceCharsArity => Fault::ReplaceCharsArity,
            ZonaryError::IdenticalCustomChars => Fault::IdenticalCustomChars,
            ZonaryError::ReservedCustomChar => Fault::ReservedCustomChar,
            ZonaryError::BitWidthArity => Fault::BitWidthArity,
            ZonaryError::BitWidthTooSmall => Fault::BitWidthTooSmall,
            ZonaryError::UnknownDirective(s) => Fault::UnknownDirective(s@),
            ZonaryError::ParameterLength => Fault::ParameterLength,
            ZonaryError::ParameterNotBinary => Fault::ParameterNotBinary,
            ZonaryError::AsciiOutOfRange => Fault::AsciiOutOfRange,
            ZonaryError::IncompleteInstruction { opcode, position } => Fault::IncompleteInstruction {
                opcode: *opcode,
                position: *position,
            },
            ZonaryError::LabelAlreadyDefined(l) => Fault::LabelAlreadyDefined(*l),
            ZonaryError::NotEnoughBits(p) => Fault::NotEnoughBits(*p),
            ZonaryError::InvalidBinaryChar(c, p) => Fault::InvalidBinaryChar(*c, *p),
            ZonaryError::InvalidOutputMode(m) => Fault::InvalidOutputMode(*m),
            ZonaryError::InvalidInputMode(m) => Fault::InvalidInputMode(*m),
        }
    }
}

/// A result with its error taken by its view.
pub open spec fn lift<T>(r: Result<T, ZonaryError>) -> Result<T, Fault> {
    match r {
        Ok(v) => Ok(v),
        Err(e) => Err(e@),
    }
}

} // verus!
