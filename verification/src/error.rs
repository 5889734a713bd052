use vstd::prelude::*;

verus! {

/// The ways in which an operation of the codec can fail.
#[derive(Debug, Clone, Copy, PartialEq, Eq)]
pub enum HuffmanError {
    /// A tree was asked for, but the frequency table has no entry.
    EmptyInput,
    /// A symbol of the text has no code in the code table.
    MissingCode,
    /// The payload is malformed, or its bits end in the middle of a code.
    CorruptPayload,
}

impl HuffmanError {
    /// A sentence that says what went wrong.
    pub fn message(&self) -> (text: &'static str)
        ensures
            *self == HuffmanError::EmptyInput ==> text@ == "the frequency table is empty"@,
            *self == HuffmanError::MissingCode ==> text@
                == "a symbol of the text has no code"@,
            *self == HuffmanError::CorruptPayload ==> text@ == "the payload is corrupt"@,
    {
        match self {
            HuffmanError::EmptyInput => "the frequency table is empty",
            HuffmanError::MissingCode => "a symbol of the text has no code",
            HuffmanError::CorruptPayload => "the payload is corrupt",
        }
    }
}

} // verus!
