use vstd::prelude::*;

verus! {

/// Every way an operation of this library can fail.
#[derive(Debug, Clone, Copy, PartialEq, Eq, Structural)]
pub enum MailError {
    /// The instruction bytes name no known operation.
    InvalidInstruction,
    /// The account handed in cannot be written.
    NotWritable,
    /// The account handed in is not owned by this program.
    IncorrectProgramId,
    /// The bytes of a single mail are truncated or inconsistent.
    MalformedRecord,
    /// The bytes of a mail account disagree with its declared counts or hold a bad mail.
    MalformedCollection,
    /// A write would not fit in the buffer, or a declared length points past its end.
    BufferOverflow,
}

impl MailError {
    /// Numeric code of the error, in declaration order.
    pub fn code(&self) -> (r: u32)
        ensures
            r == spec_error_code(*self),
    {
        match self {
            MailError::InvalidInstruction => 0,
            MailError::NotWritable => 1,
            MailError::IncorrectProgramId => 2,
            MailError::MalformedRecord => 3,
            MailError::MalformedCollection => 4,
            MailError::BufferOverflow => 5,
        }
    }
}

/// Numeric code of each error: its position in the declaration.
pub open spec fn spec_error_code(e: MailError) -> u32 {
    match e {
        MailError::InvalidInstruction => 0,
        MailError::NotWritable => 1,
        MailError::IncorrectProgramId => 2,
        MailError::MalformedRecord => 3,
        MailError::MalformedCollection => 4,
        MailError::BufferOverflow => 5,
    }
}

} // verus!
