use crate::error::MailError;
use crate::state::{decode_mail, Mail};
use vstd::prelude::*;
use vstd::slice::slice_subrange;

verus! {

/// An operation requested of the program: one tag byte, then its arguments.
#[derive(Debug, PartialEq)]
pub enum MailInstruction {
    /// Seed the written account with the welcome mail (tag 0).
    ///
    /// Accounts expected: the writable account to initialise.
    InitAccount,
    /// Send a mail (tag 1, then the stored form of the mail).
    ///
    /// Accounts expected: the writable sender, then the writable receiver.
    SendMail { mail: Mail },
}

impl MailInstruction {
    /// Reads an instruction from its bytes. After tag 0 any bytes are ignored;
    /// after tag 1 the rest must hold exactly one stored mail.
    pub fn unpack(input: &[u8]) -> (r: Result<MailInstruction, MailError>)
        ensures
            input@.len() == 0 ==> r == Err::<MailInstruction, MailError>(
                MailError::InvalidInstruction,
            ),
            input@.len() > 0 && input@[0] == 0 ==> r == Ok::<MailInstruction, MailError>(
                MailInstruction::InitAccount,
            ),
            input@.len() > 0 && input@[0] == 1 ==> match decode_mail(input@.skip(1)) {
                Some(m) => r matches Ok(MailInstruction::SendMail { mail }) && mail@ == m,
                None => r == Err::<MailInstruction, MailError>(MailError::MalformedRecord),
            },
            input@.len() > 0 && input@[0] > 1 ==> r == Err::<MailInstruction, MailError>(
                MailError::InvalidInstruction,
            ),
    {
        if input.len() == 0 {
            return Err(MailError::InvalidInstruction);
        }
        let tag = input[0];
        if tag == 0 {
            Ok(MailInstruction::InitAccount)
        } else if tag == 1 {
            let rest = slice_subrange(input, 1, input.len());
            assert(rest@ =~= input@.skip(1));
            match Mail::try_from_slice(rest) {
                Ok(mail) => Ok(MailInstruction::SendMail { mail }),
                Err(e) => Err(e),
            }
        } else {
            Err(MailError::InvalidInstruction)
        }
    }
}

} // verus!
