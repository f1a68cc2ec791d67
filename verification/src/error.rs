use vstd::prelude::*;

verus! {

/// What can go wrong while decoding or executing an instruction.
/// Each variant carries the offending piece of program text.
#[derive(Debug, PartialEq, Eq)]
pub enum I8048Error {
    InvalidOperand(String),
    InvalidInstruction(String),
    InvalidRegister(String),
    InvalidAddress(String),
}

/// Mathematical model of an [`I8048Error`]: the variant and its text as characters.
pub enum ErrorModel {
    InvalidOperand(Seq<char>),
    InvalidInstruction(Seq<char>),
    InvalidRegister(Seq<char>),
    InvalidAddress(Seq<char>),
}

impl View for I8048Error {
    type V = ErrorModel;

    open spec fn view(&self) -> ErrorModel {
        match self {
            I8048Error::InvalidOperand(s) => ErrorModel::InvalidOperand(s@),
            I8048Error::InvalidInstruction(s) => ErrorModel::InvalidInstruction(s@),
            I8048Error::InvalidRegister(s) => ErrorModel::InvalidRegister(s@),
            I8048Error::InvalidAddress(s) => ErrorModel::InvalidAddress(s@),
        }
    }
}

/// The model of a result: its value, or the model of its error.
pub open spec fn result_model<T>(r: Result<T, I8048Error>) -> Result<T, ErrorModel> {
    match r {
        Ok(v) => Ok(v),
        Err(e) => Err(e@),
    }
}

} // verus!
