use vstd::prelude::*;

verus! {

/// The failures a codec operation can report.
#[derive(Debug, Clone, Copy, PartialEq, Eq, Structural)]
pub enum Error {
    Error,
    OutOfMemory,
    NotCompressible,
    InputOverrun,
    OutputOverrun,
    LookbehindOverrun,
    EOFNotFound,
    InputNotConsumed,
    NotYetImplemented,
    InvalidArgument,
    InvalidAlignment,
    OutputNotConsumed,
    InternalError,
}

/// The error that a numeric status code stands for (0 is success, negative
/// values are failures);
/// `None` for the success code 0.
pub open spec fn error_of_code(code: i32) -> Option<Error> {
    if code == 0 {
        None
    } else if code == -1 {
        Some(Error::Error)
    } else if code == -2 {
        Some(Error::OutOfMemory)
    } else if code == -3 {
        Some(Error::NotCompressible)
    } else if code == -4 {
        Some(Error::InputOverrun)
    } else if code == -5 {
        Some(Error::OutputOverrun)
    } else if code == -6 {
        Some(Error::LookbehindOverrun)
    } else if code == -7 {
        Some(Error::EOFNotFound)
    } else if code == -8 {
        Some(Error::InputNotConsumed)
    } else if code == -9 {
        Some(Error::NotYetImplemented)
    } else if code == -10 || code == -11 {
        Some(Error::InvalidArgument)
    } else if code == -12 {
        Some(Error::OutputNotConsumed)
    } else if code == -99 {
        Some(Error::InternalError)
    } else {
        Some(Error::Error)
    }
}

pub open spec fn error_text(e: Error) -> Seq<char> {
    match e {
        Error::OutOfMemory => "out of memory"@,
        Error::NotCompressible => "not compressible"@,
        Error::InputOverrun => "input overrun"@,
        Error::OutputOverrun => "output overrun"@,
        Error::LookbehindOverrun => "lookbehind overrun"@,
        Error::EOFNotFound => "EOF not found"@,
        Error::InputNotConsumed => "input not consumed"@,
        Error::NotYetImplemented => "not yet implemented"@,
        Error::InvalidArgument => "invalid argument"@,
        Error::InvalidAlignment => "invalid alignment"@,
        Error::OutputNotConsumed => "output not consumed"@,
        Error::InternalError => "internal error"@,
        Error::Error => "error"@,
    }
}

impl Error {
    /// A short human-readable description of the error.
    pub fn description(&self) -> (r: &'static str)
        ensures
            r@ == error_text(*self),
    {
        match *self {
            Error::OutOfMemory => "out of memory",
            Error::NotCompressible => "not compressible",
            Error::InputOverrun => "input overrun",
            Error::OutputOverrun => "output overrun",
            Error::LookbehindOverrun => "lookbehind overrun",
            Error::EOFNotFound => "EOF not found",
            Error::InputNotConsumed => "input not consumed",
            Error::NotYetImplemented => "not yet implemented",
            Error::InvalidArgument => "invalid argument",
            Error::InvalidAlignment => "invalid alignment",
            Error::OutputNotConsumed => "output not consumed",
            Error::InternalError => "internal error",
            Error::Error => "error",
        }
    }
}

/// Turns a numeric status code into a result: `Ok(value)` for 0, otherwise the
/// error that the code stands for (unknown codes become `Error::Error`).
pub fn lzo_err_code_to_result<T>(code: i32, value: T) -> (r: Result<T, Error>)
    ensures
        error_of_code(code) is None ==> r == Ok::<T, Error>(value),
        error_of_code(code) matches Some(e) ==> r == Err::<T, Error>(e),
{
    let error = match code {
        0 => return Ok(value),
        -1 => Error::Error,
        -2 => Error::OutOfMemory,
        -3 => Error::NotCompressible,
        -4 => Error::InputOverrun,
        -5 => Error::OutputOverrun,
        -6 => Error::LookbehindOverrun,
        -7 => Error::EOFNotFound,
        -8 => Error::InputNotConsumed,
        -9 => Error::NotYetImplemented,
        -10 => Error::InvalidArgument,
        -11 => Error::InvalidArgument,
        -12 => Error::OutputNotConsumed,
        -99 => Error::InternalError,
        _ => Error::Error,
    };
    Err(error)
}

} // verus!
