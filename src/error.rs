use vstd::prelude::*;

verus! {

/// Errors that stop a whole run: an unreadable input source, a malformed
/// table, or an operation name that is none of the known ones.
pub enum AppError {
    FileError(String),
    CsvError(String),
    ParseError(String),
}

impl AppError {
    /// The kind of the error, as it prefixes the human-readable message.
    pub fn kind(&self) -> (r: &'static str)
        ensures
            r@ == match self {
                AppError::FileError(_) => "FileError"@,
                AppError::CsvError(_) => "CsvError"@,
                AppError::ParseError(_) => "ParseError"@,
            },
    {
        match self {
            AppError::FileError(_) => "FileError",
            AppError::CsvError(_) => "CsvError",
            AppError::ParseError(_) => "ParseError",
        }
    }

    /// The detail carried by the error.
    pub fn detail(&self) -> (r: &String)
        ensures
            match self {
                AppError::FileError(d) => r == d,
                AppError::CsvError(d) => r == d,
                AppError::ParseError(d) => r == d,
            },
    {
        match self {
            AppError::FileError(d) => d,
            AppError::CsvError(d) => d,
            AppError::ParseError(d) => d,
        }
    }
}

} // verus!
