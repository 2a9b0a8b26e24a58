//! Checks whether the format tag of a received message can be processed by
//! the later formatting steps, which only understand HTML.

use vstd::prelude::*;

verus! {

/// The format tag attached to a formatted message body.  The protocol
/// defines one well-known format, HTML; anything else is carried verbatim
/// as the format's name.
pub enum MessageFormat {
    /// The HTML message format.
    Html,
    /// Any other format, under its wire name.
    Custom(String),
}

/// Error state: the supplied format cannot be processed.
pub enum CheckFormatError {
    /// Returned if the supplied format is not supported; carries the
    /// format's wire name for error reporting to the admin.
    FormatNotSupported(String),
}

/// Success states of a format check.
pub enum CheckFormatSuccess {
    /// Returned if the supplied format can be processed by later steps.
    FormatSupported(MessageFormat),
    /// Returned if no format was supplied.
    NoFormat,
}

impl CheckFormatError {
    /// A human-readable description of the error.
    pub fn message(&self) -> (r: String)
        ensures
            self matches CheckFormatError::FormatNotSupported(name) ==> r@ =~= "Format "@ + name@
                + " is not supported"@,
    {
        match self {
            CheckFormatError::FormatNotSupported(name) => {
                let mut r = String::new();
                r.append("Format ");
                r.append(name.as_str());
                r.append(" is not supported");
                r
            },
        }
    }
}

/// Checks the supplied format: HTML is supported, the absence of a format is
/// acceptable as-is, and every other format is rejected under its own name.
pub fn check_format(format: Option<&MessageFormat>) -> (r: Result<
    CheckFormatSuccess,
    CheckFormatError,
>)
    ensures
        match format {
            Some(f) => match f {
                MessageFormat::Html => r == Ok::<CheckFormatSuccess, CheckFormatError>(
                    CheckFormatSuccess::FormatSupported(MessageFormat::Html),
                ),
                MessageFormat::Custom(name) => {
                    &&& r matches Err(e)
                    &&& e matches CheckFormatError::FormatNotSupported(s)
                    &&& s@ == name@
                },
            },
            None => r == Ok::<CheckFormatSuccess, CheckFormatError>(CheckFormatSuccess::NoFormat),
        },
{
    match format {
        Some(MessageFormat::Html) => Ok(
            CheckFormatSuccess::FormatSupported(MessageFormat::Html),
        ),
        Some(MessageFormat::Custom(name)) => Err(
            CheckFormatError::FormatNotSupported(name.clone()),
        ),
        None => Ok(CheckFormatSuccess::NoFormat),
    }
}

} // verus!
