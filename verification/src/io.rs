//! The diagnostic for a failed I/O action.

use vstd::prelude::*;
use vstd::string::StringExecFns;
use vstd::string::to_string_from_display_ensures;

verus! {

/// `std::io::Error`, carried through as it is: nothing is read from it but
/// what it displays and what it reports as its cause.
#[verifier::external_type_specification]
#[verifier::external_body]
pub struct ExIoError(std::io::Error);

/// The text of a cause, or nothing where there is none.
pub open spec fn cause_line(cause: Option<Seq<char>>) -> Seq<char> {
    match cause {
        Some(text) => text,
        None => Seq::empty(),
    }
}

/// The diagnostic for a failed attempt to perform `action` on `file`: a first
/// line that names the action, the file between backquotes and the error, and
/// a second line that holds the cause of the error, or nothing.
pub open spec fn io_error_message(
    action: Seq<char>,
    file: Seq<char>,
    error: Seq<char>,
    cause: Option<Seq<char>>,
) -> Seq<char> {
    "IO Error when attempting to "@ + action + " `"@ + file + "`: "@ + error + "\n"@ + cause_line(
        cause,
    )
}

/// What `err` reports as its underlying cause, rendered as text.
///
/// Calls `std::error::Error::source` on the error and, where that gives a
/// cause, renders the cause with its `Display` impl. Nothing is claimed of
/// the outcome: both depend on the error at hand.
#[verifier::external_body]
fn cause_text(err: &std::io::Error) -> (text: Option<String>) {
    match std::error::Error::source(err) {
        Some(cause) => Some(cause.to_string()),
        None => None,
    }
}

/// Builds the diagnostic from the rendered error and the rendered cause.
pub fn format_io_error(action: &str, file: &str, error: &str, cause: Option<&str>) -> (message:
    String)
    ensures
        message@ == io_error_message(
            action@,
            file@,
            error@,
            match cause {
                Some(text) => Some(text@),
                None => None,
            },
        ),
{
    let mut message = String::from_str("IO Error when attempting to ");
    message.append(action);
    message.append(" `");
    message.append(file);
    message.append("`: ");
    message.append(error);
    message.append("\n");
    match cause {
        Some(text) => {
            message.append(text);
        },
        None => {
            assert(message@ + Seq::<char>::empty() =~= message@);
        },
    }
    message
}

/// Returns a string representation of an IO error: the diagnostic built from
/// what `err` displays and from what its cause displays, if it has one.
pub fn io_error(action: &str, file: &str, err: &std::io::Error) -> (message: String)
    ensures
        exists|error: String, cause: Option<Seq<char>>|
            #![trigger to_string_from_display_ensures::<std::io::Error>(err, error), io_error_message(action@, file@, error@, cause)]
            to_string_from_display_ensures::<std::io::Error>(err, error) && message@
                == io_error_message(action@, file@, error@, cause),
{
    let error = err.to_string();
    let cause = cause_text(err);
    match cause {
        Some(text) => {
            let message = format_io_error(action, file, error.as_str(), Some(text.as_str()));
            assert(message@ == io_error_message(action@, file@, error@, Some(text@)));
            message
        },
        None => {
            let message = format_io_error(action, file, error.as_str(), None);
            assert(message@ == io_error_message(action@, file@, error@, None));
            message
        },
    }
}

} // verus!
