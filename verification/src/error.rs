//! The library's error type: a machine-readable code plus a message.

use crate::text::push_str;
use vstd::prelude::*;

verus! {

/// Default code: a general failure.
pub const CODE_ERROR: &'static str = "error";

/// The user cancelled the operation.
pub const CODE_CANCELLED: &'static str = "cancelled";

/// A backend stopped producing output for too long.
pub const CODE_TIMEOUT: &'static str = "timeout";

/// An error with a code that callers can classify by, and a message to show.
#[derive(Debug, Clone)]
pub struct ConversionError {
    pub code: &'static str,
    pub message: String,
}

/// Whether `e` carries exactly this code and this message.
pub open spec fn is_error(e: ConversionError, code: Seq<char>, message: Seq<char>) -> bool {
    e.code@ == code && e.message@ == message
}

/// Whether `r` is a general failure with this message.
pub open spec fn fails_with<T>(r: Result<T, ConversionError>, message: Seq<char>) -> bool {
    r matches Err(e) && is_error(e, CODE_ERROR@, message)
}

impl ConversionError {
    pub fn new(code: &'static str, message: String) -> (r: ConversionError)
        ensures
            r.code == code,
            r.message == message,
    {
        ConversionError { code, message }
    }

    /// The message, as the text of the error.
    pub fn to_text(&self) -> (r: String)
        ensures
            r@ == self.message@,
    {
        self.message.clone()
    }

    /// The payload handed to the user interface: a JSON object with the
    /// fields `code` and `message`, in that order.
    pub fn to_ipc(&self) -> (r: String)
        ensures
            r@ == ipc_payload(self.code@, self.message@),
    {
        let mut s = String::new();
        push_str(&mut s, "{\"code\":");
        let code = json_string(self.code);
        push_str(&mut s, code.as_str());
        push_str(&mut s, ",\"message\":");
        let message = json_string(self.message.as_str());
        push_str(&mut s, message.as_str());
        push_str(&mut s, "}");
        s
    }
}

/// What `serde_json::to_string` makes of a string: the quoted, escaped JSON literal.
pub uninterp spec fn spec_json_string(s: Seq<char>) -> Seq<char>;

/// The user-interface payload for a code and a message.
pub open spec fn ipc_payload(code: Seq<char>, message: Seq<char>) -> Seq<char> {
    "{\"code\":"@ + spec_json_string(code) + ",\"message\":"@ + spec_json_string(message) + "}"@
}

/// `serde_json::to_string` on a string slice. Serialising a `str` cannot
/// fail in serde_json (it writes into a `Vec`), so the error arm is never
/// taken; the contract names the escaped literal without spelling out the
/// escaping rules.
#[verifier::external_body]
fn json_string(s: &str) -> (r: String)
    ensures
        r@ == spec_json_string(s@),
{
    match serde_json::to_string(s) {
        Ok(v) => v,
        Err(_) => String::new(),
    }
}

impl From<String> for ConversionError {
    fn from(message: String) -> (r: ConversionError) {
        ConversionError::new(CODE_ERROR, message)
    }
}

impl vstd::std_specs::convert::FromSpecImpl<String> for ConversionError {
    open spec fn obeys_from_spec() -> bool {
        true
    }

    open spec fn from_spec(message: String) -> ConversionError {
        ConversionError { code: CODE_ERROR, message }
    }
}

/// A general failure with the given message.
pub fn conv<T>(message: String) -> (r: Result<T, ConversionError>)
    ensures
        r matches Err(e) && e.code == CODE_ERROR && e.message == message,
{
    Err(ConversionError::new(CODE_ERROR, message))
}

/// A failure with the given code and message.
pub fn conv_code<T>(code: &'static str, message: String) -> (r: Result<T, ConversionError>)
    ensures
        r matches Err(e) && e.code == code && e.message == message,
{
    Err(ConversionError::new(code, message))
}

/// A general failure whose message is a string literal.
pub fn fail<T>(message: &str) -> (r: Result<T, ConversionError>)
    ensures
        fails_with(r, message@),
{
    Err(ConversionError::new(CODE_ERROR, message.to_owned()))
}

} // verus!
