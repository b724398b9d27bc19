//! The error type of the programs around the library.
use vstd::prelude::*;

verus! {

/// An error, described in words.
pub struct ChatError(pub String);

pub type ChatResult<T> = Result<T, ChatError>;

/// Relies on std's `Debug` formatting of the error, in its alternate form.
#[verifier::external_body]
fn debug_text<E: std::fmt::Debug>(error: &E) -> String {
    format!("{:#?}", error)
}

/// Turns any result whose error can be shown into a `ChatResult`.
pub trait ConvertibleToChatResult<T> {
    fn to_chat_result(self) -> ChatResult<T>;
}

impl<T, E: std::fmt::Debug> ConvertibleToChatResult<T> for Result<T, E> {
    fn to_chat_result(self) -> ChatResult<T> {
        match self {
            Ok(value) => Ok(value),
            Err(error) => Err(ChatError(debug_text(&error))),
        }
    }
}

} // verus!
