//! The two questions with a fixed wording, and what the answers mean.

use crate::error::{DialogError, PickerError, PickerErrorView};
use vstd::prelude::*;

verus! {

/// A question that is answered with yes or no.
#[derive(Debug)]
pub struct Confirmation {
    pub prompt: String,
    /// The answer that is offered first.
    pub default: bool,
}

/// The question before a deletion. No is offered first.
pub fn delete_question() -> (r: Confirmation)
    ensures
        r.prompt@ == "Are you sure you want to delete these files?"@,
        r.default == false,
{
    Confirmation {
        prompt: "Are you sure you want to delete these files?".to_owned(),
        default: false,
    }
}

/// Whether the answer to the question before a deletion allows it. A prompt
/// that failed does not.
pub fn confirm_delete_files(reply: Result<bool, DialogError>) -> (r: bool)
    ensures
        r == (reply matches Ok(yes) && yes),
{
    match reply {
        Ok(yes) => yes,
        Err(_) => false,
    }
}

/// A question that is answered with a line of text.
#[derive(Debug)]
pub struct LinePrompt {
    pub prompt: String,
    /// Whether an empty line is an answer.
    pub allow_empty: bool,
}

/// The question at the end.
pub fn exit_question() -> (r: LinePrompt)
    ensures
        r.prompt@ == "Press Enter to exit"@,
        r.allow_empty,
{
    LinePrompt { prompt: "Press Enter to exit".to_owned(), allow_empty: true }
}

/// The outcome of the question at the end: any line will do.
pub fn wait_for_enter(reply: Result<String, DialogError>) -> (r: Result<(), PickerError>)
    ensures
        r is Ok <==> reply is Ok,
        reply matches Err(e) ==> (r matches Err(f) && f@ == PickerErrorView::DialoguerError(e@)),
{
    match reply {
        Ok(_) => Ok(()),
        Err(e) => Err(PickerError::DialoguerError(e)),
    }
}

} // verus!
