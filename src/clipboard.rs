//! The clipboard that the session copies to and pastes from, as a capability
//! with two operations; a backend is chosen by whoever builds the session.
use vstd::prelude::*;

verus! {

/// Why a clipboard operation failed.
#[derive(Clone, Debug, PartialEq, Eq)]
pub struct ClipboardError {
    pub message: String,
}

/// Copying text to, and pasting text from, a system clipboard.
pub trait Clipboard {
    fn copy(&self, text: &str) -> Result<(), ClipboardError>;

    fn paste(&self) -> Result<String, ClipboardError>;
}

/// A clipboard for systems that have none: every operation fails.
pub struct NoopClipboard;

impl NoopClipboard {
    /// The error that each of its operations returns.
    pub fn unavailable() -> (r: ClipboardError)
        ensures
            r.message@ == "No system clipboard available or supported."@,
    {
        ClipboardError { message: "No system clipboard available or supported.".to_owned() }
    }
}

impl Clipboard for NoopClipboard {
    fn copy(&self, _text: &str) -> (r: Result<(), ClipboardError>)
        ensures
            r is Err,
            r->Err_0.message@ == "No system clipboard available or supported."@,
    {
        Err(NoopClipboard::unavailable())
    }

    fn paste(&self) -> (r: Result<String, ClipboardError>)
        ensures
            r is Err,
            r->Err_0.message@ == "No system clipboard available or supported."@,
    {
        Err(NoopClipboard::unavailable())
    }
}

} // verus!
