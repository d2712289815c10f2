use vstd::prelude::*;

verus! {

/// What a scan error is in the model: the line it was reported on and its
/// message.
pub struct ErrorView {
    pub line: nat,
    pub message: Seq<char>,
}

/// A scan error: the line in effect when the scan stopped, and a message.
#[derive(Debug, Clone)]
pub struct Error {
    pub line: usize,
    pub message: String,
}

impl View for Error {
    type V = ErrorView;

    open spec fn view(&self) -> ErrorView {
        ErrorView { line: self.line as nat, message: self.message@ }
    }
}

impl Error {
    pub fn error(line: usize, message: String) -> (r: Self)
        ensures
            r.line == line,
            r.message@ == message@,
    {
        Self { line, message }
    }
}

} // verus!

verus! {

/// The model of an optional error.
pub open spec fn error_view(e: Option<Error>) -> Option<ErrorView> {
    match e {
        Some(e) => Some(e@),
        None => None,
    }
}

} // verus!
