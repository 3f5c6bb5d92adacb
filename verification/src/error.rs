//! Why a query did not answer.

use vstd::prelude::*;
use vstd::string::*;

verus! {

/// What went wrong in a resolution.
#[derive(Debug, Clone, Copy, PartialEq, Eq, Structural)]
pub enum ErrorKind {
    /// A schema handle that the database does not hold.
    UnknownSchema,
    /// A file group handle that the database does not hold.
    UnknownFileGroup,
    /// A transform handle that the database does not hold.
    UnknownTransform,
    /// A collection handle that the database does not hold.
    UnknownCollection,
    /// A bundle handle that the database does not hold.
    UnknownBundle,
    /// A binary handle that the database does not hold.
    UnknownBinary,
    /// A path that is none of the schema's roots.
    UnknownRoot,
    /// A file group that none of the schema's roots covers.
    Uncovered,
    /// A pattern that does not compile to a glob.
    InvalidPattern,
    /// A discovery result that lacks one of the root's groups.
    MissingGroup,
    /// What is stored for a task is of another kind than the task.
    WrongKind,
    /// Transform inputs that nest deeper than there are transforms.
    Cycle,
    /// A failure reported by a resolver, with its message.
    External,
}

/// A failed resolution: its kind and a message for the reader.
#[derive(Debug, PartialEq, Eq)]
pub struct ResolutionError {
    pub kind: ErrorKind,
    pub detail: String,
}

/// Why a query has no value.
#[derive(Debug, PartialEq, Eq)]
pub enum Cause {
    /// The value is not there yet: tasks were recorded, ask again once they
    /// are resolved.
    Pending,
    /// The value cannot be had.
    Error(ResolutionError),
}

/// The model of a [`Cause`].
pub enum CauseView {
    Pending,
    Error { kind: ErrorKind, detail: Seq<char> },
}

pub type Outcome<T> = Result<T, Cause>;

impl View for ResolutionError {
    type V = (ErrorKind, Seq<char>);

    open spec fn view(&self) -> (ErrorKind, Seq<char>) {
        (self.kind, self.detail@)
    }
}

impl View for Cause {
    type V = CauseView;

    open spec fn view(&self) -> CauseView {
        match self {
            Cause::Pending => CauseView::Pending,
            Cause::Error(e) => CauseView::Error { kind: e.kind, detail: e.detail@ },
        }
    }
}

impl Clone for ResolutionError {
    fn clone(&self) -> (r: Self)
        ensures
            r@ == self@,
    {
        ResolutionError { kind: self.kind, detail: self.detail.clone() }
    }
}

impl Clone for Cause {
    fn clone(&self) -> (r: Self)
        ensures
            r@ == self@,
    {
        match self {
            Cause::Pending => Cause::Pending,
            Cause::Error(e) => Cause::Error(e.clone()),
        }
    }
}

/// The line of text that describes a cause.
pub open spec fn cause_text(c: CauseView) -> Seq<char> {
    match c {
        CauseView::Pending => "Data is not available"@,
        CauseView::Error { kind, detail } => "Generic "@ + detail,
    }
}

/// The model of a hard error of the given kind without a message.
pub open spec fn failure(kind: ErrorKind) -> CauseView {
    CauseView::Error { kind, detail: Seq::empty() }
}

impl ResolutionError {
    /// An error of the given kind without a message.
    pub fn of(kind: ErrorKind) -> (r: ResolutionError)
        ensures
            r@ == (kind, Seq::<char>::empty()),
    {
        ResolutionError { kind, detail: String::new() }
    }

}

impl Cause {
    /// A hard error of the given kind without a message.
    pub fn error(kind: ErrorKind) -> (r: Cause)
        ensures
            r@ == failure(kind),
    {
        Cause::Error(ResolutionError::of(kind))
    }

    /// Wraps the message of a failure that a resolver met.
    pub fn from_err(message: String) -> (r: Cause)
        ensures
            r@ == (CauseView::Error { kind: ErrorKind::External, detail: message@ }),
    {
        Cause::Error(ResolutionError { kind: ErrorKind::External, detail: message })
    }

    /// The cause as a line of text.
    pub fn to_string(&self) -> (r: String)
        ensures
            r@ == cause_text(self@),
    {
        match self {
            Cause::Pending => String::from_str("Data is not available"),
            Cause::Error(e) => {
                let mut out = String::from_str("Generic ");
                out.append(e.detail.as_str());
                out
            },
        }
    }

    /// Whether the cause is the scheduling signal rather than a failure.
    pub fn is_pending(&self) -> (r: bool)
        ensures
            r == (self@ is Pending),
    {
        match self {
            Cause::Pending => true,
            Cause::Error(_) => false,
        }
    }
}

} // verus!
