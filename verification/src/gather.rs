//! Gathering the outcomes of sibling branches.
//!
//! A composite query evaluates all of its branches, so that one round
//! discovers as many tasks as it can. A pending branch makes the whole
//! pending; where none is pending, the first branch that failed fails the
//! whole.

use vstd::prelude::*;
use crate::error::{Cause, CauseView};

verus! {

/// What the branches seen so far came to: whether one is pending, and the
/// first failure.
pub struct Gather {
    pub pending: bool,
    pub error: Option<Cause>,
}

/// The model of a [`Gather`].
pub struct GatherView {
    pub pending: bool,
    pub error: Option<CauseView>,
}

impl View for Gather {
    type V = GatherView;

    open spec fn view(&self) -> GatherView {
        GatherView {
            pending: self.pending,
            error: match self.error {
                Some(c) => Some(c@),
                None => None,
            },
        }
    }
}

/// No branch seen yet.
pub open spec fn clean() -> GatherView {
    GatherView { pending: false, error: None }
}

/// One more branch without a value, for the given cause.
pub open spec fn noted(g: GatherView, c: CauseView) -> GatherView {
    match c {
        CauseView::Pending => GatherView { pending: true, error: g.error },
        CauseView::Error { .. } => if g.error is None {
            GatherView { pending: g.pending, error: Some(c) }
        } else {
            g
        },
    }
}

/// The outcome of the whole: pending where a branch was pending, else the
/// first failure, else the value.
pub open spec fn finished<V>(g: GatherView, v: V) -> Result<V, CauseView> {
    if g.pending {
        Err(CauseView::Pending)
    } else {
        match g.error {
            Some(c) => Err(c),
            None => Ok(v),
        }
    }
}

impl Gather {
    /// No branch seen yet.
    pub fn new() -> (r: Gather)
        ensures
            r@ == clean(),
    {
        Gather { pending: false, error: None }
    }

    /// Takes note of a branch without a value.
    pub fn note(&mut self, c: Cause)
        ensures
            final(self)@ == noted(old(self)@, c@),
    {
        match c {
            Cause::Pending => {
                self.pending = true;
            },
            Cause::Error(e) => {
                if self.error.is_none() {
                    self.error = Some(Cause::Error(e));
                }
            },
        }
    }

    /// The cause for which the whole has no value, if a branch had none.
    pub fn cause(self) -> (r: Option<Cause>)
        ensures
            match r {
                Some(c) => finished(self@, ()) == Err::<(), CauseView>(c@),
                None => self@ == clean(),
            },
    {
        if self.pending {
            Some(Cause::Pending)
        } else {
            self.error
        }
    }
}

} // verus!
