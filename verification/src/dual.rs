//! The dual-state cell: a server-confirmed `current` value beside an
//! optional optimistic `pending` value. Reads prefer the pending value;
//! only a server patch moves `current`.

use vstd::prelude::*;

verus! {

/// A `(current, pending?)` holder enabling optimistic local updates that
/// await server confirmation.
#[derive(Clone, Debug, PartialEq)]
pub struct State<T> {
    pub current: T,
    pub pending: Option<T>,
}

impl<T> State<T> {
    /// The value a reader sees: the optimistic prediction when one is
    /// outstanding, the confirmed value otherwise.
    pub open spec fn effective(self) -> T {
        match self.pending {
            Some(p) => p,
            None => self.current,
        }
    }

    /// The cell after a local prediction of `v`.
    pub open spec fn predict_spec(self, v: T) -> State<T> {
        State { current: self.current, pending: Some(v) }
    }

    /// The cell after the server confirms `v`: `current` becomes `v`, and a
    /// pending prediction of the same value is considered settled. A
    /// differing prediction is left standing (the caller decides what else
    /// to do; the server stays authoritative for `current`).
    ///
    /// `pending_matches` must decide whether the outstanding prediction
    /// equals `v`; the caller supplies it because equality on `T` is decided
    /// differently per instance.
    pub open spec fn commit_spec(self, v: T, pending_matches: bool) -> State<T> {
        State {
            current: v,
            pending: if pending_matches {
                None
            } else {
                self.pending
            },
        }
    }

    pub fn state(&self) -> (r: &T)
        ensures
            *r == self.effective(),
    {
        match &self.pending {
            Some(p) => p,
            None => &self.current,
        }
    }

    pub fn predict(&mut self, v: T)
        ensures
            *final(self) == old(self).predict_spec(v),
    {
        self.pending = Some(v);
    }
}

/// Pending settlement: a local prediction of `v` followed by a server patch
/// asserting the same `v` leaves the cell reading `v` with no pending value
/// left.
pub proof fn lemma_pending_settlement<T>(cell: State<T>, v: T)
    ensures
        cell.predict_spec(v).commit_spec(v, true).effective() == v,
        cell.predict_spec(v).commit_spec(v, true).pending is None,
{
}

} // verus!
