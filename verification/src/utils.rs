//! A counter that knows its ceiling.

use vstd::prelude::*;

verus! {

/// A count that moves up and down by one, with an optional ceiling.
///
/// The counter never clamps: it reports where the count stands relative to
/// the ceiling and leaves the decision to its owner.
#[derive(Clone, Copy, Debug, PartialEq, Eq)]
pub struct Limit {
    count: usize,
    limit: Option<usize>,
}

impl Limit {
    /// The current count.
    pub closed spec fn count(&self) -> nat {
        self.count as nat
    }

    /// The ceiling, if there is one.
    pub closed spec fn ceiling(&self) -> Option<nat> {
        match self.limit {
            Some(l) => Some(l as nat),
            None => None,
        }
    }

    /// Whether the count is still below the ceiling.
    pub open spec fn under_limit(&self) -> bool {
        match self.ceiling() {
            Some(l) => self.count() < l,
            None => true,
        }
    }

    /// Whether one more increment would bring the count to the ceiling.
    pub open spec fn at_limit(&self) -> bool {
        match self.ceiling() {
            Some(l) => self.count() + 1 == l,
            None => false,
        }
    }

    /// Count and ceiling are machine integers.
    pub proof fn lemma_bounded(&self)
        ensures
            self.count() <= usize::MAX,
            self.ceiling() matches Some(l) ==> l <= usize::MAX,
    {
    }

    /// A fresh counter: the count starts at zero.
    pub fn new(limit: Option<usize>) -> (r: Self)
        ensures
            r.count() == 0,
            r.ceiling() == match limit {
                Some(l) => Some(l as nat),
                None => None,
            },
    {
        Self { count: 0, limit }
    }

    /// Raises the count by one, whatever the ceiling.
    pub fn increment(&mut self)
        requires
            old(self).count() < usize::MAX,
        ensures
            final(self).count() == old(self).count() + 1,
            final(self).ceiling() == old(self).ceiling(),
    {
        self.count += 1;
    }

    /// Lowers the count by one.
    pub fn decrement(&mut self)
        requires
            old(self).count() > 0,
        ensures
            final(self).count() == old(self).count() - 1,
            final(self).ceiling() == old(self).ceiling(),
    {
        self.count -= 1;
    }

    /// Sets the count back to zero.
    pub fn reset_count(&mut self)
        ensures
            final(self).count() == 0,
            final(self).ceiling() == old(self).ceiling(),
    {
        self.count = 0;
    }

    /// True when there is no ceiling, or the count is below it.
    pub fn is_under_limit(&self) -> (r: bool)
        ensures
            r == self.under_limit(),
    {
        if let Some(limit) = self.limit {
            self.count < limit
        } else {
            true
        }
    }

    /// True only when there is a ceiling and the next increment reaches it.
    pub fn is_at_limit(&self) -> (r: bool)
        ensures
            r == self.at_limit(),
    {
        if let Some(limit) = self.limit {
            limit > 0 && self.count == limit - 1
        } else {
            false
        }
    }

    /// The current count.
    pub fn get_count(&self) -> (r: usize)
        ensures
            r as nat == self.count(),
    {
        self.count
    }

    /// The ceiling, if there is one.
    pub fn get_limit(&self) -> (r: Option<usize>)
        ensures
            self.ceiling() == match r {
                Some(l) => Some(l as nat),
                None => None,
            },
    {
        self.limit
    }
}

} // verus!
