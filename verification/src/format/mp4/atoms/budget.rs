//! A budget for what the parsing of a table may keep.

use vstd::prelude::*;

verus! {

/// Why a table is not parsed.
#[derive(Debug, Clone, Copy, PartialEq, Eq)]
pub enum TableParseError {
    /// The table does not hold together, for the reason given.
    Invalid(&'static str),
    /// More would be kept than the budget allows.
    BudgetExceeded,
}

/// Bytes that may be kept, and those that are accounted for.
#[derive(Debug, Clone, Copy)]
pub struct RetainedBudget {
    limit: usize,
    used: usize,
}

impl RetainedBudget {
    /// The bytes that may be kept in all.
    pub closed spec fn limit(self) -> int {
        self.limit as int
    }

    /// The bytes accounted for so far.
    pub closed spec fn used(self) -> int {
        self.used as int
    }

    #[verifier::type_invariant]
    closed spec fn within(self) -> bool {
        self.used <= self.limit
    }

    /// A budget of `limit` bytes.
    pub fn new(limit: usize) -> (r: Self)
        ensures
            r.limit() == limit,
            r.used() == 0,
    {
        RetainedBudget { limit, used: 0 }
    }

    /// The bytes accounted for so far.
    pub fn used_bytes(&self) -> (r: usize)
        ensures
            r == self.used(),
            r <= self.limit() <= usize::MAX,
    {
        proof {
            use_type_invariant(&*self);
        }
        self.used
    }

    /// Accounts for bytes, where the budget allows them.
    pub fn charge_bytes(&mut self, bytes: usize) -> (r: Result<(), TableParseError>)
        ensures
            final(self).limit() == old(self).limit(),
            match r {
                Ok(()) => old(self).used() + bytes <= old(self).limit() && final(self).used()
                    == old(self).used() + bytes,
                Err(e) => old(self).used() + bytes > old(self).limit() && final(self).used()
                    == old(self).used() && e == TableParseError::BudgetExceeded,
            },
    {
        proof {
            use_type_invariant(&*self);
        }
        if bytes > self.limit - self.used {
            return Err(TableParseError::BudgetExceeded);
        }
        self.used = self.used + bytes;
        Ok(())
    }
}

} // verus!
