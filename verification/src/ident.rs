//! Identities of topological entities.
use vstd::prelude::*;

verus! {

/// Hands out identities. Every identity taken from one source is distinct
/// from every identity taken from it before.
pub struct IdSource {
    next: u64,
}

impl IdSource {
    /// The number of identities handed out so far; also the next identity.
    pub closed spec fn issued(&self) -> nat {
        self.next as nat
    }

    /// How many identities the source can still hand out.
    pub open spec fn remaining(&self) -> int {
        u64::MAX - self.issued()
    }

    /// A source that has handed out nothing.
    pub fn new() -> (ids: IdSource)
        ensures
            ids.issued() == 0,
    {
        IdSource { next: 0 }
    }

    /// The number of identities handed out so far.
    pub fn issued_count(&self) -> (n: u64)
        ensures
            n as nat == self.issued(),
    {
        self.next
    }

    /// How many identities the source can still hand out.
    pub fn remaining_count(&self) -> (n: u64)
        ensures
            n == self.remaining(),
    {
        u64::MAX - self.next
    }

    /// Takes one identity: the smallest that was never handed out.
    pub fn fresh(&mut self) -> (id: u64)
        requires
            old(self).remaining() >= 1,
        ensures
            id as nat == old(self).issued(),
            final(self).issued() == old(self).issued() + 1,
    {
        let id: u64 = self.next;
        self.next = self.next + 1;
        id
    }
}

} // verus!
