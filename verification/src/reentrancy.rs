//! The reentrancy guard: the allocator's own bookkeeping must not come back to
//! the allocator, so while a thread is inside, its nested requests go to the
//! system allocator.

use vstd::prelude::*;

verus! {

/// Whether a thread is inside the allocator, and whether it may enter at all.
#[derive(Clone, Copy, PartialEq, Eq, Debug, Structural)]
pub struct Reentrancy {
    /// The thread is inside.
    pub inside: bool,
    /// The guard was closed for good.
    pub forced: bool,
}

impl Reentrancy {
    /// The guard of a thread that has not entered yet.
    pub fn new() -> (g: Reentrancy)
        ensures
            !g.inside,
            !g.forced,
    {
        Reentrancy { inside: false, forced: false }
    }

    /// Enters, unless the thread is inside already or the guard was closed for
    /// good. Returns whether it entered: if not, the request is the system
    /// allocator's.
    pub fn enter(&mut self) -> (entered: bool)
        ensures
            entered == !(old(self).inside || old(self).forced),
            final(self).inside == (old(self).inside || entered),
            final(self).forced == old(self).forced,
            *final(self) == old(self).after(Call::Enter),
    {
        if self.inside || self.forced {
            false
        } else {
            self.inside = true;
            true
        }
    }

    /// Leaves.
    pub fn leave(&mut self)
        ensures
            !final(self).inside,
            final(self).forced == old(self).forced,
            *final(self) == old(self).after(Call::Leave),
    {
        self.inside = false;
    }

    /// Closes the guard for good: every further request of the thread is the
    /// system allocator's.
    pub fn force_guard(&mut self)
        ensures
            final(self).forced,
            final(self).inside == old(self).inside,
            *final(self) == old(self).after(Call::ForceGuard),
    {
        self.forced = true;
    }
}

/// A call that changes a guard.
pub enum Call {
    Enter,
    Leave,
    ForceGuard,
}

impl Reentrancy {
    /// A thread with this guard may enter.
    pub open spec fn admits(self) -> bool {
        !self.inside && !self.forced
    }

    /// The guard after a call.
    pub open spec fn after(self, call: Call) -> Reentrancy {
        match call {
            Call::Enter => Reentrancy { inside: self.inside || self.admits(), ..self },
            Call::Leave => Reentrancy { inside: false, ..self },
            Call::ForceGuard => Reentrancy { forced: true, ..self },
        }
    }

    /// The guard after a row of calls.
    pub open spec fn after_all(self, calls: Seq<Call>) -> Reentrancy
        decreases calls.len(),
    {
        if calls.len() == 0 {
            self
        } else {
            self.after_all(calls.drop_last()).after(calls.last())
        }
    }
}

/// A guard that was closed for good lets no thread in again, whatever is called
/// after that.
pub proof fn forced_guard_stays_closed(g: Reentrancy, calls: Seq<Call>)
    ensures
        g.after(Call::ForceGuard).after_all(calls).forced,
        !g.after(Call::ForceGuard).after_all(calls).admits(),
    decreases calls.len(),
{
    if calls.len() > 0 {
        forced_guard_stays_closed(g, calls.drop_last());
    }
}

/// Without a forced guard, a thread that has entered gets in again exactly after
/// it has left.
pub proof fn entered_guard_admits_after_leave(g: Reentrancy)
    requires
        g.admits(),
    ensures
        !g.after(Call::Enter).admits(),
        g.after(Call::Enter).after(Call::Leave) == g,
{
}

} // verus!
