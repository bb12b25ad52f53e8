//! The counting side of the escape-time iteration `z ← z² + c`.
//!
//! The count starts at 1. Before each step the caller tells whether `z` is
//! still inside the escape radius (`|z|² < r²`); the step is taken, and
//! the count raised by one, only while `z` is inside and the count is below
//! the cap. The arithmetic on `z` itself stays with the caller.
use vstd::prelude::*;

verus! {

/// An escape-time count in progress.
pub struct Escape {
    iterations: u8,
    max_iterations: u8,
    done: bool,
}

impl Escape {
    /// Current count.
    pub closed spec fn spec_count(&self) -> nat {
        self.iterations as nat
    }

    /// The cap on the count.
    pub closed spec fn spec_max(&self) -> nat {
        self.max_iterations as nat
    }

    /// Whether the iteration has stopped.
    pub closed spec fn spec_done(&self) -> bool {
        self.done
    }

    pub closed spec fn wf(&self) -> bool {
        &&& 1 <= self.iterations <= self.max_iterations
        &&& self.iterations == self.max_iterations ==> self.done
    }

    /// A count of 1, capped at `max_iterations`.
    pub fn start(max_iterations: u8) -> (r: Escape)
        requires
            max_iterations >= 1,
        ensures
            r.wf(),
            r.spec_count() == 1,
            r.spec_max() == max_iterations,
            r.spec_done() == (max_iterations == 1),
    {
        Escape { iterations: 1, max_iterations, done: max_iterations == 1 }
    }

    /// Decides one step given whether `z` is inside the escape radius.
    /// Returns whether the caller must apply `z ← z² + c` once more; the
    /// count is raised exactly then.
    pub fn step(&mut self, inside: bool) -> (r: bool)
        requires
            old(self).wf(),
        ensures
            final(self).wf(),
            final(self).spec_max() == old(self).spec_max(),
            r == (!old(self).spec_done() && inside),
            r ==> final(self).spec_count() == old(self).spec_count() + 1,
            !r ==> final(self).spec_count() == old(self).spec_count(),
            final(self).spec_done() == (old(self).spec_done() || !inside || final(self).spec_count()
                == final(self).spec_max()),
    {
        if self.done || !inside {
            self.done = true;
            return false;
        }
        self.iterations = self.iterations + 1;
        if self.iterations == self.max_iterations {
            self.done = true;
        }
        true
    }

    pub fn is_done(&self) -> (r: bool)
        ensures
            r == self.spec_done(),
    {
        self.done
    }

    pub fn count(&self) -> (r: u8)
        ensures
            r == self.spec_count(),
    {
        self.iterations
    }
}

/// Every count lies between 1 and the cap.
pub proof fn lemma_count_in_range(e: Escape)
    requires
        e.wf(),
    ensures
        1 <= e.spec_count() <= e.spec_max(),
{
}

} // verus!
