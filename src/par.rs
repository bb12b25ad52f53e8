//! Bookkeeping of a runner that keeps at most `nthreads` jobs in flight.
//!
//! The runner decides; its caller acts. Each submitted job gets an id, in
//! submission order from 0. `run` says which job, if any, the caller must
//! wait for (always the oldest in flight) before starting the new one;
//! `report` takes the outcome of a job that was waited for; `finish` hands
//! out every job still in flight, oldest first, and closes the runner.
use vstd::prelude::*;

verus! {

/// Why the runner refused or what it has to report.
#[derive(Debug, Clone, Copy, PartialEq, Eq, Structural)]
pub enum ParError {
    /// A job was submitted after `finish`.
    Lifecycle,
    /// The job with this id failed.
    JobFailed(u64),
}

/// What the caller must do for one submission: first wait for `reap`, if
/// any, then start job `start`.
#[derive(Debug, Clone, Copy, PartialEq, Eq, Structural)]
pub struct Admission {
    pub reap: Option<u64>,
    pub start: u64,
}

/// The ids `lo, lo + 1, ..., hi - 1`.
pub open spec fn id_range(lo: nat, hi: nat) -> Seq<u64> {
    Seq::new((hi - lo) as nat, |i: int| (lo + i) as u64)
}

pub struct Par {
    nthreads: usize,
    que: Vec<u64>,
    submitted: u64,
    finished: bool,
    failure: Option<u64>,
    joined: Ghost<Seq<u64>>,
}

impl Par {
    /// Most jobs in flight at once.
    pub closed spec fn spec_nthreads(&self) -> nat {
        self.nthreads as nat
    }

    /// Jobs started and not yet handed out to be waited for, oldest first.
    pub closed spec fn in_flight(&self) -> Seq<u64> {
        self.que@
    }

    /// Number of jobs submitted so far; also the id of the next one.
    pub closed spec fn spec_submitted(&self) -> nat {
        self.submitted as nat
    }

    /// Jobs handed out to be waited for, in the order they were handed out.
    pub closed spec fn joined(&self) -> Seq<u64> {
        self.joined@
    }

    pub closed spec fn spec_finished(&self) -> bool {
        self.finished
    }

    /// The first failed job reported, if any.
    pub closed spec fn spec_failure(&self) -> Option<u64> {
        self.failure
    }

    pub closed spec fn wf(&self) -> bool {
        &&& self.nthreads > 0
        &&& self.que@.len() <= self.nthreads
        &&& self.joined@.len() + self.que@.len() == self.submitted
        &&& self.joined@ == id_range(0, self.joined@.len())
        &&& self.que@ == id_range(self.joined@.len(), self.submitted as nat)
        &&& self.finished ==> self.que@.len() == 0
    }

    /// An open runner with nothing in flight.
    pub fn new(nthreads: usize) -> (r: Par)
        requires
            nthreads > 0,
        ensures
            r.wf(),
            r.spec_nthreads() == nthreads,
            r.in_flight() == Seq::<u64>::empty(),
            r.joined() == Seq::<u64>::empty(),
            r.spec_submitted() == 0,
            !r.spec_finished(),
            r.spec_failure() is None,
    {
        let r = Par {
            nthreads,
            que: Vec::new(),
            submitted: 0,
            finished: false,
            failure: None,
            joined: Ghost(Seq::empty()),
        };
        assert(r.que@ =~= id_range(0, 0));
        assert(r.joined@ =~= id_range(0, 0));
        r
    }

    /// Admits one more job. When `nthreads` jobs are in flight the oldest
    /// must be waited for first; after `finish` the job is refused and
    /// nothing changes.
    pub fn run(&mut self) -> (r: Result<Admission, ParError>)
        requires
            old(self).wf(),
            old(self).spec_submitted() < u64::MAX,
        ensures
            final(self).wf(),
            final(self).spec_nthreads() == old(self).spec_nthreads(),
            final(self).spec_finished() == old(self).spec_finished(),
            final(self).spec_failure() == old(self).spec_failure(),
            old(self).spec_finished() ==> r == Err::<Admission, ParError>(ParError::Lifecycle)
                && *final(self) == *old(self),
            !old(self).spec_finished() ==> r is Ok,
            r matches Ok(a) ==> {
                &&& a.start == old(self).spec_submitted()
                &&& final(self).spec_submitted() == old(self).spec_submitted() + 1
                &&& if old(self).in_flight().len() == old(self).spec_nthreads() {
                    &&& a.reap == Some(old(self).in_flight()[0])
                    &&& final(self).in_flight() == old(self).in_flight().drop_first().push(
                        a.start,
                    )
                    &&& final(self).joined() == old(self).joined().push(old(self).in_flight()[0])
                } else {
                    &&& a.reap is None
                    &&& final(self).in_flight() == old(self).in_flight().push(a.start)
                    &&& final(self).joined() == old(self).joined()
                }
            },
    {
        if self.finished {
            return Err(ParError::Lifecycle);
        }
        let ghost lo = self.joined@.len();
        let reap = if self.que.len() >= self.nthreads {
            let oldest = self.que.remove(0);
            self.joined = Ghost(self.joined@.push(oldest));
            assert(self.joined@ =~= id_range(0, lo + 1));
            Some(oldest)
        } else {
            None
        };
        let start = self.submitted;
        self.que.push(start);
        self.submitted = self.submitted + 1;
        assert(self.que@ =~= id_range(self.joined@.len(), self.submitted as nat));
        Ok(Admission { reap, start })
    }

    /// Takes the outcome of job `id` after it was waited for. A failure is
    /// returned at once as `JobFailed(id)`; the first one is also kept for
    /// `outcome`.
    pub fn report(&mut self, id: u64, ok: bool) -> (r: Result<(), ParError>)
        requires
            old(self).wf(),
        ensures
            final(self).wf(),
            final(self).spec_nthreads() == old(self).spec_nthreads(),
            final(self).in_flight() == old(self).in_flight(),
            final(self).joined() == old(self).joined(),
            final(self).spec_submitted() == old(self).spec_submitted(),
            final(self).spec_finished() == old(self).spec_finished(),
            ok ==> r is Ok && final(self).spec_failure() == old(self).spec_failure(),
            !ok ==> r == Err::<(), ParError>(ParError::JobFailed(id)),
            !ok ==> final(self).spec_failure() == if old(self).spec_failure() is None {
                Some(id)
            } else {
                old(self).spec_failure()
            },
    {
        if ok {
            return Ok(());
        }
        if self.failure.is_none() {
            self.failure = Some(id);
        }
        Err(ParError::JobFailed(id))
    }

    /// Closes the runner and hands out every job still in flight, oldest
    /// first. Calling it again hands out nothing.
    pub fn finish(&mut self) -> (r: Vec<u64>)
        requires
            old(self).wf(),
        ensures
            final(self).wf(),
            final(self).spec_finished(),
            r@ == old(self).in_flight(),
            final(self).in_flight() == Seq::<u64>::empty(),
            final(self).joined() == old(self).joined() + old(self).in_flight(),
            final(self).spec_nthreads() == old(self).spec_nthreads(),
            final(self).spec_submitted() == old(self).spec_submitted(),
            final(self).spec_failure() == old(self).spec_failure(),
    {
        let mut r: Vec<u64> = Vec::new();
        std::mem::swap(&mut r, &mut self.que);
        self.joined = Ghost(self.joined@ + r@);
        self.finished = true;
        assert(self.joined@ =~= id_range(0, self.joined@.len()));
        assert(self.que@ =~= id_range(self.joined@.len(), self.submitted as nat));
        r
    }

    /// The first failure reported, if any.
    pub fn outcome(&self) -> (r: Result<(), ParError>)
        ensures
            r is Ok <==> self.spec_failure() is None,
            self.spec_failure() matches Some(id) ==> r == Err::<(), ParError>(
                ParError::JobFailed(id),
            ),
    {
        match self.failure {
            Some(id) => Err(ParError::JobFailed(id)),
            None => Ok(()),
        }
    }

    pub fn submitted(&self) -> (r: u64)
        ensures
            r == self.spec_submitted(),
    {
        self.submitted
    }

    pub fn in_flight_len(&self) -> (r: usize)
        ensures
            r == self.in_flight().len(),
    {
        self.que.len()
    }
}

/// Never more than `nthreads` jobs are in flight.
pub proof fn lemma_in_flight_bounded(p: Par)
    requires
        p.wf(),
    ensures
        p.in_flight().len() <= p.spec_nthreads(),
{
}

/// Once the runner is finished, every submitted job has been handed out to
/// be waited for exactly once, in submission order, whatever failures were
/// reported on the way.
pub proof fn lemma_finished_joins_each_once(p: Par)
    requires
        p.wf(),
        p.spec_finished(),
    ensures
        p.joined() == id_range(0, p.spec_submitted()),
        forall|i: int, j: int|
            0 <= i < j < p.joined().len() ==> p.joined()[i] != p.joined()[j],
{
}

} // verus!
