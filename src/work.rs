use vstd::prelude::*;

verus! {

/// Identity of one job-source node; two handles are the same client exactly
/// when they carry the same identity.
pub type ClientId = u64;

/// Immutable description of a mining target, tagged with the client that
/// produced it.
#[derive(Debug, Clone, Copy, PartialEq, Eq, Structural)]
pub struct Job {
    pub origin: ClientId,
    pub version: u32,
    pub time: u32,
    pub bits: u32,
}

/// A partial hash state together with the block version it was computed for.
#[derive(Debug, Clone, Copy, PartialEq, Eq)]
pub struct Midstate {
    pub version: u32,
    pub state: [u8; 32],
}

/// One unit of hashing work derived from a job.
#[derive(Debug)]
pub struct Assignment {
    pub job: Job,
    pub midstates: Vec<Midstate>,
    pub time: u32,
}

impl Assignment {
    pub fn new(job: Job, midstates: Vec<Midstate>, time: u32) -> (r: Assignment)
        ensures
            r.job == job,
            r.midstates@ == midstates@,
            r.time == time,
    {
        Assignment { job, midstates, time }
    }

    /// A copy of this assignment with the same job, midstates and time.
    pub fn duplicate(&self) -> (r: Assignment)
        ensures
            r.job == self.job,
            r.midstates@ == self.midstates@,
            r.time == self.time,
    {
        let mut midstates: Vec<Midstate> = Vec::new();
        let mut i: usize = 0;
        while i < self.midstates.len()
            invariant
                i <= self.midstates@.len(),
                midstates@ == self.midstates@.subrange(0, i as int),
            decreases self.midstates@.len() - i,
        {
            midstates.push(self.midstates[i]);
            i = i + 1;
            assert(midstates@ =~= self.midstates@.subrange(0, i as int));
        }
        assert(midstates@ =~= self.midstates@);
        Assignment { job: self.job, midstates, time: self.time }
    }
}

/// What the hardware reports for a found nonce: the work ID it was issued
/// under, the nonce and the index of the matching midstate.
#[derive(Debug, Clone, Copy, PartialEq, Eq, Structural)]
pub struct HwSolution {
    pub work_id: usize,
    pub nonce: u32,
    pub midstate_idx: usize,
}

/// A hardware solution resolved against the work it was found for.
#[derive(Debug, Clone, Copy, PartialEq, Eq)]
pub struct Solution {
    pub job: Job,
    pub nonce: u32,
    pub midstate: Midstate,
    pub midstate_idx: usize,
    pub time: u32,
}

impl Solution {
    /// Identity of the client whose job this solution was found for.
    pub fn origin(&self) -> (r: ClientId)
        ensures
            r == self.job.origin,
    {
        self.job.origin
    }
}

} // verus!
