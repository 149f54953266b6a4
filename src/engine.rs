use vstd::prelude::*;
use crate::work::Job;

verus! {

/// Block-version bits that version rolling may change: the sixteen
/// general-purpose bits 13 to 28.
pub const VERSION_MASK: u32 = 0x1fffe000;

/// Number of distinct values the rolled bits can take.
pub const ROLLED_VALUES: u32 = 0x10000;

/// The version with rolled value `i` in the rolling bits of `base`.
pub open spec fn rolled_version(base: u32, i: u32) -> u32 {
    (base & !VERSION_MASK) | ((i << 13u32) & VERSION_MASK)
}

/// Version-rolling work engine for one job: each call hands out the versions
/// of the next `midstate_count` midstates until the rolling space is used up.
#[derive(Debug)]
pub struct VersionRolling {
    job: Job,
    midstate_count: u32,
    next_index: u32,
}

impl VersionRolling {
    pub closed spec fn spec_job(&self) -> Job {
        self.job
    }

    pub closed spec fn spec_midstate_count(&self) -> u32 {
        self.midstate_count
    }

    /// How many rolled values have been handed out.
    pub closed spec fn spec_next_index(&self) -> u32 {
        self.next_index
    }

    pub open spec fn wf(&self) -> bool {
        &&& 0 < self.spec_midstate_count()
        &&& self.spec_next_index() <= ROLLED_VALUES
    }

    pub fn new(job: Job, midstate_count: u32) -> (r: VersionRolling)
        requires
            0 < midstate_count,
        ensures
            r.wf(),
            r.spec_job() == job,
            r.spec_midstate_count() == midstate_count,
            r.spec_next_index() == 0,
    {
        VersionRolling { job, midstate_count, next_index: 0 }
    }

    /// Whether no further assignment can be produced.
    pub fn is_exhausted(&self) -> (r: bool)
        requires
            self.wf(),
        ensures
            r <==> self.spec_next_index() + self.spec_midstate_count() > ROLLED_VALUES,
    {
        self.midstate_count > ROLLED_VALUES - self.next_index
    }

    /// The versions of the midstates of the next assignment, all with the
    /// job's version outside the rolling bits, and successive rolled values in
    /// them; `None` once the rolling space is used up.
    pub fn next_versions(&mut self) -> (r: Option<Vec<u32>>)
        requires
            old(self).wf(),
        ensures
            final(self).wf(),
            final(self).spec_job() == old(self).spec_job(),
            final(self).spec_midstate_count() == old(self).spec_midstate_count(),
            match r {
                Some(v) => {
                    &&& old(self).spec_next_index() + old(self).spec_midstate_count() <= ROLLED_VALUES
                    &&& final(self).spec_next_index() == old(self).spec_next_index() + old(self).spec_midstate_count()
                    &&& v@.len() == old(self).spec_midstate_count()
                    &&& forall|k: int| 0 <= k < v@.len() ==> #[trigger] v@[k]
                        == rolled_version(old(self).spec_job().version, (old(self).spec_next_index() + k) as u32)
                },
                None => {
                    &&& old(self).spec_next_index() + old(self).spec_midstate_count() > ROLLED_VALUES
                    &&& final(self).spec_next_index() == old(self).spec_next_index()
                },
            },
    {
        if self.midstate_count > ROLLED_VALUES - self.next_index {
            return None;
        }
        let base = self.job.version;
        let mut versions: Vec<u32> = Vec::new();
        let mut k: u32 = 0;
        while k < self.midstate_count
            invariant
                self.wf(),
                self.next_index + self.midstate_count <= ROLLED_VALUES,
                base == self.job.version,
                k <= self.midstate_count,
                versions@.len() == k,
                forall|j: int| 0 <= j < k ==> #[trigger] versions@[j]
                    == rolled_version(base, (self.next_index + j) as u32),
            decreases self.midstate_count - k,
        {
            let i: u32 = self.next_index + k;
            versions.push((base & !VERSION_MASK) | ((i << 13u32) & VERSION_MASK));
            k = k + 1;
        }
        self.next_index = self.next_index + self.midstate_count;
        Some(versions)
    }
}

} // verus!
