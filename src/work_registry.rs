use vstd::prelude::*;
use crate::work::{Assignment, Job, Midstate};

verus! {

/// Mathematical value of an assignment: its job, midstates and time.
pub type AssignmentModel = (Job, Seq<Midstate>, u32);

pub open spec fn model_of(a: &Assignment) -> AssignmentModel {
    (a.job, a.midstates@, a.time)
}

pub open spec fn slot_model(s: Option<Assignment>) -> Option<AssignmentModel> {
    match s {
        Some(a) => Some(model_of(&a)),
        None => None,
    }
}

/// The abstract state of a work registry: one slot per work ID and the ID the
/// next stored assignment receives.
pub struct RegistryModel {
    pub slots: Seq<Option<AssignmentModel>>,
    pub next: nat,
}

/// The state after storing `a`: it takes the slot `next`, overwriting any
/// previous occupant, and the cursor moves on cyclically.
pub open spec fn store_spec(m: RegistryModel, a: AssignmentModel) -> RegistryModel {
    RegistryModel {
        slots: m.slots.update(m.next as int, Some(a)),
        next: ((m.next + 1) as int % (m.slots.len() as int)) as nat,
    }
}

/// The state of a fresh registry of `limit` slots after storing `ws` in order.
pub open spec fn stored_after(limit: nat, ws: Seq<AssignmentModel>) -> RegistryModel
    decreases ws.len(),
{
    if ws.len() == 0 {
        RegistryModel { slots: Seq::new(limit, |i: int| None), next: 0 }
    } else {
        store_spec(stored_after(limit, ws.drop_last()), ws.last())
    }
}

proof fn lemma_mod_distinct(a: int, b: int, m: int)
    requires
        m > 0,
        0 <= a < b,
        b < a + m,
    ensures
        a % m != b % m,
{
    vstd::arithmetic::div_mod::lemma_fundamental_div_mod(a, m);
    vstd::arithmetic::div_mod::lemma_fundamental_div_mod(b, m);
    vstd::arithmetic::div_mod::lemma_mod_bound(a, m);
    vstd::arithmetic::div_mod::lemma_mod_bound(b, m);
    if a % m == b % m {
        let qa = a / m;
        let qb = b / m;
        assert(b - a == m * (qb - qa)) by (nonlinear_arith)
            requires
                a == m * qa + a % m,
                b == m * qb + b % m,
                a % m == b % m,
        ;
        assert(false) by (nonlinear_arith)
            requires
                b - a == m * (qb - qa),
                0 < b - a < m,
                m > 0,
        ;
    }
}

/// Storing work in a fresh registry of `limit` slots, however many times the
/// IDs wrap around: every ID that was issued resolves to the assignment most
/// recently stored under it (the `k`-th store with `k` congruent to the ID and
/// no later store of that ID), and every ID not yet issued resolves to nothing.
pub proof fn lemma_resolve_returns_latest(limit: nat, ws: Seq<AssignmentModel>, id: nat, k: nat)
    requires
        limit > 0,
        id < limit,
    ensures
        stored_after(limit, ws).slots.len() == limit,
        stored_after(limit, ws).next == ws.len() as int % (limit as int),
        k < ws.len() && k % limit == id && ws.len() <= k + limit
            ==> stored_after(limit, ws).slots[id as int] == Some(ws[k as int]),
        id >= ws.len() ==> stored_after(limit, ws).slots[id as int] is None,
    decreases ws.len(),
{
    if ws.len() > 0 {
        let n = (ws.len() - 1) as nat;
        let prev = ws.drop_last();
        lemma_resolve_returns_latest(limit, prev, id, k);
        vstd::arithmetic::div_mod::lemma_mod_bound(n as int, limit as int);
        vstd::arithmetic::div_mod::lemma_mod_bound((n + 1) as int, limit as int);
        assert((n as int % limit as int + 1) % (limit as int) == (n + 1) as int % (limit as int)) by {
            vstd::arithmetic::div_mod::lemma_add_mod_noop_right(1, n as int, limit as int);
        }
        if k < ws.len() && k % limit == id && ws.len() <= k + limit {
            if k < n {
                lemma_mod_distinct(k as int, n as int, limit as int);
            }
        }
        if id >= ws.len() {
            vstd::arithmetic::div_mod::lemma_small_mod(n, limit);
        }
    } else {
        vstd::arithmetic::div_mod::lemma_small_mod(0, limit);
    }
}

/// Fixed-capacity ring of slots that maps a work ID to the assignment last
/// issued under it.
pub struct WorkRegistry {
    slots: Vec<Option<Assignment>>,
    next: usize,
}

impl WorkRegistry {
    pub closed spec fn wf(&self) -> bool {
        &&& self.slots@.len() > 0
        &&& self.next < self.slots@.len()
    }

    pub closed spec fn view(&self) -> RegistryModel {
        RegistryModel {
            slots: Seq::new(self.slots@.len(), |i: int| slot_model(self.slots@[i])),
            next: self.next as nat,
        }
    }

    /// A registry with `id_limit` empty slots.
    pub fn new(id_limit: usize) -> (r: WorkRegistry)
        requires
            id_limit > 0,
        ensures
            r.wf(),
            r.view() == stored_after(id_limit as nat, Seq::empty()),
    {
        let mut slots: Vec<Option<Assignment>> = Vec::new();
        let mut i: usize = 0;
        while i < id_limit
            invariant
                i <= id_limit,
                slots@.len() == i,
                forall|k: int| 0 <= k < i ==> slots@[k] is None,
            decreases id_limit - i,
        {
            slots.push(None);
            i = i + 1;
        }
        let r = WorkRegistry { slots, next: 0 };
        assert(r.view().slots =~= stored_after(id_limit as nat, Seq::empty()).slots);
        r
    }

    /// Number of work IDs, which are the integers below it.
    pub fn id_limit(&self) -> (r: usize)
        requires
            self.wf(),
        ensures
            r == self.view().slots.len(),
    {
        self.slots.len()
    }

    /// Stores `work` under the next cyclic work ID and returns that ID.
    pub fn store_work(&mut self, work: Assignment) -> (r: usize)
        requires
            old(self).wf(),
        ensures
            final(self).wf(),
            r == old(self).view().next,
            final(self).view() == store_spec(old(self).view(), model_of(&work)),
    {
        let id = self.next;
        let ghost m = model_of(&work);
        self.slots.set(id, Some(work));
        if self.next == self.slots.len() - 1 {
            self.next = 0;
        } else {
            self.next = self.next + 1;
        }
        proof {
            let ov = old(self).view();
            assert(self.view().slots =~= store_spec(ov, m).slots);
            assert(self.view().next == store_spec(ov, m).next) by {
                if id + 1 == self.slots@.len() {
                    vstd::arithmetic::div_mod::lemma_mod_self_0(self.slots@.len() as int);
                } else {
                    vstd::arithmetic::div_mod::lemma_small_mod((id + 1) as nat, self.slots@.len() as nat);
                }
            }
        }
        id
    }

    /// The assignment currently stored under `id`, if any.
    pub fn resolve(&self, id: usize) -> (r: Option<&Assignment>)
        requires
            self.wf(),
        ensures
            id < self.view().slots.len() ==> match r {
                Some(a) => self.view().slots[id as int] == Some(model_of(a)),
                None => self.view().slots[id as int] is None,
            },
            id >= self.view().slots.len() ==> r is None,
    {
        if id < self.slots.len() {
            self.slots[id].as_ref()
        } else {
            None
        }
    }
}

} // verus!
