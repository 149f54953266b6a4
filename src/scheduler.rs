use vstd::prelude::*;
use crate::error;
use crate::work::ClientId;

verus! {

broadcast use vstd::seq_lib::group_to_multiset_ensures;

/// Scheduling metadata of one registered client: its target share of all
/// work, as the fraction `share_num / share_den`, and how much work has been
/// generated for it.
#[derive(Debug, Clone, Copy, PartialEq, Eq, Structural)]
pub struct SchedulerHandle {
    pub client: ClientId,
    pub share_num: usize,
    pub share_den: usize,
    pub generated_work: u64,
}

impl SchedulerHandle {
    /// A handle with no share yet and no generated work.
    pub fn new(client: ClientId) -> (r: SchedulerHandle)
        ensures
            r == (SchedulerHandle { client, share_num: 0, share_den: 1, generated_work: 0 }),
    {
        SchedulerHandle { client, share_num: 0, share_den: 1, generated_work: 0 }
    }
}

pub open spec fn ids(s: Seq<SchedulerHandle>) -> Seq<ClientId> {
    s.map_values(|h: SchedulerHandle| h.client)
}

/// Every handle has the share `1 / s.len()`.
pub open spec fn equal_shares(s: Seq<SchedulerHandle>) -> bool {
    forall|i: int| 0 <= i < s.len() ==> (#[trigger] s[i]).share_num == 1 && s[i].share_den == s.len()
}

/// Sum of the generated-work counters.
pub open spec fn total_generated(s: Seq<SchedulerHandle>) -> int
    decreases s.len(),
{
    if s.len() == 0 {
        0
    } else {
        total_generated(s.drop_last()) + s.last().generated_work
    }
}

/// Sum of the share numerators.
pub open spec fn total_share_num(s: Seq<SchedulerHandle>) -> int
    decreases s.len(),
{
    if s.len() == 0 {
        0
    } else {
        total_share_num(s.drop_last()) + s.last().share_num
    }
}

/// The deficit of `a` (target share minus observed share of `total` generated
/// work) is at least that of `b`. The observed share is zero while nothing has
/// been generated; the comparison is the cross-multiplied form of
/// `a.num/a.den - a.gen/total >= b.num/b.den - b.gen/total`.
pub open spec fn deficit_at_least(a: SchedulerHandle, b: SchedulerHandle, total: int) -> bool {
    if total == 0 {
        a.share_num * b.share_den >= b.share_num * a.share_den
    } else {
        (a.share_num * b.share_den - b.share_num * a.share_den) * total
            >= (a.generated_work - b.generated_work) * (a.share_den * b.share_den)
    }
}

/// Index `i` holds a client of maximum deficit, and no earlier client has one
/// as large.
pub open spec fn max_deficit_at(s: Seq<SchedulerHandle>, i: int) -> bool {
    &&& 0 <= i < s.len()
    &&& forall|j: int| 0 <= j < s.len() ==> deficit_at_least(s[i], #[trigger] s[j], total_generated(s))
    &&& forall|j: int| 0 <= j < i ==> !deficit_at_least(#[trigger] s[j], s[i], total_generated(s))
}

/// One dispatch decision: the client of maximum deficit at `i` is chosen and
/// one unit of work is counted for it.
pub open spec fn dispatched(old: Seq<SchedulerHandle>, new: Seq<SchedulerHandle>, i: int) -> bool {
    &&& max_deficit_at(old, i)
    &&& old[i].generated_work < u64::MAX
    &&& new == old.update(i, SchedulerHandle { generated_work: (old[i].generated_work + 1) as u64, ..old[i] })
}

proof fn lemma_total_bounds(s: Seq<SchedulerHandle>, i: int)
    requires
        0 <= i < s.len(),
    ensures
        s[i].generated_work <= total_generated(s),
        total_generated(s) >= 0,
    decreases s.len(),
{
    if s.len() == 1 {
        assert(total_generated(s.drop_last()) == 0);
    } else if i < s.len() - 1 {
        lemma_total_bounds(s.drop_last(), i);
    } else {
        lemma_total_bounds(s.drop_last(), 0);
    }
}

/// With equal shares the deficit order is the reverse order of the counters.
proof fn lemma_deficit_equal_shares(s: Seq<SchedulerHandle>, i: int, j: int)
    requires
        equal_shares(s),
        0 <= i < s.len(),
        0 <= j < s.len(),
    ensures
        deficit_at_least(s[i], s[j], total_generated(s)) <==> s[i].generated_work <= s[j].generated_work,
{
    let t = total_generated(s);
    let n = s.len() as int;
    lemma_total_bounds(s, i);
    lemma_total_bounds(s, j);
    assert(s[i].share_den == n && s[j].share_den == n);
    if t == 0 {
    } else {
        let d = s[i].generated_work - s[j].generated_work;
        assert((1 * n - 1 * n) * t == 0) by (nonlinear_arith);
        assert(d * (n * n) <= 0 <==> d <= 0) by (nonlinear_arith)
            requires
                n > 0,
        ;
    }
}

/// Keeps track of all active clients.
pub struct Registry {
    list: Vec<SchedulerHandle>,
}

impl Registry {
    pub closed spec fn view(&self) -> Seq<SchedulerHandle> {
        self.list@
    }

    /// While any client is registered, every client has an equal share.
    pub open spec fn wf(&self) -> bool {
        equal_shares(self.view())
    }

    pub fn new() -> (r: Registry)
        ensures
            r.wf(),
            r.view() == Seq::<SchedulerHandle>::empty(),
    {
        Registry { list: Vec::new() }
    }

    pub fn count(&self) -> (r: usize)
        ensures
            r == self.view().len(),
    {
        self.list.len()
    }

    pub fn is_empty(&self) -> (r: bool)
        ensures
            r <==> self.view().len() == 0,
    {
        self.list.len() == 0
    }

    /// The scheduling handles in order.
    pub fn iter(&self) -> (r: &[SchedulerHandle])
        ensures
            r@ == self.view(),
    {
        self.list.as_slice()
    }

    /// Identities of the registered clients in order.
    pub fn get_clients(&self) -> (r: Vec<ClientId>)
        ensures
            r@ == ids(self.view()),
    {
        let mut r: Vec<ClientId> = Vec::new();
        let mut i: usize = 0;
        while i < self.list.len()
            invariant
                i <= self.list@.len(),
                r@ == ids(self.list@).subrange(0, i as int),
            decreases self.list@.len() - i,
        {
            r.push(self.list[i].client);
            i = i + 1;
            assert(r@ =~= ids(self.list@).subrange(0, i as int));
        }
        assert(r@ =~= ids(self.list@));
        r
    }

    /// Index of the first handle of `client`, if it is registered.
    fn position(&self, client: ClientId) -> (r: Option<usize>)
        ensures
            match r {
                Some(i) => {
                    &&& i < self.view().len()
                    &&& self.view()[i as int].client == client
                    &&& forall|k: int| 0 <= k < i ==> (#[trigger] self.view()[k]).client != client
                },
                None => !ids(self.view()).contains(client),
            },
    {
        let mut i: usize = 0;
        while i < self.list.len()
            invariant
                i <= self.list@.len(),
                forall|k: int| 0 <= k < i ==> (#[trigger] self.list@[k]).client != client,
            decreases self.list@.len() - i,
        {
            if self.list[i].client == client {
                return Some(i);
            }
            i = i + 1;
        }
        proof {
            if ids(self.list@).contains(client) {
                let k = choose|k: int| 0 <= k < ids(self.list@).len() && ids(self.list@)[k] == client;
                assert(self.list@[k].client == client);
            }
        }
        None
    }

    /// The scheduling handle of `client`.
    pub fn get_scheduler_handle(&self, client: ClientId) -> (r: Result<SchedulerHandle, error::Client>)
        ensures
            match r {
                Ok(h) => h.client == client && self.view().contains(h),
                Err(e) => e == error::Client::Missing && !ids(self.view()).contains(client),
            },
    {
        match self.position(client) {
            Some(i) => Ok(self.list[i]),
            None => Err(error::Client::Missing),
        }
    }

    /// Gives every client the share `1 / count`; with `reset_generated_work`
    /// also sets every generated-work counter to zero.
    pub fn recalculate_quotas(&mut self, reset_generated_work: bool)
        ensures
            final(self).view().len() == old(self).view().len(),
            old(self).view().len() == 0 ==> final(self).view() == old(self).view(),
            old(self).view().len() > 0 ==> forall|i: int| 0 <= i < old(self).view().len() ==>
                #[trigger] final(self).view()[i] == (SchedulerHandle {
                    share_num: 1,
                    share_den: old(self).view().len() as usize,
                    generated_work: if reset_generated_work { 0 } else { old(self).view()[i].generated_work },
                    ..old(self).view()[i]
                }),
    {
        let clients = self.list.len();
        if clients == 0 {
            return;
        }
        let mut i: usize = 0;
        while i < clients
            invariant
                clients == old(self).list@.len(),
                self.list@.len() == clients,
                i <= clients,
                forall|k: int| i <= k < clients ==> #[trigger] self.list@[k] == old(self).list@[k],
                forall|k: int| 0 <= k < i ==> #[trigger] self.list@[k] == (SchedulerHandle {
                    share_num: 1,
                    share_den: clients,
                    generated_work: if reset_generated_work { 0 } else { old(self).list@[k].generated_work },
                    ..old(self).list@[k]
                }),
            decreases clients - i,
        {
            let mut h = self.list[i];
            if reset_generated_work {
                h.generated_work = 0;
            }
            h.share_num = 1;
            h.share_den = clients;
            self.list.set(i, h);
            i = i + 1;
        }
    }

    /// Registers `client` at the end of the list and resets every share to an
    /// equal split and every counter to zero. A client may be registered more
    /// than once; each registration gets a handle of its own.
    pub fn register_client(&mut self, client: ClientId) -> (r: SchedulerHandle)
        requires
            old(self).wf(),
            old(self).view().len() < usize::MAX,
        ensures
            final(self).wf(),
            final(self).view().len() == old(self).view().len() + 1,
            ids(final(self).view()) == ids(old(self).view()).push(client),
            forall|i: int| 0 <= i < final(self).view().len() ==>
                (#[trigger] final(self).view()[i]).generated_work == 0,
            total_share_num(final(self).view()) == final(self).view().len(),
            r == final(self).view().last(),
    {
        self.list.push(SchedulerHandle::new(client));
        self.recalculate_quotas(true);
        proof {
            assert(ids(self.list@) =~= ids(old(self).list@).push(client));
            lemma_unit_shares_sum(self.list@);
        }
        self.list[self.list.len() - 1]
    }

    /// Removes the first handle of `client` and splits the shares equally
    /// among the remaining clients, keeping their counters.
    pub fn unregister_client(&mut self, client: ClientId) -> (r: Result<SchedulerHandle, error::Client>)
        requires
            old(self).wf(),
        ensures
            final(self).wf(),
            match r {
                Ok(h) => exists|k: int| {
                    &&& 0 <= k < old(self).view().len()
                    &&& h == old(self).view()[k]
                    &&& h.client == client
                    &&& forall|j: int| 0 <= j < k ==> (#[trigger] old(self).view()[j]).client != client
                    &&& ids(final(self).view()) == ids(old(self).view()).remove(k)
                    &&& forall|i: int| 0 <= i < final(self).view().len() ==>
                        (#[trigger] final(self).view()[i]).generated_work
                            == old(self).view().remove(k)[i].generated_work
                    &&& total_share_num(final(self).view()) == final(self).view().len()
                },
                Err(e) => {
                    &&& e == error::Client::Missing
                    &&& !ids(old(self).view()).contains(client)
                    &&& final(self).view() == old(self).view()
                },
            },
    {
        match self.position(client) {
            Some(index) => {
                let h = self.list.remove(index);
                let ghost rest = self.list@;
                self.recalculate_quotas(false);
                proof {
                    let pre = old(self).list@;
                    assert(rest =~= pre.remove(index as int));
                    assert(ids(self.list@) =~= ids(pre).remove(index as int));
                    lemma_unit_shares_sum(self.list@);
                }
                Ok(h)
            },
            None => Err(error::Client::Missing),
        }
    }

    /// Puts the clients in the order `order`, which must name the registered
    /// clients exactly as often as they are registered; otherwise nothing
    /// changes.
    pub fn reorder_clients(&mut self, order: &[ClientId]) -> (r: Result<(), error::Client>)
        requires
            old(self).wf(),
        ensures
            final(self).wf(),
            r is Err ==> final(self).view() == old(self).view(),
            r == Err::<(), error::Client>(error::Client::Missing) <==>
                exists|k: int| 0 <= k < order@.len() && !ids(old(self).view()).contains(#[trigger] order@[k]),
            r == Err::<(), error::Client>(error::Client::Additional) <==> {
                &&& forall|k: int| 0 <= k < order@.len() ==> ids(old(self).view()).contains(#[trigger] order@[k])
                &&& order@.to_multiset() != ids(old(self).view()).to_multiset()
            },
            r is Ok <==> order@.to_multiset() == ids(old(self).view()).to_multiset(),
            r is Ok ==> {
                &&& ids(final(self).view()) == order@
                &&& final(self).view().to_multiset() == old(self).view().to_multiset()
            },
    {
        let mut k: usize = 0;
        while k < order.len()
            invariant
                k <= order@.len(),
                self.list@ == old(self).list@,
                self.wf(),
                forall|j: int| 0 <= j < k ==> ids(self.list@).contains(#[trigger] order@[j]),
            decreases order@.len() - k,
        {
            match self.position(order[k]) {
                Some(i) => {
                    assert(ids(self.list@)[i as int] == order@[k as int]);
                },
                None => {
                    proof {
                        let x = order@[k as int];
                        assert(order@.contains(x));
                        assert(order@.to_multiset().count(x) > 0);
                        assert(ids(self.list@).to_multiset().count(x) == 0);
                    }
                    return Err(error::Client::Missing);
                },
            }
            k = k + 1;
        }
        let ghost all = ids(self.list@);
        proof {
            assert forall|x: ClientId| order@.to_multiset().count(x) > 0 implies all.contains(x) by {
                let j = choose|j: int| 0 <= j < order@.len() && order@[j] == x;
                assert(all.contains(order@[j]));
            }
        }
        if order.len() != self.list.len() {
            proof {
                assert(order@.to_multiset().len() != all.to_multiset().len());
            }
            return Err(error::Client::Additional);
        }
        let mut work: Vec<SchedulerHandle> = Vec::new();
        let mut i: usize = 0;
        while i < self.list.len()
            invariant
                i <= self.list@.len(),
                work@ == self.list@.take(i as int),
            decreases self.list@.len() - i,
        {
            work.push(self.list[i]);
            i = i + 1;
            assert(work@ =~= self.list@.take(i as int));
        }
        assert(work@ =~= self.list@);
        let mut handles: Vec<SchedulerHandle> = Vec::new();
        let mut k: usize = 0;
        assert(order@.take(0) =~= Seq::<ClientId>::empty());
        assert(ids(handles@) =~= Seq::<ClientId>::empty());
        while k < order.len()
            invariant
                self.list@ == old(self).list@,
                self.wf(),
                all == ids(self.list@),
                order@.len() == self.list@.len(),
                k <= order@.len(),
                handles@.len() == k,
                work@.len() + k == self.list@.len(),
                ids(handles@) == order@.take(k as int),
                handles@.to_multiset().add(work@.to_multiset()) == self.list@.to_multiset(),
                ids(work@).to_multiset().add(order@.take(k as int).to_multiset()) == all.to_multiset(),
                forall|x: ClientId| order@.to_multiset().count(x) > 0 ==> #[trigger] all.contains(x),
            decreases order@.len() - k,
        {
            let id = order[k];
            let mut j: usize = 0;
            while j < work.len() && work[j].client != id
                invariant
                    j <= work@.len(),
                    forall|m: int| 0 <= m < j ==> (#[trigger] work@[m]).client != id,
                decreases work@.len() - j,
            {
                j = j + 1;
            }
            proof {
                assert(order@.take(k as int + 1) =~= order@.take(k as int).push(id));
                assert(order@ =~= order@.take(k as int + 1) + order@.skip(k as int + 1));
                vstd::seq_lib::lemma_multiset_commutative(order@.take(k as int + 1), order@.skip(k as int + 1));
            }
            if j == work.len() {
                proof {
                    if ids(work@).contains(id) {
                        let m = choose|m: int| 0 <= m < ids(work@).len() && ids(work@)[m] == id;
                        assert(work@[m].client == id);
                        assert(false);
                    }
                    assert(ids(work@).to_multiset().count(id) == 0);
                    assert(order@.to_multiset().count(id) > all.to_multiset().count(id));
                }
                return Err(error::Client::Additional);
            }
            let ghost w = work@;
            let ghost hs = handles@;
            let h = work.remove(j);
            handles.push(h);
            proof {
                assert(work@ == w.remove(j as int));
                assert(handles@ == hs.push(h));
                assert(work@.to_multiset() =~= w.to_multiset().remove(h));
                assert(handles@.to_multiset() =~= hs.to_multiset().insert(h));
                assert(w.to_multiset().count(h) > 0) by {
                    assert(w.contains(w[j as int]));
                }
                assert(ids(work@) =~= ids(w).remove(j as int));
                assert(ids(w)[j as int] == id);
                assert(ids(work@).to_multiset() =~= ids(w).to_multiset().remove(id));
                assert(order@.take(k as int + 1).to_multiset() =~= order@.take(k as int).to_multiset().insert(id));
                assert(ids(w).to_multiset().count(id) > 0) by {
                    assert(ids(w).contains(ids(w)[j as int]));
                }
                assert(ids(handles@) =~= order@.take(k as int + 1));
                assert(handles@.to_multiset().add(work@.to_multiset()) =~= self.list@.to_multiset());
                assert(ids(work@).to_multiset().add(order@.take(k as int + 1).to_multiset()) =~= all.to_multiset());
            }
            k = k + 1;
        }
        proof {
            assert(work@.len() == 0);
            assert(work@.to_multiset() =~= vstd::multiset::Multiset::empty());
            assert(ids(work@).to_multiset() =~= vstd::multiset::Multiset::empty());
            assert(order@.take(order@.len() as int) =~= order@);
            assert(handles@.to_multiset() =~= self.list@.to_multiset());
            assert(order@.to_multiset() =~= all.to_multiset());
            let pre = self.list@;
            assert forall|i: int| 0 <= i < handles@.len() implies
                (#[trigger] handles@[i]).share_num == 1 && handles@[i].share_den == handles@.len() by {
                assert(handles@.contains(handles@[i]));
                assert(pre.to_multiset().count(handles@[i]) > 0);
                let m = choose|m: int| 0 <= m < pre.len() && pre[m] == handles@[i];
                assert(pre[m].share_den == pre.len());
            }
        }
        self.list = handles;
        Ok(())
    }

    /// Index of the client of maximum deficit, the first such in list order;
    /// `None` when no client is registered.
    pub fn select_client(&self) -> (r: Option<usize>)
        requires
            self.wf(),
        ensures
            match r {
                Some(i) => max_deficit_at(self.view(), i as int),
                None => self.view().len() == 0,
            },
    {
        if self.list.len() == 0 {
            return None;
        }
        let mut best: usize = 0;
        let mut i: usize = 1;
        while i < self.list.len()
            invariant
                0 <= best < i <= self.list@.len(),
                forall|k: int| 0 <= k < i ==> self.list@[best as int].generated_work <= (#[trigger] self.list@[k]).generated_work,
                forall|k: int| 0 <= k < best ==> self.list@[best as int].generated_work < (#[trigger] self.list@[k]).generated_work,
            decreases self.list@.len() - i,
        {
            if self.list[i].generated_work < self.list[best].generated_work {
                best = i;
            }
            i = i + 1;
        }
        proof {
            let s = self.list@;
            assert forall|j: int| 0 <= j < s.len() implies deficit_at_least(s[best as int], #[trigger] s[j], total_generated(s)) by {
                lemma_deficit_equal_shares(s, best as int, j);
            }
            assert forall|j: int| 0 <= j < best implies !deficit_at_least(#[trigger] s[j], s[best as int], total_generated(s)) by {
                lemma_deficit_equal_shares(s, j, best as int);
            }
        }
        Some(best)
    }

    /// Adds `amount` to the generated-work counter of the client at `index`.
    pub fn record_generated(&mut self, index: usize, amount: u64)
        requires
            old(self).wf(),
            index < old(self).view().len(),
            old(self).view()[index as int].generated_work + amount <= u64::MAX,
        ensures
            final(self).wf(),
            final(self).view() == old(self).view().update(index as int, SchedulerHandle {
                generated_work: (old(self).view()[index as int].generated_work + amount) as u64,
                ..old(self).view()[index as int]
            }),
    {
        let mut h = self.list[index];
        h.generated_work = h.generated_work + amount;
        self.list.set(index, h);
        assert(ids(self.list@) =~= ids(old(self).list@));
        assert forall|i: int| 0 <= i < self.list@.len() implies
            (#[trigger] self.list@[i]).share_num == 1 && self.list@[i].share_den == self.list@.len() by {
            assert(old(self).list@[i].share_den == old(self).list@.len());
        }
    }

    /// Chooses the client of maximum deficit and counts one unit of work for
    /// it; `None` when no client is registered. The chosen client has the
    /// smallest counter, so it is enough that some counter can still grow.
    pub fn schedule_next(&mut self) -> (r: Option<usize>)
        requires
            old(self).wf(),
            old(self).view().len() == 0
                || exists|i: int| 0 <= i < old(self).view().len() && (#[trigger] old(self).view()[i]).generated_work < u64::MAX,
        ensures
            final(self).wf(),
            match r {
                Some(i) => dispatched(old(self).view(), final(self).view(), i as int),
                None => old(self).view().len() == 0 && final(self).view() == old(self).view(),
            },
    {
        match self.select_client() {
            Some(i) => {
                proof {
                    let s = self.list@;
                    let w = choose|w: int| 0 <= w < s.len() && (#[trigger] s[w]).generated_work < u64::MAX;
                    lemma_deficit_equal_shares(s, i as int, w);
                }
                self.record_generated(i, 1);
                Some(i)
            },
            None => None,
        }
    }
}

/// Difference between the counters of the first two clients.
pub open spec fn counter_gap(s: Seq<SchedulerHandle>) -> int {
    let d = s[0].generated_work - s[1].generated_work;
    if d >= 0 { d } else { -d }
}

proof fn lemma_unit_shares_sum(s: Seq<SchedulerHandle>)
    requires
        forall|i: int| 0 <= i < s.len() ==> (#[trigger] s[i]).share_num == 1,
    ensures
        total_share_num(s) == s.len(),
    decreases s.len(),
{
    if s.len() > 0 {
        let p = s.drop_last();
        assert forall|i: int| 0 <= i < p.len() implies (#[trigger] p[i]).share_num == 1 by {
            assert(p[i] == s[i]);
        }
        lemma_unit_shares_sum(p);
    }
}

/// Whatever sequence of registrations and removals produced a registry, as
/// long as it holds a client the target shares add up to exactly one: every
/// share has the denominator `count` and the numerators add up to `count`.
pub proof fn lemma_quota_conservation(r: &Registry)
    requires
        r.wf(),
        r.view().len() > 0,
    ensures
        forall|i: int| 0 <= i < r.view().len() ==> (#[trigger] r.view()[i]).share_den == r.view().len(),
        total_share_num(r.view()) == r.view().len(),
{
    lemma_unit_shares_sum(r.view());
}

proof fn lemma_step_gap(s: Seq<SchedulerHandle>, n: Seq<SchedulerHandle>, i: int)
    requires
        equal_shares(s),
        s.len() == 2,
        dispatched(s, n, i),
    ensures
        equal_shares(n),
        n.len() == 2,
        counter_gap(n) == if counter_gap(s) == 0 { 1 } else { counter_gap(s) - 1 },
{
    lemma_deficit_equal_shares(s, i, 0);
    lemma_deficit_equal_shares(s, i, 1);
    lemma_deficit_equal_shares(s, 0, i);
    assert(n[i].generated_work == s[i].generated_work + 1);
    assert(n[1 - i] == s[1 - i]);
    assert(n[0].share_den == 2 && n[1].share_den == 2);
}

/// With two clients of equal share, each dispatch decision narrows the gap
/// between their counters by one until they differ by at most one, and from
/// then on they never differ by more than one.
pub proof fn lemma_dispatch_narrows_gap(old: &Registry, new: &Registry, i: int)
    requires
        old.wf(),
        old.view().len() == 2,
        dispatched(old.view(), new.view(), i),
    ensures
        counter_gap(new.view()) == if counter_gap(old.view()) == 0 { 1 } else { counter_gap(old.view()) - 1 },
{
    lemma_step_gap(old.view(), new.view(), i);
}

/// With two clients of equal share, after `t` dispatch decisions the gap
/// between their counters is at most the larger of one and the initial gap
/// less `t`: it shrinks to at most one as `t` grows.
pub proof fn lemma_fairness_convergence(states: Seq<Seq<SchedulerHandle>>, picks: Seq<int>)
    requires
        states.len() == picks.len() + 1,
        states[0].len() == 2,
        equal_shares(states[0]),
        forall|t: int| 0 <= t < picks.len() ==> dispatched(states[t], states[t + 1], #[trigger] picks[t]),
    ensures
        counter_gap(states.last()) <= if counter_gap(states[0]) - picks.len() > 1 {
            counter_gap(states[0]) - picks.len()
        } else {
            1
        },
        equal_shares(states.last()),
        states.last().len() == 2,
    decreases picks.len(),
{
    if picks.len() > 0 {
        let t = picks.len() - 1;
        assert forall|u: int| 0 <= u < picks.drop_last().len() implies
            dispatched(states.drop_last()[u], states.drop_last()[u + 1], #[trigger] picks.drop_last()[u]) by {
            assert(picks.drop_last()[u] == picks[u]);
        }
        lemma_fairness_convergence(states.drop_last(), picks.drop_last());
        assert(states.drop_last().last() == states[t]);
        assert(dispatched(states[t], states[t + 1], picks[t]));
        lemma_step_gap(states[t], states[t + 1], picks[t]);
    }
}

} // verus!
