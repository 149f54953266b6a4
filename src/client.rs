use vstd::prelude::*;
use crate::error;
use crate::engine::VersionRolling;
use crate::work::{ClientId, Job, Solution};

verus! {

/// Lifecycle status of a job-source node.
#[derive(Debug, Clone, Copy, PartialEq, Eq, Structural)]
pub enum Status {
    Stopped,
    Starting,
    Running,
    Stopping,
}

/// The status after a start request: only a stopped node starts.
pub open spec fn starting_from(s: Status) -> Status {
    if s == Status::Stopped { Status::Starting } else { s }
}

/// The status after a stop request: only a starting or running node stops.
pub open spec fn stopping_from(s: Status) -> Status {
    if s == Status::Starting || s == Status::Running { Status::Stopping } else { s }
}

/// Mining protocol spoken by a client.
#[derive(Debug, Clone, Copy, PartialEq, Eq, Structural)]
pub enum Protocol {
    StratumV2,
}

/// Connection parameters of a client.
#[derive(Debug)]
pub struct Descriptor {
    pub protocol: Protocol,
    pub url: String,
    pub user: String,
    /// Whether the client is enabled as soon as it joins a group.
    pub enable: bool,
}

/// Generator of version-rolling work engines, each producing assignments of
/// `midstate_count` midstates.
#[derive(Debug, Clone, Copy, PartialEq, Eq, Structural)]
pub struct EngineGenerator {
    pub midstate_count: usize,
}

impl EngineGenerator {
    /// A fresh version-rolling engine for `job`; `None` when the midstate
    /// count is zero or too large for one.
    pub fn generate(&self, job: Job) -> (r: Option<VersionRolling>)
        ensures
            match r {
                Some(e) => {
                    &&& e.wf()
                    &&& e.spec_job() == job
                    &&& e.spec_midstate_count() == self.midstate_count
                    &&& e.spec_next_index() == 0
                },
                None => self.midstate_count == 0 || self.midstate_count > u32::MAX,
            },
    {
        if self.midstate_count == 0 || self.midstate_count > u32::MAX as usize {
            None
        } else {
            Some(VersionRolling::new(job, self.midstate_count as u32))
        }
    }
}

/// One job-source node with its enable gate and its replaceable engine
/// generator. Two handles are equal exactly when they wrap the same node.
#[derive(Debug)]
pub struct Handle {
    descriptor: Descriptor,
    node: ClientId,
    enabled: bool,
    status: Status,
    engine_generator: Option<EngineGenerator>,
}

impl Handle {
    pub closed spec fn spec_node(&self) -> ClientId {
        self.node
    }

    pub closed spec fn spec_enabled(&self) -> bool {
        self.enabled
    }

    pub closed spec fn spec_status(&self) -> Status {
        self.status
    }

    pub closed spec fn spec_engine(&self) -> Option<EngineGenerator> {
        self.engine_generator
    }

    pub closed spec fn spec_descriptor(&self) -> Descriptor {
        self.descriptor
    }

    /// Whether the descriptor asks for the client to be enabled on joining a
    /// group.
    pub open spec fn spec_auto_enable(&self) -> bool {
        self.spec_descriptor().enable
    }

    /// `after` and `r` are what `try_enable` makes of `before`.
    pub open spec fn enable_step(before: Handle, after: Handle, r: Result<(), ()>) -> bool {
        &&& (r is Ok <==> !before.spec_enabled())
        &&& after.spec_enabled()
        &&& after.spec_status() == if r is Ok { starting_from(before.spec_status()) } else { before.spec_status() }
        &&& after.spec_node() == before.spec_node()
        &&& after.spec_engine() == before.spec_engine()
        &&& after.spec_descriptor() == before.spec_descriptor()
    }

    /// `after` and `r` are what `try_disable` makes of `before`.
    pub open spec fn disable_step(before: Handle, after: Handle, r: Result<(), ()>) -> bool {
        &&& (r is Ok <==> before.spec_enabled())
        &&& !after.spec_enabled()
        &&& after.spec_status() == if r is Ok { stopping_from(before.spec_status()) } else { before.spec_status() }
        &&& after.spec_node() == before.spec_node()
        &&& after.spec_engine() == before.spec_engine()
        &&& after.spec_descriptor() == before.spec_descriptor()
    }

    /// `after` is `before` as a group admits it: it runs engines of
    /// `midstate_count` midstates, is first disabled, and is enabled again
    /// when its descriptor asks for it.
    pub open spec fn joined(before: Handle, after: Handle, midstate_count: usize) -> bool {
        let stopped = if before.spec_enabled() { stopping_from(before.spec_status()) } else { before.spec_status() };
        &&& after.spec_node() == before.spec_node()
        &&& after.spec_engine() == Some(EngineGenerator { midstate_count })
        &&& after.spec_enabled() == before.spec_auto_enable()
        &&& after.spec_status() == if before.spec_auto_enable() { starting_from(stopped) } else { stopped }
        &&& after.spec_descriptor() == before.spec_descriptor()
    }

    pub fn descriptor(&self) -> (r: &Descriptor)
        ensures
            *r == self.spec_descriptor(),
    {
        &self.descriptor
    }

    /// A disabled handle of a stopped node with no engine generator yet.
    pub fn new(descriptor: Descriptor, node: ClientId) -> (r: Handle)
        ensures
            r.spec_node() == node,
            !r.spec_enabled(),
            r.spec_status() == Status::Stopped,
            r.spec_engine() is None,
            r.spec_descriptor() == descriptor,
    {
        Handle { descriptor, node, enabled: false, status: Status::Stopped, engine_generator: None }
    }

    /// Identity of the wrapped node.
    pub fn node(&self) -> (r: ClientId)
        ensures
            r == self.spec_node(),
    {
        self.node
    }

    /// Installs `engine_generator` for future work and hands back the one it
    /// replaces.
    pub fn replace_engine_generator(&mut self, engine_generator: EngineGenerator) -> (r: Option<EngineGenerator>)
        ensures
            r == old(self).spec_engine(),
            final(self).spec_engine() == Some(engine_generator),
            final(self).spec_node() == old(self).spec_node(),
            final(self).spec_enabled() == old(self).spec_enabled(),
            final(self).spec_status() == old(self).spec_status(),
            final(self).spec_descriptor() == old(self).spec_descriptor(),
    {
        let previous = self.engine_generator;
        self.engine_generator = Some(engine_generator);
        previous
    }

    /// Tests if `solution` should be delivered to this client: it was found
    /// for a job of this client's node.
    pub fn matching_solution(&self, solution: &Solution) -> (r: bool)
        ensures
            r <==> solution.job.origin == self.spec_node(),
    {
        solution.origin() == self.node
    }

    pub fn is_running(&self) -> (r: bool)
        ensures
            r <==> self.spec_enabled() && self.spec_status() == Status::Running,
    {
        self.enabled && self.status == Status::Running
    }

    pub fn status(&self) -> (r: Status)
        ensures
            r == self.spec_status(),
    {
        self.status
    }

    /// Check if current state of the client is enabled.
    pub fn is_enabled(&self) -> (r: bool)
        ensures
            r == self.spec_enabled(),
    {
        self.enabled
    }

    fn start(&mut self)
        ensures
            final(self).spec_status() == starting_from(old(self).spec_status()),
            final(self).spec_node() == old(self).spec_node(),
            final(self).spec_enabled() == old(self).spec_enabled(),
            final(self).spec_engine() == old(self).spec_engine(),
            final(self).spec_descriptor() == old(self).spec_descriptor(),
    {
        if self.status == Status::Stopped {
            self.status = Status::Starting;
        }
    }

    fn stop(&mut self)
        ensures
            final(self).spec_status() == stopping_from(old(self).spec_status()),
            final(self).spec_node() == old(self).spec_node(),
            final(self).spec_enabled() == old(self).spec_enabled(),
            final(self).spec_engine() == old(self).spec_engine(),
            final(self).spec_descriptor() == old(self).spec_descriptor(),
    {
        if self.status == Status::Starting || self.status == Status::Running {
            self.status = Status::Stopping;
        }
    }

    /// Enables a disabled client and requests its node to start; fails on a
    /// client that is already enabled, which then stays as it is.
    pub fn try_enable(&mut self) -> (r: Result<(), ()>)
        ensures
            Handle::enable_step(*old(self), *final(self), r),
    {
        if !self.enabled {
            self.enabled = true;
            self.start();
            Ok(())
        } else {
            Err(())
        }
    }

    /// Disables an enabled client and requests its node to stop; fails on a
    /// client that is already disabled, which then stays as it is.
    pub fn try_disable(&mut self) -> (r: Result<(), ()>)
        ensures
            Handle::disable_step(*old(self), *final(self), r),
    {
        if self.enabled {
            self.enabled = false;
            self.stop();
            Ok(())
        } else {
            Err(())
        }
    }

    /// Requests the node to stop whether or not the client is enabled, as
    /// done when the handle is torn down. A node that is already stopped or
    /// stopping has no stop left to request, so its status stays; the owner
    /// of a handle calls this before letting it go.
    pub fn shutdown(&mut self)
        ensures
            final(self).spec_status() == stopping_from(old(self).spec_status()),
            final(self).spec_node() == old(self).spec_node(),
            final(self).spec_enabled() == old(self).spec_enabled(),
            final(self).spec_engine() == old(self).spec_engine(),
            final(self).spec_descriptor() == old(self).spec_descriptor(),
    {
        self.stop();
    }

    /// Records that the node finished starting.
    pub fn node_started(&mut self)
        ensures
            final(self).spec_status() == if old(self).spec_status() == Status::Starting {
                Status::Running
            } else {
                old(self).spec_status()
            },
            final(self).spec_node() == old(self).spec_node(),
            final(self).spec_enabled() == old(self).spec_enabled(),
            final(self).spec_engine() == old(self).spec_engine(),
            final(self).spec_descriptor() == old(self).spec_descriptor(),
    {
        if self.status == Status::Starting {
            self.status = Status::Running;
        }
    }

    /// Records that the node finished stopping.
    pub fn node_stopped(&mut self)
        ensures
            final(self).spec_status() == if old(self).spec_status() == Status::Stopping {
                Status::Stopped
            } else {
                old(self).spec_status()
            },
            final(self).spec_node() == old(self).spec_node(),
            final(self).spec_enabled() == old(self).spec_enabled(),
            final(self).spec_engine() == old(self).spec_engine(),
            final(self).spec_descriptor() == old(self).spec_descriptor(),
    {
        if self.status == Status::Stopping {
            self.status = Status::Stopped;
        }
    }
}

impl PartialEq for Handle {
    fn eq(&self, other: &Handle) -> (r: bool) {
        self.node == other.node
    }
}

impl vstd::std_specs::cmp::PartialEqSpecImpl for Handle {
    open spec fn obeys_eq_spec() -> bool {
        true
    }

    open spec fn eq_spec(&self, other: &Handle) -> bool {
        self.spec_node() == other.spec_node()
    }
}

pub open spec fn nodes(s: Seq<Handle>) -> Seq<ClientId> {
    s.map_values(|h: Handle| h.spec_node())
}

/// Ordered collection of client handles that share one midstate count.
#[derive(Debug)]
pub struct Group {
    handles: Vec<Handle>,
    midstate_count: usize,
}

impl Group {
    pub closed spec fn view(&self) -> Seq<Handle> {
        self.handles@
    }

    pub closed spec fn spec_midstate_count(&self) -> usize {
        self.midstate_count
    }

    /// No two handles wrap the same node.
    pub open spec fn wf(&self) -> bool {
        nodes(self.view()).no_duplicates()
    }

    pub fn new(midstate_count: usize) -> (r: Group)
        ensures
            r.wf(),
            r.view() == Seq::<Handle>::empty(),
            r.spec_midstate_count() == midstate_count,
    {
        Group { handles: Vec::new(), midstate_count }
    }

    pub fn count(&self) -> (r: usize)
        ensures
            r == self.view().len(),
    {
        self.handles.len()
    }

    pub fn is_empty(&self) -> (r: bool)
        ensures
            r <==> self.view().len() == 0,
    {
        self.handles.len() == 0
    }

    /// Identities of the clients in order.
    pub fn get_clients(&self) -> (r: Vec<ClientId>)
        ensures
            r@ == nodes(self.view()),
    {
        let mut r: Vec<ClientId> = Vec::new();
        let mut i: usize = 0;
        while i < self.handles.len()
            invariant
                i <= self.handles@.len(),
                r@ == nodes(self.handles@).subrange(0, i as int),
            decreases self.handles@.len() - i,
        {
            r.push(self.handles[i].node());
            i = i + 1;
            assert(r@ =~= nodes(self.handles@).subrange(0, i as int));
        }
        assert(r@ =~= nodes(self.handles@));
        r
    }

    /// The client at `index`.
    pub fn client_at(&self, index: usize) -> (r: Option<&Handle>)
        ensures
            index < self.view().len() ==> r == Some(&self.view()[index as int]),
            index >= self.view().len() ==> r is None,
    {
        if index < self.handles.len() {
            Some(&self.handles[index])
        } else {
            None
        }
    }

    /// Index of the client whose node is `node`.
    pub fn position(&self, node: ClientId) -> (r: Option<usize>)
        ensures
            match r {
                Some(i) => i < self.view().len() && self.view()[i as int].spec_node() == node,
                None => !nodes(self.view()).contains(node),
            },
    {
        let mut i: usize = 0;
        while i < self.handles.len()
            invariant
                i <= self.handles@.len(),
                forall|k: int| 0 <= k < i ==> (#[trigger] self.handles@[k]).spec_node() != node,
            decreases self.handles@.len() - i,
        {
            if self.handles[i].node() == node {
                return Some(i);
            }
            i = i + 1;
        }
        proof {
            if nodes(self.handles@).contains(node) {
                let k = choose|k: int| 0 <= k < nodes(self.handles@).len() && nodes(self.handles@)[k] == node;
                assert(self.handles@[k].spec_node() == node);
            }
        }
        None
    }

    /// The index of the one client that `solution` is delivered to: the one
    /// whose node produced the solution's job; `None` when no client did.
    pub fn route_solution(&self, solution: &Solution) -> (r: Option<usize>)
        requires
            self.wf(),
        ensures
            match r {
                Some(i) => i < self.view().len() && self.view()[i as int].spec_node() == solution.job.origin,
                None => !nodes(self.view()).contains(solution.job.origin),
            },
    {
        self.position(solution.origin())
    }

    /// Appends `client_handle`, set up to run engines of this group's
    /// midstate count and enabled when its descriptor asks for it, and returns
    /// its identity; a client whose node is already present is refused.
    pub fn add_client(&mut self, client_handle: Handle) -> (r: Result<ClientId, error::Client>)
        requires
            old(self).wf(),
        ensures
            final(self).wf(),
            final(self).spec_midstate_count() == old(self).spec_midstate_count(),
            match r {
                Ok(id) => {
                    &&& id == client_handle.spec_node()
                    &&& !nodes(old(self).view()).contains(id)
                    &&& final(self).view().len() == old(self).view().len() + 1
                    &&& final(self).view().drop_last() == old(self).view()
                    &&& nodes(final(self).view()) == nodes(old(self).view()).push(id)
                    &&& Handle::joined(client_handle, final(self).view().last(), old(self).spec_midstate_count())
                },
                Err(e) => {
                    &&& e == error::Client::Duplicate
                    &&& nodes(old(self).view()).contains(client_handle.spec_node())
                    &&& final(self).view() == old(self).view()
                },
            },
    {
        let id = client_handle.node();
        match self.position(id) {
            Some(i) => {
                assert(nodes(self.handles@)[i as int] == id);
                return Err(error::Client::Duplicate);
            },
            None => {},
        }
        let ghost before = client_handle;
        let mut client_handle = client_handle;
        let _ = client_handle.replace_engine_generator(EngineGenerator { midstate_count: self.midstate_count });
        let _ = client_handle.try_disable();
        if client_handle.descriptor().enable {
            let _ = client_handle.try_enable();
        }
        let ghost pre = self.handles@;
        self.handles.push(client_handle);
        proof {
            assert(self.handles@.drop_last() =~= pre);
            assert(nodes(self.handles@) =~= nodes(pre).push(id));
            assert forall|a: int, b: int| 0 <= a < b < nodes(self.handles@).len()
                implies nodes(self.handles@)[a] != nodes(self.handles@)[b] by {
                if b == pre.len() {
                    assert(nodes(pre)[a] == nodes(self.handles@)[a]);
                    assert(nodes(pre).contains(nodes(pre)[a]));
                }
            }
        }
        Ok(id)
    }

    /// Removes the client at `index` and disables it.
    pub fn remove_client_at(&mut self, index: usize) -> (r: Result<Handle, error::Client>)
        requires
            old(self).wf(),
        ensures
            final(self).wf(),
            final(self).spec_midstate_count() == old(self).spec_midstate_count(),
            match r {
                Ok(h) => {
                    &&& index < old(self).view().len()
                    &&& final(self).view() == old(self).view().remove(index as int)
                    &&& nodes(final(self).view()) == nodes(old(self).view()).remove(index as int)
                    &&& Handle::disable_step(old(self).view()[index as int], h, if old(self).view()[index as int].spec_enabled() { Ok(()) } else { Err(()) })
                },
                Err(e) => {
                    &&& e == error::Client::Missing
                    &&& index >= old(self).view().len()
                    &&& final(self).view() == old(self).view()
                },
            },
    {
        if index >= self.handles.len() {
            return Err(error::Client::Missing);
        }
        let mut client_handle = self.handles.remove(index);
        let _ = client_handle.try_disable();
        proof {
            let pre = old(self).handles@;
            assert(nodes(self.handles@) =~= nodes(pre).remove(index as int));
            assert forall|a: int, b: int| 0 <= a < b < nodes(self.handles@).len()
                implies nodes(self.handles@)[a] != nodes(self.handles@)[b] by {
                let a2 = if a < index { a } else { a + 1 };
                let b2 = if b < index { b } else { b + 1 };
                assert(nodes(self.handles@)[a] == nodes(pre)[a2]);
                assert(nodes(self.handles@)[b] == nodes(pre)[b2]);
            }
        }
        Ok(client_handle)
    }

    /// Moves the client at `index_from` to `index_to`, shifting the clients
    /// between them by one place, and returns its identity.
    pub fn move_client_to(&mut self, index_from: usize, index_to: usize) -> (r: Result<ClientId, error::Client>)
        requires
            old(self).wf(),
        ensures
            final(self).wf(),
            final(self).spec_midstate_count() == old(self).spec_midstate_count(),
            match r {
                Ok(id) => {
                    &&& index_from < old(self).view().len()
                    &&& index_to < old(self).view().len()
                    &&& id == old(self).view()[index_from as int].spec_node()
                    &&& final(self).view() == old(self).view().remove(index_from as int).insert(
                        index_to as int,
                        old(self).view()[index_from as int],
                    )
                },
                Err(e) => {
                    &&& e == error::Client::Missing
                    &&& (index_from >= old(self).view().len() || index_to >= old(self).view().len())
                    &&& final(self).view() == old(self).view()
                },
            },
    {
        let len = self.handles.len();
        if index_from >= len || index_to >= len {
            return Err(error::Client::Missing);
        }
        let client_handle = self.handles.remove(index_from);
        let id = client_handle.node();
        self.handles.insert(index_to, client_handle);
        proof {
            let pre = old(self).handles@;
            let s = self.handles@;
            assert(s == pre.remove(index_from as int).insert(index_to as int, pre[index_from as int]));
            assert forall|a: int, b: int| 0 <= a < b < nodes(s).len()
                implies nodes(s)[a] != nodes(s)[b] by {
                let f = index_from as int;
                let t = index_to as int;
                let src = |x: int| if x == t { f } else {
                    let y = if x < t { x } else { x - 1 };
                    if y < f { y } else { y + 1 }
                };
                assert(s[a] == pre[src(a)]);
                assert(s[b] == pre[src(b)]);
                assert(nodes(pre)[src(a)] == pre[src(a)].spec_node());
                assert(nodes(pre)[src(b)] == pre[src(b)].spec_node());
            }
        }
        Ok(id)
    }
}

/// A solution is routed to exactly one client of a group: no two clients
/// match its origin, and `route_solution` finds the one that does.
pub proof fn lemma_single_dispatch(g: &Group, solution: Solution, i: int, j: int)
    requires
        g.wf(),
        0 <= i < g.view().len(),
        0 <= j < g.view().len(),
        g.view()[i].spec_node() == solution.job.origin,
        g.view()[j].spec_node() == solution.job.origin,
    ensures
        i == j,
{
    assert(nodes(g.view())[i] == nodes(g.view())[j]);
}

/// Calling `try_enable` twice on a freshly constructed client succeeds once,
/// requesting one start of its node, and fails the second time without
/// another request.
pub proof fn lemma_enable_twice(
    fresh: Handle,
    once: Handle,
    twice: Handle,
    first: Result<(), ()>,
    second: Result<(), ()>,
)
    requires
        !fresh.spec_enabled(),
        fresh.spec_status() == Status::Stopped,
        Handle::enable_step(fresh, once, first),
        Handle::enable_step(once, twice, second),
    ensures
        first is Ok,
        second is Err,
        once.spec_status() == Status::Starting,
        twice.spec_status() == Status::Starting,
        twice.spec_enabled(),
{
}

} // verus!
