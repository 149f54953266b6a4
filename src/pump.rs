use vstd::prelude::*;
use crate::work::{Assignment, HwSolution, Solution};
use crate::work_registry::{model_of, store_spec, WorkRegistry};

verus! {

/// Where the sender loop stands.
#[derive(Debug, Clone, Copy, PartialEq, Eq, Structural)]
pub enum SenderPhase {
    /// Waiting for the hardware to signal room in its input queue.
    AwaitingRoom,
    /// Room is available; waiting for the next assignment.
    AwaitingWork,
    /// An assignment was given a work ID and is being written to hardware.
    Sending,
    /// The loop has ended.
    Finished,
}

/// What happened since the sender's last action.
#[derive(Debug)]
pub enum SenderEvent {
    /// `wait_for_room` succeeded.
    Room,
    /// The next assignment arrived from the work channel.
    Work(Assignment),
    /// `send_work` succeeded.
    Sent,
    /// A hardware call failed or the work channel closed.
    Failed,
}

/// The shape of an event, without its payload.
#[derive(Debug, Clone, Copy, PartialEq, Eq, Structural)]
pub enum EventKind {
    Room,
    Work,
    Sent,
    Failed,
}

/// What the sender asks its driver to do next.
#[derive(Debug, Clone, Copy, PartialEq, Eq, Structural)]
pub enum SenderAction {
    WaitForRoom,
    ReceiveWork,
    /// Write the assignment just received to hardware under this work ID.
    SendWork(usize),
    Terminate,
}

/// The shape of an action, without its work ID.
#[derive(Debug, Clone, Copy, PartialEq, Eq, Structural)]
pub enum ActionKind {
    WaitForRoom,
    ReceiveWork,
    SendWork,
    Terminate,
}

pub open spec fn event_kind(e: &SenderEvent) -> EventKind {
    match e {
        SenderEvent::Room => EventKind::Room,
        SenderEvent::Work(_) => EventKind::Work,
        SenderEvent::Sent => EventKind::Sent,
        SenderEvent::Failed => EventKind::Failed,
    }
}

pub open spec fn action_kind(a: SenderAction) -> ActionKind {
    match a {
        SenderAction::WaitForRoom => ActionKind::WaitForRoom,
        SenderAction::ReceiveWork => ActionKind::ReceiveWork,
        SenderAction::SendWork(_) => ActionKind::SendWork,
        SenderAction::Terminate => ActionKind::Terminate,
    }
}

/// The phase after event `e` in phase `p`. An event that does not answer the
/// last action ends the loop, as does a failure.
pub open spec fn step_phase(p: SenderPhase, e: EventKind) -> SenderPhase {
    match (p, e) {
        (SenderPhase::AwaitingRoom, EventKind::Room) => SenderPhase::AwaitingWork,
        (SenderPhase::AwaitingWork, EventKind::Work) => SenderPhase::Sending,
        (SenderPhase::Sending, EventKind::Sent) => SenderPhase::AwaitingRoom,
        _ => SenderPhase::Finished,
    }
}

/// The action that answers event `e` in phase `p`.
pub open spec fn step_action(p: SenderPhase, e: EventKind) -> ActionKind {
    match step_phase(p, e) {
        SenderPhase::AwaitingRoom => ActionKind::WaitForRoom,
        SenderPhase::AwaitingWork => ActionKind::ReceiveWork,
        SenderPhase::Sending => ActionKind::SendWork,
        SenderPhase::Finished => ActionKind::Terminate,
    }
}

/// The phase of a fresh sender after the events `evs`.
pub open spec fn phase_after(evs: Seq<EventKind>) -> SenderPhase
    decreases evs.len(),
{
    if evs.len() == 0 {
        SenderPhase::AwaitingRoom
    } else {
        step_phase(phase_after(evs.drop_last()), evs.last())
    }
}

/// The action a fresh sender answers the `k`-th of the events `evs` with.
pub open spec fn action_at(evs: Seq<EventKind>, k: int) -> ActionKind {
    step_action(phase_after(evs.take(k)), evs[k])
}

/// The sender half of the hardware pump: it owns the work registry and
/// decides, event by event, what its driver does with the hardware queue.
pub struct Sender {
    registry: WorkRegistry,
    phase: SenderPhase,
}

impl Sender {
    pub closed spec fn spec_phase(&self) -> SenderPhase {
        self.phase
    }

    pub closed spec fn spec_registry(&self) -> WorkRegistry {
        self.registry
    }

    pub open spec fn wf(&self) -> bool {
        self.spec_registry().wf()
    }

    /// A sender over a registry of `id_limit` work IDs; its first action is
    /// `WaitForRoom`.
    pub fn new(id_limit: usize) -> (r: Sender)
        requires
            id_limit > 0,
        ensures
            r.wf(),
            r.spec_phase() == SenderPhase::AwaitingRoom,
            r.spec_registry().view() == crate::work_registry::stored_after(id_limit as nat, Seq::empty()),
    {
        Sender { registry: WorkRegistry::new(id_limit), phase: SenderPhase::AwaitingRoom }
    }

    /// The first action of the loop.
    pub fn first_action(&self) -> (r: SenderAction)
        ensures
            r == SenderAction::WaitForRoom,
    {
        SenderAction::WaitForRoom
    }

    pub fn phase(&self) -> (r: SenderPhase)
        ensures
            r == self.spec_phase(),
    {
        self.phase
    }

    /// The registry of work IDs, for resolving solutions.
    pub fn registry(&self) -> (r: &WorkRegistry)
        ensures
            *r == self.spec_registry(),
    {
        &self.registry
    }

    /// Takes in what happened and returns what to do next. An assignment
    /// that arrives while room is available is stored under the next work ID,
    /// which the action carries.
    pub fn on_event(&mut self, event: SenderEvent) -> (r: SenderAction)
        requires
            old(self).wf(),
        ensures
            final(self).wf(),
            final(self).spec_phase() == step_phase(old(self).spec_phase(), event_kind(&event)),
            action_kind(r) == step_action(old(self).spec_phase(), event_kind(&event)),
            match (r, event) {
                (SenderAction::SendWork(id), SenderEvent::Work(work)) => {
                    &&& id == old(self).spec_registry().view().next
                    &&& final(self).spec_registry().view() == store_spec(old(self).spec_registry().view(), model_of(&work))
                },
                _ => final(self).spec_registry() == old(self).spec_registry(),
            },
    {
        match (self.phase, event) {
            (SenderPhase::AwaitingRoom, SenderEvent::Room) => {
                self.phase = SenderPhase::AwaitingWork;
                SenderAction::ReceiveWork
            },
            (SenderPhase::AwaitingWork, SenderEvent::Work(work)) => {
                let id = self.registry.store_work(work);
                self.phase = SenderPhase::Sending;
                SenderAction::SendWork(id)
            },
            (SenderPhase::Sending, SenderEvent::Sent) => {
                self.phase = SenderPhase::AwaitingRoom;
                SenderAction::WaitForRoom
            },
            _ => {
                self.phase = SenderPhase::Finished;
                SenderAction::Terminate
            },
        }
    }
}

/// Whatever events a sender is given, every `SendWork` it asks for comes right
/// after a successful wait for room, and after each such wait at most one
/// assignment is sent.
pub proof fn lemma_send_follows_room(evs: Seq<EventKind>, k: int)
    requires
        0 <= k < evs.len(),
        action_at(evs, k) == ActionKind::SendWork,
    ensures
        k > 0,
        evs[k - 1] == EventKind::Room,
        action_at(evs, k - 1) == ActionKind::ReceiveWork,
{
    let p = phase_after(evs.take(k));
    assert(p == SenderPhase::AwaitingWork);
    if k == 0 {
        assert(evs.take(0).len() == 0);
    } else {
        assert(evs.take(k).drop_last() =~= evs.take(k - 1));
        assert(evs.take(k).last() == evs[k - 1]);
    }
}

/// Resolves what the hardware reported against the registry: the solution
/// for the assignment stored under its work ID, or `None` when that ID holds
/// nothing or the midstate index is out of range (a stale or unknown ID).
pub fn resolve_solution(registry: &WorkRegistry, hw: HwSolution) -> (r: Option<Solution>)
    requires
        registry.wf(),
    ensures
        match r {
            Some(s) => {
                &&& hw.work_id < registry.view().slots.len()
                &&& registry.view().slots[hw.work_id as int] matches Some(a)
                &&& hw.midstate_idx < a.1.len()
                &&& s.job == a.0
                &&& s.midstate == a.1[hw.midstate_idx as int]
                &&& s.time == a.2
                &&& s.nonce == hw.nonce
                &&& s.midstate_idx == hw.midstate_idx
            },
            None => hw.work_id >= registry.view().slots.len()
                || match registry.view().slots[hw.work_id as int] {
                    Some(a) => hw.midstate_idx >= a.1.len(),
                    None => true,
                },
        },
{
    match registry.resolve(hw.work_id) {
        Some(work) => {
            if hw.midstate_idx < work.midstates.len() {
                Some(Solution {
                    job: work.job,
                    nonce: hw.nonce,
                    midstate: work.midstates[hw.midstate_idx],
                    midstate_idx: hw.midstate_idx,
                    time: work.time,
                })
            } else {
                None
            }
        },
        None => None,
    }
}

} // verus!
