//! The lifecycle a deployment traverses, as a state machine: the build and
//! run queues drive a deployment along `Queued → Building → Built → Loading
//! → Running` and into one of the terminal states, and the run queue admits
//! at most one running deployment per service.

use vstd::prelude::*;

use crate::persistence::{Deployment, Id, State, Timestamp};

verus! {

/// What the pipeline observes of a deployment at each step.
#[derive(Clone, Copy, Debug, PartialEq, Eq, Structural)]
pub enum PipelineEvent {
    /// The current phase finished its work: the build queue took, built or
    /// handed over the artifact; the run queue loaded it, bound it, or saw
    /// the program return cleanly.
    Advance,
    /// The build, the load or the user program failed.
    Crash,
    /// A kill was delivered, or the slot arbiter denied the build.
    Stop,
}

/// The transition relation of the pipeline: where each event takes each
/// state, or nothing where the state does not react to it. Terminal states
/// absorb every event.
pub open spec fn spec_next_state(s: State, ev: PipelineEvent) -> Option<State> {
    match ev {
        PipelineEvent::Advance => match s {
            State::Queued => Some(State::Building),
            State::Building => Some(State::Built),
            State::Built => Some(State::Loading),
            State::Loading => Some(State::Running),
            State::Running => Some(State::Completed),
            _ => None,
        },
        PipelineEvent::Crash => match s {
            State::Building => Some(State::Crashed),
            State::Loading => Some(State::Crashed),
            State::Running => Some(State::Crashed),
            _ => None,
        },
        PipelineEvent::Stop => if s.spec_is_terminal() {
            None
        } else {
            Some(State::Stopped)
        },
    }
}

/// Every transition the machine takes climbs strictly in the lifecycle
/// order, so terminal states are absorbing and no state repeats.
pub fn next_state(s: State, ev: PipelineEvent) -> (r: Option<State>)
    ensures
        r == spec_next_state(s, ev),
        r matches Some(n) ==> s.rank() < n.rank(),
{
    match ev {
        PipelineEvent::Advance => match s {
            State::Queued => Some(State::Building),
            State::Building => Some(State::Built),
            State::Built => Some(State::Loading),
            State::Loading => Some(State::Running),
            State::Running => Some(State::Completed),
            _ => None,
        },
        PipelineEvent::Crash => match s {
            State::Building => Some(State::Crashed),
            State::Loading => Some(State::Crashed),
            State::Running => Some(State::Crashed),
            _ => None,
        },
        PipelineEvent::Stop => if s.is_terminal() {
            None
        } else {
            Some(State::Stopped)
        },
    }
}

/// A sequence of states is a monotone path when every step climbs strictly
/// in the lifecycle order.
pub open spec fn is_monotone_path(p: Seq<State>) -> bool {
    forall|i: int| 0 <= i < p.len() - 1 ==> (#[trigger] p[i]).rank() < p[i + 1].rank()
}

/// The states a run of the machine visits, beginning at `start` and stopping
/// at the first event the current state does not take.
pub open spec fn spec_run(start: State, events: Seq<PipelineEvent>) -> Seq<State>
    decreases events.len(),
{
    if events.len() == 0 {
        seq![start]
    } else {
        match spec_next_state(start, events[0]) {
            Some(n) => seq![start] + spec_run(n, events.skip(1)),
            None => seq![start],
        }
    }
}

/// Drives the machine over a sequence of events. The visited states are
/// exactly [`spec_run`], and they always form a monotone path in the state
/// graph: state logs of one deployment never step backwards.
pub fn run_from(start: State, events: &Vec<PipelineEvent>) -> (r: Vec<State>)
    ensures
        r@ == spec_run(start, events@),
        r@.len() >= 1 && r@[0] == start,
        is_monotone_path(r@),
{
    let n = events.len();
    let mut r: Vec<State> = Vec::new();
    r.push(start);
    let mut cur = start;
    let mut i: usize = 0;
    proof {
        assert(events@.skip(0) =~= events@);
    }
    while i < n
        invariant
            n == events@.len(),
            i <= n,
            r@.len() >= 1,
            r@[0] == start,
            cur == r@[r@.len() - 1],
            is_monotone_path(r@),
            spec_run(start, events@) == r@.take(r@.len() - 1) + spec_run(
                cur,
                events@.skip(i as int),
            ),
        decreases n - i,
    {
        let ghost tail = events@.skip(i as int);
        proof {
            assert(tail[0] == events@[i as int]);
            assert(tail.skip(1) =~= events@.skip(i + 1));
        }
        match next_state(cur, events[i]) {
            Some(next) => {
                let ghost before = r@;
                r.push(next);
                proof {
                    assert(spec_run(cur, tail) == seq![cur] + spec_run(next, events@.skip(i + 1)));
                    assert(before.take(before.len() - 1) + (seq![cur] + spec_run(
                        next,
                        events@.skip(i + 1),
                    )) =~= r@.take(r@.len() - 1) + spec_run(next, events@.skip(i + 1)));
                    assert forall|k: int| 0 <= k < r@.len() - 1 implies (#[trigger] r@[k]).rank()
                        < r@[k + 1].rank() by {
                        if k < before.len() - 1 {
                            assert(r@[k] == before[k]);
                            assert(r@[k + 1] == before[k + 1]);
                        } else {
                            assert(r@[k] == cur);
                            assert(r@[k + 1] == next);
                        }
                    }
                }
                cur = next;
            },
            None => {
                proof {
                    assert(spec_run(cur, tail) == seq![cur]);
                    assert(r@.take(r@.len() - 1) + seq![cur] =~= r@);
                }
                return r;
            },
        }
        i = i + 1;
    }
    proof {
        assert(events@.skip(n as int).len() == 0);
        assert(spec_run(cur, events@.skip(n as int)) == seq![cur]);
        assert(r@.take(r@.len() - 1) + seq![cur] =~= r@);
    }
    r
}

/// Whether a state's scope carries the bound socket: exactly while loading
/// and running; transient and terminal scopes carry none, so the row's
/// address is cleared on any terminal transition.
pub open spec fn spec_scope_has_address(s: State) -> bool {
    s == State::Loading || s == State::Running
}

pub fn scope_has_address(s: State) -> (r: bool)
    ensures
        r == spec_scope_has_address(s),
{
    matches!(s, State::Loading | State::Running)
}

/// The row a kill leaves behind: a terminal row is untouched — a second
/// kill is a no-op — while any other row becomes `Stopped`, loses its
/// address, and takes the kill's time.
pub open spec fn spec_killed_row(d: Deployment, now: Timestamp) -> Deployment {
    if d.state.spec_is_terminal() {
        d
    } else {
        Deployment {
            id: d.id,
            service_id: d.service_id,
            state: State::Stopped,
            last_update: now,
            address: None,
        }
    }
}

pub fn kill_row(d: Deployment, now: Timestamp) -> (r: Deployment)
    ensures
        r == spec_killed_row(d, now),
{
    if d.state.is_terminal() {
        d
    } else {
        Deployment {
            id: d.id,
            service_id: d.service_id,
            state: State::Stopped,
            last_update: now,
            address: None,
        }
    }
}

/// Killing a deployment twice produces the same terminal row as killing it
/// once, whenever the second kill comes.
pub proof fn lemma_kill_idempotent(d: Deployment, t1: Timestamp, t2: Timestamp)
    ensures
        spec_killed_row(spec_killed_row(d, t1), t2) == spec_killed_row(d, t1),
{
}

/// The entries of one service in the run queue's registry.
pub open spec fn entries_for(s: Seq<(Id, Id)>, service_id: Id) -> Seq<(Id, Id)> {
    s.filter(|e: (Id, Id)| e.0 == service_id)
}

/// The registry without one deployment's entries.
pub open spec fn entries_without(s: Seq<(Id, Id)>, deployment_id: Id) -> Seq<(Id, Id)> {
    s.filter(|e: (Id, Id)| e.1 != deployment_id)
}

/// The deployment ids of registry entries.
pub open spec fn ids_of(s: Seq<(Id, Id)>) -> Seq<Id> {
    s.map_values(|e: (Id, Id)| e.1)
}

/// Every entry of a service's slice of the registry names that service.
proof fn lemma_entries_for_props(s: Seq<(Id, Id)>, service_id: Id)
    ensures
        forall|k: int|
            0 <= k < entries_for(s, service_id).len() ==> (#[trigger] entries_for(
                s,
                service_id,
            )[k]).0 == service_id,
    decreases s.len(),
{
    reveal(Seq::filter);
    if s.len() > 0 {
        lemma_entries_for_props(s.drop_last(), service_id);
        assert(entries_for(s, service_id).drop_last() == entries_for(s.drop_last(), service_id)
            || entries_for(s, service_id) == entries_for(s.drop_last(), service_id));
    }
}

/// A registered service has a non-empty slice of the registry.
proof fn lemma_entries_for_nonempty(s: Seq<(Id, Id)>, service_id: Id, k: int)
    requires
        0 <= k < s.len(),
        s[k].0 == service_id,
    ensures
        entries_for(s, service_id).len() > 0,
    decreases s.len(),
{
    reveal(Seq::filter);
    if k == s.len() - 1 {
        assert(s.last() == s[k]);
    } else {
        lemma_entries_for_nonempty(s.drop_last(), service_id, k);
        assert(s.drop_last()[k] == s[k]);
    }
}

/// Each entry of a service slice occurs in the registry.
proof fn lemma_entries_for_member_source(s: Seq<(Id, Id)>, service_id: Id, k: int)
    requires
        0 <= k < entries_for(s, service_id).len(),
    ensures
        exists|t: int| 0 <= t < s.len() && #[trigger] s[t] == entries_for(s, service_id)[k],
    decreases s.len(),
{
    reveal(Seq::filter);
    let f = entries_for(s, service_id);
    let rest = entries_for(s.drop_last(), service_id);
    if s.last().0 == service_id && k == f.len() - 1 {
        assert(s[s.len() - 1] == f[k]);
    } else {
        lemma_entries_for_member_source(s.drop_last(), service_id, k);
        let t = choose|t: int|
            0 <= t < s.drop_last().len() && #[trigger] s.drop_last()[t] == rest[k];
        assert(s[t] == f[k]);
    }
}

/// Each kept entry occurs in the registry.
proof fn lemma_entries_without_member_source(s: Seq<(Id, Id)>, deployment_id: Id, k: int)
    requires
        0 <= k < entries_without(s, deployment_id).len(),
    ensures
        exists|t: int| 0 <= t < s.len() && #[trigger] s[t] == entries_without(s, deployment_id)[k],
    decreases s.len(),
{
    reveal(Seq::filter);
    let f = entries_without(s, deployment_id);
    let rest = entries_without(s.drop_last(), deployment_id);
    if s.last().1 != deployment_id && k == f.len() - 1 {
        assert(s[s.len() - 1] == f[k]);
    } else {
        lemma_entries_without_member_source(s.drop_last(), deployment_id, k);
        let t = choose|t: int|
            0 <= t < s.drop_last().len() && #[trigger] s.drop_last()[t] == rest[k];
        assert(s[t] == f[k]);
    }
}

/// Distinct positions of a service slice come from distinct registry
/// positions, so distinct services there.
proof fn lemma_entries_for_distinct(s: Seq<(Id, Id)>, service_id: Id, i: int, j: int)
    requires
        0 <= i < j < entries_for(s, service_id).len(),
        forall|a: int, b: int| 0 <= a < b < s.len() ==> (#[trigger] s[a]).0 != (#[trigger] s[b]).0,
    ensures
        entries_for(s, service_id)[i].0 != entries_for(s, service_id)[j].0,
    decreases s.len(),
{
    reveal(Seq::filter);
    let f = entries_for(s, service_id);
    if s.len() > 0 {
        let rest = entries_for(s.drop_last(), service_id);
        assert(forall|a: int, b: int|
            0 <= a < b < s.drop_last().len() ==> (#[trigger] s.drop_last()[a]).0
                != (#[trigger] s.drop_last()[b]).0);
        if s.last().0 == service_id {
            if j < rest.len() {
                lemma_entries_for_distinct(s.drop_last(), service_id, i, j);
            } else {
                assert(f[j] == s.last());
                assert(f[i] == rest[i]);
                lemma_entries_for_member_source(s.drop_last(), service_id, i);
                let t = choose|t: int|
                    0 <= t < s.drop_last().len() && #[trigger] s.drop_last()[t] == rest[i];
                assert(s[t] == rest[i]);
                assert(s[s.len() - 1] == s.last());
            }
        } else {
            lemma_entries_for_distinct(s.drop_last(), service_id, i, j);
        }
    }
}

/// Likewise for the registry with one deployment removed.
proof fn lemma_entries_without_distinct(s: Seq<(Id, Id)>, deployment_id: Id, i: int, j: int)
    requires
        0 <= i < j < entries_without(s, deployment_id).len(),
        forall|a: int, b: int| 0 <= a < b < s.len() ==> (#[trigger] s[a]).0 != (#[trigger] s[b]).0,
    ensures
        entries_without(s, deployment_id)[i].0 != entries_without(s, deployment_id)[j].0,
    decreases s.len(),
{
    reveal(Seq::filter);
    let f = entries_without(s, deployment_id);
    if s.len() > 0 {
        let rest = entries_without(s.drop_last(), deployment_id);
        assert(forall|a: int, b: int|
            0 <= a < b < s.drop_last().len() ==> (#[trigger] s.drop_last()[a]).0
                != (#[trigger] s.drop_last()[b]).0);
        if s.last().1 != deployment_id {
            if j < rest.len() {
                lemma_entries_without_distinct(s.drop_last(), deployment_id, i, j);
            } else {
                assert(f[j] == s.last());
                assert(f[i] == rest[i]);
                lemma_entries_without_member_source(s.drop_last(), deployment_id, i);
                let t = choose|t: int|
                    0 <= t < s.drop_last().len() && #[trigger] s.drop_last()[t] == rest[i];
                assert(s[t] == rest[i]);
                assert(s[s.len() - 1] == s.last());
            }
        } else {
            lemma_entries_without_distinct(s.drop_last(), deployment_id, i, j);
        }
    }
}

/// The run queue's registry of live executions: which deployment currently
/// occupies each service's running slot. Admission goes through it — a new
/// deployment starts only after every predecessor of its service was told
/// to stop — and that is the sole mechanism keeping one running deployment
/// per service.
pub struct ActiveDeployments {
    entries: Vec<(Id, Id)>,
}

impl View for ActiveDeployments {
    type V = Seq<(Id, Id)>;

    closed spec fn view(&self) -> Seq<(Id, Id)> {
        self.entries@
    }
}

impl ActiveDeployments {
    /// Registry invariant: each service holds at most one slot.
    pub open spec fn wf(&self) -> bool {
        forall|i: int, j: int|
            0 <= i < j < self@.len() ==> (#[trigger] self@[i]).0 != (#[trigger] self@[j]).0
    }

    pub fn new() -> (r: ActiveDeployments)
        ensures
            r@ == Seq::<(Id, Id)>::empty(),
            r.wf(),
    {
        ActiveDeployments { entries: Vec::new() }
    }

    /// The deployments that must be told to stop before `service_id` may
    /// start a new one: everything it currently holds.
    pub fn deployments_to_kill(&self, service_id: Id) -> (r: Vec<Id>)
        ensures
            r@ == ids_of(entries_for(self@, service_id)),
    {
        let ghost s = self@;
        let n = self.entries.len();
        let mut r: Vec<Id> = Vec::new();
        let mut i: usize = 0;
        proof {
            reveal(Seq::filter);
            assert(s.take(0) =~= Seq::<(Id, Id)>::empty());
            assert(r@ =~= ids_of(entries_for(s.take(0), service_id)));
        }
        while i < n
            invariant
                n == s.len(),
                i <= n,
                s == self@,
                r@ == ids_of(entries_for(s.take(i as int), service_id)),
            decreases n - i,
        {
            proof {
                reveal(Seq::filter);
                assert(s.take(i + 1).drop_last() =~= s.take(i as int));
                assert(s.take(i + 1).last() == s[i as int]);
                assert(entries_for(s.take(i + 1), service_id) == if s[i as int].0 == service_id {
                    entries_for(s.take(i as int), service_id).push(s[i as int])
                } else {
                    entries_for(s.take(i as int), service_id)
                });
                if s[i as int].0 == service_id {
                    assert(ids_of(entries_for(s.take(i + 1), service_id)) =~= ids_of(
                        entries_for(s.take(i as int), service_id),
                    ).push(s[i as int].1));
                }
            }
            if self.entries[i].0 == service_id {
                r.push(self.entries[i].1);
            }
            i = i + 1;
        }
        proof {
            assert(s.take(n as int) =~= s);
        }
        r
    }

    /// Admits a deployment into the service's slot; refused while the slot
    /// is taken, so predecessors must have finished first.
    pub fn begin(&mut self, service_id: Id, deployment_id: Id) -> (r: bool)
        ensures
            old(self).wf() ==> final(self).wf(),
            entries_for(old(self)@, service_id).len() == 0 ==> r && final(self)@ == old(self)@.push(
                (service_id, deployment_id),
            ),
            entries_for(old(self)@, service_id).len() > 0 ==> !r && final(self)@ == old(self)@,
    {
        let taken = self.deployments_to_kill(service_id);
        if taken.len() > 0 {
            return false;
        }
        proof {
            let s = self@;
            assert forall|k: int| 0 <= k < s.len() implies (#[trigger] s[k]).0 != service_id by {
                if s[k].0 == service_id {
                    lemma_entries_for_nonempty(s, service_id, k);
                }
            }
        }
        self.entries.push((service_id, deployment_id));
        true
    }

    /// Releases whatever slot the deployment held.
    pub fn finish(&mut self, deployment_id: Id)
        ensures
            old(self).wf() ==> final(self).wf(),
            final(self)@ == entries_without(old(self)@, deployment_id),
    {
        let ghost s = self@;
        let n = self.entries.len();
        let mut kept: Vec<(Id, Id)> = Vec::new();
        let mut i: usize = 0;
        proof {
            reveal(Seq::filter);
            assert(s.take(0) =~= Seq::<(Id, Id)>::empty());
            assert(kept@ =~= entries_without(s.take(0), deployment_id));
        }
        while i < n
            invariant
                n == s.len(),
                i <= n,
                s == self@,
                kept@ == entries_without(s.take(i as int), deployment_id),
            decreases n - i,
        {
            proof {
                reveal(Seq::filter);
                assert(s.take(i + 1).drop_last() =~= s.take(i as int));
                assert(s.take(i + 1).last() == s[i as int]);
                assert(entries_without(s.take(i + 1), deployment_id) == if s[i as int].1
                    != deployment_id {
                    entries_without(s.take(i as int), deployment_id).push(s[i as int])
                } else {
                    entries_without(s.take(i as int), deployment_id)
                });
            }
            if self.entries[i].1 != deployment_id {
                kept.push(self.entries[i]);
            }
            i = i + 1;
        }
        proof {
            assert(s.take(n as int) =~= s);
        }
        self.entries = kept;
        proof {
            if old(self).wf() {
                let f = entries_without(s, deployment_id);
                assert forall|i: int, j: int| 0 <= i < j < f.len() implies (#[trigger] f[i]).0
                    != (#[trigger] f[j]).0 by {
                    lemma_entries_without_distinct(s, deployment_id, i, j);
                }
            }
        }
    }
}

/// At most one deployment of each service is admitted at a time: a
/// well-formed registry holds at most one entry per service.
pub proof fn lemma_one_active_per_service(q: ActiveDeployments, service_id: Id)
    requires
        q.wf(),
    ensures
        entries_for(q@, service_id).len() <= 1,
{
    let f = entries_for(q@, service_id);
    if f.len() > 1 {
        lemma_entries_for_props(q@, service_id);
        lemma_entries_for_distinct(q@, service_id, 0, 1);
        assert(f[0].0 == service_id);
        assert(f[1].0 == service_id);
    }
}

} // verus!
