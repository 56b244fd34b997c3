//! The closed set of states a deployment passes through.

use vstd::prelude::*;

use crate::strutil::str_eq;

verus! {

/// Lifecycle state of a deployment, ordered from submission to termination:
/// `Queued`, `Building`, `Built` and `Loading` are transient, `Running` is
/// active, and `Completed`, `Crashed` and `Stopped` are terminal.
#[derive(Clone, Copy, Debug, PartialEq, Eq, Structural, Hash)]
pub enum State {
    Queued,
    Building,
    Built,
    Loading,
    Running,
    Completed,
    Crashed,
    Stopped,
}

impl State {
    /// Position in the lifecycle order; the three terminal states share the
    /// final position and are mutually unordered.
    pub open spec fn rank(self) -> int {
        match self {
            State::Queued => 0,
            State::Building => 1,
            State::Built => 2,
            State::Loading => 3,
            State::Running => 4,
            State::Completed => 5,
            State::Crashed => 5,
            State::Stopped => 5,
        }
    }

    /// States before the deployment has been handed to the run queue's
    /// supervisor; a restarted engine rewrites them to `Stopped`.
    pub open spec fn spec_is_transient(self) -> bool {
        self.rank() <= 3
    }

    /// Terminal states absorb: a deployment never leaves one.
    pub open spec fn spec_is_terminal(self) -> bool {
        self.rank() == 5
    }

    pub fn is_transient(&self) -> (r: bool)
        ensures
            r == self.spec_is_transient(),
    {
        matches!(*self, State::Queued | State::Building | State::Built | State::Loading)
    }

    pub fn is_terminal(&self) -> (r: bool)
        ensures
            r == self.spec_is_terminal(),
    {
        matches!(*self, State::Completed | State::Crashed | State::Stopped)
    }

    /// The canonical lower-case name of the state.
    pub open spec fn spec_name(self) -> Seq<char> {
        match self {
            State::Queued => "queued"@,
            State::Building => "building"@,
            State::Built => "built"@,
            State::Loading => "loading"@,
            State::Running => "running"@,
            State::Completed => "completed"@,
            State::Crashed => "crashed"@,
            State::Stopped => "stopped"@,
        }
    }

    pub fn name(&self) -> (r: &'static str)
        ensures
            r@ == self.spec_name(),
    {
        match *self {
            State::Queued => "queued",
            State::Building => "building",
            State::Built => "built",
            State::Loading => "loading",
            State::Running => "running",
            State::Completed => "completed",
            State::Crashed => "crashed",
            State::Stopped => "stopped",
        }
    }

    /// The state whose canonical name is `s`, if any.
    pub open spec fn spec_parse(s: Seq<char>) -> Option<State> {
        if s == "queued"@ {
            Some(State::Queued)
        } else if s == "building"@ {
            Some(State::Building)
        } else if s == "built"@ {
            Some(State::Built)
        } else if s == "loading"@ {
            Some(State::Loading)
        } else if s == "running"@ {
            Some(State::Running)
        } else if s == "completed"@ {
            Some(State::Completed)
        } else if s == "crashed"@ {
            Some(State::Crashed)
        } else if s == "stopped"@ {
            Some(State::Stopped)
        } else {
            None
        }
    }

    /// Parsing with the fallback a capture scope uses: an unreadable state
    /// reads as the initial one.
    pub open spec fn spec_parse_or_default(s: Seq<char>) -> State {
        match State::spec_parse(s) {
            Some(st) => st,
            None => State::Queued,
        }
    }

    pub fn parse(s: &str) -> (r: Option<State>)
        ensures
            r == State::spec_parse(s@),
    {
        if str_eq(s, "queued") {
            Some(State::Queued)
        } else if str_eq(s, "building") {
            Some(State::Building)
        } else if str_eq(s, "built") {
            Some(State::Built)
        } else if str_eq(s, "loading") {
            Some(State::Loading)
        } else if str_eq(s, "running") {
            Some(State::Running)
        } else if str_eq(s, "completed") {
            Some(State::Completed)
        } else if str_eq(s, "crashed") {
            Some(State::Crashed)
        } else if str_eq(s, "stopped") {
            Some(State::Stopped)
        } else {
            None
        }
    }
}

impl Default for State {
    /// A freshly captured scope whose `state` field fails to parse is treated
    /// as newly queued.
    fn default() -> (r: State)
        ensures
            r == State::Queued,
    {
        State::Queued
    }
}

/// Each state's name parses back to that state.
pub proof fn lemma_state_name_round_trip(s: State)
    ensures
        State::spec_parse(s.spec_name()) == Some(s),
{
    reveal_strlit("queued");
    reveal_strlit("building");
    reveal_strlit("built");
    reveal_strlit("loading");
    reveal_strlit("running");
    reveal_strlit("completed");
    reveal_strlit("crashed");
    reveal_strlit("stopped");
    assert("queued"@.len() == 6);
    assert("building"@.len() == 8);
    assert("built"@.len() == 5);
    assert("loading"@.len() == 7);
    assert("running"@.len() == 7);
    assert("completed"@.len() == 9);
    assert("crashed"@.len() == 7);
    assert("stopped"@.len() == 7);
    assert("loading"@[0] == 'l');
    assert("running"@[0] == 'r');
    assert("crashed"@[0] == 'c');
    assert("stopped"@[0] == 's');
    match s {
        State::Queued => assert(State::spec_parse(s.spec_name()) == Some(State::Queued)),
        State::Building => assert(State::spec_parse(s.spec_name()) == Some(State::Building)),
        State::Built => assert(State::spec_parse(s.spec_name()) == Some(State::Built)),
        State::Loading => assert(State::spec_parse(s.spec_name()) == Some(State::Loading)),
        State::Running => assert(State::spec_parse(s.spec_name()) == Some(State::Running)),
        State::Completed => assert(State::spec_parse(s.spec_name()) == Some(State::Completed)),
        State::Crashed => assert(State::spec_parse(s.spec_name()) == Some(State::Crashed)),
        State::Stopped => assert(State::spec_parse(s.spec_name()) == Some(State::Stopped)),
    }
}

} // verus!
