//! Identity records for the competitors of a tournament.
//!
//! An [`Agent`] stands for one external program that plays seats of a game.
//! Agents are immutable records identified by a stable integer id; two
//! agents are equal exactly when their ids are equal.

use vstd::prelude::*;

verus! {

/// One competitor: a display name, the path of its executable (absent when
/// the agent could not be collected), optional log directory and extra
/// command-line arguments, and a stable id.
#[derive(Debug)]
pub struct Agent {
    /// Display name, unique within one evaluation.
    pub name: String,
    /// Path of the executable to launch, or `None` when the agent is
    /// ineligible to play.
    pub path_to_exe: Option<String>,
    /// Directory that receives this agent's per-match logs, if logging is on.
    pub path_to_log_dir: Option<String>,
    /// Number of the next match log file for this agent.
    pub match_number: usize,
    /// Stable identifier; agent equality is id equality.
    pub id: u32,
    /// Whether the agent came with sources that have to be compiled.
    pub compile: bool,
    /// Extra arguments appended to the child's command line.
    pub args: Option<Vec<String>>,
    /// Why the agent is ineligible, when collection failed.
    pub error_message: Option<String>,
}

impl Agent {
    /// Builds an eligible agent record.
    pub fn new(
        name: String,
        path_to_exe: Option<String>,
        path_to_log_dir: Option<String>,
        id: u32,
        args: Option<Vec<String>>,
    ) -> (agent: Agent)
        ensures
            agent.name == name,
            agent.path_to_exe == path_to_exe,
            agent.path_to_log_dir == path_to_log_dir,
            agent.match_number == 1,
            agent.id == id,
            agent.compile == path_to_exe.is_some(),
            agent.args == args,
            agent.error_message.is_none(),
    {
        let compile = path_to_exe.is_some();
        Agent {
            name,
            compile,
            path_to_exe,
            path_to_log_dir,
            match_number: 1,
            id,
            args,
            error_message: None,
        }
    }

    /// Builds the record of an agent that could not be collected; it keeps
    /// the message explaining why and cannot play.
    pub fn with_error(name: String, id: u32, msg: String) -> (agent: Agent)
        ensures
            agent.name == name,
            agent.path_to_exe.is_none(),
            agent.path_to_log_dir.is_none(),
            agent.match_number == 1,
            agent.id == id,
            !agent.compile,
            agent.args.is_none(),
            agent.error_message == Some(msg),
    {
        Agent {
            name,
            path_to_exe: None,
            path_to_log_dir: None,
            match_number: 1,
            id,
            compile: false,
            args: None,
            error_message: Some(msg),
        }
    }

    /// True when a log directory was assigned to this agent.
    pub fn should_be_logged(&self) -> (logged: bool)
        ensures
            logged == self.path_to_log_dir.is_some(),
    {
        self.path_to_log_dir.is_some()
    }
}

/// `b` carries the same record as `a`: every field agrees, except that the
/// argument list may be a fresh vector with the same strings.
pub open spec fn clone_of(a: Agent, b: Agent) -> bool {
    &&& b.name == a.name
    &&& b.path_to_exe == a.path_to_exe
    &&& b.path_to_log_dir == a.path_to_log_dir
    &&& b.match_number == a.match_number
    &&& b.id == a.id
    &&& b.compile == a.compile
    &&& b.args.is_some() == a.args.is_some()
    &&& (b.args.is_some() ==> b.args.unwrap()@ == a.args.unwrap()@)
    &&& b.error_message == a.error_message
}

/// No two agents of the list share an id.
pub open spec fn distinct_ids(agents: Seq<Agent>) -> bool {
    forall|i: int, j: int|
        0 <= i < agents.len() && 0 <= j < agents.len() && i != j ==> agents[i].id != agents[j].id
}

/// Some agent of the roster could have been cloned into `a`.
pub open spec fn from_roster(roster: Seq<Agent>, a: Agent) -> bool {
    exists|t: int| 0 <= t < roster.len() && clone_of(#[trigger] roster[t], a)
}

impl Clone for Agent {
    /// The clone is field-for-field the same record; for the argument list
    /// the clone holds strings with the same contents.
    fn clone(&self) -> (res: Self)
        ensures
            clone_of(*self, res),
            res.id == self.id,
            res.name == self.name,
    {
        let args: Option<Vec<String>> = match &self.args {
            Some(v) => {
                let cloned_v = v.clone();
                proof {
                    assert(cloned_v@ =~= v@);
                }
                Some(cloned_v)
            },
            None => None,
        };
        Agent {
            name: self.name.clone(),
            path_to_exe: self.path_to_exe.clone(),
            path_to_log_dir: self.path_to_log_dir.clone(),
            match_number: self.match_number,
            id: self.id,
            compile: self.compile,
            args,
            error_message: self.error_message.clone(),
        }
    }
}

impl PartialEq for Agent {
    /// Agents are compared by their stable id alone.
    fn eq(&self, other: &Self) -> (r: bool) {
        self.id == other.id
    }
}

impl vstd::std_specs::cmp::PartialEqSpecImpl for Agent {
    open spec fn obeys_eq_spec() -> bool {
        true
    }

    open spec fn eq_spec(&self, other: &Agent) -> bool {
        self.id == other.id
    }
}

impl Eq for Agent {}

} // verus!
