//! The records of runs: plain data, no storage.

use vstd::prelude::*;

use crate::json::{Json, JsonView};
use crate::text;

verus! {

broadcast use vstd::string::group_string_axioms;

/// The lifecycle of a run.
#[derive(Debug, Clone, Copy, PartialEq, Eq, Structural)]
pub enum RunStatus {
    Pending,
    Running,
    /// Paused until a person approves.
    WaitingApproval,
    Succeeded,
    Failed,
    Cancelled,
}

impl Default for RunStatus {
    fn default() -> (r: RunStatus)
        ensures
            r == RunStatus::Pending,
    {
        RunStatus::Pending
    }
}

/// The stored name of a status.
pub open spec fn status_name(s: RunStatus) -> Seq<char> {
    match s {
        RunStatus::Pending => "pending"@,
        RunStatus::Running => "running"@,
        RunStatus::WaitingApproval => "waiting_approval"@,
        RunStatus::Succeeded => "succeeded"@,
        RunStatus::Failed => "failed"@,
        RunStatus::Cancelled => "cancelled"@,
    }
}

/// The status of a stored name. What is not known counts as pending.
pub open spec fn status_named(s: Seq<char>) -> RunStatus {
    if s == "running"@ {
        RunStatus::Running
    } else if s == "waiting_approval"@ {
        RunStatus::WaitingApproval
    } else if s == "succeeded"@ {
        RunStatus::Succeeded
    } else if s == "failed"@ {
        RunStatus::Failed
    } else if s == "cancelled"@ {
        RunStatus::Cancelled
    } else {
        RunStatus::Pending
    }
}

pub open spec fn terminal(s: RunStatus) -> bool {
    s == RunStatus::Succeeded || s == RunStatus::Failed || s == RunStatus::Cancelled
}

impl RunStatus {
    pub fn as_str(&self) -> (r: &'static str)
        ensures
            r@ == status_name(*self),
    {
        match self {
            RunStatus::Pending => "pending",
            RunStatus::Running => "running",
            RunStatus::WaitingApproval => "waiting_approval",
            RunStatus::Succeeded => "succeeded",
            RunStatus::Failed => "failed",
            RunStatus::Cancelled => "cancelled",
        }
    }

    /// The status of a stored name.
    pub fn from_str(s: &str) -> (r: RunStatus)
        ensures
            r == status_named(s@),
    {
        if text::same(s, "running") {
            RunStatus::Running
        } else if text::same(s, "waiting_approval") {
            RunStatus::WaitingApproval
        } else if text::same(s, "succeeded") {
            RunStatus::Succeeded
        } else if text::same(s, "failed") {
            RunStatus::Failed
        } else if text::same(s, "cancelled") {
            RunStatus::Cancelled
        } else {
            RunStatus::Pending
        }
    }

    /// A terminal run makes no more progress.
    pub fn is_terminal(&self) -> (r: bool)
        ensures
            r == terminal(*self),
    {
        match self {
            RunStatus::Succeeded | RunStatus::Failed | RunStatus::Cancelled => true,
            _ => false,
        }
    }
}

/// A stored status is read back as it was.
pub proof fn law_status_round_trips(s: RunStatus)
    ensures
        status_named(status_name(s)) == s,
{
    reveal_strlit("pending");
    reveal_strlit("running");
    reveal_strlit("waiting_approval");
    reveal_strlit("succeeded");
    reveal_strlit("failed");
    reveal_strlit("cancelled");
    assert("pending"@.len() == 7 && "pending"@[0] == 'p');
    assert("running"@.len() == 7 && "running"@[0] == 'r');
    assert("waiting_approval"@.len() == 16);
    assert("succeeded"@.len() == 9 && "succeeded"@[0] == 's');
    assert("failed"@.len() == 6);
    assert("cancelled"@.len() == 9 && "cancelled"@[0] == 'c');
}

/// The tenant of records that name none.
pub fn default_tenant() -> (r: String)
    ensures
        r@ == "default"@,
{
    "default".to_owned()
}

/// A tenant, or the default one where none is named.
pub open spec fn tenant_or_default(tenant: Seq<char>) -> Seq<char> {
    if tenant.len() == 0 {
        "default"@
    } else {
        tenant
    }
}

pub fn tenant_of(tenant: &str) -> (r: String)
    ensures
        r@ == tenant_or_default(tenant@),
{
    if text::chars(tenant).len() == 0 {
        default_tenant()
    } else {
        tenant.to_owned()
    }
}

/// A durable run of an agent or a workflow. Times are nanoseconds since the Unix epoch.
#[derive(Debug)]
pub struct Run {
    pub id: u128,
    pub tenant_id: String,
    pub agent_id: Option<String>,
    pub parent_run_id: Option<u128>,
    pub status: RunStatus,
    pub input: Json,
    pub result: Json,
    pub error: Option<String>,
    /// Where the driver stands, in a form of its own.
    pub cursor: Json,
    pub created_at: i128,
    pub updated_at: i128,
    pub started_at: Option<i128>,
    pub ended_at: Option<i128>,
}

pub struct RunView {
    pub id: u128,
    pub tenant_id: Seq<char>,
    pub agent_id: Option<Seq<char>>,
    pub parent_run_id: Option<u128>,
    pub status: RunStatus,
    pub input: JsonView,
    pub result: JsonView,
    pub error: Option<Seq<char>>,
    pub cursor: JsonView,
    pub created_at: i128,
    pub updated_at: i128,
    pub started_at: Option<i128>,
    pub ended_at: Option<i128>,
}

impl View for Run {
    type V = RunView;

    open spec fn view(&self) -> RunView {
        RunView {
            id: self.id,
            tenant_id: self.tenant_id@,
            agent_id: text::opt_view(self.agent_id),
            parent_run_id: self.parent_run_id,
            status: self.status,
            input: self.input@,
            result: self.result@,
            error: text::opt_view(self.error),
            cursor: self.cursor@,
            created_at: self.created_at,
            updated_at: self.updated_at,
            started_at: self.started_at,
            ended_at: self.ended_at,
        }
    }
}

/// A partial update of a run: only what is given changes.
#[derive(Debug)]
pub struct RunPatch {
    pub status: Option<RunStatus>,
    pub result: Option<Json>,
    pub error: Option<String>,
    pub cursor: Option<Json>,
    pub started_at: Option<i128>,
    pub ended_at: Option<i128>,
}

pub struct PatchView {
    pub status: Option<RunStatus>,
    pub result: Option<JsonView>,
    pub error: Option<Seq<char>>,
    pub cursor: Option<JsonView>,
    pub started_at: Option<i128>,
    pub ended_at: Option<i128>,
}

pub open spec fn opt_json(o: Option<Json>) -> Option<JsonView> {
    match o {
        Some(j) => Some(j@),
        None => None,
    }
}

impl View for RunPatch {
    type V = PatchView;

    open spec fn view(&self) -> PatchView {
        PatchView {
            status: self.status,
            result: opt_json(self.result),
            error: text::opt_view(self.error),
            cursor: opt_json(self.cursor),
            started_at: self.started_at,
            ended_at: self.ended_at,
        }
    }
}

/// The patch that changes nothing.
pub open spec fn no_patch() -> PatchView {
    PatchView {
        status: None,
        result: None,
        error: None,
        cursor: None,
        started_at: None,
        ended_at: None,
    }
}

impl Default for RunPatch {
    fn default() -> (r: RunPatch)
        ensures
            r@ == no_patch(),
    {
        RunPatch {
            status: None,
            result: None,
            error: None,
            cursor: None,
            started_at: None,
            ended_at: None,
        }
    }
}

/// A run after a patch at time `now`.
pub open spec fn patched(run: RunView, patch: PatchView, now: i128) -> RunView {
    RunView {
        status: match patch.status {
            Some(s) => s,
            None => run.status,
        },
        result: match patch.result {
            Some(j) => j,
            None => run.result,
        },
        error: match patch.error {
            Some(e) => Some(e),
            None => run.error,
        },
        cursor: match patch.cursor {
            Some(j) => j,
            None => run.cursor,
        },
        started_at: match patch.started_at {
            Some(t) => Some(t),
            None => run.started_at,
        },
        ended_at: match patch.ended_at {
            Some(t) => Some(t),
            None => run.ended_at,
        },
        updated_at: now,
        ..run
    }
}

impl RunPatch {
    /// Applies the patch to a run at time `now`.
    pub fn apply(self, run: &mut Run, now: i128)
        ensures
            final(run)@ == patched(old(run)@, self@, now),
    {
        if let Some(s) = self.status {
            run.status = s;
        }
        if let Some(j) = self.result {
            run.result = j;
        }
        if let Some(e) = self.error {
            run.error = Some(e);
        }
        if let Some(j) = self.cursor {
            run.cursor = j;
        }
        if let Some(t) = self.started_at {
            run.started_at = Some(t);
        }
        if let Some(t) = self.ended_at {
            run.ended_at = Some(t);
        }
        run.updated_at = now;
    }
}

/// A node of a workflow: a sub-agent that runs once the nodes in `deps` have completed.
#[derive(Debug, Clone)]
pub struct WorkflowNode {
    pub id: String,
    pub agent_id: String,
    pub question: String,
    pub deps: Vec<String>,
}

} // verus!
