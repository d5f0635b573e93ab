//! A workflow while it runs: one node after the other, until all have succeeded or one has not.

use vstd::prelude::*;

use crate::error::{Error, ErrorView};
use crate::ids::uuid_notation;
use crate::json::{Json, JsonView};
use crate::runtime::agent::json_views;
use crate::runtime::ledger::{subagent_records, workflow_closing, workflow_patch};
use crate::runtime::types::{status_name, RunPatch, RunStatus, WorkflowNode};
use crate::runtime::workflow::{
    execution_order, node_views, ready, runnable, topo_order, NodeView,
};

verus! {

broadcast use vstd::string::group_string_axioms;

/// A workflow while it runs: the order of its nodes, how those that ran have ended, and their
/// entries in the result.
pub struct WorkflowView {
    pub order: Seq<int>,
    pub ended: Seq<RunStatus>,
    pub children: Seq<JsonView>,
}

impl WorkflowView {
    /// Has a node not succeeded?
    pub open spec fn failed(self) -> bool {
        exists|i: int| 0 <= i < self.ended.len() && self.ended[i] != RunStatus::Succeeded
    }

    /// The node to run next.
    pub open spec fn next(self) -> Option<int> {
        if self.failed() || self.ended.len() >= self.order.len() {
            None
        } else {
            Some(self.order[self.ended.len() as int])
        }
    }
}

/// The entry of a node's run in the result of the workflow.
pub open spec fn child_entry(node: Seq<char>, run: u128) -> JsonView {
    JsonView::Object(
        seq![("node"@, JsonView::Str(node)), ("run_id"@, JsonView::Str(uuid_notation(run)))],
    )
}

/// The step that journals a node's run.
pub open spec fn child_step(node: Seq<char>, run: u128, status: RunStatus) -> JsonView {
    JsonView::Object(
        seq![
            ("node"@, JsonView::Str(node)),
            ("child_run"@, JsonView::Str(uuid_notation(run))),
            ("status"@, JsonView::Str(status_name(status))),
        ],
    )
}

pub struct WorkflowRun {
    order: Vec<usize>,
    ended: Vec<RunStatus>,
    children: Vec<Json>,
}

impl View for WorkflowRun {
    type V = WorkflowView;

    closed spec fn view(&self) -> WorkflowView {
        WorkflowView {
            order: self.order@.map_values(|x: usize| x as int),
            ended: self.ended@,
            children: json_views(self.children@),
        }
    }
}

impl WorkflowRun {
    /// A workflow before its first node. A workflow that can never run is refused.
    pub fn run_workflow(nodes: &[WorkflowNode]) -> (r: Result<WorkflowRun, Error>)
        ensures
            match r {
                Ok(w) => {
                    &&& execution_order(node_views(nodes@), w@.order)
                    &&& w@.ended.len() == 0
                    &&& w@.children.len() == 0
                },
                Err(e) => {
                    &&& !runnable(node_views(nodes@))
                    &&& e@ == ErrorView::Ingest("workflow has a dependency cycle or unknown dep"@)
                },
            },
    {
        match topo_order(nodes) {
            Some(order) => Ok(WorkflowRun { order, ended: Vec::new(), children: Vec::new() }),
            None => Err(Error::Ingest("workflow has a dependency cycle or unknown dep".to_owned())),
        }
    }

    fn has_failed(&self) -> (r: bool)
        ensures
            r == self@.failed(),
    {
        let mut i: usize = 0;
        while i < self.ended.len()
            invariant
                i <= self.ended.len(),
                forall|k: int| 0 <= k < i ==> self.ended@[k] == RunStatus::Succeeded,
            decreases self.ended.len() - i,
        {
            if self.ended[i] != RunStatus::Succeeded {
                return true;
            }
            i += 1;
        }
        false
    }

    /// The node to run next: none once one has not succeeded.
    pub fn next_node(&self) -> (r: Option<usize>)
        ensures
            match r {
                Some(i) => self@.next() == Some(i as int),
                None => self@.next() is None,
            },
    {
        if self.has_failed() || self.ended.len() >= self.order.len() {
            None
        } else {
            Some(self.order[self.ended.len()])
        }
    }

    /// Takes note of how a node's run has ended, and returns the step that journals it.
    pub fn child_ended(&mut self, node: &WorkflowNode, run: u128, status: RunStatus) -> (r: Json)
        ensures
            final(self)@ == (WorkflowView {
                order: old(self)@.order,
                ended: old(self)@.ended.push(status),
                children: old(self)@.children.push(child_entry(node.id@, run)),
            }),
            r@ == child_step(node.id@, run, status),
    {
        let (step, entry) = subagent_records(node, run, status);
        let ghost before = self@;
        self.ended.push(status);
        self.children.push(entry);
        proof {
            assert(self@.children =~= before.children.push(child_entry(node.id@, run)));
        }
        step
    }

    /// The patch that closes the run of the workflow.
    pub fn finish(self, now: i128) -> (r: RunPatch)
        ensures
            r@ == workflow_closing(self@.failed(), self@.children, now),
    {
        let failed = self.has_failed();
        workflow_patch(failed, self.children, now)
    }
}

/// A node runs only once every node that it waits for has run, and has succeeded.
pub proof fn law_nodes_run_after_their_dependencies(nodes: Seq<NodeView>, w: WorkflowView)
    requires
        execution_order(nodes, w.order),
        w.next() is Some,
    ensures
        ready(nodes, w.order, w.next()->0, w.ended.len() as int),
        forall|i: int| 0 <= i < w.ended.len() ==> w.ended[i] == RunStatus::Succeeded,
{
    let p = w.ended.len() as int;
    assert(ready(nodes, w.order, w.order[p], p));
}

} // verus!
