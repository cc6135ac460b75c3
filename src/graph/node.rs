use vstd::prelude::*;

use crate::parser::copy_strings;

verus! {

/// The build state of one target.
#[derive(Debug, Clone, PartialEq, Eq)]
pub enum NodeStatus {
    Pending,
    Ready,
    Building,
    Complete,
    Failed(String),
}

/// One rule of the rule file: a target, the targets it depends on, and the
/// shell commands that build it.
#[derive(Debug, Clone)]
pub struct Node {
    pub target: String,
    pub dependencies: Vec<String>,
    pub commands: Vec<String>,
    pub output: Option<String>,
    pub state: NodeStatus,
}

impl NodeStatus {
    /// An equal state.
    pub fn duplicate(&self) -> (r: NodeStatus)
        ensures
            r == *self,
    {
        match self {
            NodeStatus::Pending => NodeStatus::Pending,
            NodeStatus::Ready => NodeStatus::Ready,
            NodeStatus::Building => NodeStatus::Building,
            NodeStatus::Complete => NodeStatus::Complete,
            NodeStatus::Failed(reason) => NodeStatus::Failed(reason.clone()),
        }
    }
}

impl Node {
    /// `self` and `o` hold the same values.
    pub open spec fn same(&self, o: Node) -> bool {
        &&& self.target == o.target
        &&& self.dependencies@ == o.dependencies@
        &&& self.commands@ == o.commands@
        &&& self.output == o.output
        &&& self.state == o.state
    }

    /// An equal rule.
    pub fn duplicate(&self) -> (r: Node)
        ensures
            r.same(*self),
    {
        let output = match &self.output {
            Some(p) => Some(p.clone()),
            None => None,
        };
        Node {
            target: self.target.clone(),
            dependencies: copy_strings(&self.dependencies),
            commands: copy_strings(&self.commands),
            output,
            state: self.state.duplicate(),
        }
    }

    /// A rule for `target` with no prerequisites and no commands, `Pending`.
    pub fn new(target: String) -> (r: Node)
        ensures
            r.target == target,
            r.dependencies@.len() == 0,
            r.commands@.len() == 0,
            r.output.is_none(),
            r.state == NodeStatus::Pending,
    {
        Node {
            target,
            dependencies: Vec::new(),
            commands: Vec::new(),
            output: None,
            state: NodeStatus::Pending,
        }
    }
}

} // verus!
