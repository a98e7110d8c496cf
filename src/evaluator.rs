use vstd::prelude::*;

verus! {

/// The transition flags of the node at one position of the active path.
#[derive(Clone, Copy, Debug, PartialEq, Eq, Structural)]
pub struct RunningTreeState {
    /// Control came back to this node from a child that was left.
    pub moved_in_from_back: bool,
    /// This is the first evaluation since the node's activation changed.
    pub first_iteration_after_move: bool,
    /// The node is the top of the active path.
    pub currently_active: bool,
}

impl RunningTreeState {
    /// The flags of a freshly started tree: active, just entered, from above.
    pub fn new() -> (r: RunningTreeState)
        ensures
            r == (RunningTreeState {
                moved_in_from_back: false,
                first_iteration_after_move: true,
                currently_active: true,
            }),
    {
        RunningTreeState {
            moved_in_from_back: false,
            first_iteration_after_move: true,
            currently_active: true,
        }
    }

    pub open spec fn for_subtask(self) -> RunningTreeState {
        RunningTreeState {
            moved_in_from_back: false,
            first_iteration_after_move: self.first_iteration_after_move,
            currently_active: false,
        }
    }

    /// The flags under which the children of an active container are evaluated:
    /// not active, not returning, and rearmed exactly when the container is.
    pub fn get_running_tree_for_subtask(&self) -> (r: RunningTreeState)
        ensures
            r == self.for_subtask(),
    {
        RunningTreeState {
            moved_in_from_back: false,
            first_iteration_after_move: self.first_iteration_after_move,
            currently_active: false,
        }
    }
}

} // verus!
