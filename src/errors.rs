use vstd::prelude::*;

verus! {

/// The faults that the scheduler reports: predicate evaluation faults, action
/// faults, I/O faults and configuration faults.
pub enum TaskError {
    TriggerError { comment: String },
    ActionError { comment: String },
    IoError { comment: String },
    SystemError { comment: String },
}

impl TaskError {
    /// The message carried by the error.
    pub fn comment(&self) -> (r: &String)
        ensures
            r == match self {
                TaskError::TriggerError { comment } => comment,
                TaskError::ActionError { comment } => comment,
                TaskError::IoError { comment } => comment,
                TaskError::SystemError { comment } => comment,
            },
    {
        match self {
            TaskError::TriggerError { comment } => comment,
            TaskError::ActionError { comment } => comment,
            TaskError::IoError { comment } => comment,
            TaskError::SystemError { comment } => comment,
        }
    }
}

} // verus!
