//! Errors reported by the worker harness that runs the pipeline stages.
//!
//! The harness itself (thread spawning, joining) lives outside the library;
//! only the error values it passes around are modelled here.

use vstd::prelude::*;

verus! {

/// A pipeline stage failed in a way the harness reports.
#[derive(Debug)]
pub enum WorkerError {
    /// A shared resource's guard was poisoned by an earlier failure:
    /// partial or inconsistent state must never be served.
    ResourcePoisoned { name: String },
    /// A stage's thread panicked before completing.
    ThreadPanicked { name: String },
}

impl WorkerError {
    pub fn new_resource_poisoned(name: String) -> (r: WorkerError)
        ensures
            r == (WorkerError::ResourcePoisoned { name }),
    {
        WorkerError::ResourcePoisoned { name }
    }

    pub fn new_thread_panicked(name: String) -> (r: WorkerError)
        ensures
            r == (WorkerError::ThreadPanicked { name }),
    {
        WorkerError::ThreadPanicked { name }
    }

    /// A human-readable description of the failure.
    pub fn describe(&self) -> (r: String)
        ensures
            match self {
                WorkerError::ResourcePoisoned { name } => r@ == "Attempted to access "@ + name@
                    + ", but it was poisoned"@,
                WorkerError::ThreadPanicked { name } => r@ == name@ + " panicked."@,
            },
    {
        match self {
            WorkerError::ResourcePoisoned { name } => {
                let mut s: String = "Attempted to access ".to_owned();
                s.append(name.as_str());
                s.append(", but it was poisoned");
                s
            },
            WorkerError::ThreadPanicked { name } => {
                let mut s: String = name.clone();
                s.append(" panicked.");
                s
            },
        }
    }
}

} // verus!
