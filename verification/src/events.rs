use vstd::prelude::*;

verus! {

#[derive(Debug, Clone, Copy, PartialEq, Eq, Structural)]
pub enum Severity {
    Info,
    Warn,
    Critical,
}

/// One entry of the cluster's event log.
#[derive(Debug, Clone)]
pub struct SimEvent {
    pub tick: u64,
    pub severity: Severity,
    pub message: String,
}

} // verus!
