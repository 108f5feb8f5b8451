//! Verified core of a NUMA-aware hypervisor scheduler simulation.
//!
//! Hosts expose CPU and memory grouped into NUMA nodes, passthrough GPUs and
//! IOPS-limited NVMe controllers. The library keeps every host's resource
//! accounting within physical capacity, chooses placements, drives the
//! autoscaler's cooldown state machine, tracks live migrations and host
//! failures, and keeps the bounded event log.
pub mod autoscaler;
pub mod cluster;
pub mod events;
pub mod host;
pub mod random;
pub mod scheduler;
pub mod vm;

pub use autoscaler::{default_scale_out_spec, Autoscaler, LoadLevel, ScalingEvent};
pub use cluster::{Cluster, ClusterConfig, FleetCounts, MigrationStart};
pub use events::{Severity, SimEvent};
pub use host::{GpuDevice, Host, HostId, NumaNode, NvmeDevice};
pub use scheduler::{find_placement, place_batch_entry, violates_anti_affinity, Placement, SchedulerError};
pub use vm::{Vm, VmId, VmSpec, VmState};
