use vstd::prelude::*;

use crate::host::HostId;

verus! {

/// Identifier of a virtual machine.
pub type VmId = u64;

/// Resource request a tenant workload asks the scheduler to place.
#[derive(Debug, Clone, Copy, PartialEq, Eq, Structural)]
pub struct VmSpec {
    pub vcpu_millicores: u32,
    pub mem_mb: u64,
    pub gpu_count: u8,
    pub nvme_iops: u32,
    /// VMs sharing a group id are placed on different hosts (anti-affinity).
    pub anti_affinity_group: Option<u32>,
}

/// A general-purpose VM: one core, 4 GiB, no GPU, 2000 IOPS.
pub open spec fn small_spec() -> VmSpec {
    VmSpec {
        vcpu_millicores: 1_000,
        mem_mb: 4_096,
        gpu_count: 0,
        nvme_iops: 2_000,
        anti_affinity_group: None,
    }
}

/// An accelerator workload: eight cores, 64 GiB, one GPU, 20000 IOPS.
pub open spec fn gpu_heavy_spec() -> VmSpec {
    VmSpec {
        vcpu_millicores: 8_000,
        mem_mb: 65_536,
        gpu_count: 1,
        nvme_iops: 20_000,
        anti_affinity_group: None,
    }
}

/// A small VM with CPU and memory scaled by `percent` percent (rounded down).
pub open spec fn scaled_small_spec(percent: u32) -> VmSpec {
    VmSpec {
        vcpu_millicores: (1_000 * percent / 100) as u32,
        mem_mb: (4_096 * percent / 100) as u64,
        ..small_spec()
    }
}

/// A random VM request is GPU-heavy with a chance of `GPU_HEAVY_ODDS` in
/// `GPU_HEAVY_OUT_OF`.
pub const GPU_HEAVY_ODDS: u32 = 3;

pub const GPU_HEAVY_OUT_OF: u32 = 20;

/// Least CPU and memory jitter of a random small VM, in percent.
pub const JITTER_MIN_PERCENT: u32 = 80;

/// Greatest CPU and memory jitter of a random small VM, in percent.
pub const JITTER_MAX_PERCENT: u32 = 140;

/// The spec a random request gets from its draws: the GPU-heavy shape when
/// the GPU-heavy draw came up, otherwise the small shape scaled by the
/// drawn percentage.
pub open spec fn spec_from_draws(gpu_heavy: bool, percent: u32) -> VmSpec {
    if gpu_heavy {
        gpu_heavy_spec()
    } else {
        scaled_small_spec(percent)
    }
}

impl VmSpec {
    /// The spec a random request gets from its draws: GPU-heavy when
    /// `gpu_heavy`, otherwise small scaled by `percent` (which is then
    /// within the jitter range).
    pub fn from_draws(gpu_heavy: bool, percent: u32) -> (s: Self)
        requires
            gpu_heavy || JITTER_MIN_PERCENT <= percent <= JITTER_MAX_PERCENT,
        ensures
            s == spec_from_draws(gpu_heavy, percent),
    {
        if gpu_heavy {
            VmSpec::gpu_heavy()
        } else {
            VmSpec::scaled_small(percent)
        }
    }

    /// A general-purpose VM: one core, 4 GiB, no GPU, 2000 IOPS.
    pub fn small() -> (s: Self)
        ensures
            s == small_spec(),
    {
        VmSpec {
            vcpu_millicores: 1_000,
            mem_mb: 4_096,
            gpu_count: 0,
            nvme_iops: 2_000,
            anti_affinity_group: None,
        }
    }

    /// An accelerator workload: eight cores, 64 GiB, one GPU, 20000 IOPS.
    pub fn gpu_heavy() -> (s: Self)
        ensures
            s == gpu_heavy_spec(),
    {
        VmSpec {
            vcpu_millicores: 8_000,
            mem_mb: 65_536,
            gpu_count: 1,
            nvme_iops: 20_000,
            anti_affinity_group: None,
        }
    }

    /// A small VM with CPU and memory scaled by `percent` percent, rounded
    /// down: the shape of a randomly jittered general-purpose VM.
    pub fn scaled_small(percent: u32) -> (s: Self)
        requires
            1_000 * percent <= u32::MAX,
        ensures
            s == scaled_small_spec(percent),
    {
        let mut spec = VmSpec::small();
        spec.vcpu_millicores = spec.vcpu_millicores * percent / 100;
        spec.mem_mb = spec.mem_mb * percent as u64 / 100;
        spec
    }
}

/// Lifecycle of a VM as the scheduler sees it.
#[derive(Debug, Clone, Copy, PartialEq, Eq, Structural)]
pub enum VmState {
    Running,
    /// Being live-migrated to `target_host`, where its resources on NUMA
    /// node `target_numa` are already reserved.
    Migrating { target_host: HostId, target_numa: u8 },
    Terminated,
}

/// A placed VM: its spec, the host and NUMA node holding its resources,
/// and its lifecycle state.
#[derive(Debug, Clone, Copy)]
pub struct Vm {
    pub id: VmId,
    pub spec: VmSpec,
    pub host_id: HostId,
    pub numa_node: u8,
    pub state: VmState,
}

impl Vm {
    /// A VM that runs on `host_id`, NUMA node `numa_node`.
    pub fn new(id: VmId, spec: VmSpec, host_id: HostId, numa_node: u8) -> (vm: Self)
        ensures
            vm == (Vm { id, spec, host_id, numa_node, state: VmState::Running }),
    {
        Vm { id, spec, host_id, numa_node, state: VmState::Running }
    }

    pub fn is_running(&self) -> (r: bool)
        ensures
            r == (self.state is Running),
    {
        match self.state {
            VmState::Running => true,
            _ => false,
        }
    }
}

} // verus!
