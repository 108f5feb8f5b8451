use vstd::prelude::*;

use crate::vm::{VmId, VmSpec};

verus! {

/// Identifier of a physical host.
pub type HostId = u32;

/// One NUMA node of a host: a pool of CPU (in millicores) and memory (in MiB).
#[derive(Debug, Clone, Copy)]
pub struct NumaNode {
    pub id: u8,
    pub cpu_capacity_millicores: u32,
    pub cpu_used_millicores: u32,
    pub mem_capacity_mb: u64,
    pub mem_used_mb: u64,
}

/// A PCIe GPU exposed via passthrough. Exclusive assignment only (no vGPU
/// time-slicing) mirrors how accelerators are typically handed to tenants
/// that need near bare-metal performance.
#[derive(Debug, Clone, Copy)]
pub struct GpuDevice {
    pub id: u8,
    pub model: &'static str,
    pub assigned_to: Option<VmId>,
}

/// A virtualized NVMe controller. `used_iops` models queue contention: as
/// tenants approach `max_iops` the effective per-VM latency climbs,
/// mirroring queue-depth backpressure on real NVMe stacks.
#[derive(Debug, Clone, Copy)]
pub struct NvmeDevice {
    pub id: u8,
    pub max_iops: u32,
    pub used_iops: u32,
}

/// A physical host: NUMA nodes, a GPU pool, NVMe controllers and the VMs
/// whose resources it currently holds.
#[derive(Debug, Clone)]
pub struct Host {
    pub id: HostId,
    pub healthy: bool,
    pub numa_nodes: Vec<NumaNode>,
    pub gpus: Vec<GpuDevice>,
    pub nvme_devices: Vec<NvmeDevice>,
    pub vm_ids: Vec<VmId>,
}

// ---------------------------------------------------------------------------
// Sums over sequences
// ---------------------------------------------------------------------------

/// The sum of `f` over the elements of `s`.
pub open spec fn total<A>(s: Seq<A>, f: spec_fn(A) -> int) -> int
    decreases s.len(),
{
    if s.len() == 0 {
        0
    } else {
        total(s.drop_last(), f) + f(s.last())
    }
}

pub open spec fn cpu_capacity_of() -> spec_fn(NumaNode) -> int {
    |n: NumaNode| n.cpu_capacity_millicores as int
}

pub open spec fn cpu_used_of() -> spec_fn(NumaNode) -> int {
    |n: NumaNode| n.cpu_used_millicores as int
}

pub open spec fn mem_capacity_of() -> spec_fn(NumaNode) -> int {
    |n: NumaNode| n.mem_capacity_mb as int
}

pub open spec fn mem_used_of() -> spec_fn(NumaNode) -> int {
    |n: NumaNode| n.mem_used_mb as int
}

pub open spec fn iops_max_of() -> spec_fn(NvmeDevice) -> int {
    |d: NvmeDevice| d.max_iops as int
}

pub open spec fn iops_used_of() -> spec_fn(NvmeDevice) -> int {
    |d: NvmeDevice| d.used_iops as int
}

pub open spec fn iops_headroom_of() -> spec_fn(NvmeDevice) -> int {
    |d: NvmeDevice| nvme_headroom(d)
}

pub open spec fn free_gpu_of() -> spec_fn(GpuDevice) -> int {
    |g: GpuDevice| if g.assigned_to is None { 1int } else { 0int }
}

/// Adding the next element of a prefix adds its value to the prefix's sum.
pub proof fn lemma_total_take_step<A>(s: Seq<A>, f: spec_fn(A) -> int, i: int)
    requires
        0 <= i < s.len(),
    ensures
        total(s.take(i + 1), f) == total(s.take(i), f) + f(s[i]),
{
    assert(s.take(i + 1).drop_last() =~= s.take(i));
}

/// A sum of non-negative values over a prefix never exceeds the sum over a
/// longer prefix.
pub proof fn lemma_total_prefix_mono<A>(s: Seq<A>, f: spec_fn(A) -> int, i: int, j: int)
    requires
        0 <= i <= j <= s.len(),
        forall|k: int| 0 <= k < s.len() ==> f(#[trigger] s[k]) >= 0,
    ensures
        total(s.take(i), f) <= total(s.take(j), f),
    decreases j - i,
{
    if i < j {
        lemma_total_prefix_mono(s, f, i, j - 1);
        lemma_total_take_step(s, f, j - 1);
    }
}

/// A sum over the whole sequence is the sum over its longest prefix.
pub proof fn lemma_total_take_all<A>(s: Seq<A>, f: spec_fn(A) -> int)
    ensures
        total(s.take(s.len() as int), f) == total(s, f),
{
    assert(s.take(s.len() as int) =~= s);
}

/// A sum of non-negative values is non-negative, and never exceeds the sum
/// of values that bound it pointwise.
pub proof fn lemma_total_bounded<A>(s: Seq<A>, f: spec_fn(A) -> int, g: spec_fn(A) -> int)
    requires
        forall|k: int| 0 <= k < s.len() ==> 0 <= f(#[trigger] s[k]) <= g(s[k]),
    ensures
        0 <= total(s, f) <= total(s, g),
    decreases s.len(),
{
    if s.len() > 0 {
        let t = s.drop_last();
        assert forall|k: int| 0 <= k < t.len() implies 0 <= f(#[trigger] t[k]) <= g(t[k]) by {
            assert(t[k] == s[k]);
        }
        lemma_total_bounded(t, f, g);
        assert(s.last() == s[s.len() - 1]);
    }
}

/// Two sequences that agree pointwise under `f` have the same sum.
pub proof fn lemma_total_pointwise_eq<A, B>(s: Seq<A>, f: spec_fn(A) -> int, t: Seq<B>, g: spec_fn(B) -> int)
    requires
        s.len() == t.len(),
        forall|k: int| 0 <= k < s.len() ==> f(#[trigger] s[k]) == g(t[k]),
    ensures
        total(s, f) == total(t, g),
    decreases s.len(),
{
    if s.len() > 0 {
        let s2 = s.drop_last();
        let t2 = t.drop_last();
        assert forall|k: int| 0 <= k < s2.len() implies f(#[trigger] s2[k]) == g(t2[k]) by {
            assert(s2[k] == s[k]);
            assert(t2[k] == t[k]);
        }
        lemma_total_pointwise_eq(s2, f, t2, g);
        assert(s.last() == s[s.len() - 1]);
        assert(t.last() == t[t.len() - 1]);
    }
}

// ---------------------------------------------------------------------------
// Per-device quantities
// ---------------------------------------------------------------------------

/// CPU a node still has free (zero when over-committed).
pub open spec fn node_cpu_headroom(n: NumaNode) -> int {
    n.cpu_capacity_millicores.saturating_sub(n.cpu_used_millicores) as int
}

/// Memory a node still has free (zero when over-committed).
pub open spec fn node_mem_headroom(n: NumaNode) -> int {
    n.mem_capacity_mb.saturating_sub(n.mem_used_mb) as int
}

/// IOPS a controller still has free (zero when over-committed).
pub open spec fn nvme_headroom(d: NvmeDevice) -> int {
    d.max_iops.saturating_sub(d.used_iops) as int
}

impl NumaNode {
    pub fn cpu_headroom(&self) -> (r: u32)
        ensures
            r == node_cpu_headroom(*self),
    {
        self.cpu_capacity_millicores.saturating_sub(self.cpu_used_millicores)
    }

    pub fn mem_headroom(&self) -> (r: u64)
        ensures
            r == node_mem_headroom(*self),
    {
        self.mem_capacity_mb.saturating_sub(self.mem_used_mb)
    }
}

impl NvmeDevice {
    pub fn headroom_iops(&self) -> (r: u32)
        ensures
            r == nvme_headroom(*self),
    {
        self.max_iops.saturating_sub(self.used_iops)
    }
}


// ---------------------------------------------------------------------------
// Host construction and aggregate queries
// ---------------------------------------------------------------------------

/// The GPU model every host of this simulation carries.
pub open spec fn gpu_model_name() -> &'static str {
    "A10-24GB"
}

/// `h` is a fresh, healthy host with identical NUMA nodes, unassigned GPUs
/// and idle NVMe controllers, each numbered by position, and no VMs.
pub open spec fn is_new_host(
    h: Host,
    id: HostId,
    numa_node_count: u8,
    cpu_per_numa: u32,
    mem_per_numa: u64,
    gpu_count: u8,
    nvme_count: u8,
    nvme_max_iops: u32,
) -> bool {
    &&& h.id == id
    &&& h.healthy
    &&& h.numa_nodes@.len() == numa_node_count
    &&& forall|i: int|
        0 <= i < numa_node_count ==> #[trigger] h.numa_nodes@[i] == (NumaNode {
            id: i as u8,
            cpu_capacity_millicores: cpu_per_numa,
            cpu_used_millicores: 0,
            mem_capacity_mb: mem_per_numa,
            mem_used_mb: 0,
        })
    &&& h.gpus@.len() == gpu_count
    &&& forall|i: int|
        0 <= i < gpu_count ==> #[trigger] h.gpus@[i] == (GpuDevice {
            id: i as u8,
            model: gpu_model_name(),
            assigned_to: None,
        })
    &&& h.nvme_devices@.len() == nvme_count
    &&& forall|i: int|
        0 <= i < nvme_count ==> #[trigger] h.nvme_devices@[i] == (NvmeDevice {
            id: i as u8,
            max_iops: nvme_max_iops,
            used_iops: 0,
        })
    &&& h.vm_ids@.len() == 0
}

impl Host {
    /// A fresh, healthy host with identical NUMA nodes, unassigned GPUs and
    /// idle NVMe controllers, numbered from zero, and no VMs.
    pub fn new(
        id: HostId,
        numa_node_count: u8,
        cpu_per_numa: u32,
        mem_per_numa: u64,
        gpu_count: u8,
        nvme_count: u8,
        nvme_max_iops: u32,
    ) -> (h: Self)
        ensures
            is_new_host(
                h,
                id,
                numa_node_count,
                cpu_per_numa,
                mem_per_numa,
                gpu_count,
                nvme_count,
                nvme_max_iops,
            ),
    {
        let mut numa_nodes: Vec<NumaNode> = Vec::new();
        let mut n: u8 = 0;
        while n < numa_node_count
            invariant
                n <= numa_node_count,
                numa_nodes@.len() == n,
                forall|i: int|
                    0 <= i < n ==> #[trigger] numa_nodes@[i] == (NumaNode {
                        id: i as u8,
                        cpu_capacity_millicores: cpu_per_numa,
                        cpu_used_millicores: 0,
                        mem_capacity_mb: mem_per_numa,
                        mem_used_mb: 0,
                    }),
            decreases numa_node_count - n,
        {
            numa_nodes.push(
                NumaNode {
                    id: n,
                    cpu_capacity_millicores: cpu_per_numa,
                    cpu_used_millicores: 0,
                    mem_capacity_mb: mem_per_numa,
                    mem_used_mb: 0,
                },
            );
            n = n + 1;
        }
        let mut gpus: Vec<GpuDevice> = Vec::new();
        let mut g: u8 = 0;
        while g < gpu_count
            invariant
                g <= gpu_count,
                gpus@.len() == g,
                forall|i: int|
                    0 <= i < g ==> #[trigger] gpus@[i] == (GpuDevice {
                        id: i as u8,
                        model: gpu_model_name(),
                        assigned_to: None,
                    }),
            decreases gpu_count - g,
        {
            gpus.push(GpuDevice { id: g, model: "A10-24GB", assigned_to: None });
            g = g + 1;
        }
        let mut nvme_devices: Vec<NvmeDevice> = Vec::new();
        let mut d: u8 = 0;
        while d < nvme_count
            invariant
                d <= nvme_count,
                nvme_devices@.len() == d,
                forall|i: int|
                    0 <= i < d ==> #[trigger] nvme_devices@[i] == (NvmeDevice {
                        id: i as u8,
                        max_iops: nvme_max_iops,
                        used_iops: 0,
                    }),
            decreases nvme_count - d,
        {
            nvme_devices.push(NvmeDevice { id: d, max_iops: nvme_max_iops, used_iops: 0 });
            d = d + 1;
        }
        Host { id, healthy: true, numa_nodes, gpus, nvme_devices, vm_ids: Vec::new() }
    }

    pub fn total_cpu_capacity(&self) -> (r: u32)
        requires
            total(self.numa_nodes@, cpu_capacity_of()) <= u32::MAX,
        ensures
            r == total(self.numa_nodes@, cpu_capacity_of()),
    {
        let ghost s = self.numa_nodes@;
        let ghost f = cpu_capacity_of();
        let mut acc: u32 = 0;
        let mut i: usize = 0;
        while i < self.numa_nodes.len()
            invariant
                s == self.numa_nodes@,
                f == cpu_capacity_of(),
                0 <= i <= s.len(),
                acc == total(s.take(i as int), f),
                total(s, f) <= u32::MAX,
            decreases s.len() - i,
        {
            proof {
                lemma_total_take_step(s, f, i as int);
                lemma_total_prefix_mono(s, f, i as int + 1, s.len() as int);
                lemma_total_take_all(s, f);
            }
            acc = acc + self.numa_nodes[i].cpu_capacity_millicores;
            i = i + 1;
        }
        proof { lemma_total_take_all(s, f); }
        acc
    }

    pub fn total_cpu_used(&self) -> (r: u32)
        requires
            total(self.numa_nodes@, cpu_used_of()) <= u32::MAX,
        ensures
            r == total(self.numa_nodes@, cpu_used_of()),
    {
        let ghost s = self.numa_nodes@;
        let ghost f = cpu_used_of();
        let mut acc: u32 = 0;
        let mut i: usize = 0;
        while i < self.numa_nodes.len()
            invariant
                s == self.numa_nodes@,
                f == cpu_used_of(),
                0 <= i <= s.len(),
                acc == total(s.take(i as int), f),
                total(s, f) <= u32::MAX,
            decreases s.len() - i,
        {
            proof {
                lemma_total_take_step(s, f, i as int);
                lemma_total_prefix_mono(s, f, i as int + 1, s.len() as int);
                lemma_total_take_all(s, f);
            }
            acc = acc + self.numa_nodes[i].cpu_used_millicores;
            i = i + 1;
        }
        proof { lemma_total_take_all(s, f); }
        acc
    }

    pub fn total_mem_capacity(&self) -> (r: u64)
        requires
            total(self.numa_nodes@, mem_capacity_of()) <= u64::MAX,
        ensures
            r == total(self.numa_nodes@, mem_capacity_of()),
    {
        let ghost s = self.numa_nodes@;
        let ghost f = mem_capacity_of();
        let mut acc: u64 = 0;
        let mut i: usize = 0;
        while i < self.numa_nodes.len()
            invariant
                s == self.numa_nodes@,
                f == mem_capacity_of(),
                0 <= i <= s.len(),
                acc == total(s.take(i as int), f),
                total(s, f) <= u64::MAX,
            decreases s.len() - i,
        {
            proof {
                lemma_total_take_step(s, f, i as int);
                lemma_total_prefix_mono(s, f, i as int + 1, s.len() as int);
                lemma_total_take_all(s, f);
            }
            acc = acc + self.numa_nodes[i].mem_capacity_mb;
            i = i + 1;
        }
        proof { lemma_total_take_all(s, f); }
        acc
    }

    pub fn total_mem_used(&self) -> (r: u64)
        requires
            total(self.numa_nodes@, mem_used_of()) <= u64::MAX,
        ensures
            r == total(self.numa_nodes@, mem_used_of()),
    {
        let ghost s = self.numa_nodes@;
        let ghost f = mem_used_of();
        let mut acc: u64 = 0;
        let mut i: usize = 0;
        while i < self.numa_nodes.len()
            invariant
                s == self.numa_nodes@,
                f == mem_used_of(),
                0 <= i <= s.len(),
                acc == total(s.take(i as int), f),
                total(s, f) <= u64::MAX,
            decreases s.len() - i,
        {
            proof {
                lemma_total_take_step(s, f, i as int);
                lemma_total_prefix_mono(s, f, i as int + 1, s.len() as int);
                lemma_total_take_all(s, f);
            }
            acc = acc + self.numa_nodes[i].mem_used_mb;
            i = i + 1;
        }
        proof { lemma_total_take_all(s, f); }
        acc
    }

    pub fn nvme_headroom_iops(&self) -> (r: u32)
        requires
            total(self.nvme_devices@, iops_headroom_of()) <= u32::MAX,
        ensures
            r == total(self.nvme_devices@, iops_headroom_of()),
    {
        let ghost s = self.nvme_devices@;
        let ghost f = iops_headroom_of();
        let mut acc: u32 = 0;
        let mut i: usize = 0;
        while i < self.nvme_devices.len()
            invariant
                s == self.nvme_devices@,
                f == iops_headroom_of(),
                0 <= i <= s.len(),
                acc == total(s.take(i as int), f),
                total(s, f) <= u32::MAX,
            decreases s.len() - i,
        {
            proof {
                lemma_total_take_step(s, f, i as int);
                lemma_total_prefix_mono(s, f, i as int + 1, s.len() as int);
                lemma_total_take_all(s, f);
            }
            acc = acc + self.nvme_devices[i].headroom_iops();
            i = i + 1;
        }
        proof { lemma_total_take_all(s, f); }
        acc
    }

    pub fn free_gpus(&self) -> (r: usize)
        ensures
            r == total(self.gpus@, free_gpu_of()),
    {
        let ghost s = self.gpus@;
        let ghost f = free_gpu_of();
        let mut acc: usize = 0;
        let mut i: usize = 0;
        while i < self.gpus.len()
            invariant
                s == self.gpus@,
                f == free_gpu_of(),
                0 <= i <= s.len(),
                acc == total(s.take(i as int), f),
                acc <= i,
            decreases s.len() - i,
        {
            proof {
                lemma_total_take_step(s, f, i as int);
            }
            if self.gpus[i].assigned_to.is_none() {
                acc = acc + 1;
            }
            i = i + 1;
        }
        proof { lemma_total_take_all(s, f); }
        acc
    }
}

// ---------------------------------------------------------------------------
// Choosing a NUMA node
// ---------------------------------------------------------------------------

/// Node `n` has enough free CPU and memory for `s`.
pub open spec fn node_fits(n: NumaNode, s: VmSpec) -> bool {
    node_cpu_headroom(n) >= s.vcpu_millicores && node_mem_headroom(n) >= s.mem_mb
}

/// Among the first `len` nodes, node `i` fits `s` and has the most CPU
/// headroom of all fitting nodes; on a tie the later node wins.
pub open spec fn is_best_among(nodes: Seq<NumaNode>, s: VmSpec, i: int, len: int) -> bool {
    &&& 0 <= i < len <= nodes.len()
    &&& node_fits(nodes[i], s)
    &&& forall|j: int|
        0 <= j < len && #[trigger] node_fits(nodes[j], s) ==> {
            &&& node_cpu_headroom(nodes[j]) <= node_cpu_headroom(nodes[i])
            &&& (j > i ==> node_cpu_headroom(nodes[j]) < node_cpu_headroom(nodes[i]))
        }
}

/// The host's GPU and NVMe pools can take `s`: enough unassigned GPUs and
/// enough IOPS headroom summed over all controllers.
pub open spec fn pools_admit(h: Host, s: VmSpec) -> bool {
    &&& total(h.gpus@, free_gpu_of()) >= s.gpu_count
    &&& total(h.nvme_devices@, iops_headroom_of()) >= s.nvme_iops
}

/// The NUMA node a VM with spec `s` lands on when placed on `h`, if any.
pub open spec fn best_fit(h: Host, s: VmSpec) -> Option<u8> {
    let nodes = h.numa_nodes@;
    if pools_admit(h, s) && exists|i: int| is_best_among(nodes, s, i, nodes.len() as int) {
        Some(nodes[choose|i: int| is_best_among(nodes, s, i, nodes.len() as int)].id)
    } else {
        None
    }
}

/// At most one node is the best fit.
pub proof fn lemma_best_unique(nodes: Seq<NumaNode>, s: VmSpec, i: int, k: int, len: int)
    requires
        is_best_among(nodes, s, i, len),
        is_best_among(nodes, s, k, len),
    ensures
        i == k,
{
    assert(node_fits(nodes[k], s));
    assert(node_fits(nodes[i], s));
}

/// When some node among the first `len` fits `s`, one of them is the best
/// fit.
pub proof fn lemma_best_exists(nodes: Seq<NumaNode>, s: VmSpec, len: int)
    requires
        0 <= len <= nodes.len(),
        exists|j: int| 0 <= j < len && #[trigger] node_fits(nodes[j], s),
    ensures
        exists|i: int| is_best_among(nodes, s, i, len),
    decreases len,
{
    let last = len - 1;
    if exists|j: int| 0 <= j < last && #[trigger] node_fits(nodes[j], s) {
        lemma_best_exists(nodes, s, last);
        let b = choose|i: int| is_best_among(nodes, s, i, last);
        if node_fits(nodes[last], s) && node_cpu_headroom(nodes[last]) >= node_cpu_headroom(
            nodes[b],
        ) {
            assert(is_best_among(nodes, s, last, len));
        } else {
            assert(is_best_among(nodes, s, b, len));
        }
    } else {
        let w = choose|j: int| 0 <= j < len && #[trigger] node_fits(nodes[j], s);
        assert(w == last);
        assert(is_best_among(nodes, s, last, len));
    }
}

/// A host takes a VM exactly when it has at least as many unassigned GPUs
/// as the VM asks for, at least the VM's IOPS as headroom summed over all
/// its NVMe controllers (not necessarily on any one of them), and a NUMA
/// node with enough free CPU and memory for it.
pub proof fn lemma_admission(h: Host, s: VmSpec)
    ensures
        best_fit(h, s) is Some <==> {
            &&& total(h.gpus@, (|g: GpuDevice| if g.assigned_to is None { 1int } else { 0int }))
                >= s.gpu_count
            &&& total(
                h.nvme_devices@,
                (|d: NvmeDevice| d.max_iops.saturating_sub(d.used_iops) as int),
            ) >= s.nvme_iops
            &&& exists|j: int|
                0 <= j < h.numa_nodes@.len() && (#[trigger] h.numa_nodes@[j]).cpu_capacity_millicores.saturating_sub(
                    h.numa_nodes@[j].cpu_used_millicores,
                ) >= s.vcpu_millicores && h.numa_nodes@[j].mem_capacity_mb.saturating_sub(
                    h.numa_nodes@[j].mem_used_mb,
                ) >= s.mem_mb
        },
{
    let nodes = h.numa_nodes@;
    lemma_total_pointwise_eq(
        h.gpus@,
        (|g: GpuDevice| if g.assigned_to is None { 1int } else { 0int }),
        h.gpus@,
        free_gpu_of(),
    );
    lemma_total_pointwise_eq(
        h.nvme_devices@,
        (|d: NvmeDevice| d.max_iops.saturating_sub(d.used_iops) as int),
        h.nvme_devices@,
        iops_headroom_of(),
    );
    if exists|j: int| 0 <= j < nodes.len() && #[trigger] node_fits(nodes[j], s) {
        lemma_best_exists(nodes, s, nodes.len() as int);
        let j = choose|j: int| 0 <= j < nodes.len() && #[trigger] node_fits(nodes[j], s);
        assert(nodes[j].cpu_capacity_millicores.saturating_sub(nodes[j].cpu_used_millicores)
            >= s.vcpu_millicores);
    } else {
        if exists|i: int| is_best_among(nodes, s, i, nodes.len() as int) {
            let i = choose|i: int| is_best_among(nodes, s, i, nodes.len() as int);
            assert(node_fits(nodes[i], s));
        }
        assert forall|j: int| 0 <= j < nodes.len() implies !((#[trigger] nodes[j]).cpu_capacity_millicores.saturating_sub(
            nodes[j].cpu_used_millicores,
        ) >= s.vcpu_millicores && nodes[j].mem_capacity_mb.saturating_sub(nodes[j].mem_used_mb)
            >= s.mem_mb) by {
            assert(!node_fits(nodes[j], s));
        }
    }
}

/// The node a host picks for a VM has enough free CPU and memory for it
/// and, of all nodes that do, the most free CPU; among nodes tied on free
/// CPU the last one is picked.
pub proof fn lemma_best_fit_choice(h: Host, s: VmSpec)
    requires
        best_fit(h, s) is Some,
    ensures
        exists|i: int|
            {
                &&& 0 <= i < h.numa_nodes@.len()
                &&& (#[trigger] h.numa_nodes@[i]).id == best_fit(h, s).unwrap()
                &&& h.numa_nodes@[i].cpu_capacity_millicores.saturating_sub(
                    h.numa_nodes@[i].cpu_used_millicores,
                ) >= s.vcpu_millicores
                &&& h.numa_nodes@[i].mem_capacity_mb.saturating_sub(h.numa_nodes@[i].mem_used_mb)
                    >= s.mem_mb
                &&& forall|j: int|
                    0 <= j < h.numa_nodes@.len() && (#[trigger] h.numa_nodes@[j]).cpu_capacity_millicores.saturating_sub(
                        h.numa_nodes@[j].cpu_used_millicores,
                    ) >= s.vcpu_millicores && h.numa_nodes@[j].mem_capacity_mb.saturating_sub(
                        h.numa_nodes@[j].mem_used_mb,
                    ) >= s.mem_mb ==> {
                        &&& h.numa_nodes@[j].cpu_capacity_millicores.saturating_sub(
                            h.numa_nodes@[j].cpu_used_millicores,
                        ) <= h.numa_nodes@[i].cpu_capacity_millicores.saturating_sub(
                            h.numa_nodes@[i].cpu_used_millicores,
                        )
                        &&& j > i ==> h.numa_nodes@[j].cpu_capacity_millicores.saturating_sub(
                            h.numa_nodes@[j].cpu_used_millicores,
                        ) < h.numa_nodes@[i].cpu_capacity_millicores.saturating_sub(
                            h.numa_nodes@[i].cpu_used_millicores,
                        )
                    }
            },
{
    let nodes = h.numa_nodes@;
    let i = choose|i: int| is_best_among(nodes, s, i, nodes.len() as int);
    assert forall|j: int|
        0 <= j < nodes.len() && (#[trigger] nodes[j]).cpu_capacity_millicores.saturating_sub(
            nodes[j].cpu_used_millicores,
        ) >= s.vcpu_millicores && nodes[j].mem_capacity_mb.saturating_sub(nodes[j].mem_used_mb)
            >= s.mem_mb implies {
        &&& nodes[j].cpu_capacity_millicores.saturating_sub(nodes[j].cpu_used_millicores)
            <= nodes[i].cpu_capacity_millicores.saturating_sub(nodes[i].cpu_used_millicores)
        &&& j > i ==> nodes[j].cpu_capacity_millicores.saturating_sub(nodes[j].cpu_used_millicores)
            < nodes[i].cpu_capacity_millicores.saturating_sub(nodes[i].cpu_used_millicores)
    } by {
        assert(node_fits(nodes[j], s));
    }
    assert(node_fits(nodes[i], s));
    assert(nodes[i].id == best_fit(h, s).unwrap());
}

impl Host {
    /// Best NUMA node to satisfy `spec` on this host, if any node (plus the
    /// host's GPU/NVMe pools) has enough headroom.
    pub fn best_numa_fit(&self, spec: &VmSpec) -> (r: Option<u8>)
        requires
            total(self.gpus@, free_gpu_of()) >= spec.gpu_count ==> total(
                self.nvme_devices@,
                iops_headroom_of(),
            ) <= u32::MAX,
        ensures
            r == best_fit(*self, *spec),
            r is None <==> (!pools_admit(*self, *spec) || forall|j: int|
                0 <= j < self.numa_nodes@.len() ==> !node_fits(#[trigger] self.numa_nodes@[j], *spec)),
    {
        let ghost nodes = self.numa_nodes@;
        if self.free_gpus() < spec.gpu_count as usize {
            return None;
        }
        if self.nvme_headroom_iops() < spec.nvme_iops {
            return None;
        }
        let mut best: Option<usize> = None;
        let mut best_headroom: u32 = 0;
        let mut i: usize = 0;
        while i < self.numa_nodes.len()
            invariant
                nodes == self.numa_nodes@,
                0 <= i <= nodes.len(),
                best is None ==> forall|j: int| 0 <= j < i ==> !node_fits(#[trigger] nodes[j], *spec),
                best matches Some(b) ==> {
                    &&& is_best_among(nodes, *spec, b as int, i as int)
                    &&& best_headroom == node_cpu_headroom(nodes[b as int])
                },
            decreases nodes.len() - i,
        {
            let cpu = self.numa_nodes[i].cpu_headroom();
            let mem = self.numa_nodes[i].mem_headroom();
            if cpu >= spec.vcpu_millicores && mem >= spec.mem_mb {
                let better = match best {
                    None => true,
                    Some(_) => cpu >= best_headroom,
                };
                if better {
                    best = Some(i);
                    best_headroom = cpu;
                }
            }
            i = i + 1;
        }
        match best {
            Some(b) => {
                proof {
                    let c = choose|k: int| is_best_among(nodes, *spec, k, nodes.len() as int);
                    lemma_best_unique(nodes, *spec, b as int, c, nodes.len() as int);
                }
                Some(self.numa_nodes[b].id)
            },
            None => {
                proof {
                    if exists|k: int| is_best_among(nodes, *spec, k, nodes.len() as int) {
                        let c = choose|k: int| is_best_among(nodes, *spec, k, nodes.len() as int);
                        assert(node_fits(nodes[c], *spec));
                    }
                }
                None
            },
        }
    }
}

// ---------------------------------------------------------------------------
// Reserving and returning resources
// ---------------------------------------------------------------------------

/// Node `i` is the first node whose id is `id`.
pub open spec fn is_first_with_id(nodes: Seq<NumaNode>, id: u8, i: int) -> bool {
    &&& 0 <= i < nodes.len()
    &&& nodes[i].id == id
    &&& forall|j: int| 0 <= j < i ==> #[trigger] nodes[j].id != id
}

/// Nodes after a VM of spec `s` is charged to the first node with id `id`.
pub open spec fn charged_nodes(nodes: Seq<NumaNode>, id: u8, s: VmSpec) -> Seq<NumaNode> {
    Seq::new(
        nodes.len(),
        |i: int|
            if is_first_with_id(nodes, id, i) {
                NumaNode {
                    cpu_used_millicores: (nodes[i].cpu_used_millicores + s.vcpu_millicores) as u32,
                    mem_used_mb: (nodes[i].mem_used_mb + s.mem_mb) as u64,
                    ..nodes[i]
                }
            } else {
                nodes[i]
            },
    )
}

/// Nodes after a VM of spec `s` is taken off the first node with id `id`
/// (never going below zero).
pub open spec fn discharged_nodes(nodes: Seq<NumaNode>, id: u8, s: VmSpec) -> Seq<NumaNode> {
    Seq::new(
        nodes.len(),
        |i: int|
            if is_first_with_id(nodes, id, i) {
                NumaNode {
                    cpu_used_millicores: nodes[i].cpu_used_millicores.saturating_sub(
                        s.vcpu_millicores,
                    ),
                    mem_used_mb: nodes[i].mem_used_mb.saturating_sub(s.mem_mb),
                    ..nodes[i]
                }
            } else {
                nodes[i]
            },
    )
}

/// Unassigned GPUs among the first `i`.
pub open spec fn free_gpus_before(gpus: Seq<GpuDevice>, i: int) -> int {
    total(gpus.take(i), free_gpu_of())
}

/// GPUs after the first `k` unassigned ones are handed to `vm`.
pub open spec fn assigned_gpus(gpus: Seq<GpuDevice>, vm: VmId, k: int) -> Seq<GpuDevice> {
    Seq::new(
        gpus.len(),
        |i: int|
            if gpus[i].assigned_to is None && free_gpus_before(gpus, i) < k {
                GpuDevice { assigned_to: Some(vm), ..gpus[i] }
            } else {
                gpus[i]
            },
    )
}

/// GPUs after every GPU held by `vm` is unassigned.
pub open spec fn released_gpus(gpus: Seq<GpuDevice>, vm: VmId) -> Seq<GpuDevice> {
    Seq::new(
        gpus.len(),
        |i: int|
            if gpus[i].assigned_to == Some(vm) {
                GpuDevice { assigned_to: None, ..gpus[i] }
            } else {
                gpus[i]
            },
    )
}

pub open spec fn min_int(a: int, b: int) -> int {
    if a <= b { a } else { b }
}

pub open spec fn max_int(a: int, b: int) -> int {
    if a >= b { a } else { b }
}

/// IOPS headroom of the first `i` controllers.
pub open spec fn headroom_before(devs: Seq<NvmeDevice>, i: int) -> int {
    total(devs.take(i), iops_headroom_of())
}

/// IOPS in use on the first `i` controllers.
pub open spec fn used_before(devs: Seq<NvmeDevice>, i: int) -> int {
    total(devs.take(i), iops_used_of())
}

/// Controllers after `x` IOPS are reserved greedily: each controller, in
/// order, takes as much of what is still unreserved as its headroom allows.
pub open spec fn reserved_iops(devs: Seq<NvmeDevice>, x: int) -> Seq<NvmeDevice> {
    Seq::new(
        devs.len(),
        |i: int|
            NvmeDevice {
                used_iops: (devs[i].used_iops + min_int(
                    nvme_headroom(devs[i]),
                    max_int(0, x - headroom_before(devs, i)),
                )) as u32,
                ..devs[i]
            },
    )
}

/// Controllers after `x` IOPS are given back greedily: each controller, in
/// order, gives back as much of what is still owed as it has in use.
pub open spec fn returned_iops(devs: Seq<NvmeDevice>, x: int) -> Seq<NvmeDevice> {
    Seq::new(
        devs.len(),
        |i: int|
            NvmeDevice {
                used_iops: (devs[i].used_iops - min_int(
                    devs[i].used_iops as int,
                    max_int(0, x - used_before(devs, i)),
                )) as u32,
                ..devs[i]
            },
    )
}

/// `after` is `before` with a VM of spec `s` charged to it: CPU and memory
/// to the first NUMA node with id `numa_node`, up to `s.gpu_count` of the
/// unassigned GPUs, its IOPS reserved greedily, and `vm` appended to the VM
/// list.
pub open spec fn placed(before: Host, after: Host, vm: VmId, numa_node: u8, s: VmSpec) -> bool {
    &&& after.id == before.id
    &&& after.healthy == before.healthy
    &&& after.numa_nodes@ == charged_nodes(before.numa_nodes@, numa_node, s)
    &&& after.gpus@ == assigned_gpus(before.gpus@, vm, s.gpu_count as int)
    &&& after.nvme_devices@ == reserved_iops(before.nvme_devices@, s.nvme_iops as int)
    &&& after.vm_ids@ == before.vm_ids@.push(vm)
}

/// `after` is `before` with a VM of spec `s` taken off: CPU and memory off
/// the first NUMA node with id `numa_node`, the GPUs held by `vm` back in
/// the pool, its IOPS given back greedily, and `vm` out of the VM list.
pub open spec fn released(before: Host, after: Host, vm: VmId, numa_node: u8, s: VmSpec) -> bool {
    &&& after.id == before.id
    &&& after.healthy == before.healthy
    &&& after.numa_nodes@ == discharged_nodes(before.numa_nodes@, numa_node, s)
    &&& after.gpus@ == released_gpus(before.gpus@, vm)
    &&& after.nvme_devices@ == returned_iops(before.nvme_devices@, s.nvme_iops as int)
    &&& after.vm_ids@ == before.vm_ids@.filter(other_than(vm))
}

impl Host {
    /// Charges a VM of spec `spec` to this host: its CPU and memory to the
    /// first NUMA node with id `numa_node`, up to `spec.gpu_count` of the
    /// unassigned GPUs, and its IOPS spread greedily over the controllers;
    /// `vm_id` is appended to the host's VM list.
    pub fn place(&mut self, vm_id: VmId, numa_node: u8, spec: &VmSpec)
        requires
            forall|i: int|
                is_first_with_id(old(self).numa_nodes@, numa_node, i) ==> {
                    &&& old(self).numa_nodes@[i].cpu_used_millicores + spec.vcpu_millicores
                        <= u32::MAX
                    &&& old(self).numa_nodes@[i].mem_used_mb + spec.mem_mb <= u64::MAX
                },
        ensures
            placed(*old(self), *final(self), vm_id, numa_node, *spec),
    {
        // CPU and memory on the chosen node.
        let ghost nodes = self.numa_nodes@;
        let mut i: usize = 0;
        let mut found = false;
        while i < self.numa_nodes.len() && !found
            invariant
                nodes == old(self).numa_nodes@,
                0 <= i <= nodes.len(),
                self.numa_nodes@.len() == nodes.len(),
                self.gpus == old(self).gpus,
                self.nvme_devices == old(self).nvme_devices,
                self.vm_ids == old(self).vm_ids,
                self.id == old(self).id,
                self.healthy == old(self).healthy,
                forall|i: int|
                    is_first_with_id(nodes, numa_node, i) ==> {
                        &&& nodes[i].cpu_used_millicores + spec.vcpu_millicores <= u32::MAX
                        &&& nodes[i].mem_used_mb + spec.mem_mb <= u64::MAX
                    },
                !found ==> forall|j: int| 0 <= j < i ==> #[trigger] nodes[j].id != numa_node,
                !found ==> self.numa_nodes@ == nodes,
                found ==> self.numa_nodes@ == charged_nodes(nodes, numa_node, *spec),
            decreases nodes.len() - i + (if found { 0int } else { 1int }),
        {
            if self.numa_nodes[i].id == numa_node {
                assert(is_first_with_id(nodes, numa_node, i as int));
                let mut node = self.numa_nodes[i];
                node.cpu_used_millicores = node.cpu_used_millicores + spec.vcpu_millicores;
                node.mem_used_mb = node.mem_used_mb + spec.mem_mb;
                self.numa_nodes[i] = node;
                found = true;
                proof {
                    assert forall|j: int| 0 <= j < nodes.len() implies #[trigger] self.numa_nodes@[j]
                        == charged_nodes(nodes, numa_node, *spec)[j] by {
                        if j != i {
                            if j < i {
                                assert(!is_first_with_id(nodes, numa_node, j));
                            } else {
                                assert(nodes[i as int].id == numa_node);
                                assert(!is_first_with_id(nodes, numa_node, j));
                            }
                        }
                    }
                    assert(self.numa_nodes@ =~= charged_nodes(nodes, numa_node, *spec));
                }
            } else {
                i = i + 1;
            }
        }
        proof {
            if !found {
                assert forall|j: int| 0 <= j < nodes.len() implies #[trigger] nodes[j]
                    == charged_nodes(nodes, numa_node, *spec)[j] by {
                    assert(!is_first_with_id(nodes, numa_node, j));
                }
                assert(nodes =~= charged_nodes(nodes, numa_node, *spec));
            }
        }

        // GPUs: hand out the first unassigned ones.
        let ghost gpus = self.gpus@;
        let ghost k = spec.gpu_count as int;
        let mut remaining_gpu: u8 = spec.gpu_count;
        let mut g: usize = 0;
        while g < self.gpus.len()
            invariant
                gpus == old(self).gpus@,
                k == spec.gpu_count as int,
                0 <= g <= gpus.len(),
                self.gpus@.len() == gpus.len(),
                self.numa_nodes@ == charged_nodes(old(self).numa_nodes@, numa_node, *spec),
                self.nvme_devices == old(self).nvme_devices,
                self.vm_ids == old(self).vm_ids,
                self.id == old(self).id,
                self.healthy == old(self).healthy,
                remaining_gpu as int == max_int(0, k - free_gpus_before(gpus, g as int)),
                forall|j: int| 0 <= j < g ==> #[trigger] self.gpus@[j] == assigned_gpus(gpus, vm_id, k)[j],
                forall|j: int| g <= j < gpus.len() ==> #[trigger] self.gpus@[j] == gpus[j],
            decreases gpus.len() - g,
        {
            proof {
                lemma_total_take_step(gpus, free_gpu_of(), g as int);
            }
            if remaining_gpu > 0 && self.gpus[g].assigned_to.is_none() {
                let mut gpu = self.gpus[g];
                gpu.assigned_to = Some(vm_id);
                self.gpus[g] = gpu;
                remaining_gpu = remaining_gpu - 1;
            }
            g = g + 1;
        }
        proof {
            assert(self.gpus@ =~= assigned_gpus(gpus, vm_id, k));
        }

        // NVMe: reserve IOPS greedily, controller by controller.
        let ghost devs = self.nvme_devices@;
        let ghost x = spec.nvme_iops as int;
        let mut remaining_iops: u32 = spec.nvme_iops;
        let mut d: usize = 0;
        while d < self.nvme_devices.len()
            invariant
                devs == old(self).nvme_devices@,
                x == spec.nvme_iops as int,
                0 <= d <= devs.len(),
                self.nvme_devices@.len() == devs.len(),
                self.numa_nodes@ == charged_nodes(old(self).numa_nodes@, numa_node, *spec),
                self.gpus@ == assigned_gpus(old(self).gpus@, vm_id, spec.gpu_count as int),
                self.vm_ids == old(self).vm_ids,
                self.id == old(self).id,
                self.healthy == old(self).healthy,
                remaining_iops as int == max_int(0, x - headroom_before(devs, d as int)),
                forall|j: int| 0 <= j < d ==> #[trigger] self.nvme_devices@[j] == reserved_iops(devs, x)[j],
                forall|j: int| d <= j < devs.len() ==> #[trigger] self.nvme_devices@[j] == devs[j],
            decreases devs.len() - d,
        {
            proof {
                lemma_total_take_step(devs, iops_headroom_of(), d as int);
            }
            let mut dev = self.nvme_devices[d];
            let head = dev.headroom_iops();
            let take = if remaining_iops < head { remaining_iops } else { head };
            dev.used_iops = dev.used_iops + take;
            remaining_iops = remaining_iops - take;
            self.nvme_devices[d] = dev;
            d = d + 1;
        }
        proof {
            assert(self.nvme_devices@ =~= reserved_iops(devs, x));
        }
        self.vm_ids.push(vm_id);
    }
}

impl Host {
    /// Takes a VM of spec `spec` off this host: its CPU and memory off the
    /// first NUMA node with id `numa_node` (never below zero), every GPU
    /// assigned to `vm_id` back to the pool, its IOPS given back greedily
    /// controller by controller, and every occurrence of `vm_id` out of the
    /// VM list.
    pub fn release(&mut self, vm_id: VmId, numa_node: u8, spec: &VmSpec)
        ensures
            released(*old(self), *final(self), vm_id, numa_node, *spec),
    {
        // CPU and memory on the node.
        let ghost nodes = self.numa_nodes@;
        let mut i: usize = 0;
        let mut found = false;
        while i < self.numa_nodes.len() && !found
            invariant
                nodes == old(self).numa_nodes@,
                0 <= i <= nodes.len(),
                self.numa_nodes@.len() == nodes.len(),
                self.gpus == old(self).gpus,
                self.nvme_devices == old(self).nvme_devices,
                self.vm_ids == old(self).vm_ids,
                self.id == old(self).id,
                self.healthy == old(self).healthy,
                !found ==> forall|j: int| 0 <= j < i ==> #[trigger] nodes[j].id != numa_node,
                !found ==> self.numa_nodes@ == nodes,
                found ==> self.numa_nodes@ == discharged_nodes(nodes, numa_node, *spec),
            decreases nodes.len() - i + (if found { 0int } else { 1int }),
        {
            if self.numa_nodes[i].id == numa_node {
                assert(is_first_with_id(nodes, numa_node, i as int));
                let mut node = self.numa_nodes[i];
                node.cpu_used_millicores = node.cpu_used_millicores.saturating_sub(
                    spec.vcpu_millicores,
                );
                node.mem_used_mb = node.mem_used_mb.saturating_sub(spec.mem_mb);
                self.numa_nodes[i] = node;
                found = true;
                proof {
                    assert forall|j: int| 0 <= j < nodes.len() implies #[trigger] self.numa_nodes@[j]
                        == discharged_nodes(nodes, numa_node, *spec)[j] by {
                        if j != i {
                            if j < i {
                                assert(!is_first_with_id(nodes, numa_node, j));
                            } else {
                                assert(nodes[i as int].id == numa_node);
                                assert(!is_first_with_id(nodes, numa_node, j));
                            }
                        }
                    }
                    assert(self.numa_nodes@ =~= discharged_nodes(nodes, numa_node, *spec));
                }
            } else {
                i = i + 1;
            }
        }
        proof {
            if !found {
                assert forall|j: int| 0 <= j < nodes.len() implies #[trigger] nodes[j]
                    == discharged_nodes(nodes, numa_node, *spec)[j] by {
                    assert(!is_first_with_id(nodes, numa_node, j));
                }
                assert(nodes =~= discharged_nodes(nodes, numa_node, *spec));
            }
        }

        // GPUs held by the VM go back to the pool.
        let ghost gpus = self.gpus@;
        let mut g: usize = 0;
        while g < self.gpus.len()
            invariant
                gpus == old(self).gpus@,
                0 <= g <= gpus.len(),
                self.gpus@.len() == gpus.len(),
                self.numa_nodes@ == discharged_nodes(old(self).numa_nodes@, numa_node, *spec),
                self.nvme_devices == old(self).nvme_devices,
                self.vm_ids == old(self).vm_ids,
                self.id == old(self).id,
                self.healthy == old(self).healthy,
                forall|j: int| 0 <= j < g ==> #[trigger] self.gpus@[j] == released_gpus(gpus, vm_id)[j],
                forall|j: int| g <= j < gpus.len() ==> #[trigger] self.gpus@[j] == gpus[j],
            decreases gpus.len() - g,
        {
            if self.gpus[g].assigned_to == Some(vm_id) {
                let mut gpu = self.gpus[g];
                gpu.assigned_to = None;
                self.gpus[g] = gpu;
            }
            g = g + 1;
        }
        proof {
            assert(self.gpus@ =~= released_gpus(gpus, vm_id));
        }

        // NVMe: give IOPS back greedily.
        let ghost devs = self.nvme_devices@;
        let ghost x = spec.nvme_iops as int;
        let mut remaining_iops: u32 = spec.nvme_iops;
        let mut d: usize = 0;
        while d < self.nvme_devices.len()
            invariant
                devs == old(self).nvme_devices@,
                x == spec.nvme_iops as int,
                0 <= d <= devs.len(),
                self.nvme_devices@.len() == devs.len(),
                self.numa_nodes@ == discharged_nodes(old(self).numa_nodes@, numa_node, *spec),
                self.gpus@ == released_gpus(old(self).gpus@, vm_id),
                self.vm_ids == old(self).vm_ids,
                self.id == old(self).id,
                self.healthy == old(self).healthy,
                remaining_iops as int == max_int(0, x - used_before(devs, d as int)),
                forall|j: int| 0 <= j < d ==> #[trigger] self.nvme_devices@[j] == returned_iops(devs, x)[j],
                forall|j: int| d <= j < devs.len() ==> #[trigger] self.nvme_devices@[j] == devs[j],
            decreases devs.len() - d,
        {
            proof {
                lemma_total_take_step(devs, iops_used_of(), d as int);
            }
            let mut dev = self.nvme_devices[d];
            let give_back = if remaining_iops < dev.used_iops { remaining_iops } else { dev.used_iops };
            dev.used_iops = dev.used_iops - give_back;
            remaining_iops = remaining_iops - give_back;
            self.nvme_devices[d] = dev;
            d = d + 1;
        }
        proof {
            assert(self.nvme_devices@ =~= returned_iops(devs, x));
        }

        // Forget the VM.
        let ghost ids = self.vm_ids@;
        let mut kept: Vec<VmId> = Vec::new();
        let mut v: usize = 0;
        while v < self.vm_ids.len()
            invariant
                ids == self.vm_ids@,
                0 <= v <= ids.len(),
                kept@ == ids.take(v as int).filter(other_than(vm_id)),
            decreases ids.len() - v,
        {
            proof {
                assert(ids.take(v as int + 1).drop_last() =~= ids.take(v as int));
                reveal_with_fuel(Seq::filter, 1);
            }
            let id = self.vm_ids[v];
            if id != vm_id {
                kept.push(id);
            }
            v = v + 1;
        }
        proof {
            assert(ids.take(ids.len() as int) =~= ids);
        }
        self.vm_ids = kept;
    }
}

// ---------------------------------------------------------------------------
// Laws of placement
// ---------------------------------------------------------------------------

/// No NUMA node has more CPU or memory in use than it has.
pub open spec fn nodes_within_capacity(nodes: Seq<NumaNode>) -> bool {
    forall|i: int|
        0 <= i < nodes.len() ==> {
            &&& #[trigger] nodes[i].cpu_used_millicores <= nodes[i].cpu_capacity_millicores
            &&& nodes[i].mem_used_mb <= nodes[i].mem_capacity_mb
        }
}

/// No NVMe controller has more IOPS in use than it can serve.
pub open spec fn devices_within_capacity(devs: Seq<NvmeDevice>) -> bool {
    forall|i: int| 0 <= i < devs.len() ==> #[trigger] devs[i].used_iops <= devs[i].max_iops
}

/// The host's accounting is within physical capacity.
pub open spec fn within_capacity(h: Host) -> bool {
    nodes_within_capacity(h.numa_nodes@) && devices_within_capacity(h.nvme_devices@)
}

/// Every NUMA node's id is its position, as `Host::new` numbers them.
pub open spec fn node_ids_are_positions(nodes: Seq<NumaNode>) -> bool {
    forall|i: int| 0 <= i < nodes.len() ==> #[trigger] nodes[i].id == i
}

/// `place` may be called: the node that would be charged does not overflow.
pub open spec fn place_fits_counters(h: Host, numa_node: u8, s: VmSpec) -> bool {
    forall|i: int|
        is_first_with_id(h.numa_nodes@, numa_node, i) ==> {
            &&& h.numa_nodes@[i].cpu_used_millicores + s.vcpu_millicores <= u32::MAX
            &&& h.numa_nodes@[i].mem_used_mb + s.mem_mb <= u64::MAX
        }
}

/// Reserving `x` IOPS adds `min(x, headroom)` to the IOPS in use.
pub proof fn lemma_reserved_total(devs: Seq<NvmeDevice>, x: int, n: int)
    requires
        0 <= n <= devs.len(),
        x >= 0,
    ensures
        total(reserved_iops(devs, x).take(n), iops_used_of()) == used_before(devs, n) + min_int(
            x,
            headroom_before(devs, n),
        ),
    decreases n,
{
    if n > 0 {
        lemma_reserved_total(devs, x, n - 1);
        lemma_total_take_step(reserved_iops(devs, x), iops_used_of(), n - 1);
        lemma_total_take_step(devs, iops_used_of(), n - 1);
        lemma_total_take_step(devs, iops_headroom_of(), n - 1);
        lemma_total_bounded(devs.take(n - 1), iops_headroom_of(), iops_headroom_of());
    } else {
        assert(reserved_iops(devs, x).take(0) =~= Seq::<NvmeDevice>::empty());
        assert(devs.take(0) =~= Seq::<NvmeDevice>::empty());
    }
}

/// Giving back `y` IOPS removes `min(y, in use)` from the IOPS in use.
pub proof fn lemma_returned_total(devs: Seq<NvmeDevice>, y: int, n: int)
    requires
        0 <= n <= devs.len(),
        y >= 0,
    ensures
        total(returned_iops(devs, y).take(n), iops_used_of()) == used_before(devs, n) - min_int(
            y,
            used_before(devs, n),
        ),
    decreases n,
{
    if n > 0 {
        lemma_returned_total(devs, y, n - 1);
        lemma_total_take_step(returned_iops(devs, y), iops_used_of(), n - 1);
        lemma_total_take_step(devs, iops_used_of(), n - 1);
        lemma_total_bounded(devs.take(n - 1), iops_used_of(), iops_used_of());
    } else {
        assert(returned_iops(devs, y).take(0) =~= Seq::<NvmeDevice>::empty());
        assert(devs.take(0) =~= Seq::<NvmeDevice>::empty());
    }
}

/// Keeps every id but `vm`.
pub open spec fn other_than(vm: VmId) -> spec_fn(VmId) -> bool {
    |x: VmId| x != vm
}

/// Removing an id that does not occur leaves a list unchanged.
pub proof fn lemma_filter_absent(ids: Seq<VmId>, vm: VmId)
    requires
        !ids.contains(vm),
    ensures
        ids.filter(other_than(vm)) == ids,
    decreases ids.len(),
{
    reveal_with_fuel(Seq::filter, 1);
    if ids.len() > 0 {
        let t = ids.drop_last();
        assert(!t.contains(vm)) by {
            if t.contains(vm) {
                let k = choose|k: int| 0 <= k < t.len() && t[k] == vm;
                assert(ids[k] == vm);
            }
        }
        lemma_filter_absent(t, vm);
        assert(ids.last() == ids[ids.len() - 1]);
        assert(t.push(ids.last()) =~= ids);
    } else {
        assert(ids =~= Seq::<VmId>::empty());
    }
}

/// Placing a VM on the node `best_numa_fit` picks keeps a host within
/// capacity: CPU, memory and IOPS are never over-committed, and a GPU that
/// was already assigned keeps its tenant.
pub proof fn lemma_place_stays_within_capacity(h: Host, vm: VmId, s: VmSpec)
    requires
        within_capacity(h),
        node_ids_are_positions(h.numa_nodes@),
        best_fit(h, s) is Some,
    ensures
        place_fits_counters(h, best_fit(h, s).unwrap(), s),
        nodes_within_capacity(charged_nodes(h.numa_nodes@, best_fit(h, s).unwrap(), s)),
        devices_within_capacity(reserved_iops(h.nvme_devices@, s.nvme_iops as int)),
        forall|i: int|
            0 <= i < h.gpus@.len() && (#[trigger] h.gpus@[i]).assigned_to is Some ==> assigned_gpus(
                h.gpus@,
                vm,
                s.gpu_count as int,
            )[i] == h.gpus@[i],
{
    let nodes = h.numa_nodes@;
    let b = choose|i: int| is_best_among(nodes, s, i, nodes.len() as int);
    assert(nodes[b].id == b);
    assert forall|i: int| is_first_with_id(nodes, best_fit(h, s).unwrap(), i) implies i == b by {
        assert(nodes[i].id == i);
    }
    let c = charged_nodes(nodes, best_fit(h, s).unwrap(), s);
    assert forall|i: int| 0 <= i < c.len() implies {
        &&& #[trigger] c[i].cpu_used_millicores <= c[i].cpu_capacity_millicores
        &&& c[i].mem_used_mb <= c[i].mem_capacity_mb
    } by {
        if i == b {
            assert(is_first_with_id(nodes, best_fit(h, s).unwrap(), b)) by {
                assert forall|j: int| 0 <= j < b implies #[trigger] nodes[j].id != best_fit(
                    h,
                    s,
                ).unwrap() by {
                    assert(nodes[j].id == j);
                }
            }
        }
    }
}

/// Releasing never over-commits: taking a VM off a host that is within
/// capacity leaves it within capacity.
pub proof fn lemma_release_stays_within_capacity(h: Host, numa_node: u8, s: VmSpec)
    requires
        within_capacity(h),
    ensures
        nodes_within_capacity(discharged_nodes(h.numa_nodes@, numa_node, s)),
        devices_within_capacity(returned_iops(h.nvme_devices@, s.nvme_iops as int)),
{
    let d = discharged_nodes(h.numa_nodes@, numa_node, s);
    assert forall|i: int| 0 <= i < d.len() implies {
        &&& #[trigger] d[i].cpu_used_millicores <= d[i].cpu_capacity_millicores
        &&& d[i].mem_used_mb <= d[i].mem_capacity_mb
    } by {
        assert(h.numa_nodes@[i].cpu_used_millicores <= h.numa_nodes@[i].cpu_capacity_millicores);
    }
    let r = returned_iops(h.nvme_devices@, s.nvme_iops as int);
    assert forall|i: int| 0 <= i < r.len() implies #[trigger] r[i].used_iops <= r[i].max_iops by {
        assert(h.nvme_devices@[i].used_iops <= h.nvme_devices@[i].max_iops);
    }
}

/// Releasing a VM right after placing it restores the host: the NUMA
/// nodes, the GPU pool and the VM list are exactly as before, and the IOPS
/// in use on the controllers add up to what they were (each controller
/// keeps its id and its limit).
pub proof fn lemma_release_undoes_place(h: Host, vm: VmId, numa_node: u8, s: VmSpec)
    requires
        place_fits_counters(h, numa_node, s),
        !h.vm_ids@.contains(vm),
        forall|i: int| 0 <= i < h.gpus@.len() ==> (#[trigger] h.gpus@[i]).assigned_to != Some(vm),
        total(h.nvme_devices@, iops_headroom_of()) >= s.nvme_iops,
    ensures
        discharged_nodes(charged_nodes(h.numa_nodes@, numa_node, s), numa_node, s)
            == h.numa_nodes@,
        released_gpus(assigned_gpus(h.gpus@, vm, s.gpu_count as int), vm) == h.gpus@,
        h.vm_ids@.push(vm).filter(other_than(vm)) == h.vm_ids@,
        returned_iops(reserved_iops(h.nvme_devices@, s.nvme_iops as int), s.nvme_iops as int).len()
            == h.nvme_devices@.len(),
        forall|i: int|
            0 <= i < h.nvme_devices@.len() ==> {
                &&& (#[trigger] returned_iops(
                    reserved_iops(h.nvme_devices@, s.nvme_iops as int),
                    s.nvme_iops as int,
                )[i]).id == h.nvme_devices@[i].id
                &&& returned_iops(
                    reserved_iops(h.nvme_devices@, s.nvme_iops as int),
                    s.nvme_iops as int,
                )[i].max_iops == h.nvme_devices@[i].max_iops
            },
        total(
            returned_iops(reserved_iops(h.nvme_devices@, s.nvme_iops as int), s.nvme_iops as int),
            iops_used_of(),
        ) == total(h.nvme_devices@, iops_used_of()),
        devices_within_capacity(h.nvme_devices@) ==> total(
            returned_iops(reserved_iops(h.nvme_devices@, s.nvme_iops as int), s.nvme_iops as int),
            iops_headroom_of(),
        ) == total(h.nvme_devices@, iops_headroom_of()),
{
    let nodes = h.numa_nodes@;
    let c = charged_nodes(nodes, numa_node, s);
    assert forall|i: int| 0 <= i < nodes.len() implies is_first_with_id(c, numa_node, i)
        == is_first_with_id(nodes, numa_node, i) by {
        assert forall|j: int| 0 <= j < i implies #[trigger] c[j].id == nodes[j].id by {}
        if is_first_with_id(c, numa_node, i) {
            assert forall|j: int| 0 <= j < i implies #[trigger] nodes[j].id != numa_node by {
                assert(c[j].id == nodes[j].id);
            }
        }
    }
    assert(discharged_nodes(c, numa_node, s) =~= nodes);
    assert(released_gpus(assigned_gpus(h.gpus@, vm, s.gpu_count as int), vm) =~= h.gpus@);

    reveal_with_fuel(Seq::filter, 1);
    assert(h.vm_ids@.push(vm).drop_last() =~= h.vm_ids@);
    lemma_filter_absent(h.vm_ids@, vm);

    let devs = h.nvme_devices@;
    let x = s.nvme_iops as int;
    let r = reserved_iops(devs, x);
    lemma_reserved_total(devs, x, devs.len() as int);
    lemma_total_take_all(r, iops_used_of());
    lemma_total_take_all(devs, iops_used_of());
    lemma_total_take_all(devs, iops_headroom_of());
    lemma_returned_total(r, x, r.len() as int);
    lemma_total_take_all(returned_iops(r, x), iops_used_of());
    lemma_total_bounded(devs, iops_used_of(), iops_used_of());
    if devices_within_capacity(devs) {
        let back = returned_iops(r, x);
        assert forall|k: int| 0 <= k < back.len() implies #[trigger] back[k].used_iops
            <= back[k].max_iops by {
            assert(devs[k].used_iops <= devs[k].max_iops);
        }
        lemma_headroom_total(devs);
        lemma_headroom_total(back);
        lemma_total_pointwise_eq(back, iops_max_of(), devs, iops_max_of());
    }
}

/// Within capacity, the IOPS headroom of a set of controllers is their
/// total limit less what is in use.
pub proof fn lemma_headroom_total(devs: Seq<NvmeDevice>)
    requires
        devices_within_capacity(devs),
    ensures
        total(devs, iops_headroom_of()) == total(devs, iops_max_of()) - total(devs, iops_used_of()),
    decreases devs.len(),
{
    if devs.len() > 0 {
        let t = devs.drop_last();
        assert forall|k: int| 0 <= k < t.len() implies #[trigger] t[k].used_iops <= t[k].max_iops by {
            assert(t[k] == devs[k]);
        }
        lemma_headroom_total(t);
        assert(devs.last() == devs[devs.len() - 1]);
    }
}

// ---------------------------------------------------------------------------
// Sound hosts
// ---------------------------------------------------------------------------

/// A host whose accounting the cluster can rely on: within capacity, NUMA
/// nodes numbered by position, and capacity sums that fit the counters
/// they are added up in.
pub open spec fn host_sound(h: Host) -> bool {
    &&& within_capacity(h)
    &&& node_ids_are_positions(h.numa_nodes@)
    &&& total(h.numa_nodes@, cpu_capacity_of()) <= u32::MAX
    &&& total(h.numa_nodes@, mem_capacity_of()) <= u64::MAX
    &&& total(h.nvme_devices@, iops_max_of()) <= u32::MAX
}

/// A sum of one repeated value is that value times the count.
pub proof fn lemma_total_constant<A>(s: Seq<A>, f: spec_fn(A) -> int, c: int)
    requires
        forall|k: int| 0 <= k < s.len() ==> f(#[trigger] s[k]) == c,
    ensures
        total(s, f) == s.len() * c,
    decreases s.len(),
{
    if s.len() > 0 {
        let t = s.drop_last();
        assert forall|k: int| 0 <= k < t.len() implies f(#[trigger] t[k]) == c by {
            assert(t[k] == s[k]);
        }
        lemma_total_constant(t, f, c);
        assert(s.last() == s[s.len() - 1]);
        assert((s.len() - 1) * c + c == s.len() * c) by (nonlinear_arith);
    }
}

/// On a sound host, the sums the host's queries compute all fit their
/// counters, and `best_numa_fit` can always run.
pub proof fn lemma_sound_sums(h: Host)
    requires
        host_sound(h),
    ensures
        total(h.numa_nodes@, cpu_used_of()) <= total(h.numa_nodes@, cpu_capacity_of()),
        total(h.numa_nodes@, mem_used_of()) <= total(h.numa_nodes@, mem_capacity_of()),
        total(h.nvme_devices@, iops_used_of()) <= total(h.nvme_devices@, iops_max_of()),
        total(h.nvme_devices@, iops_headroom_of()) <= total(h.nvme_devices@, iops_max_of()),
        total(h.nvme_devices@, iops_headroom_of()) <= u32::MAX,
{
    let nodes = h.numa_nodes@;
    let devs = h.nvme_devices@;
    assert forall|k: int| 0 <= k < nodes.len() implies 0 <= cpu_used_of()(#[trigger] nodes[k])
        <= cpu_capacity_of()(nodes[k]) by {}
    lemma_total_bounded(nodes, cpu_used_of(), cpu_capacity_of());
    assert forall|k: int| 0 <= k < nodes.len() implies 0 <= mem_used_of()(#[trigger] nodes[k])
        <= mem_capacity_of()(nodes[k]) by {}
    lemma_total_bounded(nodes, mem_used_of(), mem_capacity_of());
    assert forall|k: int| 0 <= k < devs.len() implies 0 <= iops_used_of()(#[trigger] devs[k])
        <= iops_max_of()(devs[k]) by {}
    lemma_total_bounded(devs, iops_used_of(), iops_max_of());
    assert forall|k: int| 0 <= k < devs.len() implies 0 <= iops_headroom_of()(#[trigger] devs[k])
        <= iops_max_of()(devs[k]) by {}
    lemma_total_bounded(devs, iops_headroom_of(), iops_max_of());
}

/// A host straight from `Host::new` is sound when its capacities add up
/// within their counters.
pub proof fn lemma_new_host_sound(
    h: Host,
    id: HostId,
    numa_node_count: u8,
    cpu_per_numa: u32,
    mem_per_numa: u64,
    gpu_count: u8,
    nvme_count: u8,
    nvme_max_iops: u32,
)
    requires
        is_new_host(
            h,
            id,
            numa_node_count,
            cpu_per_numa,
            mem_per_numa,
            gpu_count,
            nvme_count,
            nvme_max_iops,
        ),
        numa_node_count * cpu_per_numa <= u32::MAX,
        numa_node_count * mem_per_numa <= u64::MAX,
        nvme_count * nvme_max_iops <= u32::MAX,
    ensures
        host_sound(h),
{
    let nodes = h.numa_nodes@;
    let devs = h.nvme_devices@;
    assert forall|k: int| 0 <= k < nodes.len() implies cpu_capacity_of()(#[trigger] nodes[k])
        == cpu_per_numa by {}
    lemma_total_constant(nodes, cpu_capacity_of(), cpu_per_numa as int);
    assert forall|k: int| 0 <= k < nodes.len() implies mem_capacity_of()(#[trigger] nodes[k])
        == mem_per_numa by {}
    lemma_total_constant(nodes, mem_capacity_of(), mem_per_numa as int);
    assert forall|k: int| 0 <= k < devs.len() implies iops_max_of()(#[trigger] devs[k])
        == nvme_max_iops by {}
    lemma_total_constant(devs, iops_max_of(), nvme_max_iops as int);
}

/// Placing a VM where `best_numa_fit` says keeps a sound host sound.
pub proof fn lemma_place_keeps_sound(h: Host, after: Host, vm: VmId, s: VmSpec)
    requires
        host_sound(h),
        best_fit(h, s) is Some,
        placed(h, after, vm, best_fit(h, s).unwrap(), s),
    ensures
        host_sound(after),
{
    lemma_place_stays_within_capacity(h, vm, s);
    let n = best_fit(h, s).unwrap();
    let c = charged_nodes(h.numa_nodes@, n, s);
    assert forall|k: int| 0 <= k < c.len() implies cpu_capacity_of()(#[trigger] c[k])
        == cpu_capacity_of()(h.numa_nodes@[k]) by {}
    lemma_total_pointwise_eq(c, cpu_capacity_of(), h.numa_nodes@, cpu_capacity_of());
    assert forall|k: int| 0 <= k < c.len() implies mem_capacity_of()(#[trigger] c[k])
        == mem_capacity_of()(h.numa_nodes@[k]) by {}
    lemma_total_pointwise_eq(c, mem_capacity_of(), h.numa_nodes@, mem_capacity_of());
    let r = reserved_iops(h.nvme_devices@, s.nvme_iops as int);
    assert forall|k: int| 0 <= k < r.len() implies iops_max_of()(#[trigger] r[k])
        == iops_max_of()(h.nvme_devices@[k]) by {}
    lemma_total_pointwise_eq(r, iops_max_of(), h.nvme_devices@, iops_max_of());
}

/// Taking a VM off a sound host keeps it sound.
pub proof fn lemma_release_keeps_sound(h: Host, after: Host, vm: VmId, numa_node: u8, s: VmSpec)
    requires
        host_sound(h),
        released(h, after, vm, numa_node, s),
    ensures
        host_sound(after),
{
    lemma_release_stays_within_capacity(h, numa_node, s);
    let c = discharged_nodes(h.numa_nodes@, numa_node, s);
    assert forall|k: int| 0 <= k < c.len() implies cpu_capacity_of()(#[trigger] c[k])
        == cpu_capacity_of()(h.numa_nodes@[k]) by {}
    lemma_total_pointwise_eq(c, cpu_capacity_of(), h.numa_nodes@, cpu_capacity_of());
    assert forall|k: int| 0 <= k < c.len() implies mem_capacity_of()(#[trigger] c[k])
        == mem_capacity_of()(h.numa_nodes@[k]) by {}
    lemma_total_pointwise_eq(c, mem_capacity_of(), h.numa_nodes@, mem_capacity_of());
    let r = returned_iops(h.nvme_devices@, s.nvme_iops as int);
    assert forall|k: int| 0 <= k < r.len() implies iops_max_of()(#[trigger] r[k])
        == iops_max_of()(h.nvme_devices@[k]) by {}
    lemma_total_pointwise_eq(r, iops_max_of(), h.nvme_devices@, iops_max_of());
}

/// A released VM is gone from its host: it is no longer in the host's VM
/// list and holds none of its GPUs.
pub proof fn lemma_release_forgets_vm(before: Host, after: Host, vm: VmId, numa_node: u8, s: VmSpec)
    requires
        released(before, after, vm, numa_node, s),
    ensures
        !after.vm_ids@.contains(vm),
        forall|i: int| 0 <= i < after.gpus@.len() ==> (#[trigger] after.gpus@[i]).assigned_to != Some(vm),
{
    if after.vm_ids@.contains(vm) {
        let k = choose|k: int| 0 <= k < after.vm_ids@.len() && after.vm_ids@[k] == vm;
        before.vm_ids@.lemma_filter_pred(other_than(vm), k);
    }
}

// ---------------------------------------------------------------------------
// What placing and releasing do
// ---------------------------------------------------------------------------

/// Replacing one element changes a sum by the difference of their values.
pub proof fn lemma_total_update<A>(s: Seq<A>, f: spec_fn(A) -> int, i: int, x: A)
    requires
        0 <= i < s.len(),
    ensures
        total(s.update(i, x), f) == total(s, f) - f(s[i]) + f(x),
    decreases s.len(),
{
    let u = s.update(i, x);
    if i == s.len() - 1 {
        assert(u.drop_last() =~= s.drop_last());
        assert(u.last() == x);
    } else {
        assert(u.drop_last() =~= s.drop_last().update(i, x));
        lemma_total_update(s.drop_last(), f, i, x);
        assert(u.last() == s.last());
        assert(s.drop_last()[i] == s[i]);
    }
}

/// Handing the first `k` unassigned GPUs to a VM leaves `min(k, free)`
/// fewer unassigned GPUs (counting over the first `n`).
pub proof fn lemma_assigned_free_count(gpus: Seq<GpuDevice>, vm: VmId, k: int, n: int)
    requires
        0 <= n <= gpus.len(),
        k >= 0,
    ensures
        total(assigned_gpus(gpus, vm, k).take(n), free_gpu_of()) == free_gpus_before(gpus, n)
            - min_int(k, free_gpus_before(gpus, n)),
    decreases n,
{
    if n > 0 {
        lemma_assigned_free_count(gpus, vm, k, n - 1);
        lemma_total_take_step(assigned_gpus(gpus, vm, k), free_gpu_of(), n - 1);
        lemma_total_take_step(gpus, free_gpu_of(), n - 1);
    } else {
        assert(assigned_gpus(gpus, vm, k).take(0) =~= Seq::<GpuDevice>::empty());
        assert(gpus.take(0) =~= Seq::<GpuDevice>::empty());
    }
}

/// Placing a VM of spec `s` on node `numa_node` of a host charges exactly
/// the VM's CPU and memory to the first node with that id (the host's CPU
/// and memory in use rise by exactly that much), leaves every other node
/// alone, assigns `min(gpu_count, free)` of the GPUs that were free to the
/// VM and touches no GPU that was assigned, puts
/// `min(nvme_iops, IOPS headroom)` more IOPS in use over the controllers
/// without changing their limits, and appends the VM to the host's list.
pub proof fn lemma_place_charges(before: Host, after: Host, vm: VmId, numa_node: u8, s: VmSpec)
    requires
        placed(before, after, vm, numa_node, s),
        place_fits_counters(before, numa_node, s),
    ensures
        after.numa_nodes@.len() == before.numa_nodes@.len(),
        forall|i: int|
            0 <= i < before.numa_nodes@.len() ==> {
                let b = before.numa_nodes@[i];
                let a = #[trigger] after.numa_nodes@[i];
                &&& a.id == b.id
                &&& a.cpu_capacity_millicores == b.cpu_capacity_millicores
                &&& a.mem_capacity_mb == b.mem_capacity_mb
                &&& if is_first_with_id(before.numa_nodes@, numa_node, i) {
                    &&& a.cpu_used_millicores == b.cpu_used_millicores + s.vcpu_millicores
                    &&& a.mem_used_mb == b.mem_used_mb + s.mem_mb
                } else {
                    a == b
                }
            },
        (exists|i: int| is_first_with_id(before.numa_nodes@, numa_node, i)) ==> {
            &&& total(after.numa_nodes@, cpu_used_of()) == total(before.numa_nodes@, cpu_used_of())
                + s.vcpu_millicores
            &&& total(after.numa_nodes@, mem_used_of()) == total(before.numa_nodes@, mem_used_of())
                + s.mem_mb
        },
        after.gpus@.len() == before.gpus@.len(),
        total(after.gpus@, free_gpu_of()) == total(before.gpus@, free_gpu_of()) - min_int(
            s.gpu_count as int,
            total(before.gpus@, free_gpu_of()),
        ),
        forall|i: int|
            0 <= i < before.gpus@.len() ==> {
                let b = before.gpus@[i];
                let a = #[trigger] after.gpus@[i];
                &&& a.id == b.id
                &&& b.assigned_to is Some ==> a == b
                &&& a.assigned_to != b.assigned_to ==> a.assigned_to == Some(vm)
            },
        after.nvme_devices@.len() == before.nvme_devices@.len(),
        forall|i: int|
            0 <= i < before.nvme_devices@.len() ==> (#[trigger] after.nvme_devices@[i]).max_iops
                == before.nvme_devices@[i].max_iops && after.nvme_devices@[i].used_iops
                >= before.nvme_devices@[i].used_iops,
        total(after.nvme_devices@, iops_used_of()) == total(before.nvme_devices@, iops_used_of())
            + min_int(s.nvme_iops as int, total(before.nvme_devices@, iops_headroom_of())),
        after.vm_ids@ == before.vm_ids@.push(vm),
{
    let nodes = before.numa_nodes@;
    if exists|i: int| is_first_with_id(nodes, numa_node, i) {
        let i = choose|i: int| is_first_with_id(nodes, numa_node, i);
        let c = nodes[i];
        let nc = NumaNode {
            cpu_used_millicores: (c.cpu_used_millicores + s.vcpu_millicores) as u32,
            mem_used_mb: (c.mem_used_mb + s.mem_mb) as u64,
            ..c
        };
        assert forall|j: int| 0 <= j < nodes.len() && j != i implies !is_first_with_id(nodes, numa_node, j) by {
            if j < i {
            } else {
                assert(nodes[i].id == numa_node);
            }
        }
        assert(after.numa_nodes@ =~= nodes.update(i, nc));
        lemma_total_update(nodes, cpu_used_of(), i, nc);
        lemma_total_update(nodes, mem_used_of(), i, nc);
    }
    lemma_assigned_free_count(before.gpus@, vm, s.gpu_count as int, before.gpus@.len() as int);
    lemma_total_take_all(after.gpus@, free_gpu_of());
    lemma_total_take_all(before.gpus@, free_gpu_of());
    let devs = before.nvme_devices@;
    lemma_reserved_total(devs, s.nvme_iops as int, devs.len() as int);
    lemma_total_take_all(after.nvme_devices@, iops_used_of());
    lemma_total_take_all(devs, iops_used_of());
    lemma_total_take_all(devs, iops_headroom_of());
}

/// Releasing a VM of spec `s` from node `numa_node` of a host takes the
/// VM's CPU and memory off the first node with that id (never below zero)
/// and leaves every other node alone, frees exactly the GPUs the VM held,
/// puts `min(nvme_iops, IOPS in use)` fewer IOPS in use over the
/// controllers without changing their limits, and drops exactly the VM
/// from the host's list.
pub proof fn lemma_release_returns(before: Host, after: Host, vm: VmId, numa_node: u8, s: VmSpec)
    requires
        released(before, after, vm, numa_node, s),
    ensures
        after.numa_nodes@.len() == before.numa_nodes@.len(),
        forall|i: int|
            0 <= i < before.numa_nodes@.len() ==> {
                let b = before.numa_nodes@[i];
                let a = #[trigger] after.numa_nodes@[i];
                &&& a.id == b.id
                &&& a.cpu_capacity_millicores == b.cpu_capacity_millicores
                &&& a.mem_capacity_mb == b.mem_capacity_mb
                &&& if is_first_with_id(before.numa_nodes@, numa_node, i) {
                    &&& a.cpu_used_millicores == if b.cpu_used_millicores >= s.vcpu_millicores {
                        b.cpu_used_millicores - s.vcpu_millicores
                    } else {
                        0
                    }
                    &&& a.mem_used_mb == if b.mem_used_mb >= s.mem_mb {
                        b.mem_used_mb - s.mem_mb
                    } else {
                        0
                    }
                } else {
                    a == b
                }
            },
        after.gpus@.len() == before.gpus@.len(),
        forall|i: int|
            0 <= i < before.gpus@.len() ==> {
                let b = before.gpus@[i];
                let a = #[trigger] after.gpus@[i];
                &&& a.id == b.id
                &&& a.assigned_to == if b.assigned_to == Some(vm) {
                    None
                } else {
                    b.assigned_to
                }
            },
        after.nvme_devices@.len() == before.nvme_devices@.len(),
        forall|i: int|
            0 <= i < before.nvme_devices@.len() ==> (#[trigger] after.nvme_devices@[i]).max_iops
                == before.nvme_devices@[i].max_iops && after.nvme_devices@[i].used_iops
                <= before.nvme_devices@[i].used_iops,
        total(after.nvme_devices@, iops_used_of()) == total(before.nvme_devices@, iops_used_of())
            - min_int(s.nvme_iops as int, total(before.nvme_devices@, iops_used_of())),
        !after.vm_ids@.contains(vm),
        forall|y: VmId| y != vm ==> (after.vm_ids@.contains(y) <==> before.vm_ids@.contains(y)),
{
    let devs = before.nvme_devices@;
    lemma_returned_total(devs, s.nvme_iops as int, devs.len() as int);
    lemma_total_take_all(after.nvme_devices@, iops_used_of());
    lemma_total_take_all(devs, iops_used_of());
    lemma_release_forgets_vm(before, after, vm, numa_node, s);
    assert forall|y: VmId| y != vm implies (after.vm_ids@.contains(y) <==> before.vm_ids@.contains(y)) by {
        let ids = before.vm_ids@;
        if after.vm_ids@.contains(y) {
            ids.lemma_filter_contains_rev(other_than(vm), y);
        }
        if ids.contains(y) {
            let k = choose|k: int| 0 <= k < ids.len() && ids[k] == y;
            ids.lemma_filter_contains(other_than(vm), k);
        }
    }
}

} // verus!
