use vstd::prelude::*;

use rand::rngs::StdRng;
use std::collections::VecDeque;

use crate::autoscaler::{step, Autoscaler, LoadLevel, ScalingEvent};
use crate::events::{Severity, SimEvent};
use crate::host::{
    best_fit, free_gpu_of, host_sound, is_new_host, lemma_total_bounded, lemma_total_constant,
    lemma_total_prefix_mono, lemma_total_take_all, lemma_total_take_step, total, lemma_new_host_sound, lemma_place_keeps_sound,
    lemma_place_stays_within_capacity, lemma_release_keeps_sound, lemma_sound_sums, placed,
    other_than, released, within_capacity, GpuDevice, Host, HostId,
};
use crate::random::{chance, seeded_rng, uniform_u32};
use crate::scheduler::{
    choose_host, eligible, fit_computable, is_first_eligible, is_ranking, rejection,
    scheduling_computable, SchedulerError,
};
use crate::vm::{
    spec_from_draws, Vm, VmId, VmSpec, VmState, GPU_HEAVY_ODDS, GPU_HEAVY_OUT_OF, JITTER_MAX_PERCENT,
    JITTER_MIN_PERCENT,
};

verus! {

/// The event log keeps at most this many of the most recent events.
pub const EVENT_LOG_CAPACITY: usize = 150;

/// Shape of the fleet and the autoscaler's integer settings.
#[derive(Debug, Clone, Copy)]
pub struct ClusterConfig {
    pub host_count: u32,
    pub numa_nodes_per_host: u8,
    pub cpu_millicores_per_numa: u32,
    pub mem_mb_per_numa: u64,
    pub gpus_per_host: u8,
    pub nvme_per_host: u8,
    pub nvme_max_iops: u32,
    pub seed: u64,
    /// Evaluations the autoscaler stays quiet after each decision.
    pub cooldown_ticks: u32,
    /// VMs added per scale-out decision.
    pub scale_out_batch: u32,
}

impl Default for ClusterConfig {
    fn default() -> (c: Self)
        ensures
            c == (ClusterConfig {
                host_count: 12,
                numa_nodes_per_host: 2,
                cpu_millicores_per_numa: 16_000,
                mem_mb_per_numa: 131_072,
                gpus_per_host: 2,
                nvme_per_host: 2,
                nvme_max_iops: 500_000,
                seed: 42,
                cooldown_ticks: 5,
                scale_out_batch: 3,
            }),
    {
        ClusterConfig {
            host_count: 12,
            numa_nodes_per_host: 2,
            cpu_millicores_per_numa: 16_000,
            mem_mb_per_numa: 131_072,
            gpus_per_host: 2,
            nvme_per_host: 2,
            nvme_max_iops: 500_000,
            seed: 42,
            cooldown_ticks: 5,
            scale_out_batch: 3,
        }
    }
}

/// Each host's capacities add up within the counters they are summed in
/// (always true of an empty fleet).
pub open spec fn config_fits(c: ClusterConfig) -> bool {
    c.host_count == 0 || {
        &&& c.numa_nodes_per_host * c.cpu_millicores_per_numa <= u32::MAX
        &&& c.numa_nodes_per_host * c.mem_mb_per_numa <= u64::MAX
        &&& c.nvme_per_host * c.nvme_max_iops <= u32::MAX
    }
}

/// The fleet's state: hosts and their accounting, placed VMs,
/// anti-affinity bookkeeping, the autoscaler, the seeded generator, the
/// bounded event log and the running counters.
pub struct Cluster {
    pub config: ClusterConfig,
    pub hosts: Vec<Host>,
    pub vms: Vec<Vm>,
    /// Anti-affinity group and host of every placed group member.
    pub anti_affinity_placements: Vec<(u32, HostId)>,
    pub autoscaler: Autoscaler,
    pub rng: StdRng,
    pub next_vm_id: VmId,
    pub tick_count: u64,
    pub events: VecDeque<SimEvent>,
    pub scale_out_events_total: u64,
    pub scale_in_events_total: u64,
    pub migrations_total: u64,
    pub placement_failures_total: u64,
}

/// The hosts holding resources of `vm`: its own host while it runs, its
/// own host and its target while it migrates, none once terminated.
pub open spec fn holds_resources(vm: Vm, j: int) -> bool {
    match vm.state {
        VmState::Running => j == vm.host_id,
        VmState::Migrating { target_host, .. } => j == vm.host_id || j == target_host,
        VmState::Terminated => false,
    }
}

/// A VM record names hosts of a fleet of `n` hosts: a live VM's own host
/// exists, and a migrating VM's target exists and differs from it.
pub open spec fn record_in_fleet(vm: Vm, n: int) -> bool {
    &&& (vm.state !is Terminated ==> vm.host_id < n)
    &&& (vm.state matches VmState::Migrating { target_host, .. } ==> target_host < n
        && target_host != vm.host_id)
}

/// Some VM of `vms` has id `id`.
pub open spec fn has_vm_with_id(vms: Seq<Vm>, id: VmId) -> bool {
    exists|v: int| 0 <= v < vms.len() && (#[trigger] vms[v]).id == id
}

/// Appending `x` adds exactly `x` to what a list contains.
pub proof fn lemma_push_contains(s: Seq<VmId>, x: VmId, y: VmId)
    ensures
        s.push(x).contains(y) <==> (s.contains(y) || y == x),
{
    if s.contains(y) {
        let k = choose|k: int| 0 <= k < s.len() && s[k] == y;
        assert(s.push(x)[k] == y);
    }
    if y == x {
        assert(s.push(x)[s.len() as int] == x);
    }
    if s.push(x).contains(y) {
        let k = choose|k: int| 0 <= k < s.push(x).len() && s.push(x)[k] == y;
        if k < s.len() {
            assert(s[k] == y);
        }
    }
}

/// Removing `vm` from a list removes exactly `vm` from what it contains.
pub proof fn lemma_filter_other_contains(s: Seq<VmId>, vm: VmId, y: VmId)
    ensures
        s.filter(other_than(vm)).contains(y) <==> (s.contains(y) && y != vm),
{
    if s.filter(other_than(vm)).contains(y) {
        s.lemma_filter_contains_rev(other_than(vm), y);
        let k = choose|k: int| 0 <= k < s.filter(other_than(vm)).len() && s.filter(other_than(vm))[k] == y;
        s.lemma_filter_pred(other_than(vm), k);
    }
    if s.contains(y) && y != vm {
        let k = choose|k: int| 0 <= k < s.len() && s[k] == y;
        s.lemma_filter_contains(other_than(vm), k);
    }
}

/// The counters and settings an operation leaves alone.
pub open spec fn same_bookkeeping(a: Cluster, b: Cluster) -> bool {
    &&& b.config == a.config
    &&& b.autoscaler == a.autoscaler
    &&& b.tick_count == a.tick_count
    &&& b.events@ == a.events@
    &&& b.scale_out_events_total == a.scale_out_events_total
    &&& b.scale_in_events_total == a.scale_in_events_total
    &&& b.migrations_total == a.migrations_total
    &&& b.placement_failures_total == a.placement_failures_total
}

/// The fleet's placements (hosts, VMs, anti-affinity records, ids) are
/// unchanged.
pub open spec fn same_fleet(a: Cluster, b: Cluster) -> bool {
    &&& b.hosts@ == a.hosts@
    &&& b.vms@ == a.vms@
    &&& b.anti_affinity_placements@ == a.anti_affinity_placements@
    &&& b.next_vm_id == a.next_vm_id
}

/// The anti-affinity records after a VM of spec `s` lands on `host`.
pub open spec fn recorded_group(
    placements: Seq<(u32, HostId)>,
    s: VmSpec,
    host: HostId,
) -> Seq<(u32, HostId)> {
    match s.anti_affinity_group {
        Some(group) => placements.push((group, host)),
        None => placements,
    }
}

impl Cluster {
    /// The fleet's invariant: one host per configured id, numbered by
    /// position, every host sound (in particular never over-committed),
    /// VM ids distinct and below the next id to hand out, and the event log
    /// within its capacity, in order of tick, and never ahead of the clock.
    pub open spec fn wf(&self) -> bool {
        &&& self.hosts@.len() == self.config.host_count
        &&& forall|i: int|
            0 <= i < self.hosts@.len() ==> {
                &&& (#[trigger] self.hosts@[i]).id == i
                &&& host_sound(self.hosts@[i])
            }
        &&& forall|v: int| 0 <= v < self.vms@.len() ==> (#[trigger] self.vms@[v]).id < self.next_vm_id
        &&& forall|v: int, w: int|
            0 <= v < self.vms@.len() && 0 <= w < self.vms@.len() && v != w ==> (#[trigger] self.vms@[v]).id
                != (#[trigger] self.vms@[w]).id
        &&& self.events@.len() <= EVENT_LOG_CAPACITY
        &&& forall|e: int, f: int|
            0 <= e <= f < self.events@.len() ==> (#[trigger] self.events@[e]).tick
                <= (#[trigger] self.events@[f]).tick
        &&& forall|e: int| 0 <= e < self.events@.len() ==> (#[trigger] self.events@[e]).tick <= self.tick_count
        &&& self.listings_match()
    }

    /// Hosts list exactly the VMs whose resources they hold. A live VM's
    /// record names an existing host; a migrating VM's target is another
    /// existing host. Host `j` lists VM `v` exactly when it holds it: a
    /// running VM is listed by its own host only, a migrating VM by its
    /// source and its target only, a terminated VM by none. Every listed id
    /// is the id of a VM of the fleet.
    pub open spec fn listings_match(&self) -> bool {
        &&& forall|v: int|
            0 <= v < self.vms@.len() ==> record_in_fleet(#[trigger] self.vms@[v], self.hosts@.len() as int)
        &&& forall|v: int, j: int|
            #![trigger self.vms@[v], self.hosts@[j]]
            0 <= v < self.vms@.len() && 0 <= j < self.hosts@.len() ==> (
            self.hosts@[j].vm_ids@.contains(self.vms@[v].id) <==> holds_resources(self.vms@[v], j))
        &&& forall|j: int, k: int|
            0 <= j < self.hosts@.len() && 0 <= k < self.hosts@[j].vm_ids@.len() ==> has_vm_with_id(
                self.vms@,
                #[trigger] self.hosts@[j].vm_ids@[k],
            )
    }

    /// The listings depend on the VMs and the hosts' VM lists only.
    pub proof fn lemma_listings_frame(&self, other: Cluster)
        requires
            self.listings_match(),
            other.hosts@.len() == self.hosts@.len(),
            forall|j: int| 0 <= j < self.hosts@.len() ==> #[trigger] other.hosts@[j].vm_ids@ == self.hosts@[j].vm_ids@,
            other.vms@ == self.vms@,
        ensures
            other.listings_match(),
    {
        assert forall|v: int| 0 <= v < other.vms@.len() implies record_in_fleet(
            #[trigger] other.vms@[v],
            other.hosts@.len() as int,
        ) by {
            assert(other.vms@[v] == self.vms@[v]);
        }
        assert forall|v: int, j: int|
            #![trigger other.vms@[v], other.hosts@[j]]
            0 <= v < other.vms@.len() && 0 <= j < other.hosts@.len() implies (
            other.hosts@[j].vm_ids@.contains(other.vms@[v].id) <==> holds_resources(other.vms@[v], j)) by {
            assert(other.hosts@[j].vm_ids@ == self.hosts@[j].vm_ids@);
            assert(other.vms@[v] == self.vms@[v]);
            assert(self.hosts@[j] == self.hosts@[j]);
        }
        assert forall|j: int, k: int|
            0 <= j < other.hosts@.len() && 0 <= k < other.hosts@[j].vm_ids@.len() implies has_vm_with_id(
                other.vms@,
                #[trigger] other.hosts@[j].vm_ids@[k],
            ) by {
            assert(other.hosts@[j].vm_ids@ == self.hosts@[j].vm_ids@);
            assert(self.hosts@[j].vm_ids@[k] == other.hosts@[j].vm_ids@[k]);
        }
    }

    /// A host that holds no VM's resources lists no VM: once every VM on a
    /// failed host has been moved away (or terminated) and none is on its
    /// way there, the host is empty.
    pub proof fn lemma_unheld_host_is_empty(&self, j: int)
        requires
            self.wf(),
            0 <= j < self.hosts@.len(),
            forall|v: int| 0 <= v < self.vms@.len() ==> !holds_resources(#[trigger] self.vms@[v], j),
        ensures
            self.hosts@[j].vm_ids@.len() == 0,
    {
        if self.hosts@[j].vm_ids@.len() > 0 {
            let k = 0int;
            assert(has_vm_with_id(self.vms@, self.hosts@[j].vm_ids@[k]));
            let v = choose|v: int|
                0 <= v < self.vms@.len() && (#[trigger] self.vms@[v]).id == self.hosts@[j].vm_ids@[k];
            assert(self.hosts@[j].vm_ids@.contains(self.vms@[v].id));
            assert(!holds_resources(self.vms@[v], j));
        }
    }

    /// No host of a well-formed fleet is over-committed: every NUMA node's
    /// CPU and memory in use and every NVMe controller's IOPS in use stay
    /// within capacity. Every operation of the fleet keeps it well-formed.
    pub proof fn lemma_never_overcommitted(&self)
        requires
            self.wf(),
        ensures
            forall|i: int| 0 <= i < self.hosts@.len() ==> within_capacity(#[trigger] self.hosts@[i]),
    {
    }

    /// In a well-formed fleet the scheduler can evaluate every host.
    pub proof fn lemma_schedulable(&self, s: VmSpec)
        requires
            self.wf(),
        ensures
            forall|g: Seq<(u32, HostId)>| scheduling_computable(self.hosts@, s, g),
    {
        assert forall|i: int| 0 <= i < self.hosts@.len() implies fit_computable(
            #[trigger] self.hosts@[i],
            s,
        ) by {
            lemma_sound_sums(self.hosts@[i]);
        }
    }

    /// A fleet of `config.host_count` fresh hosts numbered from zero, no
    /// VMs, an autoscaler that may decide at once, a generator seeded from
    /// `config.seed`, and an empty event log. Seeding the fleet with its
    /// initial load (`initial_load_target` VMs placed one by one) and the
    /// first log entry are the caller's, since each placement needs the
    /// caller's host ranking.
    pub fn new(config: ClusterConfig) -> (c: Self)
        requires
            config_fits(config),
        ensures
            c.wf(),
            c.config == config,
            forall|i: int|
                0 <= i < config.host_count ==> is_new_host(
                    #[trigger] c.hosts@[i],
                    i as u32,
                    config.numa_nodes_per_host,
                    config.cpu_millicores_per_numa,
                    config.mem_mb_per_numa,
                    config.gpus_per_host,
                    config.nvme_per_host,
                    config.nvme_max_iops,
                ),
            c.vms@.len() == 0,
            c.anti_affinity_placements@.len() == 0,
            c.autoscaler == (Autoscaler {
                cooldown_ticks: config.cooldown_ticks,
                scale_out_batch: config.scale_out_batch,
                cooldown_remaining: 0,
            }),
            c.next_vm_id == 1,
            c.tick_count == 0,
            c.events@.len() == 0,
            c.scale_out_events_total == 0,
            c.scale_in_events_total == 0,
            c.migrations_total == 0,
            c.placement_failures_total == 0,
    {
        let mut hosts: Vec<Host> = Vec::new();
        let mut id: u32 = 0;
        while id < config.host_count
            invariant
                config_fits(config),
                id <= config.host_count,
                hosts@.len() == id,
                forall|i: int|
                    0 <= i < id ==> is_new_host(
                        #[trigger] hosts@[i],
                        i as u32,
                        config.numa_nodes_per_host,
                        config.cpu_millicores_per_numa,
                        config.mem_mb_per_numa,
                        config.gpus_per_host,
                        config.nvme_per_host,
                        config.nvme_max_iops,
                    ) && host_sound(hosts@[i]),
            decreases config.host_count - id,
        {
            let h = Host::new(
                id,
                config.numa_nodes_per_host,
                config.cpu_millicores_per_numa,
                config.mem_mb_per_numa,
                config.gpus_per_host,
                config.nvme_per_host,
                config.nvme_max_iops,
            );
            proof {
                lemma_new_host_sound(
                    h,
                    id,
                    config.numa_nodes_per_host,
                    config.cpu_millicores_per_numa,
                    config.mem_mb_per_numa,
                    config.gpus_per_host,
                    config.nvme_per_host,
                    config.nvme_max_iops,
                );
            }
            hosts.push(h);
            id = id + 1;
        }
        Cluster {
            config,
            hosts,
            vms: Vec::new(),
            anti_affinity_placements: Vec::new(),
            autoscaler: Autoscaler::new(config.cooldown_ticks, config.scale_out_batch),
            rng: seeded_rng(config.seed),
            next_vm_id: 1,
            tick_count: 0,
            events: VecDeque::with_capacity(EVENT_LOG_CAPACITY),
            scale_out_events_total: 0,
            scale_in_events_total: 0,
            migrations_total: 0,
            placement_failures_total: 0,
        }
    }

    /// Appends an event stamped with the current tick, dropping the oldest
    /// event when the log is full.
    pub fn log(&mut self, severity: Severity, message: String)
        ensures
            final(self).events@ == (if old(self).events@.len() >= EVENT_LOG_CAPACITY {
                old(self).events@.drop_first()
            } else {
                old(self).events@
            }).push(SimEvent { tick: old(self).tick_count, severity, message }),
            same_fleet(*old(self), *final(self)),
            final(self).rng == old(self).rng,
            final(self).config == old(self).config,
            final(self).autoscaler == old(self).autoscaler,
            final(self).tick_count == old(self).tick_count,
            final(self).scale_out_events_total == old(self).scale_out_events_total,
            final(self).scale_in_events_total == old(self).scale_in_events_total,
            final(self).migrations_total == old(self).migrations_total,
            final(self).placement_failures_total == old(self).placement_failures_total,
            old(self).wf() ==> final(self).wf(),
    {
        if self.events.len() >= EVENT_LOG_CAPACITY {
            self.events.pop_front();
        }
        self.events.push_back(SimEvent { tick: self.tick_count, severity, message });
        proof {
            if old(self).wf() {
                old(self).lemma_listings_frame(*self);
            }
        }
    }

    /// A random VM request: a GPU-heavy VM with a chance of
    /// `GPU_HEAVY_ODDS` in `GPU_HEAVY_OUT_OF` (3 in 20), otherwise a small
    /// VM with CPU and memory jittered to a percentage drawn uniformly from
    /// `JITTER_MIN_PERCENT..=JITTER_MAX_PERCENT` (80 to 140). The draws
    /// come from the fleet's generator; `VmSpec::from_draws` turns them
    /// into the spec.
    pub fn random_spec(&mut self) -> (s: VmSpec)
        ensures
            exists|gpu_heavy: bool, percent: u32|
                (gpu_heavy || JITTER_MIN_PERCENT <= percent <= JITTER_MAX_PERCENT) && s
                    == spec_from_draws(gpu_heavy, percent),
            same_fleet(*old(self), *final(self)),
            same_bookkeeping(*old(self), *final(self)),
            old(self).wf() ==> final(self).wf(),
    {
        let gpu_heavy = chance(&mut self.rng, GPU_HEAVY_ODDS, GPU_HEAVY_OUT_OF);
        let percent: u32 = if gpu_heavy {
            0
        } else {
            uniform_u32(&mut self.rng, JITTER_MIN_PERCENT, JITTER_MAX_PERCENT)
        };
        proof {
            if old(self).wf() {
                old(self).lemma_listings_frame(*self);
            }
        }
        VmSpec::from_draws(gpu_heavy, percent)
    }

    /// Places a new VM of spec `spec` where the scheduler says (the first
    /// eligible host in `ranking`), charging it there, recording its
    /// anti-affinity group and giving it the next VM id.
    pub fn place_new_vm(&mut self, spec: VmSpec, ranking: &[usize]) -> (r: Result<
        VmId,
        SchedulerError,
    >)
        requires
            old(self).wf(),
            is_ranking(ranking@, old(self).hosts@.len() as int),
            old(self).next_vm_id < u64::MAX,
        ensures
            final(self).wf(),
            same_bookkeeping(*old(self), *final(self)),
            final(self).rng == old(self).rng,
            placement_outcome(*old(self), *final(self), spec, ranking@, r),
    {
        proof {
            self.lemma_schedulable(spec);
        }
        match choose_host(self.hosts.as_slice(), &spec, self.anti_affinity_placements.as_slice(), ranking) {
            Err(e) => Err(e),
            Ok((i, n)) => {
                let ghost before = *self;
                let vm_id = self.next_vm_id;
                self.next_vm_id = self.next_vm_id + 1;
                proof {
                    lemma_place_stays_within_capacity(self.hosts@[i as int], vm_id, spec);
                }
                self.hosts[i].place(vm_id, n, &spec);
                proof {
                    lemma_place_keeps_sound(before.hosts@[i as int], self.hosts@[i as int], vm_id, spec);
                }
                let host_id = self.hosts[i].id;
                match spec.anti_affinity_group {
                    Some(group) => self.anti_affinity_placements.push((group, host_id)),
                    None => {},
                }
                self.vms.push(Vm::new(vm_id, spec, host_id, n));
                proof {
                    assert(placed_new(before, *self, vm_id, spec, i as int));
                    lemma_listings_after_new_vm(before, *self, i as int);
                }
                Ok(vm_id)
            },
        }
    }
}

/// `after` is `before` with a new VM of spec `s`, id `vm_id`, placed on the
/// host at position `i` (on the NUMA node `best_numa_fit` picks there).
pub open spec fn placed_new(before: Cluster, after: Cluster, vm_id: VmId, s: VmSpec, i: int) -> bool {
    let n = best_fit(before.hosts@[i], s).unwrap();
    &&& 0 <= i < before.hosts@.len()
    &&& vm_id == before.next_vm_id
    &&& after.next_vm_id == before.next_vm_id + 1
    &&& after.hosts@.len() == before.hosts@.len()
    &&& placed(before.hosts@[i], after.hosts@[i], vm_id, n, s)
    &&& forall|j: int| 0 <= j < before.hosts@.len() && j != i ==> #[trigger] after.hosts@[j] == before.hosts@[j]
    &&& after.vms@ == before.vms@.push(
        Vm { id: vm_id, spec: s, host_id: i as HostId, numa_node: n, state: VmState::Running },
    )
    &&& after.anti_affinity_placements@ == recorded_group(
        before.anti_affinity_placements@,
        s,
        i as HostId,
    )
}

/// What placing a new VM of spec `s` with host preference `ranking` does:
/// it succeeds exactly when some host is eligible, and then lands on the
/// first eligible host of the ranking; otherwise the fleet is unchanged and
/// the scheduler's rejection is returned.
pub open spec fn placement_outcome(
    before: Cluster,
    after: Cluster,
    s: VmSpec,
    ranking: Seq<usize>,
    r: Result<VmId, SchedulerError>,
) -> bool {
    &&& r is Ok <==> exists|i: int|
        0 <= i < before.hosts@.len() && eligible(
            #[trigger] before.hosts@[i],
            s,
            before.anti_affinity_placements@,
        )
    &&& match r {
        Ok(vm_id) => exists|k: int|
            is_first_eligible(before.hosts@, s, before.anti_affinity_placements@, ranking, k)
                && placed_new(before, after, vm_id, s, ranking[k] as int),
        Err(e) => e == rejection(before.hosts@, s) && same_fleet(before, after),
    }
}

/// VM `vm` is running and uses no GPU: a candidate for scaling in.
pub open spec fn is_idle(vm: Vm) -> bool {
    vm.state is Running && vm.spec.gpu_count == 0
}

/// Position `v` holds the first idle VM.
pub open spec fn is_first_idle(vms: Seq<Vm>, v: int) -> bool {
    &&& 0 <= v < vms.len()
    &&& is_idle(vms[v])
    &&& forall|w: int| 0 <= w < v ==> !is_idle(#[trigger] vms[w])
}

/// The VM the autoscaler would scale in: the first idle one.
pub open spec fn first_idle(vms: Seq<Vm>) -> Option<VmId> {
    if exists|v: int| is_first_idle(vms, v) {
        Some(vms[choose|v: int| is_first_idle(vms, v)].id)
    } else {
        None
    }
}

/// Keeps the anti-affinity records of hosts other than `host`.
pub open spec fn not_on_host(host: HostId) -> spec_fn((u32, HostId)) -> bool {
    |p: (u32, HostId)| p.1 != host
}

/// `after` is `before` with the VM at position `v` terminated: gone from
/// the VM list, its resources released on its host, and (if it belongs to
/// an anti-affinity group) every anti-affinity record of that host dropped.
pub open spec fn terminated(before: Cluster, after: Cluster, v: int) -> bool {
    let vm = before.vms@[v];
    &&& 0 <= v < before.vms@.len()
    &&& after.vms@ == before.vms@.remove(v)
    &&& after.hosts@.len() == before.hosts@.len()
    &&& forall|j: int|
        0 <= j < before.hosts@.len() ==> if j == vm.host_id {
            released(before.hosts@[j], #[trigger] after.hosts@[j], vm.id, vm.numa_node, vm.spec)
        } else {
            after.hosts@[j] == before.hosts@[j]
        }
    &&& after.anti_affinity_placements@ == if vm.spec.anti_affinity_group is Some {
        before.anti_affinity_placements@.filter(not_on_host(vm.host_id))
    } else {
        before.anti_affinity_placements@
    }
    &&& after.next_vm_id == before.next_vm_id
}

/// Terminating a VM of an anti-affinity group frees its host: afterwards no
/// anti-affinity record names that host, while every record of another
/// host stays. Terminating a VM of no group leaves the records as they were.
pub proof fn lemma_termination_records(before: Cluster, after: Cluster, v: int)
    requires
        terminated(before, after, v),
    ensures
        before.vms@[v].spec.anti_affinity_group is Some ==> {
            &&& forall|k: int|
                0 <= k < after.anti_affinity_placements@.len()
                    ==> (#[trigger] after.anti_affinity_placements@[k]).1 != before.vms@[v].host_id
            &&& forall|k: int|
                0 <= k < before.anti_affinity_placements@.len()
                    && (#[trigger] before.anti_affinity_placements@[k]).1 != before.vms@[v].host_id
                    ==> after.anti_affinity_placements@.contains(before.anti_affinity_placements@[k])
        },
        before.vms@[v].spec.anti_affinity_group is None
            ==> after.anti_affinity_placements@ == before.anti_affinity_placements@,
{
    let vm = before.vms@[v];
    let recs = before.anti_affinity_placements@;
    let keep = not_on_host(vm.host_id);
    if vm.spec.anti_affinity_group is Some {
        assert forall|k: int| 0 <= k < after.anti_affinity_placements@.len() implies (
        #[trigger] after.anti_affinity_placements@[k]).1 != vm.host_id by {
            recs.lemma_filter_pred(keep, k);
        }
        assert forall|k: int|
            0 <= k < recs.len() && (#[trigger] recs[k]).1 != vm.host_id implies after.anti_affinity_placements@.contains(
            recs[k]) by {
            recs.lemma_filter_contains(keep, k);
        }
    }
}

/// `after` is `before` with the migration of the VM at position `v`
/// completed: it is released on its source host and runs on the target
/// host and NUMA node its migration reserved.
pub open spec fn migration_completed(before: Cluster, after: Cluster, v: int) -> bool {
    let vm = before.vms@[v];
    &&& 0 <= v < before.vms@.len()
    &&& vm.state is Migrating
    &&& after.vms@ == before.vms@.update(
        v,
        Vm {
            host_id: vm.state->target_host,
            numa_node: vm.state->target_numa,
            state: VmState::Running,
            ..vm
        },
    )
    &&& after.hosts@.len() == before.hosts@.len()
    &&& forall|j: int|
        0 <= j < before.hosts@.len() ==> if j == vm.host_id {
            released(before.hosts@[j], #[trigger] after.hosts@[j], vm.id, vm.numa_node, vm.spec)
        } else {
            after.hosts@[j] == before.hosts@[j]
        }
    &&& after.anti_affinity_placements@ == before.anti_affinity_placements@
    &&& after.next_vm_id == before.next_vm_id
}

/// `after` is `before` with the VM at position `v` marked terminated where
/// it stands in the VM list, and its resources released on its host.
pub open spec fn marked_terminated(before: Cluster, after: Cluster, v: int) -> bool {
    let vm = before.vms@[v];
    &&& 0 <= v < before.vms@.len()
    &&& after.vms@ == before.vms@.update(v, Vm { state: VmState::Terminated, ..vm })
    &&& after.hosts@.len() == before.hosts@.len()
    &&& forall|j: int|
        0 <= j < before.hosts@.len() ==> if j == vm.host_id {
            released(before.hosts@[j], #[trigger] after.hosts@[j], vm.id, vm.numa_node, vm.spec)
        } else {
            after.hosts@[j] == before.hosts@[j]
        }
}

/// Outcome of starting a live migration.
#[derive(Debug, Clone, Copy, PartialEq, Eq, Structural)]
pub enum MigrationStart {
    /// No such VM, or it is not running: nothing happens.
    Skipped,
    /// No host can take the VM: it is marked terminated and its resources
    /// are released on the host it was on.
    Lost,
    /// The VM's resources are reserved on the target and it is migrating.
    Started { source_host: HostId, target_host: HostId, numa_node: u8 },
}

impl Cluster {
    /// The position of VM `vm_id` in the VM list, if it is there.
    fn vm_position(&self, vm_id: VmId) -> (r: Option<usize>)
        ensures
            match r {
                Some(v) => v < self.vms@.len() && self.vms@[v as int].id == vm_id,
                None => forall|v: int| 0 <= v < self.vms@.len() ==> (#[trigger] self.vms@[v]).id != vm_id,
            },
    {
        let mut v: usize = 0;
        while v < self.vms.len()
            invariant
                0 <= v <= self.vms@.len(),
                forall|w: int| 0 <= w < v ==> (#[trigger] self.vms@[w]).id != vm_id,
            decreases self.vms@.len() - v,
        {
            if self.vms[v].id == vm_id {
                return Some(v);
            }
            v = v + 1;
        }
        None
    }

    pub fn hosts(&self) -> (r: &[Host])
        ensures
            r@ == self.hosts@,
    {
        self.hosts.as_slice()
    }

    /// Starts the next tick.
    pub fn advance_tick(&mut self)
        requires
            old(self).tick_count < u64::MAX,
        ensures
            final(self).tick_count == old(self).tick_count + 1,
            same_fleet(*old(self), *final(self)),
            final(self).rng == old(self).rng,
            final(self).events@ == old(self).events@,
            final(self).config == old(self).config,
            final(self).autoscaler == old(self).autoscaler,
            final(self).scale_out_events_total == old(self).scale_out_events_total,
            final(self).scale_in_events_total == old(self).scale_in_events_total,
            final(self).migrations_total == old(self).migrations_total,
            final(self).placement_failures_total == old(self).placement_failures_total,
            old(self).wf() ==> final(self).wf(),
    {
        self.tick_count = self.tick_count + 1;
        proof {
            if old(self).wf() {
                old(self).lemma_listings_frame(*self);
            }
        }
    }

    /// Places a VM someone asked for (a load burst or a scale-out); a
    /// placement that fails is counted.
    pub fn place_requested_vm(&mut self, spec: VmSpec, ranking: &[usize]) -> (r: Result<
        VmId,
        SchedulerError,
    >)
        requires
            old(self).wf(),
            is_ranking(ranking@, old(self).hosts@.len() as int),
            old(self).next_vm_id < u64::MAX,
            old(self).placement_failures_total < u64::MAX,
        ensures
            final(self).wf(),
            placement_outcome(*old(self), *final(self), spec, ranking@, r),
            final(self).placement_failures_total == old(self).placement_failures_total + if r is Ok {
                0int
            } else {
                1int
            },
            final(self).rng == old(self).rng,
            final(self).config == old(self).config,
            final(self).autoscaler == old(self).autoscaler,
            final(self).tick_count == old(self).tick_count,
            final(self).events@ == old(self).events@,
            final(self).scale_out_events_total == old(self).scale_out_events_total,
            final(self).scale_in_events_total == old(self).scale_in_events_total,
            final(self).migrations_total == old(self).migrations_total,
    {
        let r = self.place_new_vm(spec, ranking);
        if r.is_err() {
            let ghost before = *self;
            self.placement_failures_total = self.placement_failures_total + 1;
            proof {
                before.lemma_listings_frame(*self);
            }
        }
        r
    }

    /// The VM the autoscaler would scale in: the first running VM without a
    /// GPU.
    pub fn idle_vm(&self) -> (r: Option<VmId>)
        ensures
            r == first_idle(self.vms@),
    {
        let mut v: usize = 0;
        while v < self.vms.len()
            invariant
                0 <= v <= self.vms@.len(),
                forall|w: int| 0 <= w < v ==> !is_idle(#[trigger] self.vms@[w]),
            decreases self.vms@.len() - v,
        {
            if self.vms[v].is_running() && self.vms[v].spec.gpu_count == 0 {
                proof {
                    assert(is_first_idle(self.vms@, v as int));
                    let c = choose|c: int| is_first_idle(self.vms@, c);
                    if c < v {
                        assert(!is_idle(self.vms@[c]));
                    } else if c > v {
                        assert(!is_idle(self.vms@[v as int]));
                    }
                }
                return Some(self.vms[v].id);
            }
            v = v + 1;
        }
        proof {
            if exists|c: int| is_first_idle(self.vms@, c) {
                let c = choose|c: int| is_first_idle(self.vms@, c);
                assert(!is_idle(self.vms@[c]));
            }
        }
        None
    }

    /// Terminates VM `vm_id` if it exists: releases it on its host and, if
    /// it belongs to an anti-affinity group, drops that host's
    /// anti-affinity records.
    fn terminate_vm(&mut self, vm_id: VmId)
        requires
            old(self).wf(),
            forall|v: int|
                0 <= v < old(self).vms@.len() && (#[trigger] old(self).vms@[v]).id == vm_id
                    ==> old(self).vms@[v].state is Running,
        ensures
            final(self).wf(),
            same_bookkeeping(*old(self), *final(self)),
            final(self).rng == old(self).rng,
            match old(self).position_of(vm_id) {
                Some(v) => terminated(*old(self), *final(self), v),
                None => same_fleet(*old(self), *final(self)),
            },
    {
        match self.vm_position(vm_id) {
            None => {},
            Some(v) => {
                let ghost before = *self;
                proof {
                    self.lemma_position_of(vm_id, v as int);
                }
                let vm = self.vms.remove(v);
                if (vm.host_id as usize) < self.hosts.len() {
                    let h = vm.host_id as usize;
                    self.hosts[h].release(vm_id, vm.numa_node, &vm.spec);
                    proof {
                        lemma_release_keeps_sound(
                            before.hosts@[h as int],
                            self.hosts@[h as int],
                            vm_id,
                            vm.numa_node,
                            vm.spec,
                        );
                    }
                }
                if vm.spec.anti_affinity_group.is_some() {
                    let ghost old_aa = self.anti_affinity_placements@;
                    let mut kept: Vec<(u32, HostId)> = Vec::new();
                    let mut k: usize = 0;
                    while k < self.anti_affinity_placements.len()
                        invariant
                            old_aa == self.anti_affinity_placements@,
                            0 <= k <= old_aa.len(),
                            kept@ == old_aa.take(k as int).filter(not_on_host(vm.host_id)),
                        decreases old_aa.len() - k,
                    {
                        proof {
                            assert(old_aa.take(k as int + 1).drop_last() =~= old_aa.take(k as int));
                            reveal_with_fuel(Seq::filter, 1);
                        }
                        let p = self.anti_affinity_placements[k];
                        if p.1 != vm.host_id {
                            kept.push(p);
                        }
                        k = k + 1;
                    }
                    proof {
                        assert(old_aa.take(old_aa.len() as int) =~= old_aa);
                    }
                    self.anti_affinity_placements = kept;
                }
                proof {
                    assert(record_in_fleet(before.vms@[v as int], before.hosts@.len() as int));
                    lemma_listings_after_removal(before, *self, v as int);
                }
                proof {
                    assert forall|a: int, b: int|
                        0 <= a < self.vms@.len() && 0 <= b < self.vms@.len() && a != b implies (
                        #[trigger] self.vms@[a]).id != (#[trigger] self.vms@[b]).id by {
                        let a2 = if a < v { a } else { a + 1 };
                        let b2 = if b < v { b } else { b + 1 };
                        assert(self.vms@[a] == before.vms@[a2]);
                        assert(self.vms@[b] == before.vms@[b2]);
                    }
                    assert forall|a: int| 0 <= a < self.vms@.len() implies (
                    #[trigger] self.vms@[a]).id < self.next_vm_id by {
                        let a2 = if a < v { a } else { a + 1 };
                        assert(self.vms@[a] == before.vms@[a2]);
                    }
                }
            },
        }
    }

    /// The position of VM `vm_id` in the VM list, if it is there.
    pub open spec fn position_of(&self, vm_id: VmId) -> Option<int> {
        if exists|v: int| 0 <= v < self.vms@.len() && (#[trigger] self.vms@[v]).id == vm_id {
            Some(choose|v: int| 0 <= v < self.vms@.len() && (#[trigger] self.vms@[v]).id == vm_id)
        } else {
            None
        }
    }

    /// VM ids are distinct, so a VM's position is the one that carries its id.
    pub proof fn lemma_position_of(&self, vm_id: VmId, v: int)
        requires
            self.wf(),
            0 <= v < self.vms@.len(),
            self.vms@[v].id == vm_id,
        ensures
            self.position_of(vm_id) == Some(v),
    {
        let c = choose|c: int| 0 <= c < self.vms@.len() && (#[trigger] self.vms@[c]).id == vm_id;
        if c != v {
            assert(self.vms@[c].id != self.vms@[v].id);
        }
    }
}

impl Cluster {
    /// Completes the live migration of VM `vm_id`: releases it on its
    /// source host and moves it, running, to the host and NUMA node its
    /// migration reserved. Returns whether there was such a migrating VM;
    /// a completed migration is counted.
    pub fn complete_migration(&mut self, vm_id: VmId) -> (r: bool)
        requires
            old(self).wf(),
            old(self).migrations_total < u64::MAX,
        ensures
            final(self).wf(),
            final(self).rng == old(self).rng,
            final(self).config == old(self).config,
            final(self).autoscaler == old(self).autoscaler,
            final(self).tick_count == old(self).tick_count,
            final(self).events@ == old(self).events@,
            final(self).scale_out_events_total == old(self).scale_out_events_total,
            final(self).scale_in_events_total == old(self).scale_in_events_total,
            final(self).placement_failures_total == old(self).placement_failures_total,
            r == (exists|v: int|
                0 <= v < old(self).vms@.len() && (#[trigger] old(self).vms@[v]).id == vm_id
                    && old(self).vms@[v].state is Migrating),
            r ==> migration_completed(*old(self), *final(self), old(self).position_of(vm_id).unwrap())
                && final(self).migrations_total == old(self).migrations_total + 1,
            !r ==> same_fleet(*old(self), *final(self)) && final(self).migrations_total
                == old(self).migrations_total,
    {
        match self.vm_position(vm_id) {
            None => false,
            Some(v) => {
                proof {
                    self.lemma_position_of(vm_id, v as int);
                }
                let vm = self.vms[v];
                match vm.state {
                    VmState::Migrating { target_host, target_numa } => {
                        let ghost before = *self;
                        if (vm.host_id as usize) < self.hosts.len() {
                            let h = vm.host_id as usize;
                            self.hosts[h].release(vm_id, vm.numa_node, &vm.spec);
                            proof {
                                lemma_release_keeps_sound(
                                    before.hosts@[h as int],
                                    self.hosts@[h as int],
                                    vm_id,
                                    vm.numa_node,
                                    vm.spec,
                                );
                            }
                        }
                        self.vms.set(
                            v,
                            Vm {
                                id: vm.id,
                                spec: vm.spec,
                                host_id: target_host,
                                numa_node: target_numa,
                                state: VmState::Running,
                            },
                        );
                        proof {
                            assert(record_in_fleet(before.vms@[v as int], before.hosts@.len() as int));
                            lemma_listings_after_release(before, *self, v as int, self.vms@[v as int]);
                        }
                        self.migrations_total = self.migrations_total + 1;
                        proof {
                            assert forall|a: int, b: int|
                                0 <= a < self.vms@.len() && 0 <= b < self.vms@.len() && a != b implies (
                            #[trigger] self.vms@[a]).id != (#[trigger] self.vms@[b]).id by {
                                assert(self.vms@[a].id == before.vms@[a].id);
                                assert(self.vms@[b].id == before.vms@[b].id);
                            }
                            assert forall|a: int| 0 <= a < self.vms@.len() implies (
                            #[trigger] self.vms@[a]).id < self.next_vm_id by {
                                assert(self.vms@[a].id == before.vms@[a].id);
                            }
                        }
                        true
                    },
                    _ => false,
                }
            },
        }
    }

    /// Marks host `host_id` failed. Returns the VMs it was holding, or
    /// `None` when there is no such host or it had already failed (then
    /// nothing changes). This does not evacuate them: the caller starts the
    /// evacuation of each returned VM with `start_migration`.
    pub fn fail_host(&mut self, host_id: HostId) -> (r: Option<Vec<VmId>>)
        requires
            old(self).wf(),
        ensures
            final(self).wf(),
            same_bookkeeping(*old(self), *final(self)),
            final(self).rng == old(self).rng,
            final(self).vms@ == old(self).vms@,
            final(self).anti_affinity_placements@ == old(self).anti_affinity_placements@,
            final(self).next_vm_id == old(self).next_vm_id,
            if host_id < old(self).hosts@.len() && old(self).hosts@[host_id as int].healthy {
                &&& r matches Some(ids) && ids@ == old(self).hosts@[host_id as int].vm_ids@
                &&& final(self).hosts@ == old(self).hosts@.update(
                    host_id as int,
                    Host { healthy: false, ..old(self).hosts@[host_id as int] },
                )
            } else {
                r is None && final(self).hosts@ == old(self).hosts@
            },
    {
        let h = host_id as usize;
        if h >= self.hosts.len() {
            return None;
        }
        if !self.hosts[h].healthy {
            return None;
        }
        self.hosts[h].healthy = false;
        let mut stranded: Vec<VmId> = Vec::new();
        let mut k: usize = 0;
        while k < self.hosts[h].vm_ids.len()
            invariant
                h < self.hosts@.len(),
                0 <= k <= self.hosts@[h as int].vm_ids@.len(),
                stranded@ == self.hosts@[h as int].vm_ids@.take(k as int),
            decreases self.hosts@[h as int].vm_ids@.len() - k,
        {
            stranded.push(self.hosts[h].vm_ids[k]);
            proof {
                assert(self.hosts@[h as int].vm_ids@.take(k as int + 1) =~= self.hosts@[h as int].vm_ids@.take(k as int).push(self.hosts@[h as int].vm_ids@[k as int]));
            }
            k = k + 1;
        }
        proof {
            assert(self.hosts@[h as int].vm_ids@.take(k as int) =~= self.hosts@[h as int].vm_ids@);
            assert(self.hosts@ =~= old(self).hosts@.update(
                host_id as int,
                Host { healthy: false, ..old(self).hosts@[host_id as int] },
            ));
            old(self).lemma_listings_frame(*self);
        }
        Some(stranded)
    }

    /// Brings failed host `host_id` back into the pool. Returns whether a
    /// failed host was recovered (otherwise nothing changes).
    pub fn recover_host(&mut self, host_id: HostId) -> (r: bool)
        requires
            old(self).wf(),
        ensures
            final(self).wf(),
            same_bookkeeping(*old(self), *final(self)),
            final(self).rng == old(self).rng,
            final(self).vms@ == old(self).vms@,
            final(self).anti_affinity_placements@ == old(self).anti_affinity_placements@,
            final(self).next_vm_id == old(self).next_vm_id,
            r == (host_id < old(self).hosts@.len() && !old(self).hosts@[host_id as int].healthy),
            r ==> final(self).hosts@ == old(self).hosts@.update(
                host_id as int,
                Host { healthy: true, ..old(self).hosts@[host_id as int] },
            ),
            !r ==> final(self).hosts@ == old(self).hosts@,
    {
        let h = host_id as usize;
        if h < self.hosts.len() && !self.hosts[h].healthy {
            self.hosts[h].healthy = true;
            proof {
                assert(self.hosts@ =~= old(self).hosts@.update(
                    host_id as int,
                    Host { healthy: true, ..old(self).hosts@[host_id as int] },
                ));
                old(self).lemma_listings_frame(*self);
            }
            true
        } else {
            false
        }
    }
}

impl Cluster {
    /// Runs the autoscaler against the current load level, offering it the
    /// first idle VM. Scaling in terminates that VM; every decision is
    /// counted. Placing the VMs of a scale-out is left to the caller, who
    /// gets the decision back.
    pub fn autoscale(&mut self, load: LoadLevel) -> (r: Option<ScalingEvent>)
        requires
            old(self).wf(),
            old(self).scale_out_events_total < u64::MAX,
            old(self).scale_in_events_total < u64::MAX,
        ensures
            final(self).wf(),
            (final(self).autoscaler, r) == step(old(self).autoscaler, load, first_idle(old(self).vms@)),
            final(self).rng == old(self).rng,
            final(self).config == old(self).config,
            final(self).tick_count == old(self).tick_count,
            final(self).events@ == old(self).events@,
            final(self).migrations_total == old(self).migrations_total,
            final(self).placement_failures_total == old(self).placement_failures_total,
            match r {
                Some(ScalingEvent::ScaleOut { .. }) => {
                    &&& same_fleet(*old(self), *final(self))
                    &&& final(self).scale_out_events_total == old(self).scale_out_events_total + 1
                    &&& final(self).scale_in_events_total == old(self).scale_in_events_total
                },
                Some(ScalingEvent::ScaleIn { vm_id }) => {
                    &&& old(self).position_of(vm_id) is Some
                    &&& terminated(*old(self), *final(self), old(self).position_of(vm_id).unwrap())
                    &&& final(self).scale_out_events_total == old(self).scale_out_events_total
                    &&& final(self).scale_in_events_total == old(self).scale_in_events_total + 1
                },
                None => {
                    &&& same_fleet(*old(self), *final(self))
                    &&& final(self).scale_out_events_total == old(self).scale_out_events_total
                    &&& final(self).scale_in_events_total == old(self).scale_in_events_total
                },
            },
    {
        let idle = self.idle_vm();
        let event = self.autoscaler.evaluate(load, idle);
        match event {
            Some(ScalingEvent::ScaleOut { .. }) => {
                self.scale_out_events_total = self.scale_out_events_total + 1;
                proof {
                    old(self).lemma_listings_frame(*self);
                }
            },
            Some(ScalingEvent::ScaleIn { vm_id }) => {
                proof {
                    let c = choose|c: int| is_first_idle(old(self).vms@, c);
                    self.lemma_position_of(vm_id, c);
                    assert forall|v: int|
                        0 <= v < self.vms@.len() && (#[trigger] self.vms@[v]).id == vm_id implies self.vms@[v].state is Running by {
                        if v != c {
                            assert(self.vms@[v].id != self.vms@[c].id);
                        }
                    }
                }
                self.terminate_vm(vm_id);
                let ghost before = *self;
                self.scale_in_events_total = self.scale_in_events_total + 1;
                proof {
                    before.lemma_listings_frame(*self);
                }
            },
            None => {
                proof {
                    old(self).lemma_listings_frame(*self);
                }
            },
        }
        event
    }

    /// Starts evacuating VM `vm_id` by live migration: if it is running,
    /// the scheduler picks its target (the first eligible host in
    /// `ranking`) and the VM's resources are reserved there at once while
    /// it keeps holding its source; the VM is then migrating. If no host
    /// can take it, the VM is lost: it is marked terminated and its
    /// resources on its host are released. Migration timing is the
    /// caller's: it completes the migration with `complete_migration`.
    /// This evacuates failed hosts: a running VM handed to it must be on a
    /// host that has failed (which also keeps the target apart from the
    /// source).
    pub fn start_migration(&mut self, vm_id: VmId, ranking: &[usize]) -> (r: MigrationStart)
        requires
            old(self).wf(),
            is_ranking(ranking@, old(self).hosts@.len() as int),
            forall|v: int|
                0 <= v < old(self).vms@.len() && (#[trigger] old(self).vms@[v]).id == vm_id
                    && old(self).vms@[v].state is Running ==> !old(self).hosts@[old(
                    self,
                ).vms@[v].host_id as int].healthy,
        ensures
            final(self).wf(),
            same_bookkeeping(*old(self), *final(self)),
            final(self).rng == old(self).rng,
            final(self).anti_affinity_placements@ == old(self).anti_affinity_placements@,
            final(self).next_vm_id == old(self).next_vm_id,
            match r {
                MigrationStart::Skipped => {
                    &&& same_fleet(*old(self), *final(self))
                    &&& !exists|v: int|
                        0 <= v < old(self).vms@.len() && (#[trigger] old(self).vms@[v]).id == vm_id
                            && old(self).vms@[v].state is Running
                },
                MigrationStart::Lost => exists|v: int|
                    0 <= v < old(self).vms@.len() && (#[trigger] old(self).vms@[v]).id == vm_id && {
                        let vm = old(self).vms@[v];
                        &&& vm.state is Running
                        &&& forall|i: int|
                            0 <= i < old(self).hosts@.len() ==> !eligible(
                                #[trigger] old(self).hosts@[i],
                                vm.spec,
                                old(self).anti_affinity_placements@,
                            )
                        &&& marked_terminated(*old(self), *final(self), v)
                    },
                MigrationStart::Started { source_host, target_host, numa_node } => exists|
                    v: int,
                    k: int,
                |
                    0 <= v < old(self).vms@.len() && (#[trigger] old(self).vms@[v]).id == vm_id
                        && #[trigger] is_first_eligible(
                        old(self).hosts@,
                        old(self).vms@[v].spec,
                        old(self).anti_affinity_placements@,
                        ranking@,
                        k,
                    ) && {
                        let vm = old(self).vms@[v];
                        let t = ranking@[k] as int;
                        &&& vm.state is Running
                        &&& source_host == vm.host_id
                        &&& target_host == t
                        &&& numa_node == best_fit(old(self).hosts@[t], vm.spec).unwrap()
                        &&& final(self).hosts@.len() == old(self).hosts@.len()
                        &&& placed(
                            old(self).hosts@[t],
                            final(self).hosts@[t],
                            vm_id,
                            numa_node,
                            vm.spec,
                        )
                        &&& forall|j: int|
                            0 <= j < old(self).hosts@.len() && j != t ==> #[trigger] final(self).hosts@[j]
                                == old(self).hosts@[j]
                        &&& final(self).vms@ == old(self).vms@.update(
                            v,
                            Vm {
                                state: VmState::Migrating { target_host, target_numa: numa_node },
                                ..vm
                            },
                        )
                    },
            },
    {
        let v = match self.vm_position(vm_id) {
            None => return MigrationStart::Skipped,
            Some(v) => v,
        };
        let vm = self.vms[v];
        if !vm.is_running() {
            proof {
                assert forall|w: int|
                    0 <= w < self.vms@.len() && (#[trigger] self.vms@[w]).id == vm_id implies !(
                    self.vms@[w].state is Running) by {
                    if w != v {
                        assert(self.vms@[w].id != self.vms@[v as int].id);
                    }
                }
            }
            return MigrationStart::Skipped;
        }
        proof {
            self.lemma_schedulable(vm.spec);
        }
        let ghost before = *self;
        match choose_host(
            self.hosts.as_slice(),
            &vm.spec,
            self.anti_affinity_placements.as_slice(),
            ranking,
        ) {
            Err(_) => {
                if (vm.host_id as usize) < self.hosts.len() {
                    let h = vm.host_id as usize;
                    self.hosts[h].release(vm_id, vm.numa_node, &vm.spec);
                    proof {
                        lemma_release_keeps_sound(
                            before.hosts@[h as int],
                            self.hosts@[h as int],
                            vm_id,
                            vm.numa_node,
                            vm.spec,
                        );
                    }
                }
                self.vms.set(
                    v,
                    Vm {
                        id: vm.id,
                        spec: vm.spec,
                        host_id: vm.host_id,
                        numa_node: vm.numa_node,
                        state: VmState::Terminated,
                    },
                );
                proof {
                    assert forall|a: int, b: int|
                        0 <= a < self.vms@.len() && 0 <= b < self.vms@.len() && a != b implies (
                        #[trigger] self.vms@[a]).id != (#[trigger] self.vms@[b]).id by {
                        assert(self.vms@[a].id == before.vms@[a].id);
                        assert(self.vms@[b].id == before.vms@[b].id);
                    }
                    assert forall|a: int| 0 <= a < self.vms@.len() implies (
                    #[trigger] self.vms@[a]).id < self.next_vm_id by {
                        assert(self.vms@[a].id == before.vms@[a].id);
                    }
                }
                proof {
                    assert(record_in_fleet(before.vms@[v as int], before.hosts@.len() as int));
                    lemma_listings_after_release(before, *self, v as int, self.vms@[v as int]);
                }
                MigrationStart::Lost
            },
            Ok((t, n)) => {
                proof {
                    lemma_place_stays_within_capacity(self.hosts@[t as int], vm_id, vm.spec);
                }
                self.hosts[t].place(vm_id, n, &vm.spec);
                proof {
                    lemma_place_keeps_sound(before.hosts@[t as int], self.hosts@[t as int], vm_id, vm.spec);
                }
                let target_host = self.hosts[t].id;
                self.vms.set(
                    v,
                    Vm {
                        id: vm.id,
                        spec: vm.spec,
                        host_id: vm.host_id,
                        numa_node: vm.numa_node,
                        state: VmState::Migrating { target_host, target_numa: n },
                    },
                );
                proof {
                    assert forall|a: int, b: int|
                        0 <= a < self.vms@.len() && 0 <= b < self.vms@.len() && a != b implies (
                        #[trigger] self.vms@[a]).id != (#[trigger] self.vms@[b]).id by {
                        assert(self.vms@[a].id == before.vms@[a].id);
                        assert(self.vms@[b].id == before.vms@[b].id);
                    }
                    assert forall|a: int| 0 <= a < self.vms@.len() implies (
                    #[trigger] self.vms@[a]).id < self.next_vm_id by {
                        assert(self.vms@[a].id == before.vms@[a].id);
                    }
                }
                proof {
                    assert(record_in_fleet(before.vms@[v as int], before.hosts@.len() as int));
                    assert(before.hosts@[t as int].healthy);
                    assert(t as int != vm.host_id);
                    lemma_listings_after_reserve(before, *self, v as int, t as int, self.vms@[v as int]);
                }
                MigrationStart::Started { source_host: vm.host_id, target_host, numa_node: n }
            },
        }
    }
}

/// Integer aggregates of the fleet, as the dashboard's metrics report them.
#[derive(Debug, Clone, Copy, PartialEq, Eq, Structural)]
pub struct FleetCounts {
    pub total_hosts: usize,
    pub healthy_hosts: usize,
    pub total_vms: usize,
    pub running_vms: usize,
    pub migrating_vms: usize,
    /// GPUs on healthy hosts.
    pub total_gpus: usize,
    /// Assigned GPUs on healthy hosts.
    pub used_gpus: usize,
}

pub open spec fn healthy_of() -> spec_fn(Host) -> int {
    |h: Host| if h.healthy { 1int } else { 0int }
}

pub open spec fn healthy_gpus_of() -> spec_fn(Host) -> int {
    |h: Host| if h.healthy { h.gpus@.len() as int } else { 0int }
}

pub open spec fn healthy_gpus_in_use_of() -> spec_fn(Host) -> int {
    |h: Host| if h.healthy { h.gpus@.len() - total(h.gpus@, free_gpu_of()) } else { 0int }
}

pub open spec fn running_of() -> spec_fn(Vm) -> int {
    |v: Vm| if v.state is Running { 1int } else { 0int }
}

pub open spec fn migrating_of() -> spec_fn(Vm) -> int {
    |v: Vm| if v.state is Migrating { 1int } else { 0int }
}

pub open spec fn terminated_of() -> spec_fn(Vm) -> int {
    |v: Vm| if v.state is Terminated { 1int } else { 0int }
}

/// Every VM is in exactly one state: the running, the migrating and the
/// terminated VMs of a list together are all of it.
pub proof fn lemma_vm_states_partition(vms: Seq<Vm>)
    ensures
        total(vms, running_of()) + total(vms, migrating_of()) + total(vms, terminated_of())
            == vms.len(),
    decreases vms.len(),
{
    if vms.len() > 0 {
        lemma_vm_states_partition(vms.drop_last());
        let x = vms.last();
        assert(x.state is Running || x.state is Migrating || x.state is Terminated);
    }
}

/// At most every GPU of a host is free.
pub proof fn lemma_free_gpus_bounded(gpus: Seq<GpuDevice>)
    ensures
        0 <= total(gpus, free_gpu_of()) <= gpus.len(),
{
    let one = |g: GpuDevice| 1int;
    lemma_total_bounded(gpus, free_gpu_of(), one);
    lemma_total_constant(gpus, one, 1);
}

impl Cluster {
    /// Counts hosts, VMs and GPUs: all hosts and the healthy ones, all VMs
    /// (terminated ones included), the running ones and the migrating ones,
    /// and the GPUs of healthy hosts and
    /// how many of them are assigned.
    pub fn fleet_counts(&self) -> (c: FleetCounts)
        requires
            total(self.hosts@, healthy_gpus_of()) <= usize::MAX,
        ensures
            c.total_hosts == self.hosts@.len(),
            c.healthy_hosts == total(self.hosts@, healthy_of()),
            c.total_vms == self.vms@.len(),
            c.migrating_vms == total(self.vms@, migrating_of()),
            c.running_vms == total(self.vms@, running_of()),
            c.running_vms + c.migrating_vms + total(self.vms@, terminated_of()) == c.total_vms,
            c.running_vms + c.migrating_vms <= c.total_vms,
            c.healthy_hosts <= c.total_hosts,
            c.used_gpus <= c.total_gpus,
            c.total_gpus == total(self.hosts@, healthy_gpus_of()),
            c.used_gpus == total(self.hosts@, healthy_gpus_in_use_of()),
    {
        let ghost hosts = self.hosts@;
        let mut healthy: usize = 0;
        let mut gpus: usize = 0;
        let mut used: usize = 0;
        let mut i: usize = 0;
        while i < self.hosts.len()
            invariant
                hosts == self.hosts@,
                0 <= i <= hosts.len(),
                healthy == total(hosts.take(i as int), healthy_of()),
                healthy <= i,
                gpus == total(hosts.take(i as int), healthy_gpus_of()),
                used == total(hosts.take(i as int), healthy_gpus_in_use_of()),
                used <= gpus,
                total(hosts, healthy_gpus_of()) <= usize::MAX,
            decreases hosts.len() - i,
        {
            proof {
                lemma_total_take_step(hosts, healthy_of(), i as int);
                lemma_total_take_step(hosts, healthy_gpus_of(), i as int);
                lemma_total_take_step(hosts, healthy_gpus_in_use_of(), i as int);
                lemma_total_prefix_mono(hosts, healthy_gpus_of(), i as int + 1, hosts.len() as int);
                lemma_total_take_all(hosts, healthy_gpus_of());
                lemma_free_gpus_bounded(hosts[i as int].gpus@);
            }
            if self.hosts[i].healthy {
                let n = self.hosts[i].gpus.len();
                let free = self.hosts[i].free_gpus();
                healthy = healthy + 1;
                gpus = gpus + n;
                used = used + (n - free);
            }
            i = i + 1;
        }
        proof {
            lemma_total_take_all(hosts, healthy_of());
            lemma_total_take_all(hosts, healthy_gpus_of());
            lemma_total_take_all(hosts, healthy_gpus_in_use_of());
        }
        let ghost vms = self.vms@;
        let mut migrating: usize = 0;
        let mut running: usize = 0;
        let mut v: usize = 0;
        while v < self.vms.len()
            invariant
                vms == self.vms@,
                0 <= v <= vms.len(),
                migrating == total(vms.take(v as int), migrating_of()),
                running == total(vms.take(v as int), running_of()),
                migrating + running <= v,
            decreases vms.len() - v,
        {
            proof {
                lemma_total_take_step(vms, migrating_of(), v as int);
                lemma_total_take_step(vms, running_of(), v as int);
            }
            match self.vms[v].state {
                VmState::Migrating { .. } => {
                    migrating = migrating + 1;
                },
                VmState::Running => {
                    running = running + 1;
                },
                VmState::Terminated => {},
            }
            v = v + 1;
        }
        proof {
            lemma_total_take_all(vms, migrating_of());
            lemma_total_take_all(vms, running_of());
            lemma_vm_states_partition(vms);
        }
        FleetCounts {
            total_hosts: self.hosts.len(),
            healthy_hosts: healthy,
            total_vms: self.vms.len(),
            running_vms: running,
            migrating_vms: migrating,
            total_gpus: gpus,
            used_gpus: used,
        }
    }
}

/// How many VMs a fresh fleet of `host_count` hosts is seeded with:
/// three and a half per host, rounded down (saturating at `u32::MAX`).
pub open spec fn initial_load_target_spec(host_count: u32) -> int {
    if host_count * 7 / 2 > u32::MAX {
        u32::MAX as int
    } else {
        host_count * 7 / 2
    }
}

/// How many VMs a fresh fleet of `host_count` hosts is seeded with.
pub fn initial_load_target(host_count: u32) -> (r: u32)
    ensures
        r == initial_load_target_spec(host_count),
{
    let t: u64 = host_count as u64 * 7 / 2;
    if t > u32::MAX as u64 {
        u32::MAX
    } else {
        t as u32
    }
}

/// Placing a new VM keeps the listings matched: the new VM is listed by
/// the host it was placed on, and by no other.
proof fn lemma_listings_after_new_vm(before: Cluster, after: Cluster, i: int)
    requires
        before.wf(),
        0 <= i < before.hosts@.len(),
        after.hosts@.len() == before.hosts@.len(),
        after.hosts@[i].vm_ids@ == before.hosts@[i].vm_ids@.push(before.next_vm_id),
        forall|j: int|
            0 <= j < before.hosts@.len() && j != i ==> #[trigger] after.hosts@[j].vm_ids@
                == before.hosts@[j].vm_ids@,
        after.vms@.len() == before.vms@.len() + 1,
        forall|v: int| 0 <= v < before.vms@.len() ==> #[trigger] after.vms@[v] == before.vms@[v],
        after.vms@.last().id == before.next_vm_id,
        after.vms@.last().host_id == i,
        after.vms@.last().state is Running,
    ensures
        after.listings_match(),
{
    let x = before.next_vm_id;
    let nv = before.vms@.len() as int;
    assert(after.vms@[nv] == after.vms@.last());
    // No host lists the fresh id yet.
    assert forall|j: int| 0 <= j < before.hosts@.len() implies !(#[trigger] before.hosts@[j]).vm_ids@.contains(x) by {
        if before.hosts@[j].vm_ids@.contains(x) {
            let k = choose|k: int| 0 <= k < before.hosts@[j].vm_ids@.len() && before.hosts@[j].vm_ids@[k] == x;
            assert(has_vm_with_id(before.vms@, before.hosts@[j].vm_ids@[k]));
            let v = choose|v: int| 0 <= v < before.vms@.len() && (#[trigger] before.vms@[v]).id == x;
        }
    }
    assert forall|v: int| 0 <= v < after.vms@.len() implies record_in_fleet(
        #[trigger] after.vms@[v],
        after.hosts@.len() as int,
    ) by {
        if v < nv {
            assert(record_in_fleet(before.vms@[v], before.hosts@.len() as int));
        }
    }
    assert forall|v: int, j: int|
        #![trigger after.vms@[v], after.hosts@[j]]
        0 <= v < after.vms@.len() && 0 <= j < after.hosts@.len() implies (
        after.hosts@[j].vm_ids@.contains(after.vms@[v].id) <==> holds_resources(after.vms@[v], j)) by {
        let y = after.vms@[v].id;
        if j == i {
            lemma_push_contains(before.hosts@[i].vm_ids@, x, y);
        } else {
            assert(after.hosts@[j].vm_ids@ == before.hosts@[j].vm_ids@);
        }
        if v < nv {
            assert(after.vms@[v] == before.vms@[v]);
            assert(before.vms@[v].id < x);
            assert(before.hosts@[j].vm_ids@.contains(before.vms@[v].id) <==> holds_resources(
                before.vms@[v],
                j,
            ));
        } else {
            assert(!before.hosts@[j].vm_ids@.contains(x));
        }
    }
    assert forall|j: int, k: int|
        0 <= j < after.hosts@.len() && 0 <= k < after.hosts@[j].vm_ids@.len() implies has_vm_with_id(
            after.vms@,
            #[trigger] after.hosts@[j].vm_ids@[k],
        ) by {
        let y = after.hosts@[j].vm_ids@[k];
        if j == i && k == before.hosts@[i].vm_ids@.len() {
            assert(after.vms@[nv].id == y);
        } else {
            if j != i {
                assert(after.hosts@[j].vm_ids@ == before.hosts@[j].vm_ids@);
            }
            assert(before.hosts@[j].vm_ids@[k] == y);
            assert(has_vm_with_id(before.vms@, before.hosts@[j].vm_ids@[k]));
            let v = choose|v: int| 0 <= v < before.vms@.len() && (#[trigger] before.vms@[v]).id == y;
            assert(after.vms@[v] == before.vms@[v]);
        }
    }
}

/// Taking VM `v` off its own host `h` and rewriting its record to one
/// whose hosts are the old ones but `h` keeps the listings matched.
proof fn lemma_listings_after_release(before: Cluster, after: Cluster, v: int, r: Vm)
    requires
        before.wf(),
        0 <= v < before.vms@.len(),
        before.vms@[v].state !is Terminated,
        after.hosts@.len() == before.hosts@.len(),
        after.hosts@[before.vms@[v].host_id as int].vm_ids@ == before.hosts@[before.vms@[v].host_id as int].vm_ids@.filter(
            other_than(before.vms@[v].id),
        ),
        forall|j: int|
            0 <= j < before.hosts@.len() && j != before.vms@[v].host_id ==> #[trigger] after.hosts@[j].vm_ids@
                == before.hosts@[j].vm_ids@,
        after.vms@ == before.vms@.update(v, r),
        r.id == before.vms@[v].id,
        record_in_fleet(r, before.hosts@.len() as int),
        forall|j: int|
            0 <= j < before.hosts@.len() ==> (holds_resources(r, j) <==> (holds_resources(
                before.vms@[v],
                j,
            ) && j != before.vms@[v].host_id)),
    ensures
        after.listings_match(),
{
    let x = before.vms@[v].id;
    let h = before.vms@[v].host_id as int;
    assert(record_in_fleet(before.vms@[v], before.hosts@.len() as int));
    assert forall|w: int| 0 <= w < after.vms@.len() implies record_in_fleet(
        #[trigger] after.vms@[w],
        after.hosts@.len() as int,
    ) by {
        if w != v {
            assert(record_in_fleet(before.vms@[w], before.hosts@.len() as int));
        }
    }
    assert forall|w: int, j: int|
        #![trigger after.vms@[w], after.hosts@[j]]
        0 <= w < after.vms@.len() && 0 <= j < after.hosts@.len() implies (
        after.hosts@[j].vm_ids@.contains(after.vms@[w].id) <==> holds_resources(after.vms@[w], j)) by {
        let y = after.vms@[w].id;
        if j == h {
            lemma_filter_other_contains(before.hosts@[h].vm_ids@, x, y);
        } else {
            assert(after.hosts@[j].vm_ids@ == before.hosts@[j].vm_ids@);
        }
        assert(before.hosts@[j].vm_ids@.contains(before.vms@[w].id) <==> holds_resources(
            before.vms@[w],
            j,
        ));
        if w != v {
            assert(before.vms@[w].id != x);
        }
    }
    assert forall|j: int, k: int|
        0 <= j < after.hosts@.len() && 0 <= k < after.hosts@[j].vm_ids@.len() implies has_vm_with_id(
            after.vms@,
            #[trigger] after.hosts@[j].vm_ids@[k],
        ) by {
        let y = after.hosts@[j].vm_ids@[k];
        if j == h {
            assert(after.hosts@[j].vm_ids@.contains(y));
            lemma_filter_other_contains(before.hosts@[h].vm_ids@, x, y);
        } else {
            assert(after.hosts@[j].vm_ids@ == before.hosts@[j].vm_ids@);
            assert(before.hosts@[j].vm_ids@[k] == y);
        }
        assert(before.hosts@[j].vm_ids@.contains(y));
        let kk = choose|kk: int| 0 <= kk < before.hosts@[j].vm_ids@.len() && before.hosts@[j].vm_ids@[kk] == y;
        assert(has_vm_with_id(before.vms@, before.hosts@[j].vm_ids@[kk]));
        let u = choose|u: int| 0 <= u < before.vms@.len() && (#[trigger] before.vms@[u]).id == y;
        if u == v {
            assert(after.vms@[v].id == y);
        } else {
            assert(after.vms@[u] == before.vms@[u]);
        }
    }
}

/// Taking running VM `v` off its host and out of the VM list keeps the
/// listings matched.
proof fn lemma_listings_after_removal(before: Cluster, after: Cluster, v: int)
    requires
        before.wf(),
        0 <= v < before.vms@.len(),
        before.vms@[v].state is Running,
        after.hosts@.len() == before.hosts@.len(),
        after.hosts@[before.vms@[v].host_id as int].vm_ids@ == before.hosts@[before.vms@[v].host_id as int].vm_ids@.filter(
            other_than(before.vms@[v].id),
        ),
        forall|j: int|
            0 <= j < before.hosts@.len() && j != before.vms@[v].host_id ==> #[trigger] after.hosts@[j].vm_ids@
                == before.hosts@[j].vm_ids@,
        after.vms@ == before.vms@.remove(v),
    ensures
        after.listings_match(),
{
    let x = before.vms@[v].id;
    let h = before.vms@[v].host_id as int;
    assert(record_in_fleet(before.vms@[v], before.hosts@.len() as int));
    assert forall|w: int| 0 <= w < after.vms@.len() implies record_in_fleet(
        #[trigger] after.vms@[w],
        after.hosts@.len() as int,
    ) by {
        let w2 = if w < v { w } else { w + 1 };
        assert(after.vms@[w] == before.vms@[w2]);
        assert(record_in_fleet(before.vms@[w2], before.hosts@.len() as int));
    }
    assert forall|w: int, j: int|
        #![trigger after.vms@[w], after.hosts@[j]]
        0 <= w < after.vms@.len() && 0 <= j < after.hosts@.len() implies (
        after.hosts@[j].vm_ids@.contains(after.vms@[w].id) <==> holds_resources(after.vms@[w], j)) by {
        let w2 = if w < v { w } else { w + 1 };
        assert(after.vms@[w] == before.vms@[w2]);
        let y = after.vms@[w].id;
        assert(y != x);
        if j == h {
            lemma_filter_other_contains(before.hosts@[h].vm_ids@, x, y);
        } else {
            assert(after.hosts@[j].vm_ids@ == before.hosts@[j].vm_ids@);
        }
        assert(before.hosts@[j].vm_ids@.contains(before.vms@[w2].id) <==> holds_resources(
            before.vms@[w2],
            j,
        ));
    }
    assert forall|j: int, k: int|
        0 <= j < after.hosts@.len() && 0 <= k < after.hosts@[j].vm_ids@.len() implies has_vm_with_id(
            after.vms@,
            #[trigger] after.hosts@[j].vm_ids@[k],
        ) by {
        let y = after.hosts@[j].vm_ids@[k];
        if j == h {
            assert(after.hosts@[j].vm_ids@.contains(y));
            lemma_filter_other_contains(before.hosts@[h].vm_ids@, x, y);
        } else {
            assert(after.hosts@[j].vm_ids@ == before.hosts@[j].vm_ids@);
            assert(before.hosts@[j].vm_ids@[k] == y);
            // The removed VM is listed by its own host only.
            assert(before.hosts@[j].vm_ids@.contains(before.vms@[v].id) <==> holds_resources(
                before.vms@[v],
                j,
            ));
        }
        assert(before.hosts@[j].vm_ids@.contains(y));
        assert(y != x);
        let kk = choose|kk: int| 0 <= kk < before.hosts@[j].vm_ids@.len() && before.hosts@[j].vm_ids@[kk] == y;
        assert(has_vm_with_id(before.vms@, before.hosts@[j].vm_ids@[kk]));
        let u = choose|u: int| 0 <= u < before.vms@.len() && (#[trigger] before.vms@[u]).id == y;
        assert(u != v);
        let u2 = if u < v { u } else { u - 1 };
        assert(after.vms@[u2] == before.vms@[u]);
    }
}

/// Reserving VM `v` on a further host `t` that did not hold it, and
/// rewriting its record to one whose hosts are the old ones and `t`, keeps
/// the listings matched.
proof fn lemma_listings_after_reserve(before: Cluster, after: Cluster, v: int, t: int, r: Vm)
    requires
        before.wf(),
        0 <= v < before.vms@.len(),
        0 <= t < before.hosts@.len(),
        !holds_resources(before.vms@[v], t),
        after.hosts@.len() == before.hosts@.len(),
        after.hosts@[t].vm_ids@ == before.hosts@[t].vm_ids@.push(before.vms@[v].id),
        forall|j: int|
            0 <= j < before.hosts@.len() && j != t ==> #[trigger] after.hosts@[j].vm_ids@
                == before.hosts@[j].vm_ids@,
        after.vms@ == before.vms@.update(v, r),
        r.id == before.vms@[v].id,
        record_in_fleet(r, before.hosts@.len() as int),
        forall|j: int|
            0 <= j < before.hosts@.len() ==> (holds_resources(r, j) <==> (holds_resources(
                before.vms@[v],
                j,
            ) || j == t)),
    ensures
        after.listings_match(),
{
    let x = before.vms@[v].id;
    assert forall|w: int| 0 <= w < after.vms@.len() implies record_in_fleet(
        #[trigger] after.vms@[w],
        after.hosts@.len() as int,
    ) by {
        if w != v {
            assert(record_in_fleet(before.vms@[w], before.hosts@.len() as int));
        }
    }
    assert forall|w: int, j: int|
        #![trigger after.vms@[w], after.hosts@[j]]
        0 <= w < after.vms@.len() && 0 <= j < after.hosts@.len() implies (
        after.hosts@[j].vm_ids@.contains(after.vms@[w].id) <==> holds_resources(after.vms@[w], j)) by {
        let y = after.vms@[w].id;
        if j == t {
            lemma_push_contains(before.hosts@[t].vm_ids@, x, y);
        } else {
            assert(after.hosts@[j].vm_ids@ == before.hosts@[j].vm_ids@);
        }
        assert(before.hosts@[j].vm_ids@.contains(before.vms@[w].id) <==> holds_resources(
            before.vms@[w],
            j,
        ));
        if w != v {
            assert(before.vms@[w].id != x);
        }
    }
    assert forall|j: int, k: int|
        0 <= j < after.hosts@.len() && 0 <= k < after.hosts@[j].vm_ids@.len() implies has_vm_with_id(
            after.vms@,
            #[trigger] after.hosts@[j].vm_ids@[k],
        ) by {
        let y = after.hosts@[j].vm_ids@[k];
        if j == t && k == before.hosts@[t].vm_ids@.len() {
            assert(after.vms@[v].id == y);
        } else {
            if j != t {
                assert(after.hosts@[j].vm_ids@ == before.hosts@[j].vm_ids@);
            }
            assert(before.hosts@[j].vm_ids@[k] == y);
            assert(has_vm_with_id(before.vms@, before.hosts@[j].vm_ids@[k]));
            let u = choose|u: int| 0 <= u < before.vms@.len() && (#[trigger] before.vms@[u]).id == y;
            if u == v {
                assert(after.vms@[v].id == y);
            } else {
                assert(after.vms@[u] == before.vms@[u]);
            }
        }
    }
}

} // verus!
