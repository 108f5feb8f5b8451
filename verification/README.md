# oxide-engine

The verified core of a NUMA-aware hypervisor scheduler simulation: hosts with
CPU and memory grouped into NUMA nodes, passthrough GPUs and IOPS-limited NVMe
controllers; VM placement with anti-affinity; host failure and evacuation by
live migration; a threshold autoscaler with a cooldown; a bounded event log.

Layout:

- `src/` — the library, verified with Verus.
  - `host.rs`: hosts, resource accounting (`place`, `release`,
    `best_numa_fit`) and its laws (placement stays within capacity, release
    undoes place).
  - `scheduler.rs`: anti-affinity and the choice of host from a host
    preference order.
  - `autoscaler.rs`: the cooldown state machine and its law.
  - `cluster.rs`: the fleet state and every operation on it, each keeping the
    fleet within capacity.
  - `vm.rs`, `events.rs`: VM specs and records, log entries.
  - `random.rs`: the seeded generator the simulation draws VM shapes from.
- `app/` — what the library leaves out: the floating-point models
  (utilization, placement scores, migration timing, load thresholds), the
  tick loop driving the cluster, serializable views, and the WebAssembly
  handle for the dashboard.
- `tests/` — tests of the library.
