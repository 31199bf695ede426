//! Calculations over manifest values: how much compute a service needs in
//! total, and how long a rolling update of it takes.

use vstd::prelude::*;
use crate::errors::Error;
use crate::manifest::{
    Manifest, Replicas, ResourceRequest, RollingUpdate, Sidecar, Worker, cpu_parse_ok, cpu_parsed,
    mem_parse_ok, mem_parsed, parse_cpu, parse_memory,
};

verus! {

/// CPU and memory demand on their integer grids: millicores and bytes.
#[derive(Clone, Copy, PartialEq, Eq, Structural, Debug)]
pub struct ResourceAmounts {
    /// CPU, in millicores
    pub cpu_millis: u64,
    /// Memory, in bytes
    pub memory_bytes: u64,
}

/// Total resource usage for a manifest, accounting for replicas, sidecars,
/// workers and autoscaling policies.
#[derive(Clone, Copy, PartialEq, Eq, Structural, Debug)]
pub struct ResourceTotals {
    /// Sum of resources over guaranteed replicas, sidecars and workers
    pub base: ResourceAmounts,
    /// Autoscaling ceiling on top of the base
    pub extra: ResourceAmounts,
}

// ----- rolling updates -----

impl RollingUpdate {
    /// Batches needed to cycle `replicas` replicas, `max_unavailable` (at
    /// least one) per batch.
    pub open spec fn spec_rollout_iterations(self, replicas: u32) -> int {
        let step = if self.max_unavailable >= 1 {
            self.max_unavailable as int
        } else {
            1int
        };
        (replicas + step - 1) / step
    }

    /// How many iterations a rolling upgrade of `replicas` replicas needs
    /// under this policy.
    pub fn rollout_iterations(&self, replicas: u32) -> (r: u32)
        ensures
            r as int == self.spec_rollout_iterations(replicas),
    {
        let step: u64 = if self.max_unavailable >= 1 {
            self.max_unavailable as u64
        } else {
            1
        };
        let it: u64 = ((replicas as u64) + step - 1) / step;
        proof {
            assert(it <= replicas as u64) by (nonlinear_arith)
                requires
                    step >= 1,
                    it == ((replicas as u64) + step - 1) as int / (step as int),
            ;
        }
        it as u32
    }
}

impl core::default::Default for RollingUpdate {
    /// The default policy: two replicas are cycled per rollout batch.
    fn default() -> (d: RollingUpdate)
        ensures
            d.max_unavailable == 2,
    {
        RollingUpdate { max_unavailable: 2 }
    }
}

// ----- rollout estimation -----

/// The replica count a rollout cycles through: the autoscaling minimum when
/// autoscaling is configured, else the fixed replica count.
pub open spec fn effective_replicas(m: Manifest) -> Option<u32> {
    match m.auto_scaling {
        Some(hpa) => Some(hpa.min),
        None => m.replica_count,
    }
}

/// The declared rolling-update policy, or the default one.
pub open spec fn spec_policy(m: Manifest) -> RollingUpdate {
    match m.rolling_update {
        Some(ru) => ru,
        None => RollingUpdate { max_unavailable: 2 },
    }
}

/// Rollout iterations of a manifest with a replica count.
pub open spec fn spec_rollout_iterations(m: Manifest) -> int
    recommends
        effective_replicas(m) is Some,
{
    spec_policy(m).spec_rollout_iterations(effective_replicas(m)->Some_0)
}

/// Extra pull time for an image of `size` units: 90 s per 512 units,
/// floored at 60 s.
pub open spec fn spec_pull_estimate(size: u32) -> int {
    let p = size * 90 / 512;
    if p < 60 {
        60int
    } else {
        p
    }
}

/// Per-iteration readiness delay: one and a half times the configured wait
/// (health-check wait, else readiness-probe initial delay, else 30 s),
/// rounded up.
pub open spec fn spec_delay_seconds(m: Manifest) -> int {
    let w: int = match m.health {
        Some(h) => h.wait as int,
        None => match m.readiness_probe {
            Some(rp) => rp.initial_delay_seconds as int,
            None => 30int,
        },
    };
    (3 * w + 1) / 2
}

/// Seconds a rolling upgrade is expected to take, saturated at the result
/// type's ceiling.
pub open spec fn spec_wait_time(m: Manifest) -> int
    recommends
        effective_replicas(m) is Some,
{
    let t = (spec_delay_seconds(m) + spec_pull_estimate(m.image_size->Some_0))
        * spec_rollout_iterations(m);
    if t > u32::MAX {
        u32::MAX as int
    } else {
        t
    }
}

impl Manifest {
    /// Estimate how many iterations a rolling upgrade of this service
    /// needs, under its declared rolling-update policy or the default one.
    pub fn estimate_rollout_iterations(&self) -> (r: Result<u32, Error>)
        ensures
            r is Ok <==> effective_replicas(*self) is Some,
            (r matches Ok(n) ==> n as int == spec_rollout_iterations(*self)),
            (r matches Err(e) ==> e matches Error::MissingReplication(t) && t@ == self.name@),
    {
        let rcount: u32 = match &self.auto_scaling {
            Some(hpa) => hpa.min,
            None => {
                match self.replica_count {
                    Some(rc) => rc,
                    None => {
                        return Err(Error::MissingReplication(self.name.clone()));
                    },
                }
            },
        };
        match &self.rolling_update {
            Some(ru) => Ok(ru.rollout_iterations(rcount)),
            None => {
                let d = RollingUpdate::default();
                Ok(d.rollout_iterations(rcount))
            },
        }
    }

    /// Estimate how long to wait for a rolling upgrade: readiness delay
    /// plus pull time, per iteration. Without a declared image size the
    /// estimate falls back to 300 s whatever the other fields say; the
    /// caller may warn about that case.
    pub fn estimate_wait_time(&self) -> (r: Result<u32, Error>)
        ensures
            self.image_size is None ==> r == Ok::<u32, Error>(300u32),
            self.image_size is Some ==> (r is Ok <==> effective_replicas(*self) is Some),
            self.image_size is Some ==> (r matches Ok(w) ==> w as int == spec_wait_time(*self)),
            (r matches Err(e) ==> e matches Error::MissingReplication(t) && t@ == self.name@),
    {
        match self.image_size {
            Some(size) => {
                let raw: u64 = (size as u64) * 90 / 512;
                let pull: u64 = if raw < 60 {
                    60
                } else {
                    raw
                };
                let iters: u32 = match self.estimate_rollout_iterations() {
                    Ok(n) => n,
                    Err(e) => {
                        return Err(e);
                    },
                };
                let w: u64 = match &self.health {
                    Some(h) => h.wait as u64,
                    None => {
                        match &self.readiness_probe {
                            Some(rp) => rp.initial_delay_seconds as u64,
                            None => 30,
                        }
                    },
                };
                let delay: u64 = (3 * w + 1) / 2;
                let dp: u128 = delay as u128 + pull as u128;
                proof {
                    assert((dp as int) * (iters as int) <= 0x20000000000000000 * 0x100000000)
                        by (nonlinear_arith)
                        requires
                            dp <= 0x20000000000000000u128,
                            iters <= 0x100000000u64,
                    ;
                }
                let total: u128 = dp * (iters as u128);
                if total > u32::MAX as u128 {
                    Ok(u32::MAX)
                } else {
                    Ok(total as u32)
                }
            },
            None => Ok(300),
        }
    }
}

// ----- resource accounting -----
//
// Totals are computed over the manifest's resource *requests*. Aggregation
// runs in 128-bit arithmetic, saturating far above any representable total;
// a total that does not fit the result type is an error.

/// The manifest's request pair, when declared.
pub open spec fn main_req(m: Manifest) -> Option<ResourceRequest> {
    match m.resources {
        Some(r) => r.requests,
        None => None,
    }
}

pub open spec fn req_parses(rq: ResourceRequest) -> bool {
    mem_parse_ok(rq.memory@) && cpu_parse_ok(rq.cpu@)
}

pub open spec fn main_ok(m: Manifest) -> bool {
    main_req(m) matches Some(rq) && req_parses(rq)
}

pub open spec fn main_cpu(m: Manifest) -> int
    recommends
        main_ok(m),
{
    cpu_parsed(main_req(m)->Some_0.cpu@)
}

pub open spec fn main_mem(m: Manifest) -> int
    recommends
        main_ok(m),
{
    mem_parsed(main_req(m)->Some_0.memory@)
}

/// A sidecar either declares no resources or parsable requests.
pub open spec fn sc_ok(s: Sidecar) -> bool {
    match s.resources {
        Some(r) => r.requests matches Some(rq) && req_parses(rq),
        None => true,
    }
}

/// A sidecar's CPU request in millicores; a sidecar without resources
/// contributes nothing.
pub open spec fn sc_cpu(s: Sidecar) -> int {
    match s.resources {
        Some(r) => cpu_parsed(r.requests->Some_0.cpu@),
        None => 0,
    }
}

pub open spec fn sc_mem(s: Sidecar) -> int {
    match s.resources {
        Some(r) => mem_parsed(r.requests->Some_0.memory@),
        None => 0,
    }
}

pub open spec fn sidecars_ok(ss: Seq<Sidecar>) -> bool {
    forall|i: int| 0 <= i < ss.len() ==> sc_ok(ss[i])
}

/// Sum of sidecar CPU requests, each replicated `rc` times.
pub open spec fn sidecar_cpu_scaled(ss: Seq<Sidecar>, rc: int) -> int
    decreases ss.len(),
{
    if ss.len() == 0 {
        0
    } else {
        sidecar_cpu_scaled(ss.drop_last(), rc) + sc_cpu(ss.last()) * rc
    }
}

pub open spec fn sidecar_mem_scaled(ss: Seq<Sidecar>, rc: int) -> int
    decreases ss.len(),
{
    if ss.len() == 0 {
        0
    } else {
        sidecar_mem_scaled(ss.drop_last(), rc) + sc_mem(ss.last()) * rc
    }
}

pub open spec fn w_ok(w: Worker) -> bool {
    w.resources.requests matches Some(rq) && req_parses(rq)
}

pub open spec fn w_cpu(w: Worker) -> int
    recommends
        w_ok(w),
{
    cpu_parsed(w.resources.requests->Some_0.cpu@)
}

pub open spec fn w_mem(w: Worker) -> int
    recommends
        w_ok(w),
{
    mem_parsed(w.resources.requests->Some_0.memory@)
}

pub open spec fn workers_ok(ws: Seq<Worker>) -> bool {
    forall|i: int| 0 <= i < ws.len() ==> w_ok(ws[i])
}

/// Sum of worker-pool CPU requests, each at its own replica count.
pub open spec fn worker_cpu_sum(ws: Seq<Worker>) -> int
    decreases ws.len(),
{
    if ws.len() == 0 {
        0
    } else {
        worker_cpu_sum(ws.drop_last()) + w_cpu(ws.last()) * ws.last().replica_count
    }
}

pub open spec fn worker_mem_sum(ws: Seq<Worker>) -> int
    decreases ws.len(),
{
    if ws.len() == 0 {
        0
    } else {
        worker_mem_sum(ws.drop_last()) + w_mem(ws.last()) * ws.last().replica_count
    }
}

/// Every worker pool carries the full sidecar set at its own replica count.
pub open spec fn worker_sidecar_cpu_sum(ws: Seq<Worker>, ss: Seq<Sidecar>) -> int
    decreases ws.len(),
{
    if ws.len() == 0 {
        0
    } else {
        worker_sidecar_cpu_sum(ws.drop_last(), ss) + sidecar_cpu_scaled(
            ss,
            ws.last().replica_count as int,
        )
    }
}

pub open spec fn worker_sidecar_mem_sum(ws: Seq<Worker>, ss: Seq<Sidecar>) -> int
    decreases ws.len(),
{
    if ws.len() == 0 {
        0
    } else {
        worker_sidecar_mem_sum(ws.drop_last(), ss) + sidecar_mem_scaled(
            ss,
            ws.last().replica_count as int,
        )
    }
}

pub open spec fn has_replication(m: Manifest) -> bool {
    m.auto_scaling is Some || m.replica_count is Some
}

/// Replicas the autoscaler may add above the guaranteed minimum.
pub open spec fn headroom(hpa: Replicas) -> int {
    if hpa.max >= hpa.min {
        hpa.max - hpa.min
    } else {
        0
    }
}

/// Base CPU from the main deployment: the autoscaling minimum when
/// autoscaled (sidecars not folded in), else the fixed replica count with
/// one sidecar set per replica.
pub open spec fn spec_main_base_cpu(m: Manifest) -> int
    recommends
        main_ok(m) && has_replication(m),
{
    match m.auto_scaling {
        Some(hpa) => main_cpu(m) * hpa.min,
        None => main_cpu(m) * (m.replica_count->Some_0 as int) + sidecar_cpu_scaled(
            m.sidecars@,
            m.replica_count->Some_0 as int,
        ),
    }
}

pub open spec fn spec_main_base_mem(m: Manifest) -> int
    recommends
        main_ok(m) && has_replication(m),
{
    match m.auto_scaling {
        Some(hpa) => main_mem(m) * hpa.min,
        None => main_mem(m) * (m.replica_count->Some_0 as int) + sidecar_mem_scaled(
            m.sidecars@,
            m.replica_count->Some_0 as int,
        ),
    }
}

/// Guaranteed CPU demand: main deployment, then every worker pool with its
/// own sidecar set.
pub open spec fn spec_base_cpu(m: Manifest) -> int
    recommends
        main_ok(m) && has_replication(m),
{
    spec_main_base_cpu(m) + worker_cpu_sum(m.workers@) + worker_sidecar_cpu_sum(
        m.workers@,
        m.sidecars@,
    )
}

pub open spec fn spec_base_mem(m: Manifest) -> int
    recommends
        main_ok(m) && has_replication(m),
{
    spec_main_base_mem(m) + worker_mem_sum(m.workers@) + worker_sidecar_mem_sum(
        m.workers@,
        m.sidecars@,
    )
}

/// Autoscaling ceiling above the base; only the main deployment's
/// autoscaling counts, worker or sidecar autoscaling never does.
pub open spec fn spec_extra_cpu(m: Manifest) -> int
    recommends
        main_ok(m),
{
    match m.auto_scaling {
        Some(hpa) => main_cpu(m) * headroom(hpa),
        None => 0,
    }
}

pub open spec fn spec_extra_mem(m: Manifest) -> int
    recommends
        main_ok(m),
{
    match m.auto_scaling {
        Some(hpa) => main_mem(m) * headroom(hpa),
        None => 0,
    }
}

/// `s` is one of the quantity strings the accountant may parse for this
/// manifest, and it is rejected: the offending value of a unit error.
pub open spec fn is_bad_quantity(m: Manifest, s: Seq<char>) -> bool {
    (main_req(m) matches Some(rq) && ((s == rq.memory@ && !mem_parse_ok(s)) || (s == rq.cpu@
        && !cpu_parse_ok(s)))) || (exists|i: int|
        0 <= i < m.sidecars@.len() && ((#[trigger] m.sidecars@[i]).resources matches Some(r)
            && (r.requests matches Some(rq) && ((s == rq.memory@ && !mem_parse_ok(s)) || (s
            == rq.cpu@ && !cpu_parse_ok(s)))))) || (exists|i: int|
        0 <= i < m.workers@.len() && ((#[trigger] m.workers@[i]).resources.requests matches Some(
            rq,
        ) && ((s == rq.memory@ && !mem_parse_ok(s)) || (s == rq.cpu@ && !cpu_parse_ok(s)))))
}

/// When `compute_resource_totals` succeeds: the needed quantities parse,
/// replication is declared, and the totals fit the result type. Sidecars
/// are parsed only where they are accounted: under a fixed replica count,
/// or for worker pools.
pub open spec fn totals_ok(m: Manifest) -> bool {
    main_ok(m) && has_replication(m) && (m.auto_scaling is None ==> sidecars_ok(m.sidecars@))
        && workers_ok(m.workers@) && (m.workers@.len() > 0 ==> sidecars_ok(m.sidecars@))
        && spec_base_cpu(m) <= u64::MAX && spec_base_mem(m) <= u64::MAX && spec_extra_cpu(m)
        <= u64::MAX && spec_extra_mem(m) <= u64::MAX
}

/// Saturation ceiling of the 128-bit accumulators.
pub open spec fn cap128(x: int) -> int {
    if x > u128::MAX {
        u128::MAX as int
    } else {
        x
    }
}

proof fn lemma_sidecar_take_step(ss: Seq<Sidecar>, i: int, rc: int)
    requires
        0 <= i < ss.len(),
    ensures
        sidecar_cpu_scaled(ss.take(i + 1), rc) == sidecar_cpu_scaled(ss.take(i), rc) + sc_cpu(
            ss[i],
        ) * rc,
        sidecar_mem_scaled(ss.take(i + 1), rc) == sidecar_mem_scaled(ss.take(i), rc) + sc_mem(
            ss[i],
        ) * rc,
{
    assert(ss.take(i + 1).drop_last() =~= ss.take(i));
    assert(ss.take(i + 1).last() == ss[i]);
}

proof fn lemma_worker_take_step(ws: Seq<Worker>, ss: Seq<Sidecar>, i: int)
    requires
        0 <= i < ws.len(),
    ensures
        worker_cpu_sum(ws.take(i + 1)) == worker_cpu_sum(ws.take(i)) + w_cpu(ws[i])
            * ws[i].replica_count,
        worker_mem_sum(ws.take(i + 1)) == worker_mem_sum(ws.take(i)) + w_mem(ws[i])
            * ws[i].replica_count,
        worker_sidecar_cpu_sum(ws.take(i + 1), ss) == worker_sidecar_cpu_sum(ws.take(i), ss)
            + sidecar_cpu_scaled(ss, ws[i].replica_count as int),
        worker_sidecar_mem_sum(ws.take(i + 1), ss) == worker_sidecar_mem_sum(ws.take(i), ss)
            + sidecar_mem_scaled(ss, ws[i].replica_count as int),
{
    assert(ws.take(i + 1).drop_last() =~= ws.take(i));
    assert(ws.take(i + 1).last() == ws[i]);
}

/// Add saturating at the 128-bit ceiling.
fn sat_add128(a: u128, b: u128) -> (r: u128)
    ensures
        r as int == cap128(a as int + b as int),
{
    if b > u128::MAX - a {
        u128::MAX
    } else {
        a + b
    }
}

/// A request scaled by a replica count, exactly, in 128 bits.
fn scale64(v: u64, n: u32) -> (r: u128)
    ensures
        r as int == v as int * n as int,
{
    proof {
        vstd::arithmetic::mul::lemma_mul_upper_bound(
            v as int,
            u64::MAX as int,
            n as int,
            u32::MAX as int,
        );
    }
    (v as u128) * (n as u128)
}

impl Manifest {
    /// Total resource usage of this service: the guaranteed base over
    /// replicas, sidecars and workers, and the autoscaling ceiling above
    /// it, both in millicores and bytes.
    pub fn compute_resource_totals(&self) -> (r: Result<ResourceTotals, Error>)
        ensures
            r is Ok <==> totals_ok(*self),
            (r matches Ok(t) ==> t.base.cpu_millis as int == spec_base_cpu(*self)
                && t.base.memory_bytes as int == spec_base_mem(*self) && t.extra.cpu_millis as int
                == spec_extra_cpu(*self) && t.extra.memory_bytes as int == spec_extra_mem(*self)),
            (r matches Err(e) ==> (e matches Error::MissingResources || e matches Error::UnitParse(
                _,
            ) || (e matches Error::MissingReplication(t) && t@ == self.name@) || e
                matches Error::Overflow)),
            (r matches Err(e) ==> (e matches Error::UnitParse(t) ==> is_bad_quantity(
                *self,
                t@,
            ))),
            main_req(*self) is None ==> r == Err::<ResourceTotals, Error>(Error::MissingResources),
            main_ok(*self) && !has_replication(*self) ==> (r matches Err(e) && e
                matches Error::MissingReplication(t) && t@ == self.name@),
    {
        let rq = match &self.resources {
            Some(res) => {
                match &res.requests {
                    Some(rq) => rq,
                    None => {
                        return Err(Error::MissingResources);
                    },
                }
            },
            None => {
                return Err(Error::MissingResources);
            },
        };
        let mmem: u64 = match parse_memory(rq.memory.as_str()) {
            Ok(v) => v,
            Err(e) => {
                proof {
                    assert(is_bad_quantity(*self, rq.memory@));
                }
                return Err(e);
            },
        };
        let mcpu: u64 = match parse_cpu(rq.cpu.as_str()) {
            Ok(v) => v,
            Err(e) => {
                proof {
                    assert(is_bad_quantity(*self, rq.cpu@));
                }
                return Err(e);
            },
        };
        let mut base_cpu: u128 = 0;
        let mut base_mem: u128 = 0;
        let mut extra_cpu: u128 = 0;
        let mut extra_mem: u128 = 0;
        match &self.auto_scaling {
            Some(hpa) => {
                base_cpu = scale64(mcpu, hpa.min);
                base_mem = scale64(mmem, hpa.min);
                let head: u32 = if hpa.max >= hpa.min {
                    hpa.max - hpa.min
                } else {
                    0
                };
                extra_cpu = scale64(mcpu, head);
                extra_mem = scale64(mmem, head);
            },
            None => {
                let rc: u32 = match self.replica_count {
                    Some(rc) => rc,
                    None => {
                        return Err(Error::MissingReplication(self.name.clone()));
                    },
                };
                base_cpu = scale64(mcpu, rc);
                base_mem = scale64(mmem, rc);
                let mut i: usize = 0;
                let scount = self.sidecars.len();
                while i < scount
                    invariant
                        i <= scount,
                        scount == self.sidecars@.len(),
                        self.auto_scaling is None,
                        self.replica_count == Some(rc),
                        main_ok(*self),
                        mcpu as int == main_cpu(*self),
                        mmem as int == main_mem(*self),
                        forall|j: int| 0 <= j < i ==> sc_ok(self.sidecars@[j]),
                        base_cpu as int == cap128(
                            main_cpu(*self) * rc + sidecar_cpu_scaled(
                                self.sidecars@.take(i as int),
                                rc as int,
                            ),
                        ),
                        base_mem as int == cap128(
                            main_mem(*self) * rc + sidecar_mem_scaled(
                                self.sidecars@.take(i as int),
                                rc as int,
                            ),
                        ),
                        extra_cpu == 0,
                        extra_mem == 0,
                    decreases scount - i,
                {
                    proof {
                        lemma_sidecar_take_step(self.sidecars@, i as int, rc as int);
                    }
                    match &self.sidecars[i].resources {
                        Some(scr) => {
                            match &scr.requests {
                                Some(srq) => {
                                    let smem: u64 = match parse_memory(srq.memory.as_str()) {
                                        Ok(v) => v,
                                        Err(e) => {
                                            proof {
                                                assert(!sc_ok(self.sidecars@[i as int]));
                                                assert(is_bad_quantity(*self, srq.memory@));
                                            }
                                            return Err(e);
                                        },
                                    };
                                    let scpu: u64 = match parse_cpu(srq.cpu.as_str()) {
                                        Ok(v) => v,
                                        Err(e) => {
                                            proof {
                                                assert(!sc_ok(self.sidecars@[i as int]));
                                                assert(is_bad_quantity(*self, srq.cpu@));
                                            }
                                            return Err(e);
                                        },
                                    };
                                    base_cpu = sat_add128(base_cpu, scale64(scpu, rc));
                                    base_mem = sat_add128(base_mem, scale64(smem, rc));
                                },
                                None => {
                                    proof {
                                        assert(!sc_ok(self.sidecars@[i as int]));
                                    }
                                    return Err(Error::MissingResources);
                                },
                            }
                        },
                        None => {},
                    }
                    i = i + 1;
                }
                proof {
                    assert(self.sidecars@.take(scount as int) =~= self.sidecars@);
                }
            },
        }
        let ghost main_base_cpu: int = spec_main_base_cpu(*self);
        let ghost main_base_mem: int = spec_main_base_mem(*self);
        let wcount = self.workers.len();
        let mut wi: usize = 0;
        while wi < wcount
            invariant
                wi <= wcount,
                wcount == self.workers@.len(),
                main_ok(*self),
                has_replication(*self),
                mcpu as int == main_cpu(*self),
                mmem as int == main_mem(*self),
                main_base_cpu == spec_main_base_cpu(*self),
                main_base_mem == spec_main_base_mem(*self),
                self.auto_scaling is None ==> sidecars_ok(self.sidecars@),
                wi >= 1 ==> sidecars_ok(self.sidecars@),
                forall|j: int| 0 <= j < wi ==> w_ok(self.workers@[j]),
                extra_cpu as int == spec_extra_cpu(*self),
                extra_mem as int == spec_extra_mem(*self),
                base_cpu as int == cap128(
                    main_base_cpu + worker_cpu_sum(self.workers@.take(wi as int))
                        + worker_sidecar_cpu_sum(self.workers@.take(wi as int), self.sidecars@),
                ),
                base_mem as int == cap128(
                    main_base_mem + worker_mem_sum(self.workers@.take(wi as int))
                        + worker_sidecar_mem_sum(self.workers@.take(wi as int), self.sidecars@),
                ),
            decreases wcount - wi,
        {
            proof {
                lemma_worker_take_step(self.workers@, self.sidecars@, wi as int);
            }
            let w = &self.workers[wi];
            let wrc: u32 = w.replica_count;
            let wrq = match &w.resources.requests {
                Some(wrq) => wrq,
                None => {
                    proof {
                        assert(!w_ok(self.workers@[wi as int]));
                    }
                    return Err(Error::MissingResources);
                },
            };
            let wmem: u64 = match parse_memory(wrq.memory.as_str()) {
                Ok(v) => v,
                Err(e) => {
                    proof {
                        assert(!w_ok(self.workers@[wi as int]));
                        assert(is_bad_quantity(*self, wrq.memory@));
                    }
                    return Err(e);
                },
            };
            let wcpu: u64 = match parse_cpu(wrq.cpu.as_str()) {
                Ok(v) => v,
                Err(e) => {
                    proof {
                        assert(!w_ok(self.workers@[wi as int]));
                        assert(is_bad_quantity(*self, wrq.cpu@));
                    }
                    return Err(e);
                },
            };
            base_cpu = sat_add128(base_cpu, scale64(wcpu, wrc));
            base_mem = sat_add128(base_mem, scale64(wmem, wrc));
            let ghost base_cpu_at_worker: int = main_base_cpu + worker_cpu_sum(
                self.workers@.take(wi + 1),
            ) + worker_sidecar_cpu_sum(self.workers@.take(wi as int), self.sidecars@);
            let ghost base_mem_at_worker: int = main_base_mem + worker_mem_sum(
                self.workers@.take(wi + 1),
            ) + worker_sidecar_mem_sum(self.workers@.take(wi as int), self.sidecars@);
            let mut j: usize = 0;
            let scount = self.sidecars.len();
            while j < scount
                invariant
                    j <= scount,
                    scount == self.sidecars@.len(),
                    main_ok(*self),
                    has_replication(*self),
                    self.workers@.len() > 0,
                    forall|k: int| 0 <= k < j ==> sc_ok(self.sidecars@[k]),
                    base_cpu as int == cap128(
                        base_cpu_at_worker + sidecar_cpu_scaled(
                            self.sidecars@.take(j as int),
                            wrc as int,
                        ),
                    ),
                    base_mem as int == cap128(
                        base_mem_at_worker + sidecar_mem_scaled(
                            self.sidecars@.take(j as int),
                            wrc as int,
                        ),
                    ),
                decreases scount - j,
            {
                proof {
                    lemma_sidecar_take_step(self.sidecars@, j as int, wrc as int);
                }
                match &self.sidecars[j].resources {
                    Some(scr) => {
                        match &scr.requests {
                            Some(srq) => {
                                let smem: u64 = match parse_memory(srq.memory.as_str()) {
                                    Ok(v) => v,
                                    Err(e) => {
                                        proof {
                                            assert(!sc_ok(self.sidecars@[j as int]));
                                            assert(is_bad_quantity(*self, srq.memory@));
                                        }
                                        return Err(e);
                                    },
                                };
                                let scpu: u64 = match parse_cpu(srq.cpu.as_str()) {
                                    Ok(v) => v,
                                    Err(e) => {
                                        proof {
                                            assert(!sc_ok(self.sidecars@[j as int]));
                                            assert(is_bad_quantity(*self, srq.cpu@));
                                        }
                                        return Err(e);
                                    },
                                };
                                base_cpu = sat_add128(base_cpu, scale64(scpu, wrc));
                                base_mem = sat_add128(base_mem, scale64(smem, wrc));
                            },
                            None => {
                                proof {
                                    assert(!sc_ok(self.sidecars@[j as int]));
                                }
                                return Err(Error::MissingResources);
                            },
                        }
                    },
                    None => {},
                }
                j = j + 1;
            }
            proof {
                assert(self.sidecars@.take(scount as int) =~= self.sidecars@);
            }
            wi = wi + 1;
        }
        proof {
            assert(self.workers@.take(wcount as int) =~= self.workers@);
        }
        if base_cpu > u64::MAX as u128 || base_mem > u64::MAX as u128 || extra_cpu > u64::MAX
            as u128 || extra_mem > u64::MAX as u128 {
            return Err(Error::Overflow);
        }
        Ok(
            ResourceTotals {
                base: ResourceAmounts {
                    cpu_millis: base_cpu as u64,
                    memory_bytes: base_mem as u64,
                },
                extra: ResourceAmounts {
                    cpu_millis: extra_cpu as u64,
                    memory_bytes: extra_mem as u64,
                },
            },
        )
    }
}

} // verus!
