//! The manifest data model: one service's full deployment description,
//! together with quantity parsing and manifest validation.

use vstd::prelude::*;
use crate::errors::Error;

verus! {

/// Resource requests for the scheduler, as unit-suffixed quantity strings.
#[derive(Clone)]
pub struct ResourceRequest {
    /// CPU request string
    pub cpu: String,
    /// Memory request string
    pub memory: String,
}

/// Resource limits for the scheduler, as unit-suffixed quantity strings.
#[derive(Clone)]
pub struct ResourceLimit {
    /// CPU limit string
    pub cpu: String,
    /// Memory limit string
    pub memory: String,
}

/// A normalizable request/limit pair.
#[derive(Clone)]
pub struct Resources {
    /// Resource requests
    pub requests: Option<ResourceRequest>,
    /// Resource limits
    pub limits: Option<ResourceLimit>,
}

/// Replication bounds: the guaranteed minimum and the autoscaling ceiling.
#[derive(Clone)]
pub struct Replicas {
    /// Minimum number of replicas
    pub min: u32,
    /// Maximum number of replicas
    pub max: u32,
}

/// A file from a config map, mounted under a mount point.
#[derive(Clone)]
pub struct ConfigMountedFile {
    /// Name of the file to template
    pub name: String,
    /// Name of the file as used in code
    pub dest: String,
}

/// A config volume: a mount point and the files under it.
#[derive(Clone)]
pub struct ConfigMount {
    /// Optional volume name (filled in by `implicits` when left out)
    pub name: Option<String>,
    /// Container-local path where the configs are available
    pub mount: String,
    /// Files from the config map to mount at this mount path
    pub configs: Vec<ConfigMountedFile>,
}

/// A dashboard to generate: the metric rows to track.
#[derive(Clone)]
pub struct Dashboard {
    /// Metric strings to track
    pub rows: Vec<String>,
}

/// Metric polling options.
#[derive(Clone)]
pub struct Prometheus {
    /// Whether to poll
    pub enabled: bool,
    /// Path to poll
    pub path: String,
}

/// Options for the secret store, when they differ from the defaults.
#[derive(Clone)]
pub struct VaultOpts {
    /// Secret-store name, if it differs from the service name
    pub name: Option<String>,
    /// Suffix under which the secret lives, if any
    pub suffix: Option<String>,
}

/// Health check parameters.
#[derive(Clone)]
pub struct HealthCheck {
    /// Where the health check is located (typically /health)
    pub uri: String,
    /// How long to wait after boot, in seconds
    pub wait: u32,
}

/// Readiness probe parameters.
#[derive(Clone)]
pub struct ReadinessProbe {
    /// Seconds to wait before the first probe
    pub initial_delay_seconds: u32,
}

/// The protocol a dependency is consumed over.
#[derive(Clone, Copy, PartialEq, Eq, Structural, Debug)]
pub enum DependencyProtocol {
    Http,
    Grpc,
    Other,
}

/// A declared edge from one service to another it calls.
#[derive(Clone)]
pub struct Dependency {
    /// Name of the target service
    pub name: String,
    /// Identifier of the consumed interface
    pub api: String,
    /// Optional version/contract tag
    pub contract: Option<String>,
    /// Protocol the interface is consumed over
    pub protocol: DependencyProtocol,
    /// Optional free-text rationale
    pub intent: Option<String>,
}

/// An auxiliary container co-scheduled one-per-replica with the service.
#[derive(Clone)]
pub struct Sidecar {
    /// The sidecar's own resources, when it declares any
    pub resources: Option<Resources>,
}

/// An independently replicated auxiliary deployment of the same service.
#[derive(Clone)]
pub struct Worker {
    /// The worker pool's resources
    pub resources: Resources,
    /// The worker pool's own replica count
    pub replica_count: u32,
}

/// Rolling-update policy: how many replicas are cycled per rollout batch.
#[derive(Clone)]
pub struct RollingUpdate {
    /// How many instances become unavailable (and are replaced) per step
    pub max_unavailable: u32,
}

/// One service's full deployment description.
#[derive(Clone)]
pub struct Manifest {
    /// Name of the service: the unique fleet-wide key
    pub name: String,
    /// Optional image name (if different from the service name)
    pub image: Option<String>,
    /// Optional image command
    pub command: Option<String>,
    /// Declared dependencies, in declaration order, not pre-deduplicated
    pub dependencies: Vec<Dependency>,
    /// Resource limits and requests
    pub resources: Option<Resources>,
    /// Fixed replica count, when not autoscaled
    pub replica_count: Option<u32>,
    /// Autoscaling bounds, when autoscaled
    pub auto_scaling: Option<Replicas>,
    /// Sidecars, run one-per-replica of the main deployment and of workers
    pub sidecars: Vec<Sidecar>,
    /// Worker pools
    pub workers: Vec<Worker>,
    /// Config volumes to mount
    pub volumes: Vec<ConfigMount>,
    /// Ports to expose
    pub ports: Vec<u32>,
    /// Environment variables to inject
    pub env: Vec<(String, String)>,
    /// Secret-store options
    pub vault: Option<VaultOpts>,
    /// Health check parameters
    pub health: Option<HealthCheck>,
    /// Readiness probe parameters
    pub readiness_probe: Option<ReadinessProbe>,
    /// Image size, in size units (512 units add 90 s of pull time)
    pub image_size: Option<u32>,
    /// Rolling-update policy, when declared
    pub rolling_update: Option<RollingUpdate>,
    /// Metric polling options
    pub prometheus: Option<Prometheus>,
    /// Dashboards to generate, by name
    pub dashboards: Vec<(String, Dashboard)>,
    /// Internal path of this manifest
    pub location: String,
}

impl core::default::Default for HealthCheck {
    /// An empty health check: no URI, no wait.
    fn default() -> (h: HealthCheck)
        ensures
            h.uri@ == Seq::<char>::empty(),
            h.wait == 0,
    {
        HealthCheck { uri: String::new(), wait: 0 }
    }
}

impl core::default::Default for Manifest {
    /// An empty manifest: empty name, nothing declared.
    fn default() -> (m: Manifest)
        ensures
            m.name@ == Seq::<char>::empty(),
            m.image is None,
            m.command is None,
            m.dependencies@ == Seq::<Dependency>::empty(),
            m.resources is None,
            m.replica_count is None,
            m.auto_scaling is None,
            m.sidecars@ == Seq::<Sidecar>::empty(),
            m.workers@ == Seq::<Worker>::empty(),
            m.volumes@ == Seq::<ConfigMount>::empty(),
            m.ports@ == Seq::<u32>::empty(),
            m.env@ == Seq::<(String, String)>::empty(),
            m.vault is None,
            m.health is None,
            m.readiness_probe is None,
            m.image_size is None,
            m.rolling_update is None,
            m.prometheus is None,
            m.dashboards@ == Seq::<(String, Dashboard)>::empty(),
            m.location@ == Seq::<char>::empty(),
    {
        Manifest {
            name: String::new(),
            image: None,
            command: None,
            dependencies: Vec::new(),
            resources: None,
            replica_count: None,
            auto_scaling: None,
            sidecars: Vec::new(),
            workers: Vec::new(),
            volumes: Vec::new(),
            ports: Vec::new(),
            env: Vec::new(),
            vault: None,
            health: None,
            readiness_probe: None,
            image_size: None,
            rolling_update: None,
            prometheus: None,
            dashboards: Vec::new(),
            location: String::new(),
        }
    }
}

impl Manifest {
    /// A fresh manifest holding only its name and its path.
    pub fn new(name: &str, location: &str) -> (m: Manifest)
        ensures
            m.name@ == name@,
            m.location@ == location@,
            m.image is None,
            m.command is None,
            m.dependencies@ == Seq::<Dependency>::empty(),
            m.resources is None,
            m.replica_count is None,
            m.auto_scaling is None,
            m.sidecars@ == Seq::<Sidecar>::empty(),
            m.workers@ == Seq::<Worker>::empty(),
            m.volumes@ == Seq::<ConfigMount>::empty(),
            m.ports@ == Seq::<u32>::empty(),
            m.env@ == Seq::<(String, String)>::empty(),
            m.vault is None,
            m.health is None,
            m.readiness_probe is None,
            m.image_size is None,
            m.rolling_update is None,
            m.prometheus is None,
            m.dashboards@ == Seq::<(String, Dashboard)>::empty(),
    {
        let mut m = Manifest::default();
        m.name = name.to_owned();
        m.location = location.to_owned();
        m
    }
}

// ----- resource quantity parsing -----
//
// Quantities are normalised onto exact integer grids: memory to bytes,
// CPU to millicores. A magnitude is the leading run of digits and decimal
// points; the rest of the string is the unit. A magnitude with no digit,
// more than one decimal point or more than 15 digits is rejected, as is a
// value that does not land exactly on the integer grid.

pub open spec fn is_digit_char(c: char) -> bool {
    48 <= c as int && c as int <= 57
}

pub open spec fn digit_val(c: char) -> nat
    recommends
        is_digit_char(c),
{
    (c as int - 48) as nat
}

pub open spec fn is_magnitude_char(c: char) -> bool {
    is_digit_char(c) || c == '.'
}

/// Index where the leading digit/decimal-point run ends, scanning from `i`.
pub open spec fn magnitude_end_from(s: Seq<char>, i: nat) -> nat
    decreases s.len() - i,
{
    if i >= s.len() {
        i
    } else if !is_magnitude_char(s[i as int]) {
        i
    } else {
        magnitude_end_from(s, i + 1)
    }
}

/// Decimal points among the first `k` characters.
pub open spec fn dots_in(s: Seq<char>, k: nat) -> nat
    decreases k,
{
    if k == 0 {
        0
    } else {
        dots_in(s, (k - 1) as nat) + (if s[k - 1] == '.' {
            1nat
        } else {
            0nat
        })
    }
}

/// Digits among the first `k` characters.
pub open spec fn digits_in(s: Seq<char>, k: nat) -> nat
    decreases k,
{
    if k == 0 {
        0
    } else {
        digits_in(s, (k - 1) as nat) + (if is_digit_char(s[k - 1]) {
            1nat
        } else {
            0nat
        })
    }
}

/// The digits among the first `k` characters read as one decimal number,
/// the decimal point skipped.
pub open spec fn mantissa_of(s: Seq<char>, k: nat) -> nat
    decreases k,
{
    if k == 0 {
        0
    } else if is_digit_char(s[k - 1]) {
        mantissa_of(s, (k - 1) as nat) * 10 + digit_val(s[k - 1])
    } else {
        mantissa_of(s, (k - 1) as nat)
    }
}

/// Digits after the decimal point among the first `k` characters.
pub open spec fn frac_digits(s: Seq<char>, k: nat) -> nat
    decreases k,
{
    if k == 0 {
        0
    } else if s[k - 1] == '.' {
        0
    } else if dots_in(s, (k - 1) as nat) == 0 {
        0
    } else {
        frac_digits(s, (k - 1) as nat) + (if is_digit_char(s[k - 1]) {
            1nat
        } else {
            0nat
        })
    }
}

pub open spec fn pow10(n: nat) -> nat
    decreases n,
{
    if n == 0 {
        1
    } else {
        10 * pow10((n - 1) as nat)
    }
}

/// A well-formed magnitude: at least one digit, at most one decimal point,
/// at most 15 digits.
pub open spec fn magnitude_valid(s: Seq<char>, k: nat) -> bool {
    1 <= digits_in(s, k) && digits_in(s, k) <= 15 && dots_in(s, k) <= 1
}

/// `mantissa / 10^frac * mult`, when that lands exactly on the integer grid.
pub open spec fn scaled_value(mant: nat, frac: nat, mult: nat) -> Option<int> {
    if (mant * mult) % pow10(frac) == 0 {
        Some(((mant * mult) / pow10(frac)) as int)
    } else {
        None
    }
}

/// Multiplier from a memory unit suffix to bytes.
pub open spec fn memory_unit_mult(u: Seq<char>) -> Option<nat> {
    if u.len() == 0 {
        Some(1nat)
    } else if u.len() == 1 && u[0] == 'k' {
        Some(1000nat)
    } else if u.len() == 1 && u[0] == 'M' {
        Some(1000000nat)
    } else if u.len() == 1 && u[0] == 'G' {
        Some(1000000000nat)
    } else if u.len() == 2 && u[0] == 'K' && u[1] == 'i' {
        Some(1024nat)
    } else if u.len() == 2 && u[0] == 'M' && u[1] == 'i' {
        Some(1048576nat)
    } else if u.len() == 2 && u[0] == 'G' && u[1] == 'i' {
        Some(1073741824nat)
    } else {
        None
    }
}

/// Multiplier from a CPU unit suffix to millicores.
pub open spec fn cpu_unit_mult(u: Seq<char>) -> Option<nat> {
    if u.len() == 0 {
        Some(1000nat)
    } else if u.len() == 1 && u[0] == 'm' {
        Some(1nat)
    } else if u.len() == 1 && u[0] == 'k' {
        Some(1000000nat)
    } else {
        None
    }
}

/// Exact number of bytes a memory quantity string denotes; `None` where the
/// string is rejected.
pub open spec fn mem_bytes(s: Seq<char>) -> Option<int> {
    let k = magnitude_end_from(s, 0);
    if !magnitude_valid(s, k) {
        None
    } else {
        match memory_unit_mult(s.skip(k as int)) {
            Some(mult) => scaled_value(mantissa_of(s, k), frac_digits(s, k), mult),
            None => None,
        }
    }
}

/// Exact number of millicores a CPU quantity string denotes; `None` where
/// the string is rejected.
pub open spec fn cpu_millis(s: Seq<char>) -> Option<int> {
    let k = magnitude_end_from(s, 0);
    if !magnitude_valid(s, k) {
        None
    } else {
        match cpu_unit_mult(s.skip(k as int)) {
            Some(mult) => scaled_value(mantissa_of(s, k), frac_digits(s, k), mult),
            None => None,
        }
    }
}

/// The memory string parses and its byte count fits the result type.
pub open spec fn mem_parse_ok(s: Seq<char>) -> bool {
    match mem_bytes(s) {
        Some(v) => v <= u64::MAX,
        None => false,
    }
}

/// Byte count of a memory string that parses.
pub open spec fn mem_parsed(s: Seq<char>) -> int {
    match mem_bytes(s) {
        Some(v) => v,
        None => 0,
    }
}

/// The CPU string parses and its millicore count fits the result type.
pub open spec fn cpu_parse_ok(s: Seq<char>) -> bool {
    match cpu_millis(s) {
        Some(v) => v <= u64::MAX,
        None => false,
    }
}

/// Millicore count of a CPU string that parses.
pub open spec fn cpu_parsed(s: Seq<char>) -> int {
    match cpu_millis(s) {
        Some(v) => v,
        None => 0,
    }
}

proof fn lemma_pow10_pos(n: nat)
    ensures
        pow10(n) >= 1,
    decreases n,
{
    if n > 0 {
        lemma_pow10_pos((n - 1) as nat);
    }
}

proof fn lemma_pow10_monotone(a: nat, b: nat)
    requires
        a <= b,
    ensures
        pow10(a) <= pow10(b),
        pow10(a) >= 1,
    decreases b,
{
    lemma_pow10_pos(a);
    if a < b {
        lemma_pow10_monotone(a, (b - 1) as nat);
        lemma_pow10_pos((b - 1) as nat);
    }
}

proof fn lemma_pow10_values()
    ensures
        pow10(14nat) == 100000000000000nat,
        pow10(15nat) == 1000000000000000nat,
{
    reveal_with_fuel(pow10, 16);
}

proof fn lemma_mantissa_bound(s: Seq<char>, k: nat)
    requires
        k <= s.len(),
    ensures
        mantissa_of(s, k) < pow10(digits_in(s, k)),
    decreases k,
{
    if k > 0 {
        lemma_mantissa_bound(s, (k - 1) as nat);
    }
}

/// Scan of the leading magnitude: where it ends, the mantissa, the count of
/// fraction digits, and whether the magnitude is well formed.
fn scan_magnitude(s: &str) -> (r: (usize, u64, u64, bool))
    ensures
        r.0 as nat == magnitude_end_from(s@, 0),
        r.0 <= s@.len(),
        r.3 == magnitude_valid(s@, r.0 as nat),
        r.3 ==> r.1 as nat == mantissa_of(s@, r.0 as nat) && r.2 as nat == frac_digits(
            s@,
            r.0 as nat,
        ) && r.2 <= 15,
{
    let n = s.unicode_len();
    let mut i: usize = 0;
    let mut dots: usize = 0;
    let mut digits: usize = 0;
    let mut frac: usize = 0;
    let mut mant: u64 = 0;
    let mut done: bool = false;
    while i < n && !done
        invariant
            i <= n,
            n == s@.len(),
            magnitude_end_from(s@, 0) == magnitude_end_from(s@, i as nat),
            !done ==> dots == dots_in(s@, i as nat),
            !done ==> digits == digits_in(s@, i as nat),
            !done ==> frac == frac_digits(s@, i as nat),
            frac <= digits,
            digits <= i,
            dots <= i,
            dots == 0 ==> frac == 0,
            !done && digits <= 15 ==> mant as nat == mantissa_of(s@, i as nat),
            done ==> i as nat == magnitude_end_from(s@, 0) && dots == dots_in(s@, i as nat)
                && digits == digits_in(s@, i as nat) && frac == frac_digits(s@, i as nat) && (
            digits <= 15 ==> mant as nat == mantissa_of(s@, i as nat)),
        decreases n - i + (if done {
            0int
        } else {
            1int
        }),
    {
        let c = s.get_char(i);
        if c == '.' {
            dots = dots + 1;
            frac = 0;
            i = i + 1;
        } else {
            let cu = c as u32;
            if 48 <= cu && cu <= 57 {
                if digits < 15 {
                    proof {
                        lemma_mantissa_bound(s@, i as nat);
                        lemma_pow10_monotone(digits_in(s@, i as nat), 14nat);
                        lemma_pow10_values();
                    }
                    mant = mant * 10 + ((cu - 48) as u64);
                }
                digits = digits + 1;
                if dots > 0 {
                    frac = frac + 1;
                }
                i = i + 1;
            } else {
                done = true;
            }
        }
    }
    let valid = digits >= 1 && digits <= 15 && dots <= 1;
    (i, mant, frac as u64, valid)
}

fn pow10_u64(n: u64) -> (r: u64)
    requires
        n <= 15,
    ensures
        r as nat == pow10(n as nat),
        r >= 1,
{
    let mut r: u64 = 1;
    let mut i: u64 = 0;
    while i < n
        invariant
            i <= n <= 15,
            r as nat == pow10(i as nat),
        decreases n - i,
    {
        proof {
            lemma_pow10_monotone(i as nat, 14nat);
            lemma_pow10_values();
        }
        r = r * 10;
        i = i + 1;
    }
    proof {
        lemma_pow10_monotone(0nat, n as nat);
    }
    r
}

/// Apply the unit multiplier and the decimal point exactly; reject values
/// off the integer grid or beyond the result type.
fn scale_quantity(mant: u64, frac: u64, mult: u64, s: &str) -> (r: Result<u64, Error>)
    requires
        frac <= 15,
        mult <= 1073741824,
    ensures
        (match scaled_value(mant as nat, frac as nat, mult as nat) {
            Some(v) => {
                if v <= u64::MAX {
                    r matches Ok(x) && x as int == v
                } else {
                    r matches Err(e) && (e matches Error::UnitParse(t) && t@ == s@)
                }
            },
            None => r matches Err(e) && (e matches Error::UnitParse(t) && t@ == s@),
        }),
{
    proof {
        assert((mant as int) * (mult as int) <= 0xFFFFFFFFFFFFFFFF * 1073741824int)
            by (nonlinear_arith)
            requires
                mant <= 0xFFFFFFFFFFFFFFFFu64,
                mult <= 1073741824u64,
        ;
    }
    let num: u128 = (mant as u128) * (mult as u128);
    let p: u64 = pow10_u64(frac);
    let pv: u128 = p as u128;
    if num % pv == 0 {
        let v: u128 = num / pv;
        if v <= u64::MAX as u128 {
            Ok(v as u64)
        } else {
            Err(Error::UnitParse(s.to_owned()))
        }
    } else {
        Err(Error::UnitParse(s.to_owned()))
    }
}

/// Parse a memory quantity string into bytes, per the unit table
/// `Ki` `Mi` `Gi` `k` `M` `G` and bare bytes.
pub fn parse_memory(s: &str) -> (r: Result<u64, Error>)
    ensures
        r is Ok <==> mem_parse_ok(s@),
        (r matches Ok(v) ==> v as int == mem_parsed(s@)),
        (r matches Err(e) ==> e matches Error::UnitParse(t) && t@ == s@),
{
    let n = s.unicode_len();
    let (k, mant, frac, valid) = scan_magnitude(s);
    if !valid {
        return Err(Error::UnitParse(s.to_owned()));
    }
    let rem = n - k;
    let ghost u: Seq<char> = s@.skip(k as int);
    proof {
        assert(u.len() == rem);
        assert(forall|j: int| 0 <= j < u.len() ==> u[j] == s@[k + j]);
    }
    let mult: u64 = if rem == 0 {
        1
    } else if rem == 1 {
        let c = s.get_char(k);
        if c == 'k' {
            1000
        } else if c == 'M' {
            1000000
        } else if c == 'G' {
            1000000000
        } else {
            return Err(Error::UnitParse(s.to_owned()));
        }
    } else if rem == 2 {
        let c0 = s.get_char(k);
        let c1 = s.get_char(k + 1);
        if c0 == 'K' && c1 == 'i' {
            1024
        } else if c0 == 'M' && c1 == 'i' {
            1048576
        } else if c0 == 'G' && c1 == 'i' {
            1073741824
        } else {
            return Err(Error::UnitParse(s.to_owned()));
        }
    } else {
        return Err(Error::UnitParse(s.to_owned()));
    };
    proof {
        assert(memory_unit_mult(u) == Some(mult as nat));
    }
    scale_quantity(mant, frac, mult, s)
}

/// Parse a CPU quantity string into millicores, per the unit table
/// `m` (millicores), `k` (thousands of cores) and bare cores.
pub fn parse_cpu(s: &str) -> (r: Result<u64, Error>)
    ensures
        r is Ok <==> cpu_parse_ok(s@),
        (r matches Ok(v) ==> v as int == cpu_parsed(s@)),
        (r matches Err(e) ==> e matches Error::UnitParse(t) && t@ == s@),
{
    let n = s.unicode_len();
    let (k, mant, frac, valid) = scan_magnitude(s);
    if !valid {
        return Err(Error::UnitParse(s.to_owned()));
    }
    let rem = n - k;
    let ghost u: Seq<char> = s@.skip(k as int);
    proof {
        assert(u.len() == rem);
        assert(forall|j: int| 0 <= j < u.len() ==> u[j] == s@[k + j]);
    }
    let mult: u64 = if rem == 0 {
        1000
    } else if rem == 1 {
        let c = s.get_char(k);
        if c == 'm' {
            1
        } else if c == 'k' {
            1000000
        } else {
            return Err(Error::UnitParse(s.to_owned()));
        }
    } else {
        return Err(Error::UnitParse(s.to_owned()));
    };
    proof {
        assert(cpu_unit_mult(u) == Some(mult as nat));
    }
    scale_quantity(mant, frac, mult, s)
}

// ----- manifest validation -----

/// A mount path the validator rejects: empty, or the bare placeholder `~`.
pub open spec fn mount_bad(s: Seq<char>) -> bool {
    s.len() == 0 || (s.len() == 1 && s[0] == '~')
}

/// The manifest declares resources with both requests and limits.
pub open spec fn has_full_resources(m: Manifest) -> bool {
    m.resources matches Some(res) && res.requests is Some && res.limits is Some
}

pub open spec fn spec_requests(m: Manifest) -> ResourceRequest
    recommends
        has_full_resources(m),
{
    m.resources->Some_0.requests->Some_0
}

pub open spec fn spec_limits(m: Manifest) -> ResourceLimit
    recommends
        has_full_resources(m),
{
    m.resources->Some_0.limits->Some_0
}

/// All four declared quantities parse onto their integer grids.
pub open spec fn units_ok(m: Manifest) -> bool
    recommends
        has_full_resources(m),
{
    mem_parse_ok(spec_requests(m).memory@) && mem_parse_ok(spec_limits(m).memory@)
        && cpu_parse_ok(spec_requests(m).cpu@) && cpu_parse_ok(spec_limits(m).cpu@)
}

/// Requests within limits, and both within the sanity ceilings:
/// 10 cores / 10 GiB requested, 20 cores / 20 GiB limited.
pub open spec fn bounds_ok(m: Manifest) -> bool
    recommends
        has_full_resources(m) && units_ok(m),
{
    cpu_parsed(spec_requests(m).cpu@) <= cpu_parsed(spec_limits(m).cpu@) && mem_parsed(
        spec_requests(m).memory@,
    ) <= mem_parsed(spec_limits(m).memory@) && cpu_parsed(spec_requests(m).cpu@) <= 10000
        && mem_parsed(spec_requests(m).memory@) <= 10737418240 && cpu_parsed(
        spec_limits(m).cpu@,
    ) <= 20000 && mem_parsed(spec_limits(m).memory@) <= 21474836480
}

/// Every mount path is usable and at most one config volume is declared.
pub open spec fn volumes_ok(m: Manifest) -> bool {
    (forall|i: int| 0 <= i < m.volumes@.len() ==> !mount_bad(m.volumes@[i].mount@))
        && m.volumes@.len() <= 1
}

/// Everything `verify` checks of a manifest.
pub open spec fn verify_ok(m: Manifest) -> bool {
    m.name@.len() > 0 && has_full_resources(m) && units_ok(m) && bounds_ok(m) && volumes_ok(m)
}

/// The check order of `verify`: the first failed check names the error.
pub open spec fn spec_verify(m: Manifest) -> Result<(), Error> {
    if m.name@.len() == 0 {
        Err(Error::EmptyName)
    } else if !has_full_resources(m) {
        Err(Error::MissingResources)
    } else if !mem_parse_ok(spec_requests(m).memory@) {
        Err(Error::UnitParse(spec_requests(m).memory))
    } else if !mem_parse_ok(spec_limits(m).memory@) {
        Err(Error::UnitParse(spec_limits(m).memory))
    } else if !cpu_parse_ok(spec_requests(m).cpu@) {
        Err(Error::UnitParse(spec_requests(m).cpu))
    } else if !cpu_parse_ok(spec_limits(m).cpu@) {
        Err(Error::UnitParse(spec_limits(m).cpu))
    } else if cpu_parsed(spec_requests(m).cpu@) > cpu_parsed(spec_limits(m).cpu@) {
        Err(Error::RequestAboveLimitCpu)
    } else if mem_parsed(spec_requests(m).memory@) > mem_parsed(spec_limits(m).memory@) {
        Err(Error::RequestAboveLimitMemory)
    } else if cpu_parsed(spec_requests(m).cpu@) > 10000 {
        Err(Error::CpuRequestTooHigh)
    } else if mem_parsed(spec_requests(m).memory@) > 10737418240 {
        Err(Error::MemoryRequestTooHigh)
    } else if cpu_parsed(spec_limits(m).cpu@) > 20000 {
        Err(Error::CpuLimitTooHigh)
    } else if mem_parsed(spec_limits(m).memory@) > 21474836480 {
        Err(Error::MemoryLimitTooHigh)
    } else if exists|i: int| 0 <= i < m.volumes@.len() && mount_bad(m.volumes@[i].mount@) {
        Err(Error::EmptyMountPath)
    } else if m.volumes@.len() > 1 {
        Err(Error::TooManyVolumes)
    } else {
        Ok(())
    }
}

fn mount_is_bad(s: &str) -> (r: bool)
    ensures
        r == mount_bad(s@),
{
    let n = s.unicode_len();
    if n == 0 {
        true
    } else if n == 1 {
        s.get_char(0) == '~'
    } else {
        false
    }
}

impl Manifest {
    /// Check the declared resources against their limits and ceilings and
    /// the config volumes for usable mount paths; the first failed check
    /// names the error.
    pub fn verify(&self) -> (r: Result<(), Error>)
        ensures
            r is Ok <==> verify_ok(*self),
            (r matches Err(e) ==> spec_verify(*self) matches Err(e2)
                && crate::errors::same_error(e, e2)),
    {
        if self.name.as_str().is_empty() {
            return Err(Error::EmptyName);
        }
        let (req, lim) = match &self.resources {
            Some(res) => {
                match (&res.requests, &res.limits) {
                    (Some(rq), Some(lm)) => (rq, lm),
                    _ => {
                        return Err(Error::MissingResources);
                    },
                }
            },
            None => {
                return Err(Error::MissingResources);
            },
        };
        let req_memory = match parse_memory(req.memory.as_str()) {
            Ok(v) => v,
            Err(e) => {
                return Err(e);
            },
        };
        let lim_memory = match parse_memory(lim.memory.as_str()) {
            Ok(v) => v,
            Err(e) => {
                return Err(e);
            },
        };
        let req_cpu = match parse_cpu(req.cpu.as_str()) {
            Ok(v) => v,
            Err(e) => {
                return Err(e);
            },
        };
        let lim_cpu = match parse_cpu(lim.cpu.as_str()) {
            Ok(v) => v,
            Err(e) => {
                return Err(e);
            },
        };
        if req_cpu > lim_cpu {
            return Err(Error::RequestAboveLimitCpu);
        }
        if req_memory > lim_memory {
            return Err(Error::RequestAboveLimitMemory);
        }
        if req_cpu > 10000 {
            return Err(Error::CpuRequestTooHigh);
        }
        if req_memory > 10737418240 {
            return Err(Error::MemoryRequestTooHigh);
        }
        if lim_cpu > 20000 {
            return Err(Error::CpuLimitTooHigh);
        }
        if lim_memory > 21474836480 {
            return Err(Error::MemoryLimitTooHigh);
        }
        let mut i: usize = 0;
        let total = self.volumes.len();
        while i < total
            invariant
                i <= total,
                total == self.volumes@.len(),
                forall|j: int| 0 <= j < i ==> !mount_bad(self.volumes@[j].mount@),
                self.name@.len() > 0,
                has_full_resources(*self),
                units_ok(*self),
                bounds_ok(*self),
            decreases total - i,
        {
            if mount_is_bad(self.volumes[i].mount.as_str()) {
                proof {
                    assert(exists|j: int|
                        0 <= j < self.volumes@.len() && mount_bad(self.volumes@[j].mount@)) by {
                        assert((i as int) < self.volumes@.len() && mount_bad(
                            self.volumes@[i as int].mount@,
                        ));
                    }
                    assert(spec_verify(*self) == Err::<(), Error>(Error::EmptyMountPath));
                }
                return Err(Error::EmptyMountPath);
            }
            i = i + 1;
        }
        if total > 1 {
            return Err(Error::TooManyVolumes);
        }
        Ok(())
    }
}

// ----- implicit defaults -----

pub open spec fn digit_char(d: nat) -> char
    recommends
        d < 10,
{
    if d == 0 {
        '0'
    } else if d == 1 {
        '1'
    } else if d == 2 {
        '2'
    } else if d == 3 {
        '3'
    } else if d == 4 {
        '4'
    } else if d == 5 {
        '5'
    } else if d == 6 {
        '6'
    } else if d == 7 {
        '7'
    } else if d == 8 {
        '8'
    } else {
        '9'
    }
}

/// Decimal digits of `n`, most significant first.
pub open spec fn dec_str(n: nat) -> Seq<char>
    decreases n,
{
    if n < 10 {
        seq![digit_char(n)]
    } else {
        dec_str(n / 10) + seq![digit_char(n % 10)]
    }
}

fn digit_string(d: u64) -> (r: String)
    requires
        d < 10,
    ensures
        r@ =~= seq![digit_char(d as nat)],
{
    proof {
        reveal_strlit("0");
        reveal_strlit("1");
        reveal_strlit("2");
        reveal_strlit("3");
        reveal_strlit("4");
        reveal_strlit("5");
        reveal_strlit("6");
        reveal_strlit("7");
        reveal_strlit("8");
        reveal_strlit("9");
    }
    let s = if d == 0 {
        "0"
    } else if d == 1 {
        "1"
    } else if d == 2 {
        "2"
    } else if d == 3 {
        "3"
    } else if d == 4 {
        "4"
    } else if d == 5 {
        "5"
    } else if d == 6 {
        "6"
    } else if d == 7 {
        "7"
    } else if d == 8 {
        "8"
    } else {
        "9"
    };
    s.to_owned()
}

/// `n` written in decimal.
fn decimal_string(n: u64) -> (r: String)
    ensures
        r@ == dec_str(n as nat),
    decreases n,
{
    if n < 10 {
        digit_string(n)
    } else {
        let mut s = decimal_string(n / 10);
        let d = digit_string(n % 10);
        s.append(d.as_str());
        s
    }
}

/// Config volumes without a name before index `i`.
pub open spec fn unnamed_before(vols: Seq<ConfigMount>, i: int) -> nat
    decreases i,
{
    if i <= 0 {
        0
    } else {
        unnamed_before(vols, i - 1) + (if vols[i - 1].name is None {
            1nat
        } else {
            0nat
        })
    }
}

/// The generated name of an unnamed config volume: `<service>-config` when
/// it is the only volume, else `<service>-config-<index>` counting unnamed
/// volumes from 1.
pub open spec fn implicit_volume_name(name: Seq<char>, count_before: nat, total: nat) -> Seq<
    char,
> {
    if total == 1 && count_before == 0 {
        name + "-config"@
    } else {
        name + "-config-"@ + dec_str(count_before + 1)
    }
}

/// How one config volume comes out of `implicits`: named volumes are kept,
/// unnamed ones get the generated name.
pub open spec fn volume_implicit(
    old_vols: Seq<ConfigMount>,
    w: ConfigMount,
    i: int,
    name: Seq<char>,
) -> bool
    recommends
        0 <= i < old_vols.len(),
{
    let v = old_vols[i];
    w.mount == v.mount && w.configs == v.configs && (match v.name {
        Some(_) => w.name == v.name,
        None => w.name matches Some(nm) && nm@ == implicit_volume_name(
            name,
            unnamed_before(old_vols, i),
            old_vols.len() as nat,
        ),
    })
}

impl Manifest {
    /// Fill in the implicit defaults: the image name defaults to the
    /// service name, the secret store is queried under the service name,
    /// and unnamed config volumes get generated names.
    pub fn implicits(&mut self) -> (r: Result<(), Error>)
        ensures
            r is Ok,
            final(self).name == old(self).name,
            final(self).command == old(self).command,
            final(self).dependencies == old(self).dependencies,
            final(self).resources == old(self).resources,
            final(self).replica_count == old(self).replica_count,
            final(self).auto_scaling == old(self).auto_scaling,
            final(self).sidecars == old(self).sidecars,
            final(self).workers == old(self).workers,
            final(self).ports == old(self).ports,
            final(self).env == old(self).env,
            final(self).health == old(self).health,
            final(self).readiness_probe == old(self).readiness_probe,
            final(self).image_size == old(self).image_size,
            final(self).rolling_update == old(self).rolling_update,
            final(self).prometheus == old(self).prometheus,
            final(self).dashboards == old(self).dashboards,
            final(self).location == old(self).location,
            (match old(self).image {
                Some(_) => final(self).image == old(self).image,
                None => final(self).image matches Some(im) && im@ == old(self).name@,
            }),
            (match old(self).vault {
                Some(_) => final(self).vault == old(self).vault,
                None => final(self).vault matches Some(v) && (v.name matches Some(vn) && vn@
                    == old(self).name@) && v.suffix is None,
            }),
            final(self).volumes@.len() == old(self).volumes@.len(),
            forall|i: int|
                0 <= i < old(self).volumes@.len() ==> volume_implicit(
                    old(self).volumes@,
                    final(self).volumes@[i],
                    i,
                    old(self).name@,
                ),
    {
        let name = self.name.clone();
        let total = self.volumes.len();
        let mut unnamed: usize = 0;
        let mut i: usize = 0;
        while i < total
            invariant
                i <= total,
                total == old(self).volumes@.len(),
                self.volumes@.len() == total,
                name@ == old(self).name@,
                unnamed == unnamed_before(old(self).volumes@, i as int),
                unnamed <= i,
                self.name == old(self).name,
                self.image == old(self).image,
                self.command == old(self).command,
                self.dependencies == old(self).dependencies,
                self.resources == old(self).resources,
                self.replica_count == old(self).replica_count,
                self.auto_scaling == old(self).auto_scaling,
                self.sidecars == old(self).sidecars,
                self.workers == old(self).workers,
                self.ports == old(self).ports,
                self.env == old(self).env,
                self.vault == old(self).vault,
                self.health == old(self).health,
                self.readiness_probe == old(self).readiness_probe,
                self.image_size == old(self).image_size,
                self.rolling_update == old(self).rolling_update,
                self.prometheus == old(self).prometheus,
                self.dashboards == old(self).dashboards,
                self.location == old(self).location,
                forall|j: int|
                    0 <= j < i ==> volume_implicit(
                        old(self).volumes@,
                        self.volumes@[j],
                        j,
                        old(self).name@,
                    ),
                forall|j: int| i <= j < total ==> self.volumes@[j] == old(self).volumes@[j],
            decreases total - i,
        {
            if self.volumes[i].name.is_none() {
                let mut nm = name.clone();
                if unnamed == 0 && total == 1 {
                    nm.append("-config");
                } else {
                    nm.append("-config-");
                    let idx = decimal_string((unnamed as u64) + 1);
                    nm.append(idx.as_str());
                }
                self.volumes[i].name = Some(nm);
                unnamed = unnamed + 1;
            }
            i = i + 1;
        }
        if self.image.is_none() {
            self.image = Some(name.clone());
        }
        if self.vault.is_none() {
            self.vault = Some(VaultOpts { name: Some(name), suffix: None });
        }
        Ok(())
    }
}


// ----- merging partial manifests -----

/// Some entry of `s` already binds the key `k`.
pub open spec fn has_env_key(s: Seq<(String, String)>, k: Seq<char>) -> bool {
    exists|i: int| 0 <= i < s.len() && (#[trigger] s[i]).0@ == k
}

/// `base` with those entries of `extra` appended, in order, whose keys the
/// growing environment does not bind yet.
pub open spec fn merged_env(base: Seq<(String, String)>, extra: Seq<(String, String)>) -> Seq<
    (String, String),
>
    decreases extra.len(),
{
    if extra.len() == 0 {
        base
    } else if has_env_key(base, extra[0].0@) {
        merged_env(base, extra.drop_first())
    } else {
        merged_env(base.push(extra[0]), extra.drop_first())
    }
}

/// The declared resources, with missing parts taken from the defaults.
pub open spec fn merged_resources(a: Option<Resources>, b: Option<Resources>) -> Option<
    Resources,
> {
    match a {
        None => b,
        Some(ra) => Some(
            Resources {
                requests: (match ra.requests {
                    Some(q) => Some(q),
                    None => (match b {
                        Some(rb) => rb.requests,
                        None => None,
                    }),
                }),
                limits: (match ra.limits {
                    Some(q) => Some(q),
                    None => (match b {
                        Some(rb) => rb.limits,
                        None => None,
                    }),
                }),
            },
        ),
    }
}

fn env_binds(env: &Vec<(String, String)>, key: &str) -> (r: bool)
    ensures
        r == has_env_key(env@, key@),
{
    let n = env.len();
    let mut i: usize = 0;
    while i < n
        invariant
            i <= n,
            n == env@.len(),
            forall|j: int| 0 <= j < i ==> (#[trigger] env@[j]).0@ != key@,
        decreases n - i,
    {
        if crate::graph::str_eq(env[i].0.as_str(), key) {
            proof {
                assert((env@[i as int]).0@ == key@);
            }
            return true;
        }
        i = i + 1;
    }
    false
}

impl Manifest {
    /// Merge defaults from a partially specified manifest: environment
    /// entries it does not bind are appended, and resources, replication
    /// and health are taken from the defaults only where this manifest
    /// leaves them open.
    pub fn merge(&mut self, other: Manifest) -> (r: Result<(), Error>)
        ensures
            r is Ok,
            final(self).env@ == merged_env(old(self).env@, other.env@),
            final(self).resources == merged_resources(old(self).resources, other.resources),
            final(self).replica_count == (if old(self).replica_count is Some {
                old(self).replica_count
            } else {
                other.replica_count
            }),
            final(self).auto_scaling == (if old(self).auto_scaling is Some {
                old(self).auto_scaling
            } else {
                other.auto_scaling
            }),
            final(self).health == (if old(self).health is Some {
                old(self).health
            } else {
                other.health
            }),
            final(self).name == old(self).name,
            final(self).image == old(self).image,
            final(self).command == old(self).command,
            final(self).dependencies == old(self).dependencies,
            final(self).sidecars == old(self).sidecars,
            final(self).workers == old(self).workers,
            final(self).volumes == old(self).volumes,
            final(self).ports == old(self).ports,
            final(self).vault == old(self).vault,
            final(self).readiness_probe == old(self).readiness_probe,
            final(self).image_size == old(self).image_size,
            final(self).rolling_update == old(self).rolling_update,
            final(self).prometheus == old(self).prometheus,
            final(self).dashboards == old(self).dashboards,
            final(self).location == old(self).location,
    {
        let Manifest {
            env: mut oenv,
            resources: ores,
            replica_count: orc,
            auto_scaling: oas,
            health: oh,
            ..
        } = other;
        while oenv.len() > 0
            invariant
                merged_env(old(self).env@, other.env@) == merged_env(self.env@, oenv@),
                self.name == old(self).name,
                self.image == old(self).image,
                self.command == old(self).command,
                self.dependencies == old(self).dependencies,
                self.resources == old(self).resources,
                self.replica_count == old(self).replica_count,
                self.auto_scaling == old(self).auto_scaling,
                self.sidecars == old(self).sidecars,
                self.workers == old(self).workers,
                self.volumes == old(self).volumes,
                self.ports == old(self).ports,
                self.vault == old(self).vault,
                self.health == old(self).health,
                self.readiness_probe == old(self).readiness_probe,
                self.image_size == old(self).image_size,
                self.rolling_update == old(self).rolling_update,
                self.prometheus == old(self).prometheus,
                self.dashboards == old(self).dashboards,
                self.location == old(self).location,
            decreases oenv@.len(),
        {
            let ghost oenv_pre = oenv@;
            let kv = oenv.remove(0);
            proof {
                assert(oenv@ =~= oenv_pre.drop_first());
            }
            if !env_binds(&self.env, kv.0.as_str()) {
                self.env.push(kv);
            }
        }
        if self.resources.is_none() {
            self.resources = ores;
        } else {
            let cur = self.resources.take();
            match (cur, ores) {
                (Some(mut ra), Some(rb)) => {
                    if ra.requests.is_none() {
                        ra.requests = rb.requests;
                    }
                    if ra.limits.is_none() {
                        ra.limits = rb.limits;
                    }
                    self.resources = Some(ra);
                },
                (cur, _) => {
                    self.resources = cur;
                },
            }
        }
        if self.replica_count.is_none() {
            self.replica_count = orc;
        }
        if self.auto_scaling.is_none() {
            self.auto_scaling = oas;
        }
        if self.health.is_none() {
            self.health = oh;
        }
        Ok(())
    }
}

} // verus!
