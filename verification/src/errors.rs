use vstd::prelude::*;

verus! {

/// Every failure the library reports. Each variant carries the offending
/// service name or value where one exists, so a caller can report it.
#[derive(Clone, Debug)]
pub enum Error {
    /// The requested service is unknown to the manifest provider.
    NotFound(String),
    /// A declared dependency cannot be resolved to a manifest.
    MalformedDependency(String),
    /// The named manifest has neither autoscaling nor a replica count.
    MissingReplication(String),
    /// A resource quantity string is malformed or uses an unknown unit.
    UnitParse(String),
    /// An aggregated total does not fit in the result type.
    Overflow,
    /// The manifest has no name.
    EmptyName,
    /// The manifest lacks resources, requests or limits.
    MissingResources,
    /// More CPU requested than the declared limit.
    RequestAboveLimitCpu,
    /// More memory requested than the declared limit.
    RequestAboveLimitMemory,
    /// More than 10 cores requested.
    CpuRequestTooHigh,
    /// More than 10 GiB of memory requested.
    MemoryRequestTooHigh,
    /// CPU limit set to more than 20 cores.
    CpuLimitTooHigh,
    /// Memory limit set to more than 20 GiB of memory.
    MemoryLimitTooHigh,
    /// A config mount with an empty mount path.
    EmptyMountPath,
    /// More than one config volume.
    TooManyVolumes,
    /// No chat channel is configured.
    MissingSlackChannel,
    /// No chat hook URL is configured.
    MissingSlackUrl,
}

/// Two errors are the same report: the same variant, with payload strings
/// compared by their characters.
pub open spec fn same_error(a: Error, b: Error) -> bool {
    match (a, b) {
        (Error::NotFound(x), Error::NotFound(y)) => x@ == y@,
        (Error::MalformedDependency(x), Error::MalformedDependency(y)) => x@ == y@,
        (Error::MissingReplication(x), Error::MissingReplication(y)) => x@ == y@,
        (Error::UnitParse(x), Error::UnitParse(y)) => x@ == y@,
        (Error::Overflow, Error::Overflow) => true,
        (Error::EmptyName, Error::EmptyName) => true,
        (Error::MissingResources, Error::MissingResources) => true,
        (Error::RequestAboveLimitCpu, Error::RequestAboveLimitCpu) => true,
        (Error::RequestAboveLimitMemory, Error::RequestAboveLimitMemory) => true,
        (Error::CpuRequestTooHigh, Error::CpuRequestTooHigh) => true,
        (Error::MemoryRequestTooHigh, Error::MemoryRequestTooHigh) => true,
        (Error::CpuLimitTooHigh, Error::CpuLimitTooHigh) => true,
        (Error::MemoryLimitTooHigh, Error::MemoryLimitTooHigh) => true,
        (Error::EmptyMountPath, Error::EmptyMountPath) => true,
        (Error::TooManyVolumes, Error::TooManyVolumes) => true,
        (Error::MissingSlackChannel, Error::MissingSlackChannel) => true,
        (Error::MissingSlackUrl, Error::MissingSlackUrl) => true,
        _ => false,
    }
}

} // verus!
