use shipcat::errors::Error;
use shipcat::manifest::{
    HealthCheck, Manifest, ReadinessProbe, Replicas, ResourceLimit, ResourceRequest, Resources,
    RollingUpdate, Sidecar, Worker,
};

fn resources(cpu: &str, memory: &str) -> Resources {
    Resources {
        requests: Some(ResourceRequest { cpu: cpu.into(), memory: memory.into() }),
        limits: Some(ResourceLimit { cpu: cpu.into(), memory: memory.into() }),
    }
}

#[test]
fn mf_wait_time_check() {
    // standard setup - 300s wait is the fallback default
    let mut mf = Manifest::default();
    mf.image_size = Some(512);
    mf.health = Some(HealthCheck { uri: "/".into(), wait: 60 });
    mf.replica_count = Some(2);
    assert_eq!(mf.estimate_wait_time().unwrap(), 180); // 60*1.5 + 90s
    mf.replica_count = Some(3); // needs two cycles now
    assert_eq!(mf.estimate_wait_time().unwrap(), 360); // (60*1.5 + 90s)*2

    // huge image, fast boot
    mf.image_size = Some(4096);
    mf.health = Some(HealthCheck { uri: "/".into(), wait: 10 });
    mf.replica_count = Some(2);
    assert_eq!(mf.estimate_wait_time().unwrap(), 735);

    // medium images, slow boot
    mf.image_size = Some(512);
    mf.health = Some(HealthCheck { uri: "/".into(), wait: 600 });
    mf.replica_count = Some(2);
    assert_eq!(mf.estimate_wait_time().unwrap(), 990);
}

#[test]
fn wait_time_default_without_image_size() {
    let mut mf = Manifest::default();
    mf.health = Some(HealthCheck { uri: "/".into(), wait: 600 });
    assert_eq!(mf.estimate_wait_time().unwrap(), 300);
    mf.replica_count = Some(7);
    assert_eq!(mf.estimate_wait_time().unwrap(), 300);
}

#[test]
fn wait_time_needs_replication() {
    let mut mf = Manifest::default();
    mf.name = "noreplicas".into();
    mf.image_size = Some(512);
    let r = mf.estimate_wait_time();
    match r {
        Err(Error::MissingReplication(n)) => assert_eq!(n, "noreplicas"),
        other => panic!("expected missing replication, got {:?}", other),
    }
}

#[test]
fn wait_time_uses_readiness_probe_and_default() {
    let mut mf = Manifest::default();
    mf.image_size = Some(512);
    mf.replica_count = Some(2);
    mf.readiness_probe = Some(ReadinessProbe { initial_delay_seconds: 60 });
    assert_eq!(mf.estimate_wait_time().unwrap(), 180);
    mf.readiness_probe = None;
    // no health, no probe: 30s default wait -> ceil(45) + 90
    assert_eq!(mf.estimate_wait_time().unwrap(), 135);
}

#[test]
fn rollout_iterations() {
    let mut mf = Manifest::default();
    mf.replica_count = Some(2);
    assert_eq!(mf.estimate_rollout_iterations().unwrap(), 1);
    mf.replica_count = Some(3);
    assert_eq!(mf.estimate_rollout_iterations().unwrap(), 2);
    mf.rolling_update = Some(RollingUpdate { max_unavailable: 1 });
    assert_eq!(mf.estimate_rollout_iterations().unwrap(), 3);
    mf.rolling_update = None;
    mf.auto_scaling = Some(Replicas { min: 4, max: 8 });
    assert_eq!(mf.estimate_rollout_iterations().unwrap(), 2);
    let ru = RollingUpdate::default();
    assert_eq!(ru.rollout_iterations(5), 3);
    assert_eq!(ru.rollout_iterations(0), 0);
}

#[test]
fn totals_with_autoscaling() {
    let mut mf = Manifest::default();
    mf.name = "scaled".into();
    mf.resources = Some(resources("1", "1Gi"));
    mf.auto_scaling = Some(Replicas { min: 2, max: 5 });
    let t = mf.compute_resource_totals().unwrap();
    assert_eq!(t.base.cpu_millis, 2000);
    assert_eq!(t.base.memory_bytes, 2147483648);
    assert_eq!(t.extra.cpu_millis, 3000);
    assert_eq!(t.extra.memory_bytes, 3221225472);
    assert_eq!(t.base.cpu_millis as f64 / 1000.0, 2.0);
    assert_eq!(t.base.memory_bytes as f64, 2147483648.0);
    assert_eq!(t.extra.memory_bytes as f64, 3221225472.0);
}

#[test]
fn totals_with_sidecars() {
    let mut mf = Manifest::default();
    mf.name = "sidecarred".into();
    mf.resources = Some(resources("500m", "1Gi"));
    mf.replica_count = Some(2);
    mf.sidecars = vec![Sidecar { resources: Some(resources("100m", "1Mi")) }];
    let t = mf.compute_resource_totals().unwrap();
    // base.cpu = 2*mainCpu + 2*0.1 cores
    assert_eq!(t.base.cpu_millis, 2 * 500 + 2 * 100);
    assert_eq!(t.base.cpu_millis as f64 / 1000.0, 2.0 * 0.5 + 2.0 * 0.1);
    assert_eq!(t.base.memory_bytes, 2 * 1073741824 + 2 * 1048576);
    assert_eq!(t.extra.cpu_millis, 0);
    assert_eq!(t.extra.memory_bytes, 0);
}

#[test]
fn totals_with_workers() {
    let mut mf = Manifest::default();
    mf.name = "worked".into();
    mf.resources = Some(resources("1", "1Gi"));
    mf.replica_count = Some(1);
    mf.sidecars = vec![Sidecar { resources: Some(resources("100m", "1Mi")) }];
    mf.workers = vec![Worker { resources: resources("250m", "1Ki"), replica_count: 3 }];
    let t = mf.compute_resource_totals().unwrap();
    // main + own sidecar, plus worker pool and its sidecars at worker scale
    assert_eq!(t.base.cpu_millis, 1000 + 100 + 3 * 250 + 3 * 100);
    assert_eq!(t.base.memory_bytes, 1073741824 + 1048576 + 3 * 1024 + 3 * 1048576);
}

#[test]
fn totals_autoscaling_skips_main_sidecars() {
    let mut mf = Manifest::default();
    mf.name = "scaled".into();
    mf.resources = Some(resources("1", "1Ki"));
    mf.auto_scaling = Some(Replicas { min: 2, max: 2 });
    // the sidecar is neither accounted nor parsed in the autoscaling branch
    mf.sidecars = vec![Sidecar { resources: Some(resources("bogus", "bogus")) }];
    let t = mf.compute_resource_totals().unwrap();
    assert_eq!(t.base.cpu_millis, 2000);
    assert_eq!(t.extra.cpu_millis, 0);
}

#[test]
fn totals_missing_replication() {
    let mut mf = Manifest::default();
    mf.name = "noreplicas".into();
    mf.resources = Some(resources("1", "1Gi"));
    match mf.compute_resource_totals() {
        Err(Error::MissingReplication(n)) => assert_eq!(n, "noreplicas"),
        other => panic!("expected missing replication, got {:?}", other),
    }
}

#[test]
fn totals_missing_resources() {
    let mf = Manifest::default();
    assert!(matches!(mf.compute_resource_totals(), Err(Error::MissingResources)));
}

#[test]
fn totals_unit_error() {
    let mut mf = Manifest::default();
    mf.name = "badunits".into();
    mf.resources = Some(resources("1", "256Xi"));
    mf.replica_count = Some(1);
    match mf.compute_resource_totals() {
        Err(Error::UnitParse(v)) => assert_eq!(v, "256Xi"),
        other => panic!("expected unit error, got {:?}", other),
    }
}

#[test]
fn totals_overflow() {
    let mut mf = Manifest::default();
    mf.name = "huge".into();
    mf.resources = Some(resources("1", "9999999999999Mi"));
    mf.replica_count = Some(2);
    assert!(matches!(mf.compute_resource_totals(), Err(Error::Overflow)));
}
