use shipcat::errors::Error;
use shipcat::manifest::{
    parse_cpu, parse_memory, ConfigMount, Manifest, ResourceLimit, ResourceRequest, Resources,
};
use shipcat::slack::{have_credentials, short_ver};

fn full_resources(
    req_cpu: &str,
    req_mem: &str,
    lim_cpu: &str,
    lim_mem: &str,
) -> Option<Resources> {
    Some(Resources {
        requests: Some(ResourceRequest { cpu: req_cpu.into(), memory: req_mem.into() }),
        limits: Some(ResourceLimit { cpu: lim_cpu.into(), memory: lim_mem.into() }),
    })
}

fn valid_manifest() -> Manifest {
    let mut mf = Manifest::new("webapp", "services/webapp/shipcat.yml");
    mf.resources = full_resources("500m", "512Mi", "1", "1Gi");
    mf
}

#[test]
fn parse_memory_units() {
    assert_eq!(parse_memory("256Mi").unwrap(), 268435456);
    assert_eq!(parse_memory("256Mi").unwrap() as f64, 268435456.0);
    assert_eq!(parse_memory("1Ki").unwrap(), 1024);
    assert_eq!(parse_memory("1Gi").unwrap(), 1073741824);
    assert_eq!(parse_memory("2k").unwrap(), 2000);
    assert_eq!(parse_memory("3M").unwrap(), 3000000);
    assert_eq!(parse_memory("4G").unwrap(), 4000000000);
    assert_eq!(parse_memory("123").unwrap(), 123);
    assert_eq!(parse_memory("0.5Ki").unwrap(), 512);
    assert_eq!(parse_memory("1.5Gi").unwrap(), 1610612736);
    assert_eq!(parse_memory("1.").unwrap(), 1);
    assert_eq!(parse_memory("0").unwrap(), 0);
}

#[test]
fn parse_cpu_units() {
    assert_eq!(parse_cpu("250m").unwrap(), 250);
    assert_eq!(parse_cpu("250m").unwrap() as f64 / 1000.0, 0.25);
    assert_eq!(parse_cpu("1").unwrap(), 1000);
    assert_eq!(parse_cpu("0.5").unwrap(), 500);
    assert_eq!(parse_cpu(".5").unwrap(), 500);
    assert_eq!(parse_cpu("2k").unwrap(), 2000000);
    assert_eq!(parse_cpu("0.001").unwrap(), 1);
}

#[test]
fn parse_rejections() {
    assert!(matches!(parse_memory("256Xi"), Err(Error::UnitParse(_))));
    assert!(matches!(parse_memory(""), Err(Error::UnitParse(_))));
    assert!(matches!(parse_memory("."), Err(Error::UnitParse(_))));
    assert!(matches!(parse_memory("1.2.3"), Err(Error::UnitParse(_))));
    assert!(matches!(parse_memory("abc"), Err(Error::UnitParse(_))));
    assert!(matches!(parse_memory("1e5"), Err(Error::UnitParse(_))));
    // off the byte grid
    assert!(matches!(parse_memory("0.5"), Err(Error::UnitParse(_))));
    // more than 15 digits
    assert!(matches!(parse_memory("1234567890123456"), Err(Error::UnitParse(_))));
    assert_eq!(parse_memory("123456789012345").unwrap(), 123456789012345);
    // would not fit the result type
    assert!(matches!(parse_memory("999999999999999G"), Err(Error::UnitParse(_))));
    // memory does not take the millicore suffix
    assert!(matches!(parse_memory("250m"), Err(Error::UnitParse(_))));
    // finer than a millicore
    assert!(matches!(parse_cpu("0.0001"), Err(Error::UnitParse(_))));
    assert!(matches!(parse_cpu("1Mi"), Err(Error::UnitParse(_))));
}

#[test]
fn new_manifest_holds_name_and_location() {
    let mf = Manifest::new("webapp", "services/webapp/shipcat.yml");
    assert_eq!(mf.name, "webapp");
    assert_eq!(mf.location, "services/webapp/shipcat.yml");
    assert!(mf.image.is_none());
    assert!(mf.dependencies.is_empty());
}

#[test]
fn implicits_fill_defaults() {
    let mut mf = valid_manifest();
    mf.volumes = vec![ConfigMount { name: None, mount: "/config".into(), configs: vec![] }];
    mf.implicits().unwrap();
    assert_eq!(mf.image.as_deref(), Some("webapp"));
    let vault = mf.vault.unwrap();
    assert_eq!(vault.name.as_deref(), Some("webapp"));
    assert!(vault.suffix.is_none());
    assert_eq!(mf.volumes[0].name.as_deref(), Some("webapp-config"));
}

#[test]
fn implicits_keep_declared_values() {
    let mut mf = valid_manifest();
    mf.image = Some("custom-image".into());
    mf.volumes = vec![
        ConfigMount { name: Some("given".into()), mount: "/a".into(), configs: vec![] },
        ConfigMount { name: None, mount: "/b".into(), configs: vec![] },
        ConfigMount { name: None, mount: "/c".into(), configs: vec![] },
    ];
    mf.implicits().unwrap();
    assert_eq!(mf.image.as_deref(), Some("custom-image"));
    assert_eq!(mf.volumes[0].name.as_deref(), Some("given"));
    assert_eq!(mf.volumes[1].name.as_deref(), Some("webapp-config-1"));
    assert_eq!(mf.volumes[2].name.as_deref(), Some("webapp-config-2"));
}

#[test]
fn verify_accepts_sane_manifest() {
    assert!(valid_manifest().verify().is_ok());
}

#[test]
fn verify_rejects_bad_names_and_resources() {
    let mf = Manifest::default();
    assert!(matches!(mf.verify(), Err(Error::EmptyName)));
    let mf = Manifest::new("webapp", "");
    assert!(matches!(mf.verify(), Err(Error::MissingResources)));
    let mut mf = valid_manifest();
    mf.resources = Some(Resources {
        requests: Some(ResourceRequest { cpu: "1".into(), memory: "1Gi".into() }),
        limits: None,
    });
    assert!(matches!(mf.verify(), Err(Error::MissingResources)));
    let mut mf = valid_manifest();
    mf.resources = full_resources("1", "1Qz", "1", "1Gi");
    match mf.verify() {
        Err(Error::UnitParse(v)) => assert_eq!(v, "1Qz"),
        other => panic!("expected unit error, got {:?}", other),
    }
}

#[test]
fn verify_rejects_bounds() {
    let mut mf = valid_manifest();
    mf.resources = full_resources("2", "1Gi", "1", "1Gi");
    assert!(matches!(mf.verify(), Err(Error::RequestAboveLimitCpu)));
    mf.resources = full_resources("1", "2Gi", "1", "1Gi");
    assert!(matches!(mf.verify(), Err(Error::RequestAboveLimitMemory)));
    mf.resources = full_resources("11", "1Gi", "12", "1Gi");
    assert!(matches!(mf.verify(), Err(Error::CpuRequestTooHigh)));
    mf.resources = full_resources("1", "11Gi", "1", "12Gi");
    assert!(matches!(mf.verify(), Err(Error::MemoryRequestTooHigh)));
    mf.resources = full_resources("1", "1Gi", "21", "1Gi");
    assert!(matches!(mf.verify(), Err(Error::CpuLimitTooHigh)));
    mf.resources = full_resources("1", "1Gi", "2", "21Gi");
    assert!(matches!(mf.verify(), Err(Error::MemoryLimitTooHigh)));
}

#[test]
fn verify_rejects_bad_volumes() {
    let mut mf = valid_manifest();
    mf.volumes = vec![ConfigMount { name: None, mount: "".into(), configs: vec![] }];
    assert!(matches!(mf.verify(), Err(Error::EmptyMountPath)));
    mf.volumes = vec![ConfigMount { name: None, mount: "~".into(), configs: vec![] }];
    assert!(matches!(mf.verify(), Err(Error::EmptyMountPath)));
    mf.volumes = vec![
        ConfigMount { name: None, mount: "/a".into(), configs: vec![] },
        ConfigMount { name: None, mount: "/b".into(), configs: vec![] },
    ];
    assert!(matches!(mf.verify(), Err(Error::TooManyVolumes)));
}

#[test]
fn credentials_check() {
    let url = Some(String::from("https://hooks.example/abc"));
    let chan = Some(String::from("#ops"));
    assert!(have_credentials(&url, &chan).is_ok());
    assert!(matches!(have_credentials(&url, &None), Err(Error::MissingSlackChannel)));
    assert!(matches!(have_credentials(&None, &chan), Err(Error::MissingSlackUrl)));
    assert!(matches!(have_credentials(&None, &None), Err(Error::MissingSlackChannel)));
}

#[test]
fn short_versions() {
    assert_eq!(short_ver("1.2.3".into()), "1.2.3");
    let sha = "e7c1e5dd5de74b2b5da5eef76eb5bf12bdc2ac19";
    assert_eq!(sha.len(), 40);
    assert_eq!(short_ver(sha.into()), "e7c1e5dd");
    assert_eq!(short_ver("not-40-chars".into()), "not-40-chars");
    // 40 characters long, but a well-formed semantic version: kept whole
    let long_semver = "1.2.3-aaaaaaaaaaaaaaaaaaaaaaaaaaaaaaaaaa";
    assert_eq!(long_semver.len(), 40);
    assert_eq!(short_ver(long_semver.into()), long_semver);
}

#[test]
fn merge_takes_only_missing_fields() {
    let mut mf = Manifest::new("webapp", "");
    mf.env = vec![("MODE".to_string(), "prod".to_string())];
    mf.resources = Some(Resources {
        requests: Some(ResourceRequest { cpu: "1".into(), memory: "1Gi".into() }),
        limits: None,
    });
    mf.replica_count = Some(4);

    let mut defaults = Manifest::default();
    defaults.env = vec![
        ("MODE".to_string(), "dev".to_string()),
        ("REGION".to_string(), "eu".to_string()),
    ];
    defaults.resources = full_resources("2", "2Gi", "3", "3Gi");
    defaults.replica_count = Some(1);
    defaults.health = Some(shipcat::manifest::HealthCheck { uri: "/health".into(), wait: 20 });

    mf.merge(defaults).unwrap();
    assert_eq!(
        mf.env,
        vec![
            ("MODE".to_string(), "prod".to_string()),
            ("REGION".to_string(), "eu".to_string()),
        ]
    );
    let res = mf.resources.unwrap();
    // declared requests kept, missing limits filled from the defaults
    assert_eq!(res.requests.unwrap().cpu, "1");
    assert_eq!(res.limits.unwrap().memory, "3Gi");
    assert_eq!(mf.replica_count, Some(4));
    assert_eq!(mf.health.unwrap().wait, 20);
}

#[test]
fn merge_without_declared_resources() {
    let mut mf = Manifest::new("webapp", "");
    let mut defaults = Manifest::default();
    defaults.resources = full_resources("2", "2Gi", "3", "3Gi");
    mf.merge(defaults).unwrap();
    assert_eq!(mf.resources.unwrap().requests.unwrap().cpu, "2");
}
