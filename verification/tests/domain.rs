use skillleaf::builder::build_catalog;
use skillleaf::catalog::EntryKind;
use skillleaf::domain::{
    add_domain, domain_catalog_path, find_domain, load_domain_registry, remove_domain, validate_domain_name, DomainConfig,
    DomainRegistry,
};
use skillleaf::index::{RootScan, ScannedRoot, SourceFile, SourceRoot};
use skillleaf::resolve::resolve;

fn skill_root(domain: &str, skill: &str) -> Vec<ScannedRoot> {
    let body = format!("---\nname: {skill}\ndescription: Handle {skill} tasks.\n---\n");
    vec![ScannedRoot {
        root: SourceRoot { name: domain.to_string(), kind: EntryKind::Skill, path: format!("/d/{domain}/skills") },
        scan: RootScan::Listed {
            canonical: format!("/d/{domain}/skills"),
            files: vec![SourceFile {
                path: format!("{skill}/SKILL.md"),
                is_symlink: false,
                is_file: true,
                len: body.len() as u64,
                bytes: Some(body.into_bytes()),
            }],
        },
    }]
}

#[test]
fn domains_select_one_catalog_without_cross_domain_taint() {
    let mut registry = DomainRegistry::default();
    let mut catalogs = Vec::new();
    for (domain, skill) in [("work", "deploy"), ("home", "garden")] {
        let catalog = build_catalog(&skill_root(domain, skill), 256 * 1024).expect("catalog");
        let catalog_path = format!("/d/{domain}/catalog.json");
        add_domain(
            &mut registry,
            domain.to_string(),
            DomainConfig { catalog: catalog_path.clone(), usage_file: None, account: Some(domain.to_string()) },
        )
        .expect("add domain");
        catalogs.push((catalog_path, catalog));
    }
    let loaded = load_domain_registry(Some(registry.clone())).expect("load");
    assert_eq!(loaded.domains.len(), 2);

    let work_path = domain_catalog_path(None, Some("work".to_string()), Ok(loaded)).expect("work path");
    assert_eq!(work_path, "/d/work/catalog.json");
    let work = &catalogs.iter().find(|(p, _)| *p == work_path).expect("work catalogue").1;
    assert_eq!(resolve(work, "deploy tasks", &vec![], 8).expect("deploy").selected.len(), 1);
    assert!(resolve(work, "garden tasks", &vec![], 8).expect("garden").selected.is_empty());
}

#[test]
fn explicit_catalog_and_domain_are_mutually_exclusive() {
    let error = domain_catalog_path(Some("catalog.json".to_string()), Some("work".to_string()), Ok(DomainRegistry::default()))
        .expect_err("ambiguous selection must fail");
    assert!(error.message().contains("either --catalog or --domain"));
}

#[test]
fn catalogue_defaults_and_unknown_domains() {
    assert_eq!(domain_catalog_path(None, None, Ok(DomainRegistry::default())).expect("default"), "skillleaf.json");
    assert_eq!(
        domain_catalog_path(Some("mine.json".to_string()), None, Ok(DomainRegistry::default())).expect("explicit"),
        "mine.json"
    );
    let error = domain_catalog_path(None, Some("work".to_string()), Ok(DomainRegistry::default())).expect_err("unknown");
    assert_eq!(error.message(), "catalog input error: unknown Skill-Leaf domain: work");
    let error = domain_catalog_path(None, Some("../x".to_string()), Ok(DomainRegistry::default())).expect_err("bad");
    assert!(error.message().contains("domain names must contain only letters"));
}

#[test]
fn adding_twice_and_removing_unknown_domains_are_refused() {
    let mut registry = DomainRegistry::default();
    let config = DomainConfig { catalog: "/c.json".to_string(), usage_file: None, account: None };
    add_domain(&mut registry, "b".to_string(), config.clone()).expect("first");
    add_domain(&mut registry, "a".to_string(), config.clone()).expect("second");
    assert_eq!(registry.domains[0].name, "a");
    assert_eq!(add_domain(&mut registry, "a".to_string(), config).unwrap_err(), "domain already exists: a");
    assert_eq!(remove_domain(&mut registry, "zzz").unwrap_err(), "unknown domain: zzz");
    remove_domain(&mut registry, "a").expect("remove");
    assert!(find_domain(&registry.domains, "a").is_none());
    assert!(find_domain(&registry.domains, "b").is_some());
}

#[test]
fn domain_names_are_plain() {
    assert!(validate_domain_name("work_2-x").is_ok());
    assert!(validate_domain_name("").is_err());
    assert!(validate_domain_name("a b").is_err());
}

#[test]
fn registries_of_another_schema_are_refused() {
    let mut registry = DomainRegistry::default();
    registry.schema = "other".to_string();
    let error = load_domain_registry(Some(registry)).expect_err("schema");
    assert_eq!(error.message(), "catalog integrity error: unsupported domain registry schema: other");
    assert!(load_domain_registry(None).expect("empty").domains.is_empty());
}
