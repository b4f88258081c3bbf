use skillleaf::catalog::{Catalog, CatalogRoot, EntryKind};
use skillleaf::integrity::catalog_hash;
use skillleaf::domain::DomainRegistry;
use skillleaf::migrate::{
    adapter_action, adapter_body, copy_step, CopyStep, normalize_absolute, staging_name, check_apply, check_rollback, directory_manifest_hash, load_migration_plan, migration_dir,
    plan_migration, rebase_staged_catalog, register_migrated_domain, sort_sources, staged_root, starts_with_path, HostKind, MigrationPlan,
    MigrationReceipt, MigrationSource,
};
use skillleaf::snapshot::PathBody;

fn source(name: &str, kind: EntryKind, path: &str, digest: &str) -> MigrationSource {
    MigrationSource { name: name.to_string(), kind, path: path.to_string(), manifest_sha256: digest.to_string() }
}

fn plan() -> MigrationPlan {
    plan_migration(
        vec![
            source("personal", EntryKind::Command, "/src/commands", "c1"),
            source("personal", EntryKind::Skill, "/src/skills", "s1"),
        ],
        "/library".to_string(),
        "work".to_string(),
        "/config/domains.json".to_string(),
        HostKind::Claude,
        "/host".to_string(),
    )
    .expect("plan")
}

fn receipt() -> MigrationReceipt {
    MigrationReceipt {
        schema: "skillleaf.migration-receipt.v1".to_string(),
        plan_id: "p".to_string(),
        domain: "work".to_string(),
        domain_root: "/library/domains/work".to_string(),
        domain_manifest_sha256: "dom".to_string(),
        catalog_sha256: "cat".to_string(),
        registry_path: "/config/domains.json".to_string(),
        registry_before: None,
        registry_after_sha256: "reg".to_string(),
        adapter_path: "/host/skills/skillleaf/SKILL.md".to_string(),
        adapter_created: true,
        adapter_sha256: "ad".to_string(),
    }
}

#[test]
fn migration_is_non_destructive_domain_isolated_and_reversible() {
    let p = plan();
    assert!(p.preserves_native_commands);
    assert_eq!(p.sources[0].kind, EntryKind::Skill, "skills are planned before commands");
    assert_eq!(p.plan_id.len(), 16);
    assert!(check_apply(&p, &vec!["s1".to_string(), "c1".to_string()]).is_ok());
    let mut registry = DomainRegistry::default();
    register_migrated_domain(&mut registry, "work", "/library/domains/work/catalog.json".to_string(), "/u.json".to_string())
        .expect("register");
    assert_eq!(registry.domains[0].name, "work");
    assert!(check_rollback(&receipt(), "reg", "dom", "ad").is_ok());
}

#[test]
fn migration_refuses_source_drift_after_plan() {
    let p = plan();
    let error = check_apply(&p, &vec!["s1".to_string(), "changed".to_string()]).expect_err("drift");
    assert!(error.message().contains("changed after planning"));
    assert!(error.message().contains("/src/commands"));
}

#[test]
fn migration_rejects_tampered_plan() {
    let mut p = plan();
    p.domain = "other".to_string();
    let error = check_apply(&p, &vec!["s1".to_string(), "c1".to_string()]).expect_err("tampered plan must fail");
    assert!(error.message().contains("plan hash mismatch"));
    let error = load_migration_plan(p).expect_err("tampered plan");
    assert!(error.message().contains("plan hash mismatch"));
}

#[test]
fn destination_inside_source_is_rejected() {
    let error = plan_migration(
        vec![source("local", EntryKind::Skill, "/src/skills", "s")],
        "/src/skills/library".to_string(),
        "work".to_string(),
        "/config/domains.json".to_string(),
        HostKind::Codex,
        "/host".to_string(),
    )
    .expect_err("destination inside a source");
    assert!(error.message().contains("migration destination cannot be inside a source root"));
    let error = plan_migration(
        vec![source("local", EntryKind::Skill, "/src/skills", "s")],
        "/library".to_string(),
        "work".to_string(),
        "/src/skills/domains.json".to_string(),
        HostKind::Codex,
        "/host".to_string(),
    )
    .expect_err("registry inside a source");
    assert!(error.message().contains("domain registry cannot be inside a source root"));
    assert!(starts_with_path("/a/b/c", "/a/b"));
    assert!(!starts_with_path("/a/bc", "/a/b"));
}

#[test]
fn adapter_conflict_leaves_no_partial_registry_or_domain() {
    let mut registry = DomainRegistry::default();
    register_migrated_domain(&mut registry, "work", "/c.json".to_string(), "/u.json".to_string()).expect("first");
    let error = register_migrated_domain(&mut registry, "work", "/d.json".to_string(), "/v.json".to_string())
        .expect_err("already registered");
    assert_eq!(error, "domain already exists in registry: work");
    assert_eq!(registry.domains.len(), 1);
    assert_eq!(registry.domains[0].config.catalog, "/c.json");
}

#[test]
fn rollback_refuses_changed_results() {
    assert!(check_rollback(&receipt(), "other", "dom", "ad").unwrap_err().message().contains("registry changed"));
    assert!(check_rollback(&receipt(), "reg", "other", "ad").unwrap_err().message().contains("migrated domain changed"));
    assert!(check_rollback(&receipt(), "reg", "dom", "other").unwrap_err().message().contains("adapter changed"));
}

#[test]
fn plans_need_a_domain_and_a_source() {
    let error = plan_migration(vec![], "/l".to_string(), "work".to_string(), "/r.json".to_string(), HostKind::Generic, "/h".to_string())
        .expect_err("no source");
    assert!(error.message().contains("at least one skill or command source"));
}

#[test]
fn staged_roots_move_under_the_domain() {
    assert_eq!(staged_root("/stage/skills/a", "/stage", "/lib/work").expect("inside"), "/lib/work/skills/a");
    assert!(staged_root("/other/skills", "/stage", "/lib/work").is_err());
    assert_eq!(migration_dir(EntryKind::Skill).expect("skills"), "skills");
    assert!(migration_dir(EntryKind::Resource).is_err());
}

#[test]
fn sources_sort_by_kind_then_name_stably() {
    let sorted = sort_sources(vec![
        source("b", EntryKind::Command, "/1", "x"),
        source("a", EntryKind::Command, "/2", "x"),
        source("z", EntryKind::Skill, "/3", "x"),
    ]);
    let names = sorted.iter().map(|s| s.name.as_str()).collect::<Vec<_>>();
    assert_eq!(names, vec!["z", "a", "b"]);
}

#[test]
fn adapter_names_the_domain_and_registry() {
    let body = adapter_body("work", "/config/domains.json");
    assert!(body.contains("--domain work"));
    assert!(body.contains("/config/domains.json"));
    let a = directory_manifest_hash(&vec![PathBody { path: "a.md".to_string(), bytes: b"x".to_vec() }]);
    let b = directory_manifest_hash(&vec![PathBody { path: "a.md".to_string(), bytes: b"y".to_vec() }]);
    assert_eq!(a.len(), 64);
    assert_ne!(a, b);
}

#[test]
fn adapters_are_written_kept_or_refused() {
    assert_eq!(adapter_action("/h/SKILL.md", None, "body"), Ok(true));
    assert_eq!(adapter_action("/h/SKILL.md", Some("body".to_string()), "body"), Ok(false));
    assert_eq!(
        adapter_action("/h/SKILL.md", Some("custom adapter".to_string()), "body"),
        Err("host adapter already exists with different content: /h/SKILL.md".to_string())
    );
    assert_eq!(staging_name("work", "0123456789abcdef"), ".skillleaf-work-0123456789abcdef.staging");
}

#[test]
fn absolute_paths_are_normalized_and_may_not_leave_the_root() {
    assert_eq!(normalize_absolute("/a/./b//c/../d/", "x").expect("normal"), "/a/b/d");
    assert_eq!(normalize_absolute("/", "x").expect("root"), "/");
    assert_eq!(normalize_absolute("/a/..", "x").expect("root again"), "/");
    assert_eq!(normalize_absolute("/a/../..", "../../up").unwrap_err(), "path escapes its filesystem root: ../../up");
}

#[test]
fn copying_refuses_links_and_oversized_files() {
    assert_eq!(copy_step("/s/a", true, false, true, 1), Err("migration refuses symlinked content: /s/a".to_string()));
    assert_eq!(copy_step("/s/d", false, true, false, 0), Ok(CopyStep::Directory));
    assert_eq!(copy_step("/s/f", false, false, true, 16777216), Ok(CopyStep::File));
    assert_eq!(copy_step("/s/f", false, false, true, 16777217), Err("migration file exceeds 16777216 bytes: /s/f".to_string()));
    assert_eq!(copy_step("/s/p", false, false, false, 0), Ok(CopyStep::Skip));
}

#[test]
fn a_staged_catalogue_is_rebased_under_the_domain_and_resealed() {
    let catalog = Catalog {
        schema: "skillleaf.catalog.v1".to_string(),
        catalog_sha256: "stale".to_string(),
        roots: vec![
            CatalogRoot { key: "work/command".to_string(), path: "/stage/commands/work".to_string() },
            CatalogRoot { key: "work/skill".to_string(), path: "/stage/skills/work".to_string() },
        ],
        entries: vec![],
    };
    let rebased = rebase_staged_catalog(catalog.clone(), "/stage", "/lib/work").expect("inside");
    assert_eq!(rebased.roots[0].key, "work/command");
    assert_eq!(rebased.roots[0].path, "/lib/work/commands/work");
    assert_eq!(rebased.roots[1].path, "/lib/work/skills/work");
    assert_eq!(rebased.catalog_sha256, catalog_hash(&rebased.roots, &rebased.entries));
    assert_ne!(rebased.catalog_sha256, "stale");

    let mut outside = catalog;
    outside.roots[1].path = "/elsewhere/skills".to_string();
    let error = rebase_staged_catalog(outside, "/stage", "/lib/work").expect_err("outside");
    assert_eq!(error, "catalog root is outside staging: /elsewhere/skills");
}

#[test]
fn host_names_are_those_of_the_plan_format() {
    assert_eq!(HostKind::Codex.as_str(), "codex");
    assert_eq!(HostKind::OpenCode.as_str(), "open_code");
    assert_eq!(HostKind::Generic.as_str(), "generic");
}
