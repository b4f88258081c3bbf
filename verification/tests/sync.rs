use skillleaf::builder::build_catalog;
use skillleaf::catalog::{Catalog, EntryKind, SkillleafError};
use skillleaf::hydrate::BodyRead;
use skillleaf::index::{RootScan, ScannedRoot, SourceFile, SourceRoot};
use skillleaf::security::TrustLevel;
use skillleaf::snapshot::{
    accept_remote, check_local_state, generation_name, offline_receipt, LocalState, chunk_path, current_pointer, entry_location, local_catalog, publish_snapshot, remote_receipt,
    sync_status, validate_manifest, verify_chunk, verify_file, PullOptions, PublishedSnapshot,
};
use skillleaf::sync::{negotiate_protocol, portable_path, validate_root_key, validate_snapshot_id};

fn file(path: &str, body: &str) -> SourceFile {
    SourceFile {
        path: path.to_string(),
        is_symlink: false,
        is_file: true,
        len: body.len() as u64,
        bytes: Some(body.as_bytes().to_vec()),
    }
}

fn example_catalog() -> (Catalog, Vec<(String, Vec<u8>)>) {
    let review = "---\nname: review\ndescription: Review code changes for regressions and validation.\n---\n# Review\n\nUse the [checklist](references/checklist.md) before you finish the review.\n";
    let checklist = "# Checklist\n\nCheck tests and boundaries, then check them again carefully.\n";
    let finish = "---\nname: finish\ndescription: Finish changes with review and validation.\ndependencies:\n  - example/skill:review\n---\n# Finish\n";
    let roots = vec![
        ScannedRoot {
            root: SourceRoot { name: "example".to_string(), kind: EntryKind::Skill, path: "/lib/skills".to_string() },
            scan: RootScan::Listed {
                canonical: "/lib/skills".to_string(),
                files: vec![file("review/SKILL.md", review), file("review/references/checklist.md", checklist)],
            },
        },
        ScannedRoot {
            root: SourceRoot { name: "example".to_string(), kind: EntryKind::Command, path: "/lib/commands".to_string() },
            scan: RootScan::Listed { canonical: "/lib/commands".to_string(), files: vec![file("finish.md", finish)] },
        },
    ];
    let catalog = build_catalog(&roots, 256 * 1024).expect("catalog");
    let store = vec![
        ("/lib/skills/review/SKILL.md".to_string(), review.as_bytes().to_vec()),
        ("/lib/skills/review/references/checklist.md".to_string(), checklist.as_bytes().to_vec()),
        ("/lib/commands/finish.md".to_string(), finish.as_bytes().to_vec()),
    ];
    (catalog, store)
}

fn bodies_for(catalog: &Catalog, store: &[(String, Vec<u8>)]) -> Vec<BodyRead> {
    let mut bodies = Vec::new();
    for k in 0..catalog.entries.len() {
        let (root, rel) = entry_location(catalog, k).expect("location");
        let full = format!("{root}/{rel}");
        match store.iter().find(|(p, _)| *p == full) {
            Some((p, b)) => bodies.push(BodyRead::Read { path: p.clone(), bytes: b.clone() }),
            None => bodies.push(BodyRead::Failed(format!("missing {full}"))),
        }
    }
    bodies
}

fn publish(chunk: usize) -> (Catalog, PublishedSnapshot) {
    let (catalog, store) = example_catalog();
    let bodies = bodies_for(&catalog, &store);
    let (copy, _) = example_catalog();
    let checked = bodies.clone();
    let snapshot = publish_snapshot(copy, chunk, checked, bodies).expect("publish");
    (catalog, snapshot)
}

fn pinned(id: &str) -> PullOptions {
    PullOptions { expected_snapshot: Some(id.to_string()), trust_remote: false, allow_offline_fallback: true }
}

fn unpinned() -> PullOptions {
    PullOptions { expected_snapshot: None, trust_remote: false, allow_offline_fallback: true }
}

#[test]
fn protocol_negotiation_accepts_overlap_and_rejects_incompatible_ranges() {
    assert_eq!(negotiate_protocol(1, 1).expect("v1 overlap"), 1);
    assert!(negotiate_protocol(2, 3).is_err());
    assert!(negotiate_protocol(2, 1).is_err());
}

#[test]
fn portable_paths_accept_nested_files_and_reject_escape_or_host_paths() {
    assert_eq!(
        portable_path("roots/team/skill/review/SKILL.md").expect("portable path"),
        "roots/team/skill/review/SKILL.md".to_string()
    );
    for unsafe_path in [
        "../secret",
        "/etc/passwd",
        "C:\\secret",
        "C:/secret",
        "roots/./skill",
        "roots//skill",
        "roots/\u{0000}/skill",
    ] {
        assert!(portable_path(unsafe_path).is_err(), "{unsafe_path}");
    }
}

#[test]
fn protocol_errors_name_the_range() {
    assert_eq!(negotiate_protocol(2, 3).unwrap_err(), "incompatible sync protocol 2..=3; this client supports 1");
    assert_eq!(negotiate_protocol(2, 1).unwrap_err(), "invalid sync protocol range 2..=1");
    assert_eq!(negotiate_protocol(0, 5).unwrap(), 1);
}

#[test]
fn snapshot_ids_are_sixty_four_hex_digits() {
    assert!(validate_snapshot_id(&"a".repeat(64)).is_ok());
    assert!(validate_snapshot_id(&"A0".repeat(32)).is_ok());
    assert_eq!(validate_snapshot_id(&"a".repeat(63)).unwrap_err(), "invalid snapshot or chunk identifier");
    assert!(validate_snapshot_id(&"g".repeat(64)).is_err());
}

#[test]
fn root_keys_name_a_source_and_a_kind() {
    assert!(validate_root_key("team/skill").is_ok());
    assert!(validate_root_key("team/command").is_ok());
    assert!(validate_root_key("team/resource").is_err());
    assert!(validate_root_key("../skill").is_err());
}

#[test]
fn chunk_paths_shard_by_the_first_two_digits() {
    let id = format!("ab{}", "0".repeat(62));
    assert_eq!(chunk_path(&id), format!("chunks/ab/{id}.chunk"));
}

#[test]
fn published_snapshot_is_accepted_when_pinned() {
    let (_catalog, snapshot) = publish(32);
    let manifest = &snapshot.manifest;
    assert!(validate_manifest(manifest).is_ok());
    assert!(manifest.files.iter().any(|f| f.chunks.len() > 1), "small chunks must split a file");
    assert_eq!(manifest.files.len(), 3);
    let pointer = current_pointer(manifest);
    assert_eq!(pointer.snapshot_id, manifest.snapshot_id);
    assert_eq!(accept_remote(&pointer, manifest, &pinned(&manifest.snapshot_id)), Ok(true));
    for payload in &snapshot.chunks {
        let declared = manifest
            .files
            .iter()
            .flat_map(|f| f.chunks.iter())
            .find(|c| c.sha256 == payload.sha256)
            .expect("declared chunk");
        assert!(verify_chunk(declared, &payload.bytes).is_ok());
    }
}

#[test]
fn published_chunks_rejoin_into_the_bodies() {
    let (_catalog, snapshot) = publish(16);
    for f in &snapshot.manifest.files {
        let mut joined = Vec::new();
        for c in &f.chunks {
            let payload = snapshot.chunks.iter().find(|p| p.sha256 == c.sha256).expect("payload");
            joined.extend_from_slice(&payload.bytes);
        }
        assert!(verify_file(f, &joined).is_ok());
        assert_eq!(joined.len() as u64, f.bytes);
    }
}

#[test]
fn snapshot_pin_rejects_an_unexpected_update() {
    let (_catalog, snapshot) = publish(64);
    let pointer = current_pointer(&snapshot.manifest);
    let error = accept_remote(&pointer, &snapshot.manifest, &pinned(&"0".repeat(64))).expect_err("incorrect pins must fail");
    assert!(error.contains("does not match the pinned snapshot"));
}

#[test]
fn unpinned_remote_is_downgraded_and_tampered_chunks_fail_closed() {
    let (_catalog, snapshot) = publish(32);
    let manifest = &snapshot.manifest;
    let pointer = current_pointer(manifest);
    let trusted = accept_remote(&pointer, manifest, &unpinned()).expect("accepted");
    assert!(!trusted);
    let imported = local_catalog(manifest.catalog.clone(), trusted, "/local/generation").expect("local catalogue");
    assert!(imported.entries.iter().all(|e| e.trust == TrustLevel::Untrusted));
    let first = &manifest.files[0].chunks[0];
    let error = verify_chunk(first, &b"tampered".to_vec()).expect_err("tampered chunk");
    assert!(error.contains("failed verification"));
}

#[test]
fn receipts_record_the_trust_decision() {
    let receipt = remote_receipt("a".repeat(64), "team".to_string(), "/local/catalog.json".to_string(), true);
    assert_eq!(receipt.mode, "remote");
    assert!(receipt.trusted);
}

#[test]
fn status_without_a_remote_or_local_state_reports_nothing_ready() {
    let status = sync_status("team", None, None, false).expect("status");
    assert!(!status.remote_available);
    assert!(!status.local_verified);
    assert!(!status.update_available);
    assert!(!status.fallback_ready);
}

#[test]
fn publish_pull_status_and_offline_fallback_work_end_to_end() {
    let (_catalog, snapshot) = publish(32);
    let manifest = &snapshot.manifest;
    let snapshot_id = manifest.snapshot_id.clone();
    assert!(manifest.files.iter().any(|file| file.chunks.len() > 1), "small test chunks should exercise real chunking");

    let pointer = current_pointer(manifest);
    let trusted = accept_remote(&pointer, manifest, &pinned(&snapshot_id)).expect("pinned pull");
    assert!(trusted);
    let local = local_catalog(manifest.catalog.clone(), trusted, "/local/domains/shared/snapshots/gen").expect("local");
    assert!(local.roots.iter().all(|r| r.path.starts_with("/local/domains/shared/snapshots/gen/roots/")));
    assert!(skillleaf::integrity::load_catalog(local.clone()).is_ok());
    let receipt = remote_receipt(snapshot_id.clone(), "shared".to_string(), "/local/catalog.json".to_string(), trusted);
    assert!(receipt.trusted);

    let state = LocalState {
        schema: "skillleaf.sync-local-state.v1".to_string(),
        protocol: 1,
        snapshot_id: snapshot_id.clone(),
        catalog_path: "/local/catalog.json".to_string(),
        trusted,
    };
    assert!(check_local_state(&state).is_ok());
    let status = sync_status("shared", Some(Ok(pointer.clone())), Some(Ok(state.clone())), true).expect("status");
    assert!(status.remote_available);
    assert!(status.local_verified);
    assert!(!status.update_available);
    assert!(status.fallback_ready);

    let offline = sync_status("shared", None, Some(Ok(state.clone())), true).expect("offline status");
    assert!(!offline.remote_available);
    assert!(offline.fallback_ready);
    let fallback = offline_receipt(state, "shared".to_string());
    assert_eq!(fallback.mode, "offline_fallback");
    assert_eq!(fallback.snapshot_id, snapshot_id);
}

#[test]
fn generations_are_named_by_snapshot_and_trust() {
    assert_eq!(generation_name("abc", true), "abc-trusted");
    assert_eq!(generation_name("abc", false), "abc-untrusted");
}

#[test]
fn every_declared_chunk_has_a_payload() {
    let (_catalog, snapshot) = publish(16);
    for f in &snapshot.manifest.files {
        for c in &f.chunks {
            let payload = snapshot.chunks.iter().find(|p| p.sha256 == c.sha256).expect("payload for a declared chunk");
            assert!(verify_chunk(c, &payload.bytes).is_ok());
        }
    }
}

#[test]
fn publishing_refuses_a_catalogue_that_fails_the_doctor() {
    let (catalog, store) = example_catalog();
    let bodies = bodies_for(&catalog, &store);
    let mut checked = bodies.clone();
    checked[0] = BodyRead::Failed("cannot read the first body".to_string());
    match publish_snapshot(catalog, 1024, checked, bodies) {
        Err(SkillleafError::Storage(m)) => assert_eq!(m, "catalog integrity error: cannot read the first body"),
        other => panic!("expected a storage error, got {:?}", other.map(|_| ())),
    }
}
