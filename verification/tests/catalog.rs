use skillleaf::builder::{build_catalog, build_catalog_with_options};
use skillleaf::catalog::{Catalog, EntryKind, SkillleafError};
use skillleaf::hydrate::{all_selectors, doctor, hydrate, hydrate_with_policy, hydration_plan, BodyRead};
use skillleaf::index::{linked_resources_of, BuildOptions, RootScan, ScannedRoot, SourceFile, SourceRoot};
use skillleaf::integrity::{catalog_material, load_catalog};
use skillleaf::resolve::resolve;
use skillleaf::routing::{match_score, tokens};
use skillleaf::security::TrustLevel;

fn file(path: &str, body: &str) -> SourceFile {
    SourceFile {
        path: path.to_string(),
        is_symlink: false,
        is_file: true,
        len: body.len() as u64,
        bytes: Some(body.as_bytes().to_vec()),
    }
}

fn scanned(name: &str, kind: EntryKind, dir: &str, files: Vec<SourceFile>) -> ScannedRoot {
    ScannedRoot {
        root: SourceRoot { name: name.to_string(), kind, path: dir.to_string() },
        scan: RootScan::Listed { canonical: dir.to_string(), files },
    }
}

/// The bodies a filesystem holds, by full path.
type Store = Vec<(String, Vec<u8>)>;

fn read_bodies(catalog: &Catalog, selectors: &[String], allow: bool, store: &Store) -> Vec<BodyRead> {
    let plan = hydration_plan(catalog, &selectors.to_vec(), allow);
    plan.targets
        .iter()
        .map(|t| {
            let full = format!("{}/{}", t.root, t.relative_path);
            match store.iter().find(|(p, _)| *p == full) {
                Some((p, b)) => BodyRead::Read { path: p.clone(), bytes: b.clone() },
                None => BodyRead::Failed(format!("cannot read {full}")),
            }
        })
        .collect()
}

const REVIEW: &str = "---\nname: review\ndescription: Review code changes for regressions and validation.\n---\n# Review\n\nUse the [checklist](references/checklist.md).\n";
const CHECKLIST: &str = "# Checklist\n\nCheck tests and boundaries.\n";
const HELPER: &str = "---\nname: helper\ndescription: Provide unrelated general assistance.\n---\n# Helper\n";
const FINISH: &str = "---\nname: finish\ndescription: Finish changes with review and validation.\ndependencies:\n  - fixture/skill:review\n---\n# Finish\n";

fn fixture() -> (Catalog, Store) {
    let roots = vec![
        scanned(
            "fixture",
            EntryKind::Skill,
            "/tmp/fixture/skills",
            vec![
                file("review", ""),
                file("review/SKILL.md", REVIEW),
                file("review/references/checklist.md", CHECKLIST),
                file("helper/SKILL.md", HELPER),
            ],
        ),
        scanned("fixture", EntryKind::Command, "/tmp/fixture/commands", vec![file("finish.md", FINISH)]),
    ];
    let mut roots = roots;
    if let RootScan::Listed { files, .. } = &mut roots[0].scan {
        files[0].is_file = false;
        files[0].bytes = None;
    }
    let catalog = build_catalog(&roots, 256 * 1024).expect("fixture catalog");
    let store = vec![
        ("/tmp/fixture/skills/review/SKILL.md".to_string(), REVIEW.as_bytes().to_vec()),
        ("/tmp/fixture/skills/review/references/checklist.md".to_string(), CHECKLIST.as_bytes().to_vec()),
        ("/tmp/fixture/skills/helper/SKILL.md".to_string(), HELPER.as_bytes().to_vec()),
        ("/tmp/fixture/commands/finish.md".to_string(), FINISH.as_bytes().to_vec()),
    ];
    (catalog, store)
}

fn one_skill(name: &str, body: &str) -> Vec<ScannedRoot> {
    vec![scanned("local", EntryKind::Skill, "/tmp/local/skills", vec![file(&format!("{name}/SKILL.md"), body)])]
}

#[test]
fn resolves_and_hydrates_only_the_dependency_closure() {
    let (built, store) = fixture();
    let catalog = load_catalog(built).expect("load");
    let resolution = resolve(&catalog, "finish and review this change", &vec![], 8).expect("resolve");
    let selectors = resolution.selected.iter().map(|entry| entry.selector.as_str()).collect::<Vec<_>>();

    assert!(selectors.contains(&"fixture/command:finish"));
    assert!(selectors.contains(&"fixture/skill:review"));
    assert!(selectors.contains(&"fixture/resource:review/references/checklist.md"));
    assert!(resolution.selected_bytes < resolution.corpus_bytes);

    let wanted = resolution.selected.iter().map(|entry| entry.selector.clone()).collect::<Vec<_>>();
    let bodies = read_bodies(&catalog, &wanted, false, &store);
    let hydrated = hydrate(&catalog, &wanted, bodies).expect("hydrate");
    assert_eq!(hydrated.len(), 3);
}

#[test]
fn changed_body_fails_closed() {
    let (catalog, mut store) = fixture();
    store[0].1 = b"changed".to_vec();
    let wanted = vec!["fixture/skill:review".to_string()];
    let bodies = read_bodies(&catalog, &wanted, false, &store);
    let error = hydrate(&catalog, &wanted, bodies).expect_err("changed body must fail");
    assert!(error.message().contains("content hash mismatch"));
}

#[test]
fn tampered_catalog_fails_closed() {
    let (mut catalog, _store) = fixture();
    catalog.entries[0].description = "tampered".to_string();
    let error = load_catalog(catalog).expect_err("tampered catalog must fail");
    assert!(error.message().contains("catalog hash mismatch"));
}

#[test]
fn missing_dependency_is_rejected_during_indexing() {
    let roots = vec![scanned(
        "local",
        EntryKind::Command,
        "/tmp/local/commands",
        vec![file(
            "broken.md",
            "---\nname: broken\ndescription: Broken dependency example.\ndependencies:\n  - local/skill:missing\n---\n",
        )],
    )];
    let error = build_catalog(&roots, 256 * 1024).expect_err("missing dependency must fail");
    assert!(error.message().contains("missing dependency"));
}

#[test]
fn doctor_verifies_the_complete_fixture() {
    let (built, store) = fixture();
    let catalog = load_catalog(built).expect("load");
    let selectors = all_selectors(&catalog);
    let bodies = read_bodies(&catalog, &selectors, true, &store);
    doctor(&catalog, bodies).expect("doctor");
    assert!(!catalog.entries.is_empty());
}

#[test]
fn doctor_reports_an_unreadable_body() {
    let (catalog, mut store) = fixture();
    store.remove(2);
    let selectors = all_selectors(&catalog);
    let bodies = read_bodies(&catalog, &selectors, true, &store);
    let error = doctor(&catalog, bodies).expect_err("missing body");
    assert!(error.message().contains("cannot read /tmp/fixture/skills/helper/SKILL.md"));
}

#[test]
fn malformed_but_common_frontmatter_has_a_deterministic_fallback() {
    let roots = one_skill("fallback", "---\nname: fallback\ndescription: Review: validation and boundaries\n---\n# Fallback\n");
    let catalog = build_catalog(&roots, 256 * 1024).expect("catalog");
    assert_eq!(catalog.entries[0].name, "fallback");
    assert_eq!(catalog.entries[0].description, "Review: validation and boundaries");
}

#[test]
fn duplicate_source_kind_roots_fail_closed() {
    let body = "---\nname: same\ndescription: Same capability from two roots.\n---\n";
    let roots = vec![
        scanned("local", EntryKind::Skill, "/tmp/first", vec![file("same/SKILL.md", body)]),
        scanned("local", EntryKind::Skill, "/tmp/second", vec![file("same/SKILL.md", body)]),
    ];
    let error = build_catalog(&roots, 256 * 1024).expect_err("duplicate source/kind root must fail");
    assert!(error.message().contains("duplicate source and kind"));
}

#[test]
fn symlinked_skill_bodies_are_not_indexed() {
    let mut linked = file("linked/SKILL.md", "# Outside\n");
    linked.is_symlink = true;
    let roots = vec![scanned("local", EntryKind::Skill, "/tmp/local/skills", vec![linked])];
    let catalog = build_catalog(&roots, 256 * 1024).expect("catalog");
    assert!(catalog.entries.is_empty());
}

#[test]
fn aliases_and_unique_typos_route_deterministically() {
    let roots = one_skill(
        "review",
        "---\nname: critical-review\ndescription: Inspect a change before release.\naliases:\n  - adversarial-review\n---\n",
    );
    let catalog = build_catalog(&roots, 256 * 1024).expect("catalog");
    let exact = resolve(&catalog, "run adversarial review", &vec![], 8).expect("exact");
    assert_eq!(exact.selected[0].selector, "local/skill:critical-review");
    assert!(exact.selected[0].reasons.contains(&"exact alias match".to_string()));

    let typo = resolve(&catalog, "run adversarail", &vec![], 8).expect("typo");
    assert_eq!(typo.selected[0].selector, "local/skill:critical-review");
    assert!(typo.selected[0].reasons.iter().any(|reason| reason.starts_with("unique typo match")));
}

#[test]
fn ambiguous_typo_does_not_auto_route() {
    let files = ["deploy", "deplox"]
        .iter()
        .map(|name| file(&format!("{name}/SKILL.md"), &format!("---\nname: {name}\ndescription: A distinct capability.\n---\n")))
        .collect::<Vec<_>>();
    let roots = vec![scanned("local", EntryKind::Skill, "/tmp/local/skills", files)];
    let catalog = build_catalog(&roots, 256 * 1024).expect("catalog");
    assert!(resolve(&catalog, "deplow", &vec![], 8).expect("resolve").selected.is_empty());
}

#[test]
fn alias_collisions_fail_closed() {
    let files = ["one", "two"]
        .iter()
        .map(|name| {
            file(&format!("{name}/SKILL.md"), &format!("---\nname: {name}\ndescription: Fixture.\naliases:\n  - shared-alias\n---\n"))
        })
        .collect::<Vec<_>>();
    let roots = vec![scanned("local", EntryKind::Skill, "/tmp/local/skills", files)];
    let error = build_catalog(&roots, 256 * 1024).expect_err("ambiguous aliases must fail");
    assert!(error.message().contains("routing alias collision"));
}

#[test]
fn untrusted_sources_require_explicit_selection_and_hydration() {
    let body = "---\nname: remote\ndescription: Deploy remote infrastructure safely.\n---\n";
    let roots = vec![scanned("downloaded", EntryKind::Skill, "/tmp/dl/skills", vec![file("remote/SKILL.md", body)])];
    let options = BuildOptions { untrusted_sources: vec!["downloaded".to_string()], untrusted_roots: vec![] };
    let catalog = build_catalog_with_options(&roots, 256 * 1024, &options).expect("catalog");
    let store: Store = vec![("/tmp/dl/skills/remote/SKILL.md".to_string(), body.as_bytes().to_vec())];
    assert!(resolve(&catalog, "deploy remote infrastructure", &vec![], 8).expect("resolve").selected.is_empty());
    let selector = "downloaded/skill:remote".to_string();
    let explicit = resolve(&catalog, "deploy", &vec![selector.clone()], 8).expect("explicit");
    assert_eq!(explicit.selected[0].selector, selector);
    assert!(explicit.selected[0].reasons.contains(&"explicit untrusted request".to_string()));
    let wanted = vec![selector.clone()];
    let refused = hydrate(&catalog, &wanted, read_bodies(&catalog, &wanted, false, &store)).expect_err("untrusted");
    assert!(refused.message().contains("untrusted selector requires --allow-untrusted"));
    let allowed = hydrate_with_policy(&catalog, &wanted, true, read_bodies(&catalog, &wanted, true, &store)).expect("allowed");
    assert_eq!(allowed.len(), 1);
    assert_eq!(allowed[0].trust, TrustLevel::Untrusted);
}

#[test]
fn untrusted_root_does_not_taint_same_named_sibling_kind() {
    let roots = vec![
        scanned(
            "personal",
            EntryKind::Skill,
            "/tmp/p/skills",
            vec![file("review/SKILL.md", "---\nname: review\ndescription: Review changes.\n---\n")],
        ),
        scanned(
            "personal",
            EntryKind::Command,
            "/tmp/p/commands",
            vec![file("finish.md", "---\nname: finish\ndescription: Finish changes.\n---\n")],
        ),
    ];
    let options = BuildOptions { untrusted_sources: vec![], untrusted_roots: vec!["personal/skill".to_string()] };
    let catalog = build_catalog_with_options(&roots, 256 * 1024, &options).expect("catalog");
    let command = catalog.entries.iter().find(|entry| entry.kind == EntryKind::Command).expect("command entry");
    assert_eq!(command.trust, TrustLevel::Trusted);
    let skill = catalog.entries.iter().find(|entry| entry.kind == EntryKind::Skill).expect("skill entry");
    assert_eq!(skill.trust, TrustLevel::Untrusted);
}

#[test]
fn hidden_direction_overrides_are_rejected() {
    let roots = one_skill("unsafe", "---\nname: unsafe\ndescription: Hidden text.\n---\nDo this \u{202e}instead.");
    let error = build_catalog(&roots, 256 * 1024).expect_err("display-spoofing control must fail");
    assert!(error.message().contains("bidirectional override"));
}

#[test]
fn declared_untrusted_downgrades_and_trusted_never_upgrades() {
    let body = "---\nname: guarded\ndescription: Guarded skill.\ntrust: untrusted\n---\n";
    let catalog = build_catalog(&one_skill("guarded", body), 256 * 1024).expect("catalog");
    assert_eq!(catalog.entries[0].trust, TrustLevel::Untrusted);

    let body = "---\nname: claimed\ndescription: Claims trust.\ntrust: trusted\n---\n";
    let roots = vec![scanned("dl", EntryKind::Skill, "/tmp/dl", vec![file("claimed/SKILL.md", body)])];
    let options = BuildOptions { untrusted_sources: vec!["dl".to_string()], untrusted_roots: vec![] };
    let catalog = build_catalog_with_options(&roots, 256 * 1024, &options).expect("catalog");
    assert_eq!(catalog.entries[0].trust, TrustLevel::Untrusted);

    let body = "---\nname: odd\ndescription: Odd trust.\ntrust: maybe\n---\n";
    let error = build_catalog(&one_skill("odd", body), 256 * 1024).expect_err("unknown trust");
    assert!(error.message().contains("unsupported trust value 'maybe'"));
}

#[test]
fn oversized_bodies_are_refused() {
    let error = build_catalog(&one_skill("big", "---\nname: big\n---\n# Big\n"), 4).expect_err("too large");
    assert!(error.message().contains("catalog input exceeds 4 bytes"));
}

#[test]
fn unknown_selectors_are_refused() {
    let (catalog, _store) = fixture();
    let error = resolve(&catalog, "anything", &vec!["fixture/skill:nothing".to_string()], 3).expect_err("unknown");
    assert_eq!(error.message(), "resolution error: required selector is not in the catalog: fixture/skill:nothing");
}

#[test]
fn resolve_honours_the_limit_but_keeps_required_selectors() {
    let (catalog, _store) = fixture();
    let one = resolve(&catalog, "review validation helper general assistance finish", &vec![], 1).expect("limit one");
    let ranked = one.selected.iter().filter(|e| !e.reasons.iter().all(|r| r.starts_with("required by "))).count();
    assert_eq!(ranked, 1);
    let required = vec!["fixture/skill:helper".to_string(), "fixture/command:finish".to_string()];
    let two = resolve(&catalog, "nothing relevant here", &required, 0).expect("required");
    let names = two.selected.iter().map(|e| e.selector.as_str()).collect::<Vec<_>>();
    assert!(names.contains(&"fixture/skill:helper"));
    assert!(names.contains(&"fixture/command:finish"));
    assert!(names.contains(&"fixture/skill:review"));
    assert_eq!(two.estimated_tokens_avoided, two.avoided_bytes / 4);
    assert_eq!(two.avoided_bytes, two.corpus_bytes - two.selected_bytes);
}

#[test]
fn trusted_default_keeps_catalog_serialization_backwards_compatible() {
    let (built, _store) = fixture();
    let catalog = load_catalog(built).expect("load");
    let encoded = catalog_material(&catalog.roots, &catalog.entries);
    assert!(!encoded.contains("\"trust\""));
    assert!(encoded.starts_with("{\"schema\":\"skillleaf.catalog.v1\",\"roots\":{"));
}

#[test]
fn untrusted_entries_are_marked_in_the_catalogue_material() {
    let body = "---\nname: remote\ndescription: Remote.\n---\n";
    let roots = vec![scanned("dl", EntryKind::Skill, "/tmp/dl", vec![file("remote/SKILL.md", body)])];
    let options = BuildOptions { untrusted_sources: vec!["dl".to_string()], untrusted_roots: vec![] };
    let catalog = build_catalog_with_options(&roots, 256 * 1024, &options).expect("catalog");
    let encoded = catalog_material(&catalog.roots, &catalog.entries);
    assert!(encoded.contains("\"trust\":\"untrusted\""));
}

#[test]
fn resolve_defaults_to_three_and_honours_an_explicit_limit() {
    let files = ["alpha", "beta", "gamma", "delta"]
        .iter()
        .map(|name| {
            file(
                &format!("{name}/SKILL.md"),
                &format!("---\nname: {name}\ndescription: Review validation release workflow.\n---\n# {name}\n"),
            )
        })
        .collect::<Vec<_>>();
    let roots = vec![scanned("example", EntryKind::Skill, "/tmp/ex/skills", files)];
    let catalog = build_catalog(&roots, 256 * 1024).expect("catalog");
    let three = resolve(&catalog, "review validation release workflow", &vec![], 3).expect("three");
    assert_eq!(three.selected.len(), 3);
    let names = three.selected.iter().map(|e| e.selector.as_str()).collect::<Vec<_>>();
    assert_eq!(names, vec!["example/skill:alpha", "example/skill:beta", "example/skill:delta"], "ties break by selector");
    let four = resolve(&catalog, "review validation release workflow", &vec![], 4).expect("four");
    assert_eq!(four.selected.len(), 4);
}

#[test]
fn text_output_marks_only_untrusted_entries() {
    let files = [("safe", "trusted"), ("risky", "untrusted")]
        .iter()
        .map(|(name, trust)| {
            file(&format!("{name}/SKILL.md"), &format!("---\nname: {name}\ndescription: Review instructions.\ntrust: {trust}\n---\n"))
        })
        .collect::<Vec<_>>();
    let roots = vec![scanned("example", EntryKind::Skill, "/tmp/ex/skills", files)];
    let catalog = build_catalog(&roots, 256 * 1024).expect("catalog");
    let risky = resolve(&catalog, "", &vec!["example/skill:risky".to_string()], 3).expect("risky");
    assert_eq!(risky.selected[0].trust, TrustLevel::Untrusted);
    let safe = resolve(&catalog, "", &vec!["example/skill:safe".to_string()], 3).expect("safe");
    assert_eq!(safe.selected[0].trust, TrustLevel::Trusted);
    assert_eq!(safe.selected.len(), 1);
}

#[test]
fn hydrated_content_is_the_verified_text_and_non_utf8_fails() {
    let (catalog, store) = fixture();
    let wanted = vec!["fixture/skill:helper".to_string()];
    let bodies = read_bodies(&catalog, &wanted, false, &store);
    let hydrated = hydrate(&catalog, &wanted, bodies).expect("hydrate");
    assert_eq!(hydrated[0].content, HELPER);
    assert_eq!(hydrated[0].content_sha256, catalog.entries.iter().find(|e| e.name == "helper").unwrap().content_sha256);

    let bad = vec![0xffu8, 0xfe];
    let digest = skillleaf::digest::sha256(&bad);
    let mut tampered = catalog.clone();
    for e in tampered.entries.iter_mut() {
        if e.name == "helper" {
            e.content_sha256 = digest.clone();
        }
    }
    let bodies = vec![BodyRead::Read { path: "/tmp/fixture/skills/helper/SKILL.md".to_string(), bytes: bad }];
    let error = hydrate(&tampered, &wanted, bodies).expect_err("not UTF-8");
    assert!(error.message().contains("catalog body is not UTF-8"));
}

#[test]
fn markdown_links_to_package_files_become_dependencies() {
    let (catalog, _store) = fixture();
    let review = catalog.entries.iter().find(|e| e.name == "review").expect("review");
    let deps = review.dependencies.iter().map(|d| d.selector.as_str()).collect::<Vec<_>>();
    assert_eq!(deps, vec!["fixture/resource:review/references/checklist.md"]);
}

#[test]
fn match_scores_weigh_names_aliases_descriptions_and_typos() {
    let (catalog, _store) = fixture();
    let review = catalog.entries.iter().find(|e| e.name == "review").expect("review");
    let (score, reasons) = match_score(review, &tokens("review"), &catalog.entries);
    assert_eq!(score, 26);
    assert_eq!(reasons, vec!["description match", "exact name match"]);
    let (score, reasons) = match_score(review, &tokens("regressions validation"), &catalog.entries);
    assert_eq!(score, 4);
    assert_eq!(reasons, vec!["description match"]);
    let (score, reasons) = match_score(review, &tokens("validation"), &catalog.entries);
    assert_eq!(score, 0);
    assert!(reasons.is_empty());
    let (score, reasons) = match_score(review, &tokens("reveiw regressions"), &catalog.entries);
    assert_eq!(score, 10);
    assert_eq!(reasons, vec!["unique typo match: reveiw"]);
}

#[test]
fn a_selected_entry_with_a_missing_dependency_is_refused() {
    let (mut catalog, _store) = fixture();
    for e in catalog.entries.iter_mut() {
        if e.name == "finish" {
            e.dependencies.push(skillleaf::catalog::Dependency { selector: "fixture/skill:missing".to_string() });
        }
    }
    let error = resolve(&catalog, "finish", &vec![], 3).expect_err("missing dependency");
    assert_eq!(error.message(), "resolution error: missing dependency fixture/skill:missing required by fixture/command:finish");
}

#[test]
fn exact_name_matches_outrank_typo_recovery() {
    let files = vec![
        file("deploy/SKILL.md", "---\nname: deploy\ndescription: Ship it.\n---\n"),
        file(
            "release/SKILL.md",
            "---\nname: release\ndescription: alpha bravo charlie delta echo foxtrot golf hotel india\n---\n",
        ),
    ];
    let roots = vec![scanned("local", EntryKind::Skill, "/tmp/local/skills", files)];
    let catalog = build_catalog(&roots, 256 * 1024).expect("catalog");
    let task = "deploy relaese alpha bravo charlie delta echo foxtrot golf hotel india";
    let release = catalog.entries.iter().find(|e| e.name == "release").expect("release");
    let deploy = catalog.entries.iter().find(|e| e.name == "deploy").expect("deploy");
    assert_eq!(match_score(release, &tokens(task), &catalog.entries).0, 26);
    assert_eq!(match_score(deploy, &tokens(task), &catalog.entries).0, 24);
    let chosen = resolve(&catalog, task, &vec![], 1).expect("resolve");
    let selectors = chosen.selected.iter().map(|e| e.selector.as_str()).collect::<Vec<_>>();
    assert_eq!(selectors, vec!["local/skill:deploy"]);
}

#[test]
fn linked_resources_follow_local_markdown_links_only() {
    let files = vec![file("review/SKILL.md", "# Review\n"), file("review/references/checklist.md", "# Checklist\n")];
    let pkg: Vec<char> = "review".chars().collect();
    let events = vec![
        None,
        Some("references/checklist.md".to_string()),
        Some("https://example.com/guide.md".to_string()),
        Some("#top".to_string()),
        Some("references/checklist.md#items".to_string()),
        Some("notes.txt".to_string()),
    ];
    let linked = linked_resources_of("fixture", &files, &pkg, "review", &events).unwrap();
    assert_eq!(linked, vec!["fixture/resource:review/references/checklist.md".to_string()]);

    let missing = linked_resources_of("fixture", &files, &pkg, "review", &vec![Some("missing.md".to_string())]);
    assert!(missing.unwrap_err().contains("unavailable"));

    let escaping = linked_resources_of("fixture", &files, &pkg, "review", &vec![Some("../other/x.md".to_string())]);
    assert!(escaping.unwrap_err().contains("escapes"));
}

#[test]
fn built_entries_have_ordered_aliases_and_a_bounded_description() {
    let long = "word ".repeat(80);
    let body = format!(
        "---\nname: tidy\ndescription: {long}\naliases:\n  - zeta\n  - alpha\n  - zeta\ncapabilities:\n  - write\n  - read\n  - read\n---\n# Tidy\n"
    );
    let catalog = build_catalog(&one_skill("tidy", &body), 256 * 1024).expect("catalog");
    let entry = &catalog.entries[0];
    assert_eq!(entry.aliases, vec!["alpha".to_string(), "zeta".to_string()]);
    assert_eq!(entry.capabilities, vec!["read".to_string(), "write".to_string()]);
    assert_eq!(entry.description.chars().count(), 240);
}

#[test]
fn hydration_keeps_first_requests_once_with_matching_digests() {
    let (catalog, store) = fixture();
    let wanted = vec![
        "fixture/skill:helper".to_string(),
        "fixture/command:finish".to_string(),
        "fixture/skill:helper".to_string(),
    ];
    let unique = vec!["fixture/skill:helper".to_string(), "fixture/command:finish".to_string()];
    let bodies = read_bodies(&catalog, &unique, false, &store);
    let hydrated = hydrate(&catalog, &wanted, bodies).expect("hydrate");
    let got = hydrated.iter().map(|h| h.selector.clone()).collect::<Vec<_>>();
    assert_eq!(got, unique);
    for h in &hydrated {
        assert_eq!(skillleaf::digest::sha256(h.content.as_bytes()), h.content_sha256);
        assert_eq!(h.trust, TrustLevel::Trusted);
    }
}

#[test]
fn a_bad_root_anywhere_refuses_the_build() {
    let good = scanned("local", EntryKind::Skill, "/tmp/local/skills", vec![file("tidy/SKILL.md", "# Tidy\n")]);
    let resource = scanned("other", EntryKind::Resource, "/tmp/other/resources", vec![]);
    match build_catalog(&vec![good.clone(), resource], 1024) {
        Err(SkillleafError::CatalogInput(m)) => assert!(m.contains("resource roots are discovered through skill packages")),
        other => panic!("expected a catalogue-input error, got {other:?}"),
    }
    let missing = ScannedRoot {
        root: SourceRoot { name: "gone".to_string(), kind: EntryKind::Command, path: "/tmp/gone".to_string() },
        scan: RootScan::Unavailable("cannot read /tmp/gone".to_string()),
    };
    match build_catalog(&vec![good.clone(), missing], 1024) {
        Err(SkillleafError::CatalogInput(m)) => assert_eq!(m, "cannot read /tmp/gone"),
        other => panic!("expected a catalogue-input error, got {other:?}"),
    }
    let badly_named = scanned("bad name", EntryKind::Command, "/tmp/bad", vec![]);
    assert!(matches!(build_catalog(&vec![good, badly_named], 1024), Err(SkillleafError::CatalogInput(_))));
}

#[test]
fn a_stronger_description_match_outranks_an_exact_name_match() {
    let files = vec![
        file("deploy/SKILL.md", "---\nname: deploy\ndescription: Ship it.\n---\n"),
        file(
            "guide/SKILL.md",
            "---\nname: guide\ndescription: alpha bravo charlie delta echo foxtrot golf hotel india juliet kilo lima mike\n---\n",
        ),
    ];
    let roots = vec![scanned("local", EntryKind::Skill, "/tmp/local/skills", files)];
    let catalog = build_catalog(&roots, 256 * 1024).expect("catalog");
    let task = "deploy alpha bravo charlie delta echo foxtrot golf hotel india juliet kilo lima mike";
    let guide = catalog.entries.iter().find(|e| e.name == "guide").expect("guide");
    let deploy = catalog.entries.iter().find(|e| e.name == "deploy").expect("deploy");
    assert_eq!(match_score(guide, &tokens(task), &catalog.entries).0, 26);
    assert_eq!(match_score(deploy, &tokens(task), &catalog.entries).0, 24);
    let chosen = resolve(&catalog, task, &vec![], 1).expect("resolve");
    let selectors = chosen.selected.iter().map(|e| e.selector.as_str()).collect::<Vec<_>>();
    assert_eq!(selectors, vec!["local/skill:guide"]);
}

#[test]
fn selected_bytes_are_the_sizes_of_the_selected_entries() {
    let (catalog, _store) = fixture();
    let resolution = resolve(&catalog, "finish and review this change", &vec![], 8).expect("resolve");
    let sum: u64 = resolution.selected.iter().map(|e| e.bytes).sum();
    assert_eq!(resolution.selected_bytes, sum);
    let corpus: u64 = catalog.entries.iter().map(|e| e.bytes).sum();
    assert_eq!(resolution.corpus_bytes, corpus);
    assert_eq!(resolution.avoided_bytes, corpus - sum);
    assert_eq!(resolution.estimated_tokens_avoided, (corpus - sum) / 4);
}

#[test]
fn built_roots_are_keyed_by_source_and_kind() {
    let (catalog, _store) = fixture();
    let roots = catalog.roots.iter().map(|r| (r.key.as_str(), r.path.as_str())).collect::<Vec<_>>();
    assert_eq!(
        roots,
        vec![("fixture/command", "/tmp/fixture/commands"), ("fixture/skill", "/tmp/fixture/skills")]
    );
}
