use skillleaf::builder::build_catalog;
use skillleaf::catalog::{Catalog, EntryKind, SkillleafError};
use skillleaf::hydrate::{hydrate, hydration_plan, BodyRead, HydratedEntry};
use skillleaf::index::{RootScan, ScannedRoot, SourceFile, SourceRoot};
use skillleaf::security::TrustLevel;
use skillleaf::usage::{load_usage_ledger, record_hydrations, usage_report, UsageLedger};

const REVIEW: &str = "---\nname: review\ndescription: Review a change.\n---\n# Review\n";
const HELPER: &str = "---\nname: helper\ndescription: Help.\n---\n# Helper\n";

fn example() -> Catalog {
    let files = [("review/SKILL.md", REVIEW), ("helper/SKILL.md", HELPER)]
        .iter()
        .map(|(p, b)| SourceFile {
            path: p.to_string(),
            is_symlink: false,
            is_file: true,
            len: b.len() as u64,
            bytes: Some(b.as_bytes().to_vec()),
        })
        .collect();
    let roots = vec![ScannedRoot {
        root: SourceRoot { name: "example".to_string(), kind: EntryKind::Skill, path: "/ex/skills".to_string() },
        scan: RootScan::Listed { canonical: "/ex/skills".to_string(), files },
    }];
    build_catalog(&roots, 256 * 1024).expect("catalog")
}

fn hydrated_review(catalog: &Catalog) -> Vec<HydratedEntry> {
    let selectors = vec!["example/skill:review".to_string()];
    let plan = hydration_plan(catalog, &selectors, false);
    assert_eq!(plan.targets.len(), 1);
    let bodies = vec![BodyRead::Read { path: "/ex/skills/review/SKILL.md".to_string(), bytes: REVIEW.as_bytes().to_vec() }];
    hydrate(catalog, &selectors, bodies).expect("hydrate")
}

#[test]
fn concurrent_hydrations_are_not_lost() {
    let catalog = example();
    let selector = "example/skill:review".to_string();
    let hydrated = hydrated_review(&catalog);
    let mut ledger: Option<UsageLedger> = None;
    for round in 0..8u64 {
        ledger = record_hydrations(Ok(ledger), &hydrated, 1000 + round).expect("record usage");
    }
    let report = usage_report(&catalog, Ok(ledger)).expect("usage report");
    let entry = report.entries.iter().find(|entry| entry.selector == selector).expect("reported selector");
    assert_eq!(entry.hydrate_count, 8);
    assert_eq!(entry.last_hydrated_unix_ms, Some(1007));
    assert!(!entry.content_changed_since_last_hydration);
    let unused = report.entries.iter().find(|e| e.selector == "example/skill:helper").expect("helper line");
    assert_eq!(unused.hydrate_count, 0);
    assert_eq!(report.entries[0].selector, selector, "most used first");
}

#[test]
fn malformed_usage_ledger_fails_closed() {
    let catalog = example();
    let stored: Result<Option<UsageLedger>, SkillleafError> =
        Err(SkillleafError::Integrity("invalid usage ledger JSON in usage.json".to_string()));
    let error = usage_report(&catalog, stored).expect_err("malformed usage must fail");
    assert!(error.message().contains("invalid usage ledger JSON"));
}

#[test]
fn nothing_hydrated_records_nothing() {
    assert!(record_hydrations(Ok(None), &Vec::new(), 5).expect("nothing").is_none());
}

#[test]
fn ledgers_of_another_schema_are_refused() {
    let ledger = UsageLedger { schema: "other".to_string(), entries: Vec::new() };
    assert_eq!(load_usage_ledger(Some(ledger)).unwrap_err(), "unsupported usage schema: other");
    let catalog = example();
    let hydrated = hydrated_review(&catalog);
    let ledger = UsageLedger { schema: "other".to_string(), entries: Vec::new() };
    let error = record_hydrations(Ok(Some(ledger)), &hydrated, 1).expect_err("schema");
    assert!(error.message().contains("unsupported usage schema: other"));
    assert_eq!(hydrated[0].trust, TrustLevel::Trusted);
}
