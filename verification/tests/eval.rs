use skillleaf::builder::build_catalog;
use skillleaf::catalog::EntryKind;
use skillleaf::eval::{check_suite, evaluate_case, EvalCase};
use skillleaf::index::{RootScan, ScannedRoot, SourceFile, SourceRoot};

fn file(path: &str, body: &str) -> SourceFile {
    SourceFile { path: path.to_string(), is_symlink: false, is_file: true, len: body.len() as u64, bytes: Some(body.as_bytes().to_vec()) }
}

fn example() -> skillleaf::catalog::Catalog {
    let roots = vec![ScannedRoot {
        root: SourceRoot { name: "example".to_string(), kind: EntryKind::Skill, path: "/ex/skills".to_string() },
        scan: RootScan::Listed {
            canonical: "/ex/skills".to_string(),
            files: vec![
                file(
                    "review/SKILL.md",
                    "---\nname: review\ndescription: Review code changes with a checklist.\n---\n# Review\n\nUse the [checklist](references/checklist.md).\n",
                ),
                file("review/references/checklist.md", "# Checklist\n\nCheck tests.\n"),
                file("helper/SKILL.md", "---\nname: helper\ndescription: Provide unrelated general assistance.\n---\n# Helper\n"),
            ],
        },
    }];
    build_catalog(&roots, 256 * 1024).expect("catalog")
}

fn ratio(numerator: usize, denominator: usize) -> f64 {
    if denominator == 0 { 1.0 } else { numerator as f64 / denominator as f64 }
}

#[test]
fn evaluation_reports_misses_and_rejected_routes() {
    let catalog = example();
    let passing = EvalCase {
        name: "review".to_string(),
        task: "review this change with a checklist".to_string(),
        expect: vec!["example/skill:review".to_string()],
        reject: vec!["example/skill:helper".to_string()],
    };
    let (report, counts) = evaluate_case(&catalog, &passing, 8).expect("evaluate");
    assert!(report.passed);
    assert_eq!(ratio(counts.true_positive, counts.expected), 1.0);
    assert!(!report.selected.iter().any(|s| s.contains("resource")), "resources are not routes");

    let failing = EvalCase { expect: vec!["example/skill:missing".to_string()], ..passing.clone() };
    let (report, counts) = evaluate_case(&catalog, &failing, 8).expect("evaluate");
    assert!(!report.passed);
    assert_eq!(report.missed, vec!["example/skill:missing"]);
    assert_eq!(ratio(counts.true_positive, counts.expected), 0.0);
}

#[test]
fn rejected_selections_fail_a_case() {
    let catalog = example();
    let case = EvalCase {
        name: "too broad".to_string(),
        task: "review general assistance".to_string(),
        expect: vec![],
        reject: vec!["example/skill:helper".to_string()],
    };
    let (report, counts) = evaluate_case(&catalog, &case, 8).expect("evaluate");
    assert!(!report.passed);
    assert_eq!(report.rejected_but_selected, vec!["example/skill:helper"]);
    assert_eq!(counts.expected, 0);
    assert!(counts.selected >= 1);
}

#[test]
fn suites_need_the_schema_and_a_case() {
    assert!(check_suite("skillleaf.eval.v1", 1).is_ok());
    assert_eq!(check_suite("skillleaf.eval.v1", 0).unwrap_err().message(), "catalog input error: evaluation suite must contain at least one case");
    assert_eq!(check_suite("v0", 3).unwrap_err().message(), "catalog input error: unsupported evaluation schema: v0");
}
