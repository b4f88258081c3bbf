use skillleaf::catalog::EntryKind;
use skillleaf::digest::sha256;
use skillleaf::frontmatter::{compact_description_text, first_heading_text, parse_frontmatter};
use skillleaf::hydrate::{path_escapes, root_key, unique_selectors};
use skillleaf::index::{parse_source, validate_capability, validate_entry_name};
use skillleaf::routing::{alias_key_text, edit_distance_at_most_one, tokens};
use skillleaf::security::{effective_trust, inspect_catalog, validate_instruction_text, TrustLevel};

fn chars(s: &str) -> Vec<char> {
    s.chars().collect()
}

#[test]
fn sha256_of_known_inputs() {
    assert_eq!(sha256(b""), "e3b0c44298fc1c149afbf4c8996fb92427ae41e4649b934ca495991b7852b855");
    assert_eq!(sha256(b"abc"), "ba7816bf8f01cfea414140de5dae2223b00361a396177a9cb410ff61f20015ad");
}

#[test]
fn tokens_are_lowercase_sorted_unique_and_skip_stop_words() {
    let t = tokens("Review the CHANGE and review a Change-Set");
    assert_eq!(t, vec!["change", "review", "set"]);
    assert!(tokens("a an of").is_empty());
}

#[test]
fn one_edit_covers_substitution_insertion_deletion_and_swap() {
    assert!(edit_distance_at_most_one(&chars("deploy"), &chars("deploy")));
    assert!(edit_distance_at_most_one(&chars("deploy"), &chars("deplox")));
    assert!(edit_distance_at_most_one(&chars("deploy"), &chars("deplo")));
    assert!(edit_distance_at_most_one(&chars("deploy"), &chars("deploys")));
    assert!(edit_distance_at_most_one(&chars("adversarial"), &chars("adversarail")));
    assert!(!edit_distance_at_most_one(&chars("deploy"), &chars("delpoy1")));
    assert!(!edit_distance_at_most_one(&chars("abc"), &chars("xyz")));
}

#[test]
fn aliases_collide_by_their_tokens() {
    assert_eq!(alias_key_text("Shared Alias"), alias_key_text("shared-alias"));
}

#[test]
fn frontmatter_fields_lists_and_block_scalars() {
    let fm = parse_frontmatter(&chars(
        "---\nname: finish\ndescription: >-\n  Finish a change\n  with review.\naliases:\n  - release-finish\ncapabilities:\n  - shell\ndependencies:\n  - personal/skill:critical-review\n---\n# Body\n",
    ));
    assert_eq!(fm.name.as_deref(), Some("finish"));
    assert_eq!(fm.description.as_deref(), Some("Finish a change\nwith review."));
    assert_eq!(fm.aliases, vec!["release-finish"]);
    assert_eq!(fm.capabilities, vec!["shell"]);
    assert_eq!(fm.dependencies, vec!["personal/skill:critical-review"]);
    assert!(fm.trust.is_none());
    let none = parse_frontmatter(&chars("# No frontmatter\n"));
    assert!(none.name.is_none() && none.description.is_none());
    let quoted = parse_frontmatter(&chars("---\nname: \"quoted\"\ntrust: untrusted\n---\n"));
    assert_eq!(quoted.name.as_deref(), Some("quoted"));
    assert_eq!(quoted.trust.as_deref(), Some("untrusted"));
}

#[test]
fn descriptions_fall_back_to_the_first_heading() {
    assert_eq!(first_heading_text(&chars("intro\n## Heading Two\n# One\n")), "One");
    assert_eq!(compact_description_text("  several   spaced\n words "), "several spaced words");
}

#[test]
fn trust_declarations() {
    assert_eq!(effective_trust(TrustLevel::Trusted, &None, "p"), Ok(TrustLevel::Trusted));
    assert_eq!(effective_trust(TrustLevel::Trusted, &Some("untrusted".to_string()), "p"), Ok(TrustLevel::Untrusted));
    assert_eq!(effective_trust(TrustLevel::Untrusted, &Some("trusted".to_string()), "p"), Ok(TrustLevel::Untrusted));
    assert_eq!(
        effective_trust(TrustLevel::Trusted, &Some("".to_string()), "/x/SKILL.md"),
        Err("unsupported trust value '' in /x/SKILL.md".to_string())
    );
}

#[test]
fn hidden_controls_are_refused_but_layout_whitespace_is_not() {
    assert!(validate_instruction_text("p", "line\n\tindented\r\n").is_ok());
    assert!(validate_instruction_text("p", "bell\u{7}").is_err());
    assert!(validate_instruction_text("p", "isolate\u{2067}").is_err());
}

#[test]
fn names_capabilities_and_sources() {
    assert!(validate_entry_name("review/references/a.md").is_ok());
    assert!(validate_entry_name("../escape").is_err());
    assert!(validate_entry_name("/abs").is_err());
    assert!(validate_capability("deploy_2").is_ok());
    assert!(validate_capability("net work").is_err());
    let root = parse_source("personal=/home/me/skills", EntryKind::Skill).expect("source");
    assert_eq!(root.name, "personal");
    assert_eq!(root.path, "/home/me/skills");
    assert!(parse_source("missing-separator", EntryKind::Skill).is_err());
}

#[test]
fn root_keys_and_escapes() {
    assert_eq!(root_key("team", EntryKind::Command), "team/command");
    assert_eq!(root_key("team", EntryKind::Resource), "team/skill");
    assert!(path_escapes("../x"));
    assert!(path_escapes("/etc/passwd"));
    assert!(path_escapes("a/../b"));
    assert!(!path_escapes("a/b..c/d.md"));
}

#[test]
fn duplicate_selectors_are_hydrated_once() {
    let v = vec!["b".to_string(), "a".to_string(), "b".to_string()];
    assert_eq!(unique_selectors(&v), vec!["b", "a"]);
}

#[test]
fn policy_findings_flag_untrusted_and_undeclared_entries() {
    let catalog = skillleaf::catalog::Catalog {
        schema: "skillleaf.catalog.v1".to_string(),
        catalog_sha256: String::new(),
        roots: vec![],
        entries: vec![],
    };
    let report = inspect_catalog(&catalog, true).expect("report");
    assert!(report.passed);
    assert!(report.findings.is_empty());
}
