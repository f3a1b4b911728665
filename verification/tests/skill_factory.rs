use std::collections::BTreeSet;

use lina_core::skill_factory::{
    needs_specialist, propose, validate_format, SkillFormatError, FACTORY_METHOD,
    MAX_BODY_BYTES, MAX_DESCRIPTION_BYTES,
};
use lina_core::skill_index::SkillIndexEntry;

fn entry(name: &str, triggers: &[&str]) -> SkillIndexEntry {
    SkillIndexEntry {
        name: name.to_string(),
        description: String::new(),
        triggers: triggers.iter().map(|s| (*s).to_string()).collect(),
        requires: Vec::new(),
    }
}

#[test]
fn needs_specialist_when_no_skill_covers_domain() {
    let index = [entry("lina-copy-doctrine", &["escrever copy"])];
    assert!(needs_specialist(
        &index,
        &BTreeSet::new(),
        "preciso de uma decisão de arquitetura de software"
    ));
}

#[test]
fn no_specialist_needed_when_a_skill_covers_domain() {
    let index = [entry("senior-architect", &["decisão de arquitetura"])];
    assert!(!needs_specialist(
        &index,
        &BTreeSet::new(),
        "preciso de uma decisão de arquitetura agora"
    ));
}

#[test]
fn propose_builds_deep_research_proposal() {
    let refs = vec!["https://doc.rust-lang.org/book".to_string()];
    let p = propose("senior-architect", refs.clone());
    assert_eq!(p.skill_name, "senior-architect");
    assert_eq!(p.via, FACTORY_METHOD);
    assert_eq!(p.via, "deep-research");
    assert_eq!(p.references, refs);
}

#[test]
fn validate_format_rejects_missing_name() {
    let md = "---\ndescription: sem nome\n---\ncorpo\n";
    assert_eq!(validate_format(md), Err(SkillFormatError::MissingName));
}

#[test]
fn validate_format_rejects_oversized_description() {
    let desc = "x".repeat(MAX_DESCRIPTION_BYTES + 1);
    let md = format!("---\nname: ok\ndescription: {desc}\n---\ncorpo\n");
    assert_eq!(
        validate_format(&md),
        Err(SkillFormatError::DescriptionTooLong {
            bytes: MAX_DESCRIPTION_BYTES + 1
        })
    );
}

#[test]
fn validate_format_rejects_oversized_body() {
    let body = "a".repeat(MAX_BODY_BYTES + 1);
    let md = format!("---\nname: ok\n---\n{body}");
    match validate_format(&md) {
        Err(SkillFormatError::BodyTooLong { bytes }) => assert!(bytes > MAX_BODY_BYTES),
        other => panic!("esperava BodyTooLong, veio {other:?}"),
    }
}

#[test]
fn validate_format_accepts_neutral_skill() {
    let md = "---\nname: deploy-helper\ndescription: publica a app\ntrigger: faz o deploy\nrequires: Bash\n---\n# Corpo\nInstruções.\n";
    assert_eq!(validate_format(md), Ok(()));
}

// ── further cases ──

#[test]
fn validate_format_counts_utf8_bytes_of_description() {
    // 513 two-byte chars = 1026 bytes > 1024 although only 513 chars.
    let desc = "ç".repeat(513);
    let md = format!("---\nname: ok\ndescription: {desc}\n---\n");
    assert_eq!(
        validate_format(&md),
        Err(SkillFormatError::DescriptionTooLong { bytes: 1026 })
    );
}

#[test]
fn validate_format_blank_name_is_missing() {
    assert_eq!(
        validate_format("---\nname:    \n---\n"),
        Err(SkillFormatError::MissingName)
    );
}

#[test]
fn body_limit_counts_the_text_after_the_frontmatter() {
    let body = "a".repeat(99_990);
    let md = format!("---\nname: ok\n---\n{body}");
    assert_eq!(md.len(), 100_007);
    assert_eq!(validate_format(&md), Ok(()), "the frontmatter does not count toward the body");
    let body = "a".repeat(MAX_BODY_BYTES + 1);
    let md = format!("---\nname: ok\n---\n{body}");
    assert_eq!(validate_format(&md), Err(SkillFormatError::BodyTooLong { bytes: MAX_BODY_BYTES + 1 }));
}
