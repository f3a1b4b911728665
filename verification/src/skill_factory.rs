//! The skill factory: when no specialist skill covers a sensitive domain, it PROPOSES a new
//! skill through deep research — it suggests and never applies (creating or enabling a skill is
//! a human gesture). The format of an authored skill is validated here, on write.

use std::collections::BTreeSet;

use vstd::prelude::*;

use crate::skill_index::{
    after_opening, entry_views, frontmatter_spec, lemma_find_bound, offered, parse_frontmatter, picks,
    select, SkillIndexEntry,
};
use crate::text::{
    chars_of, find_chars, find_from, lower, slice_chars, starts_with_chars, string_of, trim, trim_chars,
};

verus! {

/// The proposal method of the factory (goes in the `via` field of a proposal).
pub const FACTORY_METHOD: &'static str = "deep-research";

/// Byte limit of the `description` (above 1024 the codex CLI refuses the whole skill).
pub const MAX_DESCRIPTION_BYTES: usize = 1024;

/// Byte limit of the body, the text after the frontmatter (anti-fragmentation ratchet: above it,
/// split into `references/`).
pub const MAX_BODY_BYTES: usize = 100_000;

/// A skill proposal of the factory — pure data; the human gate decides to create or enable it.
#[derive(Debug, Clone, PartialEq, Eq)]
pub struct SkillProposal {
    /// Proposed name of the specialist skill.
    pub skill_name: String,
    /// The method (`"deep-research"`).
    pub via: String,
    /// Sources the research gathered — data, never authority.
    pub references: Vec<String>,
}

/// Format error of an authored skill, validated on write.
#[derive(Debug, Clone, Copy, PartialEq, Eq, Structural)]
pub enum SkillFormatError {
    /// The frontmatter has no `name` (mandatory in the neutral schema).
    MissingName,
    /// The `description` exceeds [`MAX_DESCRIPTION_BYTES`].
    DescriptionTooLong { bytes: usize },
    /// The whole document exceeds [`MAX_BODY_BYTES`].
    BodyTooLong { bytes: usize },
}

/// Whether a specialist is missing for `domain`: no capable skill has a trigger matching it.
pub fn needs_specialist(
    index: &[SkillIndexEntry],
    present_tools: &BTreeSet<String>,
    domain: &str,
) -> (r: bool)
    ensures
        r == (picks(offered(entry_views(index@), present_tools.deep_view()), lower(domain@)).len()
            == 0),
{
    let sel = select(index, present_tools, domain);
    sel.len() == 0
}

/// Builds the factory proposal (without applying it): the caller logs it.
pub fn propose(skill_name: &str, references: Vec<String>) -> (r: SkillProposal)
    ensures
        r.skill_name@ == skill_name@,
        r.via@ == FACTORY_METHOD@,
        r.references == references,
{
    SkillProposal { skill_name: skill_name.to_owned(), via: FACTORY_METHOD.to_owned(), references }
}

/// The rest of a text after its first line (empty when it has no line break).
pub open spec fn after_line(s: Seq<char>) -> Seq<char> {
    match find_from(s, seq!['\n'], 0) {
        Some(i) => s.skip(i + 1),
        None => Seq::empty(),
    }
}

/// The body of a SKILL.md: the text after the line that closes the frontmatter; the whole
/// document when it has no delimited frontmatter.
pub open spec fn body_spec(md: Seq<char>) -> Seq<char> {
    match after_opening(md) {
        Some(rest) => match find_from(rest, seq!['\n', '-', '-', '-'], 0) {
            Some(end) => after_line(rest.skip(end + 4)),
            None => md,
        },
        None => md,
    }
}

/// The format verdict of a SKILL.md: `name` mandatory, then the description and the body under
/// their byte limits (UTF-8 bytes, as `str::len` reports them).
pub open spec fn format_verdict(md: Seq<char>) -> Result<(), SkillFormatError> {
    let fm = frontmatter_spec(md);
    let desc_bytes = vstd::utf8::encode_utf8(fm.description).len() as usize;
    let body_bytes = vstd::utf8::encode_utf8(body_spec(md)).len();
    if trim(fm.name).len() == 0 {
        Err(SkillFormatError::MissingName)
    } else if desc_bytes > MAX_DESCRIPTION_BYTES {
        Err(SkillFormatError::DescriptionTooLong { bytes: desc_bytes })
    } else if body_bytes > MAX_BODY_BYTES {
        Err(SkillFormatError::BodyTooLong { bytes: body_bytes as usize })
    } else {
        Ok(())
    }
}

fn body_of(md: &Vec<char>) -> (r: Vec<char>)
    ensures
        r@ == body_spec(md@),
{
    let open_lf: Vec<char> = vec!['-', '-', '-', '\n'];
    let open_crlf: Vec<char> = vec!['-', '-', '-', '\r', '\n'];
    assert(open_lf@ == seq!['-', '-', '-', '\n']);
    assert(open_crlf@ == seq!['-', '-', '-', '\r', '\n']);
    let rest = if starts_with_chars(md, &open_lf) {
        slice_chars(md, 4, md.len())
    } else if starts_with_chars(md, &open_crlf) {
        slice_chars(md, 5, md.len())
    } else {
        return md.clone();
    };
    assert(rest@ == after_opening(md@)->0);
    let close: Vec<char> = vec!['\n', '-', '-', '-'];
    assert(close@ == seq!['\n', '-', '-', '-']);
    let end = match find_chars(&rest, &close) {
        Some(e) => e,
        None => return md.clone(),
    };
    proof {
        lemma_find_bound(rest@, close@, 0);
    }
    let tail = slice_chars(&rest, end + 4, rest.len());
    assert(tail@ == rest@.skip(end + 4));
    let nl: Vec<char> = vec!['\n'];
    assert(nl@ == seq!['\n']);
    match find_chars(&tail, &nl) {
        Some(i) => {
            proof {
                lemma_find_bound(tail@, nl@, 0);
            }
            let b = slice_chars(&tail, i + 1, tail.len());
            assert(b@ == tail@.skip(i + 1));
            b
        },
        None => Vec::new(),
    }
}

/// Validates the FORMAT of an authored skill: `name` mandatory in the neutral frontmatter and the
/// size limits. Does not decide the safety of inline shell (that belongs to the action guard).
pub fn validate_format(skill_md: &str) -> (r: Result<(), SkillFormatError>)
    ensures
        r == format_verdict(skill_md@),
{
    let fm = parse_frontmatter(skill_md);
    let name = trim_chars(&chars_of(fm.name.as_str()));
    if name.len() == 0 {
        return Err(SkillFormatError::MissingName);
    }
    let description = fm.description.as_str().len();
    if description > MAX_DESCRIPTION_BYTES {
        return Err(SkillFormatError::DescriptionTooLong { bytes: description });
    }
    let body_text = string_of(&body_of(&chars_of(skill_md)));
    let body = body_text.as_str().as_bytes().len();
    if body > MAX_BODY_BYTES {
        return Err(SkillFormatError::BodyTooLong { bytes: body });
    }
    Ok(())
}

} // verus!
