//! Deterministic skill selector: the index of skills (name, description, triggers, required
//! tools), filtered by the tools present in a terminal and matched against the context by
//! trigger substring. No model is involved: the trigger is the retriever. Also the task kinds,
//! selection ids and outcome tallies (replayed from the log) that the ranking reads.

use std::collections::BTreeSet;

use sha2::{Digest, Sha256};
use vstd::prelude::*;

use crate::table::{as_map, keys_unique, kv_view, Table};
use crate::text::{
    append_chars, char_views, chars_equal, chars_of, find_chars, find_from, join, join_chars,
    lines_of, lines_spec, non_empty, slice_chars, split_on, split_pieces, starts_with,
    starts_with_chars, trim, trim_chars, occurs, occurs_in, runs, split_runs,
    string_of, to_lowercase, lower, views, all_ascii, ascii_lower,
};

verus! {

/// One entry of the skill index: what a skill announces (never its body).
#[derive(Debug, Clone, PartialEq, Eq, Default)]
pub struct SkillIndexEntry {
    /// Name of the skill (folder/slug).
    pub name: String,
    /// Trigger-oriented description of the skill.
    pub description: String,
    /// Activation triggers. Empty = no automatic trigger (explicit invocation only).
    pub triggers: Vec<String>,
    /// Tools/CLIs the skill requires. Empty = always capable.
    pub requires: Vec<String>,
}

/// The mathematical content of an index entry.
pub struct EntryView {
    pub name: Seq<char>,
    pub description: Seq<char>,
    pub triggers: Seq<Seq<char>>,
    pub requires: Seq<Seq<char>>,
}

impl View for SkillIndexEntry {
    type V = EntryView;

    open spec fn view(&self) -> EntryView {
        EntryView {
            name: self.name@,
            description: self.description@,
            triggers: views(self.triggers@),
            requires: views(self.requires@),
        }
    }
}

/// The result of a selection: the skill that matched and the trigger that matched it.
#[derive(Debug, Clone, PartialEq, Eq)]
pub struct SkillSelection {
    /// Name of the selected skill.
    pub name: String,
    /// The trigger that matched the context (always `Some` from [`select`]; `None` is left for
    /// a selection by explicit invocation made by the caller).
    pub trigger: Option<String>,
}

impl View for SkillSelection {
    type V = (Seq<char>, Option<Seq<char>>);

    open spec fn view(&self) -> (Seq<char>, Option<Seq<char>>) {
        (
            self.name@,
            match self.trigger {
                Some(t) => Some(t@),
                None => None,
            },
        )
    }
}

/// `BTreeSet::contains` on a set of strings: whether a string with the same text is present.
#[verifier::external_body]
fn tool_present(tools: &BTreeSet<String>, tool: &String) -> (r: bool)
    ensures
        r == tools.deep_view().contains(tool@),
{
    tools.contains(tool)
}

/// Every tool the entry requires is present.
pub open spec fn capable(e: EntryView, tools: Set<Seq<char>>) -> bool {
    forall|i: int| 0 <= i < e.requires.len() ==> tools.contains(#[trigger] e.requires[i])
}

/// The offerable entries, in index order.
pub open spec fn offered(entries: Seq<EntryView>, tools: Set<Seq<char>>) -> Seq<EntryView>
    decreases entries.len(),
{
    if entries.len() == 0 {
        Seq::empty()
    } else {
        let prev = offered(entries.drop_last(), tools);
        if capable(entries.last(), tools) {
            prev.push(entries.last())
        } else {
            prev
        }
    }
}

/// The views of the entries of an index.
pub open spec fn entry_views(index: Seq<SkillIndexEntry>) -> Seq<EntryView> {
    index.map_values(|e: SkillIndexEntry| e@)
}

/// The views of the entries a list of references points to.
pub open spec fn ref_views(v: Seq<&SkillIndexEntry>) -> Seq<EntryView> {
    v.map_values(|e: &SkillIndexEntry| e@)
}

fn is_capable(e: &SkillIndexEntry, tools: &BTreeSet<String>) -> (r: bool)
    ensures
        r == capable(e@, tools.deep_view()),
{
    let mut i: usize = 0;
    while i < e.requires.len()
        invariant
            i <= e.requires.len(),
            forall|k: int| 0 <= k < i ==> tools.deep_view().contains(#[trigger] e@.requires[k]),
        decreases e.requires.len() - i,
    {
        if !tool_present(tools, &e.requires[i]) {
            assert(e@.requires[i as int] == e.requires@[i as int]@);
            return false;
        }
        i = i + 1;
    }
    true
}

/// The skills that can be OFFERED: a skill appears only if every tool it requires is present
/// in the terminal. An empty `requires` is always capable. Index order is kept.
pub fn available<'a>(index: &'a [SkillIndexEntry], present_tools: &BTreeSet<String>) -> (r: Vec<
    &'a SkillIndexEntry,
>)
    ensures
        ref_views(r@) == offered(entry_views(index@), present_tools.deep_view()),
{
    let mut out: Vec<&'a SkillIndexEntry> = Vec::new();
    for i in 0..index.len()
        invariant
            ref_views(out@) == offered(entry_views(index@).take(i as int), present_tools.deep_view()),
    {
        let ghost ev = entry_views(index@);
        assert(ev.take(i + 1).drop_last() == ev.take(i as int));
        assert(ev.take(i + 1).last() == index@[i as int]@);
        let e = &index[i];
        if is_capable(e, present_tools) {
            let ghost before = out@;
            out.push(e);
            assert(ref_views(out@) == ref_views(before).push(e@));
        }
    }
    assert(entry_views(index@).take(index.len() as int) == entry_views(index@));
    out
}


/// The first declared trigger (non-empty) whose lowercase form occurs in `hay` (already
/// lowercase).
pub open spec fn first_trigger(ts: Seq<Seq<char>>, hay: Seq<char>) -> Option<Seq<char>>
    decreases ts.len(),
{
    if ts.len() == 0 {
        None
    } else if ts[0].len() > 0 && occurs_in(lower(ts[0]), hay) {
        Some(ts[0])
    } else {
        first_trigger(ts.drop_first(), hay)
    }
}

/// The 1st declared trigger of the skill that appears in `haystack_lower` (already lowercase).
/// `None` if none matches. An empty trigger never matches.
fn matched_trigger(entry: &SkillIndexEntry, haystack_lower: &Vec<char>) -> (r: Option<String>)
    ensures
        match r {
            Some(t) => first_trigger(entry@.triggers, haystack_lower@) == Some(t@),
            None => first_trigger(entry@.triggers, haystack_lower@) is None,
        },
{
    let ghost ts = entry@.triggers;
    assert(ts.subrange(0, ts.len() as int) == ts);
    let mut i: usize = 0;
    while i < entry.triggers.len()
        invariant
            i <= entry.triggers.len(),
            ts == entry@.triggers,
            first_trigger(ts, haystack_lower@) == first_trigger(
                ts.subrange(i as int, ts.len() as int),
                haystack_lower@,
            ),
        decreases entry.triggers.len() - i,
    {
        let ghost rest = ts.subrange(i as int, ts.len() as int);
        assert(rest[0] == entry.triggers@[i as int]@);
        assert(rest.drop_first() == ts.subrange(i + 1, ts.len() as int));
        let t = &entry.triggers[i];
        if !t.as_str().is_empty() {
            let low = chars_of(to_lowercase(t.as_str()).as_str());
            if occurs(&low, haystack_lower) {
                return Some(t.clone());
            }
        }
        i = i + 1;
    }
    assert(ts.subrange(i as int, ts.len() as int).len() == 0);
    None
}

/// The selections made from already-offered entries for a lowercase context.
pub open spec fn picks(entries: Seq<EntryView>, hay: Seq<char>) -> Seq<(Seq<char>, Option<Seq<char>>)>
    decreases entries.len(),
{
    if entries.len() == 0 {
        Seq::empty()
    } else {
        let prev = picks(entries.drop_last(), hay);
        match first_trigger(entries.last().triggers, hay) {
            Some(t) => prev.push((entries.last().name, Some(t))),
            None => prev,
        }
    }
}

/// The views of a list of selections.
pub open spec fn selection_views(v: Seq<SkillSelection>) -> Seq<(Seq<char>, Option<Seq<char>>)> {
    v.map_values(|s: SkillSelection| s@)
}

/// The skills SELECTED for `context`: among the offerable ones (tools present), those whose
/// trigger occurs in the context (case-insensitive substring). Deterministic; index order kept.
pub fn select(index: &[SkillIndexEntry], present_tools: &BTreeSet<String>, context: &str) -> (r:
    Vec<SkillSelection>)
    ensures
        selection_views(r@) == picks(
            offered(entry_views(index@), present_tools.deep_view()),
            lower(context@),
        ),
{
    let haystack = chars_of(to_lowercase(context).as_str());
    let offer = available(index, present_tools);
    let ghost ov = ref_views(offer@);
    let mut out: Vec<SkillSelection> = Vec::new();
    for i in 0..offer.len()
        invariant
            ov == ref_views(offer@),
            haystack@ == lower(context@),
            selection_views(out@) == picks(ov.take(i as int), haystack@),
    {
        assert(ov.take(i + 1).drop_last() == ov.take(i as int));
        assert(ov.take(i + 1).last() == offer@[i as int]@);
        let e = offer[i];
        match matched_trigger(e, &haystack) {
            Some(trigger) => {
                let ghost before = out@;
                let sel = SkillSelection { name: e.name.clone(), trigger: Some(trigger) };
                out.push(sel);
                assert(selection_views(out@) == selection_views(before).push(sel@));
            },
            None => {},
        }
    }
    assert(ov.take(offer.len() as int) == ov);
    out
}

/// Lexical tokens: maximal alphanumeric runs, lowercased.
pub open spec fn tokens(s: Seq<char>) -> Seq<Seq<char>> {
    runs(s, true).map_values(|t: Seq<char>| lower(t))
}

/// Tokenizes for the lexical index: splits on any non-alphanumeric char (Unicode, so accents
/// stay inside tokens), drops empty pieces, lowercases each token.
pub fn tokenize(text: &str) -> (r: Vec<String>)
    ensures
        views(r@) == tokens(text@),
{
    let cs = chars_of(text);
    let pieces = split_runs(&cs, true);
    let ghost pv = char_views(pieces@);
    let mut out: Vec<String> = Vec::new();
    for i in 0..pieces.len()
        invariant
            pv == char_views(pieces@),
            pv == runs(text@, true),
            views(out@) == pv.take(i as int).map_values(|t: Seq<char>| lower(t)),
    {
        let word = string_of(&pieces[i]);
        let low = to_lowercase(word.as_str());
        let ghost before = out@;
        out.push(low);
        assert(views(out@) == views(before).push(low@));
        assert(pv.take(i + 1).map_values(|t: Seq<char>| lower(t)) == pv.take(i as int).map_values(
            |t: Seq<char>| lower(t),
        ).push(lower(pv[i as int])));
    }
    assert(pv.take(pieces.len() as int) == pv);
    out
}

/// Distinct items keeping the 1st occurrence of each, in order.
pub open spec fn dedup_seq(s: Seq<Seq<char>>) -> Seq<Seq<char>>
    decreases s.len(),
{
    if s.len() == 0 {
        Seq::empty()
    } else if s.drop_last().contains(s.last()) {
        dedup_seq(s.drop_last())
    } else {
        dedup_seq(s.drop_last()).push(s.last())
    }
}

proof fn lemma_dedup_contains(s: Seq<Seq<char>>, x: Seq<char>)
    ensures
        dedup_seq(s).contains(x) <==> s.contains(x),
    decreases s.len(),
{
    if s.len() > 0 {
        lemma_dedup_contains(s.drop_last(), x);
        if s.contains(x) && x != s.last() {
            let k = choose|k: int| 0 <= k < s.len() && s[k] == x;
            assert(s.drop_last()[k] == x);
        }
        if s.drop_last().contains(x) {
            let k = choose|k: int| 0 <= k < s.drop_last().len() && s.drop_last()[k] == x;
            assert(s[k] == x);
        }
        let d = dedup_seq(s.drop_last());
        if !s.drop_last().contains(s.last()) {
            assert(d.push(s.last())[d.len() as int] == s.last());
            if d.contains(x) {
                let k = choose|k: int| 0 <= k < d.len() && d[k] == x;
                assert(d.push(s.last())[k] == x);
            }
            if d.push(s.last()).contains(x) && x != s.last() {
                let k = choose|k: int| 0 <= k < d.len() + 1 && d.push(s.last())[k] == x;
                assert(d[k] == x);
            }
        }
        assert(s[s.len() - 1] == s.last());
    }
}

fn string_in(v: &Vec<String>, x: &String) -> (r: bool)
    ensures
        r == views(v@).contains(x@),
{
    let mut i: usize = 0;
    while i < v.len()
        invariant
            i <= v.len(),
            forall|k: int| 0 <= k < i ==> views(v@)[k] != x@,
        decreases v.len() - i,
    {
        if v[i] == *x {
            assert(views(v@)[i as int] == x@);
            return true;
        }
        i = i + 1;
    }
    false
}

/// Unique terms keeping the 1st occurrence (a word typed twice does not dominate).
pub fn dedup(tokens: Vec<String>) -> (r: Vec<String>)
    ensures
        views(r@) == dedup_seq(views(tokens@)),
{
    let ghost tv = views(tokens@);
    let mut out: Vec<String> = Vec::new();
    for i in 0..tokens.len()
        invariant
            tv == views(tokens@),
            views(out@) == dedup_seq(tv.take(i as int)),
    {
        let ghost pre = tv.take(i as int);
        assert(tv.take(i + 1).drop_last() == pre);
        assert(tv.take(i + 1).last() == tokens@[i as int]@);
        proof {
            lemma_dedup_contains(pre, tokens@[i as int]@);
        }
        let t = &tokens[i];
        if !string_in(&out, t) {
            let ghost before = out@;
            out.push(t.clone());
            assert(views(out@) == views(before).push(t@));
        }
    }
    assert(tv.take(tokens.len() as int) == tv);
    out
}

/// Stable normalization: lowercase, whitespace runs collapsed to one space, ends trimmed.
pub open spec fn canon_spec(s: Seq<char>) -> Seq<char> {
    join(runs(lower(s), false), seq![' '])
}

/// Stable normalization (`lowercase` + whitespace collapsed): the same semantic situation never
/// hashes differently because of case or spacing.
fn canon(s: &str) -> (r: String)
    ensures
        r@ == canon_spec(s@),
{
    let low = chars_of(to_lowercase(s).as_str());
    let words = split_runs(&low, false);
    let sep: Vec<char> = vec![' '];
    let joined = join_chars(&words, &sep);
    assert(sep@ == seq![' ']);
    string_of(&joined)
}


/// The stop-words (pt/en function words) removed from a `task_kind`: a, o, as, os, um, uma,
/// uns, de, do, da, dos, das, e, em, no, na, nos, nas, para, por, com, que, ao, aos, se, the,
/// of, to, for, and, in, on, an.
pub open spec fn stop_word(t: Seq<char>) -> bool {
    (t.len() == 1 && ((t[0] == 'a') || (t[0] == 'o') || (t[0] == 'e')))
        ||     (t.len() == 2 && ((t[0] == 'a' && t[1] == 's') || (t[0] == 'o' && t[1] == 's') || (t[0] == 'u' && t[1] == 'm') || (t[0] == 'd' && t[1] == 'e') || (t[0] == 'd' && t[1] == 'o') || (t[0] == 'd' && t[1] == 'a') || (t[0] == 'e' && t[1] == 'm') || (t[0] == 'n' && t[1] == 'o') || (t[0] == 'n' && t[1] == 'a') || (t[0] == 'a' && t[1] == 'o') || (t[0] == 's' && t[1] == 'e') || (t[0] == 'o' && t[1] == 'f') || (t[0] == 't' && t[1] == 'o') || (t[0] == 'i' && t[1] == 'n') || (t[0] == 'o' && t[1] == 'n') || (t[0] == 'a' && t[1] == 'n')))
        ||     (t.len() == 3 && ((t[0] == 'u' && t[1] == 'm' && t[2] == 'a') || (t[0] == 'u' && t[1] == 'n' && t[2] == 's') || (t[0] == 'd' && t[1] == 'o' && t[2] == 's') || (t[0] == 'd' && t[1] == 'a' && t[2] == 's') || (t[0] == 'n' && t[1] == 'o' && t[2] == 's') || (t[0] == 'n' && t[1] == 'a' && t[2] == 's') || (t[0] == 'p' && t[1] == 'o' && t[2] == 'r') || (t[0] == 'c' && t[1] == 'o' && t[2] == 'm') || (t[0] == 'q' && t[1] == 'u' && t[2] == 'e') || (t[0] == 'a' && t[1] == 'o' && t[2] == 's') || (t[0] == 't' && t[1] == 'h' && t[2] == 'e') || (t[0] == 'f' && t[1] == 'o' && t[2] == 'r') || (t[0] == 'a' && t[1] == 'n' && t[2] == 'd')))
        ||     (t.len() == 4 && ((t[0] == 'p' && t[1] == 'a' && t[2] == 'r' && t[3] == 'a')))
}

fn is_stop_word(t: &Vec<char>) -> (r: bool)
    ensures
        r == stop_word(t@),
{
    if t.len() == 1 {
        return (t[0] == 'a') || (t[0] == 'o') || (t[0] == 'e');
    }
    if t.len() == 2 {
        return (t[0] == 'a' && t[1] == 's') || (t[0] == 'o' && t[1] == 's') || (t[0] == 'u' && t[1] == 'm') || (t[0] == 'd' && t[1] == 'e') || (t[0] == 'd' && t[1] == 'o') || (t[0] == 'd' && t[1] == 'a') || (t[0] == 'e' && t[1] == 'm') || (t[0] == 'n' && t[1] == 'o') || (t[0] == 'n' && t[1] == 'a') || (t[0] == 'a' && t[1] == 'o') || (t[0] == 's' && t[1] == 'e') || (t[0] == 'o' && t[1] == 'f') || (t[0] == 't' && t[1] == 'o') || (t[0] == 'i' && t[1] == 'n') || (t[0] == 'o' && t[1] == 'n') || (t[0] == 'a' && t[1] == 'n');
    }
    if t.len() == 3 {
        return (t[0] == 'u' && t[1] == 'm' && t[2] == 'a') || (t[0] == 'u' && t[1] == 'n' && t[2] == 's') || (t[0] == 'd' && t[1] == 'o' && t[2] == 's') || (t[0] == 'd' && t[1] == 'a' && t[2] == 's') || (t[0] == 'n' && t[1] == 'o' && t[2] == 's') || (t[0] == 'n' && t[1] == 'a' && t[2] == 's') || (t[0] == 'p' && t[1] == 'o' && t[2] == 'r') || (t[0] == 'c' && t[1] == 'o' && t[2] == 'm') || (t[0] == 'q' && t[1] == 'u' && t[2] == 'e') || (t[0] == 'a' && t[1] == 'o' && t[2] == 's') || (t[0] == 't' && t[1] == 'h' && t[2] == 'e') || (t[0] == 'f' && t[1] == 'o' && t[2] == 'r') || (t[0] == 'a' && t[1] == 'n' && t[2] == 'd');
    }
    if t.len() == 4 {
        return (t[0] == 'p' && t[1] == 'a' && t[2] == 'r' && t[3] == 'a');
    }
    false
}

/// The items that are not stop-words, in order.
pub open spec fn content_terms(s: Seq<Seq<char>>) -> Seq<Seq<char>>
    decreases s.len(),
{
    if s.len() == 0 {
        Seq::empty()
    } else if stop_word(s.last()) {
        content_terms(s.drop_last())
    } else {
        content_terms(s.drop_last()).push(s.last())
    }
}

/// Lexicographic order on char sequences (code point by code point), the order of `String`.
pub open spec fn lex_le(a: Seq<char>, b: Seq<char>) -> bool
    decreases a.len(),
{
    if a.len() == 0 {
        true
    } else if b.len() == 0 {
        false
    } else if (a[0] as u32) < (b[0] as u32) {
        true
    } else if (a[0] as u32) > (b[0] as u32) {
        false
    } else {
        lex_le(a.drop_first(), b.drop_first())
    }
}

/// `x` inserted before the first item it does not exceed.
pub open spec fn insert_sorted(x: Seq<char>, s: Seq<Seq<char>>) -> Seq<Seq<char>>
    decreases s.len(),
{
    if s.len() == 0 {
        seq![x]
    } else if lex_le(x, s[0]) {
        seq![x] + s
    } else {
        seq![s[0]] + insert_sorted(x, s.drop_first())
    }
}

/// The items in ascending lexicographic order.
pub open spec fn sort_lex(s: Seq<Seq<char>>) -> Seq<Seq<char>>
    decreases s.len(),
{
    if s.len() == 0 {
        Seq::empty()
    } else {
        insert_sorted(s.last(), sort_lex(s.drop_last()))
    }
}

fn chars_le(a: &Vec<char>, b: &Vec<char>) -> (r: bool)
    ensures
        r == lex_le(a@, b@),
{
    let mut i: usize = 0;
    assert(a@.skip(0) == a@);
    assert(b@.skip(0) == b@);
    while i < a.len()
        invariant
            i <= a.len(),
            i <= b.len(),
            lex_le(a@, b@) == lex_le(a@.skip(i as int), b@.skip(i as int)),
        decreases a.len() - i,
    {
        if i == b.len() {
            return false;
        }
        assert(a@.skip(i as int)[0] == a@[i as int]);
        assert(b@.skip(i as int)[0] == b@[i as int]);
        assert(a@.skip(i as int).drop_first() == a@.skip(i + 1));
        assert(b@.skip(i as int).drop_first() == b@.skip(i + 1));
        let x = a[i] as u32;
        let y = b[i] as u32;
        if x < y {
            return true;
        }
        if x > y {
            return false;
        }
        i = i + 1;
    }
    true
}

proof fn lemma_insert_at(x: Seq<char>, s: Seq<Seq<char>>, j: int)
    requires
        0 <= j <= s.len(),
        forall|k: int| 0 <= k < j ==> !lex_le(x, #[trigger] s[k]),
        j == s.len() || lex_le(x, s[j]),
    ensures
        insert_sorted(x, s) == s.take(j) + seq![x] + s.skip(j),
    decreases j,
{
    if j == 0 {
        assert(s.take(0) + seq![x] + s.skip(0) =~= seq![x] + s);
        if s.len() == 0 {
            assert(seq![x] + s =~= seq![x]);
        }
    } else {
        let t = s.drop_first();
        assert forall|k: int| 0 <= k < j - 1 implies !lex_le(x, #[trigger] t[k]) by {
            assert(t[k] == s[k + 1]);
        }
        if j - 1 < t.len() {
            assert(t[j - 1] == s[j]);
        }
        lemma_insert_at(x, t, j - 1);
        assert(!lex_le(x, s[0]));
        assert(seq![s[0]] + (t.take(j - 1) + seq![x] + t.skip(j - 1)) =~= s.take(j) + seq![x] + s.skip(j));
    }
}

fn insert_term(x: Vec<char>, s: Vec<Vec<char>>) -> (r: Vec<Vec<char>>)
    ensures
        char_views(r@) == insert_sorted(x@, char_views(s@)),
{
    let ghost sv = char_views(s@);
    let mut j: usize = 0;
    while j < s.len() && !chars_le(&x, &s[j])
        invariant
            sv == char_views(s@),
            j <= s.len(),
            forall|k: int| 0 <= k < j ==> !lex_le(x@, #[trigger] sv[k]),
        decreases s.len() - j,
    {
        j = j + 1;
    }
    proof {
        lemma_insert_at(x@, sv, j as int);
    }
    let mut out: Vec<Vec<char>> = Vec::new();
    let mut k: usize = 0;
    while k < j
        invariant
            sv == char_views(s@),
            j <= s.len(),
            k <= j,
            char_views(out@) == sv.take(k as int),
        decreases j - k,
    {
        let ghost before = out@;
        out.push(s[k].clone());
        assert(char_views(out@) == char_views(before).push(sv[k as int]));
        assert(sv.take(k + 1) == sv.take(k as int).push(sv[k as int]));
        k = k + 1;
    }
    let ghost before = out@;
    out.push(x);
    assert(char_views(out@) == char_views(before).push(x@));
    while k < s.len()
        invariant
            sv == char_views(s@),
            j <= k <= s.len(),
            char_views(out@) == sv.take(j as int) + seq![x@] + sv.subrange(j as int, k as int),
        decreases s.len() - k,
    {
        let ghost before = out@;
        out.push(s[k].clone());
        assert(char_views(out@) == char_views(before).push(sv[k as int]));
        assert(sv.subrange(j as int, k + 1) == sv.subrange(j as int, k as int).push(sv[k as int]));
        k = k + 1;
    }
    assert(sv.subrange(j as int, s.len() as int) == sv.skip(j as int));
    out
}

fn sort_terms(v: Vec<Vec<char>>) -> (r: Vec<Vec<char>>)
    ensures
        char_views(r@) == sort_lex(char_views(v@)),
{
    let ghost vv = char_views(v@);
    let mut out: Vec<Vec<char>> = Vec::new();
    for i in 0..v.len()
        invariant
            vv == char_views(v@),
            char_views(out@) == sort_lex(vv.take(i as int)),
    {
        assert(vv.take(i + 1).drop_last() == vv.take(i as int));
        assert(vv.take(i + 1).last() == v@[i as int]@);
        out = insert_term(v[i].clone(), out);
    }
    assert(vv.take(v.len() as int) == vv);
    out
}

/// The (at most 3) dominant content terms of a query, in order of first occurrence.
pub open spec fn dominant_terms(query: Seq<char>) -> Seq<Seq<char>> {
    let terms = content_terms(dedup_seq(tokens(query)));
    if terms.len() > 3 { terms.take(3) } else { terms }
}

/// The dominant content terms of a query, sorted.
pub open spec fn kind_terms(query: Seq<char>) -> Seq<Seq<char>> {
    sort_lex(dominant_terms(query))
}

/// The lexicographic order as a relation.
pub open spec fn lex_rel() -> spec_fn(Seq<char>, Seq<char>) -> bool {
    |a: Seq<char>, b: Seq<char>| lex_le(a, b)
}

proof fn lemma_lex_refl(a: Seq<char>)
    ensures
        lex_le(a, a),
    decreases a.len(),
{
    if a.len() > 0 {
        lemma_lex_refl(a.drop_first());
    }
}

proof fn lemma_lex_antisym(a: Seq<char>, b: Seq<char>)
    requires
        lex_le(a, b),
        lex_le(b, a),
    ensures
        a == b,
    decreases a.len(),
{
    if a.len() == 0 {
        assert(b.len() == 0);
        assert(a =~= b);
    } else {
        assert(b.len() > 0);
        let x: char = a[0];
        let y: char = b[0];
        assert((x as u32) == (y as u32));
        vstd::utf8::char_u32_cast(x, x as u32);
        vstd::utf8::char_u32_cast(y, y as u32);
        assert(x == y);
        lemma_lex_antisym(a.drop_first(), b.drop_first());
        assert(a =~= seq![a[0]] + a.drop_first());
        assert(b =~= seq![b[0]] + b.drop_first());
    }
}

proof fn lemma_lex_trans(a: Seq<char>, b: Seq<char>, c: Seq<char>)
    requires
        lex_le(a, b),
        lex_le(b, c),
    ensures
        lex_le(a, c),
    decreases a.len(),
{
    if a.len() > 0 && b.len() > 0 && c.len() > 0 {
        if (a[0] as u32) == (b[0] as u32) && (b[0] as u32) == (c[0] as u32) {
            lemma_lex_trans(a.drop_first(), b.drop_first(), c.drop_first());
        }
    }
}

proof fn lemma_lex_total(a: Seq<char>, b: Seq<char>)
    ensures
        lex_le(a, b) || lex_le(b, a),
    decreases a.len(),
{
    if a.len() > 0 && b.len() > 0 && (a[0] as u32) == (b[0] as u32) {
        lemma_lex_total(a.drop_first(), b.drop_first());
    }
}

proof fn lemma_lex_total_ordering()
    ensures
        vstd::relations::total_ordering(lex_rel()),
{
    assert forall|x: Seq<char>| #[trigger] lex_rel()(x, x) by {
        lemma_lex_refl(x);
    }
    assert forall|x: Seq<char>, y: Seq<char>| #[trigger] lex_rel()(x, y) && #[trigger] lex_rel()(y, x) implies x == y by {
        lemma_lex_antisym(x, y);
    }
    assert forall|x: Seq<char>, y: Seq<char>, z: Seq<char>| #[trigger] lex_rel()(x, y) && #[trigger] lex_rel()(y, z)
        implies lex_rel()(x, z) by {
        lemma_lex_trans(x, y, z);
    }
    assert forall|x: Seq<char>, y: Seq<char>| #[trigger] lex_rel()(x, y) || #[trigger] lex_rel()(y, x) by {
        lemma_lex_total(x, y);
    }
}

proof fn lemma_insert_sorted(x: Seq<char>, s: Seq<Seq<char>>)
    requires
        vstd::relations::sorted_by(s, lex_rel()),
    ensures
        vstd::relations::sorted_by(insert_sorted(x, s), lex_rel()),
        insert_sorted(x, s).to_multiset() == s.to_multiset().insert(x),
        forall|y: Seq<char>| #[trigger] insert_sorted(x, s).contains(y) ==> y == x || s.contains(y),
    decreases s.len(),
{
    broadcast use vstd::seq_lib::group_to_multiset_ensures;
    broadcast use vstd::multiset::group_multiset_axioms;

    lemma_lex_total_ordering();
    let r = insert_sorted(x, s);
    if s.len() == 0 {
        assert(r =~= seq![x]);
        assert(seq![x] =~= Seq::<Seq<char>>::empty().push(x));
        assert(Seq::<Seq<char>>::empty().to_multiset() =~= vstd::multiset::Multiset::empty());
        assert(s.to_multiset() =~= vstd::multiset::Multiset::empty());
    } else if lex_le(x, s[0]) {
        assert(r =~= seq![x] + s);
        vstd::seq_lib::lemma_multiset_commutative(seq![x], s);
        assert(seq![x] =~= Seq::<Seq<char>>::empty().push(x));
        assert(Seq::<Seq<char>>::empty().to_multiset() =~= vstd::multiset::Multiset::empty());
        assert(r.to_multiset() =~= s.to_multiset().insert(x));
        assert forall|i: int, j: int| 0 <= i < j < r.len() implies #[trigger] lex_rel()(r[i], r[j]) by {
            if i == 0 {
                assert(r[j] == s[j - 1]);
                if j - 1 > 0 {
                    assert(lex_rel()(s[0], s[j - 1]));
                    lemma_lex_trans(x, s[0], s[j - 1]);
                }
            } else {
                assert(r[i] == s[i - 1] && r[j] == s[j - 1]);
            }
        }
        assert forall|y: Seq<char>| #[trigger] r.contains(y) implies y == x || s.contains(y) by {
            let k = choose|k: int| 0 <= k < r.len() && r[k] == y;
            if k > 0 {
                assert(s[k - 1] == y);
            }
        }
    } else {
        let t = s.drop_first();
        assert forall|i: int, j: int| 0 <= i < j < t.len() implies #[trigger] lex_rel()(t[i], t[j]) by {
            assert(t[i] == s[i + 1] && t[j] == s[j + 1]);
        }
        lemma_insert_sorted(x, t);
        let rt = insert_sorted(x, t);
        assert(r =~= seq![s[0]] + rt);
        vstd::seq_lib::lemma_multiset_commutative(seq![s[0]], rt);
        vstd::seq_lib::lemma_multiset_commutative(seq![s[0]], t);
        assert(s =~= seq![s[0]] + t);
        assert(seq![s[0]] =~= Seq::<Seq<char>>::empty().push(s[0]));
        assert(Seq::<Seq<char>>::empty().to_multiset() =~= vstd::multiset::Multiset::empty());
        assert(r.to_multiset() =~= s.to_multiset().insert(x));
        lemma_lex_total(x, s[0]);
        assert forall|i: int, j: int| 0 <= i < j < r.len() implies #[trigger] lex_rel()(r[i], r[j]) by {
            if i == 0 {
                assert(r[j] == rt[j - 1]);
                assert(rt.contains(rt[j - 1]));
                if rt[j - 1] != x {
                    assert(t.contains(rt[j - 1]));
                    let k = choose|k: int| 0 <= k < t.len() && t[k] == rt[j - 1];
                    assert(s[k + 1] == t[k]);
                    assert(lex_rel()(s[0], s[k + 1]));
                }
            } else {
                assert(r[i] == rt[i - 1] && r[j] == rt[j - 1]);
            }
        }
        assert forall|y: Seq<char>| #[trigger] r.contains(y) implies y == x || s.contains(y) by {
            let k = choose|k: int| 0 <= k < r.len() && r[k] == y;
            if k > 0 {
                assert(rt[k - 1] == y);
                assert(rt.contains(y));
                if y != x {
                    assert(t.contains(y));
                    let m = choose|m: int| 0 <= m < t.len() && t[m] == y;
                    assert(s[m + 1] == y);
                }
            }
        }
    }
}

proof fn lemma_sort_lex(s: Seq<Seq<char>>)
    ensures
        vstd::relations::sorted_by(sort_lex(s), lex_rel()),
        sort_lex(s).to_multiset() == s.to_multiset(),
    decreases s.len(),
{
    broadcast use vstd::seq_lib::group_to_multiset_ensures;

    if s.len() > 0 {
        lemma_sort_lex(s.drop_last());
        lemma_insert_sorted(s.last(), sort_lex(s.drop_last()));
        assert(s =~= s.drop_last().push(s.last()));
    } else {
        assert(sort_lex(s) =~= s);
    }
}

/// Sorting forgets the order: two lists with the same terms (as a multiset) sort to the same list.
pub proof fn law_sort_ignores_order(a: Seq<Seq<char>>, b: Seq<Seq<char>>)
    requires
        a.to_multiset() == b.to_multiset(),
    ensures
        sort_lex(a) == sort_lex(b),
{
    lemma_sort_lex(a);
    lemma_sort_lex(b);
    lemma_lex_total_ordering();
    vstd::seq_lib::lemma_sorted_unique(sort_lex(a), sort_lex(b), lex_rel());
}

/// The same intent in another word order lands on the same `task_kind`: queries whose dominant
/// terms are the same (in any order) get the same kind, for any role.
pub proof fn law_task_kind_ignores_word_order(role: Seq<char>, q1: Seq<char>, q2: Seq<char>)
    requires
        dominant_terms(q1).to_multiset() == dominant_terms(q2).to_multiset(),
    ensures
        task_kind_spec(role, q1) == task_kind_spec(role, q2),
{
    law_sort_ignores_order(dominant_terms(q1), dominant_terms(q2));
}

/// `canon(role):t1-t2-t3` — see [`task_kind`].
pub open spec fn task_kind_spec(role: Seq<char>, query: Seq<char>) -> Seq<char> {
    canon_spec(role) + seq![':'] + join(kind_terms(query), seq!['-'])
}

/// Deterministic `task_kind`: `canon(role):t1-t2-t3`, where t1..t3 are the dominant terms of the
/// query (stop-words removed), taken by occurrence and then SORTED — the same intent in another
/// word order lands on the same `task_kind`.
pub fn task_kind(role: &str, query: &str) -> (r: String)
    ensures
        r@ == task_kind_spec(role@, query@),
{
    let toks = dedup(tokenize(query));
    let ghost tv = views(toks@);
    let mut terms: Vec<Vec<char>> = Vec::new();
    for i in 0..toks.len()
        invariant
            tv == views(toks@),
            char_views(terms@) == content_terms(tv.take(i as int)),
    {
        assert(tv.take(i + 1).drop_last() == tv.take(i as int));
        assert(tv.take(i + 1).last() == toks@[i as int]@);
        let c = chars_of(toks[i].as_str());
        if !is_stop_word(&c) {
            let ghost before = terms@;
            terms.push(c);
            assert(char_views(terms@) == char_views(before).push(c@));
        }
    }
    assert(tv.take(toks.len() as int) == tv);
    let ghost all = char_views(terms@);
    let mut top: Vec<Vec<char>> = Vec::new();
    let n = if terms.len() > 3 { 3 } else { terms.len() };
    for i in 0..n
        invariant
            all == char_views(terms@),
            n <= terms.len(),
            char_views(top@) == all.take(i as int),
    {
        let ghost before = top@;
        top.push(terms[i].clone());
        assert(char_views(top@) == char_views(before).push(all[i as int]));
        assert(all.take(i + 1) == all.take(i as int).push(all[i as int]));
    }
    if terms.len() <= 3 {
        assert(all.take(n as int) == all);
    }
    let sorted = sort_terms(top);
    let mut out = chars_of(canon(role).as_str());
    out.push(':');
    let dash: Vec<char> = vec!['-'];
    assert(dash@ == seq!['-']);
    let tail = join_chars(&sorted, &dash);
    append_chars(&mut out, &tail);
    string_of(&out)
}

/// The SHA-256 digest of a byte string.
pub uninterp spec fn sha256(data: Seq<u8>) -> Seq<u8>;

/// `sha2::Sha256::digest`: the 32-byte SHA-256 digest of `data`.
#[verifier::external_body]
fn sha256_digest(data: &[u8]) -> (r: Vec<u8>)
    ensures
        r@ == sha256(data@),
        r@.len() == 32,
{
    Sha256::digest(data).to_vec()
}

/// Lowercase hex digit of a nibble.
pub open spec fn hex_digit(n: int) -> char {
    if n < 10 {
        (48 + n) as char
    } else {
        (87 + n) as char
    }
}

/// Lowercase hex of the first 8 bytes of `d` (16 chars).
pub open spec fn hex16(d: Seq<u8>) -> Seq<char> {
    Seq::new(16, |i: int| if i % 2 == 0 { hex_digit((d[i / 2] / 16) as int) } else { hex_digit((d[i / 2] % 16) as int) })
}

fn hex_char(n: u8) -> (r: char)
    requires
        n < 16,
    ensures
        r == hex_digit(n as int),
{
    if n < 10 {
        (48 + n) as char
    } else {
        (87 + n) as char
    }
}

/// The bytes hashed for a selection id: the four parts joined by the unit separator `0x1f`.
pub open spec fn selection_message(node: Seq<char>, skill: Seq<char>, task_kind: Seq<char>, root: Seq<
    char,
>) -> Seq<u8> {
    vstd::utf8::encode_utf8(canon_spec(node)) + seq![0x1fu8] + vstd::utf8::encode_utf8(
        canon_spec(skill),
    ) + seq![0x1fu8] + vstd::utf8::encode_utf8(canon_spec(task_kind)) + seq![0x1fu8]
        + vstd::utf8::encode_utf8(root)
}

/// `sel-` followed by the first 16 hex chars of the SHA-256 of the selection message.
pub open spec fn selection_id_spec(node: Seq<char>, skill: Seq<char>, task_kind: Seq<char>, root: Seq<
    char,
>) -> Seq<char> {
    seq!['s', 'e', 'l', '-'] + hex16(sha256(selection_message(node, skill, task_kind, root)))
}

fn push_bytes(out: &mut Vec<u8>, s: &str)
    ensures
        final(out)@ == old(out)@ + vstd::utf8::encode_utf8(s@),
{
    let b = s.as_bytes();
    for i in 0..b.len()
        invariant
            b@ == vstd::utf8::encode_utf8(s@),
            out@ == old(out)@ + b@.take(i as int),
    {
        out.push(b[i]);
        assert(b@.take(i + 1) == b@.take(i as int).push(b@[i as int]));
    }
    assert(b@.take(b.len() as int) == b@);
}

/// Deterministic `selection_id`: `sel-` + sha256[..16 hex] of
/// `canon(node)|skill|task_kind|root_cause_id` (joined by `0x1f`; `root_cause_id` enters raw).
/// The same inputs always give the same id, so a replay rebuilds the same link.
pub fn selection_id(node: &str, skill: &str, task_kind: &str, root_cause_id: &str) -> (r: String)
    ensures
        r@ == selection_id_spec(node@, skill@, task_kind@, root_cause_id@),
{
    let ghost node_in = node;
    let ghost skill_in = skill;
    let ghost task_kind_in = task_kind;
    let node = canon(node);
    let skill = canon(skill);
    let task_kind = canon(task_kind);
    let mut msg: Vec<u8> = Vec::new();
    push_bytes(&mut msg, node.as_str());
    msg.push(0x1f);
    push_bytes(&mut msg, skill.as_str());
    msg.push(0x1f);
    push_bytes(&mut msg, task_kind.as_str());
    msg.push(0x1f);
    push_bytes(&mut msg, root_cause_id);
    assert(msg@ =~= selection_message(node_in@, skill_in@, task_kind_in@, root_cause_id@));
    let digest = sha256_digest(msg.as_slice());
    let mut out: Vec<char> = vec!['s', 'e', 'l', '-'];
    let ghost d = digest@;
    for k in 0..8
        invariant
            d == digest@,
            d.len() == 32,
            out@ == seq!['s', 'e', 'l', '-'] + hex16(d).take(2 * k),
    {
        let byte = digest[k];
        out.push(hex_char(byte / 16));
        out.push(hex_char(byte % 16));
        assert(hex16(d).take(2 * k + 2) == hex16(d).take(2 * k).push(hex16(d)[2 * k]).push(
            hex16(d)[2 * k + 1],
        ));
    }
    assert(hex16(d).take(16) == hex16(d));
    assert(out@ == selection_id_spec(node_in@, skill_in@, task_kind_in@, root_cause_id@));
    string_of(&out)
}


/// The neutral frontmatter of a skill: `name` is mandatory, `description`/`trigger`/`requires`
/// optional; `trigger`/`requires` take inline CSV.
#[derive(Debug, Clone, PartialEq, Eq, Default)]
pub struct SkillFrontmatter {
    pub name: String,
    pub description: String,
    pub triggers: Vec<String>,
    pub requires: Vec<String>,
}

/// The mathematical content of a frontmatter.
pub struct FrontmatterView {
    pub name: Seq<char>,
    pub description: Seq<char>,
    pub triggers: Seq<Seq<char>>,
    pub requires: Seq<Seq<char>>,
}

impl View for SkillFrontmatter {
    type V = FrontmatterView;

    open spec fn view(&self) -> FrontmatterView {
        FrontmatterView {
            name: self.name@,
            description: self.description@,
            triggers: views(self.triggers@),
            requires: views(self.requires@),
        }
    }
}

/// The empty frontmatter (the default).
pub open spec fn empty_frontmatter() -> FrontmatterView {
    FrontmatterView {
        name: Seq::empty(),
        description: Seq::empty(),
        triggers: Seq::empty(),
        requires: Seq::empty(),
    }
}

/// Inline CSV: the trimmed non-empty items between commas (`"a, b ,"` → `["a", "b"]`).
pub open spec fn csv_spec(value: Seq<char>) -> Seq<Seq<char>> {
    non_empty(split_pieces(value, ',').map_values(|p: Seq<char>| trim(p)))
}

fn csv(value: &Vec<char>) -> (r: Vec<String>)
    ensures
        views(r@) == csv_spec(value@),
{
    let pieces = split_on(value, ',');
    let ghost tv = char_views(pieces@).map_values(|p: Seq<char>| trim(p));
    let mut out: Vec<String> = Vec::new();
    for i in 0..pieces.len()
        invariant
            tv == char_views(pieces@).map_values(|p: Seq<char>| trim(p)),
            views(out@) == non_empty(tv.take(i as int)),
    {
        assert(tv.take(i + 1).drop_last() == tv.take(i as int));
        let t = trim_chars(&pieces[i]);
        assert(tv.take(i + 1).last() == t@);
        if t.len() > 0 {
            let st = string_of(&t);
            let ghost before = out@;
            out.push(st);
            assert(views(out@) == views(before).push(t@));
        }
    }
    assert(tv.take(pieces.len() as int) == tv);
    out
}

/// Folded/literal YAML scalar markers (`>`, `>-`, `>+`, `|`, `|-`, `|+`) or an absent inline
/// value, after which the value comes on the indented continuation lines.
pub open spec fn fold_marker(v: Seq<char>) -> bool {
    v.len() == 0 || v == seq!['>'] || v == seq!['>', '-'] || v == seq!['>', '+'] || v == seq!['|']
        || v == seq!['|', '-'] || v == seq!['|', '+']
}

fn is_fold_marker(v: &Vec<char>) -> (r: bool)
    ensures
        r == fold_marker(v@),
{
    if v.len() == 0 {
        return true;
    }
    if v.len() == 1 {
        assert(v@ == seq![v@[0]]);
        return v[0] == '>' || v[0] == '|';
    }
    if v.len() == 2 {
        assert(v@ == seq![v@[0], v@[1]]);
        return (v[0] == '>' || v[0] == '|') && (v[1] == '-' || v[1] == '+');
    }
    false
}

/// What follows the opening `---` line, if the document opens with one.
pub open spec fn after_opening(md: Seq<char>) -> Option<Seq<char>> {
    if starts_with(md, seq!['-', '-', '-', '\n']) {
        Some(md.skip(4))
    } else if starts_with(md, seq!['-', '-', '-', '\r', '\n']) {
        Some(md.skip(5))
    } else {
        None
    }
}

/// The text between the opening `---` (first line) and the closing `\n---`.
pub open spec fn frontmatter_block_spec(md: Seq<char>) -> Option<Seq<char>> {
    match after_opening(md) {
        Some(rest) => match find_from(rest, seq!['\n', '-', '-', '-'], 0) {
            Some(end) => Some(rest.take(end)),
            None => None,
        },
        None => None,
    }
}

/// The content between the opening `---` (1st line) and the closing `---`. `None` if there is no
/// delimited frontmatter. Tolerates `\r\n`.
fn frontmatter_block(md: &Vec<char>) -> (r: Option<Vec<char>>)
    ensures
        match r {
            Some(b) => frontmatter_block_spec(md@) == Some(b@),
            None => frontmatter_block_spec(md@) is None,
        },
{
    let open_lf: Vec<char> = vec!['-', '-', '-', '\n'];
    let open_crlf: Vec<char> = vec!['-', '-', '-', '\r', '\n'];
    assert(open_lf@ == seq!['-', '-', '-', '\n']);
    assert(open_crlf@ == seq!['-', '-', '-', '\r', '\n']);
    let rest = if starts_with_chars(md, &open_lf) {
        slice_chars(md, 4, md.len())
    } else if starts_with_chars(md, &open_crlf) {
        slice_chars(md, 5, md.len())
    } else {
        return None;
    };
    assert(rest@ == after_opening(md@)->0);
    let close: Vec<char> = vec!['\n', '-', '-', '-'];
    assert(close@ == seq!['\n', '-', '-', '-']);
    match find_chars(&rest, &close) {
        Some(end) => {
            proof {
                lemma_find_bound(rest@, close@, 0);
            }
            let b = slice_chars(&rest, 0, end);
            assert(b@ == rest@.take(end as int));
            Some(b)
        },
        None => None,
    }
}

/// A match found from `i` starts at or after `i` and fits in the text.
pub proof fn lemma_find_bound(hay: Seq<char>, needle: Seq<char>, i: int)
    ensures
        find_from(hay, needle, i) matches Some(e) ==> i <= e && e + needle.len() <= hay.len(),
    decreases hay.len() + 1 - i,
{
    if !(i < 0 || i + needle.len() > hay.len()) && hay.subrange(i, i + needle.len()) != needle {
        lemma_find_bound(hay, needle, i + 1);
    }
}

/// A continuation line (indented by a space or a tab).
pub open spec fn indented(line: Seq<char>) -> bool {
    line.len() > 0 && (line[0] == ' ' || line[0] == '\t')
}

/// Joins the indented continuation lines from `j` onward onto `acc` (each trimmed, empty ones
/// skipped, separated by one space); returns the text and the first line not consumed.
pub open spec fn fold_from(lines: Seq<Seq<char>>, j: int, acc: Seq<char>) -> (Seq<char>, int)
    decreases lines.len() - j,
{
    if 0 <= j < lines.len() && indented(lines[j]) {
        let cont = trim(lines[j]);
        let next = if cont.len() == 0 {
            acc
        } else if acc.len() == 0 {
            cont
        } else {
            acc + seq![' '] + cont
        };
        fold_from(lines, j + 1, next)
    } else {
        (acc, j)
    }
}

/// A folded value ends no earlier than where it started and no later than the last line (the
/// termination measure of the frontmatter parse).
pub proof fn lemma_fold_from_bounds(lines: Seq<Seq<char>>, j: int, acc: Seq<char>)
    requires
        0 <= j,
    ensures
        j <= fold_from(lines, j, acc).1,
        j <= lines.len() ==> fold_from(lines, j, acc).1 <= lines.len(),
    decreases lines.len() - j,
{
    if 0 <= j < lines.len() && indented(lines[j]) {
        let cont = trim(lines[j]);
        let next = if cont.len() == 0 {
            acc
        } else if acc.len() == 0 {
            cont
        } else {
            acc + seq![' '] + cont
        };
        lemma_fold_from_bounds(lines, j + 1, next);
    }
}

/// Applies one `key: value` of the frontmatter.
pub open spec fn apply_key(fm: FrontmatterView, key: Seq<char>, value: Seq<char>) -> FrontmatterView {
    if key == seq!['n', 'a', 'm', 'e'] {
        FrontmatterView { name: value, description: fm.description, triggers: fm.triggers, requires: fm.requires }
    } else if key == seq!['d', 'e', 's', 'c', 'r', 'i', 'p', 't', 'i', 'o', 'n'] {
        FrontmatterView { name: fm.name, description: value, triggers: fm.triggers, requires: fm.requires }
    } else if key == seq!['t', 'r', 'i', 'g', 'g', 'e', 'r'] || key == seq![
        't',
        'r',
        'i',
        'g',
        'g',
        'e',
        'r',
        's',
    ] {
        FrontmatterView {
            name: fm.name,
            description: fm.description,
            triggers: csv_spec(value),
            requires: fm.requires,
        }
    } else if key == seq!['r', 'e', 'q', 'u', 'i', 'r', 'e', 's'] || key == seq![
        'r',
        'e',
        'q',
        'u',
        'i',
        'r',
        'e',
        's',
        '_',
        't',
        'o',
        'o',
        'l',
        's',
    ] {
        FrontmatterView {
            name: fm.name,
            description: fm.description,
            triggers: fm.triggers,
            requires: csv_spec(value),
        }
    } else {
        fm
    }
}

/// Reads the top-level `key: value` lines from line `i` on.
pub open spec fn parse_lines(lines: Seq<Seq<char>>, i: int, fm: FrontmatterView) -> FrontmatterView
    decreases lines.len() - i,
{
    if i < 0 || i >= lines.len() {
        fm
    } else if indented(lines[i]) {
        parse_lines(lines, i + 1, fm)
    } else {
        match find_from(lines[i], seq![':'], 0) {
            None => parse_lines(lines, i + 1, fm),
            Some(c) => {
                let key = trim(lines[i].take(c));
                let value = trim(lines[i].skip(c + 1));
                if fold_marker(value) {
                    let f = fold_from(lines, i + 1, Seq::empty());
                    proof {
                        lemma_fold_from_bounds(lines, i + 1, Seq::empty());
                    }
                    parse_lines(lines, f.1, apply_key(fm, key, f.0))
                } else {
                    parse_lines(lines, i + 1, apply_key(fm, key, value))
                }
            },
        }
    }
}

/// The frontmatter a SKILL.md declares (the empty one when it has no delimited block).
pub open spec fn frontmatter_spec(md: Seq<char>) -> FrontmatterView {
    match frontmatter_block_spec(md) {
        Some(block) => parse_lines(lines_spec(block), 0, empty_frontmatter()),
        None => empty_frontmatter(),
    }
}


fn lit(v: Vec<char>) -> (r: Vec<char>)
    ensures
        r@ == v@,
{
    v
}

/// Reads the YAML-lite frontmatter between the two `---` at the top of a SKILL.md. `key: value`
/// lines; `trigger`/`requires` become lists by splitting on commas; a folded scalar
/// (`description: >-` followed by indented lines) becomes one line (newlines → spaces). A skill
/// WITHOUT frontmatter (or without the fields) gets empty triggers/requires — it enters the index
/// as "always capable, no automatic trigger".
pub fn parse_frontmatter(skill_md: &str) -> (r: SkillFrontmatter)
    ensures
        r@ == frontmatter_spec(skill_md@),
{
    let md = chars_of(skill_md);
    let block = match frontmatter_block(&md) {
        Some(b) => b,
        None => {
            let r = SkillFrontmatter {
                name: String::new(),
                description: String::new(),
                triggers: Vec::new(),
                requires: Vec::new(),
            };
            assert(views(r.triggers@) =~= Seq::empty());
            assert(views(r.requires@) =~= Seq::empty());
            assert(r@ == empty_frontmatter());
            return r;
        },
    };
    let lines = lines_of(&block);
    let ghost lv = char_views(lines@);
    let colon = lit(vec![':']);
    assert(colon@ == seq![':']);
    let k_name = lit(vec!['n', 'a', 'm', 'e']);
    let k_desc = lit(vec!['d', 'e', 's', 'c', 'r', 'i', 'p', 't', 'i', 'o', 'n']);
    let k_trig = lit(vec!['t', 'r', 'i', 'g', 'g', 'e', 'r']);
    let k_trigs = lit(vec!['t', 'r', 'i', 'g', 'g', 'e', 'r', 's']);
    let k_req = lit(vec!['r', 'e', 'q', 'u', 'i', 'r', 'e', 's']);
    let k_req_tools = lit(vec!['r', 'e', 'q', 'u', 'i', 'r', 'e', 's', '_', 't', 'o', 'o', 'l', 's']);
    assert(k_name@ == seq!['n', 'a', 'm', 'e']);
    assert(k_desc@ == seq!['d', 'e', 's', 'c', 'r', 'i', 'p', 't', 'i', 'o', 'n']);
    assert(k_trig@ == seq!['t', 'r', 'i', 'g', 'g', 'e', 'r']);
    assert(k_trigs@ == seq!['t', 'r', 'i', 'g', 'g', 'e', 'r', 's']);
    assert(k_req@ == seq!['r', 'e', 'q', 'u', 'i', 'r', 'e', 's']);
    assert(k_req_tools@ == seq!['r', 'e', 'q', 'u', 'i', 'r', 'e', 's', '_', 't', 'o', 'o', 'l', 's']);
    let mut name: Vec<char> = Vec::new();
    let mut description: Vec<char> = Vec::new();
    let mut triggers: Vec<String> = Vec::new();
    let mut required: Vec<String> = Vec::new();
    let mut i: usize = 0;
    assert(views(triggers@) =~= Seq::empty());
    assert(views(required@) =~= Seq::empty());
    while i < lines.len()
        invariant
            lv == char_views(lines@),
            lv == lines_spec(block@),
            colon@ == seq![':'],
            k_name@ == seq!['n', 'a', 'm', 'e'],
            k_desc@ == seq!['d', 'e', 's', 'c', 'r', 'i', 'p', 't', 'i', 'o', 'n'],
            k_trig@ == seq!['t', 'r', 'i', 'g', 'g', 'e', 'r'],
            k_trigs@ == seq!['t', 'r', 'i', 'g', 'g', 'e', 'r', 's'],
            k_req@ == seq!['r', 'e', 'q', 'u', 'i', 'r', 'e', 's'],
            k_req_tools@ == seq!['r', 'e', 'q', 'u', 'i', 'r', 'e', 's', '_', 't', 'o', 'o', 'l', 's'],
            i <= lines.len(),
            parse_lines(lv, 0, empty_frontmatter()) == parse_lines(
                lv,
                i as int,
                FrontmatterView {
                    name: name@,
                    description: description@,
                    triggers: views(triggers@),
                    requires: views(required@),
                },
            ),
        decreases lines.len() - i,
    {
        let ghost cur = FrontmatterView {
            name: name@,
            description: description@,
            triggers: views(triggers@),
            requires: views(required@),
        };
        let line = &lines[i];
        assert(lv[i as int] == line@);
        let is_indented = line.len() > 0 && (line[0] == ' ' || line[0] == '\t');
        i = i + 1;
        if !is_indented {
            match find_chars(line, &colon) {
                None => {},
                Some(c) => {
                    proof {
                        lemma_find_bound(line@, colon@, 0);
                    }
                    let key = trim_chars(&slice_chars(line, 0, c));
                    let value = trim_chars(&slice_chars(line, c + 1, line.len()));
                    assert(line@.subrange(0, c as int) == line@.take(c as int));
                    assert(line@.subrange(c + 1, line@.len() as int) == line@.skip(c + 1));
                    let resolved = if is_fold_marker(&value) {
                        let ghost start = i as int;
                        let mut folded: Vec<char> = Vec::new();
                        while i < lines.len() && lines[i].len() > 0 && (lines[i][0] == ' '
                            || lines[i][0] == '\t')
                            invariant
                                lv == char_views(lines@),
                                start <= i <= lines.len(),
                                fold_from(lv, start, Seq::empty()) == fold_from(
                                    lv,
                                    i as int,
                                    folded@,
                                ),
                            decreases lines.len() - i,
                        {
                            assert(lv[i as int] == lines@[i as int]@);
                            assert(indented(lv[i as int]));
                            let ghost acc = folded@;
                            let cont = trim_chars(&lines[i]);
                            i = i + 1;
                            if cont.len() == 0 {
                            } else if folded.len() == 0 {
                                folded = cont;
                            } else {
                                folded.push(' ');
                                append_chars(&mut folded, &cont);
                                assert(folded@ =~= acc + seq![' '] + cont@);
                            }
                        }
                        proof {
                            if i < lines.len() {
                                assert(lv[i as int] == lines@[i as int]@);
                            }
                        }
                        folded
                    } else {
                        value
                    };
                    if chars_equal(&key, &k_name) {
                        name = resolved;
                    } else if chars_equal(&key, &k_desc) {
                        description = resolved;
                    } else if chars_equal(&key, &k_trig) || chars_equal(&key, &k_trigs) {
                        triggers = csv(&resolved);
                    } else if chars_equal(&key, &k_req) || chars_equal(&key, &k_req_tools) {
                        required = csv(&resolved);
                    }
                },
            }
        }
    }
    let r = SkillFrontmatter {
        name: string_of(&name),
        description: string_of(&description),
        triggers,
        requires: required,
    };
    r
}

// ---------------------------------------------------------------------------------------------
// Outcome scores, replayed from the log.

/// The signal of a skill's outcome.
#[derive(Debug, Clone, Copy, PartialEq, Eq, Structural)]
pub enum SkillSignal {
    Success,
    Failure,
    Reworked,
    HumanOverride,
}

/// The skill events of the log that the outcome score reads.
#[derive(Debug, Clone)]
pub enum SkillEvent {
    /// A skill was selected for a task kind, under a selection id.
    Selected { skill: String, task_kind: String, selection_id: String },
    /// The outcome of the selection `selection_ref`.
    Outcome { selection_ref: String, signal: SkillSignal },
    /// Any other event.
    Other,
}

/// The weight of a signal: `+1` for a success, `−1` for a failure, a rework or a human override.
pub open spec fn signal_weight(s: SkillSignal) -> int {
    match s {
        SkillSignal::Success => 1,
        _ => -1,
    }
}

/// The `(task_kind, skill)` of the LAST selection logged under the (non-empty) id `id`.
pub open spec fn selection_of(evs: Seq<SkillEvent>, id: Seq<char>) -> Option<(Seq<char>, Seq<char>)>
    decreases evs.len(),
{
    if evs.len() == 0 {
        None
    } else {
        match evs.last() {
            SkillEvent::Selected { skill, task_kind, selection_id } => if selection_id@ == id && id.len() > 0 {
                Some((task_kind@, skill@))
            } else {
                selection_of(evs.drop_last(), id)
            },
            _ => selection_of(evs.drop_last(), id),
        }
    }
}

/// The weight `e` adds to `key`: an outcome whose selection (anywhere in `all`) is `key`.
pub open spec fn weight_for(all: Seq<SkillEvent>, e: SkillEvent, key: (Seq<char>, Seq<char>)) -> Option<int> {
    match e {
        SkillEvent::Outcome { selection_ref, signal } => if selection_of(all, selection_ref@) == Some(key) {
            Some(signal_weight(signal))
        } else {
            None
        },
        _ => None,
    }
}

/// The sum of the weights the events `evs` add to `key`.
pub open spec fn tally(all: Seq<SkillEvent>, evs: Seq<SkillEvent>, key: (Seq<char>, Seq<char>)) -> int
    decreases evs.len(),
{
    if evs.len() == 0 {
        0
    } else {
        tally(all, evs.drop_last(), key) + match weight_for(all, evs.last(), key) {
            Some(w) => w,
            None => 0,
        }
    }
}

/// Some event of `evs` adds weight to `key`.
pub open spec fn scored(all: Seq<SkillEvent>, evs: Seq<SkillEvent>, key: (Seq<char>, Seq<char>)) -> bool
    decreases evs.len(),
{
    if evs.len() == 0 {
        false
    } else {
        scored(all, evs.drop_last(), key) || weight_for(all, evs.last(), key) is Some
    }
}

proof fn lemma_unscored_zero(all: Seq<SkillEvent>, evs: Seq<SkillEvent>, key: (Seq<char>, Seq<char>))
    requires
        !scored(all, evs, key),
    ensures
        tally(all, evs, key) == 0,
    decreases evs.len(),
{
    if evs.len() > 0 {
        lemma_unscored_zero(all, evs.drop_last(), key);
    }
}

proof fn lemma_tally_bound(all: Seq<SkillEvent>, evs: Seq<SkillEvent>, key: (Seq<char>, Seq<char>))
    ensures
        -evs.len() <= tally(all, evs, key) <= evs.len(),
    decreases evs.len(),
{
    if evs.len() > 0 {
        lemma_tally_bound(all, evs.drop_last(), key);
    }
}

/// The selections of the log: selection id → `(task_kind, skill)` of its last selection.
fn selections(events: &[SkillEvent]) -> (r: Table<String, (String, String)>)
    ensures
        r.wf(),
        forall|id: Seq<char>| #[trigger] r.map().dom().contains(id) == (selection_of(events@, id) is Some),
        forall|id: Seq<char>| #[trigger] r.map().dom().contains(id) ==> (r.map()[id].0@, r.map()[id].1@)
            == selection_of(events@, id)->0,
{
    let mut by_sel: Table<String, (String, String)> = Table::new();
    let mut i: usize = 0;
    while i < events.len()
        invariant
            i <= events@.len(),
            by_sel.wf(),
            forall|id: Seq<char>| #[trigger] by_sel.map().dom().contains(id) == (selection_of(
                events@.take(i as int),
                id,
            ) is Some),
            forall|id: Seq<char>| #[trigger] by_sel.map().dom().contains(id) ==> (
            by_sel.map()[id].0@,
            by_sel.map()[id].1@,
            ) == selection_of(events@.take(i as int), id)->0,
        decreases events.len() - i,
    {
        assert(events@.take(i + 1).drop_last() =~= events@.take(i as int));
        match &events[i] {
            SkillEvent::Selected { skill, task_kind, selection_id } => {
                if chars_of(selection_id.as_str()).len() > 0 {
                    by_sel.insert(selection_id.clone(), (task_kind.clone(), skill.clone()));
                }
            },
            _ => {},
        }
        i = i + 1;
    }
    assert(events@.take(events@.len() as int) =~= events@);
    by_sel
}

/// The outcome score of each `(task_kind, skill)`, replayed from the log: every outcome adds the
/// weight of its signal to the `(task_kind, skill)` of the selection it references (the last
/// selection logged under that id, wherever it stands in the log); an outcome whose reference
/// matches no selection is ignored. Pure over the events: the same log gives the same scores.
/// Each key comes once, in no particular order.
pub fn outcome_tally(events: &[SkillEvent]) -> (r: Vec<((String, String), i128)>)
    ensures
        keys_unique(kv_view(r@)),
        forall|key: (Seq<char>, Seq<char>)| #[trigger] as_map(kv_view(r@)).dom().contains(key) == scored(
            events@,
            events@,
            key,
        ),
        forall|key: (Seq<char>, Seq<char>)| #[trigger] as_map(kv_view(r@)).dom().contains(key) ==> as_map(
            kv_view(r@),
        )[key] == tally(events@, events@, key),
{
    let by_sel = selections(events);
    let mut scores: Table<(String, String), i128> = Table::new();
    let mut i: usize = 0;
    while i < events.len()
        invariant
            i <= events@.len(),
            by_sel.wf(),
            forall|id: Seq<char>| #[trigger] by_sel.map().dom().contains(id) == (selection_of(events@, id) is Some),
            forall|id: Seq<char>| #[trigger] by_sel.map().dom().contains(id) ==> (by_sel.map()[id].0@, by_sel.map()[id].1@)
                == selection_of(events@, id)->0,
            scores.wf(),
            forall|key: (Seq<char>, Seq<char>)| #[trigger] scores.map().dom().contains(key) == scored(
                events@,
                events@.take(i as int),
                key,
            ),
            forall|key: (Seq<char>, Seq<char>)| #[trigger] scores.map().dom().contains(key) ==> scores.map()[key]
                == tally(events@, events@.take(i as int), key),
        decreases events.len() - i,
    {
        let ghost pre = events@.take(i as int);
        assert(events@.take(i + 1).drop_last() =~= pre);
        assert(events@.take(i + 1).last() == events@[i as int]);
        match &events[i] {
            SkillEvent::Outcome { selection_ref, signal } => {
                match by_sel.get(selection_ref) {
                    Some(sel) => {
                        let key = (sel.0.clone(), sel.1.clone());
                        let ghost kv = (key.0@, key.1@);
                        let w: i128 = match signal {
                            SkillSignal::Success => 1,
                            _ => -1,
                        };
                        let cur: i128 = match scores.get(&key) {
                            Some(v) => *v,
                            None => 0,
                        };
                        proof {
                            lemma_tally_bound(events@, pre, kv);
                            if !scores.map().dom().contains(kv) {
                                lemma_unscored_zero(events@, pre, kv);
                            }
                        }
                        scores.insert(key, cur + w);
                        proof {
                            let nxt = events@.take(i + 1);
                            assert(weight_for(events@, nxt.last(), kv) == Some(w as int));
                            assert forall|k2: (Seq<char>, Seq<char>)| #[trigger] scores.map().dom().contains(k2) implies scores.map()[k2]
                                == tally(events@, nxt, k2) by {
                                if k2 != kv {
                                    assert(weight_for(events@, nxt.last(), k2) is None);
                                }
                            }
                        }
                    },
                    None => {},
                }
            },
            _ => {},
        }
        i = i + 1;
    }
    assert(events@.take(events@.len() as int) =~= events@);
    scores.into_entries()
}

proof fn lemma_same_selections(a1: Seq<SkillEvent>, a2: Seq<SkillEvent>, evs: Seq<SkillEvent>, key: (Seq<char>, Seq<char>))
    requires
        forall|id: Seq<char>| #[trigger] selection_of(a1, id) == selection_of(a2, id),
    ensures
        tally(a1, evs, key) == tally(a2, evs, key),
        scored(a1, evs, key) == scored(a2, evs, key),
    decreases evs.len(),
{
    if evs.len() > 0 {
        lemma_same_selections(a1, a2, evs.drop_last(), key);
        match evs.last() {
            SkillEvent::Outcome { selection_ref, .. } => {
                assert(selection_of(a1, selection_ref@) == selection_of(a2, selection_ref@));
            },
            _ => {},
        }
    }
}

/// An outcome is strictly linked: one whose reference matches no selection of the log (an
/// orphan) changes no score and adds no key.
pub proof fn law_orphan_outcome_changes_nothing(evs: Seq<SkillEvent>, selection_ref: String, signal: SkillSignal, key: (Seq<char>, Seq<char>))
    requires
        selection_of(evs, selection_ref@) is None,
    ensures
        ({
            let after = evs.push(SkillEvent::Outcome { selection_ref, signal });
            tally(after, after, key) == tally(evs, evs, key) && scored(after, after, key) == scored(evs, evs, key)
        }),
{
    let o = SkillEvent::Outcome { selection_ref, signal };
    let after = evs.push(o);
    assert(after.drop_last() =~= evs);
    assert forall|id: Seq<char>| #[trigger] selection_of(after, id) == selection_of(evs, id) by {}
    lemma_same_selections(after, evs, evs, key);
    assert(weight_for(after, o, key) is None);
}

/// The canonical form ignores letter case on ASCII text: two ASCII texts equal up to the case of
/// their letters canonicalize alike.
pub proof fn law_ascii_case_is_canonical(a: Seq<char>, b: Seq<char>)
    requires
        all_ascii(a),
        all_ascii(b),
        ascii_lower(a) == ascii_lower(b),
    ensures
        canon_spec(a) == canon_spec(b),
{
}

/// The selection id ignores case and spacing: a node, skill and task kind with the same canonical
/// forms (letter case, see [`law_ascii_case_is_canonical`], and runs of whitespace) get the same
/// id under the same root cause.
pub proof fn law_selection_id_ignores_case_and_spacing(
    n1: Seq<char>,
    n2: Seq<char>,
    s1: Seq<char>,
    s2: Seq<char>,
    k1: Seq<char>,
    k2: Seq<char>,
    root: Seq<char>,
)
    requires
        canon_spec(n1) == canon_spec(n2),
        canon_spec(s1) == canon_spec(s2),
        canon_spec(k1) == canon_spec(k2),
    ensures
        selection_id_spec(n1, s1, k1, root) == selection_id_spec(n2, s2, k2, root),
        selection_id_spec(n1, s1, k1, root).len() == 20,
        forall|i: int| 4 <= i < 20 ==> {
            let c = #[trigger] selection_id_spec(n1, s1, k1, root)[i];
            ('0' <= c && c <= '9') || ('a' <= c && c <= 'f')
        },
{
    let d = sha256(selection_message(n1, s1, k1, root));
    assert forall|i: int| 4 <= i < 20 implies {
        let c = #[trigger] selection_id_spec(n1, s1, k1, root)[i];
        ('0' <= c && c <= '9') || ('a' <= c && c <= 'f')
    } by {
        assert(selection_id_spec(n1, s1, k1, root)[i] == hex16(d)[i - 4]);
    }
}

/// Different root causes give different selections: the messages hashed for two selections that
/// differ in their root cause differ (that their ids then differ rests on SHA-256, which is only
/// named here).
pub proof fn law_selection_message_tracks_root(node: Seq<char>, skill: Seq<char>, task_kind: Seq<char>, r1: Seq<char>, r2: Seq<char>)
    requires
        r1 != r2,
    ensures
        selection_message(node, skill, task_kind, r1) != selection_message(node, skill, task_kind, r2),
{
    let p = vstd::utf8::encode_utf8(canon_spec(node)) + seq![0x1fu8] + vstd::utf8::encode_utf8(canon_spec(skill))
        + seq![0x1fu8] + vstd::utf8::encode_utf8(canon_spec(task_kind)) + seq![0x1fu8];
    let m1 = selection_message(node, skill, task_kind, r1);
    let m2 = selection_message(node, skill, task_kind, r2);
    assert(m1 =~= p + vstd::utf8::encode_utf8(r1));
    assert(m2 =~= p + vstd::utf8::encode_utf8(r2));
    if m1 == m2 {
        assert(m1.skip(p.len() as int) =~= vstd::utf8::encode_utf8(r1));
        assert(m2.skip(p.len() as int) =~= vstd::utf8::encode_utf8(r2));
        vstd::utf8::encode_utf8_decode_utf8(r1);
        vstd::utf8::encode_utf8_decode_utf8(r2);
    }
}

/// The selection id ignores the letter case of ASCII text: a node, skill and task kind written in
/// another case (`"Node A"` for `"node a"`) get the same id under the same root cause.
pub proof fn law_selection_id_ignores_ascii_case(
    n1: Seq<char>,
    n2: Seq<char>,
    s1: Seq<char>,
    s2: Seq<char>,
    k1: Seq<char>,
    k2: Seq<char>,
    root: Seq<char>,
)
    requires
        all_ascii(n1) && all_ascii(n2) && ascii_lower(n1) == ascii_lower(n2),
        all_ascii(s1) && all_ascii(s2) && ascii_lower(s1) == ascii_lower(s2),
        all_ascii(k1) && all_ascii(k2) && ascii_lower(k1) == ascii_lower(k2),
    ensures
        selection_id_spec(n1, s1, k1, root) == selection_id_spec(n2, s2, k2, root),
{
    law_ascii_case_is_canonical(n1, n2);
    law_ascii_case_is_canonical(s1, s2);
    law_ascii_case_is_canonical(k1, k2);
    law_selection_id_ignores_case_and_spacing(n1, n2, s1, s2, k1, k2, root);
}

proof fn lemma_dedup_distinct(s: Seq<Seq<char>>)
    ensures
        dedup_seq(s).no_duplicates(),
    decreases s.len(),
{
    if s.len() > 0 {
        lemma_dedup_distinct(s.drop_last());
        let d = dedup_seq(s.drop_last());
        if !s.drop_last().contains(s.last()) {
            lemma_dedup_contains(s.drop_last(), s.last());
            let e = d.push(s.last());
            assert forall|i: int, j: int| 0 <= i < e.len() && 0 <= j < e.len() && i != j implies e[i] != e[j] by {
                if i < d.len() && j < d.len() {
                    assert(e[i] == d[i] && e[j] == d[j]);
                } else if i < d.len() {
                    assert(e[i] == d[i]);
                    assert(d.contains(d[i]));
                } else {
                    assert(e[j] == d[j]);
                    assert(d.contains(d[j]));
                }
            }
        }
    }
}

proof fn lemma_content_terms_sub(s: Seq<Seq<char>>)
    ensures
        forall|x: Seq<char>| content_terms(s).contains(x) ==> s.contains(x),
        s.no_duplicates() ==> content_terms(s).no_duplicates(),
    decreases s.len(),
{
    if s.len() > 0 {
        let t = s.drop_last();
        lemma_content_terms_sub(t);
        let c = content_terms(t);
        assert forall|x: Seq<char>| content_terms(s).contains(x) implies s.contains(x) by {
            if c.contains(x) {
                assert(t.contains(x));
                let k = choose|k: int| 0 <= k < t.len() && t[k] == x;
                assert(s[k] == x);
            } else {
                assert(!stop_word(s.last()));
                let e = c.push(s.last());
                assert(content_terms(s) == e);
                let k = choose|k: int| 0 <= k < e.len() && e[k] == x;
                if k < c.len() {
                    assert(e[k] == c[k]);
                    assert(c.contains(x));
                }
                assert(s[s.len() - 1] == x);
            }
        }
        if s.no_duplicates() {
            assert(t.no_duplicates()) by {
                assert forall|i: int, j: int| 0 <= i < t.len() && 0 <= j < t.len() && i != j implies t[i] != t[j] by {
                    assert(t[i] == s[i] && t[j] == s[j]);
                }
            }
            if !stop_word(s.last()) {
                let e = c.push(s.last());
                assert(!t.contains(s.last())) by {
                    if t.contains(s.last()) {
                        let k = choose|k: int| 0 <= k < t.len() && t[k] == s.last();
                        assert(s[k] == s[s.len() - 1]);
                    }
                }
                assert forall|i: int, j: int| 0 <= i < e.len() && 0 <= j < e.len() && i != j implies e[i] != e[j] by {
                    if i < c.len() && j < c.len() {
                        assert(e[i] == c[i] && e[j] == c[j]);
                    } else if i < c.len() {
                        assert(e[i] == c[i]);
                        assert(c.contains(c[i]));
                    } else {
                        assert(e[j] == c[j]);
                        assert(c.contains(c[j]));
                    }
                }
            }
        }
    }
}

/// The dominant terms of a query are distinct: a word typed twice does not dominate, nor take a
/// second slot of the three.
pub proof fn law_dominant_terms_are_distinct(query: Seq<char>)
    ensures
        dominant_terms(query).no_duplicates(),
        dominant_terms(query).len() <= 3,
{
    let d = dedup_seq(tokens(query));
    lemma_dedup_distinct(tokens(query));
    lemma_content_terms_sub(d);
    let c = content_terms(d);
    if c.len() > 3 {
        let k = c.take(3);
        assert forall|i: int, j: int| 0 <= i < k.len() && 0 <= j < k.len() && i != j implies k[i] != k[j] by {
            assert(k[i] == c[i] && k[j] == c[j]);
        }
    }
}

/// The dominant terms of a query are content words of it: each is a token of the query, and
/// none is a stop word.
pub proof fn law_dominant_terms_are_content_words(query: Seq<char>)
    ensures
        forall|i: int| 0 <= i < dominant_terms(query).len() ==> tokens(query).contains(#[trigger] dominant_terms(query)[i])
            && !stop_word(dominant_terms(query)[i]),
{
    let d = dedup_seq(tokens(query));
    lemma_content_terms_sub(d);
    lemma_content_terms_clean(d);
    let c = content_terms(d);
    assert forall|i: int| 0 <= i < dominant_terms(query).len() implies tokens(query).contains(#[trigger] dominant_terms(query)[i])
        && !stop_word(dominant_terms(query)[i]) by {
        let x = dominant_terms(query)[i];
        assert(x == c[i]);
        assert(c.contains(x));
        assert(d.contains(x));
        lemma_dedup_contains(tokens(query), x);
    }
}

proof fn lemma_content_terms_clean(s: Seq<Seq<char>>)
    ensures
        forall|i: int| 0 <= i < content_terms(s).len() ==> !stop_word(#[trigger] content_terms(s)[i]),
    decreases s.len(),
{
    if s.len() > 0 {
        lemma_content_terms_clean(s.drop_last());
        let c = content_terms(s.drop_last());
        if !stop_word(s.last()) {
            assert forall|i: int| 0 <= i < content_terms(s).len() implies !stop_word(#[trigger] content_terms(s)[i]) by {
                if i < c.len() {
                    assert(content_terms(s)[i] == c[i]);
                }
            }
        }
    }
}

} // verus!
