use std::collections::BTreeSet;

use lina_core::skill_index::{
    available, outcome_tally, parse_frontmatter, select, selection_id, task_kind, SkillEvent,
    SkillFrontmatter, SkillIndexEntry, SkillSignal,
};

fn tools(items: &[&str]) -> BTreeSet<String> {
    items.iter().map(|s| (*s).to_string()).collect()
}

fn entry(name: &str, triggers: &[&str], requires: &[&str]) -> SkillIndexEntry {
    SkillIndexEntry {
        name: name.to_string(),
        description: String::new(),
        triggers: triggers.iter().map(|s| (*s).to_string()).collect(),
        requires: requires.iter().map(|s| (*s).to_string()).collect(),
    }
}

#[test]
fn available_hides_skill_missing_required_tool() {
    let index = [entry("playwright-e2e", &[], &["Bash", "Playwright"])];
    let got = available(&index, &tools(&["Bash", "Edit"]));
    assert!(got.is_empty(), "falta 'Playwright' → não oferece");
}

#[test]
fn available_shows_skill_when_all_tools_present() {
    let index = [entry("playwright-e2e", &[], &["Bash", "Playwright"])];
    let got = available(&index, &tools(&["Bash", "Playwright", "Edit"]));
    assert_eq!(got.len(), 1);
    assert_eq!(got[0].name, "playwright-e2e");
}

#[test]
fn available_skill_without_requires_is_always_offered() {
    let index = [entry("lina-code-doctrine", &[], &[])];
    assert_eq!(
        available(&index, &tools(&[])).len(),
        1,
        "sem requires = sempre capaz"
    );
}

#[test]
fn select_matches_trigger_case_insensitive() {
    let index = [entry("lina-code-doctrine", &["conserta esse bug"], &[])];
    let got = select(&index, &tools(&[]), "Conserta esse BUG no login, por favor");
    assert_eq!(got.len(), 1);
    assert_eq!(got[0].name, "lina-code-doctrine");
    assert_eq!(got[0].trigger.as_deref(), Some("conserta esse bug"));
}

#[test]
fn select_respects_tool_filter_even_when_trigger_matches() {
    let index = [entry(
        "playwright-e2e",
        &["rodar os testes e2e"],
        &["Playwright"],
    )];
    let got = select(&index, &tools(&["Bash"]), "quero rodar os testes e2e agora");
    assert!(
        got.is_empty(),
        "sem 'Playwright' não seleciona mesmo com gatilho casado"
    );
}

#[test]
fn select_skips_skill_whose_trigger_is_absent() {
    let index = [entry("lina-design-doctrine", &["monta a landing"], &[])];
    let got = select(&index, &tools(&[]), "conserta esse bug no backend");
    assert!(got.is_empty(), "nenhum gatilho casa → nada selecionado");
}

#[test]
fn select_without_triggers_never_matches_by_context() {
    let index = [entry("lina-agent-bus", &[], &[])];
    let got = select(&index, &tools(&[]), "qualquer contexto");
    assert!(
        got.is_empty(),
        "sem gatilho não casa por contexto (só invocação explícita)"
    );
}

#[test]
fn select_preserves_index_order() {
    let index = [entry("a", &["foo"], &[]), entry("b", &["bar"], &[])];
    let got = select(&index, &tools(&[]), "tem foo e bar no texto");
    assert_eq!(
        got.iter().map(|s| s.name.as_str()).collect::<Vec<_>>(),
        vec!["a", "b"]
    );
}

#[test]
fn parse_frontmatter_reads_name_trigger_requires() {
    let md = "---\nname: deploy-helper\ndescription: ajuda a publicar\ntrigger: faz o deploy, publica a app\nrequires: Bash, Vercel\n---\n# corpo\n";
    let fm = parse_frontmatter(md);
    assert_eq!(fm.name, "deploy-helper");
    assert_eq!(fm.triggers, vec!["faz o deploy", "publica a app"]);
    assert_eq!(fm.requires, vec!["Bash", "Vercel"]);
}

#[test]
fn parse_frontmatter_legacy_skill_has_empty_lists() {
    let md = "---\nname: lina-agent-bus\ndescription: comunicacao entre terminais\n---\nCorpo da skill.\n";
    let fm = parse_frontmatter(md);
    assert_eq!(fm.name, "lina-agent-bus");
    assert!(fm.triggers.is_empty());
    assert!(fm.requires.is_empty());
}

#[test]
fn parse_frontmatter_without_block_is_default() {
    let fm = parse_frontmatter("sem frontmatter aqui\n");
    assert_eq!(fm, SkillFrontmatter::default());
}

#[test]
fn parse_frontmatter_reads_folded_description() {
    let md = "---\nname: lina-code-doctrine\ndescription: >-\n  Anti-slop ao escrever código.\n  Use ao implementar ou corrigir um bug.\n---\n# corpo\n";
    let fm = parse_frontmatter(md);
    assert_eq!(fm.name, "lina-code-doctrine");
    assert_eq!(
        fm.description,
        "Anti-slop ao escrever código. Use ao implementar ou corrigir um bug."
    );
}

#[test]
fn task_kind_groups_same_intent_regardless_of_order() {
    let a = task_kind("BACKEND", "validar api de leads");
    let b = task_kind("backend", "leads de api validar");
    assert_eq!(a, b, "ordem/caixa/stop-words não mudam o task_kind");
    assert!(a.starts_with("backend:"), "papel canonicalizado: {a}");
}

#[test]
fn selection_id_is_deterministic_and_disambiguates() {
    let a = selection_id("Node A", "skill", "backend:api", "rc1");
    let b = selection_id("node a", "skill", "backend:api", "rc1");
    assert_eq!(
        a, b,
        "canon(node) normaliza caixa → MESMA ligação no replay"
    );
    let c = selection_id("Node A", "skill", "backend:api", "rc2");
    assert_ne!(a, c, "root_cause_id diferente → seleção distinta");
    assert!(a.starts_with("sel-"));
}

// ── further cases ──

#[test]
fn task_kind_exact_value_keeps_three_sorted_content_terms() {
    assert_eq!(task_kind("  Back   END ", "validar api de leads"), "back end:api-leads-validar");
    assert_eq!(
        task_kind("qa", "montar a api do servidor de leads hoje"),
        "qa:api-montar-servidor"
    );
    assert_eq!(task_kind("qa", "de a o"), "qa:");
}

#[test]
fn selection_id_exact_digest() {
    assert_eq!(
        selection_id("Node   A", "skill", "backend:api", "rc1"),
        "sel-a571bbc9f2881aad"
    );
}

#[test]
fn select_returns_first_declared_matching_trigger() {
    let index = [entry("x", &["", "zzz", "Beta", "alpha"], &[])];
    let got = select(&index, &tools(&[]), "ALPHA and beta");
    assert_eq!(got.len(), 1);
    assert_eq!(got[0].trigger.as_deref(), Some("Beta"));
}

#[test]
fn parse_frontmatter_csv_trims_and_drops_empty_items() {
    let md = "---\r\nname:  x  \r\ntriggers: a, b ,, \r\nrequires_tools: T\r\nother: ignored\r\n---\r\nbody";
    let fm = parse_frontmatter(md);
    assert_eq!(fm.name, "x");
    assert_eq!(fm.triggers, vec!["a", "b"]);
    assert_eq!(fm.requires, vec!["T"]);
    assert_eq!(fm.description, "");
}

#[test]
fn parse_frontmatter_unclosed_block_is_default() {
    let fm = parse_frontmatter("---\nname: x\n");
    assert_eq!(fm, SkillFrontmatter::default());
}

#[test]
fn task_kind_ignores_the_order_of_the_dominant_terms() {
    assert_eq!(
        lina_core::skill_index::task_kind("Dev", "validar api leads"),
        lina_core::skill_index::task_kind("dev", "leads validar api")
    );
    assert_eq!(
        lina_core::skill_index::tokenize("Olá, API-Leads!"),
        vec!["olá".to_string(), "api".to_string(), "leads".to_string()]
    );
    assert_eq!(
        lina_core::skill_index::dedup(vec!["a".to_string(), "b".to_string(), "a".to_string()]),
        vec!["a".to_string(), "b".to_string()]
    );
}

fn sel_event(skill: &str, task_kind: &str, selection_id: &str) -> SkillEvent {
    SkillEvent::Selected {
        skill: skill.to_string(),
        task_kind: task_kind.to_string(),
        selection_id: selection_id.to_string(),
    }
}

fn outcome_event(selection_ref: &str, signal: SkillSignal) -> SkillEvent {
    SkillEvent::Outcome { selection_ref: selection_ref.to_string(), signal }
}

fn score_of(scores: &[((String, String), i128)], tk: &str, skill: &str) -> Option<i128> {
    scores.iter().find(|(k, _)| k.0 == tk && k.1 == skill).map(|(_, v)| *v)
}

#[test]
fn outcome_scores_replay_is_deterministic() {
    let tk = "backend:api".to_string();
    let sa = selection_id("n", "skill-a", &tk, "rc1");
    let log = [
        sel_event("skill-a", &tk, &sa),
        outcome_event(&sa, SkillSignal::Success),
        outcome_event(&sa, SkillSignal::Reworked),
    ];
    let first = outcome_tally(&log);
    assert_eq!(first, outcome_tally(&log), "replay rebuilds the same scores");
    assert_eq!(score_of(&first, &tk, "skill-a"), Some(0), "Success(+1) + Reworked(-1) = 0");
}

#[test]
fn orphan_outcome_is_ignored() {
    let log = [outcome_event("sel-inexistente", SkillSignal::Success)];
    assert!(outcome_tally(&log).is_empty());
}

#[test]
fn outcome_links_to_the_last_selection_of_its_id_wherever_it_stands() {
    let log = [
        outcome_event("s1", SkillSignal::Success),
        sel_event("alpha", "tk", "s1"),
        outcome_event("s1", SkillSignal::Failure),
        outcome_event("s1", SkillSignal::HumanOverride),
        sel_event("beta", "tk", "s2"),
        outcome_event("s2", SkillSignal::Success),
        sel_event("gamma", "tk", ""),
        outcome_event("", SkillSignal::Success),
        SkillEvent::Other,
    ];
    let scores = outcome_tally(&log);
    assert_eq!(scores.len(), 2);
    assert_eq!(score_of(&scores, "tk", "alpha"), Some(-1), "+1 -1 -1");
    assert_eq!(score_of(&scores, "tk", "beta"), Some(1));
    assert_eq!(score_of(&scores, "tk", "gamma"), None, "an empty selection id links nothing");
    let relabelled = [sel_event("alpha", "tk", "s1"), sel_event("delta", "tk2", "s1"), outcome_event("s1", SkillSignal::Success)];
    let scores = outcome_tally(&relabelled);
    assert_eq!(scores, vec![(("tk2".to_string(), "delta".to_string()), 1)], "the last selection of an id wins");
}
