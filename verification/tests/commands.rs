use artemis::commands::{
    analyze_campos, apply_campos_suggestions, apply_evitar_suggestions, apply_phrase_templates,
    edits_analysis_prompt, learning_stats, phrase_analysis_prompt, style_synthesis_prompt,
    CommandError, UpdateInfo,
};
use artemis::deepseek::{EvitarSuggestion, PhraseTemplate};
use artemis::history::entry_edited;

fn raws(v: &[&str]) -> Vec<String> {
    v.iter().map(|s| s.to_string()).collect()
}

#[test]
fn analyze_campos_needs_five_replies() {
    let r = analyze_campos(&raws(&["a", "b"]), "");
    assert_eq!(r.err(), Some(CommandError::TooFewApproved { have: 2, need: 5 }));
    assert_eq!(
        CommandError::TooFewApproved { have: 2, need: 5 }.message(),
        "Apenas 2 aprovada(s) disponível(eis). Aprove ao menos 5 devolutivas para gerar sugestões."
    );
}

#[test]
fn analyze_campos_proposes_latest_release_and_new_paths() {
    let entries = raws(&[
        "liberado na v2.54.6 — 15/05/2026\nGuardian > Notas > Emissão",
        "v2.55.0 - 23/05/2026\nver Guardian > Notas > Emissão",
        "sem nada",
        "Artemis > Apurações\nGuardian > Cadastros",
        "Artemis > Apurações; Guardian > Cadastros",
    ]);
    let campos = "- **Release atual:** `v2.54.6 — 15/05/2026`\n- `Guardian > Cadastros`\n";
    let s = analyze_campos(&entries, campos).unwrap();
    assert_eq!(s.analyzed_count, 5);
    let rel = s.release.unwrap();
    assert_eq!(rel.proposed, "v2.55.0 — 23/05/2026");
    assert_eq!(rel.current_in_file.as_deref(), Some("v2.54.6 — 15/05/2026"));
    let paths: Vec<(String, u32)> = s.paths.iter().map(|p| (p.path.clone(), p.occurrences)).collect();
    assert_eq!(
        paths,
        vec![("Artemis > Apurações".to_string(), 2), ("Guardian > Notas > Emissão".to_string(), 2)]
    );
}

#[test]
fn analyze_campos_skips_release_already_in_file() {
    let entries = raws(&["v1.0.0 — 01/01/2026", "x", "y", "z", "w"]);
    let s = analyze_campos(&entries, "- **Release atual:** `v1.0.0 — 01/01/2026`").unwrap();
    assert!(s.release.is_none());
    assert!(s.paths.is_empty());
}

#[test]
fn analyze_campos_keeps_ten_paths() {
    let mut v = Vec::new();
    for i in 0..12 {
        let p = format!("Menu{} > Item", (b'A' + i as u8) as char);
        v.push(format!("{}\n{}", p, p));
    }
    let refs: Vec<&str> = v.iter().map(|s| s.as_str()).collect();
    let s = analyze_campos(&raws(&refs), "").unwrap();
    assert_eq!(s.paths.len(), 10);
    assert_eq!(s.paths[0].path, "MenuA > Item");
    assert_eq!(s.paths[9].path, "MenuJ > Item");
}

#[test]
fn learning_stats_counts_weeks_and_categories() {
    // 2026-01-05 is a Monday of ISO week 2026-W02; 2025-12-29 is in 2026-W01.
    let w2: i64 = 1767571200;
    let w1: i64 = 1766966400;
    let meta = vec![
        (w2, true, true, Some("fiscal".to_string())),
        (w2 + 3600, true, false, Some("fiscal".to_string())),
        (w1, true, false, None),
        (w1, false, true, Some("vendas".to_string())),
        (w2, true, false, Some("vendas".to_string())),
    ];
    let s = learning_stats(&meta);
    assert_eq!(s.total, 5);
    assert_eq!(s.approved, 4);
    assert_eq!(s.discarded, 1);
    assert_eq!(s.edited_approved, 1);
    let weeks: Vec<(String, usize, usize)> = s.weeks.iter().map(|w| (w.week.clone(), w.total, w.edited)).collect();
    assert_eq!(weeks, vec![("2026-W01".to_string(), 1, 0), ("2026-W02".to_string(), 3, 1)]);
    let cats: Vec<(String, usize, usize)> = s.categories.iter().map(|c| (c.category.clone(), c.total, c.edited)).collect();
    assert_eq!(
        cats,
        vec![
            ("fiscal".to_string(), 2, 1),
            ("sem-categoria".to_string(), 1, 0),
            ("vendas".to_string(), 1, 0)
        ]
    );
}

#[test]
fn learning_stats_keeps_last_twelve_weeks() {
    let week: i64 = 7 * 24 * 3600;
    let start: i64 = 1767571200;
    let meta: Vec<(i64, bool, bool, Option<String>)> =
        (0..15).map(|i| (start + i * week, true, false, None)).collect();
    let s = learning_stats(&meta);
    assert_eq!(s.weeks.len(), 12);
    assert_eq!(s.weeks[0].week, "2026-W05");
    assert_eq!(s.weeks[11].week, "2026-W16");
    assert_eq!(s.categories.len(), 1);
    assert_eq!(s.categories[0].total, 15);
}

#[test]
fn request_gates() {
    let one = vec![("a".to_string(), "b".to_string())];
    assert_eq!(edits_analysis_prompt(&one).err(), Some(CommandError::TooFewEdited { have: 1 }));
    assert_eq!(
        CommandError::TooFewEdited { have: 1 }.message(),
        "Apenas 1 edição(ões) aprovada(s) disponível(eis). Edite e aprove mais devolutivas para gerar sugestões úteis."
    );
    let two = vec![("a".to_string(), "b".to_string()), ("c".to_string(), "d".to_string())];
    assert!(edits_analysis_prompt(&two).unwrap().contains("=== PAR 2 ==="));
    assert_eq!(
        phrase_analysis_prompt(&raws(&["a"]), "").err(),
        Some(CommandError::TooFewApproved { have: 1, need: 5 })
    );
    assert!(phrase_analysis_prompt(&raws(&["a", "b", "c", "d", "e"]), "").is_ok());
    assert_eq!(
        style_synthesis_prompt("", &two).err(),
        Some(CommandError::TooFewUnedited { have: 2, need: 5 })
    );
    assert_eq!(
        CommandError::TooFewUnedited { have: 2, need: 5 }.message(),
        "Apenas 2 aprovada(s) sem edição disponível(eis). Aprove ao menos 5 devolutivas SEM editar para sintetizar."
    );
}

#[test]
fn apply_gates() {
    assert_eq!(apply_evitar_suggestions("", &[]).err(), Some(CommandError::NoSuggestionSelected));
    assert_eq!(CommandError::NoSuggestionSelected.message(), "Nenhuma sugestão selecionada.");
    let s = vec![EvitarSuggestion { expression: "x".to_string(), reason: "y".to_string(), occurrences: 3 }];
    assert!(apply_evitar_suggestions("# E", &s).unwrap().contains("- ~~\"x\"~~ — y\n"));
    assert_eq!(apply_phrase_templates("", &[]).err(), Some(CommandError::NoTemplateSelected));
    assert_eq!(CommandError::NoTemplateSelected.message(), "Nenhuma frase-modelo selecionada.");
    let t = vec![PhraseTemplate { situation: "S".to_string(), template: "T".to_string(), occurrences: 3 }];
    assert!(apply_phrase_templates("", &t).unwrap().content.contains("**S:**\n> T\n"));
    assert_eq!(apply_campos_suggestions("", None, &vec![]).err(), Some(CommandError::NoSuggestionSelected));
    assert!(apply_campos_suggestions("", Some("v1"), &vec![]).unwrap().content.contains("`v1`"));
}

#[test]
fn update_info_from_check() {
    let u = UpdateInfo::from_check("1.0.0".to_string(), Some(("1.1.0".to_string(), Some("notas".to_string()))));
    assert!(u.available);
    assert_eq!(u.new_version.as_deref(), Some("1.1.0"));
    assert_eq!(u.release_notes.as_deref(), Some("notas"));
    let u = UpdateInfo::from_check("1.0.0".to_string(), None);
    assert!(!u.available);
    assert_eq!(u.current_version, "1.0.0");
    assert!(u.new_version.is_none());
}

#[test]
fn edited_means_text_changed() {
    assert!(!entry_edited("saida-ia", "saida-ia"));
    assert!(entry_edited("saida-ia", "saida-editada"));
}

#[test]
fn applied_release_is_not_proposed_again() {
    let entries = raws(&["v3.1.0 — 02/03/2026", "a", "b", "c", "d"]);
    let first = analyze_campos(&entries, "# campos\n").unwrap();
    let proposed = first.release.unwrap().proposed;
    let edit = apply_campos_suggestions("# campos\n", Some(&proposed), &vec![]).unwrap();
    let again = analyze_campos(&entries, &edit.content).unwrap();
    assert!(again.release.is_none());
}
