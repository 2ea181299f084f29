use artemis::stats::{extract_paths, extract_release, normalize_path, pick_latest_release, rank_paths};

#[test]
fn extract_release_em_dash() {
    let (canon, semver, date) = extract_release("liberado na v2.54.6 — 15/05/2026 ok").unwrap();
    assert_eq!(canon, "v2.54.6 — 15/05/2026");
    assert_eq!(semver, (2, 54, 6));
    assert_eq!(date, (15, 5, 2026));
}

#[test]
fn extract_release_hifen() {
    let (canon, _, _) = extract_release("Release/versão: v3.0.1 - 01/01/2027").unwrap();
    assert_eq!(canon, "v3.0.1 — 01/01/2027");
}

#[test]
fn extract_release_uppercase_v() {
    let (canon, _, _) = extract_release("V10.5.99 — 31/12/2099").unwrap();
    assert_eq!(canon, "v10.5.99 — 31/12/2099");
}

#[test]
fn extract_release_picks_first() {
    let (canon, _, _) = extract_release("v1.0.0 — 01/01/2026 e depois v2.0.0 — 01/02/2026").unwrap();
    assert_eq!(canon, "v1.0.0 — 01/01/2026");
}

#[test]
fn extract_release_none() {
    assert!(extract_release("não tem versão aqui").is_none());
    assert!(extract_release("v2.54 — 15/05/2026").is_none());
    assert!(extract_release("v2.54.6 sem data").is_none());
    assert!(extract_release("v2.54.6 — 32/05/2026").is_none());
    assert!(extract_release("v2.54.6 — 15/13/2026").is_none());
}

#[test]
fn extract_paths_simple() {
    let paths = extract_paths("o caminho é Guardian > Notas Fiscais > Emissão.");
    assert_eq!(paths, vec!["Guardian > Notas Fiscais > Emissão"]);
}

#[test]
fn extract_paths_multiple_lines() {
    let text = "Caminho 1: Guardian > Cadastros > Compra/Venda\n\
                Caminho 2: Artemis > Apurações > ICMS > Devolução";
    let paths = extract_paths(text);
    assert!(paths.iter().any(|p| p == "Guardian > Cadastros > Compra/Venda"));
    assert!(paths.iter().any(|p| p == "Artemis > Apurações > ICMS > Devolução"));
}

#[test]
fn extract_paths_strips_prose_prefix() {
    let paths = extract_paths("verifique o caminho é Guardian > Notas > Emissão hoje");
    assert!(paths.iter().any(|p| p == "Guardian > Notas > Emissão"));
    assert!(paths.iter().all(|p| !p.starts_with("verifique")));
    assert!(paths.iter().all(|p| !p.starts_with("o caminho")));
}

#[test]
fn extract_paths_handles_backticks_and_quotes() {
    let paths = extract_paths("o caminho é `Guardian > Notas > Emissão` e fim");
    assert!(paths.iter().any(|p| p == "Guardian > Notas > Emissão"));
}

#[test]
fn extract_paths_skips_lowercase_only_chunks() {
    let paths = extract_paths("foo > bar > baz");
    assert!(paths.is_empty());
}

#[test]
fn extract_paths_two_segments_minimum() {
    let paths = extract_paths("apenas Guardian sozinho");
    assert!(paths.is_empty());
}

#[test]
fn extract_paths_handles_extra_whitespace() {
    let paths = extract_paths("A   >   B   >  C extra");
    assert!(paths.iter().any(|p| p == "A > B > C"));
}

#[test]
fn rank_paths_filters_below_threshold() {
    let paths = vec![
        "A > B".to_string(),
        "A > B".to_string(),
        "A > B".to_string(),
        "C > D".to_string(),
    ];
    let ranked = rank_paths(&paths, 2);
    assert_eq!(ranked.len(), 1);
    assert_eq!(ranked[0].path, "A > B");
    assert_eq!(ranked[0].occurrences, 3);
}

#[test]
fn rank_paths_orders_by_count_desc_then_alpha() {
    let paths = vec![
        "X > Y".to_string(),
        "X > Y".to_string(),
        "A > B".to_string(),
        "A > B".to_string(),
        "Z > W".to_string(),
        "Z > W".to_string(),
    ];
    let ranked = rank_paths(&paths, 2);
    assert_eq!(ranked[0].path, "A > B");
    assert_eq!(ranked[1].path, "X > Y");
    assert_eq!(ranked[2].path, "Z > W");
}

#[test]
fn rank_paths_normalizes_whitespace_for_dedup() {
    let paths = vec![
        "A > B > C".to_string(),
        "A  >  B  >  C".to_string(),
        "  A > B > C  ".to_string(),
    ];
    let ranked = rank_paths(&paths, 1);
    assert_eq!(ranked.len(), 1);
    assert_eq!(ranked[0].occurrences, 3);
}

#[test]
fn pick_latest_release_semver_order() {
    let releases = vec![
        ("v2.54.6 — 15/05/2026".to_string(), (2, 54, 6), (15, 5, 2026)),
        ("v2.55.0 — 23/05/2026".to_string(), (2, 55, 0), (23, 5, 2026)),
        ("v2.54.10 — 20/05/2026".to_string(), (2, 54, 10), (20, 5, 2026)),
    ];
    assert_eq!(pick_latest_release(&releases).unwrap(), "v2.55.0 — 23/05/2026");
}

#[test]
fn pick_latest_release_empty_returns_none() {
    assert!(pick_latest_release(&[]).is_none());
}

#[test]
fn pick_latest_release_keeps_last_of_equal_versions() {
    let releases = vec![
        ("v1.0.0 — 01/01/2026".to_string(), (1, 0, 0), (1, 1, 2026)),
        ("v1.0.0 — 02/01/2026".to_string(), (1, 0, 0), (2, 1, 2026)),
    ];
    assert_eq!(pick_latest_release(&releases).unwrap(), "v1.0.0 — 02/01/2026");
}

#[test]
fn normalize_path_trims_and_collapses_segments() {
    assert_eq!(normalize_path("  A >B>   C  "), "A > B > C");
    assert_eq!(normalize_path("A > > B"), "A > B");
    assert_eq!(normalize_path("   "), "");
}

#[test]
fn normalize_path_is_idempotent_on_examples() {
    for s in ["A   >   B", " Guardian > Notas Fiscais >Emissão ", "x"] {
        let once = normalize_path(s);
        assert_eq!(normalize_path(&once), once);
    }
}

#[test]
fn extract_release_accepts_date_with_spaces_around_dash() {
    let (canon, semver, date) = extract_release("v0.1.2—  09/10/2030").unwrap();
    assert_eq!(canon, "v0.1.2 — 09/10/2030");
    assert_eq!(semver, (0, 1, 2));
    assert_eq!(date, (9, 10, 2030));
}

#[test]
fn rank_paths_ties_with_same_lowercase_keep_both() {
    let paths = vec!["A > b".to_string(), "a > B".to_string()];
    let ranked = rank_paths(&paths, 1);
    assert_eq!(ranked.len(), 2);
    assert!(ranked.iter().all(|p| p.occurrences == 1));
}

#[test]
fn extract_paths_rejects_symbols_in_segments() {
    assert!(extract_paths("Guardian > Notas+ > Emissão").is_empty());
    assert_eq!(extract_paths("Guardian > Nota_1 > Emissão-2"), vec!["Guardian > Nota_1 > Emissão-2"]);
}
