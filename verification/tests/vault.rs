use artemis::vault::{
    append_paths_to_section, append_phrase_templates, append_to_category_examples,
    append_to_evitar, apply_campos_changes, category_examples_file, count_example_blocks,
    current_release_in_text, existing_paths_in_text, insert_into_phrases_section, is_rule_file,
    phrase_templates_block, replace_estilo, replace_or_append_release_line, with_campos_changes,
    with_category_example, with_evitar_suggestions, RuleFileRead, VaultContext, VaultError,
    VaultLoader,
};

#[test]
fn current_release_in_text_basic() {
    let content = "# Header\n\n- **Release atual:** `v2.54.6 — 15/05/2026`\n\nresto";
    assert_eq!(current_release_in_text(content), Some("v2.54.6 — 15/05/2026".to_string()));
}

#[test]
fn current_release_in_text_none_when_absent() {
    assert!(current_release_in_text("# só header\nnada de release").is_none());
    assert!(current_release_in_text("- **Release atual:** v2.54.6 sem crases").is_none());
}

#[test]
fn existing_paths_in_text_collects_normalized() {
    let content = "- `Guardian > Cadastros > Compra`\n- `Artemis > Apurações`\nlinha solta";
    let set = existing_paths_in_text(content);
    assert!(set.contains("Guardian > Cadastros > Compra"));
    assert!(set.contains("Artemis > Apurações"));
    assert!(!set.contains("linha solta"));
}

#[test]
fn replace_estilo_creates_backup() {
    let edit = replace_estilo(Some("VERSAO ANTIGA"), "VERSAO NOVA").unwrap();
    assert_eq!(edit.content, "VERSAO NOVA");
    assert_eq!(edit.backup.as_deref(), Some("VERSAO ANTIGA"));
}

#[test]
fn replace_estilo_overwrites_existing_bak() {
    let edit = replace_estilo(Some("v3"), "v4").unwrap();
    assert_eq!(edit.content, "v4");
    assert_eq!(edit.backup.as_deref(), Some("v3"));
}

#[test]
fn replace_estilo_works_when_no_existing_file() {
    let edit = replace_estilo(None, "primeira versao").unwrap();
    assert_eq!(edit.content, "primeira versao");
    assert!(edit.backup.is_none());
}

#[test]
fn replace_estilo_rejects_empty_content() {
    assert_eq!(replace_estilo(Some("conteudo original"), "").err(), Some(VaultError::EmptyContent));
    assert_eq!(replace_estilo(Some("conteudo original"), "   \n\t  \n").err(), Some(VaultError::EmptyContent));
    assert_eq!(VaultError::EmptyContent.message(), "conteúdo proposto está vazio — operação abortada");
}

#[test]
fn apply_campos_changes_replaces_release_line_preserving_rest() {
    let original = "# Header\n\n## Versão atual em produção\n- **Release atual:** `v2.54.6 — 15/05/2026`\n- **Próxima release prevista:** `v2.54.7 — 22/05/2026`\n\n## Outra seção\nconteúdo\n";
    let edit = apply_campos_changes(original, Some("v2.55.0 — 23/05/2026"), &vec![]).unwrap();
    let new_content = edit.content;
    assert!(new_content.contains("- **Release atual:** `v2.55.0 — 23/05/2026`"));
    assert!(new_content.contains("- **Próxima release prevista:** `v2.54.7 — 22/05/2026`"));
    assert!(new_content.contains("## Outra seção"));
    assert_eq!(edit.backup.as_deref(), Some(original));
    assert_eq!(
        new_content,
        original.replace("`v2.54.6 — 15/05/2026`", "`v2.55.0 — 23/05/2026`")
    );
}

#[test]
fn apply_campos_changes_appends_release_section_if_absent() {
    let original = "# Arquivo sem seção de release\n";
    let edit = apply_campos_changes(original, Some("v1.0.0 — 01/01/2026"), &vec![]).unwrap();
    assert_eq!(
        edit.content,
        "# Arquivo sem seção de release\n\n## Versão atual em produção\n- **Release atual:** `v1.0.0 — 01/01/2026`\n"
    );
}

#[test]
fn apply_campos_changes_appends_paths_to_existing_section() {
    let original = "# Header\n\n## Caminhos recorrentes (exemplos)\n- `A > B > C`\n\n## Outra\nfim\n";
    let edit = apply_campos_changes(
        original,
        None,
        &vec!["Novo > Caminho".to_string(), "Outro > Novo".to_string()],
    )
    .unwrap();
    let new_content = edit.content;
    assert!(new_content.contains("- `A > B > C`"));
    assert!(new_content.contains("- `Novo > Caminho`"));
    assert!(new_content.contains("- `Outro > Novo`"));
    assert!(new_content.contains("<!-- auto-aprendidos em"));
    let idx_novo = new_content.find("Novo > Caminho").unwrap();
    let idx_outra_secao = new_content.find("## Outra").unwrap();
    assert!(idx_novo < idx_outra_secao);
}

#[test]
fn apply_campos_changes_creates_paths_section_if_absent() {
    let edit = apply_campos_changes("# Vazio de caminhos\n", None, &vec!["X > Y > Z".to_string()]).unwrap();
    assert!(edit.content.contains("## Caminhos recorrentes"));
    assert!(edit.content.contains("- `X > Y > Z`"));
}

#[test]
fn apply_campos_changes_rejects_no_change_request() {
    assert_eq!(apply_campos_changes("conteudo", None, &vec![]).err(), Some(VaultError::NothingToApply));
    let edit = apply_campos_changes("", Some("v1.0.0 — 01/01/2026"), &vec![]).unwrap();
    assert!(edit.backup.is_none());
}

#[test]
fn append_phrase_templates_appends_to_existing_section() {
    let original = "# Header\n\n## Frases-modelo aprovadas\n\n**Existente:**\n> Template antigo\n\n## Outra seção\nfim\n";
    let templates = vec![(
        "Para correção fiscal".to_string(),
        "A correção <X> foi liberada em <vY.Y.Z>.".to_string(),
    )];
    let edit = append_phrase_templates(original, &templates).unwrap();
    let new_content = edit.content;
    assert!(new_content.contains("**Existente:**"));
    assert!(new_content.contains("> Template antigo"));
    assert!(new_content.contains("## Outra seção"));
    assert!(new_content.contains("<!-- auto-aprendidos em"));
    assert!(new_content.contains("**Para correção fiscal:**"));
    assert!(new_content.contains("> A correção <X> foi liberada em <vY.Y.Z>."));
    let idx_novo = new_content.find("Para correção fiscal").unwrap();
    let idx_outra = new_content.find("## Outra seção").unwrap();
    assert!(idx_novo < idx_outra);
    assert_eq!(edit.backup.as_deref(), Some(original));
}

#[test]
fn append_phrase_templates_creates_section_if_absent() {
    let templates = vec![
        ("Caso A".to_string(), "Frase A.".to_string()),
        ("Caso B".to_string(), "Frase B.".to_string()),
    ];
    let edit = append_phrase_templates("# Apenas o título\n", &templates).unwrap();
    assert!(edit.content.contains("## Frases-modelo aprovadas"));
    assert!(edit.content.contains("**Caso A:**"));
    assert!(edit.content.contains("> Frase A."));
    assert!(edit.content.contains("**Caso B:**"));
}

#[test]
fn append_phrase_templates_rejects_empty_input() {
    assert_eq!(append_phrase_templates("conteudo original", &vec![]).err(), Some(VaultError::NoTemplates));
    assert_eq!(VaultError::NoTemplates.message(), "nenhuma frase-modelo a aplicar");
}

#[test]
fn paths_block_goes_once_at_end_of_last_section() {
    let out = append_paths_to_section("# T\n## Caminhos recorrentes\n- `A > B`", &vec!["C > D".to_string()], "01/02/2026 10:00");
    assert_eq!(out, "# T\n## Caminhos recorrentes\n- `A > B`\n\n<!-- auto-aprendidos em 01/02/2026 10:00 -->\n- `C > D`\n");
}

#[test]
fn paths_section_found_case_insensitively() {
    let out = append_paths_to_section("  ## CAMINHOS Recorrentes\nx\n## Fim\n", &vec!["P > Q".to_string()], "d");
    assert_eq!(out, "  ## CAMINHOS Recorrentes\nx\n\n<!-- auto-aprendidos em d -->\n- `P > Q`\n## Fim\n");
}

#[test]
fn paths_section_created_in_empty_file() {
    let out = append_paths_to_section("", &vec!["P > Q".to_string()], "d");
    assert_eq!(out, "## Caminhos recorrentes\n\n<!-- auto-aprendidos em d -->\n- `P > Q`\n");
}

#[test]
fn phrases_inserted_before_next_heading() {
    let block = phrase_templates_block(&vec![(" S ".to_string(), " T ".to_string())], "d");
    assert_eq!(block, "\n<!-- auto-aprendidos em d -->\n\n**S:**\n> T\n");
    let out = insert_into_phrases_section("## Frases-modelo\na\n## B\nb", &block);
    assert_eq!(out, "## Frases-modelo\na\n\n<!-- auto-aprendidos em d -->\n\n**S:**\n> T\n## B\nb\n");
    let out = insert_into_phrases_section("texto", "X\n");
    assert_eq!(out, "texto\n\n## Frases-modelo aprovadas\nX\n");
}

#[test]
fn release_line_keeps_indent_and_only_first() {
    let c = "  - **Release atual:** `v1`\n- **Release atual:** `v0`\n";
    assert_eq!(replace_or_append_release_line(c, "v2"), "  - **Release atual:** `v2`\n- **Release atual:** `v0`\n");
    assert_eq!(replace_or_append_release_line("", "v2"), "## Versão atual em produção\n- **Release atual:** `v2`\n");
    assert_eq!(replace_or_append_release_line("a\n\n", "v2"), "a\n\n## Versão atual em produção\n- **Release atual:** `v2`\n");
}

#[test]
fn campos_changes_release_then_paths() {
    let out = with_campos_changes("x", Some("v9"), &vec!["A > B".to_string()], "d");
    assert_eq!(out, "x\n\n## Versão atual em produção\n- **Release atual:** `v9`\n\n## Caminhos recorrentes\n\n<!-- auto-aprendidos em d -->\n- `A > B`\n");
    assert_eq!(current_release_in_text(&out), Some("v9".to_string()));
}

#[test]
fn evitar_block_escapes_quotes() {
    let s = vec![("diga \"oi\"".to_string(), "formal demais".to_string())];
    let out = with_evitar_suggestions("  # Evitar\n- x\n\n  ", &s, "d");
    assert_eq!(out, "  # Evitar\n- x\n\n<!-- auto-aprendidos em d -->\n- ~~\"diga \\\"oi\\\"\"~~ — formal demais\n");
    let out = with_evitar_suggestions(" \n", &s, "d");
    assert!(out.starts_with("# Expressões a evitar\n\n> Adicione manualmente"));
    let appended = append_to_evitar("", &s);
    assert!(appended.contains("- ~~\"diga \\\"oi\\\"\"~~ — formal demais\n"));
}

#[test]
fn category_examples_file_and_content() {
    assert_eq!(category_examples_file("Notas Fiscais"), "exemplos-notas-fiscais.md");
    assert_eq!(category_examples_file("!!"), "exemplos-geral.md");
    let out = with_category_example("", "Fiscal", "  in  ", " out ", "01/01/2026 08:00");
    assert!(out.starts_with("# Exemplos aprovados — fiscal\n\n> Arquivo auto-curado pelo Artemis."));
    assert!(out.ends_with("\n\n---\n\n## Aprovado em 01/01/2026 08:00\n\n**Entrada bruta:**\n\n```\nin\n```\n\n**Devolutiva aprovada:**\n\nout\n"));
    let more = with_category_example("# X\n\n", "fiscal", "a", "b", "d");
    assert!(more.starts_with("# X\n\n---\n\n## Aprovado em d"));
    let appended = append_to_category_examples(&more, "fiscal", "c", "e");
    assert_eq!(count_example_blocks(&appended), 2);
}

#[test]
fn each_approval_adds_one_example_block() {
    let existing = "# Notas\n\n## Aprovado em 02/02/2026 09:00\n\nx\n  \n";
    assert_eq!(count_example_blocks(existing), 1);
    let once = with_category_example(existing, "Notas", "bruto", "final", "03/02/2026 10:00");
    assert_eq!(count_example_blocks(&once), 2);
    let twice = with_category_example(&once, "Notas", "b2", "f2", "04/02/2026 11:00");
    assert_eq!(count_example_blocks(&twice), 3);
    // a reply that itself quotes the heading adds its own occurrence too
    let quoted = with_category_example(&twice, "Notas", "b3", "## Aprovado em antes", "d");
    assert_eq!(count_example_blocks(&quoted), 5);
    // a new or blank file: the note of its header quotes the heading but
    // does not count
    let fresh = with_category_example("", "Notas", "b", "f", "d");
    assert_eq!(count_example_blocks(&fresh), 1);
    let blank = with_category_example(" \n ", "Notas", "b", "f", "d");
    assert_eq!(count_example_blocks(&blank), 1);
    // a heading quoted inside a line is no block
    assert_eq!(count_example_blocks("x ## Aprovado em y\n## Aprovado em z"), 1);
}

#[test]
fn count_example_blocks_counts_headings_only() {
    assert_eq!(count_example_blocks("nota\n## Aprovado em 1\n## Aprovado em 2\n## Outro"), 2);
    assert_eq!(count_example_blocks(""), 0);
}

#[test]
fn vault_context_totals_and_presence() {
    let c = VaultContext { estilo: "ção".to_string(), evitar: " \n".to_string(), campos_padrao: "x".to_string() };
    assert_eq!(c.total_chars(), 5 + 2 + 1);
    assert_eq!(c.files_present(), vec!["estilo.md".to_string(), "campos-padrao.md".to_string()]);
}

#[test]
fn loader_reload_reports_reads() {
    let mut l = VaultLoader::new();
    assert!(l.status().path.is_none());
    assert_eq!(l.status().files_total, 0);
    let reads = vec![
        RuleFileRead::Read("estilo".to_string()),
        RuleFileRead::Failed("permissão negada".to_string()),
        RuleFileRead::Missing,
    ];
    l.set_path("/v".to_string(), &reads, Some(42));
    assert_eq!(l.context().estilo, "estilo");
    assert_eq!(l.context().evitar, "");
    assert_eq!(l.status().path.as_deref(), Some("/v"));
    assert_eq!(l.status().last_loaded_ts, Some(42));
    assert_eq!(l.status().files_present, vec!["estilo.md".to_string()]);
    assert_eq!(l.status().files_total, 3);
    assert_eq!(l.status().total_chars, 6);
    assert_eq!(l.status().error.as_deref(), Some("erro lendo evitar.md: permissão negada"));
    assert_eq!(l.path().as_deref(), Some("/v"));
}

#[test]
fn rule_files_are_the_three() {
    assert!(is_rule_file("estilo.md"));
    assert!(is_rule_file("evitar.md"));
    assert!(is_rule_file("campos-padrao.md"));
    assert!(!is_rule_file("exemplos-fiscal.md"));
}

#[test]
fn release_written_is_release_read() {
    for content in [
        "",
        "# T\r\n- **Release atual:** `v1`\r\nfim",
        "  - **Release atual:**   sem crases\n## Outra\n",
        "- **Release atual:** `v1`",
    ] {
        let out = replace_or_append_release_line(content, "v9.9.9 — 01/02/2030");
        assert_eq!(current_release_in_text(&out), Some("v9.9.9 — 01/02/2030".to_string()));
    }
}

#[test]
fn date_label_as_chrono_writes_it() {
    assert_eq!(artemis::vault::format_date_label(2026, 2, 3, 9, 5), "03/02/2026 09:05");
    assert_eq!(artemis::vault::format_date_label(2026, 12, 31, 23, 59), "31/12/2026 23:59");
    assert_eq!(artemis::vault::format_date_label(987, 1, 1, 0, 0), "01/01/0987 00:00");
    assert_eq!(artemis::vault::format_date_label(12345, 1, 1, 0, 0), "01/01/+12345 00:00");
    assert_eq!(artemis::vault::format_date_label(-1, 1, 1, 0, 0), "01/01/-0001 00:00");
}
