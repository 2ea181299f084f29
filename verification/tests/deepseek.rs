use artemis::deepseek::{
    build_cartilha_messages, category_from_reply, classify_prompt, extract_json_array,
    extract_json_object, extract_markdown_doc, find_first_h1, json_array_of_reply,
    json_object_of_reply, slugify_category, style_from_reply, style_prompt, test_scenarios_prompt,
    analyze_edits_prompt, phrase_templates_prompt, replay_stream, stream_request, stream_step,
    AssistError, SseEvent, StreamStep,
};

#[test]
fn slug_basic() {
    assert_eq!(slugify_category("fiscal"), "fiscal");
    assert_eq!(slugify_category("Fiscal"), "fiscal");
    assert_eq!(slugify_category("Notas Fiscais"), "notas-fiscais");
    assert_eq!(slugify_category("Promoção"), "promocao");
    assert_eq!(slugify_category("financeiro/contábil"), "financeiro-contabil");
}

#[test]
fn slug_edge_cases() {
    assert_eq!(slugify_category(""), "geral");
    assert_eq!(slugify_category("   "), "geral");
    assert_eq!(slugify_category("---"), "geral");
    assert_eq!(slugify_category("FISCAL!"), "fiscal");
}

#[test]
fn slug_collapses_runs_and_keeps_digits() {
    assert_eq!(slugify_category("  Área  51 -- Ñandu  "), "area-51-nandu");
    let s = slugify_category("??x??y??");
    assert_eq!(s, "x-y");
    assert!(!s.starts_with('-') && !s.ends_with('-') && !s.contains("--"));
}

#[test]
fn extract_markdown_strips_preamble() {
    let raw = "Aqui está o estilo refinado:\n\n# Estilo de escrita\n\n- Item 1";
    assert_eq!(extract_markdown_doc(raw), "# Estilo de escrita\n\n- Item 1");
}

#[test]
fn extract_markdown_strips_fences() {
    let raw = "```markdown\n# Estilo\n\nConteúdo\n```";
    assert_eq!(extract_markdown_doc(raw), "# Estilo\n\nConteúdo");

    let raw2 = "```md\n# X\n```";
    assert_eq!(extract_markdown_doc(raw2), "# X");

    let raw3 = "```\n# Y\nlinha\n```";
    assert_eq!(extract_markdown_doc(raw3), "# Y\nlinha");
}

#[test]
fn extract_markdown_strips_fences_and_preamble() {
    let raw = "Segue:\n\n```markdown\n# Título\n\nCorpo\n```\n\nEspero ter ajudado.";
    let out = extract_markdown_doc(raw);
    assert!(out.starts_with("# Título"));
    assert!(out.contains("Corpo"));
}

#[test]
fn extract_markdown_no_heading_returns_trimmed() {
    let raw = "  conteúdo livre sem heading  ";
    assert_eq!(extract_markdown_doc(raw), "conteúdo livre sem heading");
}

#[test]
fn extract_markdown_fenced_without_heading_keeps_reply() {
    let raw = " ```\nfoo\n``` ";
    assert_eq!(extract_markdown_doc(raw), "```\nfoo\n```");
}

#[test]
fn extract_markdown_starts_already_with_h1() {
    let raw = "# Já começa bem\n\nResto";
    assert_eq!(extract_markdown_doc(raw), "# Já começa bem\n\nResto");
}

#[test]
fn find_first_h1_positions() {
    let c: Vec<char> = "# A".chars().collect();
    assert_eq!(find_first_h1(&c), Some(0));
    let c: Vec<char> = "pré\n# A".chars().collect();
    assert_eq!(find_first_h1(&c), Some(4));
    let c: Vec<char> = "## B\nx".chars().collect();
    assert_eq!(find_first_h1(&c), None);
}

#[test]
fn extract_json_object_basic() {
    let raw = "Aqui está: {\"a\":1,\"b\":\"foo\"} fim";
    assert_eq!(extract_json_object(raw).as_deref(), Some("{\"a\":1,\"b\":\"foo\"}"));
}

#[test]
fn extract_json_object_handles_nested_braces() {
    let raw = "{\"outer\":{\"inner\":{\"x\":1}}}";
    assert_eq!(extract_json_object(raw).as_deref(), Some(raw));
}

#[test]
fn extract_json_object_handles_braces_in_strings() {
    let raw = "{\"text\":\"{nested} braces inside string\",\"n\":2}";
    assert_eq!(extract_json_object(raw).as_deref(), Some(raw));
}

#[test]
fn extract_json_object_none_when_absent() {
    assert!(extract_json_object("nada de json aqui").is_none());
}

#[test]
fn extract_json_array_with_escaped_quotes_and_unbalanced() {
    let raw = "ok: [{\"e\":\"a \\\"]\\\" b\"}] depois";
    assert_eq!(extract_json_array(raw).as_deref(), Some("[{\"e\":\"a \\\"]\\\" b\"}]"));
    assert!(extract_json_array("[1, [2, 3]").is_none());
}

#[test]
fn replies_fall_back_to_defaults() {
    assert_eq!(json_array_of_reply(None), "[]");
    assert_eq!(json_array_of_reply(Some("sem array")), "[]");
    assert_eq!(json_array_of_reply(Some("x [1,2] y")), "[1,2]");
    assert_eq!(json_object_of_reply(None), "{}");
    assert_eq!(json_object_of_reply(Some("{\"a\":{}}!")), "{\"a\":{}}");
}

#[test]
fn category_reply_takes_first_word_as_slug() {
    assert_eq!(category_from_reply(None), "geral");
    assert_eq!(category_from_reply(Some("   ")), "geral");
    assert_eq!(category_from_reply(Some("  Fiscal. vendas")), "fiscal");
    assert_eq!(category_from_reply(Some("Promoção")), "promocao");
}

#[test]
fn style_reply_cleaned_or_refused() {
    assert_eq!(style_from_reply(Some("Aqui:\n# E\n- a")).unwrap(), "# E\n- a");
    assert_eq!(style_from_reply(Some("```\n```")).unwrap(), "```\n```");
    assert_eq!(style_from_reply(Some(" \n\t ")).unwrap_err(), AssistError::EmptyStyle);
    assert_eq!(style_from_reply(None).unwrap_err(), AssistError::EmptyStyle);
    assert_eq!(AssistError::EmptyStyle.message(), "IA retornou conteúdo vazio após limpeza");
}

#[test]
fn classify_prompt_lists_categories() {
    let p = classify_prompt("texto", &[]);
    assert!(p.contains("Categorias já existentes neste sistema: (nenhuma ainda — proponha uma curta e específica)\n\nTexto a classificar:\ntexto\n\nRegras:"));
    let p = classify_prompt("t", &["fiscal".to_string(), "vendas".to_string()]);
    assert!(p.contains("sistema: fiscal, vendas\n\n"));
}

#[test]
fn analyze_edits_prompt_numbers_pairs() {
    assert!(analyze_edits_prompt(&[]).is_none());
    let p = analyze_edits_prompt(&[("  a ".to_string(), "b".to_string()), ("c".to_string(), "d".to_string())]).unwrap();
    assert!(p.ends_with("Pares para análise:\n\n=== PAR 1 ===\n\nVERSÃO ORIGINAL (gerada pela IA):\na\n\nVERSÃO EDITADA E APROVADA PELO USUÁRIO:\nb\n\n=== PAR 2 ===\n\nVERSÃO ORIGINAL (gerada pela IA):\nc\n\nVERSÃO EDITADA E APROVADA PELO USUÁRIO:\nd\n"));
}

#[test]
fn test_scenarios_prompt_refuses_blank_input() {
    assert_eq!(test_scenarios_prompt("  \n ").unwrap_err(), AssistError::EmptyInput);
    assert_eq!(AssistError::EmptyInput.message(), "input vazio — nada pra sugerir");
    let p = test_scenarios_prompt("  mudança X ").unwrap();
    assert!(p.ends_with("═══ DESCRIÇÃO DA MUDANÇA ═══\n\nmudança X"));
}

#[test]
fn phrase_and_style_prompts() {
    assert!(phrase_templates_prompt(&[], "x").is_none());
    let p = phrase_templates_prompt(&["um".to_string(), " dois ".to_string()], "  ").unwrap();
    assert!(p.contains("1. 2 devolutivas"));
    assert!(p.contains("(arquivo vazio — qualquer frase recorrente é candidato válido)"));
    assert!(p.ends_with("═══ DEVOLUTIVAS APROVADAS ═══\n\n=== DEVOLUTIVA 1 ===\num\n\n=== DEVOLUTIVA 2 ===\ndois\n"));
    assert_eq!(style_prompt("x", &[]).unwrap_err(), AssistError::NoSamples);
    let p = style_prompt(" # Estilo ", &[("r".to_string(), "f".to_string())]).unwrap();
    assert!(p.contains("═══ ESTILO.MD ATUAL ═══\n\n# Estilo\n\n"));
    assert!(p.contains("=== AMOSTRA 1 ===\n\nENTRADA BRUTA:\nr\n\n"));
}

#[test]
fn cartilha_messages_by_audience_and_images() {
    let m = build_cartilha_messages(" spec ", "cliente", &[]);
    assert_eq!(m.len(), 1);
    assert_eq!(m[0].role, "user");
    assert!(m[0].content.contains("Público-alvo: USUÁRIOS FINAIS"));
    assert!(m[0].content.ends_with("═══ ESPECIFICAÇÃO TÉCNICA ═══\n\nspec"));
    let m = build_cartilha_messages("s", "outro", &["tela A".to_string(), "tela B".to_string()]);
    assert!(m[0].content.contains("Público-alvo: TIME DE SUPORTE N1"));
    assert!(m[0].content.contains("- Imagem 1: tela A\n- Imagem 2: tela B\n"));
    let m = build_cartilha_messages("s", "interno", &[]);
    assert!(m[0].content.contains("Público-alvo: EQUIPE INTERNA"));
    assert!(!m[0].content.contains("O dev anexou"));
}

#[test]
fn slug_of_a_slug_is_itself() {
    for name in ["Notas Fiscais", "Promoção", "  ", "financeiro/contábil", "a-1-b"] {
        let once = slugify_category(name);
        assert_eq!(slugify_category(&once), once);
    }
    assert_eq!(slugify_category("notas-fiscais"), "notas-fiscais");
    let cat = category_from_reply(Some("Notas"));
    assert_eq!(artemis::vault::category_examples_file(&cat), "exemplos-notas.md");
}

fn msg(data: &str, delta: Option<&str>) -> SseEvent {
    SseEvent::Message(data.to_string(), delta.map(|d| d.to_string()))
}

#[test]
fn stream_step_decides_each_event() {
    assert!(matches!(stream_step(&SseEvent::Open), StreamStep::Continue));
    assert!(matches!(stream_step(&msg("[DONE]", None)), StreamStep::Finish));
    assert!(matches!(stream_step(&msg("[DONE]", Some("x"))), StreamStep::Finish));
    match stream_step(&msg("{\"choices\":[]}", Some("Olá"))) {
        StreamStep::Emit(t) => assert_eq!(t, "Olá"),
        _ => panic!("expected a token"),
    }
    assert!(matches!(stream_step(&msg("não é json", None)), StreamStep::Continue));
    assert!(matches!(stream_step(&SseEvent::Ended), StreamStep::Finish));
    match stream_step(&SseEvent::Failed("Erro SSE: 500".to_string())) {
        StreamStep::Fail(e) => assert_eq!(e, "Erro SSE: 500"),
        _ => panic!("expected a failure"),
    }
}

#[test]
fn replay_stream_emits_deltas_until_the_first_stop() {
    let evs = vec![
        SseEvent::Open,
        msg("a", Some("Bom ")),
        msg("lixo", None),
        msg("b", Some("dia")),
        msg("[DONE]", None),
        msg("c", Some("depois")),
        SseEvent::Failed("tarde demais".to_string()),
    ];
    let (tokens, outcome) = replay_stream(&evs);
    assert_eq!(tokens, vec!["Bom ".to_string(), "dia".to_string()]);
    assert!(outcome.is_ok());

    let evs = vec![msg("a", Some("x")), SseEvent::Failed("Erro SSE: rede".to_string()), msg("b", Some("y"))];
    let (tokens, outcome) = replay_stream(&evs);
    assert_eq!(tokens, vec!["x".to_string()]);
    assert_eq!(outcome, Err("Erro SSE: rede".to_string()));

    let (tokens, outcome) = replay_stream(&vec![msg("a", Some("x")), SseEvent::Ended, msg("b", Some("y"))]);
    assert_eq!(tokens, vec!["x".to_string()]);
    assert!(outcome.is_ok());

    let (tokens, outcome) = replay_stream(&vec![msg("a", Some("só"))]);
    assert_eq!(tokens, vec!["só".to_string()]);
    assert!(outcome.is_ok());
}

#[test]
fn stream_request_settings() {
    let r = stream_request();
    assert_eq!(r.model, "deepseek-chat");
    assert!(r.stream);
    assert_eq!(r.max_tokens, 2048);
}

#[test]
fn category_falls_back_to_general() {
    assert_eq!(artemis::deepseek::category_or_general(Some("fiscal".to_string())), "fiscal");
    assert_eq!(artemis::deepseek::category_or_general(None), "geral");
}
