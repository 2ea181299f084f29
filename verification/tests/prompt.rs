use artemis::prompt::{build_revision_messages, PromptBuilder, TEMPLATE_HEADER};
use artemis::vault::VaultContext;

fn vault(estilo: &str, evitar: &str, campos: &str) -> VaultContext {
    VaultContext { estilo: estilo.to_string(), evitar: evitar.to_string(), campos_padrao: campos.to_string() }
}

#[test]
fn empty_vault_no_category_examples() {
    let v = VaultContext::default();
    let s = PromptBuilder::new(&v).build_system_prompt();
    assert!(s.contains("TEMPLATE OBRIGATÓRIO"));
    assert!(!s.contains("ESTILO DO USUÁRIO"));
    assert!(!s.contains("EXEMPLOS E NOTAS"));
}

#[test]
fn category_examples_appear_as_section() {
    let v = VaultContext {
        estilo: "Use voz ativa.".into(),
        ..Default::default()
    };
    let examples = "## Aprovado em 23/05/2026\n\n**Entrada:**\nteste\n\n**Saída:**\nresultado";
    let s = PromptBuilder::new(&v)
        .with_category("fiscal", Some(examples))
        .build_system_prompt();
    assert!(s.contains("EXEMPLOS E NOTAS DA CATEGORIA: FISCAL"));
    assert!(s.contains("Aprovado em 23/05/2026"));
    assert!(s.contains("resultado"));
}

#[test]
fn category_without_examples_omits_section() {
    let v = VaultContext::default();
    let s = PromptBuilder::new(&v)
        .with_category("fiscal", None)
        .build_system_prompt();
    assert!(!s.contains("EXEMPLOS E NOTAS"));
}

#[test]
fn build_messages_has_system_and_user_only() {
    let v = VaultContext::default();
    let msgs = PromptBuilder::new(&v).build_messages("input atual");
    assert_eq!(msgs.len(), 2);
    assert_eq!(msgs[0].role, "system");
    assert_eq!(msgs[1].role, "user");
    assert_eq!(msgs[1].content, "input atual");
}

#[test]
fn category_examples_include_manual_notes() {
    let v = VaultContext::default();
    let examples = "Nota manual: nesta categoria sempre use formato X.\n\n## Aprovado em 01/01/2026\n\nexemplo aqui";
    let s = PromptBuilder::new(&v)
        .with_category("fiscal", Some(examples))
        .build_system_prompt();
    assert!(s.contains("Nota manual: nesta categoria sempre use formato X"));
    assert!(s.contains("Aprovado em 01/01/2026"));
}

#[test]
fn system_prompt_sections_in_order_and_trimmed() {
    let v = vault("  E  ", "V", "\n C \n");
    let s = PromptBuilder::new(&v).with_category("vendas", Some("  ex ")).build_system_prompt();
    let expected = format!(
        "{}\n\n═══ ESTILO DO USUÁRIO ═══\n\nE\n\n═══ EXPRESSÕES A EVITAR ═══\n\nV\n\n═══ VALORES FREQUENTES ═══\n\nC\n\n═══ EXEMPLOS E NOTAS DA CATEGORIA: VENDAS ═══\n\nex",
        TEMPLATE_HEADER
    );
    assert_eq!(s, expected);
}

#[test]
fn blank_examples_file_adds_no_section() {
    let v = VaultContext::default();
    let s = PromptBuilder::new(&v).with_category("fiscal", Some(" \n ")).build_system_prompt();
    assert_eq!(s, TEMPLATE_HEADER);
}

#[test]
fn append_section_skips_blank_content() {
    let mut out = String::from("X");
    PromptBuilder::append_section(&mut out, "T", "   ");
    assert_eq!(out, "X");
    PromptBuilder::append_section(&mut out, "T", " c ");
    assert_eq!(out, "X\n\n═══ T ═══\n\nc");
}

#[test]
fn revision_messages_keep_user_text() {
    let v = vault(" estilo ", "evitar", "campos");
    let m = build_revision_messages(&v, "  texto do dev ");
    assert_eq!(m.len(), 2);
    assert_eq!(m[0].role, "system");
    assert!(m[0].content.contains("═══ ESTILO DO USUÁRIO ═══\n\nestilo\n\n═══ EXPRESSÕES A EVITAR ═══\n\nevitar\n\n═══ VALORES FREQUENTES ═══\n\ncampos"));
    assert!(!m[0].content.contains("TEMPLATE OBRIGATÓRIO"));
    assert_eq!(m[1].role, "user");
    assert_eq!(m[1].content, "  texto do dev ");
}

#[test]
fn revision_request_refuses_blank_text() {
    let ctx = artemis::vault::VaultContext { estilo: "e".to_string(), evitar: "v".to_string(), campos_padrao: "c".to_string() };
    let err = artemis::prompt::revision_request(&ctx, "  \n\t").unwrap_err();
    assert_eq!(err, artemis::prompt::RevisionError::BlankText);
    assert_eq!(err.message(), "Cole o texto da devolutiva para revisar.");
    let msgs = artemis::prompt::revision_request(&ctx, " texto ").unwrap();
    assert_eq!(msgs.len(), 2);
    assert_eq!(msgs[1].content, " texto ");
    assert_eq!(msgs[0].content, artemis::prompt::build_revision_messages(&ctx, "x")[0].content);
}
