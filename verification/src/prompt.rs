//! The messages sent to the model to write a reply: the mandatory template,
//! the rules of the vault and the examples file of the reply's category; and
//! the messages of the review mode, which corrects a reply written by hand.

use vstd::prelude::*;
use crate::deepseek::ChatMessage;
use crate::text::{chars_of, extend, string_of, trim, trim_chars, uppercase_of, to_uppercase_chars};
use crate::vault::VaultContext;

verus! {

/// The opening of every system prompt: the role of the assistant and the
/// template of the reply.
pub const TEMPLATE_HEADER: &'static str = "Você é o assistente Artemis, especializado em redigir devolutivas técnicas para o time de suporte N1 de sistemas ERP. Sua saída é sempre em português brasileiro, em prosa técnica direta, e respeita rigorosamente o template abaixo. Omita campos que claramente não se aplicam ao caso descrito, mas nunca invente conteúdo para preencher campos.\n\n═══ TEMPLATE OBRIGATÓRIO ═══\n\nFormate cada campo com o título entre as tags [n] e [/n], seguido de uma linha em branco e o conteúdo. Deixe uma linha em branco entre os campos. Não use markdown (##, **, etc.).\n\nExemplo de formato:\n[n]O que foi alterado/corrigido :[/n]\n\nDescrição objetiva da correção realizada.\n\n[n]Release/versão :[/n]\n\nv1.0.0 — 22/05/2026\n\nCampos disponíveis (inclua apenas os aplicáveis, nesta ordem):\n1. O que foi alterado/corrigido\n2. Caminho da solução (formato: Sistema > Menu > Submenu > Aba)\n3. Novo parâmetro ou permissão (nome + caminho + uso correto)\n4. Release/versão (formato: vX.Y.Z — dd/mm/aaaa)\n5. Necessidade de atualização (versão / executável / nenhuma)\n6. Forma de validação pelo suporte\n7. Solução paliativa ou definitiva\n8. Scripts ou ações manuais (SQL em bloco de código)\n9. Documentação complementar\n10. Pendências ou observações\n11. Cenário não simulado (passo a passo dos testes realizados)";

/// The text of the template header.
pub open spec fn template_header() -> Seq<char> {
    "Você é o assistente Artemis, especializado em redigir devolutivas técnicas para o time de suporte N1 de sistemas ERP. Sua saída é sempre em português brasileiro, em prosa técnica direta, e respeita rigorosamente o template abaixo. Omita campos que claramente não se aplicam ao caso descrito, mas nunca invente conteúdo para preencher campos.\n\n═══ TEMPLATE OBRIGATÓRIO ═══\n\nFormate cada campo com o título entre as tags [n] e [/n], seguido de uma linha em branco e o conteúdo. Deixe uma linha em branco entre os campos. Não use markdown (##, **, etc.).\n\nExemplo de formato:\n[n]O que foi alterado/corrigido :[/n]\n\nDescrição objetiva da correção realizada.\n\n[n]Release/versão :[/n]\n\nv1.0.0 — 22/05/2026\n\nCampos disponíveis (inclua apenas os aplicáveis, nesta ordem):\n1. O que foi alterado/corrigido\n2. Caminho da solução (formato: Sistema > Menu > Submenu > Aba)\n3. Novo parâmetro ou permissão (nome + caminho + uso correto)\n4. Release/versão (formato: vX.Y.Z — dd/mm/aaaa)\n5. Necessidade de atualização (versão / executável / nenhuma)\n6. Forma de validação pelo suporte\n7. Solução paliativa ou definitiva\n8. Scripts ou ações manuais (SQL em bloco de código)\n9. Documentação complementar\n10. Pendências ou observações\n11. Cenário não simulado (passo a passo dos testes realizados)"@
}

/// The system prompt of the review mode.
pub open spec fn revision_system_text(estilo: Seq<char>, evitar: Seq<char>, campos: Seq<char>) -> Seq<char> {
    "Você REVISA devolutivas técnicas escritas manualmente por um dev para o time de suporte N1. Português brasileiro, prosa técnica direta.\n\nREGRAS DE REVISÃO:\n- NÃO reescreva do zero: preserve a estrutura, a ordem e o conteúdo do texto original.\n- Corrija apenas: expressões da lista de EVITAR, desvios do ESTILO do usuário, erros de gramática/pontuação e valores desatualizados conforme VALORES FREQUENTES (ex: release antiga).\n- Mantenha as tags [n]...[/n] se o texto já as usar; NÃO as adicione se não existirem.\n- NÃO adicione informações novas nem remova informações existentes.\n- NÃO use markdown.\n- Devolva APENAS o texto revisado, sem comentários sobre o que mudou e sem despedidas.\n\n═══ ESTILO DO USUÁRIO ═══\n\n"@ + trim(estilo) + "\n\n═══ EXPRESSÕES A EVITAR ═══\n\n"@ + trim(evitar) + "\n\n═══ VALORES FREQUENTES ═══\n\n"@ + trim(campos)
}

/// The messages of the review mode: a system message with the review rules
/// and the three rule files of the vault (trimmed), then the text to review
/// as the user message. The template header is not used: the text keeps its
/// own structure.
pub fn build_revision_messages(vault: &VaultContext, user_text: &str) -> (r: Vec<ChatMessage>)
    ensures
        r@.len() == 2,
        r@[0].role@ == "system"@,
        r@[0].content@ == revision_system_text(vault.estilo@, vault.evitar@, vault.campos_padrao@),
        r@[1].role@ == "user"@,
        r@[1].content@ == user_text@,
{
    let estilo = trim_chars(&chars_of(vault.estilo.as_str()));
    let evitar = trim_chars(&chars_of(vault.evitar.as_str()));
    let campos = trim_chars(&chars_of(vault.campos_padrao.as_str()));
    let mut out = chars_of("Você REVISA devolutivas técnicas escritas manualmente por um dev para o time de suporte N1. Português brasileiro, prosa técnica direta.\n\nREGRAS DE REVISÃO:\n- NÃO reescreva do zero: preserve a estrutura, a ordem e o conteúdo do texto original.\n- Corrija apenas: expressões da lista de EVITAR, desvios do ESTILO do usuário, erros de gramática/pontuação e valores desatualizados conforme VALORES FREQUENTES (ex: release antiga).\n- Mantenha as tags [n]...[/n] se o texto já as usar; NÃO as adicione se não existirem.\n- NÃO adicione informações novas nem remova informações existentes.\n- NÃO use markdown.\n- Devolva APENAS o texto revisado, sem comentários sobre o que mudou e sem despedidas.\n\n═══ ESTILO DO USUÁRIO ═══\n\n");
    extend(&mut out, &estilo);
    crate::text::extend_str(&mut out, "\n\n═══ EXPRESSÕES A EVITAR ═══\n\n");
    extend(&mut out, &evitar);
    crate::text::extend_str(&mut out, "\n\n═══ VALORES FREQUENTES ═══\n\n");
    extend(&mut out, &campos);
    let mut v: Vec<ChatMessage> = Vec::new();
    v.push(ChatMessage { role: String::from_str("system"), content: string_of(&out) });
    v.push(ChatMessage { role: String::from_str("user"), content: String::from_str(user_text) });
    v
}

/// Why the review mode was not started.
#[derive(Clone, Copy, Debug, PartialEq, Eq, Structural)]
pub enum RevisionError {
    /// The text to review is blank.
    BlankText,
}

impl RevisionError {
    /// The message shown for the error.
    pub fn message(&self) -> (r: String)
        ensures
            r@ == "Cole o texto da devolutiva para revisar."@,
    {
        String::from_str("Cole o texto da devolutiva para revisar.")
    }
}

/// The messages of the review mode for `user_text`, refused when the text is
/// blank (only whitespace).
pub fn revision_request(vault: &VaultContext, user_text: &str) -> (r: Result<
    Vec<ChatMessage>,
    RevisionError,
>)
    ensures
        r is Err <==> trim(user_text@).len() == 0,
        r matches Ok(v) ==> {
            &&& v@.len() == 2
            &&& v@[0].role@ == "system"@
            &&& v@[0].content@ == revision_system_text(
                vault.estilo@,
                vault.evitar@,
                vault.campos_padrao@,
            )
            &&& v@[1].role@ == "user"@
            &&& v@[1].content@ == user_text@
        },
{
    if trim_chars(&chars_of(user_text)).len() == 0 {
        Err(RevisionError::BlankText)
    } else {
        Ok(build_revision_messages(vault, user_text))
    }
}

/// A section of the system prompt: its title framed, then the content
/// trimmed; nothing when the content is blank.
pub open spec fn section(title: Seq<char>, content: Seq<char>) -> Seq<char> {
    if trim(content).len() == 0 {
        Seq::<char>::empty()
    } else {
        "\n\n═══ "@ + title + " ═══\n\n"@ + trim(content)
    }
}

/// The system prompt of a reply: the template header, then the sections of
/// the style, of the expressions to avoid and of the frequent values, then,
/// when both a category and its examples file are given, the whole examples
/// file under the category's name in uppercase.
pub open spec fn system_prompt(
    vault: VaultContext,
    category: Option<Seq<char>>,
    examples: Option<Seq<char>>,
) -> Seq<char> {
    template_header() + section("ESTILO DO USUÁRIO"@, vault.estilo@) + section(
        "EXPRESSÕES A EVITAR"@,
        vault.evitar@,
    ) + section("VALORES FREQUENTES"@, vault.campos_padrao@) + match (category, examples) {
        (Some(c), Some(e)) => section("EXEMPLOS E NOTAS DA CATEGORIA: "@ + uppercase_of(c), e),
        _ => Seq::<char>::empty(),
    }
}

/// Builds the messages of a reply from the vault and, once a category is
/// chosen, the content of its examples file.
pub struct PromptBuilder<'a> {
    vault: &'a VaultContext,
    category: Option<&'a str>,
    category_examples: Option<&'a str>,
}

impl<'a> PromptBuilder<'a> {
    /// The vault the prompt is built from.
    pub closed spec fn spec_vault(&self) -> VaultContext {
        *self.vault
    }

    /// The category of the reply, once chosen.
    pub closed spec fn spec_category(&self) -> Option<Seq<char>> {
        match self.category {
            Some(c) => Some(c@),
            None => None,
        }
    }

    /// The content of the category's examples file, if it was read.
    pub closed spec fn spec_examples(&self) -> Option<Seq<char>> {
        match self.category_examples {
            Some(e) => Some(e@),
            None => None,
        }
    }

    /// A builder over the vault, without a category.
    pub fn new(vault: &'a VaultContext) -> (r: Self)
        ensures
            r.spec_vault() == *vault,
            r.spec_category() is None,
            r.spec_examples() is None,
    {
        PromptBuilder { vault, category: None, category_examples: None }
    }

    /// The builder with the category of the reply and the content of its
    /// examples file (`None` when there is no such file).
    pub fn with_category(self, category: &'a str, examples: Option<&'a str>) -> (r: Self)
        ensures
            r.spec_vault() == self.spec_vault(),
            r.spec_category() == Some(category@),
            r.spec_examples() == crate::text::opt_view(examples),
    {
        PromptBuilder { vault: self.vault, category: Some(category), category_examples: examples }
    }

    /// The system prompt: the template, the three rule files of the vault
    /// and, when there is one, the whole examples file of the category, so
    /// that every note the user wrote in it reaches the model.
    pub fn build_system_prompt(&self) -> (r: String)
        ensures
            r@ == system_prompt(self.spec_vault(), self.spec_category(), self.spec_examples()),
    {
        let mut p = String::from_str(TEMPLATE_HEADER);
        Self::append_section(&mut p, "ESTILO DO USUÁRIO", self.vault.estilo.as_str());
        Self::append_section(&mut p, "EXPRESSÕES A EVITAR", self.vault.evitar.as_str());
        Self::append_section(&mut p, "VALORES FREQUENTES", self.vault.campos_padrao.as_str());
        match (self.category, self.category_examples) {
            (Some(cat), Some(examples)) => {
                let mut title = chars_of("EXEMPLOS E NOTAS DA CATEGORIA: ");
                let up = to_uppercase_chars(&chars_of(cat));
                extend(&mut title, &up);
                let t = string_of(&title);
                Self::append_section(&mut p, t.as_str(), examples);
            },
            _ => {},
        }
        p
    }

    /// The messages of a reply: the system prompt, then `user_input` as the
    /// user message.
    pub fn build_messages(&self, user_input: &str) -> (r: Vec<ChatMessage>)
        ensures
            r@.len() == 2,
            r@[0].role@ == "system"@,
            r@[0].content@ == system_prompt(
                self.spec_vault(),
                self.spec_category(),
                self.spec_examples(),
            ),
            r@[1].role@ == "user"@,
            r@[1].content@ == user_input@,
    {
        let mut v: Vec<ChatMessage> = Vec::new();
        v.push(ChatMessage { role: String::from_str("system"), content: self.build_system_prompt() });
        v.push(ChatMessage { role: String::from_str("user"), content: String::from_str(user_input) });
        v
    }

    /// Appends the section `title` with `content` trimmed; nothing when the
    /// content is blank.
    pub fn append_section(out: &mut String, title: &str, content: &str)
        ensures
            final(out)@ == old(out)@ + section(title@, content@),
    {
        let t = trim_chars(&chars_of(content));
        if t.len() == 0 {
            assert(old(out)@ + Seq::<char>::empty() =~= old(out)@);
            return;
        }
        let mut o = chars_of(out.as_str());
        crate::text::extend_str(&mut o, "\n\n═══ ");
        crate::text::extend_str(&mut o, title);
        crate::text::extend_str(&mut o, " ═══\n\n");
        extend(&mut o, &t);
        *out = string_of(&o);
    }
}

} // verus!
