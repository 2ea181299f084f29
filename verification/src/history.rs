//! The entries of the history of replies. The database that keeps them is
//! run by the application.

use vstd::prelude::*;

verus! {

/// A reply kept in the history: the raw input, the reply the model
/// generated, the reply the user approved or discarded, whether it was
/// approved and edited, the model, the creation time (Unix seconds) and the
/// category found for it.
#[derive(Clone, Debug)]
pub struct Entry {
    pub id: i64,
    pub raw_input: String,
    pub ai_raw_output: String,
    pub final_output: String,
    pub approved: bool,
    pub edited: bool,
    pub model: String,
    pub created_at: i64,
    pub category: Option<String>,
}

/// A reply counts as edited when the text the user kept differs from the
/// text the model generated.
pub fn entry_edited(ai_raw_output: &str, final_output: &str) -> (r: bool)
    ensures
        r == (ai_raw_output@ != final_output@),
{
    let a = crate::text::chars_of(ai_raw_output);
    let b = crate::text::chars_of(final_output);
    !crate::stats::eq_chars(&a, &b)
}

} // verus!
