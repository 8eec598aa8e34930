//! Laws: what holds of every text and of every result.
use crate::derivation::{all_whitespace, derives, Derivation};
use crate::error::ParseError;
use crate::grammar::document;
use crate::laws::completeness::law_derived_text_is_document;
use crate::laws::soundness::law_document_is_derived;
use crate::parser::parses_to;
use crate::value::{Json, JsonResult};
use vstd::prelude::*;

pub mod completeness;
pub mod soundness;
pub mod whitespace;

verus! {

/// The documents are exactly the valid JSON texts: `text` is read as a
/// document that denotes `value` if and only if the grammar derives `text`
/// for `value` within the nesting limit. So every valid document is
/// accepted with the value it denotes, and every other text is refused.
pub proof fn law_documents_are_the_derived_texts(text: Seq<char>, max_depth: nat, value: Json)
    ensures
        document(text, max_depth) == Ok::<Json, ParseError>(value) <==> derives(
            text,
            max_depth,
            value,
        ),
{
    if document(text, max_depth) == Ok::<Json, ParseError>(value) {
        law_document_is_derived(text, max_depth);
    }
    if derives(text, max_depth, value) {
        let (before, derivation, after): (Seq<char>, Derivation, Seq<char>) = choose|
            before: Seq<char>,
            derivation: Derivation,
            after: Seq<char>,
        |
            #![auto]
            {
                &&& all_whitespace(before)
                &&& all_whitespace(after)
                &&& derivation.valid()
                &&& derivation.nests_within(max_depth)
                &&& derivation.value() == value
                &&& text == before + derivation.text() + after
            };
        law_derived_text_is_document(before, derivation, after, max_depth);
    }
}

/// Parsing is deterministic: two results of parsing the same text with the
/// same nesting limit are both values that denote the same, or both the same
/// error.
pub proof fn law_parse_deterministic(
    text: Seq<char>,
    max_depth: nat,
    first: Result<JsonResult, ParseError>,
    second: Result<JsonResult, ParseError>,
)
    requires
        parses_to(text, max_depth, first),
        parses_to(text, max_depth, second),
    ensures
        match first {
            Ok(a) => second matches Ok(b) && a@ == b@,
            Err(e) => second == Err::<JsonResult, ParseError>(e),
        },
{
}

} // verus!
