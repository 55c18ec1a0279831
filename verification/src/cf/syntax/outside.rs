//! What the textual form takes from outside.

use crate::cf::syntax::grammar::Grammar;
use pliron::identifier::Identifier;
use vstd::prelude::*;

verus! {

/// `String::push` puts one character at the end of the string.
pub assume_specification[ String::push ](s: &mut String, c: char)
    ensures
        final(s)@ == old(s)@.push(c),
;

/// Asks `pliron::identifier::Identifier::is_valid` whether the text can name an entity: it is
/// an ASCII letter or an underscore, followed by ASCII letters, digits and underscores.
#[verifier::external_body]
pub(crate) fn is_identifier(text: &str) -> (valid: bool)
    ensures
        valid == Grammar::is_identifier(text@),
{
    Identifier::is_valid(text)
}

} // verus!
