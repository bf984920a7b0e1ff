//! The unicode-script boundary (trusted).
use unicode_script::UnicodeScript;
use vstd::prelude::*;

verus! {

/// The full Unicode script name (such as "Han" or "Common") that
/// unicode-script assigns to `ch`.
pub uninterp spec fn unicode_script_name(ch: char) -> Seq<char>;

/// unicode-script `UnicodeScript::script` followed by `Script::full_name`.
/// Trusted: the result is the named `unicode_script_name` of the character.
#[verifier::external_body]
pub(crate) fn script_full_name(ch: char) -> (r: &'static str)
    ensures
        r@ == unicode_script_name(ch),
{
    ch.script().full_name()
}

} // verus!
