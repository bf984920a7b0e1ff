//! The chardetng boundary (trusted).
use vstd::prelude::*;

verus! {

/// The encoding name that chardetng guesses for `bytes` fed as one buffer,
/// with `last` telling whether the stream ends there, no TLD hint and UTF-8
/// allowed.
pub uninterp spec fn chardet_guess(bytes: Seq<u8>, last: bool) -> Seq<char>;

/// chardetng `EncodingDetector::new`, one `feed(bytes, last)`, then
/// `guess(None, true)` and the guessed encoding's `name()`. Trusted: the
/// result is the named `chardet_guess` of the arguments.
#[verifier::external_body]
pub(crate) fn chardet_label(bytes: &[u8], last: bool) -> (r: &'static str)
    ensures
        r@ == chardet_guess(bytes@, last),
{
    let mut detector = chardetng::EncodingDetector::new();
    detector.feed(bytes, last);
    detector.guess(None, true).name()
}

} // verus!
