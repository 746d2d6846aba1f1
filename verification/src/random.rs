//! Random identifiers for topic directories and connections.

use vstd::prelude::*;

verus! {

/// Whether `c` is an ASCII letter or an ASCII digit.
pub open spec fn is_alphanumeric(c: char) -> bool {
    let code = c as u32;
    (48 <= code <= 57) || (65 <= code <= 90) || (97 <= code <= 122)
}

/// Whether `text` is made of `count` ASCII letters and digits.
pub open spec fn is_identifier(text: Seq<char>, count: int) -> bool {
    &&& text.len() == count
    &&& forall|i: int| 0 <= i < text.len() ==> is_alphanumeric(#[trigger] text[i])
}

/// Calls `rand::Rng::sample_iter` on the generator of `rand::thread_rng` with
/// the distribution `rand::distributions::Alphanumeric`, and takes `count`
/// characters from it. That distribution gives ASCII letters and digits
/// only; which ones is left to chance, so nothing more is stated.
#[verifier::external_body]
pub(crate) fn random_alphanumeric(count: usize) -> (text: String)
    ensures
        is_identifier(text@, count as int),
{
    let source = rand::Rng::sample_iter(rand::thread_rng(), &rand::distributions::Alphanumeric);
    source.take(count).map(char::from).collect()
}

} // verus!
