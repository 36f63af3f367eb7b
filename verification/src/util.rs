//! Small helpers shared between inference and loading.

use crate::text;
use vstd::prelude::*;

verus! {

/// A cell that counts as missing: an empty one, or one of the tokens.
pub open spec fn null(value: Seq<char>, null_tokens: Seq<Seq<char>>) -> bool {
    value.len() == 0 || null_tokens.contains(value)
}

/// A CSV cell is treated as SQL `NULL` when it is empty or matches one of
/// the caller-configured null tokens (e.g. `\N`, `NA`). Keeping this in one
/// place guarantees that inference and loading agree on what counts as a
/// missing value.
pub fn is_null(value: &str, null_tokens: &[String]) -> (out: bool)
    ensures
        out == null(value@, text::texts(null_tokens@)),
{
    if value.is_empty() {
        return true;
    }
    for i in 0..null_tokens.len()
        invariant
            forall|j: int| 0 <= j < i ==> #[trigger] text::texts(null_tokens@)[j] != value@,
    {
        if text::same(null_tokens[i].as_str(), value) {
            assert(text::texts(null_tokens@)[i as int] == value@);
            return true;
        }
    }
    false
}

/// What a cell holds: nothing, where it counts as missing.
pub open spec fn cell(value: Seq<char>, null_tokens: Seq<Seq<char>>) -> Option<Seq<char>> {
    if null(value, null_tokens) {
        None
    } else {
        Some(value)
    }
}

/// A cell is missing exactly if it is empty or one of the tokens, and holds
/// its own text otherwise.
pub proof fn lemma_missing(value: Seq<char>, null_tokens: Seq<Seq<char>>)
    ensures
        null(value, null_tokens) <==> value.len() == 0 || exists|i: int|
            0 <= i < null_tokens.len() && #[trigger] null_tokens[i] == value,
        cell(value, null_tokens) == if null(value, null_tokens) {
            None
        } else {
            Some(value)
        },
{
}

} // verus!
