//! Undoing a patch by content: a file is restored only when it still holds
//! exactly what the patch wrote.
use vstd::prelude::*;

use crate::text::{owned, str_eq};

verus! {

/// The text to write back to a patched file: the original when the file
/// still holds exactly the patched text, else `None` (the file is left as
/// it is).
pub fn exact_state_reversal(current: &str, expected_patched: &str, original: &str) -> (r: Option<
    String,
>)
    ensures
        current@ == expected_patched@ ==> (r matches Some(t) && t@ == original@),
        current@ != expected_patched@ ==> r is None,
{
    if str_eq(current, expected_patched) {
        Some(owned(original))
    } else {
        None
    }
}

} // verus!
