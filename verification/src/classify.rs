//! Classification of an optional integer into a sign category.

use vstd::prelude::*;

verus! {

/// The category name that `classify` must return for a given value:
/// `"positive"`, `"zero"` or `"negative"` for a present value according
/// to its sign, and `"none"` when no value is present.
pub open spec fn spec_classify(value: Option<i32>) -> Seq<char> {
    match value {
        Some(v) => if v > 0 {
            "positive"@
        } else if v == 0 {
            "zero"@
        } else {
            "negative"@
        },
        None => "none"@,
    }
}

/// Names the sign of an optional integer.
pub fn classify(value: Option<i32>) -> (r: &'static str)
    ensures
        r@ == spec_classify(value),
{
    match value {
        Some(v) if v > 0 => "positive",
        Some(0) => "zero",
        Some(_) => "negative",
        None => "none",
    }
}

} // verus!
