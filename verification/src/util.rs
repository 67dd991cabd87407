use vstd::prelude::*;

verus! {

/// The given string where it is non-empty, and `default` otherwise.
pub fn unless_empty(s: String, default: &str) -> (r: String)
    ensures
        s@.len() == 0 ==> r@ == default@,
        s@.len() > 0 ==> r@ == s@,
{
    if s.as_str().is_empty() {
        String::from_str(default)
    } else {
        s
    }
}

} // verus!
