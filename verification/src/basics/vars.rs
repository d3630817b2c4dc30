//! Functions on integers and strings.
use vstd::prelude::*;

verus! {

use vstd::string::StringExecFns;

/// Twice `n`.
pub fn doble(n: i32) -> (r: i32)
    requires
        i32::MIN <= 2 * n <= i32::MAX,
    ensures
        r == 2 * n,
{
    n * 2
}

/// Gives `s` back.
pub fn green(s: String) -> (r: String)
    ensures
        r == s,
{
    s
}

/// Puts `Hello ` in front of `s`.
pub fn gree_borrow_mut(s: &mut String)
    ensures
        final(s)@ == "Hello "@ + old(s)@,
{
    let mut greeting = String::from_str("Hello ");
    greeting.append(s.as_str());
    *s = greeting;
}

/// The sum of `left` and `right`.
pub fn add(left: u64, right: u64) -> (r: u64)
    requires
        left + right <= u64::MAX,
    ensures
        r == left + right,
{
    left + right
}

} // verus!
