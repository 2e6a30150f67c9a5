//! The first thing that is found by a list of checks.

use vstd::prelude::*;

verus! {

/// What the first of `n` checks finds that finds something.
pub open spec fn first_of<T>(checks: spec_fn(int) -> Option<T>, n: int) -> Option<T>
    decreases n,
{
    if n <= 0 {
        None
    } else {
        match first_of(checks, n - 1) {
            Some(found) => Some(found),
            None => checks(n - 1),
        }
    }
}

/// Checks after the one that finds something do not count.
pub proof fn first_stays<T>(checks: spec_fn(int) -> Option<T>, m: int, n: int)
    requires
        m <= n,
        first_of(checks, m) is Some,
    ensures
        first_of(checks, n) == first_of(checks, m),
    decreases n - m,
{
    if m < n {
        first_stays(checks, m, n - 1);
    }
}

/// Nothing is found first where no check finds anything.
pub proof fn none_is_first<T>(checks: spec_fn(int) -> Option<T>, n: int)
    ensures
        first_of(checks, n) is None <==> forall|i: int|
            0 <= i < n ==> (#[trigger] checks(i)) is None,
    decreases n,
{
    if n > 0 {
        none_is_first(checks, n - 1);
    }
}

} // verus!
