//! How often something may appear.

use vstd::prelude::*;

verus! {

/// A bound of how often something may appear.
#[derive(Clone, Copy, Debug, PartialEq, Eq, Structural)]
pub enum Bound {
    /// It may appear that often, too.
    Included(usize),

    /// It may not appear that often.
    Excluded(usize),

    /// There is no bound.
    Unbounded,
}

impl Bound {
    /// How often something has to appear if `self` is its lower bound.
    pub open spec fn least(self) -> int {
        match self {
            Bound::Included(n) => n as int,
            Bound::Excluded(n) => n + 1,
            Bound::Unbounded => 0,
        }
    }

    /// How often something may appear if `self` is its upper bound, if there is
    /// a limit to it. Nothing appears less often than not at all.
    pub open spec fn most(self) -> Option<int> {
        match self {
            Bound::Included(n) => Some(n as int),
            Bound::Excluded(n) => Some(
                if n == 0 {
                    0
                } else {
                    n - 1
                },
            ),
            Bound::Unbounded => None,
        }
    }

    /// Whether something may appear `n` times if `self` is its lower bound.
    pub open spec fn is_below(self, n: nat) -> bool {
        match self {
            Bound::Included(m) => m <= n,
            Bound::Excluded(m) => m < n,
            Bound::Unbounded => true,
        }
    }

    /// Whether something may appear `n` times if `self` is its upper bound.
    pub open spec fn is_above(self, n: nat) -> bool {
        match self {
            Bound::Included(m) => n <= m,
            Bound::Excluded(m) => n < m,
            Bound::Unbounded => true,
        }
    }
}

/// Returns how often something has to appear, and how often it may, if there is
/// a limit to it, that appears as often as the two bounds allow.
pub fn limits(start: Bound, end: Bound) -> (r: (usize, Option<usize>))
    requires
        start != Bound::Excluded(usize::MAX),
    ensures
        r.0 == start.least(),
        match r.1 {
            Some(max) => end.most() == Some(max as int),
            None => end.most() is None,
        },
{
    let min: usize = match start {
        Bound::Included(n) => n,
        Bound::Excluded(n) => n + 1,
        Bound::Unbounded => 0,
    };
    let max: Option<usize> = match end {
        Bound::Included(n) => Some(n),
        Bound::Excluded(n) => Some(
            if n == 0 {
                0
            } else {
                n - 1
            },
        ),
        Bound::Unbounded => None,
    };
    (min, max)
}

/// The limits of two bounds allow what the bounds allow, unless the upper one
/// excludes everything.
pub proof fn law_limits_are_those_of_the_bounds(start: Bound, end: Bound, n: nat)
    requires
        end != Bound::Excluded(0),
    ensures
        start.is_below(n) && end.is_above(n) <==> {
            &&& start.least() <= n
            &&& end.most() matches Some(max) ==> n <= max
        },
{
}

/// The limits of every bound: one that is included is a limit itself, one that is
/// excluded is next to it, and there is none without a bound. What is excluded
/// altogether may still be left out.
pub proof fn law_limits_are_next_to_what_is_excluded(n: usize)
    ensures
        Bound::Included(n).least() == n,
        Bound::Included(n).most() == Some(n as int),
        Bound::Excluded(n).least() == n + 1,
        n > 0 ==> Bound::Excluded(n).most() == Some(n - 1),
        n == 0 ==> Bound::Excluded(n).most() == Some(0int),
        Bound::Unbounded.least() == 0,
        Bound::Unbounded.most() is None,
{
}

/// Something may appear as often as a bound says that includes it, and may not if
/// the bound excludes it, and what is between two numbers it may appear as often
/// as it may, too.
pub proof fn law_bounds_allow_what_is_between(start: Bound, end: Bound, n: usize, m: nat)
    ensures
        Bound::Included(n).is_below(n as nat) && Bound::Included(n).is_above(n as nat),
        !Bound::Excluded(n).is_below(n as nat) && !Bound::Excluded(n).is_above(n as nat),
        n > 0 ==> !Bound::Included(n).is_below((n - 1) as nat),
        !Bound::Included(n).is_above((n + 1) as nat),
        Bound::Excluded(n).is_below((n + 1) as nat),
        n > 0 ==> Bound::Excluded(n).is_above((n - 1) as nat),
        Bound::Unbounded.is_below(m) && Bound::Unbounded.is_above(m),
        start.is_below(m) ==> start.is_below(m + 1),
        m > 0 && end.is_above(m) ==> end.is_above((m - 1) as nat),
{
}

} // verus!
