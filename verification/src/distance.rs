use core::cmp::Ordering;
use vstd::prelude::*;

verus! {

/// How many stones a side still has to place to reach a cell from its
/// starting edge.
///
/// `Unreachable` marks a cell the side cannot enter. `Unexplored` marks a
/// cell that no path has reached. Values are ordered: a smaller count
/// first, then `Unexplored`, then `Unreachable`.
#[derive(Debug, Clone, Copy, PartialEq, Eq, Ord, Structural)]
pub enum Distance {
    Reachable(usize),
    Unexplored,
    Unreachable,
}

impl Distance {
    /// The place of a value in the order, as a number: the count itself for
    /// a reachable cell, and two values above every count for the others.
    pub open spec fn rank(self) -> int {
        match self {
            Distance::Reachable(d) => d as int,
            Distance::Unexplored => usize::MAX + 1,
            Distance::Unreachable => usize::MAX + 2,
        }
    }

    /// The count of a reachable cell; nothing for the other two.
    pub open spec fn steps(self) -> Option<usize> {
        match self {
            Distance::Reachable(d) => Some(d),
            _ => None,
        }
    }

    pub open spec fn compare(self, other: Distance) -> Ordering {
        if self.rank() < other.rank() {
            Ordering::Less
        } else if self.rank() == other.rank() {
            Ordering::Equal
        } else {
            Ordering::Greater
        }
    }

    /// Compares two distances by `rank`.
    pub fn cmp(&self, other: &Distance) -> (o: Ordering)
        ensures
            o == self.compare(*other),
    {
        match (*self, *other) {
            (Distance::Reachable(a), Distance::Reachable(b)) => {
                if a < b {
                    Ordering::Less
                } else if a == b {
                    Ordering::Equal
                } else {
                    Ordering::Greater
                }
            },
            (Distance::Reachable(_), _) => Ordering::Less,
            (_, Distance::Reachable(_)) => Ordering::Greater,
            (Distance::Unexplored, Distance::Unexplored) => Ordering::Equal,
            (Distance::Unreachable, Distance::Unreachable) => Ordering::Equal,
            (Distance::Unreachable, Distance::Unexplored) => Ordering::Greater,
            (Distance::Unexplored, Distance::Unreachable) => Ordering::Less,
        }
    }

    /// The smaller of two distances; the first where they are equal.
    pub fn min(self, other: Distance) -> (m: Distance)
        ensures
            m == if other.rank() < self.rank() {
                other
            } else {
                self
            },
    {
        match self.cmp(&other) {
            Ordering::Greater => other,
            _ => self,
        }
    }

    /// The count of a reachable cell; nothing for the other two.
    pub fn to_option(self) -> (r: Option<usize>)
        ensures
            r == self.steps(),
    {
        match self {
            Distance::Reachable(value) => Some(value),
            Distance::Unreachable | Distance::Unexplored => None,
        }
    }
}

impl From<Distance> for Option<usize> {
    /// The count of a reachable cell; nothing for the other two.
    fn from(distance: Distance) -> (r: Option<usize>) {
        distance.to_option()
    }
}

impl vstd::std_specs::convert::FromSpecImpl<Distance> for Option<usize> {
    open spec fn obeys_from_spec() -> bool {
        true
    }

    open spec fn from_spec(distance: Distance) -> Option<usize> {
        distance.steps()
    }
}

impl PartialOrd for Distance {
    fn partial_cmp(&self, other: &Distance) -> (o: Option<Ordering>) {
        Some(self.cmp(other))
    }
}

impl vstd::std_specs::cmp::PartialOrdSpecImpl for Distance {
    open spec fn obeys_partial_cmp_spec() -> bool {
        true
    }

    open spec fn partial_cmp_spec(&self, other: &Distance) -> Option<Ordering> {
        Some(self.compare(*other))
    }
}

/// The order of distances is total: it is transitive, and two distances
/// compare equal only when they are the same value.
pub proof fn lemma_distance_order(a: Distance, b: Distance, c: Distance)
    ensures
        a.compare(b) == Ordering::Equal <==> a == b,
        a.compare(b) == Ordering::Less <==> b.compare(a) == Ordering::Greater,
        a.compare(b) == Ordering::Less && b.compare(c) == Ordering::Less ==> a.compare(c)
            == Ordering::Less,
{
}

} // verus!
