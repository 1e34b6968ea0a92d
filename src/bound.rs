//! Binary searches over a slice that is sorted with respect to a probe.
use core::cmp::Ordering;
use vstd::prelude::*;
use vstd::std_specs::cmp::OrdSpec;

verus! {

/// Index of the first position whose element is not less than a probe.
pub trait LowerBound<T> {
    /// Number of elements searched.
    spec fn size(&self) -> nat;

    /// The element at `i` is strictly less than `x`.
    spec fn below(&self, x: &T, i: int) -> bool;

    /// The elements compare in a way that the search can observe.
    spec fn comparable(&self) -> bool;

    fn lower_bound(&self, x: &T) -> (r: usize)
        ensures
            r <= self.size(),
            (self.comparable() && (forall|i: int, j: int|
                0 <= i <= j < self.size() && #[trigger] self.below(x, j) ==> #[trigger] self.below(
                    x,
                    i,
                ))) ==> {
                &&& forall|i: int| 0 <= i < r ==> #[trigger] self.below(x, i)
                &&& forall|i: int| r <= i < self.size() ==> !#[trigger] self.below(x, i)
            },
    ;
}

/// Index of the first position whose element is greater than a probe.
pub trait UpperBound<T> {
    /// Number of elements searched.
    spec fn size(&self) -> nat;

    /// The element at `i` is less than or equal to `x`.
    spec fn not_above(&self, x: &T, i: int) -> bool;

    /// The elements compare in a way that the search can observe.
    spec fn comparable(&self) -> bool;

    fn upper_bound(&self, x: &T) -> (r: usize)
        ensures
            r <= self.size(),
            (self.comparable() && (forall|i: int, j: int|
                0 <= i <= j < self.size() && #[trigger] self.not_above(x, j)
                    ==> #[trigger] self.not_above(x, i))) ==> {
                &&& forall|i: int| 0 <= i < r ==> #[trigger] self.not_above(x, i)
                &&& forall|i: int| r <= i < self.size() ==> !#[trigger] self.not_above(x, i)
            },
    ;
}

impl<T: Ord> LowerBound<T> for [T] {
    open spec fn size(&self) -> nat {
        self@.len()
    }

    open spec fn below(&self, x: &T, i: int) -> bool {
        self@[i].cmp_spec(x) == Ordering::Less
    }

    open spec fn comparable(&self) -> bool {
        T::obeys_cmp_spec()
    }

    fn lower_bound(&self, x: &T) -> (r: usize) {
        let ghost ordered = T::obeys_cmp_spec() && forall|i: int, j: int|
            0 <= i <= j < self@.len() && #[trigger] self.below(x, j) ==> #[trigger] self.below(
                x,
                i,
            );
        let mut low: usize = 0;
        let mut high: usize = self.len();
        while low != high
            invariant
                low <= high <= self@.len(),
                ordered ==> T::obeys_cmp_spec(),
                ordered ==> forall|i: int, j: int|
                    0 <= i <= j < self@.len() && #[trigger] self.below(x, j) ==> #[trigger] self.below(
                        x,
                        i,
                    ),
                ordered ==> forall|i: int| 0 <= i < low ==> #[trigger] self.below(x, i),
                ordered ==> forall|i: int| high <= i < self@.len() ==> !#[trigger] self.below(x, i),
            decreases high - low,
        {
            let mid = low + (high - low) / 2;
            match self[mid].cmp(x) {
                Ordering::Less => {
                    assert(ordered ==> self.below(x, mid as int));
                    low = mid + 1;
                },
                Ordering::Equal | Ordering::Greater => {
                    assert(ordered ==> !self.below(x, mid as int));
                    high = mid;
                },
            }
        }
        low
    }
}

impl<T: Ord> UpperBound<T> for [T] {
    open spec fn size(&self) -> nat {
        self@.len()
    }

    open spec fn not_above(&self, x: &T, i: int) -> bool {
        self@[i].cmp_spec(x) != Ordering::Greater
    }

    open spec fn comparable(&self) -> bool {
        T::obeys_cmp_spec()
    }

    fn upper_bound(&self, x: &T) -> (r: usize) {
        let ghost ordered = T::obeys_cmp_spec() && forall|i: int, j: int|
            0 <= i <= j < self@.len() && #[trigger] self.not_above(x, j) ==> #[trigger] self.not_above(
                x,
                i,
            );
        let mut low: usize = 0;
        let mut high: usize = self.len();
        while low != high
            invariant
                low <= high <= self@.len(),
                ordered ==> T::obeys_cmp_spec(),
                ordered ==> forall|i: int, j: int|
                    0 <= i <= j < self@.len() && #[trigger] self.not_above(x, j)
                        ==> #[trigger] self.not_above(x, i),
                ordered ==> forall|i: int| 0 <= i < low ==> #[trigger] self.not_above(x, i),
                ordered ==> forall|i: int| high <= i < self@.len() ==> !#[trigger] self.not_above(
                    x,
                    i,
                ),
            decreases high - low,
        {
            let mid = low + (high - low) / 2;
            match self[mid].cmp(x) {
                Ordering::Less | Ordering::Equal => {
                    assert(ordered ==> self.not_above(x, mid as int));
                    low = mid + 1;
                },
                Ordering::Greater => {
                    assert(ordered ==> !self.not_above(x, mid as int));
                    high = mid;
                },
            }
        }
        low
    }
}

} // verus!
