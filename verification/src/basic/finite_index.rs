use vstd::prelude::*;

verus! {

/// Unsigned finite natural number type, with values in `[0, N)`.
/// Used for indexing a collection of `N` elements.
#[derive(Clone, Copy, PartialEq, Eq, Debug, Hash, PartialOrd, Ord)]
pub struct FiniteIndex<const N: usize>(usize);

impl<const N: usize> View for FiniteIndex<N> {
    type V = nat;

    closed spec fn view(&self) -> nat {
        self.0 as nat
    }
}

/// The index that is `v` steps from the bottom of `[0, N)`, if it lies inside.
pub open spec fn in_range(v: int, n: nat) -> bool {
    0 <= v < n
}

impl<const N: usize> FiniteIndex<N> {
    #[verifier::type_invariant]
    spec fn inv(self) -> bool {
        self.0 < N
    }

    /// Creates a FiniteIndex from a raw usize value.
    /// The value must lie in `[0, N)`.
    pub fn raw(value: usize) -> (r: Self)
        requires
            value < N,
        ensures
            r@ == value,
    {
        FiniteIndex(value)
    }

    /// `0 ∈ [0, N)` where `N > 0`
    pub fn zero() -> (r: Self)
        requires
            N > 0,
        ensures
            r@ == 0,
    {
        FiniteIndex(0)
    }

    /// `(N - 1) ∈ [0, N)` where `N > 0`
    pub fn max() -> (r: Self)
        requires
            N > 0,
        ensures
            r@ == N - 1,
    {
        FiniteIndex(N - 1)
    }

    /// The underlying value, which always lies in `[0, N)`.
    pub fn index(&self) -> (r: usize)
        ensures
            r == self@,
            r < N,
    {
        proof {
            use_type_invariant(self);
        }
        self.0
    }

    /// The underlying value as a u64.
    pub fn to_u64(self) -> (r: u64)
        ensures
            r == self@,
            r < N,
    {
        proof {
            use_type_invariant(&self);
        }
        self.0 as u64
    }

    /// Tries to convert a raw value, returning `None` when out of bounds.
    pub fn try_from_usize(value: usize) -> (r: Option<Self>)
        ensures
            value < N <==> r is Some,
            r matches Some(i) ==> i@ == value,
    {
        if value < N {
            Some(FiniteIndex(value))
        } else {
            None
        }
    }

    /// Shifts the value by the given amount,
    /// staying within bounds by capping/saturating at the edges.
    pub fn shift(&self, by: isize) -> (r: Self)
        requires
            N > 0,
        ensures
            r@ == (if self@ + by < 0 {
                0
            } else if self@ + by >= N {
                N - 1
            } else {
                self@ + by
            }),
    {
        proof {
            use_type_invariant(self);
        }
        let v: i128 = self.0 as i128 + by as i128;
        if v < 0 {
            FiniteIndex(0)
        } else if v >= N as i128 {
            FiniteIndex(N - 1)
        } else {
            FiniteIndex(v as usize)
        }
    }

    /// Adds the given amount to the value,
    /// staying within bounds by capping at the maximum.
    pub fn add_usize(&self, by: usize) -> (r: Self)
        requires
            N > 0,
        ensures
            r@ == (if self@ + by >= N {
                N - 1
            } else {
                self@ + by
            }),
    {
        proof {
            use_type_invariant(self);
        }
        if by >= N - self.0 {
            FiniteIndex(N - 1)
        } else {
            FiniteIndex(self.0 + by)
        }
    }

    /// Subtracts the given amount from the value,
    /// staying within bounds by capping at zero.
    pub fn sub_usize(&self, by: usize) -> (r: Self)
        ensures
            r@ == (if self@ < by {
                0
            } else {
                self@ - by
            }),
    {
        proof {
            use_type_invariant(self);
        }
        if self.0 < by {
            FiniteIndex(0)
        } else {
            FiniteIndex(self.0 - by)
        }
    }

    /// Tries to shift the value by the given amount,
    /// returning None when out of bounds
    pub fn try_shift(&self, by: isize) -> (r: Option<Self>)
        ensures
            in_range(self@ + by, N as nat) <==> r is Some,
            r matches Some(i) ==> i@ == self@ + by,
    {
        proof {
            use_type_invariant(self);
        }
        let v: i128 = self.0 as i128 + by as i128;
        if 0 <= v && v < N as i128 {
            Some(FiniteIndex(v as usize))
        } else {
            None
        }
    }

    /// Tries to add the given amount to the value,
    /// returning None when out of bounds
    pub fn try_add_usize(&self, by: usize) -> (r: Option<Self>)
        ensures
            self@ + by < N <==> r is Some,
            r matches Some(i) ==> i@ == self@ + by,
    {
        proof {
            use_type_invariant(self);
        }
        if by < N - self.0 {
            Some(FiniteIndex(self.0 + by))
        } else {
            None
        }
    }

    /// Tries to subtract the given amount from the value,
    /// returning None when out of bounds
    pub fn try_sub_usize(&self, by: usize) -> (r: Option<Self>)
        ensures
            self@ >= by <==> r is Some,
            r matches Some(i) ==> i@ == self@ - by,
    {
        proof {
            use_type_invariant(self);
        }
        if self.0 >= by {
            Some(FiniteIndex(self.0 - by))
        } else {
            None
        }
    }
}

} // verus!
