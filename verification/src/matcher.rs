//! Matchers over one dimension: a single value, a range or a list of values.
use vstd::prelude::*;
use crate::irange::{IRange, Scalar};

verus! {

pub trait DimMatcher<T: Scalar> {
    /// The matcher accepts the value `v`.
    spec fn matches(&self, v: int) -> bool;

    /// The matcher is well formed (a range matcher needs a well-formed range).
    spec fn matcher_wf(&self) -> bool;

    fn match_scalar(&self, scalar: T) -> (r: bool)
        requires
            self.matcher_wf(),
        ensures
            r == self.matches(scalar.val()),
    ;

    fn match_range(&self, range: IRange<T>) -> (r: bool)
        requires
            self.matcher_wf(),
            range.wf(),
        ensures
            r == (exists|v: int| #[trigger] range.has(v) && self.matches(v)),
    ;
}

/// Match against a single element
impl DimMatcher<u32> for u32 {
    open spec fn matches(&self, v: int) -> bool {
        v == *self as int
    }

    open spec fn matcher_wf(&self) -> bool {
        true
    }

    fn match_scalar(&self, scalar: u32) -> (r: bool) {
        *self == scalar
    }

    fn match_range(&self, range: IRange<u32>) -> (r: bool) {
        let r = range.contains(*self);
        proof {
            if r {
                assert(range.has(*self as int) && self.matches(*self as int));
            }
        }
        r
    }
}

/// Match against a range of element
impl DimMatcher<u32> for IRange<u32> {
    open spec fn matches(&self, v: int) -> bool {
        self.has(v)
    }

    open spec fn matcher_wf(&self) -> bool {
        self.wf()
    }

    fn match_scalar(&self, scalar: u32) -> (r: bool) {
        self.contains(scalar)
    }

    fn match_range(&self, range: IRange<u32>) -> (r: bool) {
        proof {
            crate::irange::law_disjoint_iff_no_common_value(*self, range);
        }
        let r = !self.is_disjoint(&range);
        proof {
            if r {
                let v = choose|v: int| !(self.has(v) && range.has(v));
                let w = choose|w: int| self.has(w) && range.has(w);
                assert(range.has(w) && self.matches(w));
            }
        }
        r
    }
}

/// Match against a list of elements
impl<'a> DimMatcher<u32> for &'a [u32] {
    open spec fn matches(&self, v: int) -> bool {
        exists|i: int| 0 <= i < self@.len() && self@[i] as int == v
    }

    open spec fn matcher_wf(&self) -> bool {
        true
    }

    fn match_scalar(&self, scalar: u32) -> (r: bool) {
        let mut i: usize = 0;
        while i < self.len()
            invariant
                i <= self@.len(),
                forall|j: int| 0 <= j < i ==> self@[j] != scalar,
            decreases self@.len() - i,
        {
            if self[i] == scalar {
                return true;
            }
            i = i + 1;
        }
        false
    }

    fn match_range(&self, range: IRange<u32>) -> (r: bool) {
        let mut i: usize = 0;
        while i < self.len()
            invariant
                i <= self@.len(),
                forall|j: int| 0 <= j < i ==> !range.has(self@[j] as int),
            decreases self@.len() - i,
        {
            if range.contains(self[i]) {
                proof {
                    assert(range.has(self@[i as int] as int) && self.matches(self@[i as int] as int));
                }
                return true;
            }
            i = i + 1;
        }
        proof {
            assert forall|v: int| !(#[trigger] range.has(v) && self.matches(v)) by {
                if range.has(v) && self.matches(v) {
                    let k = choose|k: int| 0 <= k < self@.len() && self@[k] as int == v;
                    assert(!range.has(self@[k] as int));
                }
            }
        }
        false
    }
}

/// Match against a single element
impl DimMatcher<u64> for u64 {
    open spec fn matches(&self, v: int) -> bool {
        v == *self as int
    }

    open spec fn matcher_wf(&self) -> bool {
        true
    }

    fn match_scalar(&self, scalar: u64) -> (r: bool) {
        *self == scalar
    }

    fn match_range(&self, range: IRange<u64>) -> (r: bool) {
        let r = range.contains(*self);
        proof {
            if r {
                assert(range.has(*self as int) && self.matches(*self as int));
            }
        }
        r
    }
}

/// Match against a range of element
impl DimMatcher<u64> for IRange<u64> {
    open spec fn matches(&self, v: int) -> bool {
        self.has(v)
    }

    open spec fn matcher_wf(&self) -> bool {
        self.wf()
    }

    fn match_scalar(&self, scalar: u64) -> (r: bool) {
        self.contains(scalar)
    }

    fn match_range(&self, range: IRange<u64>) -> (r: bool) {
        proof {
            crate::irange::law_disjoint_iff_no_common_value(*self, range);
        }
        let r = !self.is_disjoint(&range);
        proof {
            if r {
                let v = choose|v: int| !(self.has(v) && range.has(v));
                let w = choose|w: int| self.has(w) && range.has(w);
                assert(range.has(w) && self.matches(w));
            }
        }
        r
    }
}

/// Match against a list of elements
impl<'a> DimMatcher<u64> for &'a [u64] {
    open spec fn matches(&self, v: int) -> bool {
        exists|i: int| 0 <= i < self@.len() && self@[i] as int == v
    }

    open spec fn matcher_wf(&self) -> bool {
        true
    }

    fn match_scalar(&self, scalar: u64) -> (r: bool) {
        let mut i: usize = 0;
        while i < self.len()
            invariant
                i <= self@.len(),
                forall|j: int| 0 <= j < i ==> self@[j] != scalar,
            decreases self@.len() - i,
        {
            if self[i] == scalar {
                return true;
            }
            i = i + 1;
        }
        false
    }

    fn match_range(&self, range: IRange<u64>) -> (r: bool) {
        let mut i: usize = 0;
        while i < self.len()
            invariant
                i <= self@.len(),
                forall|j: int| 0 <= j < i ==> !range.has(self@[j] as int),
            decreases self@.len() - i,
        {
            if range.contains(self[i]) {
                proof {
                    assert(range.has(self@[i as int] as int) && self.matches(self@[i as int] as int));
                }
                return true;
            }
            i = i + 1;
        }
        proof {
            assert forall|v: int| !(#[trigger] range.has(v) && self.matches(v)) by {
                if range.has(v) && self.matches(v) {
                    let k = choose|k: int| 0 <= k < self@.len() && self@[k] as int == v;
                    assert(!range.has(self@[k] as int));
                }
            }
        }
        false
    }
}

} // verus!
