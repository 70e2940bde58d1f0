//! Inclusive ranges over unsigned scalars.
use vstd::prelude::*;

verus! {

/// Floor of the base-2 logarithm of a positive number.
pub open spec fn floor_log2(n: nat) -> nat
    decreases n,
{
    if n <= 1 {
        0
    } else {
        1 + floor_log2(n / 2)
    }
}

/// `2^k`
pub open spec fn pow2(k: nat) -> nat
    decreases k,
{
    if k == 0 {
        1
    } else {
        2 * pow2((k - 1) as nat)
    }
}

pub proof fn lemma_floor_log2_bounds(n: nat)
    requires
        n >= 1,
    ensures
        pow2(floor_log2(n)) <= n < pow2(floor_log2(n) + 1),
    decreases n,
{
    if n > 1 {
        let m = n / 2;
        lemma_floor_log2_bounds(m);
        assert(floor_log2(n) == 1 + floor_log2(m));
        assert(pow2(floor_log2(n)) == 2 * pow2(floor_log2(m)));
        assert(pow2(floor_log2(n) + 1) == 2 * pow2(floor_log2(m) + 1));
    } else {
        assert(floor_log2(n) == 0);
        assert(pow2(1) == 2 * pow2(0));
    }
}

/// Unsigned integer types a range can be built over.
pub trait Scalar: Copy + Sized {
    /// The mathematical value of a scalar.
    spec fn val(self) -> int;

    /// Largest representable value.
    spec fn max_val() -> int;

    /// Number of bits of the representation.
    spec fn bits_val() -> int;

    proof fn lemma_bounds(x: Self)
        ensures
            0 <= x.val() <= Self::max_val(),
            Self::max_val() >= 255,
            8 <= Self::bits_val() <= 128,
            Self::max_val() == pow2(Self::bits_val() as nat) - 1,
    ;

    proof fn lemma_injective(x: Self, y: Self)
        ensures
            x.val() == y.val() ==> x == y,
    ;

    proof fn lemma_surjective(v: int)
        requires
            0 <= v <= Self::max_val(),
        ensures
            exists|x: Self| x.val() == v,
    ;

    fn zero() -> (r: Self)
        ensures
            r.val() == 0,
    ;

    fn one() -> (r: Self)
        ensures
            r.val() == 1,
    ;

    fn max_value() -> (r: Self)
        ensures
            r.val() == Self::max_val(),
    ;

    fn bits() -> (r: u32)
        ensures
            r == Self::bits_val(),
    ;

    fn is_le(self, other: Self) -> (r: bool)
        ensures
            r == (self.val() <= other.val()),
    ;

    fn is_lt(self, other: Self) -> (r: bool)
        ensures
            r == (self.val() < other.val()),
    ;

    fn minus(self, other: Self) -> (r: Self)
        requires
            other.val() <= self.val(),
        ensures
            r.val() == self.val() - other.val(),
    ;

    fn plus(self, other: Self) -> (r: Self)
        requires
            self.val() + other.val() <= Self::max_val(),
        ensures
            r.val() == self.val() + other.val(),
    ;

    /// Checked add
    fn checked_add(self, other: Self) -> (r: Option<Self>)
        ensures
            match r {
                Some(s) => self.val() + other.val() <= Self::max_val() && s.val() == self.val()
                    + other.val(),
                None => self.val() + other.val() > Self::max_val(),
            },
    ;

    fn checked_ilog2(self) -> (r: Option<u32>)
        ensures
            match r {
                Some(k) => self.val() > 0 && k == floor_log2(self.val() as nat),
                None => self.val() == 0,
            },
    ;

    /// The value as a `usize`; the value must fit.
    fn into_usize(self) -> (r: usize)
        requires
            self.val() <= usize::MAX,
        ensures
            r == self.val(),
    ;
}

/// `floor_log2` of a nonzero `u128`, by repeated halving.
fn ilog2_u128(x: u128) -> (r: u32)
    requires
        x > 0,
    ensures
        r == floor_log2(x as nat),
{
    proof {
        lemma_pow2_widths();
        lemma_floor_log2_le_bits(x as nat);
    }
    let mut v = x;
    let mut k: u32 = 0;
    while v > 1
        invariant
            v >= 1,
            k + floor_log2(v as nat) == floor_log2(x as nat),
            floor_log2(x as nat) < 128,
        decreases v,
    {
        v = v / 2;
        k = k + 1;
    }
    k
}

proof fn lemma_pow2_step8(k: nat)
    ensures
        pow2(k + 8) == 256 * pow2(k),
    decreases k,
{
    if k == 0 {
        reveal_with_fuel(pow2, 9);
    } else {
        lemma_pow2_step8((k - 1) as nat);
        assert(pow2(k + 8) == 2 * pow2((k + 7) as nat));
    }
}

/// `pow2` agrees with the library's power of two.
pub proof fn lemma_pow2_is_std(k: nat)
    ensures
        pow2(k) == vstd::arithmetic::power2::pow2(k),
    decreases k,
{
    if k == 0 {
        vstd::arithmetic::power2::lemma2_to64();
    } else {
        lemma_pow2_is_std((k - 1) as nat);
        vstd::arithmetic::power2::lemma_pow2_unfold(k);
    }
}

/// `1 << k` on `usize` is `2^k`.
pub proof fn lemma_shl_one_usize(k: usize)
    requires
        k < usize::BITS,
    ensures
        (1usize << k) == pow2(k as nat),
        pow2(k as nat) <= usize::MAX,
{
    lemma_pow2_is_std(k as nat);
    vstd::bits::lemma_usize_pow2_no_overflow(k as nat);
    vstd::bits::lemma_usize_shl_is_mul(1, k);
}

/// Values of `pow2` at the widths of the unsigned types.
pub proof fn lemma_pow2_widths()
    ensures
        pow2(8) == 0x100,
        pow2(16) == 0x1_0000,
        pow2(32) == 0x1_0000_0000,
        pow2(64) == 0x1_0000_0000_0000_0000,
        pow2(128) == 0x1_0000_0000_0000_0000_0000_0000_0000_0000,
{
    lemma_pow2_step8(0);
    lemma_pow2_step8(8);
    lemma_pow2_step8(16);
    lemma_pow2_step8(24);
    lemma_pow2_step8(32);
    lemma_pow2_step8(40);
    lemma_pow2_step8(48);
    lemma_pow2_step8(56);
    lemma_pow2_step8(64);
    lemma_pow2_step8(72);
    lemma_pow2_step8(80);
    lemma_pow2_step8(88);
    lemma_pow2_step8(96);
    lemma_pow2_step8(104);
    lemma_pow2_step8(112);
    lemma_pow2_step8(120);
}

/// A number below `2^w` has its logarithm below `w`.
pub proof fn lemma_floor_log2_lt(n: nat, w: nat)
    requires
        n < pow2(w),
        n >= 1,
    ensures
        floor_log2(n) < w,
{
    lemma_floor_log2_bounds(n);
    if floor_log2(n) >= w {
        lemma_pow2_mono(w, floor_log2(n));
    }
}

proof fn lemma_floor_log2_le_bits(n: nat)
    requires
        n < pow2(128),
        n >= 1,
    ensures
        floor_log2(n) < 128,
{
    lemma_floor_log2_bounds(n);
    if floor_log2(n) >= 128 {
        lemma_pow2_mono(128, floor_log2(n));
    }
}

pub proof fn lemma_pow2_mono(a: nat, b: nat)
    requires
        a <= b,
    ensures
        pow2(a) <= pow2(b),
    decreases b,
{
    if a < b {
        lemma_pow2_mono(a, (b - 1) as nat);
    }
}

impl Scalar for u8 {
    open spec fn val(self) -> int {
        self as int
    }

    open spec fn max_val() -> int {
        u8::MAX as int
    }

    open spec fn bits_val() -> int {
        8
    }

    proof fn lemma_bounds(x: Self) {
        lemma_pow2_widths();
    }

    proof fn lemma_injective(x: Self, y: Self) {
    }

    proof fn lemma_surjective(v: int) {
        assert((v as u8).val() == v);
    }

    fn zero() -> (r: Self) {
        0
    }

    fn one() -> (r: Self) {
        1
    }

    fn max_value() -> (r: Self) {
        u8::MAX
    }

    fn bits() -> (r: u32) {
        u8::BITS
    }

    fn is_le(self, other: Self) -> (r: bool) {
        self <= other
    }

    fn is_lt(self, other: Self) -> (r: bool) {
        self < other
    }

    fn minus(self, other: Self) -> (r: Self) {
        self - other
    }

    fn plus(self, other: Self) -> (r: Self) {
        self + other
    }

    fn checked_add(self, other: Self) -> (r: Option<Self>) {
        u8::checked_add(self, other)
    }

    fn checked_ilog2(self) -> (r: Option<u32>) {
        if self == 0 {
            None
        } else {
            Some(ilog2_u128(self as u128))
        }
    }

    fn into_usize(self) -> (r: usize) {
        self as usize
    }
}

impl Scalar for u16 {
    open spec fn val(self) -> int {
        self as int
    }

    open spec fn max_val() -> int {
        u16::MAX as int
    }

    open spec fn bits_val() -> int {
        16
    }

    proof fn lemma_bounds(x: Self) {
        lemma_pow2_widths();
    }

    proof fn lemma_injective(x: Self, y: Self) {
    }

    proof fn lemma_surjective(v: int) {
        assert((v as u16).val() == v);
    }

    fn zero() -> (r: Self) {
        0
    }

    fn one() -> (r: Self) {
        1
    }

    fn max_value() -> (r: Self) {
        u16::MAX
    }

    fn bits() -> (r: u32) {
        u16::BITS
    }

    fn is_le(self, other: Self) -> (r: bool) {
        self <= other
    }

    fn is_lt(self, other: Self) -> (r: bool) {
        self < other
    }

    fn minus(self, other: Self) -> (r: Self) {
        self - other
    }

    fn plus(self, other: Self) -> (r: Self) {
        self + other
    }

    fn checked_add(self, other: Self) -> (r: Option<Self>) {
        u16::checked_add(self, other)
    }

    fn checked_ilog2(self) -> (r: Option<u32>) {
        if self == 0 {
            None
        } else {
            Some(ilog2_u128(self as u128))
        }
    }

    fn into_usize(self) -> (r: usize) {
        self as usize
    }
}

impl Scalar for u32 {
    open spec fn val(self) -> int {
        self as int
    }

    open spec fn max_val() -> int {
        u32::MAX as int
    }

    open spec fn bits_val() -> int {
        32
    }

    proof fn lemma_bounds(x: Self) {
        lemma_pow2_widths();
    }

    proof fn lemma_injective(x: Self, y: Self) {
    }

    proof fn lemma_surjective(v: int) {
        assert((v as u32).val() == v);
    }

    fn zero() -> (r: Self) {
        0
    }

    fn one() -> (r: Self) {
        1
    }

    fn max_value() -> (r: Self) {
        u32::MAX
    }

    fn bits() -> (r: u32) {
        u32::BITS
    }

    fn is_le(self, other: Self) -> (r: bool) {
        self <= other
    }

    fn is_lt(self, other: Self) -> (r: bool) {
        self < other
    }

    fn minus(self, other: Self) -> (r: Self) {
        self - other
    }

    fn plus(self, other: Self) -> (r: Self) {
        self + other
    }

    fn checked_add(self, other: Self) -> (r: Option<Self>) {
        u32::checked_add(self, other)
    }

    fn checked_ilog2(self) -> (r: Option<u32>) {
        if self == 0 {
            None
        } else {
            Some(ilog2_u128(self as u128))
        }
    }

    fn into_usize(self) -> (r: usize) {
        self as usize
    }
}

impl Scalar for u64 {
    open spec fn val(self) -> int {
        self as int
    }

    open spec fn max_val() -> int {
        u64::MAX as int
    }

    open spec fn bits_val() -> int {
        64
    }

    proof fn lemma_bounds(x: Self) {
        lemma_pow2_widths();
    }

    proof fn lemma_injective(x: Self, y: Self) {
    }

    proof fn lemma_surjective(v: int) {
        assert((v as u64).val() == v);
    }

    fn zero() -> (r: Self) {
        0
    }

    fn one() -> (r: Self) {
        1
    }

    fn max_value() -> (r: Self) {
        u64::MAX
    }

    fn bits() -> (r: u32) {
        u64::BITS
    }

    fn is_le(self, other: Self) -> (r: bool) {
        self <= other
    }

    fn is_lt(self, other: Self) -> (r: bool) {
        self < other
    }

    fn minus(self, other: Self) -> (r: Self) {
        self - other
    }

    fn plus(self, other: Self) -> (r: Self) {
        self + other
    }

    fn checked_add(self, other: Self) -> (r: Option<Self>) {
        u64::checked_add(self, other)
    }

    fn checked_ilog2(self) -> (r: Option<u32>) {
        if self == 0 {
            None
        } else {
            Some(ilog2_u128(self as u128))
        }
    }

    fn into_usize(self) -> (r: usize) {
        self as usize
    }
}

impl Scalar for u128 {
    open spec fn val(self) -> int {
        self as int
    }

    open spec fn max_val() -> int {
        u128::MAX as int
    }

    open spec fn bits_val() -> int {
        128
    }

    proof fn lemma_bounds(x: Self) {
        lemma_pow2_widths();
    }

    proof fn lemma_injective(x: Self, y: Self) {
    }

    proof fn lemma_surjective(v: int) {
        assert((v as u128).val() == v);
    }

    fn zero() -> (r: Self) {
        0
    }

    fn one() -> (r: Self) {
        1
    }

    fn max_value() -> (r: Self) {
        u128::MAX
    }

    fn bits() -> (r: u32) {
        u128::BITS
    }

    fn is_le(self, other: Self) -> (r: bool) {
        self <= other
    }

    fn is_lt(self, other: Self) -> (r: bool) {
        self < other
    }

    fn minus(self, other: Self) -> (r: Self) {
        self - other
    }

    fn plus(self, other: Self) -> (r: Self) {
        self + other
    }

    fn checked_add(self, other: Self) -> (r: Option<Self>) {
        u128::checked_add(self, other)
    }

    fn checked_ilog2(self) -> (r: Option<u32>) {
        if self == 0 {
            None
        } else {
            Some(ilog2_u128(self as u128))
        }
    }

    fn into_usize(self) -> (r: usize) {
        self as usize
    }
}

/// Inclusive Range
#[derive(Clone, Copy, PartialEq, Eq, Hash, Debug)]
pub struct IRange<S> {
    /// Inclusive minimum value
    pub min: S,
    /// Inclusive maximum value
    pub max: S,
}

impl<S: Scalar> IRange<S> {
    /// A range is well formed when its minimum does not exceed its maximum.
    pub open spec fn wf(self) -> bool {
        self.min.val() <= self.max.val()
    }

    /// The range holds the value `v`.
    pub open spec fn has(self, v: int) -> bool {
        self.min.val() <= v <= self.max.val()
    }

    /// Neither range reaches the other.
    pub open spec fn disjoint_from(self, other: Self) -> bool {
        self.max.val() < other.min.val() || self.min.val() > other.max.val()
    }

    /// Distance from the value `v` to the closest value of the range.
    pub open spec fn distance_to(self, v: int) -> int {
        if v < self.min.val() {
            self.min.val() - v
        } else if self.max.val() < v {
            v - self.max.val()
        } else {
            0
        }
    }

    /// Intersection of two ranges, absent when they are disjoint.
    pub open spec fn intersect_spec(self, other: Self) -> Option<Self> {
        if self.disjoint_from(other) {
            None
        } else {
            Some(
                IRange {
                    min: if self.min.val() < other.min.val() {
                        other.min
                    } else {
                        self.min
                    },
                    max: if other.max.val() < self.max.val() {
                        other.max
                    } else {
                        self.max
                    },
                },
            )
        }
    }

    /// Number of values held by a well-formed range.
    pub open spec fn count(self) -> int {
        self.max.val() - self.min.val() + 1
    }

    /// Create range with inclusive start and end
    pub fn new(min: S, max: S) -> (r: Self)
        requires
            min.val() <= max.val(),
        ensures
            r.min == min,
            r.max == max,
            r.wf(),
    {
        Self { min, max }
    }

    /// Build a range spanning over the entier value space
    pub fn full() -> (r: Self)
        ensures
            r.min.val() == 0,
            r.max.val() == S::max_val(),
            r.wf(),
    {
        let min = S::zero();
        let max = S::max_value();
        proof {
            S::lemma_bounds(min);
        }
        Self { min, max }
    }

    /// Build a range over only one value
    pub fn one(value: S) -> (r: Self)
        ensures
            r.min == value,
            r.max == value,
            r.wf(),
    {
        Self { min: value, max: value }
    }

    /// Distance from `value` to the closest value of the range (zero inside the range).
    pub fn min_distance(&self, value: S) -> (r: S)
        ensures
            r.val() == self.distance_to(value.val()),
    {
        if value.is_lt(self.min) {
            self.min.minus(value)
        } else if self.max.is_lt(value) {
            value.minus(self.max)
        } else {
            S::zero()
        }
    }

    pub fn contains(&self, value: S) -> (r: bool)
        ensures
            r == self.has(value.val()),
    {
        self.min.is_le(value) && value.is_le(self.max)
    }

    /// Return the intersection between two range
    pub fn intersection(&self, other: &Self) -> (r: Option<Self>)
        requires
            self.wf(),
            other.wf(),
        ensures
            r == self.intersect_spec(*other),
    {
        if self.max.is_lt(other.min) {
            return None;
        }
        if other.max.is_lt(self.min) {
            return None;
        }
        let min = if self.min.is_lt(other.min) {
            other.min
        } else {
            self.min
        };
        let max = if other.max.is_lt(self.max) {
            other.max
        } else {
            self.max
        };
        Some(IRange::new(min, max))
    }

    #[inline]
    pub fn is_disjoint(&self, other: &Self) -> (r: bool)
        requires
            self.wf(),
            other.wf(),
        ensures
            r == self.disjoint_from(*other),
    {
        let a = self.max.is_lt(other.min);
        let b = other.max.is_lt(self.min);
        a || b
    }

    /// Create range with (start, length)
    pub fn from_start_len(start: S, len: S) -> (r: Self)
        requires
            len.val() > 0,
            start.val() + len.val() - 1 <= S::max_val(),
        ensures
            r.min == start,
            r.max.val() == start.val() + len.val() - 1,
            r.wf(),
            r.count() == len.val(),
    {
        let min = start;
        let max = start.plus(len.minus(S::one()));
        Self { min, max }
    }

    /// Number of unique values included in this range
    pub fn span(&self) -> (r: S)
        requires
            self.wf(),
            self.count() <= S::max_val(),
        ensures
            r.val() == self.count(),
    {
        let diff = self.max.minus(self.min);
        match diff.checked_add(S::one()) {
            Some(s) => s,
            None => {
                proof {
                    assert(false);
                }
                diff
            },
        }
    }

    /// Number of unique values included in this range
    pub fn span_usize(&self) -> (r: usize)
        requires
            self.wf(),
            self.count() <= usize::MAX,
            self.max.val() <= usize::MAX,
        ensures
            r == self.count(),
    {
        let min = self.min.into_usize();
        let max = self.max.into_usize();
        (max - min) + 1
    }

    /// Number of bits required to represent every values in this range
    pub fn span_bits(&self) -> (r: u32)
        requires
            self.wf(),
        ensures
            r == (if self.max.val() == self.min.val() {
                1
            } else {
                floor_log2((self.max.val() - self.min.val()) as nat) + 1
            }),
            1 <= r <= S::bits_val(),
    {
        let diff = self.max.minus(self.min);
        proof {
            S::lemma_bounds(diff);
            if diff.val() > 0 {
                lemma_floor_log2_lt(diff.val() as nat, S::bits_val() as nat);
            }
        }
        let log = match diff.checked_ilog2() {
            Some(l) => l,
            None => 0,
        };
        log + 1
    }
}

/// Two well-formed ranges are disjoint when no value lies in both.
pub proof fn law_disjoint_iff_no_common_value<S: Scalar>(a: IRange<S>, b: IRange<S>)
    requires
        a.wf(),
        b.wf(),
    ensures
        a.disjoint_from(b) <==> (forall|v: int| !(#[trigger] a.has(v) && b.has(v))),
        a.disjoint_from(b) == b.disjoint_from(a),
{
    if !a.disjoint_from(b) {
        let v = if a.min.val() < b.min.val() {
            b.min.val()
        } else {
            a.min.val()
        };
        assert(a.has(v) && b.has(v));
    }
}

/// The intersection holds exactly the values held by both ranges, it is absent exactly
/// when the ranges are disjoint, and it does not depend on the order of its operands.
pub proof fn law_intersection<S: Scalar>(a: IRange<S>, b: IRange<S>)
    requires
        a.wf(),
        b.wf(),
    ensures
        a.intersect_spec(b) is None <==> a.disjoint_from(b),
        a.intersect_spec(b) matches Some(i) ==> i.wf() && (forall|v: int|
            #[trigger] i.has(v) <==> a.has(v) && b.has(v)),
        a.intersect_spec(b) == b.intersect_spec(a),
{
    S::lemma_injective(a.min, b.min);
    S::lemma_injective(a.max, b.max);
}

/// The distance to a range is zero exactly on the values it holds.
pub proof fn law_min_distance_zero_iff_contains<S: Scalar>(r: IRange<S>, v: int)
    ensures
        r.distance_to(v) == 0 <==> r.has(v),
        r.distance_to(v) >= 0,
{
}

} // verus!
