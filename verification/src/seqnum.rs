//! Sequence numbers: positions in a byte stream, counted in 32 bits and wrapping around.
//!
//! Two sequence numbers have no absolute order. One lies before the other when the shorter way
//! round the circle leads forward from it, and at exactly half a circle each lies before the
//! other.

use core::cmp::Ordering;
use vstd::prelude::*;
use vstd::std_specs::cmp::{PartialOrdSpec, PartialOrdSpecImpl};
use vstd::std_specs::convert::FromSpecImpl;
use vstd::std_specs::ops::{AddSpec, AddSpecImpl, SubSpec, SubSpecImpl};

verus! {

/// The number of distinct sequence numbers.
pub open spec fn seq_space() -> int {
    0x1_0000_0000
}

/// Half the number of distinct sequence numbers.
pub open spec fn half_space() -> int {
    0x8000_0000
}

/// A sequence number.
#[derive(Debug, Clone, Copy, PartialEq, Eq, Structural, Hash)]
pub struct SeqNum(pub u32);

impl SeqNum {
    /// The number of steps forward, fewer than a full circle, that lead from `base` to `self`.
    pub open spec fn ahead_of(self, base: SeqNum) -> int {
        if self.0 >= base.0 {
            self.0 - base.0
        } else {
            self.0 - base.0 + seq_space()
        }
    }

    /// The sequence number `n` steps forward from `self`; backward where `n` is negative.
    pub open spec fn plus(self, n: int) -> SeqNum {
        SeqNum(((self.0 + n) % seq_space()) as u32)
    }

    /// Whether `self` lies before `other`: at least one step and at most half a circle behind.
    pub open spec fn is_before(self, other: SeqNum) -> bool {
        1 <= other.ahead_of(self) <= half_space()
    }

    /// Whether `self` lies after `other`: at least one step and less than half a circle ahead.
    pub open spec fn is_after(self, other: SeqNum) -> bool {
        1 <= self.ahead_of(other) < half_space()
    }

    /// The number of steps forward from `other` to `self`.
    pub fn distance(self, other: SeqNum) -> (steps: u32)
        ensures
            steps == self.ahead_of(other),
    {
        self.0.wrapping_sub(other.0)
    }
}

impl From<u32> for SeqNum {
    fn from(value: u32) -> (num: SeqNum) {
        SeqNum(value)
    }
}

impl FromSpecImpl<u32> for SeqNum {
    open spec fn obeys_from_spec() -> bool {
        true
    }

    open spec fn from_spec(value: u32) -> SeqNum {
        SeqNum(value)
    }
}

impl core::ops::Add<u32> for SeqNum {
    type Output = SeqNum;

    fn add(self, rhs: u32) -> (sum: SeqNum) {
        SeqNum(self.0.wrapping_add(rhs))
    }
}

impl AddSpecImpl<u32> for SeqNum {
    open spec fn obeys_add_spec() -> bool {
        true
    }

    open spec fn add_req(self, rhs: u32) -> bool {
        true
    }

    open spec fn add_spec(self, rhs: u32) -> SeqNum {
        self.plus(rhs as int)
    }
}

impl core::ops::Sub<u32> for SeqNum {
    type Output = SeqNum;

    fn sub(self, rhs: u32) -> (difference: SeqNum) {
        SeqNum(self.0.wrapping_sub(rhs))
    }
}

impl SubSpecImpl<u32> for SeqNum {
    open spec fn obeys_sub_spec() -> bool {
        true
    }

    open spec fn sub_req(self, rhs: u32) -> bool {
        true
    }

    open spec fn sub_spec(self, rhs: u32) -> SeqNum {
        self.plus(-rhs)
    }
}

impl core::ops::Sub<SeqNum> for SeqNum {
    type Output = SeqNum;

    fn sub(self, rhs: SeqNum) -> (difference: SeqNum) {
        SeqNum(self.0.wrapping_sub(rhs.0))
    }
}

impl SubSpecImpl<SeqNum> for SeqNum {
    open spec fn obeys_sub_spec() -> bool {
        true
    }

    open spec fn sub_req(self, rhs: SeqNum) -> bool {
        true
    }

    open spec fn sub_spec(self, rhs: SeqNum) -> SeqNum {
        SeqNum(self.ahead_of(rhs) as u32)
    }
}

impl PartialOrd for SeqNum {
    fn partial_cmp(&self, other: &SeqNum) -> (order: Option<Ordering>) {
        let steps: u32 = self.0.wrapping_sub(other.0);
        if steps == 0 {
            Some(Ordering::Equal)
        } else if steps < 0x8000_0000 {
            Some(Ordering::Greater)
        } else {
            Some(Ordering::Less)
        }
    }
}

impl PartialOrdSpecImpl for SeqNum {
    open spec fn obeys_partial_cmp_spec() -> bool {
        true
    }

    open spec fn partial_cmp_spec(&self, other: &SeqNum) -> Option<Ordering> {
        if *self == *other {
            Some(Ordering::Equal)
        } else if self.is_after(*other) {
            Some(Ordering::Greater)
        } else {
            Some(Ordering::Less)
        }
    }
}

/// Of two sequence numbers exactly one of three things holds: they are equal, the first lies
/// before the second, or the first lies after the second.
pub proof fn law_trichotomy(a: SeqNum, b: SeqNum)
    ensures
        (a == b) ==> !a.is_before(b) && !a.is_after(b),
        (a != b) ==> a.is_before(b) != a.is_after(b),
{
}

/// Unless two sequence numbers are half a circle apart, one lies before the other exactly when
/// the other lies after it. Half a circle apart, each lies before the other.
pub proof fn law_order_mirrors(a: SeqNum, b: SeqNum)
    ensures
        a.ahead_of(b) != half_space() ==> (a.is_before(b) <==> b.is_after(a)),
        a.ahead_of(b) == half_space() ==> a.is_before(b) && b.is_before(a),
{
}

/// Within half a circle "before" is transitive.
pub proof fn law_before_is_transitive(a: SeqNum, b: SeqNum, c: SeqNum)
    requires
        a.is_before(b),
        b.is_before(c),
        b.ahead_of(a) + c.ahead_of(b) <= half_space(),
    ensures
        a.is_before(c),
        c.ahead_of(a) == b.ahead_of(a) + c.ahead_of(b),
{
}

/// Stepping forward and counting the steps are inverse to each other, also across the wrap.
pub proof fn law_steps_are_counted(a: SeqNum, b: SeqNum, n: int)
    ensures
        a.plus(n).ahead_of(a) == n % seq_space(),
        a.plus(b.ahead_of(a)) == b,
{
}

/// Two strides make one stride of their sum.
pub proof fn law_strides_add_up(a: SeqNum, m: int, n: int)
    ensures
        a.plus(m).plus(n) == a.plus(m + n),
{
}

/// Moving two sequence numbers by the same stride keeps the steps between them, and so their
/// order.
pub proof fn law_shift_keeps_order(a: SeqNum, b: SeqNum, n: int)
    ensures
        a.plus(n).ahead_of(b.plus(n)) == a.ahead_of(b),
        a.plus(n).is_before(b.plus(n)) == a.is_before(b),
        a.plus(n).is_after(b.plus(n)) == a.is_after(b),
{
}

/// From every sequence number a number of steps below two to the power of 32 leads to every other,
/// and that number is the distance counted.
pub proof fn law_distance_in_plain_numbers(a: SeqNum, b: SeqNum)
    ensures
        0 <= b.ahead_of(a) < 0x1_0000_0000,
        (a.0 + b.ahead_of(a) - b.0) % 0x1_0000_0000 == 0,
{
}

/// A stride of any length, forward or backward, differs from plain addition by whole circles.
pub proof fn law_stride_in_plain_numbers(a: SeqNum, n: int)
    ensures
        (a.0 + n - a.plus(n).0) % 0x1_0000_0000 == 0,
{
}

/// Where `b` lies `n` steps forward of `a`, `n` is the distance and the stride between them; `a`
/// lies before `b` for one to two to the power of 31 steps, and `b` lies after `a` for one to one
/// fewer.
pub proof fn law_order_in_plain_numbers(a: SeqNum, b: SeqNum, n: int)
    requires
        0 <= n < 0x1_0000_0000,
        (a.0 + n - b.0) % 0x1_0000_0000 == 0,
    ensures
        b.ahead_of(a) == n,
        a.plus(n) == b,
        a.is_before(b) <==> 1 <= n <= 0x8000_0000,
        b.is_after(a) <==> 1 <= n < 0x8000_0000,
{
}

/// The operators add, subtract and count up to whole circles.
pub proof fn law_operators_in_plain_numbers(a: SeqNum, b: SeqNum, n: u32)
    ensures
        (a.0 + n - AddSpec::add_spec(a, n).0) % 0x1_0000_0000 == 0,
        (a.0 - n - SubSpec::<u32>::sub_spec(a, n).0) % 0x1_0000_0000 == 0,
        (a.0 - b.0 - SubSpec::<SeqNum>::sub_spec(a, b).0) % 0x1_0000_0000 == 0,
{
}

/// The comparison operators go by the order of sequence numbers: less is before, greater is
/// after, and only equal numbers are equal.
pub proof fn law_comparisons_follow_the_order(a: SeqNum, b: SeqNum)
    ensures
        PartialOrdSpec::partial_cmp_spec(&a, &b) == Some(Ordering::Less) <==> a.is_before(b),
        PartialOrdSpec::partial_cmp_spec(&a, &b) == Some(Ordering::Greater) <==> a.is_after(b),
        PartialOrdSpec::partial_cmp_spec(&a, &b) == Some(Ordering::Equal) <==> a.0 == b.0,
{
}

} // verus!
