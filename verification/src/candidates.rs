//! Sets of digits 1..=9.
//!
//! A set is a mask of nine bits. What it holds is told by `has`, and by its
//! view, a `Set<u8>`; `wf` says that no other bit is set. Two well-formed
//! sets with the same digits are equal, so a set is known once its digits are.

use vstd::prelude::*;

verus! {

/// A set of digits between 1 and 9, kept as a bit mask in which digit `d`
/// is bit `d`. Bit 0 and the bits above bit 9 are never set.
#[derive(Clone, Copy, Debug, PartialEq, Eq, Structural)]
pub struct CandidateSet {
    bits: u16,
}

/// The mask with bits 1 to 9 set.
const FULL_MASK: u16 = 0x3fe;

proof fn lemma_mask_or(a: u16, b: u16, d: u16)
    by (bit_vector)
    requires
        d < 16,
    ensures
        ((a | b) & (1u16 << d) != 0) == ((a & (1u16 << d) != 0) || (b & (1u16 << d) != 0)),
        (a & !0x3feu16 == 0 && b & !0x3feu16 == 0) ==> (a | b) & !0x3feu16 == 0,
{
}

proof fn lemma_mask_and(a: u16, b: u16, d: u16)
    by (bit_vector)
    requires
        d < 16,
    ensures
        ((a & b) & (1u16 << d) != 0) == ((a & (1u16 << d) != 0) && (b & (1u16 << d) != 0)),
        a & !0x3feu16 == 0 ==> (a & b) & !0x3feu16 == 0,
{
}

proof fn lemma_mask_and_not(a: u16, b: u16, d: u16)
    by (bit_vector)
    requires
        d < 16,
    ensures
        ((a & !b) & (1u16 << d) != 0) == ((a & (1u16 << d) != 0) && !(b & (1u16 << d) != 0)),
        a & !0x3feu16 == 0 ==> (a & !b) & !0x3feu16 == 0,
{
}

proof fn lemma_mask_single(d: u16, e: u16)
    by (bit_vector)
    requires
        1 <= d <= 9,
        e < 16,
    ensures
        ((1u16 << d) & (1u16 << e) != 0) == (d == e),
        (1u16 << d) & !0x3feu16 == 0,
{
}

proof fn lemma_mask_consts(e: u16)
    by (bit_vector)
    requires
        e < 16,
    ensures
        0u16 & (1u16 << e) == 0,
        (0x3feu16 & (1u16 << e) != 0) == (1 <= e <= 9),
        0x3feu16 & !0x3feu16 == 0,
        0u16 & !0x3feu16 == 0,
{
}

proof fn lemma_mask_equal(a: u16, b: u16)
    by (bit_vector)
    requires
        a & !0x3feu16 == 0,
        b & !0x3feu16 == 0,
        (a & (1u16 << 1u16) != 0) == (b & (1u16 << 1u16) != 0),
        (a & (1u16 << 2u16) != 0) == (b & (1u16 << 2u16) != 0),
        (a & (1u16 << 3u16) != 0) == (b & (1u16 << 3u16) != 0),
        (a & (1u16 << 4u16) != 0) == (b & (1u16 << 4u16) != 0),
        (a & (1u16 << 5u16) != 0) == (b & (1u16 << 5u16) != 0),
        (a & (1u16 << 6u16) != 0) == (b & (1u16 << 6u16) != 0),
        (a & (1u16 << 7u16) != 0) == (b & (1u16 << 7u16) != 0),
        (a & (1u16 << 8u16) != 0) == (b & (1u16 << 8u16) != 0),
        (a & (1u16 << 9u16) != 0) == (b & (1u16 << 9u16) != 0),
    ensures
        a == b,
{
}

proof fn lemma_mask_subset(a: u16, b: u16, d: u16)
    by (bit_vector)
    requires
        a & !b == 0,
        a & (1u16 << d) != 0,
        d < 16,
    ensures
        b & (1u16 << d) != 0,
{
}

proof fn lemma_mask_not_subset(a: u16, b: u16)
    by (bit_vector)
    requires
        a & !0x3feu16 == 0,
        a & !b != 0,
    ensures
        (a & (1u16 << 1u16) != 0 && b & (1u16 << 1u16) == 0)
        || (a & (1u16 << 2u16) != 0 && b & (1u16 << 2u16) == 0)
        || (a & (1u16 << 3u16) != 0 && b & (1u16 << 3u16) == 0)
        || (a & (1u16 << 4u16) != 0 && b & (1u16 << 4u16) == 0)
        || (a & (1u16 << 5u16) != 0 && b & (1u16 << 5u16) == 0)
        || (a & (1u16 << 6u16) != 0 && b & (1u16 << 6u16) == 0)
        || (a & (1u16 << 7u16) != 0 && b & (1u16 << 7u16) == 0)
        || (a & (1u16 << 8u16) != 0 && b & (1u16 << 8u16) == 0)
        || (a & (1u16 << 9u16) != 0 && b & (1u16 << 9u16) == 0),
{
}

spec fn mask_of(
    p1: bool,
    p2: bool,
    p3: bool,
    p4: bool,
    p5: bool,
    p6: bool,
    p7: bool,
    p8: bool,
    p9: bool,
) -> u16 {
    (if p1 { 1u16 << 1u16 } else { 0u16 }) | (if p2 { 1u16 << 2u16 } else { 0u16 }) | (if p3 {
        1u16 << 3u16
    } else {
        0u16
    }) | (if p4 { 1u16 << 4u16 } else { 0u16 }) | (if p5 { 1u16 << 5u16 } else { 0u16 }) | (if p6 {
        1u16 << 6u16
    } else {
        0u16
    }) | (if p7 { 1u16 << 7u16 } else { 0u16 }) | (if p8 { 1u16 << 8u16 } else { 0u16 }) | (if p9 {
        1u16 << 9u16
    } else {
        0u16
    })
}

proof fn lemma_mask_of_wf(
    p1: bool,
    p2: bool,
    p3: bool,
    p4: bool,
    p5: bool,
    p6: bool,
    p7: bool,
    p8: bool,
    p9: bool,
)
    by (bit_vector)
    ensures
        mask_of(p1, p2, p3, p4, p5, p6, p7, p8, p9) & !0x3feu16 == 0,
{
}

proof fn lemma_mask_of(
    p1: bool,
    p2: bool,
    p3: bool,
    p4: bool,
    p5: bool,
    p6: bool,
    p7: bool,
    p8: bool,
    p9: bool,
    e: u16,
)
    by (bit_vector)
    requires
        1 <= e <= 9,
    ensures
        (mask_of(p1, p2, p3, p4, p5, p6, p7, p8, p9) & (1u16 << e) != 0) == ((e == 1 && p1) || (e
            == 2 && p2) || (e == 3 && p3) || (e == 4 && p4) || (e == 5 && p5) || (e == 6 && p6)
            || (e == 7 && p7) || (e == 8 && p8) || (e == 9 && p9)),
{
}

impl View for CandidateSet {
    type V = Set<u8>;

    /// The digits of the set.
    open spec fn view(&self) -> Set<u8> {
        Set::new(|d: u8| self.has(d))
    }
}

impl CandidateSet {
    /// No bit is set but those of the digits 1 to 9.
    pub closed spec fn wf(self) -> bool {
        self.bits & !0x3feu16 == 0
    }

    /// Digit `d` is in the set.
    pub closed spec fn has(self, d: u8) -> bool {
        1 <= d <= 9 && self.bits & (1u16 << (d as u16)) != 0
    }

    /// The number of digits up to `k` that are in the set.
    pub open spec fn count_upto(self, k: nat) -> nat
        decreases k,
    {
        if k == 0 {
            0
        } else {
            self.count_upto((k - 1) as nat) + if self.has(k as u8) {
                1nat
            } else {
                0nat
            }
        }
    }

    /// The number of digits in the set: the size of its view, as
    /// `lemma_count_is_len` shows.
    pub open spec fn spec_count(self) -> nat {
        self.count_upto(9)
    }

    /// The set of the digits between 1 and 9 that satisfy `p`.
    pub closed spec fn of(p: spec_fn(u8) -> bool) -> CandidateSet {
        CandidateSet { bits: mask_of(p(1), p(2), p(3), p(4), p(5), p(6), p(7), p(8), p(9)) }
    }

    /// The set without a digit.
    pub open spec fn spec_empty() -> CandidateSet {
        Self::of(|d: u8| false)
    }

    /// The set of all nine digits.
    pub open spec fn spec_full() -> CandidateSet {
        Self::of(|d: u8| true)
    }

    /// The set that holds `d` alone, if `d` is between 1 and 9.
    pub open spec fn spec_single(d: u8) -> CandidateSet {
        Self::of(|e: u8| e == d)
    }

    /// The digits that are in `self` or in `other`.
    pub open spec fn spec_union(self, other: CandidateSet) -> CandidateSet {
        Self::of(|d: u8| self.has(d) || other.has(d))
    }

    /// The digits that are in `self` and in `other`.
    pub open spec fn spec_intersection(self, other: CandidateSet) -> CandidateSet {
        Self::of(|d: u8| self.has(d) && other.has(d))
    }

    /// The digits of `self` that are not in `other`.
    pub open spec fn spec_difference(self, other: CandidateSet) -> CandidateSet {
        Self::of(|d: u8| self.has(d) && !other.has(d))
    }

    /// Every digit of `self` is in `other`.
    pub open spec fn spec_is_subset(self, other: CandidateSet) -> bool {
        forall|d: u8| self.has(d) ==> other.has(d)
    }

    /// The smallest digit of the set, or 0 if the set is empty.
    pub open spec fn spec_first(self) -> u8 {
        if self.has(1) {
            1
        } else if self.has(2) {
            2
        } else if self.has(3) {
            3
        } else if self.has(4) {
            4
        } else if self.has(5) {
            5
        } else if self.has(6) {
            6
        } else if self.has(7) {
            7
        } else if self.has(8) {
            8
        } else if self.has(9) {
            9
        } else {
            0
        }
    }

    /// Only digits between 1 and 9 are ever in a set.
    pub proof fn lemma_has_range(self, d: u8)
        requires
            self.has(d),
        ensures
            1 <= d <= 9,
    {
    }

    /// `of(p)` is well formed and holds exactly the digits that satisfy `p`.
    pub proof fn lemma_of(p: spec_fn(u8) -> bool)
        ensures
            Self::of(p).wf(),
            forall|d: u8| #[trigger] Self::of(p).has(d) == (1 <= d <= 9 && p(d)),
    {
        lemma_mask_of_wf(p(1), p(2), p(3), p(4), p(5), p(6), p(7), p(8), p(9));
        assert forall|d: u8| #[trigger] Self::of(p).has(d) == (1 <= d <= 9 && p(d)) by {
            if 1 <= d <= 9 {
                lemma_mask_of(p(1), p(2), p(3), p(4), p(5), p(6), p(7), p(8), p(9), d as u16);
            }
        }
    }

    /// Two well-formed sets with the same digits are the same set.
    pub proof fn lemma_equal(self, other: CandidateSet)
        requires
            self.wf(),
            other.wf(),
            forall|d: u8| 1 <= d <= 9 ==> self.has(d) == other.has(d),
        ensures
            self == other,
    {
        assert(self.has(1) == other.has(1));
        assert(self.has(2) == other.has(2));
        assert(self.has(3) == other.has(3));
        assert(self.has(4) == other.has(4));
        assert(self.has(5) == other.has(5));
        assert(self.has(6) == other.has(6));
        assert(self.has(7) == other.has(7));
        assert(self.has(8) == other.has(8));
        assert(self.has(9) == other.has(9));
        lemma_mask_equal(self.bits, other.bits);
    }

    /// The smallest digit of a set is in the set, and a set with a digit
    /// has a smallest one.
    pub proof fn lemma_first(self)
        ensures
            self.spec_first() != 0 ==> self.has(self.spec_first()),
            self.spec_first() == 0 ==> forall|d: u8| !self.has(d),
            self.spec_count() > 0 ==> self.spec_first() != 0,
            0 <= self.spec_first() <= 9,
    {
        reveal_with_fuel(CandidateSet::count_upto, 10);
        assert forall|d: u8| self.spec_first() == 0 implies !self.has(d) by {
            if self.has(d) {
                self.lemma_has_range(d);
            }
        }
    }

    /// A set has at most nine digits, and none exactly when it is empty.
    pub proof fn lemma_count(self)
        ensures
            self.spec_count() <= 9,
            self.spec_count() == 0 <==> (forall|d: u8| !self.has(d)),
    {
        reveal_with_fuel(CandidateSet::count_upto, 10);
        if self.spec_count() == 0 {
            assert forall|d: u8| !self.has(d) by {
                if self.has(d) {
                    self.lemma_has_range(d);
                }
            }
        }
    }

    /// A subset has no more digits than the set, and fewer if it lacks one
    /// of them.
    pub proof fn lemma_count_subset(self, other: CandidateSet)
        requires
            self.spec_is_subset(other),
        ensures
            self.spec_count() <= other.spec_count(),
            (exists|d: u8| other.has(d) && !self.has(d)) ==> self.spec_count() < other.spec_count(),
    {
        reveal_with_fuel(CandidateSet::count_upto, 10);
        if exists|d: u8| other.has(d) && !self.has(d) {
            let d = choose|d: u8| other.has(d) && !self.has(d);
            other.lemma_has_range(d);
        }
    }

    /// The digits of the set that are at most `k`.
    pub open spec fn digits_upto(self, k: nat) -> Set<u8> {
        Set::new(|d: u8| self.has(d) && d <= k)
    }

    /// The digits up to `k` are finitely many, and `count_upto` counts them.
    pub proof fn lemma_count_upto(self, k: nat)
        requires
            k <= 9,
        ensures
            self.digits_upto(k).finite(),
            self.digits_upto(k).len() == self.count_upto(k),
        decreases k,
    {
        if k == 0 {
            assert forall|d: u8| !self.digits_upto(0).contains(d) by {
                if self.has(d) {
                    self.lemma_has_range(d);
                }
            }
            assert(self.digits_upto(0) =~= Set::<u8>::empty());
        } else {
            let below = self.digits_upto((k - 1) as nat);
            self.lemma_count_upto((k - 1) as nat);
            if self.has(k as u8) {
                assert(!below.contains(k as u8));
                assert(self.digits_upto(k) =~= below.insert(k as u8));
            } else {
                assert(self.digits_upto(k) =~= below);
            }
        }
    }

    /// The view of a set is finite, and `spec_count` is its size.
    pub proof fn lemma_count_is_len(self)
        ensures
            self@.finite(),
            self@.len() == self.spec_count(),
    {
        self.lemma_count_upto(9);
        assert forall|d: u8| self@.contains(d) == self.digits_upto(9).contains(d) by {
            if self.has(d) {
                self.lemma_has_range(d);
            }
        }
        assert(self@ =~= self.digits_upto(9));
    }

    /// The empty set.
    pub fn empty() -> (r: CandidateSet)
        ensures
            r == Self::spec_empty(),
            r.wf(),
            forall|d: u8| !r.has(d),
    {
        let r = CandidateSet { bits: 0 };
        proof {
            Self::lemma_of(|d: u8| false);
            assert forall|d: u8| !r.has(d) by {
                if 1 <= d <= 9 {
                    lemma_mask_consts(d as u16);
                }
            }
            lemma_mask_consts(0);
            r.lemma_equal(Self::spec_empty());
        }
        r
    }

    /// The set of all nine digits.
    pub fn one_to_nine() -> (r: CandidateSet)
        ensures
            r == Self::spec_full(),
            r.wf(),
            forall|d: u8| r.has(d) == (1 <= d <= 9),
    {
        let r = CandidateSet { bits: FULL_MASK };
        proof {
            Self::lemma_of(|d: u8| true);
            assert forall|d: u8| r.has(d) == (1 <= d <= 9) by {
                if 1 <= d <= 9 {
                    lemma_mask_consts(d as u16);
                }
            }
            lemma_mask_consts(0);
            r.lemma_equal(Self::spec_full());
        }
        r
    }

    /// The set that holds `d` alone.
    pub fn single(d: u8) -> (r: CandidateSet)
        requires
            1 <= d <= 9,
        ensures
            r == Self::spec_single(d),
            r.wf(),
            forall|e: u8| r.has(e) == (e == d),
    {
        let r = CandidateSet { bits: 1u16 << (d as u16) };
        proof {
            Self::lemma_of(|e: u8| e == d);
            assert forall|e: u8| r.has(e) == (e == d) by {
                if 1 <= e <= 9 {
                    lemma_mask_single(d as u16, e as u16);
                }
            }
            lemma_mask_single(d as u16, 0);
            r.lemma_equal(Self::spec_single(d));
        }
        r
    }

    /// Is digit `d` in the set? False for every `d` outside 1..=9.
    pub fn contains(&self, d: u8) -> (b: bool)
        ensures
            b == self.has(d),
            b == self@.contains(d),
    {
        1 <= d && d <= 9 && self.bits & (1u16 << (d as u16)) != 0
    }

    /// The digits that are in `self` or in `other`.
    pub fn union(&self, other: &CandidateSet) -> (r: CandidateSet)
        requires
            self.wf(),
            other.wf(),
        ensures
            r == self.spec_union(*other),
            r.wf(),
            forall|d: u8| r.has(d) == (self.has(d) || other.has(d)),
            r@ == self@.union(other@),
    {
        let r = CandidateSet { bits: self.bits | other.bits };
        proof {
            Self::lemma_of(|d: u8| self.has(d) || other.has(d));
            assert forall|d: u8| r.has(d) == (self.has(d) || other.has(d)) by {
                if 1 <= d <= 9 {
                    lemma_mask_or(self.bits, other.bits, d as u16);
                }
            }
            lemma_mask_or(self.bits, other.bits, 0);
            r.lemma_equal(self.spec_union(*other));
            assert(r@ =~= self@.union(other@));
        }
        r
    }

    /// The digits that are in `self` and in `other`.
    pub fn intersection(&self, other: &CandidateSet) -> (r: CandidateSet)
        requires
            self.wf(),
            other.wf(),
        ensures
            r == self.spec_intersection(*other),
            r.wf(),
            forall|d: u8| r.has(d) == (self.has(d) && other.has(d)),
            r@ == self@.intersect(other@),
    {
        let r = CandidateSet { bits: self.bits & other.bits };
        proof {
            Self::lemma_of(|d: u8| self.has(d) && other.has(d));
            assert forall|d: u8| r.has(d) == (self.has(d) && other.has(d)) by {
                if 1 <= d <= 9 {
                    lemma_mask_and(self.bits, other.bits, d as u16);
                }
            }
            lemma_mask_and(self.bits, other.bits, 0);
            r.lemma_equal(self.spec_intersection(*other));
            assert(r@ =~= self@.intersect(other@));
        }
        r
    }

    /// The digits of `self` that are not in `other`.
    pub fn difference(&self, other: &CandidateSet) -> (r: CandidateSet)
        requires
            self.wf(),
        ensures
            r == self.spec_difference(*other),
            r.wf(),
            forall|d: u8| r.has(d) == (self.has(d) && !other.has(d)),
            r@ == self@.difference(other@),
    {
        let r = CandidateSet { bits: self.bits & !other.bits };
        proof {
            Self::lemma_of(|d: u8| self.has(d) && !other.has(d));
            assert forall|d: u8| r.has(d) == (self.has(d) && !other.has(d)) by {
                if 1 <= d <= 9 {
                    lemma_mask_and_not(self.bits, other.bits, d as u16);
                }
            }
            lemma_mask_and_not(self.bits, other.bits, 0);
            r.lemma_equal(self.spec_difference(*other));
            assert(r@ =~= self@.difference(other@));
        }
        r
    }

    /// Is every digit of `self` in `other`?
    pub fn is_subset(&self, other: &CandidateSet) -> (b: bool)
        requires
            self.wf(),
        ensures
            b == self.spec_is_subset(*other),
            b == self@.subset_of(other@),
    {
        let b = self.bits & !other.bits == 0;
        proof {
            if b {
                assert forall|d: u8| self.has(d) implies other.has(d) by {
                    lemma_mask_subset(self.bits, other.bits, d as u16);
                }
            } else {
                lemma_mask_not_subset(self.bits, other.bits);
                assert((self.has(1) && !other.has(1)) || (self.has(2) && !other.has(2)) || (
                self.has(3) && !other.has(3)) || (self.has(4) && !other.has(4)) || (self.has(5)
                    && !other.has(5)) || (self.has(6) && !other.has(6)) || (self.has(7)
                    && !other.has(7)) || (self.has(8) && !other.has(8)) || (self.has(9)
                    && !other.has(9)));
            }
            if self.spec_is_subset(*other) {
                assert forall|d: u8| self@.contains(d) implies other@.contains(d) by {
                    assert(self.has(d));
                }
            }
            if self@.subset_of(other@) {
                assert forall|d: u8| self.has(d) implies other.has(d) by {
                    assert(self@.contains(d));
                    assert(other@.contains(d));
                }
            }
        }
        b
    }

    /// The number of digits in the set.
    pub fn count(&self) -> (n: usize)
        ensures
            n == self.spec_count(),
            n == self@.len(),
            n <= 9,
    {
        proof {
            self.lemma_count_is_len();
        }
        let mut n: usize = 0;
        let mut d: u8 = 1;
        while d <= 9
            invariant
                1 <= d <= 10,
                n == self.count_upto((d - 1) as nat),
                n <= d - 1,
            decreases 10 - d,
        {
            if self.contains(d) {
                n = n + 1;
            }
            d = d + 1;
        }
        n
    }

    /// Has the set no digit?
    pub fn is_empty(&self) -> (b: bool)
        requires
            self.wf(),
        ensures
            b == (self == Self::spec_empty()),
            b == (forall|d: u8| !self.has(d)),
    {
        let b = self.bits == 0;
        proof {
            Self::lemma_of(|d: u8| false);
            assert(mask_of(false, false, false, false, false, false, false, false, false) == 0)
                by (bit_vector);
            if b {
                assert forall|d: u8| !self.has(d) by {
                    if 1 <= d <= 9 {
                        lemma_mask_consts(d as u16);
                    }
                }
            } else {
                if forall|d: u8| !self.has(d) {
                    self.lemma_equal(Self::spec_empty());
                }
            }
        }
        b
    }

    /// The smallest digit of the set, or 0 if the set is empty.
    pub fn first(&self) -> (d: u8)
        ensures
            d == self.spec_first(),
    {
        let mut d: u8 = 1;
        while d <= 9
            invariant
                1 <= d <= 10,
                forall|e: u8| 1 <= e < d ==> !self.has(e),
            decreases 10 - d,
        {
            if self.contains(d) {
                return d;
            }
            d = d + 1;
        }
        0
    }

    /// The set built from a list of digits. A digit listed twice counts
    /// once, and a value outside 1..=9 is left out.
    pub fn new(digits: &Vec<u8>) -> (r: CandidateSet)
        ensures
            r.wf(),
            forall|d: u8| r.has(d) == (1 <= d <= 9 && digits@.contains(d)),
            r == Self::of(|d: u8| digits@.contains(d)),
    {
        let mut r = Self::empty();
        let mut i: usize = 0;
        while i < digits.len()
            invariant
                i <= digits.len(),
                r.wf(),
                forall|d: u8|
                    r.has(d) == (1 <= d <= 9 && exists|k: int| 0 <= k < i && digits@[k] == d),
            decreases digits.len() - i,
        {
            let v = digits[i];
            if 1 <= v && v <= 9 {
                let s = Self::single(v);
                r = r.union(&s);
            }
            i = i + 1;
        }
        proof {
            Self::lemma_of(|d: u8| digits@.contains(d));
            r.lemma_equal(Self::of(|d: u8| digits@.contains(d)));
        }
        r
    }

    /// The digits of the set in ascending order.
    pub fn to_vec(&self) -> (v: Vec<u8>)
        ensures
            forall|d: u8| #[trigger] v@.contains(d) == self.has(d),
            forall|i: int, j: int| 0 <= i < j < v.len() ==> v[i] < v[j],
            v.len() == self.spec_count(),
    {
        let mut v: Vec<u8> = Vec::new();
        let mut d: u8 = 1;
        while d <= 9
            invariant
                1 <= d <= 10,
                forall|e: u8| #[trigger] v@.contains(e) == (self.has(e) && e < d),
                forall|i: int, j: int| 0 <= i < j < v.len() ==> v[i] < v[j],
                v.len() == self.count_upto((d - 1) as nat),
            decreases 10 - d,
        {
            if self.contains(d) {
                let ghost old_v = v@;
                v.push(d);
                proof {
                    assert(v@ == old_v.push(d));
                    assert forall|e: u8| #[trigger] v@.contains(e) == (self.has(e) && e < d + 1) by {
                        if old_v.contains(e) {
                            let k = choose|k: int| 0 <= k < old_v.len() && old_v[k] == e;
                            assert(v@[k] == e);
                        }
                        if e == d {
                            assert(v@[old_v.len() as int] == e);
                        }
                        if v@.contains(e) {
                            let k = choose|k: int| 0 <= k < v@.len() && v@[k] == e;
                            if k < old_v.len() {
                                assert(old_v[k] == e);
                                assert(old_v.contains(e));
                            }
                        }
                    }
                    assert forall|i: int, j: int| 0 <= i < j < v.len() implies v[i] < v[j] by {
                        assert(v@[i] == old_v[i]);
                        assert(old_v.contains(old_v[i]));
                        if j < old_v.len() {
                            assert(v@[j] == old_v[j]);
                        } else {
                            assert(v@[j] == d);
                            assert(old_v[i] < d);
                        }
                    }
                }
            }
            d = d + 1;
        }
        proof {
            assert forall|e: u8| #[trigger] v@.contains(e) == self.has(e) by {
                if self.has(e) {
                    self.lemma_has_range(e);
                }
            }
        }
        v
    }
}

} // verus!
