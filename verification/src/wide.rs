//! Unsigned numbers of up to 256 bits.
//!
//! The similarity of two contexts compares products of four factors, which
//! outgrow 128 bits for long feature vectors. A [`Wide`] holds such a
//! product in four 64-bit limbs, so that the comparison is exact for every
//! dimension.

use vstd::prelude::*;

verus! {

/// The base of the limbs: two to the power of 64.
pub const LIMB: u128 = 0x1_0000_0000_0000_0000;

/// An unsigned number of up to 256 bits, in four limbs to the base
/// [`LIMB`], the least significant first.
#[derive(Clone, Copy, Debug, PartialEq, Eq, Structural)]
pub struct Wide {
    /// The limb of weight one.
    pub l0: u64,
    /// The limb of weight two to the power of 64.
    pub l1: u64,
    /// The limb of weight two to the power of 128.
    pub l2: u64,
    /// The limb of weight two to the power of 192.
    pub l3: u64,
}

/// The number that four limbs stand for.
pub open spec fn limbs_value(l0: int, l1: int, l2: int, l3: int) -> int {
    l0 + 0x1_0000_0000_0000_0000 * (l1 + 0x1_0000_0000_0000_0000 * (l2 + 0x1_0000_0000_0000_0000
        * l3))
}

/// Two to the power of 256: what no [`Wide`] reaches.
pub open spec fn wide_limit() -> int {
    limbs_value(0, 0, 0, 0x1_0000_0000_0000_0000)
}

impl Wide {
    /// The number that the limbs stand for.
    pub open spec fn value(&self) -> int {
        limbs_value(self.l0 as int, self.l1 as int, self.l2 as int, self.l3 as int)
    }

    /// The product of two 128-bit numbers.
    pub fn product(x: u128, y: u128) -> (w: Wide)
        ensures
            w.value() == x * y,
    {
        let xl: u128 = x % LIMB;
        let xh: u128 = x / LIMB;
        let yl: u128 = y % LIMB;
        let yh: u128 = y / LIMB;
        proof {
            lemma_limb_product(xl as int, yl as int);
            lemma_limb_product(xl as int, yh as int);
            lemma_limb_product(xh as int, yl as int);
            lemma_limb_product(xh as int, yh as int);
        }
        let p00: u128 = xl * yl;
        let p01: u128 = xl * yh;
        let p10: u128 = xh * yl;
        let p11: u128 = xh * yh;
        let c0: u128 = p00 / LIMB;
        let t1: u128 = p01 % LIMB + p10 % LIMB + c0;
        let c1: u128 = t1 / LIMB;
        let t2: u128 = p01 / LIMB + p10 / LIMB + p11 % LIMB + c1;
        let c2: u128 = t2 / LIMB;
        let t3: u128 = p11 / LIMB + c2;
        proof {
            let b = 0x1_0000_0000_0000_0000int;
            assert(x * y == p00 + b * (p01 + p10) + b * (b * p11)) by (nonlinear_arith)
                requires
                    x == xh * b + xl,
                    y == yh * b + yl,
                    p00 == xl * yl,
                    p01 == xl * yh,
                    p10 == xh * yl,
                    p11 == xh * yh,
            ;
            assert(x * y == limbs_value(
                (p00 % LIMB) as int,
                (t1 % LIMB) as int,
                (t2 % LIMB) as int,
                t3 as int,
            ));
            assert(x * y <= 0xffff_ffff_ffff_ffff_ffff_ffff_ffff_ffff
                * 0xffff_ffff_ffff_ffff_ffff_ffff_ffff_ffff) by (nonlinear_arith)
                requires
                    0 <= x <= 0xffff_ffff_ffff_ffff_ffff_ffff_ffff_ffff,
                    0 <= y <= 0xffff_ffff_ffff_ffff_ffff_ffff_ffff_ffff,
            ;
            assert(t3 < LIMB);
        }
        Wide {
            l0: (p00 % LIMB) as u64,
            l1: (t1 % LIMB) as u64,
            l2: (t2 % LIMB) as u64,
            l3: t3 as u64,
        }
    }

    /// The number times `k`, where the result is below two to the power
    /// of 256.
    pub fn scaled(&self, k: u64) -> (w: Wide)
        requires
            k * self.value() < wide_limit(),
        ensures
            w.value() == k * self.value(),
    {
        proof {
            lemma_limb_product(self.l0 as int, k as int);
            lemma_limb_product(self.l1 as int, k as int);
            lemma_limb_product(self.l2 as int, k as int);
            lemma_limb_product(self.l3 as int, k as int);
        }
        let q0: u128 = (self.l0 as u128) * (k as u128);
        let t1: u128 = (self.l1 as u128) * (k as u128) + q0 / LIMB;
        let t2: u128 = (self.l2 as u128) * (k as u128) + t1 / LIMB;
        let t3: u128 = (self.l3 as u128) * (k as u128) + t2 / LIMB;
        proof {
            let b = 0x1_0000_0000_0000_0000int;
            let q1 = self.l1 as int * k as int;
            let q2 = self.l2 as int * k as int;
            let q3 = self.l3 as int * k as int;
            assert(k * self.value() == q0 + b * (q1 + b * (q2 + b * q3))) by (nonlinear_arith)
                requires
                    self.value() == self.l0 + b * (self.l1 + b * (self.l2 + b * self.l3)),
                    q0 == self.l0 * k,
                    q1 == self.l1 * k,
                    q2 == self.l2 * k,
                    q3 == self.l3 * k,
            ;
            assert(k * self.value() == limbs_value(
                (q0 % LIMB) as int,
                (t1 % LIMB) as int,
                (t2 % LIMB) as int,
                t3 as int,
            ));
            assert(t3 < LIMB);
        }
        Wide {
            l0: (q0 % LIMB) as u64,
            l1: (t1 % LIMB) as u64,
            l2: (t2 % LIMB) as u64,
            l3: t3 as u64,
        }
    }

    /// Whether the number is at most `other`.
    pub fn at_most(&self, other: &Wide) -> (le: bool)
        ensures
            le == (self.value() <= other.value()),
    {
        if self.l3 != other.l3 {
            self.l3 < other.l3
        } else if self.l2 != other.l2 {
            self.l2 < other.l2
        } else if self.l1 != other.l1 {
            self.l1 < other.l1
        } else {
            self.l0 <= other.l0
        }
    }
}

/// The product of two limbs fits in 128 bits, with room for a limb on top.
proof fn lemma_limb_product(x: int, y: int)
    requires
        0 <= x < 0x1_0000_0000_0000_0000,
        0 <= y < 0x1_0000_0000_0000_0000,
    ensures
        0 <= x * y <= 0xffff_ffff_ffff_fffe_0000_0000_0000_0001,
{
    assert(0 <= x * y <= 0xffff_ffff_ffff_ffff * 0xffff_ffff_ffff_ffff) by (nonlinear_arith)
        requires
            0 <= x <= 0xffff_ffff_ffff_ffff,
            0 <= y <= 0xffff_ffff_ffff_ffff,
    ;
}

} // verus!
