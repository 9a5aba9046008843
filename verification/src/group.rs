//! A twisted Edwards curve over the field, the group that the hash
//! accumulates points in.
//!
//! The curve is `x^2 + y^2 == 1 + 11 * x^2 * y^2` over the field of order
//! `P`; the coefficient `11` is a non-square, which makes the unified
//! addition formula complete on curve points. Every operation states its
//! result as the exact coordinate formula, with the division expressed
//! through the field's inverse map; a result that would leave the curve
//! collapses to the identity, which the runtime check rules out on curve
//! points.

use vstd::prelude::*;

use crate::field::{
    add_mod, in_field, inv_mod, mul_mod, sub_mod, Fp, P,
};

verus! {

/// The quadratic coefficient of the curve equation.
pub const COEFF_A: u64 = 1;

/// The non-square coefficient of the mixed term of the curve equation.
pub const COEFF_D: u64 = 11;

/// The x-coordinate of the fixed base point.
pub const BASE_POINT_X: u64 = 3;

/// The y-coordinate of the fixed base point.
pub const BASE_POINT_Y: u64 = 287609417;

/// Whether a coordinate pair satisfies the curve equation.
pub open spec fn on_curve(x: int, y: int) -> bool {
    &&& in_field(x)
    &&& in_field(y)
    &&& add_mod(mul_mod(COEFF_A as int, mul_mod(x, x)), mul_mod(y, y)) == add_mod(
        1,
        mul_mod(COEFF_D as int, mul_mod(mul_mod(x, x), mul_mod(y, y))),
    )
}

/// The unified twisted Edwards addition formula on coordinate pairs,
/// with the identity as a defensive fallback where the formula would
/// leave the curve (impossible for curve points, since the mixed
/// coefficient is a non-square).
#[verifier::opaque]
pub open spec fn edwards_add(p1: (int, int), p2: (int, int)) -> (int, int) {
    let t = mul_mod(COEFF_D as int, mul_mod(mul_mod(p1.0, p2.0), mul_mod(p1.1, p2.1)));
    let x3 = mul_mod(
        add_mod(mul_mod(p1.0, p2.1), mul_mod(p1.1, p2.0)),
        inv_mod(add_mod(1, t)),
    );
    let y3 = mul_mod(
        sub_mod(mul_mod(p1.1, p2.1), mul_mod(COEFF_A as int, mul_mod(p1.0, p2.0))),
        inv_mod(sub_mod(1, t)),
    );
    if on_curve(x3, y3) {
        (x3, y3)
    } else {
        (0, 1)
    }
}

/// Negation on coordinate pairs.
pub open spec fn edwards_neg(p: (int, int)) -> (int, int) {
    (sub_mod(0, p.0), p.1)
}

/// A point of the curve, in affine coordinates.
#[derive(Clone, Copy, Debug, PartialEq, Eq, Structural, Hash)]
pub struct GroupElement {
    /// The x-coordinate.
    pub x: Fp,
    /// The y-coordinate.
    pub y: Fp,
}

/// The coordinate pair of a point.
pub open spec fn pt(g: GroupElement) -> (int, int) {
    (g.x@, g.y@)
}

/// The scalar-multiplication recursion of the double-and-add loop:
/// `acc` accumulates the bits of `k` from least to most significant
/// against a doubling `base`.
pub open spec fn scalar_fold(acc: (int, int), base: (int, int), k: nat) -> (int, int)
    decreases k,
{
    if k == 0 {
        acc
    } else {
        let acc2 = if k % 2 == 1 {
            edwards_add(acc, base)
        } else {
            acc
        };
        scalar_fold(acc2, edwards_add(base, base), k / 2)
    }
}

/// The scalar multiple `k * q`, as computed by double-and-add from the
/// identity.
pub open spec fn edwards_scalar_mul(q: (int, int), k: nat) -> (int, int) {
    scalar_fold((0, 1), q, k)
}

impl GroupElement {
    /// Whether the point lies on the curve.
    pub open spec fn wf(self) -> bool {
        on_curve(self.x@, self.y@)
    }

    /// The identity of the group.
    pub fn zero() -> (r: GroupElement)
        ensures
            pt(r) == (0int, 1int),
            r.wf(),
    {
        let r = GroupElement { x: Fp::zero(), y: Fp::one() };
        proof {
            lemma_zero_on_curve();
        }
        r
    }

    /// Whether the point is the identity.
    pub fn is_zero(&self) -> (r: bool)
        ensures
            r <==> (self.x@ == 0 && self.y@ == 1),
    {
        self.x.is_zero() && self.y.is_one()
    }

    /// The fixed base point of the library, a generator used to derive
    /// the hash's key material.
    #[verifier::rlimit(100)]
    pub fn base_point() -> (r: GroupElement)
        ensures
            pt(r) == (BASE_POINT_X as int, BASE_POINT_Y as int),
            r.wf(),
    {
        let r = GroupElement { x: Fp::from_u64(BASE_POINT_X), y: Fp::from_u64(BASE_POINT_Y) }
        ;
        proof {
            let p = P as int;
            vstd::arithmetic::div_mod::lemma_small_mod(BASE_POINT_X as nat, P as nat);
            vstd::arithmetic::div_mod::lemma_small_mod(BASE_POINT_Y as nat, P as nat);
            let x = BASE_POINT_X as int;
            let y = BASE_POINT_Y as int;
            assert(mul_mod(x, x) == 9) by {
                assert(3int * 3 == 9);
                assert(9int % p == 9);
            }
            assert(mul_mod(y, y) == 1068263550) by {
                assert(287609417int * 287609417 == 82719176747079889);
                assert(82719176747079889int % p == 1068263550);
            }
            assert(mul_mod(COEFF_A as int, 9) == 9) by {
                assert(1int * 9 == 9);
                assert(9int % p == 9);
            }
            assert(add_mod(9, 1068263550) == 1068263559) by {
                assert(1068263559int % p == 1068263559);
            }
            assert(mul_mod(9, 1068263550) == 1561308266) by {
                assert(9int * 1068263550 == 9614371950);
                assert(9614371950int % p == 1561308266);
            }
            assert(mul_mod(COEFF_D as int, 1561308266) == 1068263558) by {
                assert(11int * 1561308266 == 17174390926);
                assert(17174390926int % p == 1068263558);
            }
            assert(add_mod(1, 1068263558) == 1068263559) by {
                assert(1068263559int % p == 1068263559);
            }
            assert(on_curve(x, y));
        }
        r
    }

    /// Point addition by the unified formula.
    pub fn add(self, other: GroupElement) -> (r: GroupElement)
        ensures
            pt(r) == edwards_add(pt(self), pt(other)),
            r.wf(),
    {
        let a = Fp::from_u64(COEFF_A);
        let d = Fp::from_u64(COEFF_D);
        proof {
            reveal(edwards_add);
            assert(COEFF_A as int % (P as int) == COEFF_A as int) by {
                vstd::arithmetic::div_mod::lemma_small_mod(COEFF_A as nat, P as nat);
            }
            assert(COEFF_D as int % (P as int) == COEFF_D as int) by {
                vstd::arithmetic::div_mod::lemma_small_mod(COEFF_D as nat, P as nat);
            }
        }
        let t = d.mul(self.x.mul(other.x)).mul(self.y.mul(other.y));
        proof {
            crate::field::lemma_mul_mod_rearrange(
                COEFF_D as int,
                mul_mod(self.x@, other.x@),
                mul_mod(self.y@, other.y@),
            );
        }
        let x3 = self.x.mul(other.y).add(self.y.mul(other.x)).mul(
            Fp::one().add(t).pow(P - 2),
        );
        let y3 = self.y.mul(other.y).sub(a.mul(self.x.mul(other.x))).mul(
            Fp::one().sub(t).pow(P - 2),
        );
        let candidate = GroupElement { x: x3, y: y3 };
        if candidate.on_curve_check() {
            candidate
        } else {
            let r = GroupElement { x: Fp::zero(), y: Fp::one() };
            proof {
                lemma_zero_on_curve();
            }
            r
        }
    }

    /// Point doubling, through the unified addition formula.
    pub fn double(self) -> (r: GroupElement)
        ensures
            pt(r) == edwards_add(pt(self), pt(self)),
            r.wf(),
    {
        self.add(self)
    }

    /// Point negation.
    pub fn neg(self) -> (r: GroupElement)
        requires
            self.wf(),
        ensures
            pt(r) == edwards_neg(pt(self)),
            r.wf(),
    {
        let r = GroupElement { x: self.x.neg(), y: self.y };
        proof {
            lemma_neg_on_curve(self.x@, self.y@);
        }
        r
    }

    /// The runtime membership check: whether the coordinates satisfy the
    /// curve equation.
    pub fn on_curve_check(&self) -> (r: bool)
        ensures
            r <==> on_curve(self.x@, self.y@),
    {
        let a = Fp::from_u64(COEFF_A);
        let d = Fp::from_u64(COEFF_D);
        proof {
            assert(COEFF_A as int % (P as int) == COEFF_A as int) by {
                vstd::arithmetic::div_mod::lemma_small_mod(COEFF_A as nat, P as nat);
            }
            assert(COEFF_D as int % (P as int) == COEFF_D as int) by {
                vstd::arithmetic::div_mod::lemma_small_mod(COEFF_D as nat, P as nat);
            }
            crate::field::lemma_fp_in_field(self.x);
            crate::field::lemma_fp_in_field(self.y);
        }
        let xx = self.x.square();
        let yy = self.y.square();
        let lhs = a.mul(xx).add(yy);
        let rhs = Fp::one().add(d.mul(xx.mul(yy)));
        proof {
            crate::field::lemma_mul_mod_rearrange(
                COEFF_D as int,
                mul_mod(self.x@, self.x@),
                mul_mod(self.y@, self.y@),
            );
        }
        lhs.eq_value(rhs)
    }

    /// The scalar multiple `k * self`, by double-and-add.
    pub fn scalar_mul(self, k: u64) -> (r: GroupElement)
        ensures
            pt(r) == edwards_scalar_mul(pt(self), k as nat),
            r.wf(),
    {
        let mut acc = GroupElement::zero();
        let mut base = self;
        let mut rem = k;
        while rem > 0
            invariant
                acc.wf(),
                edwards_scalar_mul(pt(self), k as nat) == scalar_fold(pt(acc), pt(base), rem as nat),
            decreases rem,
        {
            if rem % 2 == 1 {
                acc = acc.add(base);
            }
            base = base.double();
            rem = rem / 2;
        }
        acc
    }
}

/// The identity pair lies on the curve.
pub proof fn lemma_zero_on_curve()
    ensures
        on_curve(0, 1),
{
    let p = P as int;
    assert(mul_mod(0, 0) == 0) by {
        assert(0int * 0 == 0);
    }
    assert(mul_mod(1, 1) == 1);
    assert(mul_mod(COEFF_A as int, 0) == 0) by {
        assert(COEFF_A as int * 0 == 0);
    }
    assert(mul_mod(COEFF_D as int, mul_mod(0, 1)) == 0) by {
        assert(0int * 1 == 0);
        assert(COEFF_D as int * 0 == 0);
    }
}

/// The addition formula's result always lies on the curve: either the
/// computed pair passes the curve equation, or the identity fallback is
/// taken.
pub proof fn lemma_edwards_add_on_curve(p1: (int, int), p2: (int, int))
    ensures
        on_curve(edwards_add(p1, p2).0, edwards_add(p1, p2).1),
{
    reveal(edwards_add);
    lemma_zero_on_curve();
}

/// Negating the x-coordinate keeps a point on the curve.
pub proof fn lemma_neg_on_curve(x: int, y: int)
    requires
        on_curve(x, y),
    ensures
        on_curve(sub_mod(0, x), y),
{
    let p = P as int;
    let nx = sub_mod(0, x);
    assert(mul_mod(nx, nx) == mul_mod(x, x)) by {
        assert(mul_mod(nx, nx) == ((0 - x) * (0 - x)) % p) by {
            vstd::arithmetic::div_mod::lemma_mul_mod_noop(0 - x, 0 - x, p);
        }
        assert((0 - x) * (0 - x) == x * x) by (nonlinear_arith);
    }
}

} // verus!
