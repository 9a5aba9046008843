//! A prime field with high two-adicity, suitable as the scalar field of an
//! FFT evaluation domain.
//!
//! The modulus is `P = 15 * 2^27 + 1 = 2013265921`, so the multiplicative
//! group has order `15 * 2^27` and contains a subgroup of order `2^k` for
//! every `k <= 27`. The element `31` generates the full multiplicative group.
//!
//! Elements are stored as a single reduced `u32`; every operation states its
//! result exactly as modular arithmetic on the mathematical values.

use vstd::prelude::*;

verus! {

/// The field modulus: `15 * 2^27 + 1`.
pub const P: u64 = 2013265921;

/// The largest `k` such that the multiplicative group has a subgroup of
/// order `2^k`.
pub const TWO_ADICITY: u32 = 27;

/// A generator of the full multiplicative group of the field.
pub const MULTIPLICATIVE_GENERATOR: u64 = 31;

/// Reduction of an arbitrary integer into the field.
pub open spec fn reduce(a: int) -> int {
    a % (P as int)
}

/// Modular addition on reduced representatives.
pub open spec fn add_mod(a: int, b: int) -> int {
    (a + b) % (P as int)
}

/// Modular subtraction on reduced representatives.
pub open spec fn sub_mod(a: int, b: int) -> int {
    (a - b) % (P as int)
}

/// Modular multiplication on reduced representatives.
pub open spec fn mul_mod(a: int, b: int) -> int {
    (a * b) % (P as int)
}

/// Modular exponentiation, defined by recursion on the exponent.
pub open spec fn pow_mod(a: int, e: nat) -> int
    decreases e,
{
    if e == 0 {
        1int % (P as int)
    } else {
        mul_mod(a, pow_mod(a, (e - 1) as nat))
    }
}

/// The multiplicative inverse map used by this library: `a^(P-2)`.
/// For nonzero `a` this is the inverse of `a`; it sends `0` to `0`.
pub open spec fn inv_mod(a: int) -> int {
    pow_mod(a, (P - 2) as nat)
}

/// Whether an integer is a reduced field representative.
pub open spec fn in_field(a: int) -> bool {
    0 <= a < P as int
}

/// An element of the prime field of order `P`, kept in reduced form.
#[derive(Clone, Copy, PartialEq, Eq, Structural, Debug, Hash)]
pub struct Fp {
    value: u32,
}

impl Fp {
    /// The mathematical value of this element: always a reduced
    /// representative, whatever the stored word holds.
    pub closed spec fn view(self) -> int {
        self.value as int % (P as int)
    }

    /// The additive identity.
    pub fn zero() -> (r: Fp)
        ensures
            r@ == 0,
    {
        Fp { value: 0 }
    }

    /// The multiplicative identity.
    pub fn one() -> (r: Fp)
        ensures
            r@ == 1,
    {
        Fp { value: 1 }
    }

    /// Embeds an arbitrary machine integer into the field by reduction.
    pub fn from_u64(a: u64) -> (r: Fp)
        ensures
            r@ == reduce(a as int),
            in_field(r@),
    {
        Fp { value: (a % P) as u32 }
    }

    /// Whether this element is zero.
    pub fn is_zero(self) -> (r: bool)
        ensures
            r <==> self@ == 0,
    {
        self.value as u64 % P == 0
    }

    /// Whether this element is one.
    pub fn is_one(self) -> (r: bool)
        ensures
            r <==> self@ == 1,
    {
        self.value as u64 % P == 1
    }

    /// Whether two elements are equal as field values.
    pub fn eq_value(self, other: Fp) -> (r: bool)
        ensures
            r <==> self@ == other@,
    {
        self.value as u64 % P == other.value as u64 % P
    }

    /// Field addition.
    pub fn add(self, other: Fp) -> (r: Fp)
        ensures
            r@ == add_mod(self@, other@),
            in_field(r@),
    {
        let s: u64 = self.value as u64 % P + other.value as u64 % P;
        let v: u64 = s % P;
        proof {
            lemma_reduce_is_mod(self@, other@, s as int);
        }
        Fp { value: v as u32 }
    }

    /// Field subtraction.
    pub fn sub(self, other: Fp) -> (r: Fp)
        ensures
            r@ == sub_mod(self@, other@),
            in_field(r@),
    {
        let a: u64 = self.value as u64 % P;
        let b: u64 = other.value as u64 % P;
        let v: u64 = (a + P - b) % P;
        proof {
            lemma_sub_is_mod(self@, other@, (a + P - b) as int);
        }
        Fp { value: v as u32 }
    }

    /// Field negation.
    pub fn neg(self) -> (r: Fp)
        ensures
            r@ == sub_mod(0, self@),
            in_field(r@),
    {
        Fp::zero().sub(self)
    }

    /// Field multiplication.
    pub fn mul(self, other: Fp) -> (r: Fp)
        ensures
            r@ == mul_mod(self@, other@),
            in_field(r@),
    {
        let a: u64 = self.value as u64 % P;
        let b: u64 = other.value as u64 % P;
        proof {
            assert(a * b < 0x4000000000000000) by (nonlinear_arith)
                requires
                    a < 0x78000001u64,
                    b < 0x78000001u64,
            ;
        }
        let prod: u64 = a * b;
        let v: u64 = prod % P;
        Fp { value: v as u32 }
    }

    /// Field squaring.
    pub fn square(self) -> (r: Fp)
        ensures
            r@ == mul_mod(self@, self@),
            in_field(r@),
    {
        self.mul(self)
    }

    /// Field doubling.
    pub fn double(self) -> (r: Fp)
        ensures
            r@ == add_mod(self@, self@),
            in_field(r@),
    {
        self.add(self)
    }

    /// The canonical machine word of this element.
    pub fn to_u32(self) -> (r: u32)
        ensures
            r as int == self@,
    {
        (self.value as u64 % P) as u32
    }

    /// Modular exponentiation by square-and-multiply.
    pub fn pow(self, e: u64) -> (r: Fp)
        ensures
            r@ == pow_mod(self@, e as nat),
            in_field(r@),
    {
        let mut base = self;
        let mut exp = e;
        let mut result = Fp::one();
        proof {
            lemma_pow_mod_in_field(self@, e as nat);
            lemma_mul_mod_one(pow_mod(self@, e as nat));
        }
        while exp > 0
            invariant
                pow_mod(self@, e as nat) == mul_mod(result@, pow_mod(base@, exp as nat)),
                in_field(result@),
                in_field(base@),
            decreases exp,
        {
            proof {
                lemma_pow_mod_in_field(base@, (exp / 2) as nat);
                lemma_pow_mod_halving(base@, exp as nat);
                if exp % 2 == 1 {
                    lemma_mul_mod_rearrange(result@, base@, pow_mod(mul_mod(base@, base@), (exp / 2) as nat));
                }
            }
            if exp % 2 == 1 {
                result = result.mul(base);
            }
            base = base.square();
            exp = exp / 2;
        }
        proof {
            lemma_mul_mod_one(result@);
        }
        result
    }

    /// The multiplicative inverse: `None` exactly when `self^(P-2)` fails
    /// the runtime product check, in particular always for zero.
    pub fn inverse(self) -> (r: Option<Fp>)
        ensures
            r matches Some(b) ==> b@ == inv_mod(self@) && mul_mod(self@, b@) == 1,
            r is Some <==> mul_mod(self@, inv_mod(self@)) == 1,
            self@ == 0 ==> r is None,
    {
        let candidate = self.pow(P - 2);
        if self.mul(candidate).is_one() {
            Some(candidate)
        } else {
            None
        }
    }
}

/// `1` is the unit of modular multiplication on reduced representatives.
pub proof fn lemma_mul_mod_one(a: int)
    requires
        in_field(a),
    ensures
        mul_mod(a, 1) == a,
        mul_mod(1, a) == a,
{
    let p = P as int;
    assert(a * 1 == a);
    assert(1 * a == a);
    assert(a % p == a) by {
        vstd::arithmetic::div_mod::lemma_small_mod(a as nat, p as nat);
    }
}

/// Every power is a reduced representative.
pub proof fn lemma_pow_mod_in_field(a: int, e: nat)
    ensures
        in_field(pow_mod(a, e)),
{
    let p = P as int;
    if e == 0 {
        assert(pow_mod(a, 0) == 1int % p);
    } else {
        assert(pow_mod(a, e) == mul_mod(a, pow_mod(a, (e - 1) as nat)));
        vstd::arithmetic::div_mod::lemma_mod_bound(a * pow_mod(a, (e - 1) as nat), p);
    }
}

/// Splits one squaring step off an exponentiation: for even exponents
/// `a^e == (a*a)^(e/2)`, and for odd ones `a^e == a * (a*a)^(e/2)`.
pub proof fn lemma_pow_mod_halving(a: int, e: nat)
    ensures
        e % 2 == 0 ==> pow_mod(a, e) == pow_mod(mul_mod(a, a), e / 2),
        e % 2 == 1 ==> pow_mod(a, e) == mul_mod(a, pow_mod(mul_mod(a, a), e / 2)),
    decreases e,
{
    let p = P as int;
    if e == 0 {
    } else if e == 1 {
        assert(pow_mod(a, 1) == mul_mod(a, pow_mod(a, 0)));
    } else {
        lemma_pow_mod_halving(a, (e - 2) as nat);
        let rest = pow_mod(a, (e - 2) as nat);
        assert(pow_mod(a, (e - 1) as nat) == mul_mod(a, rest));
        assert(pow_mod(a, e) == mul_mod(a, mul_mod(a, rest)));
        // a * ((a * rest) % p) % p == (a * a * rest) % p == ((a*a) % p) * rest % p
        assert(mul_mod(a, mul_mod(a, rest)) == (a * (a * rest)) % p) by {
            vstd::arithmetic::div_mod::lemma_mul_mod_noop_right(a, a * rest, p);
        }
        assert(a * (a * rest) == (a * a) * rest) by {
            vstd::arithmetic::mul::lemma_mul_is_associative(a, a, rest);
        }
        assert(((a * a) * rest) % p == mul_mod(mul_mod(a, a), rest)) by {
            vstd::arithmetic::div_mod::lemma_mul_mod_noop_left(a * a, rest, p);
        }
        let b = mul_mod(a, a);
        assert(pow_mod(a, e) == mul_mod(b, pow_mod(a, (e - 2) as nat)));
        if e % 2 == 0 {
            assert(pow_mod(a, (e - 2) as nat) == pow_mod(b, ((e - 2) / 2) as nat));
            assert(pow_mod(b, e / 2) == mul_mod(b, pow_mod(b, (e / 2 - 1) as nat)));
            assert((e - 2) / 2 == e / 2 - 1);
        } else {
            let r2 = pow_mod(b, ((e - 2) / 2) as nat);
            assert(pow_mod(a, (e - 2) as nat) == mul_mod(a, r2));
            assert((e - 2) / 2 == e / 2 - 1);
            // b * (a * r2 % p) % p == a * (b * r2 % p) % p
            assert(mul_mod(b, mul_mod(a, r2)) == mul_mod(a, mul_mod(b, r2))) by {
                lemma_mul_mod_rearrange_mid(b, a, r2);
            }
            assert(pow_mod(b, e / 2) == mul_mod(b, pow_mod(b, (e / 2 - 1) as nat)));
        }
    }
}

/// `x * ((y * z) % p) % p == (x * y) % p * z % p`, stated over `mul_mod`.
pub proof fn lemma_mul_mod_rearrange(x: int, y: int, z: int)
    ensures
        mul_mod(x, mul_mod(y, z)) == mul_mod(mul_mod(x, y), z),
{
    let p = P as int;
    assert(mul_mod(x, mul_mod(y, z)) == (x * (y * z)) % p) by {
        vstd::arithmetic::div_mod::lemma_mul_mod_noop_right(x, y * z, p);
    }
    assert(x * (y * z) == (x * y) * z) by {
        vstd::arithmetic::mul::lemma_mul_is_associative(x, y, z);
    }
    assert(((x * y) * z) % p == mul_mod(mul_mod(x, y), z)) by {
        vstd::arithmetic::div_mod::lemma_mul_mod_noop_left(x * y, z, p);
    }
}

/// `x * ((y * z) % p) % p == y * ((x * z) % p) % p`.
pub proof fn lemma_mul_mod_rearrange_mid(x: int, y: int, z: int)
    ensures
        mul_mod(x, mul_mod(y, z)) == mul_mod(y, mul_mod(x, z)),
{
    let p = P as int;
    assert(mul_mod(x, mul_mod(y, z)) == (x * (y * z)) % p) by {
        vstd::arithmetic::div_mod::lemma_mul_mod_noop_right(x, y * z, p);
    }
    assert(mul_mod(y, mul_mod(x, z)) == (y * (x * z)) % p) by {
        vstd::arithmetic::div_mod::lemma_mul_mod_noop_right(y, x * z, p);
    }
    assert(x * (y * z) == y * (x * z)) by {
        vstd::arithmetic::mul::lemma_mul_is_associative(x, y, z);
        vstd::arithmetic::mul::lemma_mul_is_associative(y, x, z);
        vstd::arithmetic::mul::lemma_mul_is_commutative(x, y);
    }
}

/// Commutativity of modular multiplication.
pub proof fn lemma_mul_mod_comm(x: int, y: int)
    ensures
        mul_mod(x, y) == mul_mod(y, x),
{
    vstd::arithmetic::mul::lemma_mul_is_commutative(x, y);
}

/// Exponents add: `a^(m+n) == a^m * a^n` modulo `P`.
pub proof fn lemma_pow_mod_add(a: int, m: nat, n: nat)
    ensures
        pow_mod(a, m + n) == mul_mod(pow_mod(a, m), pow_mod(a, n)),
    decreases m,
{
    if m == 0 {
        lemma_pow_mod_in_field(a, n);
        lemma_mul_mod_one(pow_mod(a, n));
        assert(mul_mod(pow_mod(a, 0), pow_mod(a, n)) == mul_mod(1, pow_mod(a, n)));
    } else {
        lemma_pow_mod_add(a, (m - 1) as nat, n);
        assert(pow_mod(a, m + n) == mul_mod(a, pow_mod(a, (m + n - 1) as nat)));
        lemma_mul_mod_rearrange(a, pow_mod(a, (m - 1) as nat), pow_mod(a, n));
        assert(pow_mod(a, m) == mul_mod(a, pow_mod(a, (m - 1) as nat)));
    }
}

/// Exponents multiply: `a^(m*n) == (a^m)^n` modulo `P`.
pub proof fn lemma_pow_mod_pow(a: int, m: nat, n: nat)
    ensures
        pow_mod(a, m * n) == pow_mod(pow_mod(a, m), n),
    decreases n,
{
    let b = pow_mod(a, m);
    if n == 0 {
        assert(m * 0 == 0);
    } else {
        lemma_pow_mod_pow(a, m, (n - 1) as nat);
        assert(m * n == m * (n - 1) + m) by {
            vstd::arithmetic::mul::lemma_mul_is_distributive_sub(m as int, n as int, 1);
        }
        lemma_pow_mod_add(a, (m * (n - 1)) as nat, m);
        assert(pow_mod(b, n) == mul_mod(b, pow_mod(b, (n - 1) as nat)));
        lemma_mul_mod_comm(pow_mod(b, (n - 1) as nat), b);
    }
}

/// Powers of one are one.
pub proof fn lemma_pow_mod_one_base(e: nat)
    ensures
        pow_mod(1, e) == 1,
    decreases e,
{
    if e == 0 {
    } else {
        lemma_pow_mod_one_base((e - 1) as nat);
        lemma_mul_mod_one(1);
    }
}

/// When `a^n == 1`, exponents can be reduced modulo `n`.
pub proof fn lemma_pow_mod_exp_reduce(a: int, e: nat, n: nat)
    requires
        n >= 1,
        pow_mod(a, n) == 1,
    ensures
        pow_mod(a, e) == pow_mod(a, e % n),
{
    let q = e / n;
    let r = e % n;
    assert(e == q * n + r) by {
        vstd::arithmetic::div_mod::lemma_fundamental_div_mod(e as int, n as int);
        vstd::arithmetic::mul::lemma_mul_is_commutative(n as int, q as int);
    }
    lemma_pow_mod_add(a, (q * n) as nat, r);
    assert(n * q == q * n) by {
        vstd::arithmetic::mul::lemma_mul_is_commutative(n as int, q as int);
    }
    lemma_pow_mod_pow(a, n, q);
    lemma_pow_mod_one_base(q);
    lemma_pow_mod_in_field(a, r);
    lemma_mul_mod_one(pow_mod(a, r));
}

/// Powers of `P - 1` alternate between `1` and `P - 1`.
pub proof fn lemma_pow_mod_neg_one(e: nat)
    ensures
        e % 2 == 0 ==> pow_mod((P - 1) as int, e) == 1,
        e % 2 == 1 ==> pow_mod((P - 1) as int, e) == (P - 1) as int,
    decreases e,
{
    let p = P as int;
    let a = (P - 1) as int;
    if e == 0 {
    } else {
        lemma_pow_mod_neg_one((e - 1) as nat);
        if e % 2 == 1 {
            lemma_mul_mod_one(a);
        } else {
            assert(pow_mod(a, e) == mul_mod(a, a));
            assert(a * a == p * (p - 2) + 1) by (nonlinear_arith)
                requires
                    a == p - 1,
            ;
            assert((p * (p - 2) + 1) % p == 1int % p) by {
                vstd::arithmetic::div_mod::lemma_mod_multiples_vanish(p - 2, 1, p);
            }
        }
    }
}

/// The square as a power: `a^2 == a * a` modulo `P`.
pub proof fn lemma_pow_mod_two(a: int)
    ensures
        pow_mod(a, 2) == mul_mod(a, a),
{
    let p = P as int;
    assert(pow_mod(a, 0) == 1int % p);
    assert(pow_mod(a, 1) == mul_mod(a, pow_mod(a, 0)));
    assert(mul_mod(a, 1int % p) == (a * 1) % p) by {
        vstd::arithmetic::div_mod::lemma_mul_mod_noop_right(a, 1, p);
    }
    assert(pow_mod(a, 2) == mul_mod(a, (a * 1) % p));
    assert(mul_mod(a, (a * 1) % p) == (a * a) % p) by {
        vstd::arithmetic::div_mod::lemma_mul_mod_noop_right(a, a, p);
    }
}

/// Every element's mathematical value is a reduced representative.
pub proof fn lemma_fp_in_field(x: Fp)
    ensures
        in_field(x@),
{
    vstd::arithmetic::div_mod::lemma_mod_bound(x.value as int, P as int);
}

/// `(P - 1)^2 == 1` modulo `P`.
pub proof fn lemma_neg_one_squared()
    ensures
        mul_mod((P - 1) as int, (P - 1) as int) == 1,
{
    let p = P as int;
    assert((p - 1) * (p - 1) == p * (p - 2) + 1) by (nonlinear_arith);
    assert((p * (p - 2) + 1) % p == 1int % p) by {
        vstd::arithmetic::div_mod::lemma_mod_multiples_vanish(p - 2, 1, p);
    }
}

/// The generator and two have full order: their `(P-1)`-th powers are
/// one.
pub proof fn lemma_full_orders()
    ensures
        pow_mod(MULTIPLICATIVE_GENERATOR as int, (P - 1) as nat) == 1,
        pow_mod(2, (P - 1) as nat) == 1,
{
    let h = ((P - 1) / 2) as nat;
    lemma_half_order_powers();
    assert(h + h == (P - 1) as nat);
    lemma_pow_mod_add(MULTIPLICATIVE_GENERATOR as int, h, h);
    lemma_neg_one_squared();
    lemma_pow_mod_add(2, h, h);
    assert(mul_mod(1, 1) == 1);
}

/// An element whose `(P-1)`-th power is one passes the inverse check:
/// multiplying it by its inverse-map image gives one.
pub proof fn lemma_inverse_check_from_order(a: int)
    requires
        pow_mod(a, (P - 1) as nat) == 1,
    ensures
        mul_mod(a, inv_mod(a)) == 1,
{
    assert(pow_mod(a, (P - 1) as nat) == mul_mod(a, pow_mod(a, (P - 2) as nat)));
}

/// Powers of an element of order dividing `P-1` have order dividing
/// `P-1` as well.
pub proof fn lemma_power_retains_order(a: int, e: nat)
    requires
        pow_mod(a, (P - 1) as nat) == 1,
    ensures
        pow_mod(pow_mod(a, e), (P - 1) as nat) == 1,
{
    lemma_pow_mod_pow(a, e, (P - 1) as nat);
    assert(e * ((P - 1) as nat) == ((P - 1) as nat) * e) by (nonlinear_arith);
    lemma_pow_mod_pow(a, (P - 1) as nat, e);
    lemma_pow_mod_one_base(e);
}

/// An element has at most one inverse: if `w * w_inv == 1` and
/// `w^n == 1`, then `w_inv` is the reduction of `w^(n-1)`.
pub proof fn lemma_inverse_is_power(w: int, w_inv: int, n: nat)
    requires
        n >= 1,
        in_field(w_inv),
        mul_mod(w, w_inv) == 1,
        pow_mod(w, n) == 1,
    ensures
        w_inv == pow_mod(w, (n - 1) as nat),
{
    let x = pow_mod(w, (n - 1) as nat);
    assert(pow_mod(w, n) == mul_mod(w, x));
    lemma_mul_mod_one(w_inv);
    assert(w_inv == mul_mod(w_inv, 1));
    assert(mul_mod(w_inv, mul_mod(w, x)) == mul_mod(mul_mod(w_inv, w), x)) by {
        lemma_mul_mod_rearrange(w_inv, w, x);
    }
    assert(mul_mod(w_inv, w) == mul_mod(w, w_inv)) by {
        lemma_mul_mod_comm(w_inv, w);
    }
    lemma_pow_mod_in_field(w, (n - 1) as nat);
    lemma_mul_mod_one(x);
}

proof fn lemma_reduce_is_mod(a: int, b: int, s: int)
    requires
        0 <= a,
        0 <= b,
        s == a % (P as int) + b % (P as int),
    ensures
        s % (P as int) == add_mod(a, b),
{
    let p = P as int;
    assert((a % p + b % p) % p == (a + b) % p) by {
        vstd::arithmetic::div_mod::lemma_add_mod_noop(a, b, p);
    }
}

proof fn lemma_sub_is_mod(a: int, b: int, s: int)
    requires
        0 <= a,
        0 <= b < P as int,
        s == a % (P as int) + (P as int) - b,
    ensures
        s % (P as int) == sub_mod(a, b),
{
    let p = P as int;
    assert(b % p == b) by {
        vstd::arithmetic::div_mod::lemma_small_mod(b as nat, p as nat);
    }
    assert((a % p - b % p) % p == (a - b) % p) by {
        vstd::arithmetic::div_mod::lemma_sub_mod_noop(a, b, p);
    }
    assert((a % p - b) % p == (a % p - b + p) % p) by {
        vstd::arithmetic::div_mod::lemma_mod_add_multiples_vanish(a % p - b, p);
    }
}


/// The generator is a quadratic non-residue and two is a residue: the
/// concrete values of their half-order powers.
#[verifier::spinoff_prover]
#[verifier::rlimit(100)]
pub proof fn lemma_half_order_powers()
    ensures
        pow_mod(MULTIPLICATIVE_GENERATOR as int, ((P - 1) / 2) as nat) == (P - 1) as int,
        pow_mod(2, ((P - 1) / 2) as nat) == 1,
{
    let p = P as int;
    assert(((P - 1) / 2) as nat == 1006632960);
    assert(pow_mod(31, 1) == 31) by {
        assert(pow_mod(31, 0) == 1int % p);
        assert(31int % p == 31);
    }
    assert(pow_mod(31, 2) == 961) by {
        lemma_pow_mod_add(31, 1, 1);
        assert(mul_mod(31, 31) == 961);
    }
    assert(pow_mod(31, 4) == 923521) by {
        lemma_pow_mod_add(31, 2, 2);
        assert(mul_mod(961, 961) == 923521);
    }
    assert(pow_mod(31, 8) == 1279552858) by {
        lemma_pow_mod_add(31, 4, 4);
        assert(mul_mod(923521, 923521) == 1279552858);
    }
    assert(pow_mod(31, 3) == 29791) by {
        lemma_pow_mod_add(31, 1, 2);
        assert(mul_mod(31, 961) == 29791);
    }
    assert(pow_mod(31, 7) == 1340157138) by {
        lemma_pow_mod_add(31, 3, 4);
        assert(mul_mod(29791, 923521) == 1340157138);
    }
    assert(pow_mod(31, 15) == 440564289) by {
        lemma_pow_mod_add(31, 7, 8);
        assert(mul_mod(1340157138, 1279552858) == 440564289);
    }
    assert(pow_mod(31, 30) == 975630072) by {
        lemma_pow_mod_add(31, 15, 15);
        assert(mul_mod(440564289, 440564289) == 975630072);
    }
    assert(pow_mod(31, 60) == 1149491290) by {
        lemma_pow_mod_add(31, 30, 30);
        assert(mul_mod(975630072, 975630072) == 1149491290);
    }
    assert(pow_mod(31, 120) == 1003846038) by {
        lemma_pow_mod_add(31, 60, 60);
        assert(mul_mod(1149491290, 1149491290) == 1003846038);
    }
    assert(pow_mod(31, 240) == 1267047229) by {
        lemma_pow_mod_add(31, 120, 120);
        assert(mul_mod(1003846038, 1003846038) == 1267047229);
    }
    assert(pow_mod(31, 480) == 570250684) by {
        lemma_pow_mod_add(31, 240, 240);
        assert(mul_mod(1267047229, 1267047229) == 570250684);
    }
    assert(pow_mod(31, 960) == 414040701) by {
        lemma_pow_mod_add(31, 480, 480);
        assert(mul_mod(570250684, 570250684) == 414040701);
    }
    assert(pow_mod(31, 1920) == 195061667) by {
        lemma_pow_mod_add(31, 960, 960);
        assert(mul_mod(414040701, 414040701) == 195061667);
    }
    assert(pow_mod(31, 3840) == 1049899240) by {
        lemma_pow_mod_add(31, 1920, 1920);
        assert(mul_mod(195061667, 195061667) == 1049899240);
    }
    assert(pow_mod(31, 7680) == 1559589183) by {
        lemma_pow_mod_add(31, 3840, 3840);
        assert(mul_mod(1049899240, 1049899240) == 1559589183);
    }
    assert(pow_mod(31, 15360) == 1286330022) by {
        lemma_pow_mod_add(31, 7680, 7680);
        assert(mul_mod(1559589183, 1559589183) == 1286330022);
    }
    assert(pow_mod(31, 30720) == 1421947380) by {
        lemma_pow_mod_add(31, 15360, 15360);
        assert(mul_mod(1286330022, 1286330022) == 1421947380);
    }
    assert(pow_mod(31, 61440) == 2009781145) by {
        lemma_pow_mod_add(31, 30720, 30720);
        assert(mul_mod(1421947380, 1421947380) == 2009781145);
    }
    assert(pow_mod(31, 122880) == 1657000625) by {
        lemma_pow_mod_add(31, 61440, 61440);
        assert(mul_mod(2009781145, 2009781145) == 1657000625);
    }
    assert(pow_mod(31, 245760) == 298008106) by {
        lemma_pow_mod_add(31, 122880, 122880);
        assert(mul_mod(1657000625, 1657000625) == 298008106);
    }
    assert(pow_mod(31, 491520) == 1282623253) by {
        lemma_pow_mod_add(31, 245760, 245760);
        assert(mul_mod(298008106, 298008106) == 1282623253);
    }
    assert(pow_mod(31, 983040) == 1340477990) by {
        lemma_pow_mod_add(31, 491520, 491520);
        assert(mul_mod(1282623253, 1282623253) == 1340477990);
    }
    assert(pow_mod(31, 1966080) == 341742893) by {
        lemma_pow_mod_add(31, 983040, 983040);
        assert(mul_mod(1340477990, 1340477990) == 341742893);
    }
    assert(pow_mod(31, 3932160) == 1753498361) by {
        lemma_pow_mod_add(31, 1966080, 1966080);
        assert(mul_mod(341742893, 341742893) == 1753498361);
    }
    assert(pow_mod(31, 7864320) == 1732600167) by {
        lemma_pow_mod_add(31, 3932160, 3932160);
        assert(mul_mod(1753498361, 1753498361) == 1732600167);
    }
    assert(pow_mod(31, 15728640) == 397765732) by {
        lemma_pow_mod_add(31, 7864320, 7864320);
        assert(mul_mod(1732600167, 1732600167) == 397765732);
    }
    assert(pow_mod(31, 31457280) == 1721589904) by {
        lemma_pow_mod_add(31, 15728640, 15728640);
        assert(mul_mod(397765732, 397765732) == 1721589904);
    }
    assert(pow_mod(31, 62914560) == 760005850) by {
        lemma_pow_mod_add(31, 31457280, 31457280);
        assert(mul_mod(1721589904, 1721589904) == 760005850);
    }
    assert(pow_mod(31, 125829120) == 196396260) by {
        lemma_pow_mod_add(31, 62914560, 62914560);
        assert(mul_mod(760005850, 760005850) == 196396260);
    }
    assert(pow_mod(31, 251658240) == 1592366214) by {
        lemma_pow_mod_add(31, 125829120, 125829120);
        assert(mul_mod(196396260, 196396260) == 1592366214);
    }
    assert(pow_mod(31, 503316480) == 1728404513) by {
        lemma_pow_mod_add(31, 251658240, 251658240);
        assert(mul_mod(1592366214, 1592366214) == 1728404513);
    }
    assert(pow_mod(31, 1006632960) == 2013265920) by {
        lemma_pow_mod_add(31, 503316480, 503316480);
        assert(mul_mod(1728404513, 1728404513) == 2013265920);
    }
    assert(pow_mod(2, 1) == 2) by {
        assert(pow_mod(2, 0) == 1int % p);
        assert(2int % p == 2);
    }
    assert(pow_mod(2, 2) == 4) by {
        lemma_pow_mod_add(2, 1, 1);
        assert(mul_mod(2, 2) == 4);
    }
    assert(pow_mod(2, 4) == 16) by {
        lemma_pow_mod_add(2, 2, 2);
        assert(mul_mod(4, 4) == 16);
    }
    assert(pow_mod(2, 8) == 256) by {
        lemma_pow_mod_add(2, 4, 4);
        assert(mul_mod(16, 16) == 256);
    }
    assert(pow_mod(2, 3) == 8) by {
        lemma_pow_mod_add(2, 1, 2);
        assert(mul_mod(2, 4) == 8);
    }
    assert(pow_mod(2, 7) == 128) by {
        lemma_pow_mod_add(2, 3, 4);
        assert(mul_mod(8, 16) == 128);
    }
    assert(pow_mod(2, 15) == 32768) by {
        lemma_pow_mod_add(2, 7, 8);
        assert(mul_mod(128, 256) == 32768);
    }
    assert(pow_mod(2, 30) == 1073741824) by {
        lemma_pow_mod_add(2, 15, 15);
        assert(mul_mod(32768, 32768) == 1073741824);
    }
    assert(pow_mod(2, 60) == 1709039071) by {
        lemma_pow_mod_add(2, 30, 30);
        assert(mul_mod(1073741824, 1073741824) == 1709039071);
    }
    assert(pow_mod(2, 120) == 584553003) by {
        lemma_pow_mod_add(2, 60, 60);
        assert(mul_mod(1709039071, 1709039071) == 584553003);
    }
    assert(pow_mod(2, 240) == 563168684) by {
        lemma_pow_mod_add(2, 120, 120);
        assert(mul_mod(584553003, 584553003) == 563168684);
    }
    assert(pow_mod(2, 480) == 1584030254) by {
        lemma_pow_mod_add(2, 240, 240);
        assert(mul_mod(563168684, 563168684) == 1584030254);
    }
    assert(pow_mod(2, 960) == 158733553) by {
        lemma_pow_mod_add(2, 480, 480);
        assert(mul_mod(1584030254, 1584030254) == 158733553);
    }
    assert(pow_mod(2, 1920) == 1763939212) by {
        lemma_pow_mod_add(2, 960, 960);
        assert(mul_mod(158733553, 158733553) == 1763939212);
    }
    assert(pow_mod(2, 3840) == 691259344) by {
        lemma_pow_mod_add(2, 1920, 1920);
        assert(mul_mod(1763939212, 1763939212) == 691259344);
    }
    assert(pow_mod(2, 7680) == 850357859) by {
        lemma_pow_mod_add(2, 3840, 3840);
        assert(mul_mod(691259344, 691259344) == 850357859);
    }
    assert(pow_mod(2, 15360) == 696955690) by {
        lemma_pow_mod_add(2, 7680, 7680);
        assert(mul_mod(850357859, 850357859) == 696955690);
    }
    assert(pow_mod(2, 30720) == 1816803640) by {
        lemma_pow_mod_add(2, 15360, 15360);
        assert(mul_mod(696955690, 696955690) == 1816803640);
    }
    assert(pow_mod(2, 61440) == 1601241332) by {
        lemma_pow_mod_add(2, 30720, 30720);
        assert(mul_mod(1816803640, 1816803640) == 1601241332);
    }
    assert(pow_mod(2, 122880) == 58735780) by {
        lemma_pow_mod_add(2, 61440, 61440);
        assert(mul_mod(1601241332, 1601241332) == 58735780);
    }
    assert(pow_mod(2, 245760) == 1648567141) by {
        lemma_pow_mod_add(2, 122880, 122880);
        assert(mul_mod(58735780, 58735780) == 1648567141);
    }
    assert(pow_mod(2, 491520) == 1061973763) by {
        lemma_pow_mod_add(2, 245760, 245760);
        assert(mul_mod(1648567141, 1648567141) == 1061973763);
    }
    assert(pow_mod(2, 983040) == 1653077195) by {
        lemma_pow_mod_add(2, 491520, 491520);
        assert(mul_mod(1061973763, 1061973763) == 1653077195);
    }
    assert(pow_mod(2, 1966080) == 1397122709) by {
        lemma_pow_mod_add(2, 983040, 983040);
        assert(mul_mod(1653077195, 1653077195) == 1397122709);
    }
    assert(pow_mod(2, 3932160) == 919403943) by {
        lemma_pow_mod_add(2, 1966080, 1966080);
        assert(mul_mod(1397122709, 1397122709) == 919403943);
    }
    assert(pow_mod(2, 7864320) == 7658004) by {
        lemma_pow_mod_add(2, 3932160, 3932160);
        assert(mul_mod(919403943, 919403943) == 7658004);
    }
    assert(pow_mod(2, 15728640) == 602251207) by {
        lemma_pow_mod_add(2, 7864320, 7864320);
        assert(mul_mod(7658004, 7658004) == 602251207);
    }
    assert(pow_mod(2, 31457280) == 889310574) by {
        lemma_pow_mod_add(2, 15728640, 15728640);
        assert(mul_mod(602251207, 602251207) == 889310574);
    }
    assert(pow_mod(2, 62914560) == 1816869661) by {
        lemma_pow_mod_add(2, 31457280, 31457280);
        assert(mul_mod(889310574, 889310574) == 1816869661);
    }
    assert(pow_mod(2, 125829120) == 1592366214) by {
        lemma_pow_mod_add(2, 62914560, 62914560);
        assert(mul_mod(1816869661, 1816869661) == 1592366214);
    }
    assert(pow_mod(2, 251658240) == 1728404513) by {
        lemma_pow_mod_add(2, 125829120, 125829120);
        assert(mul_mod(1592366214, 1592366214) == 1728404513);
    }
    assert(pow_mod(2, 503316480) == 2013265920) by {
        lemma_pow_mod_add(2, 251658240, 251658240);
        assert(mul_mod(1728404513, 1728404513) == 2013265920);
    }
    assert(pow_mod(2, 1006632960) == 1) by {
        lemma_pow_mod_add(2, 503316480, 503316480);
        assert(mul_mod(2013265920, 2013265920) == 1);
    }
}

} // verus!
