//! Polynomials over the field, their evaluation, and the summation
//! machinery that the transform contracts and laws are stated with.

use vstd::prelude::*;

use crate::field::{
    add_mod, in_field, mul_mod, pow_mod, sub_mod, Fp, P,
    lemma_mul_mod_comm, lemma_mul_mod_one, lemma_mul_mod_rearrange,
    lemma_mul_mod_rearrange_mid, lemma_pow_mod_add, lemma_pow_mod_in_field,
    lemma_pow_mod_neg_one, lemma_pow_mod_pow,
};

verus! {

/// The mathematical values of a vector of field elements.
pub open spec fn fp_values(v: Seq<Fp>) -> Seq<int> {
    v.map(|i: int, x: Fp| x@)
}

/// The modular sum of a sequence of integers.
pub open spec fn sum_mod(s: Seq<int>) -> int
    decreases s.len(),
{
    if s.len() == 0 {
        0
    } else {
        add_mod(s[0], sum_mod(s.drop_first()))
    }
}

/// Horner evaluation of a coefficient sequence at a point, modulo `P`.
/// `c[0]` is the constant coefficient.
pub open spec fn eval_poly(c: Seq<int>, x: int) -> int
    decreases c.len(),
{
    if c.len() == 0 {
        0
    } else {
        add_mod(c[0], mul_mod(x, eval_poly(c.drop_first(), x)))
    }
}

/// Associativity of modular addition on representatives.
pub proof fn lemma_add_mod_assoc(a: int, b: int, c: int)
    ensures
        add_mod(a, add_mod(b, c)) == add_mod(add_mod(a, b), c),
{
    let p = P as int;
    assert(add_mod(a, add_mod(b, c)) == (a + (b + c)) % p) by {
        vstd::arithmetic::div_mod::lemma_add_mod_noop_right(a, b + c, p);
    }
    assert(add_mod(add_mod(a, b), c) == ((a + b) + c) % p) by {
        vstd::arithmetic::div_mod::lemma_add_mod_noop(a + b, c, p);
        vstd::arithmetic::div_mod::lemma_mod_twice(a + b, p);
        vstd::arithmetic::div_mod::lemma_mod_twice(c, p);
        vstd::arithmetic::div_mod::lemma_add_mod_noop((a + b) % p, c % p, p);
    }
}

/// Combining two modular sums of pairs into a pair of modular sums.
pub proof fn lemma_add_mod_shuffle(a: int, b: int, c: int, d: int)
    ensures
        add_mod(add_mod(a, b), add_mod(c, d)) == add_mod(add_mod(a, c), add_mod(b, d)),
{
    let p = P as int;
    assert(add_mod(add_mod(a, b), add_mod(c, d)) == ((a + b) + (c + d)) % p) by {
        vstd::arithmetic::div_mod::lemma_add_mod_noop(a + b, c + d, p);
    }
    assert(add_mod(add_mod(a, c), add_mod(b, d)) == ((a + c) + (b + d)) % p) by {
        vstd::arithmetic::div_mod::lemma_add_mod_noop(a + c, b + d, p);
    }
}

/// Multiplication distributes over modular addition.
pub proof fn lemma_mul_mod_distrib(c: int, x: int, y: int)
    ensures
        mul_mod(c, add_mod(x, y)) == add_mod(mul_mod(c, x), mul_mod(c, y)),
{
    let p = P as int;
    assert(mul_mod(c, add_mod(x, y)) == (c * (x + y)) % p) by {
        vstd::arithmetic::div_mod::lemma_mul_mod_noop_right(c, x + y, p);
    }
    assert(c * (x + y) == c * x + c * y) by {
        vstd::arithmetic::mul::lemma_mul_is_distributive_add(c, x, y);
    }
    assert((c * x + c * y) % p == add_mod(mul_mod(c, x), mul_mod(c, y))) by {
        vstd::arithmetic::div_mod::lemma_add_mod_noop(c * x, c * y, p);
    }
}

/// A modular sum is a reduced representative (or zero for the empty sum).
pub proof fn lemma_sum_mod_in_field(s: Seq<int>)
    ensures
        0 <= sum_mod(s) < P as int,
    decreases s.len(),
{
    if s.len() == 0 {
    } else {
        lemma_sum_mod_in_field(s.drop_first());
        vstd::arithmetic::div_mod::lemma_mod_bound(
            s[0] + sum_mod(s.drop_first()),
            P as int,
        );
    }
}

/// Appending one term to a modular sum.
pub proof fn lemma_sum_mod_push(s: Seq<int>, x: int)
    ensures
        sum_mod(s.push(x)) == add_mod(sum_mod(s), x),
    decreases s.len(),
{
    let p = P as int;
    if s.len() == 0 {
        assert(s.push(x).drop_first() =~= Seq::<int>::empty());
        assert(s.push(x)[0] == x);
        assert(sum_mod(s.push(x)) == add_mod(x, sum_mod(Seq::<int>::empty())));
    } else {
        assert(s.push(x).drop_first() =~= s.drop_first().push(x));
        lemma_sum_mod_push(s.drop_first(), x);
        lemma_add_mod_assoc(s[0], sum_mod(s.drop_first()), x);
        // sum(s.push(x)) == add(s[0], add(sum(s'), x)) == add(add(s[0], sum(s')), x)
        // and add(s[0], sum(s')) == sum(s), reduced; reducing the left operand of
        // add_mod changes nothing.
        assert(add_mod(add_mod(s[0], sum_mod(s.drop_first())), x)
            == add_mod(sum_mod(s), x));
    }
}

/// A modular sum splits at any cut point.
pub proof fn lemma_sum_mod_split(s: Seq<int>, k: int)
    requires
        0 <= k <= s.len(),
    ensures
        sum_mod(s) == add_mod(sum_mod(s.take(k)), sum_mod(s.skip(k))),
    decreases s.len(),
{
    let p = P as int;
    if k == 0 {
        assert(s.take(0) =~= Seq::<int>::empty());
        assert(s.skip(0) =~= s);
        lemma_sum_mod_in_field(s);
        vstd::arithmetic::div_mod::lemma_small_mod(sum_mod(s) as nat, p as nat);
    } else {
        let d = s.drop_first();
        lemma_sum_mod_split(d, k - 1);
        assert(d.take(k - 1) =~= s.take(k).drop_first());
        assert(d.skip(k - 1) =~= s.skip(k));
        lemma_add_mod_assoc(s[0], sum_mod(d.take(k - 1)), sum_mod(s.skip(k)));
        assert(sum_mod(s.take(k)) == add_mod(s[0], sum_mod(d.take(k - 1))));
        assert(add_mod(add_mod(s[0], sum_mod(d.take(k - 1))), sum_mod(s.skip(k)))
            == add_mod(sum_mod(s.take(k)), sum_mod(s.skip(k))));
    }
}

/// The modular sum of an all-zero sequence.
pub proof fn lemma_sum_mod_zero(s: Seq<int>)
    requires
        forall|i: int| 0 <= i < s.len() ==> s[i] == 0,
    ensures
        sum_mod(s) == 0,
    decreases s.len(),
{
    if s.len() == 0 {
    } else {
        lemma_sum_mod_zero(s.drop_first());
    }
}

/// The modular sum of `n` ones.
pub proof fn lemma_sum_mod_ones(s: Seq<int>)
    requires
        forall|i: int| 0 <= i < s.len() ==> s[i] == 1,
    ensures
        sum_mod(s) == s.len() as int % (P as int),
    decreases s.len(),
{
    let p = P as int;
    if s.len() == 0 {
    } else {
        lemma_sum_mod_ones(s.drop_first());
        assert(sum_mod(s) == (1 + (s.len() - 1) % p) % p);
        vstd::arithmetic::div_mod::lemma_add_mod_noop_right(1, s.len() - 1, p);
    }
}

/// A sum that is zero everywhere except possibly at one index collapses
/// to that entry.
pub proof fn lemma_sum_mod_indicator(s: Seq<int>, j: int)
    requires
        0 <= j < s.len(),
        forall|i: int| 0 <= i < s.len() && i != j ==> s[i] == 0,
        in_field(s[j]),
    ensures
        sum_mod(s) == s[j],
    decreases s.len(),
{
    let p = P as int;
    if j == 0 {
        lemma_sum_mod_zero(s.drop_first());
        vstd::arithmetic::div_mod::lemma_small_mod(s[0] as nat, p as nat);
    } else {
        lemma_sum_mod_indicator(s.drop_first(), j - 1);
        vstd::arithmetic::div_mod::lemma_small_mod(s[j] as nat, p as nat);
    }
}

/// Sums of pointwise modular additions.
pub proof fn lemma_sum_mod_add(f: Seq<int>, g: Seq<int>)
    requires
        f.len() == g.len(),
    ensures
        sum_mod(Seq::new(f.len(), |i: int| add_mod(f[i], g[i])))
            == add_mod(sum_mod(f), sum_mod(g)),
    decreases f.len(),
{
    let n = f.len();
    let h = Seq::new(n, |i: int| add_mod(f[i], g[i]));
    if n == 0 {
    } else {
        let f1 = f.drop_first();
        let g1 = g.drop_first();
        lemma_sum_mod_add(f1, g1);
        assert(h.drop_first() =~= Seq::new(f1.len(), |i: int| add_mod(f1[i], g1[i])));
        lemma_add_mod_shuffle(f[0], g[0], sum_mod(f1), sum_mod(g1));
        // both sides reduce to add(add(f0, sum f1), add(g0, sum g1))
        assert(sum_mod(h) == add_mod(add_mod(f[0], g[0]), add_mod(sum_mod(f1), sum_mod(g1))));
    }
}

/// Scaling a modular sum by a common factor.
pub proof fn lemma_sum_mod_scale(c: int, f: Seq<int>)
    ensures
        sum_mod(Seq::new(f.len(), |i: int| mul_mod(c, f[i]))) == mul_mod(c, sum_mod(f)),
    decreases f.len(),
{
    let n = f.len();
    let h = Seq::new(n, |i: int| mul_mod(c, f[i]));
    if n == 0 {
        assert(mul_mod(c, 0) == 0);
    } else {
        let f1 = f.drop_first();
        lemma_sum_mod_scale(c, f1);
        assert(h.drop_first() =~= Seq::new(f1.len(), |i: int| mul_mod(c, f1[i])));
        lemma_mul_mod_distrib(c, f[0], sum_mod(f1));
        // sum(h) == add(mul(c, f0), mul(c, sum f1)) == mul(c, add(f0, sum f1))
        // and reducing the operand of mul_mod changes nothing.
        let p = P as int;
        assert(mul_mod(c, add_mod(f[0], sum_mod(f1))) == mul_mod(c, sum_mod(f)));
    }
}

/// Exchanging the order of a double modular sum.
pub proof fn lemma_sum_mod_swap(n: nat, m: nat, f: spec_fn(int, int) -> int)
    ensures
        sum_mod(Seq::new(n, |i: int| sum_mod(Seq::new(m, |j: int| f(i, j)))))
            == sum_mod(Seq::new(m, |j: int| sum_mod(Seq::new(n, |i: int| f(i, j))))),
    decreases n,
{
    let p = P as int;
    if n == 0 {
        let cols = Seq::new(m, |j: int| sum_mod(Seq::new(0nat, |i: int| f(i, j))));
        assert(forall|j: int| 0 <= j < m ==> cols[j] == 0);
        lemma_sum_mod_zero(cols);
    } else {
        let n1 = (n - 1) as nat;
        lemma_sum_mod_swap(n1, m, f);
        let rows = Seq::new(n, |i: int| sum_mod(Seq::new(m, |j: int| f(i, j))));
        let rows1 = Seq::new(n1, |i: int| sum_mod(Seq::new(m, |j: int| f(i, j))));
        assert(rows =~= rows1.push(sum_mod(Seq::new(m, |j: int| f(n1 as int, j)))));
        lemma_sum_mod_push(rows1, sum_mod(Seq::new(m, |j: int| f(n1 as int, j))));

        let cols = Seq::new(m, |j: int| sum_mod(Seq::new(n, |i: int| f(i, j))));
        let cols1 = Seq::new(m, |j: int| sum_mod(Seq::new(n1, |i: int| f(i, j))));
        let last = Seq::new(m, |j: int| f(n1 as int, j));
        assert forall|j: int| 0 <= j < m implies cols[j] == add_mod(cols1[j], last[j]) by {
            let whole = Seq::new(n, |i: int| f(i, j));
            let head = Seq::new(n1, |i: int| f(i, j));
            assert(whole =~= head.push(f(n1 as int, j)));
            lemma_sum_mod_push(head, f(n1 as int, j));
        }
        assert(cols =~= Seq::new(m, |j: int| add_mod(cols1[j], last[j])));
        lemma_sum_mod_add(cols1, last);
    }
}

/// Whether a natural number is a power of two.
pub open spec fn is_pow2(n: nat) -> bool
    decreases n,
{
    if n == 0 {
        false
    } else if n == 1 {
        true
    } else {
        n % 2 == 0 && is_pow2(n / 2)
    }
}

/// Rearranging a fourfold modular product.
pub proof fn lemma_mul_mod_shuffle(a: int, b: int, c: int, d: int)
    ensures
        mul_mod(mul_mod(a, b), mul_mod(c, d)) == mul_mod(mul_mod(a, c), mul_mod(b, d)),
{
    let p = P as int;
    assert(mul_mod(mul_mod(a, b), mul_mod(c, d)) == ((a * b) * (c * d)) % p) by {
        vstd::arithmetic::div_mod::lemma_mul_mod_noop(a * b, c * d, p);
    }
    assert(mul_mod(mul_mod(a, c), mul_mod(b, d)) == ((a * c) * (b * d)) % p) by {
        vstd::arithmetic::div_mod::lemma_mul_mod_noop(a * c, b * d, p);
    }
    assert((a * b) * (c * d) == (a * c) * (b * d)) by (nonlinear_arith);
}

/// An evaluation is a reduced representative (or zero for the empty
/// polynomial).
pub proof fn lemma_eval_poly_in_field(c: Seq<int>, x: int)
    ensures
        0 <= eval_poly(c, x) < P as int,
    decreases c.len(),
{
    if c.len() == 0 {
    } else {
        vstd::arithmetic::div_mod::lemma_mod_bound(
            c[0] + mul_mod(x, eval_poly(c.drop_first(), x)),
            P as int,
        );
    }
}

/// Horner evaluation equals the modular sum of `c[j] * x^j`.
pub proof fn lemma_eval_poly_as_sum(c: Seq<int>, x: int)
    ensures
        eval_poly(c, x) == sum_mod(
            Seq::new(c.len(), |j: int| mul_mod(c[j], pow_mod(x, j as nat))),
        ),
    decreases c.len(),
{
    let p = P as int;
    let n = c.len();
    let t = Seq::new(n, |j: int| mul_mod(c[j], pow_mod(x, j as nat)));
    if n == 0 {
    } else {
        let c1 = c.drop_first();
        lemma_eval_poly_as_sum(c1, x);
        let t1 = Seq::new(c1.len(), |j: int| mul_mod(c1[j], pow_mod(x, j as nat)));
        let scaled = Seq::new(t1.len(), |j: int| mul_mod(x, t1[j]));
        lemma_sum_mod_scale(x, t1);
        assert forall|j: int| 0 <= j < t1.len() implies t.drop_first()[j] == scaled[j] by {
            assert(t[j + 1] == mul_mod(c[j + 1], pow_mod(x, (j + 1) as nat)));
            assert(pow_mod(x, (j + 1) as nat) == mul_mod(x, pow_mod(x, j as nat)));
            lemma_mul_mod_rearrange_mid(x, c[j + 1], pow_mod(x, j as nat));
        }
        assert(t.drop_first() =~= scaled);
        assert(sum_mod(t) == add_mod(t[0], mul_mod(x, eval_poly(c1, x))));
        // the head term is `c[0]` reduced
        assert(t[0] == mul_mod(c[0], pow_mod(x, 0)));
        assert(pow_mod(x, 0) == 1int % p);
        assert(1int % p == 1);
        assert(c[0] * 1 == c[0]);
        assert(t[0] == c[0] % p);
        let m = mul_mod(x, eval_poly(c1, x));
        assert((c[0] % p + m) % p == (c[0] + m) % p) by {
            vstd::arithmetic::div_mod::lemma_add_mod_noop(c[0], m, p);
            vstd::arithmetic::div_mod::lemma_mod_bound(x * eval_poly(c1, x), p);
            vstd::arithmetic::div_mod::lemma_small_mod(m as nat, p as nat);
        }
    }
}

/// Powers of a modular product: `(a*b)^e == a^e * b^e` modulo `P`.
pub proof fn lemma_pow_mod_mul_base(a: int, b: int, e: nat)
    ensures
        pow_mod(mul_mod(a, b), e) == mul_mod(pow_mod(a, e), pow_mod(b, e)),
    decreases e,
{
    let p = P as int;
    let m = mul_mod(a, b);
    if e == 0 {
        lemma_mul_mod_one(1int % p);
    } else {
        lemma_pow_mod_mul_base(a, b, (e - 1) as nat);
        let a1 = pow_mod(a, (e - 1) as nat);
        let b1 = pow_mod(b, (e - 1) as nat);
        assert(pow_mod(m, e) == mul_mod(m, mul_mod(a1, b1)));
        lemma_mul_mod_shuffle(a, b, a1, b1);
        // mul(mul(a,b), mul(a1,b1)) needs one more reduction step on the left:
        assert(mul_mod(m, mul_mod(a1, b1)) == mul_mod(mul_mod(a, a1), mul_mod(b, b1))) by {
            let q = mul_mod(a1, b1);
            assert(mul_mod(m, q) == ((a * b) * q) % p) by {
                vstd::arithmetic::div_mod::lemma_mul_mod_noop_left(a * b, q, p);
            }
            assert(mul_mod(mul_mod(a, b), q) == ((a * b) * q) % p) by {
                vstd::arithmetic::div_mod::lemma_mul_mod_noop_left(a * b, q, p);
            }
        }
    }
}

/// Evaluating a power-scaled coefficient sequence is evaluation of the
/// original at a scaled point: if `c'[j] == c[j] * g^j`, then
/// `c'(x) == c(g*x)`.
pub proof fn lemma_eval_poly_scaled(c: Seq<int>, g: int, x: int)
    ensures
        eval_poly(
            Seq::new(c.len(), |j: int| mul_mod(c[j], pow_mod(g, j as nat))),
            x,
        ) == eval_poly(c, mul_mod(g, x)),
{
    let n = c.len();
    let scaled = Seq::new(n, |j: int| mul_mod(c[j], pow_mod(g, j as nat)));
    lemma_eval_poly_as_sum(scaled, x);
    lemma_eval_poly_as_sum(c, mul_mod(g, x));
    let ts = Seq::new(n, |j: int| mul_mod(scaled[j], pow_mod(x, j as nat)));
    let tc = Seq::new(n, |j: int| mul_mod(c[j], pow_mod(mul_mod(g, x), j as nat)));
    assert forall|j: int| 0 <= j < n implies ts[j] == tc[j] by {
        lemma_pow_mod_mul_base(g, x, j as nat);
        lemma_mul_mod_rearrange(c[j], pow_mod(g, j as nat), pow_mod(x, j as nat));
    }
    assert(ts =~= tc);
}

/// Orthogonality of the powers of a root of unity: for a `2^k`-th root
/// `w` with `w^(n/2) == P - 1` and any `0 < d < n`, the powers `w^(d*k)`
/// for `k` below `n` sum to zero.
pub proof fn lemma_geometric_zero(w: int, n: nat, d: nat)
    requires
        is_pow2(n),
        n >= 2,
        pow_mod(w, n / 2) == (P - 1) as int,
        0 < d < n,
    ensures
        sum_mod(Seq::new(n, |k: int| pow_mod(w, (d * k) as nat))) == 0,
    decreases n,
{
    let p = P as int;
    let h = (n / 2) as int;
    let s = Seq::new(n, |k: int| pow_mod(w, (d * k) as nat));
    let s1 = Seq::new(h as nat, |k: int| pow_mod(w, (d * k) as nat));
    lemma_sum_mod_split(s, h);
    assert(s.take(h) =~= s1);
    let s2 = s.skip(h);
    // each term of the upper half carries the common factor w^(d*h)
    let whd = pow_mod(w, (d * h) as nat);
    assert(whd == pow_mod((P - 1) as int, d)) by {
        assert(d * h == (n / 2) * d) by (nonlinear_arith)
            requires
                h == n / 2,
        ;
        lemma_pow_mod_pow(w, n / 2, d);
    }
    assert forall|k: int| 0 <= k < h implies s2[k] == mul_mod(whd, s1[k]) by {
        assert(s2[k] == pow_mod(w, (d * (k + h)) as nat));
        assert(d * (k + h) == d * k + d * h) by (nonlinear_arith);
        lemma_pow_mod_add(w, (d * k) as nat, (d * h) as nat);
        lemma_mul_mod_comm(pow_mod(w, (d * k) as nat), whd);
    }
    lemma_sum_mod_in_field(s1);
    let total = sum_mod(s1);
    if d % 2 == 1 {
        lemma_pow_mod_neg_one(d);
        assert(whd == p - 1);
        assert(s2 =~= Seq::new(h as nat, |k: int| mul_mod((p - 1), s1[k])));
        lemma_sum_mod_scale(p - 1, s1);
        // total + (p-1)*total == p*total, which vanishes modulo p
        assert(add_mod(total, mul_mod(p - 1, total)) == 0) by {
            assert(mul_mod(p - 1, total) == ((p - 1) * total) % p);
            assert(total + (p - 1) * total == p * total) by (nonlinear_arith);
            assert((total + ((p - 1) * total) % p) % p == (total + (p - 1) * total) % p) by {
                vstd::arithmetic::div_mod::lemma_add_mod_noop_right(total, (p - 1) * total, p);
            }
            assert((p * total) % p == 0) by {
                vstd::arithmetic::mul::lemma_mul_is_commutative(p, total);
                vstd::arithmetic::div_mod::lemma_mod_multiples_basic(total, p);
            }
        }
    } else {
        // d is even: the two halves agree, and the half-length sum is the
        // same geometric sum for w^2 with stride d/2, which vanishes by
        // induction.
        lemma_pow_mod_neg_one(d);
        assert(whd == 1);
        assert forall|k: int| 0 <= k < h implies s2[k] == s1[k] by {
            lemma_pow_mod_in_field(w, (d * k) as nat);
            lemma_mul_mod_one(pow_mod(w, (d * k) as nat));
        }
        assert(s2 =~= s1);
        let w2 = mul_mod(w, w);
        assert(pow_mod(w, 2) == w2) by {
            assert(pow_mod(w, 0) == 1int % p);
            assert(pow_mod(w, 1) == mul_mod(w, pow_mod(w, 0)));
            assert(pow_mod(w, 2) == mul_mod(w, mul_mod(w, 1int % p)));
            assert(mul_mod(w, 1int % p) == (w * 1) % p) by {
                vstd::arithmetic::div_mod::lemma_mul_mod_noop_right(w, 1, p);
            }
            assert(mul_mod(w, (w * 1) % p) == (w * w) % p) by {
                vstd::arithmetic::div_mod::lemma_mul_mod_noop_right(w, w, p);
            }
        }
        let h2 = (n / 2) as nat;
        assert(n >= 4) by {
            assert(d >= 2);
        }
        assert(is_pow2(h2));
        assert(h2 % 2 == 0) by {
            assert(is_pow2(h2) && h2 >= 2);
        }
        assert(pow_mod(w2, h2 / 2) == (P - 1) as int) by {
            assert(2 * (h2 / 2) == h2) by (nonlinear_arith)
                requires
                    h2 % 2 == 0,
            ;
            lemma_pow_mod_pow(w, 2, h2 / 2);
            assert(pow_mod(w, (2 * (h2 / 2)) as nat) == pow_mod(pow_mod(w, 2), h2 / 2));
        }
        lemma_geometric_zero(w2, h2, d / 2);
        let r = Seq::new(h2, |k: int| pow_mod(w2, ((d / 2) * k) as nat));
        assert forall|k: int| 0 <= k < h implies s1[k] == r[k] by {
            assert(d * k == 2 * ((d / 2) * k)) by (nonlinear_arith)
                requires
                    d % 2 == 0,
            ;
            lemma_pow_mod_pow(w, 2, ((d / 2) * k) as nat);
        }
        assert(s1 =~= r);
    }
}

/// The even-indexed coefficients of a polynomial.
pub open spec fn even_coeffs(c: Seq<int>) -> Seq<int> {
    Seq::new((c.len() + 1) / 2, |i: int| c[2 * i])
}

/// The odd-indexed coefficients of a polynomial.
pub open spec fn odd_coeffs(c: Seq<int>) -> Seq<int> {
    Seq::new(c.len() / 2, |i: int| c[2 * i + 1])
}

/// The even/odd decomposition behind the radix-2 transform:
/// `c(x) == e(x^2) + x * o(x^2)` where `e` and `o` hold the even- and
/// odd-indexed coefficients.
pub proof fn lemma_eval_poly_even_odd(c: Seq<int>, x: int)
    ensures
        eval_poly(c, x) == add_mod(
            eval_poly(even_coeffs(c), mul_mod(x, x)),
            mul_mod(x, eval_poly(odd_coeffs(c), mul_mod(x, x))),
        ),
    decreases c.len(),
{
    let p = P as int;
    let s = mul_mod(x, x);
    let n = c.len();
    if n == 0 {
        assert(even_coeffs(c) =~= Seq::<int>::empty());
        assert(odd_coeffs(c) =~= Seq::<int>::empty());
        assert(mul_mod(x, 0) == 0) by {
            assert(x * 0 == 0);
        }
    } else if n == 1 {
        assert(even_coeffs(c).len() == 1 && even_coeffs(c)[0] == c[0]);
        assert(odd_coeffs(c) =~= Seq::<int>::empty());
        lemma_eval_one_coeff(c, x);
        lemma_eval_one_coeff(even_coeffs(c), s);
        assert(mul_mod(x, 0) == 0) by {
            assert(x * 0 == 0);
        }
        assert((c[0] % p + 0) % p == c[0] % p) by {
            vstd::arithmetic::div_mod::lemma_mod_twice(c[0], p);
        }
    } else {
        let c2 = c.skip(2);
        lemma_eval_poly_even_odd(c2, x);
        let e2 = eval_poly(even_coeffs(c2), s);
        let o2 = eval_poly(odd_coeffs(c2), s);
        assert(even_coeffs(c).drop_first() =~= even_coeffs(c2));
        assert(odd_coeffs(c).drop_first() =~= odd_coeffs(c2));
        assert(c.drop_first().drop_first() =~= c2);
        assert(even_coeffs(c)[0] == c[0]);
        assert(odd_coeffs(c)[0] == c[1]);
        assert(c.drop_first()[0] == c[1]);
        // name the summands once
        let b = mul_mod(x, c[1]);
        let cc = mul_mod(s, e2);
        let dd = mul_mod(x, mul_mod(s, o2));
        // left side: c(x) == c0 + x*(c1 + x*(e2 + x*o2))
        assert(eval_poly(c, x) == add_mod(c[0], add_mod(b, add_mod(cc, dd)))) by {
            let inner = eval_poly(c2, x);
            assert(inner == add_mod(e2, mul_mod(x, o2)));
            assert(eval_poly(c.drop_first(), x) == add_mod(c[1], mul_mod(x, inner)));
            assert(eval_poly(c, x) == add_mod(c[0], mul_mod(x, add_mod(c[1], mul_mod(x, inner)))));
            lemma_mul_mod_distrib(x, c[1], mul_mod(x, inner));
            lemma_mul_mod_distrib(x, e2, mul_mod(x, o2));
            assert(mul_mod(x, inner) == add_mod(mul_mod(x, e2), mul_mod(x, mul_mod(x, o2))));
            assert(mul_mod(x, mul_mod(x, e2)) == cc) by {
                lemma_mul_mod_rearrange(x, x, e2);
            }
            assert(mul_mod(x, mul_mod(x, mul_mod(x, o2))) == dd) by {
                lemma_mul_mod_rearrange(x, x, mul_mod(x, o2));
                lemma_mul_mod_rearrange_mid(s, x, o2);
            }
            lemma_mul_mod_distrib(x, mul_mod(x, e2), mul_mod(x, mul_mod(x, o2)));
            assert(mul_mod(x, add_mod(c[1], mul_mod(x, inner)))
                == add_mod(b, add_mod(cc, dd)));
        }
        // right side: e(s) + x*o(s) == (c0 + s*e2) + x*(c1 + s*o2)
        let rhs = add_mod(
            eval_poly(even_coeffs(c), s),
            mul_mod(x, eval_poly(odd_coeffs(c), s)),
        );
        assert(rhs == add_mod(add_mod(c[0], cc), add_mod(b, dd))) by {
            assert(eval_poly(even_coeffs(c), s) == add_mod(c[0], cc));
            assert(eval_poly(odd_coeffs(c), s) == add_mod(c[1], mul_mod(s, o2)));
            lemma_mul_mod_distrib(x, c[1], mul_mod(s, o2));
        }
        // both are sums of the same four summands
        assert(add_mod(b, add_mod(cc, dd)) == add_mod(cc, add_mod(b, dd))) by {
            lemma_add_mod_assoc(b, cc, dd);
            lemma_add_mod_assoc(cc, b, dd);
        }
        lemma_add_mod_assoc(c[0], cc, add_mod(b, dd));
    }
}

/// A modular sum is unchanged by reversing the order of its terms.
pub proof fn lemma_sum_mod_reverse(s: Seq<int>)
    ensures
        sum_mod(Seq::new(s.len(), |k: int| s[s.len() - 1 - k])) == sum_mod(s),
    decreases s.len(),
{
    let n = s.len();
    if n == 0 {
        assert(Seq::new(0nat, |k: int| s[s.len() - 1 - k]) =~= Seq::<int>::empty());
    } else {
        let r = Seq::new(n, |k: int| s[n - 1 - k]);
        let s1 = s.drop_last();
        lemma_sum_mod_reverse(s1);
        let r1 = Seq::new(s1.len(), |k: int| s1[s1.len() - 1 - k]);
        // the reversal starts with the last element, then reverses the rest
        assert(r.drop_first() =~= r1);
        assert(r[0] == s[n - 1]);
        assert(sum_mod(r) == add_mod(s[n - 1], sum_mod(r1)));
        // and the original is its prefix extended by the last element
        assert(s =~= s1.push(s[n - 1]));
        lemma_sum_mod_push(s1, s[n - 1]);
        // add_mod commutes
        assert(add_mod(s[n - 1], sum_mod(s1)) == add_mod(sum_mod(s1), s[n - 1]));
    }
}

/// The factorization of a difference of powers:
/// `(a - b) * (a^(n-1) + a^(n-2) b + ... + b^(n-1)) == a^n - b^n`.
pub proof fn lemma_pow_diff_factor(a: int, b: int, n: nat)
    ensures
        mul_mod(
            sub_mod(a, b),
            sum_mod(
                Seq::new(n, |k: int| mul_mod(pow_mod(a, (n - 1 - k) as nat), pow_mod(b, k as nat))),
            ),
        ) == sub_mod(pow_mod(a, n), pow_mod(b, n)),
    decreases n,
{
    let p = P as int;
    let d = sub_mod(a, b);
    let terms = Seq::new(n, |k: int| mul_mod(pow_mod(a, (n - 1 - k) as nat), pow_mod(b, k as nat)));
    if n == 0 {
        assert(d * 0 == 0);
        assert(sub_mod(1int % p, 1int % p) == 0) by {
            vstd::arithmetic::div_mod::lemma_mod_bound(1, p);
        }
    } else {
        lemma_pow_diff_factor(a, b, (n - 1) as nat);
        let n1 = (n - 1) as nat;
        let terms1 = Seq::new(
            n1,
            |k: int| mul_mod(pow_mod(a, (n1 - 1 - k) as nat), pow_mod(b, k as nat)),
        );
        let s1 = sum_mod(terms1);
        // the first n-1 terms carry a common factor of a
        let scaled = Seq::new(n1, |k: int| mul_mod(a, terms1[k]));
        assert forall|k: int| 0 <= k < n1 implies terms[k] == scaled[k] by {
            assert(pow_mod(a, (n - 1 - k) as nat) == mul_mod(a, pow_mod(a, (n - 2 - k) as nat)));
            lemma_mul_mod_rearrange(a, pow_mod(a, (n - 2 - k) as nat), pow_mod(b, k as nat));
        }
        lemma_sum_mod_scale(a, terms1);
        // split off the last term, b^(n-1)
        assert(terms =~= terms.drop_last().push(terms[n as int - 1]));
        lemma_sum_mod_push(terms.drop_last(), terms[n as int - 1]);
        assert(terms.drop_last() =~= scaled);
        assert(terms[n as int - 1] == mul_mod(pow_mod(a, 0), pow_mod(b, (n - 1) as nat)));
        let bn1 = pow_mod(b, (n - 1) as nat);
        assert(terms[n as int - 1] == bn1) by {
            assert(pow_mod(a, 0) == 1int % p);
            lemma_pow_mod_in_field(b, (n - 1) as nat);
            lemma_mul_mod_one(bn1);
            lemma_mul_mod_comm(1int % p, bn1);
            assert(mul_mod(1int % p, bn1) == mul_mod(bn1, 1int % p));
            assert(mul_mod(bn1, 1int % p) == (bn1 * 1) % p) by {
                vstd::arithmetic::div_mod::lemma_mul_mod_noop_right(bn1, 1, p);
            }
            vstd::arithmetic::div_mod::lemma_small_mod(bn1 as nat, p as nat);
        }
        // sum(terms) == a * s1 + b^(n-1)
        assert(sum_mod(terms) == add_mod(mul_mod(a, s1), bn1));
        // multiply through by (a - b) and regroup:
        // d * (a*s1 + bn1) == a * (d * s1) + d * bn1
        assert(mul_mod(d, sum_mod(terms)) == add_mod(
            mul_mod(a, mul_mod(d, s1)),
            mul_mod(d, bn1),
        )) by {
            lemma_mul_mod_distrib(d, mul_mod(a, s1), bn1);
            lemma_mul_mod_rearrange_mid(d, a, s1);
        }
        // a * (a^(n-1) - b^(n-1)) == a^n - a*b^(n-1)
        assert(mul_mod(a, mul_mod(d, s1)) == sub_mod(
            pow_mod(a, n),
            mul_mod(a, bn1),
        )) by {
            assert(mul_mod(d, s1) == sub_mod(pow_mod(a, n1), pow_mod(b, n1)));
            lemma_mul_mod_sub_distrib(a, pow_mod(a, n1), pow_mod(b, n1));
            assert(pow_mod(a, n) == mul_mod(a, pow_mod(a, n1)));
        }
        // d * b^(n-1) == a*b^(n-1) - b^n
        assert(mul_mod(d, bn1) == sub_mod(mul_mod(a, bn1), pow_mod(b, n))) by {
            lemma_mul_mod_comm(d, bn1);
            lemma_mul_mod_sub_distrib(bn1, a, b);
            assert(mul_mod(bn1, a) == mul_mod(a, bn1)) by {
                lemma_mul_mod_comm(bn1, a);
            }
            assert(mul_mod(bn1, b) == pow_mod(b, n)) by {
                lemma_mul_mod_comm(bn1, b);
                assert(pow_mod(b, n) == mul_mod(b, bn1));
            }
        }
        // the middle terms cancel
        assert(add_mod(
            sub_mod(pow_mod(a, n), mul_mod(a, bn1)),
            sub_mod(mul_mod(a, bn1), pow_mod(b, n)),
        ) == sub_mod(pow_mod(a, n), pow_mod(b, n))) by {
            lemma_add_sub_cancel(pow_mod(a, n), mul_mod(a, bn1), pow_mod(b, n));
        }
    }
}

/// Multiplication distributes over modular subtraction.
pub proof fn lemma_mul_mod_sub_distrib(c: int, x: int, y: int)
    ensures
        mul_mod(c, sub_mod(x, y)) == sub_mod(mul_mod(c, x), mul_mod(c, y)),
{
    let p = P as int;
    assert(mul_mod(c, sub_mod(x, y)) == (c * (x - y)) % p) by {
        vstd::arithmetic::div_mod::lemma_mul_mod_noop_right(c, x - y, p);
    }
    assert(c * (x - y) == c * x - c * y) by {
        vstd::arithmetic::mul::lemma_mul_is_distributive_sub(c, x, y);
    }
    assert((c * x - c * y) % p == sub_mod(mul_mod(c, x), mul_mod(c, y))) by {
        vstd::arithmetic::div_mod::lemma_sub_mod_noop(c * x, c * y, p);
    }
}

/// `(x - m) + (m - y) == x - y` under the modulus.
pub proof fn lemma_add_sub_cancel(x: int, m: int, y: int)
    ensures
        add_mod(sub_mod(x, m), sub_mod(m, y)) == sub_mod(x, y),
{
    let p = P as int;
    assert(add_mod(sub_mod(x, m), sub_mod(m, y)) == ((x - m) + (m - y)) % p) by {
        vstd::arithmetic::div_mod::lemma_add_mod_noop(x - m, m - y, p);
    }
}

/// The product of two modular sums is the double sum of the pairwise
/// products.
pub proof fn lemma_sum_mod_product(x: Seq<int>, y: Seq<int>)
    ensures
        mul_mod(sum_mod(x), sum_mod(y)) == sum_mod(
            Seq::new(x.len(), |k: int| sum_mod(Seq::new(y.len(), |j: int| mul_mod(x[k], y[j])))),
        ),
    decreases x.len(),
{
    let p = P as int;
    let n = x.len();
    let rows = Seq::new(n, |k: int| sum_mod(Seq::new(y.len(), |j: int| mul_mod(x[k], y[j]))));
    if n == 0 {
        assert(0int * sum_mod(y) == 0);
    } else {
        let x1 = x.drop_first();
        lemma_sum_mod_product(x1, y);
        let rows1 = Seq::new(
            x1.len(),
            |k: int| sum_mod(Seq::new(y.len(), |j: int| mul_mod(x1[k], y[j]))),
        );
        assert(rows.drop_first() =~= rows1);
        // (x0 + rest) * Y == x0 * Y + rest * Y
        assert(mul_mod(sum_mod(x), sum_mod(y)) == add_mod(
            mul_mod(x[0], sum_mod(y)),
            mul_mod(sum_mod(x1), sum_mod(y)),
        )) by {
            lemma_mul_mod_comm(sum_mod(x), sum_mod(y));
            lemma_mul_mod_distrib(sum_mod(y), x[0], sum_mod(x1));
            lemma_mul_mod_comm(sum_mod(y), x[0]);
            lemma_mul_mod_comm(sum_mod(y), sum_mod(x1));
        }
        // x0 * Y is the first row
        assert(mul_mod(x[0], sum_mod(y)) == rows[0]) by {
            lemma_sum_mod_scale(x[0], y);
            assert(Seq::new(y.len(), |j: int| mul_mod(x[0], y[j])) =~= Seq::new(
                y.len(),
                |j: int| mul_mod(x[0], y[j]),
            ));
        }
        assert(sum_mod(rows) == add_mod(rows[0], sum_mod(rows1)));
    }
}

/// The discrete Fourier transform of a coefficient sequence: entry `i`
/// is the evaluation at `w^i`.
pub open spec fn dft_values(a: Seq<int>, w: int) -> Seq<int> {
    Seq::new(a.len(), |i: int| eval_poly(a, pow_mod(w, i as nat)))
}

/// The modular sum of the `n` powers `w^(d*k)`: `n` when `d == 0`, and
/// zero for any other stride below `n`, by orthogonality.
pub proof fn lemma_power_sum(w: int, n: nat, d: nat)
    requires
        is_pow2(n),
        n >= 2 ==> pow_mod(w, n / 2) == (P - 1) as int,
        d < n,
    ensures
        sum_mod(Seq::new(n, |k: int| pow_mod(w, (d * k) as nat)))
            == if d == 0 { n as int % (P as int) } else { 0 },
{
    let p = P as int;
    let s = Seq::new(n, |k: int| pow_mod(w, (d * k) as nat));
    if d == 0 {
        assert forall|k: int| 0 <= k < n implies s[k] == 1 by {
            assert(0 * k == 0) by (nonlinear_arith);
            assert(pow_mod(w, 0) == 1int % p);
        }
        lemma_sum_mod_ones(s);
    } else {
        lemma_geometric_zero(w, n, d);
    }
}

/// One term of the inverse transform: multiplying the `k`-th forward
/// value by the `k`-th power of the evaluation point `w_inv^j` is a sum
/// of powers of `w` with exponents linear in `k`.
proof fn lemma_dft_term(a: Seq<int>, w: int, j: int, k: int)
    requires
        0 <= j < a.len(),
        0 <= k < a.len(),
        a.len() >= 2,
        pow_mod(w, a.len()) == 1,
    ensures
        mul_mod(
            dft_values(a, w)[k],
            pow_mod(pow_mod(w, ((a.len() - 1) * j) as nat), k as nat),
        ) == sum_mod(
            Seq::new(
                a.len(),
                |i: int| mul_mod(a[i], pow_mod(w, ((i + (a.len() - 1) * j) * k) as nat)),
            ),
        ),
{
    let p = P as int;
    let n = a.len();
    let nj = ((n - 1) * j) as nat;
    let ck = pow_mod(pow_mod(w, nj), k as nat);
    assert(ck == pow_mod(w, (nj * k) as nat)) by {
        lemma_pow_mod_pow(w, nj, k as nat);
    }
    assert(dft_values(a, w)[k] == eval_poly(a, pow_mod(w, k as nat)));
    lemma_eval_poly_as_sum(a, pow_mod(w, k as nat));
    let ak = Seq::new(n, |i: int| mul_mod(a[i], pow_mod(pow_mod(w, k as nat), i as nat)));
    let ak2 = Seq::new(n, |i: int| mul_mod(a[i], pow_mod(w, (k * i) as nat)));
    assert forall|i: int| 0 <= i < n implies ak[i] == ak2[i] by {
        lemma_pow_mod_pow(w, k as nat, i as nat);
    }
    assert(ak =~= ak2);
    let s = sum_mod(ak2);
    lemma_mul_mod_comm(s, ck);
    lemma_sum_mod_scale(ck, ak2);
    let scaled = Seq::new(n, |i: int| mul_mod(ck, ak2[i]));
    let target = Seq::new(n, |i: int| mul_mod(a[i], pow_mod(w, ((i + (n - 1) * j) * k) as nat)));
    assert forall|i: int| 0 <= i < n implies scaled[i] == target[i] by {
        lemma_mul_mod_rearrange_mid(ck, a[i], pow_mod(w, (k * i) as nat));
        lemma_mul_mod_comm(ck, pow_mod(w, (k * i) as nat));
        lemma_pow_mod_add(w, (k * i) as nat, (nj * k) as nat);
        assert(k * i + nj * k == (i + (n - 1) * j) * k) by (nonlinear_arith)
            requires
                nj == (n - 1) * j,
        ;
    }
    assert(scaled =~= target);
}

/// Inversion of the discrete Fourier transform: evaluating the forward
/// values at powers of the inverse root and scaling by the inverse of
/// the length recovers each original coefficient.
pub proof fn lemma_dft_inversion(a: Seq<int>, w: int, w_inv: int, n_inv: int, j: int)
    requires
        is_pow2(a.len()),
        forall|i: int| 0 <= i < a.len() ==> in_field(#[trigger] a[i]),
        in_field(w_inv),
        mul_mod(w, w_inv) == 1,
        a.len() >= 2 ==> pow_mod(w, a.len() / 2) == (P - 1) as int,
        mul_mod(n_inv, a.len() as int) == 1,
        0 <= j < a.len(),
    ensures
        mul_mod(n_inv, eval_poly(dft_values(a, w), pow_mod(w_inv, j as nat))) == a[j],
{
    let p = P as int;
    let n = a.len();
    if n == 1 {
        assert(j == 0);
        assert(pow_mod(w_inv, 0) == 1int % p);
        let dv = dft_values(a, w);
        assert(dv.len() == 1);
        lemma_eval_one_coeff(a, pow_mod(w, 0));
        lemma_eval_one_coeff(dv, 1);
        assert(dv[0] == a[0] % p);
        vstd::arithmetic::div_mod::lemma_small_mod(a[0] as nat, p as nat);
        assert(eval_poly(dv, 1) == a[0]);
        // n_inv acts as one, since n_inv * 1 == 1 modulo p
        assert(mul_mod(n_inv, a[0]) == a[0]) by {
            assert(mul_mod(n_inv, 1) == n_inv % p) by {
                assert(n_inv * 1 == n_inv);
            }
            assert((n_inv % p) * a[0] % p == (n_inv * a[0]) % p) by {
                vstd::arithmetic::div_mod::lemma_mul_mod_noop_left(n_inv, a[0], p);
            }
            assert(1 * a[0] == a[0]);
            vstd::arithmetic::div_mod::lemma_small_mod(a[0] as nat, p as nat);
        }
    } else {
        let h = n / 2;
        assert(pow_mod(w, n) == 1) by {
            assert(h + h == n);
            lemma_pow_mod_add(w, h, h);
            assert(mul_mod((p - 1), (p - 1)) == 1) by {
                assert((p - 1) * (p - 1) == p * (p - 2) + 1) by (nonlinear_arith);
                assert((p * (p - 2) + 1) % p == 1int % p) by {
                    vstd::arithmetic::div_mod::lemma_mod_multiples_vanish(p - 2, 1, p);
                }
            }
        }
        crate::field::lemma_inverse_is_power(w, w_inv, n);
        let x = pow_mod(w_inv, j as nat);
        let dv = dft_values(a, w);
        lemma_eval_poly_as_sum(dv, x);
        let t = Seq::new(n, |k: int| mul_mod(dv[k], pow_mod(x, k as nat)));
        let f = |k: int, i: int| mul_mod(a[i], pow_mod(w, ((i + (n - 1) * j) * k) as nat));
        let t2 = Seq::new(n, |k: int| sum_mod(Seq::new(n, |i: int| f(k, i))));
        assert forall|k: int| 0 <= k < n implies t[k] == t2[k] by {
            // x == w^((n-1)*j), so x^k is the power used by lemma_dft_term
            assert(pow_mod(w_inv, j as nat) == pow_mod(pow_mod(w, (n - 1) as nat), j as nat)) by {
                assert(w_inv == pow_mod(w, (n - 1) as nat));
            }
            lemma_pow_mod_pow(w, (n - 1) as nat, j as nat);
            assert(((n - 1) as nat) * (j as nat) == ((n - 1) * j) as nat);
            lemma_dft_term(a, w, j, k);
            assert(Seq::new(n, |i: int| mul_mod(a[i], pow_mod(w, ((i + (n - 1) * j) * k) as nat)))
                =~= Seq::new(n, |i: int| f(k, i)));
        }
        assert(t =~= t2);
        lemma_sum_mod_swap(n, n, f);
        let g = Seq::new(n, |i: int| sum_mod(Seq::new(n, |k: int| f(k, i))));
        assert(sum_mod(t2) == sum_mod(g)) by {
            assert(t2 =~= Seq::new(n, |k: int| sum_mod(Seq::new(n, |i: int| f(k, i)))));
            assert(g =~= Seq::new(n, |i: int| sum_mod(Seq::new(n, |k: int| f(k, i)))));
        }
        // the inner sum for row i is a power sum with stride (i - j) mod n
        assert forall|i: int| 0 <= i < n implies
            g[i] == if i == j { mul_mod(a[i], n as int % p) } else { 0 } by {
            lemma_dft_row(a, w, j, i);
            assert(Seq::new(n, |k: int| f(k, i)) =~= Seq::new(
                n,
                |k: int| mul_mod(a[i], pow_mod(w, ((i + (n - 1) * j) * k) as nat)),
            ));
        }
        let expected = mul_mod(a[j], n as int % p);
        assert(g =~= Seq::new(n, |i: int| if i == j { expected } else { 0 }));
        lemma_sum_mod_indicator(g, j) ;
        // finally cancel n against its inverse
        assert(mul_mod(n_inv, mul_mod(a[j], n as int % p)) == a[j]) by {
            lemma_mul_mod_rearrange_mid(n_inv, a[j], n as int % p);
            assert(mul_mod(n_inv, n as int % p) == mul_mod(n_inv, n as int)) by {
                vstd::arithmetic::div_mod::lemma_mul_mod_noop_right(n_inv, n as int, p);
            }
            lemma_mul_mod_one(a[j]);
        }
    }
}

/// Evaluation of a single-coefficient polynomial.
pub proof fn lemma_eval_one_coeff(c: Seq<int>, x: int)
    requires
        c.len() == 1,
    ensures
        eval_poly(c, x) == c[0] % (P as int),
{
    let p = P as int;
    assert(eval_poly(c.drop_first(), x) == 0);
    assert(mul_mod(x, 0) == 0) by {
        assert(x * 0 == 0);
    }
    assert(eval_poly(c, x) == (c[0] + 0) % p);
}

/// Row `i` of the exchanged double sum: the full power sum against
/// stride `(i - j) mod n`, scaled by `a[i]`.
proof fn lemma_dft_row(a: Seq<int>, w: int, j: int, i: int)
    requires
        is_pow2(a.len()),
        a.len() >= 2,
        pow_mod(w, a.len() / 2) == (P - 1) as int,
        pow_mod(w, a.len()) == 1,
        forall|q: int| 0 <= q < a.len() ==> in_field(#[trigger] a[q]),
        0 <= j < a.len(),
        0 <= i < a.len(),
    ensures
        sum_mod(
            Seq::new(
                a.len(),
                |k: int| mul_mod(a[i], pow_mod(w, ((i + (a.len() - 1) * j) * k) as nat)),
            ),
        ) == if i == j { mul_mod(a[i], a.len() as int % (P as int)) } else { 0 },
{
    let p = P as int;
    let n = a.len();
    let e = i + (n - 1) * j;
    // e == (i - j) + n * j, so e mod n == (i - j) mod n
    assert(0 <= e && e == (n as int) * j + (i - j)) by (nonlinear_arith)
        requires
            e == i + (n - 1) * j,
            0 <= i,
            0 <= j,
            n >= 2,
    ;
    let d = e % (n as int);
    assert(0 <= d < n);
    assert(e % (n as int) == (i - j) % (n as int)) by {
        vstd::arithmetic::div_mod::lemma_mod_multiples_vanish(j, i - j, n as int);
    }
    if i == j {
        assert(d == 0) by {
            vstd::arithmetic::div_mod::lemma_small_mod(0nat, n);
        }
    } else if i > j {
        assert(d == i - j) by {
            vstd::arithmetic::div_mod::lemma_small_mod((i - j) as nat, n);
        }
    } else {
        assert(d == i - j + n) by {
            vstd::arithmetic::div_mod::lemma_mod_add_multiples_vanish(i - j, n as int);
            vstd::arithmetic::div_mod::lemma_small_mod((i - j + n) as nat, n);
        }
    }
    assert(i == j <==> d == 0);
    let terms = Seq::new(n, |k: int| pow_mod(w, ((e as nat) * k) as nat));
    let reduced = Seq::new(n, |k: int| pow_mod(w, ((d as nat) * k) as nat));
    assert forall|k: int| 0 <= k < n implies terms[k] == reduced[k] by {
        crate::field::lemma_pow_mod_exp_reduce(w, ((e as nat) * k) as nat, n);
        crate::field::lemma_pow_mod_exp_reduce(w, ((d as nat) * k) as nat, n);
        assert((e * k) % (n as int) == (d * k) % (n as int)) by {
            vstd::arithmetic::div_mod::lemma_mul_mod_noop_left(e, k, n as int);
        }
    }
    assert(terms =~= reduced);
    lemma_power_sum(w, n, d as nat);
    lemma_sum_mod_scale(a[i], reduced);
    let row = Seq::new(n, |k: int| mul_mod(a[i], pow_mod(w, ((i + (n - 1) * j) * k) as nat)));
    assert forall|k: int| 0 <= k < n implies row[k] == mul_mod(a[i], reduced[k]) by {
        assert((i + (n - 1) * j) * k == e * k);
        assert(((e as nat) * k) as nat == (e * k) as nat);
    }
    assert(row =~= Seq::new(n, |k: int| mul_mod(a[i], reduced[k])));
    if i == j {
    } else {
        assert(mul_mod(a[i], 0) == 0) by {
            assert(a[i] * 0 == 0);
        }
    }
}


/// A polynomial stored as a list of `(power, coefficient)` terms.
pub struct SparsePolynomial {
    /// The terms of the polynomial, as pairs of a power and its
    /// coefficient.
    pub coeffs: Vec<(usize, Fp)>,
}

/// The value of a term list at a point: the modular sum of
/// `coefficient * x^power` over the terms.
pub open spec fn sparse_eval(terms: Seq<(usize, Fp)>, x: int) -> int {
    sum_mod(Seq::new(terms.len(), |i: int| mul_mod(terms[i].1@, pow_mod(x, terms[i].0 as nat))))
}

impl SparsePolynomial {
    /// Builds a polynomial from its term list.
    pub fn from_coefficients_vec(coeffs: Vec<(usize, Fp)>) -> (r: SparsePolynomial)
        ensures
            r.coeffs@ == coeffs@,
    {
        SparsePolynomial { coeffs }
    }

    /// Evaluates the polynomial at `x`.
    pub fn evaluate(&self, x: Fp) -> (r: Fp)
        ensures
            r@ == sparse_eval(self.coeffs@, x@),
    {
        let mut acc = Fp::zero();
        let mut i: usize = 0;
        let n = self.coeffs.len();
        while i < n
            invariant
                i <= n,
                n == self.coeffs@.len(),
                acc@ == sparse_eval(self.coeffs@.take(i as int), x@),
            decreases n - i,
        {
            let (power, coeff) = self.coeffs[i];
            let term = coeff.mul(x.pow(power as u64));
            proof {
                let terms = self.coeffs@;
                let pre = Seq::new(i as int as nat, |q: int| mul_mod(terms[q].1@, pow_mod(x@, terms[q].0 as nat)));
                let post = Seq::new((i + 1) as nat, |q: int| mul_mod(
                    terms.take(i + 1)[q].1@,
                    pow_mod(x@, terms.take(i + 1)[q].0 as nat),
                ));
                assert(Seq::new(i as nat, |q: int| mul_mod(
                    terms.take(i as int)[q].1@,
                    pow_mod(x@, terms.take(i as int)[q].0 as nat),
                )) =~= pre);
                assert(post =~= pre.push(mul_mod(terms[i as int].1@, pow_mod(x@, terms[i as int].0 as nat))));
                lemma_sum_mod_push(pre, mul_mod(terms[i as int].1@, pow_mod(x@, terms[i as int].0 as nat)));
            }
            acc = acc.add(term);
            i = i + 1;
        }
        proof {
            assert(self.coeffs@.take(n as int) =~= self.coeffs@);
        }
        acc
    }
}

} // verus!
