//! Evaluation domains: multiplicative subgroups of the field whose order
//! is a power of two, together with the radix-2 transforms over them.

use vstd::prelude::*;

use crate::field::{
    add_mod, in_field, inv_mod, mul_mod, pow_mod, sub_mod, Fp,
    MULTIPLICATIVE_GENERATOR, P, TWO_ADICITY,
    lemma_mul_mod_comm, lemma_mul_mod_one, lemma_mul_mod_rearrange,
    lemma_pow_mod_add, lemma_pow_mod_in_field, lemma_pow_mod_one_base,
    lemma_pow_mod_pow,
};
use crate::polynomial::{eval_poly, fp_values, is_pow2, sum_mod};

verus! {

/// `2^k` as a mathematical natural number.
pub open spec fn two_pow(k: nat) -> nat
    decreases k,
{
    if k == 0 {
        1
    } else {
        2 * two_pow((k - 1) as nat)
    }
}

/// The smallest power of two that is at least `n` (and at least one).
pub open spec fn next_pow2(n: nat) -> nat
    decreases n,
{
    if n <= 1 {
        1
    } else {
        2 * next_pow2((n + 1) / 2)
    }
}

/// Powers of two satisfy the recursive power-of-two predicate.
pub proof fn lemma_two_pow_is_pow2(k: nat)
    ensures
        is_pow2(two_pow(k)),
        two_pow(k) >= 1,
    decreases k,
{
    if k == 0 {
    } else {
        lemma_two_pow_is_pow2((k - 1) as nat);
    }
}

/// `next_pow2` returns a power of two no smaller than its argument.
pub proof fn lemma_next_pow2(n: nat)
    ensures
        is_pow2(next_pow2(n)),
        next_pow2(n) >= n,
        next_pow2(n) >= 1,
    decreases n,
{
    if n <= 1 {
    } else {
        lemma_next_pow2((n + 1) / 2);
    }
}

/// A domain over which finite-field (I)FFTs can be performed: the
/// multiplicative subgroup of order `size`, a power of two.
#[derive(Clone, Copy, Debug, PartialEq, Eq, Structural, Hash)]
pub struct EvaluationDomain {
    /// The size of the domain.
    pub size: u64,
    /// `log_2(self.size)`.
    pub log_size_of_group: u32,
    /// Size of the domain as a field element.
    pub size_as_field_element: Fp,
    /// Inverse of the size in the field.
    pub size_inv: Fp,
    /// A generator of the subgroup.
    pub group_gen: Fp,
    /// Inverse of the generator of the subgroup.
    pub group_gen_inv: Fp,
    /// Inverse of the multiplicative generator of the finite field.
    pub generator_inv: Fp,
}

impl EvaluationDomain {
    /// The well-formedness of a constructed domain: the claimed subgroup
    /// order, the primitivity of the stored root of unity, and the inverse
    /// relations between the stored elements.
    pub open spec fn wf(self) -> bool {
        &&& self.size as nat == two_pow(self.log_size_of_group as nat)
        &&& self.log_size_of_group <= TWO_ADICITY
        &&& self.size_as_field_element@ == self.size as int
        &&& mul_mod(self.size_inv@, self.size as int) == 1
        &&& (self.size >= 2 ==> pow_mod(self.group_gen@, (self.size / 2) as nat) == (
        P - 1) as int)
        &&& (self.size == 1 ==> self.group_gen@ == 1)
        &&& mul_mod(self.group_gen@, self.group_gen_inv@) == 1
        &&& mul_mod(MULTIPLICATIVE_GENERATOR as int, self.generator_inv@) == 1
    }

    /// The size of the domain is a power of two.
    pub proof fn lemma_wf_size_pow2(self)
        requires
            self.wf(),
        ensures
            is_pow2(self.size as nat),
            1 <= self.size,
    {
        lemma_two_pow_is_pow2(self.log_size_of_group as nat);
    }

    /// The stored root of unity has order dividing the domain size:
    /// `group_gen^size == 1`.
    pub proof fn lemma_wf_root_pow(self)
        requires
            self.wf(),
        ensures
            pow_mod(self.group_gen@, self.size as nat) == 1,
    {
        let p = P as int;
        let w = self.group_gen@;
        let n = self.size as nat;
        self.lemma_wf_size_pow2();
        if self.size == 1 {
            assert(pow_mod(w, 1) == mul_mod(w, pow_mod(w, 0)));
            assert(pow_mod(w, 0) == 1int % p);
            assert(mul_mod(1, 1) == 1);
        } else {
            let h = n / 2;
            assert(h + h == n);
            lemma_pow_mod_add(w, h, h);
            crate::field::lemma_neg_one_squared();
        }
    }

    /// The stored inverse root also has order dividing the domain size.
    pub proof fn lemma_wf_inv_root_pow(self)
        requires
            self.wf(),
        ensures
            pow_mod(self.group_gen_inv@, self.size as nat) == 1,
            self.group_gen_inv@ == pow_mod(self.group_gen@, (self.size - 1) as nat),
    {
        let w = self.group_gen@;
        let wi = self.group_gen_inv@;
        let n = self.size as nat;
        self.lemma_wf_size_pow2();
        self.lemma_wf_root_pow();
        crate::field::lemma_fp_in_field(self.group_gen_inv);
        crate::field::lemma_inverse_is_power(w, wi, n);
        // w_inv^n == w^((n-1)*n) == (w^n)^(n-1) == 1
        lemma_pow_mod_pow(w, (n - 1) as nat, n);
        assert(pow_mod(w, ((n - 1) * n) as nat) == pow_mod(wi, n));
        assert((n - 1) * n == n * (n - 1)) by (nonlinear_arith);
        lemma_pow_mod_pow(w, n, (n - 1) as nat);
        lemma_pow_mod_one_base((n - 1) as nat);
    }

    /// Constructs a domain large enough to interpolate `num_coeffs`
    /// coefficients, if the field supports one of that size.
    pub fn new(num_coeffs: usize) -> (r: Option<EvaluationDomain>)
        ensures
            r is Some <==> next_pow2(num_coeffs as nat) <= two_pow(TWO_ADICITY as nat),
            r matches Some(d) ==> d.wf() && d.size as nat == next_pow2(num_coeffs as nat)
                && d.group_gen@ == pow_mod(
                MULTIPLICATIVE_GENERATOR as int,
                (((P - 1) as int) / (d.size as int)) as nat,
            ),
    {
        let (size, log_size_of_group) = match Self::compute_size_with_log(num_coeffs) {
            Some(pair) => pair,
            None => {
                return None;
            },
        };

        // A root of unity of order `size`: the full group has order
        // `P - 1 == 15 * 2^27`, so `g^((P-1)/size)` generates the subgroup
        // of order `size`; primitivity holds by the concrete half-order
        // power of the generator, so no branch below can reject.
        proof {
            lemma_two_pow_is_pow2(log_size_of_group as nat);
            lemma_two_pow_bound(log_size_of_group as nat);
            crate::field::lemma_half_order_powers();
            crate::field::lemma_full_orders();
            assert(31int % (P as int) == 31) by {
                vstd::arithmetic::div_mod::lemma_small_mod(31nat, P as nat);
            }
        }
        let generator = Fp::from_u64(MULTIPLICATIVE_GENERATOR);
        let group_gen = generator.pow((P - 1) / size);
        let ghost e = (((P - 1) as int / (size as int))) as nat;
        proof {
            crate::field::lemma_power_retains_order(31, e);
        }
        if size == 1 {
            proof {
                vstd::arithmetic::div_mod::lemma_div_basics_2((P - 1) as int);
                assert(e == (P - 1) as nat);
            }
            if !group_gen.is_one() {
                proof {
                    assert(false);
                }
                return None;
            }
        } else {
            let half_pow = group_gen.pow(size / 2);
            let minus_one = Fp::zero().sub(Fp::one());
            proof {
                let p = P as int;
                let k = log_size_of_group as nat;
                lemma_root_exponent_product(k);
                lemma_pow_mod_pow(31, e, (size / 2) as nat);
                assert(e * ((size / 2) as nat) == ((P - 1) / 2) as nat) by (nonlinear_arith)
                    requires
                        e == (P - 1) as int / (size as int),
                        size as int == two_pow(log_size_of_group as nat) as int,
                        ((P - 1) as int / (two_pow(log_size_of_group as nat) as int)) * ((
                        two_pow(log_size_of_group as nat) as int) / 2) == ((P - 1) / 2) as int,
                        (size / 2) as int == (size as int) / 2,
                ;
                assert(pow_mod(group_gen@, (size / 2) as nat) == (P - 1) as int);
                assert((0 - 1) % p == p - 1) by {
                    vstd::arithmetic::div_mod::lemma_mod_add_multiples_vanish(-1, p);
                    vstd::arithmetic::div_mod::lemma_small_mod((p - 1) as nat, P as nat);
                }
            }
            if !half_pow.eq_value(minus_one) {
                proof {
                    assert(false);
                }
                return None;
            }
        }

        let size_as_field_element = Fp::from_u64(size);
        proof {
            lemma_pow_mod_two_pow(log_size_of_group as nat);
            vstd::arithmetic::div_mod::lemma_small_mod(size as nat, P as nat);
            assert(size_as_field_element@ == pow_mod(2, log_size_of_group as nat));
            crate::field::lemma_power_retains_order(2, log_size_of_group as nat);
            crate::field::lemma_inverse_check_from_order(size_as_field_element@);
            crate::field::lemma_inverse_check_from_order(group_gen@);
            crate::field::lemma_inverse_check_from_order(generator@);
        }
        let size_inv = match size_as_field_element.inverse() {
            Some(v) => v,
            None => {
                proof {
                    assert(false);
                }
                return None;
            },
        };
        let group_gen_inv = match group_gen.inverse() {
            Some(v) => v,
            None => {
                proof {
                    assert(false);
                }
                return None;
            },
        };
        let generator_inv = match generator.inverse() {
            Some(v) => v,
            None => {
                proof {
                    assert(false);
                }
                return None;
            },
        };

        proof {
            let p = P as int;
            assert(size as int % p == size as int) by {
                lemma_two_pow_bound(log_size_of_group as nat);
                vstd::arithmetic::div_mod::lemma_small_mod(size as nat, P as nat);
            }
            lemma_mul_mod_comm(size as int, size_inv@);
            assert(31int % p == 31) by {
                vstd::arithmetic::div_mod::lemma_small_mod(31nat, P as nat);
            }
            if size >= 2 {
                assert((0 - 1) % p == p - 1) by {
                    vstd::arithmetic::div_mod::lemma_mod_add_multiples_vanish(-1, p);
                    vstd::arithmetic::div_mod::lemma_small_mod((p - 1) as nat, P as nat);
                }
            }
        }

        Some(EvaluationDomain {
            size,
            log_size_of_group,
            size_as_field_element,
            size_inv,
            group_gen,
            group_gen_inv,
            generator_inv,
        })
    }

    /// The size of a feasible domain for `num_coeffs` coefficients,
    /// with its base-two logarithm.
    fn compute_size_with_log(num_coeffs: usize) -> (r: Option<(u64, u32)>)
        ensures
            r matches Some(pair) ==> pair.0 as nat == next_pow2(num_coeffs as nat)
                && pair.0 as nat == two_pow(pair.1 as nat) && pair.1 <= TWO_ADICITY,
            r is None <==> next_pow2(num_coeffs as nat) > two_pow(TWO_ADICITY as nat),
    {
        let n = num_coeffs as u64;
        let mut size: u64 = 1;
        let mut log: u32 = 0;
        proof {
            lemma_next_pow2(n as nat);
            if n <= 1 {
                assert(next_pow2(n as nat) == 1);
            }
        }
        while size < n && log < TWO_ADICITY
            invariant
                1 <= size,
                size as nat == two_pow(log as nat),
                log <= TWO_ADICITY,
                size < n ==> next_pow2(n as nat) >= 2 * size,
                size >= n ==> size as nat == next_pow2(n as nat),
                n == num_coeffs as u64,
            decreases TWO_ADICITY - log,
        {
            proof {
                lemma_two_pow_is_pow2(log as nat);
                lemma_next_pow2_step(n as nat, size as nat);
                lemma_two_pow_bound((log + 1) as nat);
                lemma_two_pow_is_pow2((log + 1) as nat);
                if 2 * size >= n {
                    // the doubled size is the least power of two at or
                    // above n: at least next_pow2(n) by the invariant,
                    // and at most by minimality
                    lemma_next_pow2_min(n as nat, (2 * size) as nat);
                } else {
                    lemma_next_pow2_step(n as nat, (2 * size) as nat);
                }
            }
            size = size * 2;
            log = log + 1;
        }
        if size < n {
            proof {
                lemma_two_pow_value();
            }
            None
        } else {
            proof {
                lemma_two_pow_bound(log as nat);
            }
            Some((size, log))
        }
    }

    /// The size of the domain that `new` would build, without building it.
    pub fn compute_size_of_domain(num_coeffs: usize) -> (r: Option<usize>)
        ensures
            r matches Some(s) ==> s as nat == next_pow2(num_coeffs as nat),
            r is None <==> next_pow2(num_coeffs as nat) > two_pow(TWO_ADICITY as nat),
    {
        match Self::compute_size_with_log(num_coeffs) {
            Some((size, log)) => {
                proof {
                    lemma_two_pow_bound(log as nat);
                }
                Some(size as usize)
            },
            None => None,
        }
    }

    /// Return the size of `self`.
    pub fn size(&self) -> (r: usize)
        requires
            self.wf(),
        ensures
            r == self.size,
    {
        proof {
            lemma_two_pow_bound(self.log_size_of_group as nat);
        }
        self.size as usize
    }
}

/// Right-padding of a coefficient sequence with zeros, to length `n`.
pub open spec fn pad_zeros(s: Seq<int>, n: nat) -> Seq<int> {
    Seq::new(n, |i: int| if i < s.len() { s[i] } else { 0 })
}

/// The recursive radix-2 transform: returns the evaluations of the
/// input polynomial at the successive powers of `w`.
#[verifier::loop_isolation(false)]
fn fft_rec(a: &Vec<Fp>, w: Fp) -> (r: Vec<Fp>)
    requires
        is_pow2(a@.len()),
        pow_mod(w@, a@.len() as nat) == 1,
    ensures
        r@.len() == a@.len(),
        forall|i: int|
            0 <= i < r@.len() ==> (#[trigger] r@[i])@ == eval_poly(
                fp_values(a@),
                pow_mod(w@, i as nat),
            ),
    decreases a@.len(),
{
    let n = a.len();
    if n == 1 {
        let mut r: Vec<Fp> = Vec::new();
        r.push(a[0]);
        proof {
            let p = P as int;
            crate::polynomial::lemma_eval_one_coeff(fp_values(a@), pow_mod(w@, 0));
            crate::field::lemma_fp_in_field(a@[0]);
            vstd::arithmetic::div_mod::lemma_small_mod(a@[0]@ as nat, P as nat);
        }
        return r;
    }
    let h = n / 2;
    let mut evens: Vec<Fp> = Vec::new();
    let mut odds: Vec<Fp> = Vec::new();
    let mut k: usize = 0;
    while k < h
        invariant
            k <= h,
            evens@.len() == k,
            odds@.len() == k,
            forall|q: int| 0 <= q < k ==> evens@[q] == a@[2 * q],
            forall|q: int| 0 <= q < k ==> odds@[q] == a@[2 * q + 1],
        decreases h - k,
    {
        evens.push(a[2 * k]);
        odds.push(a[2 * k + 1]);
        k = k + 1;
    }
    proof {
        assert(fp_values(evens@) =~= crate::polynomial::even_coeffs(fp_values(a@)));
        assert(fp_values(odds@) =~= crate::polynomial::odd_coeffs(fp_values(a@)));
        crate::field::lemma_pow_mod_two(w@);
        assert(2 * (h as nat) == a@.len());
        lemma_pow_mod_pow(w@, 2, h as nat);
        assert(pow_mod(mul_mod(w@, w@), h as nat) == 1);
    }
    let w2 = w.square();
    let e = fft_rec(&evens, w2);
    let o = fft_rec(&odds, w2);
    let mut r: Vec<Fp> = Vec::new();
    let mut pw = Fp::one();
    let mut i: usize = 0;
    proof {
        assert(pow_mod(w@, 0) == 1int % (P as int));
    }
    while i < n
        invariant
            i <= n,
            r@.len() == i,
            pw@ == pow_mod(w@, i as nat),
            forall|q: int|
                0 <= q < i ==> (#[trigger] r@[q])@ == eval_poly(
                    fp_values(a@),
                    pow_mod(w@, q as nat),
                ),
        decreases n - i,
    {
        let idx = i % h;
        let t = pw.mul(o[idx]);
        let val = e[idx].add(t);
        r.push(val);
        proof {
            let x = pow_mod(w@, i as nat);
            let c = fp_values(a@);
            crate::polynomial::lemma_eval_poly_even_odd(c, x);
            // x^2 == (w^2)^i, reduced to exponent i % h for the halves
            assert(mul_mod(x, x) == pow_mod(w2@, i as nat)) by {
                lemma_pow_mod_add(w@, i as nat, i as nat);
                assert(i + i == 2 * i);
                lemma_pow_mod_pow(w@, 2, i as nat);
                crate::field::lemma_pow_mod_two(w@);
            }
            assert(pow_mod(w2@, i as nat) == pow_mod(w2@, (i % h) as nat)) by {
                crate::field::lemma_pow_mod_exp_reduce(w2@, i as nat, h as nat);
                assert((i as nat) % (h as nat) == (i % h) as nat);
            }
            assert(val@ == eval_poly(c, x));
        }
        pw = pw.mul(w);
        i = i + 1;
        proof {
            lemma_mul_mod_comm(pow_mod(w@, (i - 1) as nat), w@);
            assert(pw@ == pow_mod(w@, i as nat));
        }
    }
    r
}

/// The serial radix-2 transform, in place: on return the vector holds
/// the evaluations of the input polynomial at the powers of `omega`.
#[verifier::loop_isolation(false)]
pub fn serial_radix2_fft(a: &mut Vec<Fp>, omega: Fp, log_n: u32)
    requires
        old(a)@.len() == two_pow(log_n as nat),
        pow_mod(omega@, old(a)@.len() as nat) == 1,
    ensures
        final(a)@.len() == old(a)@.len(),
        forall|i: int|
            0 <= i < final(a)@.len() ==> (#[trigger] final(a)@[i])@ == eval_poly(
                fp_values(old(a)@),
                pow_mod(omega@, i as nat),
            ),
{
    proof {
        lemma_two_pow_is_pow2(log_n as nat);
    }
    let r = fft_rec(a, omega);
    *a = r;
}

/// Copies a vector of field elements.
fn copy_elements(v: &Vec<Fp>) -> (r: Vec<Fp>)
    ensures
        r@ == v@,
{
    let mut r: Vec<Fp> = Vec::new();
    let mut i: usize = 0;
    while i < v.len()
        invariant
            i <= v@.len(),
            r@ == v@.take(i as int),
        decreases v@.len() - i,
    {
        r.push(v[i]);
        proof {
            assert(v@.take(i + 1) =~= v@.take(i as int).push(v@[i as int]));
        }
        i = i + 1;
    }
    proof {
        assert(v@.take(v@.len() as int) =~= v@);
    }
    r
}

impl EvaluationDomain {
    /// Extends the coefficient vector with zeros up to the domain size.
    #[verifier::loop_isolation(false)]
    fn resize_with_zeros(&self, coeffs: &mut Vec<Fp>)
        requires
            self.wf(),
            old(coeffs)@.len() <= self.size,
        ensures
            final(coeffs)@.len() == self.size,
            fp_values(final(coeffs)@) == pad_zeros(fp_values(old(coeffs)@), self.size as nat),
    {
        let n = self.size();
        while coeffs.len() < n
            invariant
                coeffs@.len() <= n,
                old(coeffs)@.len() <= coeffs@.len(),
                forall|i: int| 0 <= i < old(coeffs)@.len() ==> coeffs@[i] == old(coeffs)@[i],
                forall|i: int|
                    old(coeffs)@.len() <= i < coeffs@.len() ==> (#[trigger] coeffs@[i])@ == 0,
            decreases n - coeffs@.len(),
        {
            coeffs.push(Fp::zero());
        }
        proof {
            assert(fp_values(coeffs@) =~= pad_zeros(fp_values(old(coeffs)@), self.size as nat));
        }
    }

    /// Compute an FFT, modifying the vector in place: the vector is
    /// zero-padded to the domain size and replaced by the evaluations of
    /// the polynomial at every domain element.
    pub fn fft_in_place(&self, coeffs: &mut Vec<Fp>)
        requires
            self.wf(),
            old(coeffs)@.len() <= self.size,
        ensures
            final(coeffs)@.len() == self.size,
            forall|i: int|
                0 <= i < self.size ==> (#[trigger] final(coeffs)@[i])@ == eval_poly(
                    pad_zeros(fp_values(old(coeffs)@), self.size as nat),
                    pow_mod(self.group_gen@, i as nat),
                ),
    {
        self.resize_with_zeros(coeffs);
        proof {
            self.lemma_wf_root_pow();
        }
        serial_radix2_fft(coeffs, self.group_gen, self.log_size_of_group);
    }

    /// Compute an FFT.
    pub fn fft(&self, coeffs: &Vec<Fp>) -> (r: Vec<Fp>)
        requires
            self.wf(),
            coeffs@.len() <= self.size,
        ensures
            r@.len() == self.size,
            forall|i: int|
                0 <= i < self.size ==> (#[trigger] r@[i])@ == eval_poly(
                    pad_zeros(fp_values(coeffs@), self.size as nat),
                    pow_mod(self.group_gen@, i as nat),
                ),
    {
        let mut r = copy_elements(coeffs);
        self.fft_in_place(&mut r);
        r
    }

    /// Compute an IFFT, modifying the vector in place: the vector is
    /// zero-padded to the domain size and replaced by the coefficients
    /// of the interpolating polynomial.
    pub fn ifft_in_place(&self, evals: &mut Vec<Fp>)
        requires
            self.wf(),
            old(evals)@.len() <= self.size,
        ensures
            final(evals)@.len() == self.size,
            forall|i: int|
                0 <= i < self.size ==> (#[trigger] final(evals)@[i])@ == mul_mod(
                    self.size_inv@,
                    eval_poly(
                        pad_zeros(fp_values(old(evals)@), self.size as nat),
                        pow_mod(self.group_gen_inv@, i as nat),
                    ),
                ),
    {
        self.resize_with_zeros(evals);
        proof {
            self.lemma_wf_inv_root_pow();
        }
        serial_radix2_fft(evals, self.group_gen_inv, self.log_size_of_group);
        let ghost mid = evals@;
        let n = self.size();
        let mut j: usize = 0;
        while j < n
            invariant
                self.wf(),
                j <= n,
                n == self.size,
                evals@.len() == n,
                forall|q: int| j <= q < n ==> evals@[q] == mid[q],
                forall|q: int|
                    0 <= q < j ==> (#[trigger] evals@[q])@ == mul_mod(self.size_inv@, mid[q]@),
            decreases n - j,
        {
            let scaled = self.size_inv.mul(evals[j]);
            evals[j] = scaled;
            j = j + 1;
        }
    }

    /// Compute an IFFT.
    pub fn ifft(&self, evals: &Vec<Fp>) -> (r: Vec<Fp>)
        requires
            self.wf(),
            evals@.len() <= self.size,
        ensures
            r@.len() == self.size,
            forall|i: int|
                0 <= i < self.size ==> (#[trigger] r@[i])@ == mul_mod(
                    self.size_inv@,
                    eval_poly(
                        pad_zeros(fp_values(evals@), self.size as nat),
                        pow_mod(self.group_gen_inv@, i as nat),
                    ),
                ),
    {
        let mut r = copy_elements(evals);
        self.ifft_in_place(&mut r);
        r
    }

    /// Multiplies the `i`-th coefficient by `g^i`.
    pub fn distribute_powers(coeffs: &mut Vec<Fp>, g: Fp)
        ensures
            final(coeffs)@.len() == old(coeffs)@.len(),
            forall|i: int|
                0 <= i < final(coeffs)@.len() ==> (#[trigger] final(coeffs)@[i])@ == mul_mod(
                    old(coeffs)@[i]@,
                    pow_mod(g@, i as nat),
                ),
    {
        let n = coeffs.len();
        let mut pw = Fp::one();
        let mut i: usize = 0;
        proof {
            assert(pow_mod(g@, 0) == 1int % (P as int));
        }
        while i < n
            invariant
                i <= n,
                n == coeffs@.len(),
                coeffs@.len() == old(coeffs)@.len(),
                pw@ == pow_mod(g@, i as nat),
                forall|q: int| i <= q < n ==> coeffs@[q] == old(coeffs)@[q],
                forall|q: int|
                    0 <= q < i ==> (#[trigger] coeffs@[q])@ == mul_mod(
                        old(coeffs)@[q]@,
                        pow_mod(g@, q as nat),
                    ),
            decreases n - i,
        {
            let scaled = coeffs[i].mul(pw);
            coeffs[i] = scaled;
            pw = pw.mul(g);
            i = i + 1;
            proof {
                lemma_mul_mod_comm(pow_mod(g@, (i - 1) as nat), g@);
            }
        }
    }

    /// Compute an FFT over the coset `g * H` of the domain `H`, modifying
    /// the input vector in place: entry `i` holds the evaluation of the
    /// polynomial at `g * group_gen^i`.
    pub fn coset_fft_in_place(&self, coeffs: &mut Vec<Fp>)
        requires
            self.wf(),
            old(coeffs)@.len() <= self.size,
        ensures
            final(coeffs)@.len() == self.size,
            forall|i: int|
                0 <= i < self.size ==> (#[trigger] final(coeffs)@[i])@ == eval_poly(
                    pad_zeros(fp_values(old(coeffs)@), self.size as nat),
                    mul_mod(MULTIPLICATIVE_GENERATOR as int, pow_mod(self.group_gen@, i as nat)),
                ),
    {
        let g = Fp::from_u64(MULTIPLICATIVE_GENERATOR);
        let ghost orig = fp_values(old(coeffs)@);
        Self::distribute_powers(coeffs, g);
        proof {
            assert(31int % (P as int) == 31) by {
                vstd::arithmetic::div_mod::lemma_small_mod(31nat, P as nat);
            }
        }
        let ghost distributed = fp_values(coeffs@);
        self.fft_in_place(coeffs);
        proof {
            let n = self.size as nat;
            let gv = MULTIPLICATIVE_GENERATOR as int;
            let padded = pad_zeros(orig, n);
            assert forall|i: int| 0 <= i < self.size implies (#[trigger] coeffs@[i])@
                == eval_poly(padded, mul_mod(gv, pow_mod(self.group_gen@, i as nat))) by {
                let x = pow_mod(self.group_gen@, i as nat);
                crate::polynomial::lemma_eval_poly_scaled(padded, gv, x);
                assert(pad_zeros(distributed, n) =~= Seq::new(
                    padded.len(),
                    |j: int| mul_mod(padded[j], pow_mod(gv, j as nat)),
                )) by {
                    assert forall|j: int| 0 <= j < n implies pad_zeros(distributed, n)[j]
                        == mul_mod(padded[j], pow_mod(gv, j as nat)) by {
                        if j < distributed.len() {
                        } else {
                            assert(0 * pow_mod(gv, j as nat) == 0);
                        }
                    }
                }
            }
        }
    }

    /// Compute an FFT over a coset of the domain.
    pub fn coset_fft(&self, coeffs: &Vec<Fp>) -> (r: Vec<Fp>)
        requires
            self.wf(),
            coeffs@.len() <= self.size,
        ensures
            r@.len() == self.size,
            forall|i: int|
                0 <= i < self.size ==> (#[trigger] r@[i])@ == eval_poly(
                    pad_zeros(fp_values(coeffs@), self.size as nat),
                    mul_mod(MULTIPLICATIVE_GENERATOR as int, pow_mod(self.group_gen@, i as nat)),
                ),
    {
        let mut r = copy_elements(coeffs);
        self.coset_fft_in_place(&mut r);
        r
    }

    /// Compute an IFFT over a coset of the domain, modifying the input
    /// vector in place.
    pub fn coset_ifft_in_place(&self, evals: &mut Vec<Fp>)
        requires
            self.wf(),
            old(evals)@.len() <= self.size,
        ensures
            final(evals)@.len() == self.size,
            forall|i: int|
                0 <= i < self.size ==> (#[trigger] final(evals)@[i])@ == mul_mod(
                    mul_mod(
                        self.size_inv@,
                        eval_poly(
                            pad_zeros(fp_values(old(evals)@), self.size as nat),
                            pow_mod(self.group_gen_inv@, i as nat),
                        ),
                    ),
                    pow_mod(self.generator_inv@, i as nat),
                ),
    {
        self.ifft_in_place(evals);
        Self::distribute_powers(evals, self.generator_inv);
    }

    /// Compute an IFFT over a coset of the domain.
    pub fn coset_ifft(&self, evals: &Vec<Fp>) -> (r: Vec<Fp>)
        requires
            self.wf(),
            evals@.len() <= self.size,
        ensures
            r@.len() == self.size,
            forall|i: int|
                0 <= i < self.size ==> (#[trigger] r@[i])@ == mul_mod(
                    mul_mod(
                        self.size_inv@,
                        eval_poly(
                            pad_zeros(fp_values(evals@), self.size as nat),
                            pow_mod(self.group_gen_inv@, i as nat),
                        ),
                    ),
                    pow_mod(self.generator_inv@, i as nat),
                ),
    {
        let mut r = copy_elements(evals);
        self.coset_ifft_in_place(&mut r);
        r
    }
}

/// The transform inversion law on mathematical values: evaluating the
/// forward-transform values of a padded coefficient vector at the powers
/// of the inverse root, scaled by the inverse of the size, recovers every
/// padded coefficient.
pub proof fn lemma_ifft_inverts_fft(d: EvaluationDomain, v: Seq<int>, j: int)
    requires
        d.wf(),
        v.len() <= d.size,
        forall|i: int| 0 <= i < v.len() ==> in_field(#[trigger] v[i]),
        0 <= j < d.size,
    ensures
        mul_mod(
            d.size_inv@,
            eval_poly(
                crate::polynomial::dft_values(pad_zeros(v, d.size as nat), d.group_gen@),
                pow_mod(d.group_gen_inv@, j as nat),
            ),
        ) == pad_zeros(v, d.size as nat)[j],
{
    let n = d.size as nat;
    let a = pad_zeros(v, n);
    d.lemma_wf_size_pow2();
    crate::field::lemma_fp_in_field(d.group_gen_inv);
    crate::polynomial::lemma_dft_inversion(a, d.group_gen@, d.group_gen_inv@, d.size_inv@, j);
}

/// The FFT/IFFT inverse law on vectors of field elements: if `evals`
/// satisfies the forward-transform contract for the input `v` and `back`
/// satisfies the inverse-transform contract for `evals`, then `back` is
/// `v` padded with zeros to the domain size.
pub proof fn lemma_fft_then_ifft_is_identity(
    d: EvaluationDomain,
    v: Seq<Fp>,
    evals: Seq<Fp>,
    back: Seq<Fp>,
)
    requires
        d.wf(),
        v.len() <= d.size,
        evals.len() == d.size,
        forall|i: int|
            0 <= i < d.size ==> (#[trigger] evals[i])@ == eval_poly(
                pad_zeros(fp_values(v), d.size as nat),
                pow_mod(d.group_gen@, i as nat),
            ),
        back.len() == d.size,
        forall|i: int|
            0 <= i < d.size ==> (#[trigger] back[i])@ == mul_mod(
                d.size_inv@,
                eval_poly(
                    pad_zeros(fp_values(evals), d.size as nat),
                    pow_mod(d.group_gen_inv@, i as nat),
                ),
            ),
    ensures
        forall|i: int| 0 <= i < v.len() ==> (#[trigger] back[i])@ == v[i]@,
        forall|i: int| v.len() <= i < d.size ==> (#[trigger] back[i])@ == 0,
{
    let n = d.size as nat;
    let a = pad_zeros(fp_values(v), n);
    assert(pad_zeros(fp_values(evals), n) =~= crate::polynomial::dft_values(a, d.group_gen@));
    assert forall|i: int| 0 <= i < d.size implies (#[trigger] back[i])@ == a[i] by {
        assert forall|q: int| 0 <= q < v.len() implies in_field(#[trigger] fp_values(v)[q]) by {
            crate::field::lemma_fp_in_field(v[q]);
        }
        lemma_ifft_inverts_fft(d, fp_values(v), i);
    }
}

/// The vanishing polynomial `X^size - 1` vanishes at every domain
/// element `group_gen^i`.
pub proof fn lemma_vanishing_polynomial_vanishes_on_domain(d: EvaluationDomain, i: int)
    requires
        d.wf(),
        0 <= i,
    ensures
        sub_mod(pow_mod(pow_mod(d.group_gen@, i as nat), d.size as nat), 1) == 0,
{
    let w = d.group_gen@;
    let n = d.size as nat;
    d.lemma_wf_root_pow();
    lemma_pow_mod_pow(w, i as nat, n);
    assert((i as nat) * n == n * (i as nat)) by (nonlinear_arith);
    lemma_pow_mod_pow(w, n, i as nat);
    lemma_pow_mod_one_base(i as nat);
    assert(sub_mod(1, 1) == 0);
}

/// `2^k` as a modular power of two.
proof fn lemma_pow_mod_two_pow(k: nat)
    requires
        k <= TWO_ADICITY,
    ensures
        pow_mod(2, k) == two_pow(k) as int,
    decreases k,
{
    let p = P as int;
    if k == 0 {
    } else {
        lemma_pow_mod_two_pow((k - 1) as nat);
        lemma_two_pow_bound(k);
        assert(pow_mod(2, k) == mul_mod(2, pow_mod(2, (k - 1) as nat)));
        assert((2 * (two_pow((k - 1) as nat) as int)) % p == two_pow(k) as int) by {
            vstd::arithmetic::div_mod::lemma_small_mod(two_pow(k), P as nat);
        }
    }
}

/// The exponent algebra behind the subgroup roots: for a domain of size
/// `2^k`, the root exponent times half the size is half the group order.
proof fn lemma_root_exponent_product(k: nat)
    requires
        1 <= k <= TWO_ADICITY,
    ensures
        ((P - 1) as int / (two_pow(k) as int)) * ((two_pow(k) as int) / 2) == ((P - 1)
            / 2) as int,
        (P - 1) as int / (two_pow(k) as int) >= 0,
    decreases k,
{
    let p1 = (P - 1) as int;
    let sz = two_pow(k) as int;
    lemma_two_pow_is_pow2(k);
    lemma_two_pow_value();
    // 2^27 and 2^26 concretely
    assert(two_pow(27) == 0x8000000);
    assert(two_pow(26) == 0x4000000) by {
        assert(two_pow(27) == 2 * two_pow(26));
    }
    // P - 1 == 15 * 2^(27-k) * 2^k
    lemma_two_pow_adds((27 - k) as nat, k);
    assert(two_pow(27) == two_pow((27 - k) as nat) * two_pow(k));
    let q = 15 * (two_pow((27 - k) as nat) as int);
    assert(p1 == q * sz) by (nonlinear_arith)
        requires
            p1 == 15 * (two_pow(27) as int),
            two_pow(27) == two_pow((27 - k) as nat) * two_pow(k),
            q == 15 * (two_pow((27 - k) as nat) as int),
            sz == two_pow(k) as int,
    ;
    assert(p1 / sz == q) by {
        vstd::arithmetic::div_mod::lemma_fundamental_div_mod_converse(p1, sz, q, 0);
    }
    // 2^k / 2 == 2^(k-1)
    assert(sz / 2 == two_pow((k - 1) as nat) as int) by {
        assert(sz == (two_pow((k - 1) as nat) as int) * 2);
        vstd::arithmetic::div_mod::lemma_fundamental_div_mod_converse(
            sz,
            2,
            two_pow((k - 1) as nat) as int,
            0,
        );
    }
    // q * 2^(k-1) == 15 * 2^26 == (P-1)/2
    lemma_two_pow_adds((27 - k) as nat, (k - 1) as nat);
    assert((27 - k) as nat + (k - 1) as nat == 26);
    assert(q * (two_pow((k - 1) as nat) as int) == 15 * (two_pow(26) as int)) by (
    nonlinear_arith)
        requires
            q == 15 * (two_pow((27 - k) as nat) as int),
            two_pow(26) == two_pow((27 - k) as nat) * two_pow((k - 1) as nat),
    ;
}

/// The root exponent of a domain of size `2^k`: dividing the group
/// order by the size leaves `15 * 2^(27-k)`.
proof fn lemma_root_exponent(k: nat)
    requires
        k <= TWO_ADICITY,
    ensures
        (P - 1) as int / (two_pow(k) as int) == 15 * (two_pow((TWO_ADICITY - k) as nat) as int),
{
    let p1 = (P - 1) as int;
    let sz = two_pow(k) as int;
    lemma_two_pow_is_pow2(k);
    lemma_two_pow_value();
    lemma_two_pow_adds((27 - k) as nat, k);
    let q = 15 * (two_pow((27 - k) as nat) as int);
    assert(p1 == q * sz) by (nonlinear_arith)
        requires
            p1 == 15 * (two_pow(27) as int),
            two_pow(27) == two_pow((27 - k) as nat) * two_pow(k),
            q == 15 * (two_pow((27 - k) as nat) as int),
            sz == two_pow(k) as int,
    ;
    assert(p1 / sz == q) by {
        vstd::arithmetic::div_mod::lemma_fundamental_div_mod_converse(p1, sz, q, 0);
    }
}

/// The element correspondence behind subdomain reindexing: for two
/// domains built on their canonical roots with the smaller size dividing
/// the larger, the `(index * period)`-th element of the larger domain is
/// the `index`-th element of the smaller, where `period` is the size
/// ratio. Together with `reindex_by_subdomain`'s formula this pins which
/// element a reindexed subdomain position refers to.
pub proof fn lemma_reindex_subdomain_element(
    big: EvaluationDomain,
    small: EvaluationDomain,
    index: int,
)
    requires
        big.wf(),
        small.wf(),
        big.group_gen@ == pow_mod(
            MULTIPLICATIVE_GENERATOR as int,
            (((P - 1) as int) / (big.size as int)) as nat,
        ),
        small.group_gen@ == pow_mod(
            MULTIPLICATIVE_GENERATOR as int,
            (((P - 1) as int) / (small.size as int)) as nat,
        ),
        small.size <= big.size,
        0 <= index < small.size,
    ensures
        pow_mod(
            big.group_gen@,
            (index * ((big.size as int) / (small.size as int))) as nat,
        ) == pow_mod(small.group_gen@, index as nat),
{
    let g = MULTIPLICATIVE_GENERATOR as int;
    let kb = big.log_size_of_group as nat;
    let ks = small.log_size_of_group as nat;
    lemma_two_pow_is_pow2(kb);
    lemma_two_pow_is_pow2(ks);
    lemma_two_pow_monotonic_converse(ks, kb);
    lemma_two_pow_div(ks, kb);
    let period = (big.size as int) / (small.size as int);
    assert(period == two_pow((kb - ks) as nat) as int);
    let eb = ((P - 1) as int) / (big.size as int);
    let es = ((P - 1) as int) / (small.size as int);
    lemma_root_exponent(kb);
    lemma_root_exponent(ks);
    // the big root raised to the period is the small root
    lemma_two_pow_adds((27 - kb) as nat, (kb - ks) as nat);
    assert((27 - kb) as nat + (kb - ks) as nat == (27 - ks) as nat);
    assert(eb * period == es) by (nonlinear_arith)
        requires
            eb == 15 * (two_pow((27 - kb) as nat) as int),
            es == 15 * (two_pow((27 - ks) as nat) as int),
            period == two_pow((kb - ks) as nat) as int,
            two_pow((27 - ks) as nat) == two_pow((27 - kb) as nat) * two_pow((kb - ks) as nat),
    ;
    // and both sides are the same power of the field generator
    lemma_pow_mod_pow(g, eb as nat, (index * period) as nat);
    lemma_pow_mod_pow(g, es as nat, index as nat);
    assert((eb as nat) * ((index * period) as nat) == (es as nat) * (index as nat)) by (
    nonlinear_arith)
        requires
            eb >= 0,
            es >= 0,
            index >= 0,
            period >= 0,
            eb * period == es,
    ;
}

/// The vanishing polynomial is nonzero off the domain: whenever
/// `t^size != 1`, the evaluation `t^size - 1` does not reduce to zero.
pub proof fn lemma_vanishing_nonzero_off_domain(d: EvaluationDomain, t: int)
    requires
        pow_mod(t, d.size as nat) != 1,
    ensures
        sub_mod(pow_mod(t, d.size as nat), 1) != 0,
{
    let p = P as int;
    let x = pow_mod(t, d.size as nat);
    lemma_pow_mod_in_field(t, d.size as nat);
    if x == 0 {
        assert((0int - 1) % p == p - 1) by {
            vstd::arithmetic::div_mod::lemma_mod_add_multiples_vanish(-1, p);
            vstd::arithmetic::div_mod::lemma_small_mod((p - 1) as nat, P as nat);
        }
    } else {
        vstd::arithmetic::div_mod::lemma_small_mod((x - 1) as nat, P as nat);
    }
}

/// The geometric factor of one Lagrange coefficient:
/// `t^(n-1) + t^(n-2) w^i + ... + (w^i)^(n-1)`.
pub open spec fn lagrange_geom_sum(d: EvaluationDomain, t: int, i: int) -> int {
    sum_mod(
        Seq::new(
            d.size as nat,
            |k: int|
                mul_mod(
                    pow_mod(t, (d.size - 1 - k) as nat),
                    pow_mod(pow_mod(d.group_gen@, i as nat), k as nat),
                ),
        ),
    )
}

/// One cell of the interpolation grid:
/// `t^(n-1-k) * c[j] * w^(i*(k+1+j))`.
pub open spec fn lagrange_grid(d: EvaluationDomain, t: int, c: Seq<int>, i: int, k: int, j: int)
    -> int {
    mul_mod(
        mul_mod(pow_mod(t, (d.size - 1 - k) as nat), c[j]),
        pow_mod(d.group_gen@, (i * (k + 1 + j)) as nat),
    )
}

/// One row of the interpolation grid: the sum over `j` of the cells of
/// row `(i, k)`.
pub open spec fn lagrange_row(d: EvaluationDomain, t: int, c: Seq<int>, i: int, k: int) -> int {
    sum_mod(Seq::new(d.size as nat, |j: int| lagrange_grid(d, t, c, i, k, j)))
}

/// Every power of a domain element is a root of unity of the domain.
proof fn lemma_domain_element_order(d: EvaluationDomain, i: int)
    requires
        d.wf(),
        0 <= i,
    ensures
        pow_mod(pow_mod(d.group_gen@, i as nat), d.size as nat) == 1,
{
    let w = d.group_gen@;
    let n = d.size as nat;
    d.lemma_wf_root_pow();
    lemma_pow_mod_pow(w, i as nat, n);
    assert((i as nat) * n == n * (i as nat)) by (nonlinear_arith);
    lemma_pow_mod_pow(w, n, i as nat);
    lemma_pow_mod_one_base(i as nat);
}

/// A Lagrange coefficient outside the domain, multiplied out: the
/// inverse of `t - w^i` cancels against the factorization of
/// `t^n - 1`, leaving `size_inv * w^i * lagrange_geom_sum`.
proof fn lemma_lagrange_coeff_as_sum(d: EvaluationDomain, t: int, i: int)
    requires
        d.wf(),
        in_field(t),
        pow_mod(t, d.size as nat) != 1,
        0 <= i < d.size,
        mul_mod(
            sub_mod(t, pow_mod(d.group_gen@, i as nat)),
            inv_mod(sub_mod(t, pow_mod(d.group_gen@, i as nat))),
        ) == 1,
    ensures
        d.lagrange_coeff(t, i) == mul_mod(
            d.size_inv@,
            mul_mod(pow_mod(d.group_gen@, i as nat), lagrange_geom_sum(d, t, i)),
        ),
{
    let p = P as int;
    let w = d.group_gen@;
    let n = d.size as nat;
    let wi = pow_mod(w, i as nat);
    let dfc = sub_mod(t, wi);
    let v = inv_mod(dfc);
    let s = lagrange_geom_sum(d, t, i);
    let a = sub_mod(pow_mod(t, n), 1);
    let sinv = d.size_inv@;
    crate::polynomial::lemma_pow_diff_factor(t, wi, n);
    lemma_domain_element_order(d, i);
    assert(mul_mod(dfc, s) == a);
    // a * v == s, since (t - w^i) * v == 1
    assert(mul_mod(a, v) == s) by {
        lemma_mul_mod_comm(a, v);
        lemma_mul_mod_rearrange(v, dfc, s);
        assert(mul_mod(v, dfc) == mul_mod(dfc, v)) by {
            lemma_mul_mod_comm(v, dfc);
        }
        crate::polynomial::lemma_sum_mod_in_field(
            Seq::new(
                n,
                |k: int|
                    mul_mod(
                        pow_mod(t, (d.size - 1 - k) as nat),
                        pow_mod(pow_mod(d.group_gen@, i as nat), k as nat),
                    ),
            ),
        );
        lemma_mul_mod_one(s);
    }
    // regroup the stored formula ((a * sinv) * w^i) * v
    let lhs = mul_mod(mul_mod(mul_mod(a, sinv), wi), v);
    assert(d.lagrange_coeff(t, i) == lhs);
    assert(lhs == mul_mod(mul_mod(a, sinv), mul_mod(wi, v))) by {
        lemma_mul_mod_rearrange(mul_mod(a, sinv), wi, v);
    }
    assert(mul_mod(mul_mod(a, sinv), mul_mod(wi, v)) == mul_mod(
        mul_mod(a, wi),
        mul_mod(sinv, v),
    )) by {
        crate::polynomial::lemma_mul_mod_shuffle(a, sinv, wi, v);
    }
    let rhs = mul_mod(sinv, mul_mod(wi, s));
    assert(rhs == mul_mod(mul_mod(sinv, wi), mul_mod(a, v))) by {
        lemma_mul_mod_rearrange(sinv, wi, mul_mod(a, v));
    }
    assert(mul_mod(mul_mod(sinv, wi), mul_mod(a, v)) == mul_mod(
        mul_mod(sinv, a),
        mul_mod(wi, v),
    )) by {
        crate::polynomial::lemma_mul_mod_shuffle(sinv, wi, a, v);
    }
    assert(mul_mod(a, wi) == mul_mod(wi, a)) by {
        lemma_mul_mod_comm(a, wi);
    }
    assert(mul_mod(mul_mod(a, wi), mul_mod(sinv, v)) == mul_mod(
        mul_mod(sinv, a),
        mul_mod(wi, v),
    )) by {
        crate::polynomial::lemma_mul_mod_shuffle(wi, a, sinv, v);
        crate::polynomial::lemma_mul_mod_shuffle(wi, sinv, a, v);
        lemma_mul_mod_comm(mul_mod(wi, sinv), mul_mod(a, v));
        lemma_mul_mod_comm(wi, sinv);
        lemma_mul_mod_comm(mul_mod(a, v), mul_mod(sinv, wi));
        assert(mul_mod(mul_mod(wi, a), mul_mod(sinv, v)) == mul_mod(
            mul_mod(wi, sinv),
            mul_mod(a, v),
        ));
        assert(mul_mod(mul_mod(sinv, wi), mul_mod(a, v)) == mul_mod(
            mul_mod(sinv, a),
            mul_mod(wi, v),
        ));
    }
}

/// One interpolation term, expanded into the grid: the `i`-th Lagrange
/// coefficient times the evaluation at `w^i` is `size_inv` times the
/// double sum of the grid cells of row `i`.
proof fn lemma_lagrange_term_as_grid(d: EvaluationDomain, t: int, c: Seq<int>, i: int)
    requires
        d.wf(),
        in_field(t),
        pow_mod(t, d.size as nat) != 1,
        0 <= i < d.size,
        c.len() == d.size,
        mul_mod(
            sub_mod(t, pow_mod(d.group_gen@, i as nat)),
            inv_mod(sub_mod(t, pow_mod(d.group_gen@, i as nat))),
        ) == 1,
    ensures
        mul_mod(d.lagrange_coeff(t, i), eval_poly(c, pow_mod(d.group_gen@, i as nat))) == mul_mod(
            d.size_inv@,
            sum_mod(Seq::new(d.size as nat, |k: int| lagrange_row(d, t, c, i, k))),
        ),
{
    let p = P as int;
    let w = d.group_gen@;
    let n = d.size as nat;
    let wi = pow_mod(w, i as nat);
    let s = lagrange_geom_sum(d, t, i);
    let sinv = d.size_inv@;
    lemma_lagrange_coeff_as_sum(d, t, i);
    let ev = eval_poly(c, wi);
    crate::polynomial::lemma_eval_poly_as_sum(c, wi);
    let x = Seq::new(n, |k: int| mul_mod(pow_mod(t, (d.size - 1 - k) as nat), pow_mod(wi, k as nat)));
    let y = Seq::new(n, |j: int| mul_mod(c[j], pow_mod(wi, j as nat)));
    assert(s == sum_mod(x));
    assert(ev == sum_mod(y));
    // L_i * E_i == sinv * (w^i * (s * ev))
    assert(mul_mod(d.lagrange_coeff(t, i), ev) == mul_mod(sinv, mul_mod(wi, mul_mod(s, ev))))
        by {
        lemma_mul_mod_rearrange(sinv, mul_mod(wi, s), ev);
        lemma_mul_mod_rearrange(wi, s, ev);
    }
    // s * ev is the double sum of pairwise products
    crate::polynomial::lemma_sum_mod_product(x, y);
    let prod_rows = Seq::new(n, |k: int| sum_mod(Seq::new(n, |j: int| mul_mod(x[k], y[j]))));
    // multiplying by w^i turns each cell into a grid cell
    let grid_rows = Seq::new(n, |k: int| lagrange_row(d, t, c, i, k));
    assert forall|k: int| 0 <= k < n implies mul_mod(wi, prod_rows[k]) == grid_rows[k] by {
        let inner = Seq::new(n, |j: int| mul_mod(x[k], y[j]));
        crate::polynomial::lemma_sum_mod_scale(wi, inner);
        let scaled = Seq::new(n, |j: int| mul_mod(wi, inner[j]));
        assert forall|j: int| 0 <= j < n implies scaled[j] == lagrange_grid(d, t, c, i, k, j) by {
            let tk = pow_mod(t, (d.size - 1 - k) as nat);
            // x[k] * y[j] == (t^(n-1-k) * c[j]) * (w^i)^(k+j)
            assert(mul_mod(x[k], y[j]) == mul_mod(
                mul_mod(tk, c[j]),
                mul_mod(pow_mod(wi, k as nat), pow_mod(wi, j as nat)),
            )) by {
                crate::polynomial::lemma_mul_mod_shuffle(
                    tk,
                    pow_mod(wi, k as nat),
                    c[j],
                    pow_mod(wi, j as nat),
                );
            }
            lemma_pow_mod_add(wi, k as nat, j as nat);
            // w^i * (C * (w^i)^(k+j)) == C * (w^i)^(k+j+1)
            crate::field::lemma_mul_mod_rearrange_mid(
                wi,
                mul_mod(tk, c[j]),
                pow_mod(wi, (k + j) as nat),
            );
            assert(pow_mod(wi, (k + j + 1) as nat) == mul_mod(wi, pow_mod(wi, (k + j) as nat)));
            // and (w^i)^(k+j+1) == w^(i*(k+1+j))
            lemma_pow_mod_pow(w, i as nat, (k + j + 1) as nat);
            assert((i as nat) * ((k + j + 1) as nat) == (i * (k + 1 + j)) as nat) by (
            nonlinear_arith)
                requires
                    0 <= i,
                    0 <= k,
                    0 <= j,
            ;
        }
        assert(scaled =~= Seq::new(n, |j: int| lagrange_grid(d, t, c, i, k, j)));
    }
    // push w^i through the outer sum
    crate::polynomial::lemma_sum_mod_scale(wi, prod_rows);
    assert(Seq::new(n, |k: int| mul_mod(wi, prod_rows[k])) =~= grid_rows);
}

/// Lagrange interpolation: summing each Lagrange coefficient at `t`
/// against the polynomial's value at the matching domain element
/// recovers the polynomial's value at `t`. The final hypothesis supplies
/// the field fact, true of the prime modulus, that the inverse map
/// inverts each nonzero difference `t - w^i`.
pub proof fn lemma_lagrange_interpolation(d: EvaluationDomain, t: int, c: Seq<int>)
    requires
        d.wf(),
        in_field(t),
        pow_mod(t, d.size as nat) != 1,
        c.len() == d.size,
        forall|j: int| 0 <= j < c.len() ==> in_field(#[trigger] c[j]),
        forall|i: int|
            0 <= i < d.size ==> mul_mod(
                sub_mod(t, pow_mod(d.group_gen@, i as nat)),
                inv_mod(#[trigger] sub_mod(t, pow_mod(d.group_gen@, i as nat))),
            ) == 1,
    ensures
        sum_mod(
            Seq::new(
                d.size as nat,
                |i: int|
                    mul_mod(
                        d.lagrange_coeff(t, i),
                        eval_poly(c, pow_mod(d.group_gen@, i as nat)),
                    ),
            ),
        ) == eval_poly(c, t),
{
    let p = P as int;
    let w = d.group_gen@;
    let n = d.size as nat;
    let sinv = d.size_inv@;
    d.lemma_wf_size_pow2();
    d.lemma_wf_root_pow();
    let terms = Seq::new(
        n,
        |i: int| mul_mod(d.lagrange_coeff(t, i), eval_poly(c, pow_mod(w, i as nat))),
    );
    let f1 = |i: int, k: int| lagrange_row(d, t, c, i, k);
    let grids = Seq::new(n, |i: int| sum_mod(Seq::new(n, |k: int| f1(i, k))));
    // each term is sinv times its grid row
    assert forall|i: int| 0 <= i < n implies terms[i] == mul_mod(sinv, grids[i]) by {
        lemma_lagrange_term_as_grid(d, t, c, i);
        assert(Seq::new(n, |k: int| f1(i, k)) =~= Seq::new(
            d.size as nat,
            |k: int| lagrange_row(d, t, c, i, k),
        ));
    }
    assert(terms =~= Seq::new(n, |i: int| mul_mod(sinv, grids[i])));
    crate::polynomial::lemma_sum_mod_scale(sinv, grids);
    // exchange the outer two sums
    crate::polynomial::lemma_sum_mod_swap(n, n, f1);
    let cols = Seq::new(n, |k: int| sum_mod(Seq::new(n, |i: int| f1(i, k))));
    // collapse each column to its single surviving cell
    let collapsed = Seq::new(
        n,
        |k: int|
            mul_mod(
                mul_mod(
                    mul_mod(pow_mod(t, (d.size - 1 - k) as nat), c[d.size - 1 - k]),
                    d.size as int % p,
                ),
                1,
            ),
    );
    assert forall|k: int| 0 <= k < n implies cols[k] == mul_mod(
        mul_mod(pow_mod(t, (d.size - 1 - k) as nat), c[d.size - 1 - k]),
        d.size as int % p,
    ) by {
        lemma_lagrange_column(d, t, c, k);
        assert(Seq::new(n, |i: int| f1(i, k)) =~= Seq::new(
            d.size as nat,
            |i: int| lagrange_row(d, t, c, i, k),
        ));
    }
    let final_terms = Seq::new(
        n,
        |k: int|
            mul_mod(
                (d.size as int) % p,
                mul_mod(c[d.size - 1 - k], pow_mod(t, (d.size - 1 - k) as nat)),
            ),
    );
    assert forall|k: int| 0 <= k < n implies cols[k] == final_terms[k] by {
        lemma_lagrange_column(d, t, c, k);
        lemma_mul_mod_comm(
            mul_mod(pow_mod(t, (d.size - 1 - k) as nat), c[d.size - 1 - k]),
            (d.size as int) % p,
        );
        lemma_mul_mod_comm(pow_mod(t, (d.size - 1 - k) as nat), c[d.size - 1 - k]);
    }
    assert(cols =~= final_terms);
    // pull the domain size out of the sum
    let base_terms = Seq::new(n, |m: int| mul_mod(c[m], pow_mod(t, m as nat)));
    crate::polynomial::lemma_sum_mod_scale((d.size as int) % p, Seq::new(n, |k: int| base_terms[n - 1 - k]));
    assert(final_terms =~= Seq::new(
        n,
        |k: int| mul_mod((d.size as int) % p, Seq::new(n, |q: int| base_terms[n - 1 - q])[k]),
    ));
    // the reversed sum is the evaluation at t
    crate::polynomial::lemma_sum_mod_reverse(base_terms);
    assert(Seq::new(n, |k: int| base_terms[n - 1 - k]) =~= Seq::new(
        base_terms.len(),
        |k: int| base_terms[base_terms.len() - 1 - k],
    ));
    crate::polynomial::lemma_eval_poly_as_sum(c, t);
    assert(sum_mod(base_terms) == eval_poly(c, t));
    // cancel the size against its inverse
    assert(mul_mod(sinv, mul_mod((d.size as int) % p, eval_poly(c, t))) == eval_poly(c, t)) by {
        crate::field::lemma_mul_mod_rearrange_mid(sinv, (d.size as int) % p, eval_poly(c, t));
        assert((d.size as int) % p == d.size as int) by {
            lemma_two_pow_bound(d.log_size_of_group as nat);
            vstd::arithmetic::div_mod::lemma_small_mod(d.size as nat, P as nat);
        }
        crate::polynomial::lemma_eval_poly_in_field(c, t);
        assert(mul_mod(sinv, d.size as int) == 1);
        crate::field::lemma_mul_mod_rearrange_mid((d.size as int) % p, sinv, eval_poly(c, t));
        assert(mul_mod(sinv, eval_poly(c, t)) == mul_mod(eval_poly(c, t), sinv)) by {
            lemma_mul_mod_comm(sinv, eval_poly(c, t));
        }
        // (size % p) * (sinv * E) == E
        assert(mul_mod((d.size as int) % p, mul_mod(sinv, eval_poly(c, t))) == mul_mod(
            eval_poly(c, t),
            mul_mod(sinv, d.size as int),
        )) by {
            crate::field::lemma_mul_mod_rearrange_mid(
                (d.size as int) % p,
                eval_poly(c, t),
                sinv,
            );
            lemma_mul_mod_comm(sinv, (d.size as int));
            lemma_mul_mod_comm(eval_poly(c, t), mul_mod(sinv, d.size as int));
            assert(mul_mod(eval_poly(c, t), mul_mod((d.size as int) % p, sinv)) == mul_mod(
                eval_poly(c, t),
                mul_mod(sinv, (d.size as int) % p),
            )) by {
                lemma_mul_mod_comm((d.size as int) % p, sinv);
            }
        }
        lemma_mul_mod_one(eval_poly(c, t));
    }
}

/// One column of the exchanged grid: only the cell with
/// `j == n - 1 - k` survives, scaled by the domain size.
proof fn lemma_lagrange_column(d: EvaluationDomain, t: int, c: Seq<int>, k: int)
    requires
        d.wf(),
        in_field(t),
        c.len() == d.size,
        0 <= k < d.size,
    ensures
        sum_mod(Seq::new(d.size as nat, |i: int| lagrange_row(d, t, c, i, k))) == mul_mod(
            mul_mod(pow_mod(t, (d.size - 1 - k) as nat), c[d.size - 1 - k]),
            (d.size as int) % (P as int),
        ),
{
    let p = P as int;
    let w = d.group_gen@;
    let n = d.size as nat;
    d.lemma_wf_size_pow2();
    d.lemma_wf_root_pow();
    let f2 = |i: int, j: int| lagrange_grid(d, t, c, i, k, j);
    crate::polynomial::lemma_sum_mod_swap(n, n, f2);
    let row_seq = Seq::new(n, |i: int| lagrange_row(d, t, c, i, k));
    let swap_rows = Seq::new(n, |i: int| sum_mod(Seq::new(n, |j: int| f2(i, j))));
    assert forall|i: int| 0 <= i < n implies row_seq[i] == swap_rows[i] by {
        assert(Seq::new(d.size as nat, |j: int| lagrange_grid(d, t, c, i, k, j)) =~= Seq::new(
            n,
            |j: int| f2(i, j),
        ));
    }
    assert(row_seq =~= swap_rows);
    let cols = Seq::new(n, |j: int| sum_mod(Seq::new(n, |i: int| f2(i, j))));
    // each inner column over i is a power sum with stride (k+1+j) mod n
    assert forall|j: int| 0 <= j < n implies cols[j] == (if j == n - 1 - k {
        mul_mod(
            mul_mod(pow_mod(t, (d.size - 1 - k) as nat), c[j]),
            (d.size as int) % p,
        )
    } else {
        0int
    }) by {
        let m = k + 1 + j;
        let dd = m % (n as int);
        let coeff = mul_mod(pow_mod(t, (d.size - 1 - k) as nat), c[j]);
        let inner = Seq::new(n, |i: int| f2(i, j));
        let powers = Seq::new(n, |i: int| pow_mod(w, ((dd as nat) * i) as nat));
        assert forall|i: int| 0 <= i < n implies inner[i] == mul_mod(coeff, powers[i]) by {
            crate::field::lemma_pow_mod_exp_reduce(w, (i * m) as nat, n);
            crate::field::lemma_pow_mod_exp_reduce(w, ((dd as nat) * i) as nat, n);
            assert((i * m) % (n as int) == (dd * i) % (n as int)) by {
                vstd::arithmetic::div_mod::lemma_mul_mod_noop_right(i, m, n as int);
                vstd::arithmetic::div_mod::lemma_mul_mod_noop_left(m, i, n as int);
                vstd::arithmetic::mul::lemma_mul_is_commutative(i, m);
                vstd::arithmetic::mul::lemma_mul_is_commutative(dd, i);
                vstd::arithmetic::div_mod::lemma_mul_mod_noop_left(i, dd, n as int);
            }
            assert((i * (k + 1 + j)) as nat == (i * m) as nat);
        }
        assert(inner =~= Seq::new(n, |i: int| mul_mod(coeff, powers[i])));
        crate::polynomial::lemma_sum_mod_scale(coeff, powers);
        crate::polynomial::lemma_power_sum(w, n, dd as nat);
        if j == n - 1 - k {
            assert(m == n);
            assert(dd == 0) by {
                vstd::arithmetic::div_mod::lemma_mod_self_0(n as int);
            }
        } else {
            assert(dd != 0) by {
                assert(1 <= m < 2 * n);
                assert(m != n);
                if m < n {
                    vstd::arithmetic::div_mod::lemma_small_mod(m as nat, n);
                } else {
                    assert(m % (n as int) == (m - n) % (n as int)) by {
                        vstd::arithmetic::div_mod::lemma_mod_add_multiples_vanish(
                            m - n,
                            n as int,
                        );
                    }
                    vstd::arithmetic::div_mod::lemma_small_mod((m - n) as nat, n);
                }
            }
            assert(mul_mod(coeff, 0) == 0) by {
                assert(coeff * 0 == 0);
            }
        }
    }
    // the column sum collapses to the surviving entry
    let expected = mul_mod(
        mul_mod(pow_mod(t, (d.size - 1 - k) as nat), c[d.size - 1 - k]),
        (d.size as int) % p,
    );
    assert(cols =~= Seq::new(n, |j: int| if j == n - 1 - k {
        expected
    } else {
        0int
    }));
    crate::polynomial::lemma_sum_mod_indicator(cols, n - 1 - k);
}

/// Relies on rand::random: draws an arbitrary machine integer; nothing
/// is assumed about the value.
#[verifier::external_body]
fn random_u64() -> u64 {
    rand::random::<u64>()
}

impl EvaluationDomain {
    /// The Lagrange coefficient of this domain's `i`-th basis polynomial,
    /// evaluated at `t`. When `t` lies in the domain this is the indicator
    /// of the first domain element equal to `t`; otherwise it is
    /// `(t^n - 1) / n * w^i / (t - w^i)`.
    pub open spec fn lagrange_coeff(self, t: int, i: int) -> int {
        let n = self.size as nat;
        let w = self.group_gen@;
        if pow_mod(t, n) == 1 {
            if pow_mod(w, i as nat) == t && (forall|j: int|
                0 <= j < i ==> #[trigger] pow_mod(w, j as nat) != t) {
                1
            } else {
                0
            }
        } else {
            mul_mod(
                mul_mod(mul_mod(sub_mod(pow_mod(t, n), 1), self.size_inv@), pow_mod(w, i as nat)),
                inv_mod(sub_mod(t, pow_mod(w, i as nat))),
            )
        }
    }

    /// Evaluate all the Lagrange basis polynomials defined by this domain
    /// at the point `tau`.
    #[verifier::loop_isolation(false)]
    pub fn evaluate_all_lagrange_coefficients(&self, tau: Fp) -> (r: Vec<Fp>)
        requires
            self.wf(),
        ensures
            r@.len() == self.size,
            forall|i: int| 0 <= i < self.size ==> (#[trigger] r@[i])@ == self.lagrange_coeff(
                tau@,
                i,
            ),
    {
        let n = self.size();
        let t_size = tau.pow(self.size);
        let mut r: Vec<Fp> = Vec::new();
        if t_size.is_one() {
            // tau is itself a domain element: the coefficients form the
            // indicator vector of its first occurrence
            let mut seen = false;
            let mut cur = Fp::one();
            let mut i: usize = 0;
            proof {
                assert(pow_mod(self.group_gen@, 0) == 1int % (P as int));
            }
            while i < n
                invariant
                    i <= n,
                    r@.len() == i,
                    cur@ == pow_mod(self.group_gen@, i as nat),
                    seen <==> exists|j: int|
                        0 <= j < i && #[trigger] pow_mod(self.group_gen@, j as nat) == tau@,
                    forall|q: int| 0 <= q < i ==> (#[trigger] r@[q])@ == self.lagrange_coeff(
                        tau@,
                        q,
                    ),
                decreases n - i,
            {
                let hit = !seen && cur.eq_value(tau);
                if hit {
                    r.push(Fp::one());
                    seen = true;
                } else {
                    r.push(Fp::zero());
                }
                cur = cur.mul(self.group_gen);
                i = i + 1;
                proof {
                    lemma_mul_mod_comm(pow_mod(self.group_gen@, (i - 1) as nat), self.group_gen@);
                }
            }
            r
        } else {
            // tau is outside the domain: each coefficient is
            // l_i / (tau - w^i), built incrementally
            let ghost l0 = mul_mod(sub_mod(pow_mod(tau@, self.size as nat), 1), self.size_inv@);
            let mut l = t_size.sub(Fp::one()).mul(self.size_inv);
            let mut root = Fp::one();
            let mut i: usize = 0;
            proof {
                assert(pow_mod(self.group_gen@, 0) == 1int % (P as int));
                crate::field::lemma_fp_in_field(l);
                vstd::arithmetic::div_mod::lemma_small_mod(l@ as nat, P as nat);
                assert(l@ * 1 == l@);
            }
            while i < n
                invariant
                    i <= n,
                    r@.len() == i,
                    root@ == pow_mod(self.group_gen@, i as nat),
                    l@ == mul_mod(l0, pow_mod(self.group_gen@, i as nat)),
                    forall|q: int| 0 <= q < i ==> (#[trigger] r@[q])@ == self.lagrange_coeff(
                        tau@,
                        q,
                    ),
                decreases n - i,
            {
                let u = tau.sub(root);
                let u_inv = u.pow(P - 2);
                r.push(l.mul(u_inv));
                l = l.mul(self.group_gen);
                root = root.mul(self.group_gen);
                i = i + 1;
                proof {
                    let w = self.group_gen@;
                    lemma_mul_mod_comm(pow_mod(w, (i - 1) as nat), w);
                    lemma_mul_mod_rearrange(l0, pow_mod(w, (i - 1) as nat), w);
                }
            }
            r
        }
    }

    /// Return the sparse vanishing polynomial, `X^size - 1`.
    pub fn vanishing_polynomial(&self) -> (r: crate::polynomial::SparsePolynomial)
        requires
            self.wf(),
        ensures
            r.coeffs@.len() == 2,
            r.coeffs@[0].0 == 0 && r.coeffs@[0].1@ == (P - 1) as int,
            r.coeffs@[1].0 == self.size && r.coeffs@[1].1@ == 1,
    {
        let mut coeffs: Vec<(usize, Fp)> = Vec::new();
        coeffs.push((0, Fp::one().neg()));
        coeffs.push((self.size(), Fp::one()));
        proof {
            let p = P as int;
            assert((0 - 1) % p == p - 1) by {
                vstd::arithmetic::div_mod::lemma_mod_add_multiples_vanish(-1, p);
                vstd::arithmetic::div_mod::lemma_small_mod((p - 1) as nat, P as nat);
            }
        }
        crate::polynomial::SparsePolynomial::from_coefficients_vec(coeffs)
    }

    /// This evaluates the vanishing polynomial of this domain at tau:
    /// `tau^size - 1`.
    pub fn evaluate_vanishing_polynomial(&self, tau: Fp) -> (r: Fp)
        ensures
            r@ == sub_mod(pow_mod(tau@, self.size as nat), 1),
    {
        tau.pow(self.size).sub(Fp::one())
    }

    /// Return an iterator-like cursor over the elements of the domain.
    pub fn elements(&self) -> (r: Elements)
        requires
            self.wf(),
        ensures
            r.wf(),
            r.domain() == *self,
            r.position() == 0,
    {
        Elements { cur_elem: Fp::one(), cur_pow: 0, domain: *self }
    }

    /// Multiplies every evaluation on the coset by the constant
    /// `1 / (g^size - 1)`, the inverse of the vanishing polynomial at any
    /// coset point.
    pub fn divide_by_vanishing_poly_on_coset_in_place(&self, evals: &mut Vec<Fp>)
        ensures
            final(evals)@.len() == old(evals)@.len(),
            forall|i: int|
                0 <= i < final(evals)@.len() ==> (#[trigger] final(evals)@[i])@ == mul_mod(
                    old(evals)@[i]@,
                    inv_mod(
                        sub_mod(pow_mod(MULTIPLICATIVE_GENERATOR as int, self.size as nat), 1),
                    ),
                ),
    {
        let g = Fp::from_u64(MULTIPLICATIVE_GENERATOR);
        proof {
            assert(31int % (P as int) == 31) by {
                vstd::arithmetic::div_mod::lemma_small_mod(31nat, P as nat);
            }
        }
        let z = self.evaluate_vanishing_polynomial(g);
        let z_inv = z.pow(P - 2);
        let n = evals.len();
        let mut i: usize = 0;
        while i < n
            invariant
                i <= n,
                n == evals@.len(),
                evals@.len() == old(evals)@.len(),
                z_inv@ == inv_mod(
                    sub_mod(pow_mod(MULTIPLICATIVE_GENERATOR as int, self.size as nat), 1),
                ),
                forall|q: int| i <= q < n ==> evals@[q] == old(evals)@[q],
                forall|q: int|
                    0 <= q < i ==> (#[trigger] evals@[q])@ == mul_mod(old(evals)@[q]@, z_inv@),
            decreases n - i,
        {
            let scaled = evals[i].mul(z_inv);
            evals[i] = scaled;
            i = i + 1;
        }
    }

    /// Given an index into the concatenation of a subdomain's elements
    /// and the remaining elements of this domain, returns the index of
    /// the same element in this domain's natural ordering.
    pub fn reindex_by_subdomain(&self, other: EvaluationDomain, index: usize) -> (r: usize)
        requires
            self.wf(),
            other.wf(),
            other.size <= self.size,
            index < self.size,
        ensures
            index < other.size ==> r == index as int * (self.size as int / other.size as int),
            index >= other.size ==> r == (index - other.size) + (index - other.size) as int / (
            self.size as int / other.size as int - 1) + 1,
    {
        proof {
            lemma_two_pow_bound(self.log_size_of_group as nat);
            lemma_two_pow_bound(other.log_size_of_group as nat);
            lemma_two_pow_is_pow2(self.log_size_of_group as nat);
            lemma_two_pow_is_pow2(other.log_size_of_group as nat);
            lemma_two_pow_monotonic_converse(
                other.log_size_of_group as nat,
                self.log_size_of_group as nat,
            );
            let diff = (self.log_size_of_group - other.log_size_of_group) as nat;
            lemma_two_pow_div(other.log_size_of_group as nat, self.log_size_of_group as nat);
            lemma_two_pow_is_pow2(diff);
            assert(self.size as int / other.size as int == two_pow(diff));
            assert(other.size as int * two_pow(diff) == self.size as int);
        }
        let period = (self.size / other.size) as usize;
        if index < other.size as usize {
            proof {
                assert(index * period < self.size) by (nonlinear_arith)
                    requires
                        index < other.size,
                        other.size as int * period as int == self.size as int,
                        period >= 1,
                ;
            }
            index * period
        } else {
            let i = index - other.size as usize;
            let x = period - 1;
            proof {
                assert(self.size > other.size);
                assert(period >= 2) by {
                    if self.log_size_of_group == other.log_size_of_group {
                        assert(self.size == other.size);
                    }
                    lemma_two_pow_is_pow2(
                        (self.log_size_of_group - other.log_size_of_group) as nat,
                    );
                }
            }
            i + i / x + 1
        }
    }

    /// Perform pointwise multiplication of two polynomials presented by
    /// their evaluations over the domain.
    pub fn mul_polynomials_in_evaluation_domain(
        &self,
        self_evals: &Vec<Fp>,
        other_evals: &Vec<Fp>,
    ) -> (r: Vec<Fp>)
        requires
            self_evals@.len() == other_evals@.len(),
        ensures
            r@.len() == self_evals@.len(),
            forall|i: int|
                0 <= i < r@.len() ==> (#[trigger] r@[i])@ == mul_mod(
                    self_evals@[i]@,
                    other_evals@[i]@,
                ),
    {
        let n = self_evals.len();
        let mut r: Vec<Fp> = Vec::new();
        let mut i: usize = 0;
        while i < n
            invariant
                i <= n,
                n == self_evals@.len(),
                self_evals@.len() == other_evals@.len(),
                r@.len() == i,
                forall|q: int|
                    0 <= q < i ==> (#[trigger] r@[q])@ == mul_mod(
                        self_evals@[q]@,
                        other_evals@[q]@,
                    ),
            decreases n - i,
        {
            r.push(self_evals[i].mul(other_evals[i]));
            i = i + 1;
        }
        r
    }

    /// Computes the first `self.size / 2` powers of `root`: for the whole
    /// domain these are the roots of unity `[1, g, g^2, ...]`.
    pub fn roots_of_unity(&self, root: Fp) -> (r: Vec<Fp>)
        requires
            self.wf(),
        ensures
            r@.len() == self.size / 2,
            forall|i: int| 0 <= i < r@.len() ==> (#[trigger] r@[i])@ == pow_mod(root@, i as nat),
    {
        proof {
            lemma_two_pow_bound(self.log_size_of_group as nat);
        }
        Self::compute_powers_serial((self.size / 2) as usize, root)
    }

    /// The first `size` powers of `root`, starting from `root^0 == 1`.
    fn compute_powers_serial(size: usize, root: Fp) -> (r: Vec<Fp>)
        ensures
            r@.len() == size,
            forall|i: int| 0 <= i < r@.len() ==> (#[trigger] r@[i])@ == pow_mod(root@, i as nat),
    {
        let mut r: Vec<Fp> = Vec::new();
        let mut value = Fp::one();
        let mut i: usize = 0;
        proof {
            assert(pow_mod(root@, 0) == 1int % (P as int));
        }
        while i < size
            invariant
                i <= size,
                r@.len() == i,
                value@ == pow_mod(root@, i as nat),
                forall|q: int| 0 <= q < i ==> (#[trigger] r@[q])@ == pow_mod(root@, q as nat),
            decreases size - i,
        {
            r.push(value);
            value = value.mul(root);
            i = i + 1;
            proof {
                lemma_mul_mod_comm(pow_mod(root@, (i - 1) as nat), root@);
            }
        }
        r
    }

    /// Sample an element that is *not* in the domain: draws random field
    /// elements until one fails the vanishing-polynomial test, giving up
    /// after a bounded number of attempts.
    pub fn sample_element_outside_domain(&self) -> (r: Option<Fp>)
        ensures
            r matches Some(t) ==> pow_mod(t@, self.size as nat) != 1,
    {
        let mut attempts: usize = 0;
        while attempts < 128
            invariant
                attempts <= 128,
            decreases 128 - attempts,
        {
            let t = Fp::from_u64(random_u64());
            if !self.evaluate_vanishing_polynomial(t).is_zero() {
                proof {
                    let v = sub_mod(pow_mod(t@, self.size as nat), 1);
                    crate::field::lemma_pow_mod_in_field(t@, self.size as nat);
                    if pow_mod(t@, self.size as nat) == 1 {
                        assert(v == 0);
                    }
                }
                return Some(t);
            }
            attempts = attempts + 1;
        }
        None
    }
}

/// A cursor over the elements `[1, g, g^2, ..., g^(size-1)]` of a domain.
pub struct Elements {
    cur_elem: Fp,
    cur_pow: u64,
    domain: EvaluationDomain,
}

impl Elements {
    /// The domain whose elements are being enumerated.
    pub closed spec fn domain(self) -> EvaluationDomain {
        self.domain
    }

    /// How many elements have been yielded so far.
    pub closed spec fn position(self) -> int {
        self.cur_pow as int
    }

    /// The cursor's consistency: the current element is the generator
    /// raised to the current position.
    pub closed spec fn wf(self) -> bool {
        &&& self.domain.wf()
        &&& self.cur_pow <= self.domain.size
        &&& self.cur_elem@ == pow_mod(self.domain.group_gen@, self.cur_pow as nat)
    }

    /// Yields the next domain element, or `None` once all `size` elements
    /// have been produced.
    pub fn next(&mut self) -> (r: Option<Fp>)
        requires
            old(self).wf(),
        ensures
            final(self).wf(),
            final(self).domain() == old(self).domain(),
            r is Some <==> old(self).position() < old(self).domain().size,
            r matches Some(x) ==> x@ == pow_mod(
                old(self).domain().group_gen@,
                old(self).position() as nat,
            ) && final(self).position() == old(self).position() + 1,
            r is None ==> final(self).position() == old(self).position(),
    {
        if self.cur_pow == self.domain.size {
            None
        } else {
            let cur_elem = self.cur_elem;
            self.cur_elem = self.cur_elem.mul(self.domain.group_gen);
            self.cur_pow = self.cur_pow + 1;
            proof {
                lemma_mul_mod_comm(
                    pow_mod(self.domain.group_gen@, (self.cur_pow - 1) as nat),
                    self.domain.group_gen@,
                );
            }
            Some(cur_elem)
        }
    }
}

/// Returns the largest `r` with `2^r <= num`.
#[verifier::loop_isolation(false)]
pub fn log2_floor(num: usize) -> (r: u32)
    requires
        num >= 1,
    ensures
        two_pow(r as nat) <= num < two_pow((r + 1) as nat),
{
    let mut pw: u32 = 0;
    let mut m: usize = num;
    proof {
        assert(two_pow(0) == 1);
        assert(1 * num == num);
        assert(num < two_pow(0) * (num + 1)) by {
            assert(two_pow(0) * (num + 1) == num + 1);
        }
    }
    while m >= 2
        invariant
            m >= 1,
            pw < 64,
            two_pow(pw as nat) * m <= num,
            num < two_pow(pw as nat) * (m + 1),
        decreases m,
    {
        proof {
            let t = two_pow(pw as nat) as int;
            let mi = m as int;
            lemma_two_pow_is_pow2(pw as nat);
            assert(t >= 1);
            assert(two_pow((pw + 1) as nat) == 2 * two_pow(pw as nat));
            assert((2 * t) * (mi / 2) <= t * mi) by (nonlinear_arith)
                requires
                    t >= 0,
                    mi >= 2,
            ;
            assert(t * (mi + 1) <= (2 * t) * (mi / 2 + 1)) by (nonlinear_arith)
                requires
                    t >= 0,
                    mi >= 2,
            ;
            // the exponent stays below 64 because 2^(pw+1) <= num < 2^64
            lemma_two_pow_64();
            assert((2 * t) * (mi / 2) >= 2 * t) by (nonlinear_arith)
                requires
                    t >= 1,
                    mi >= 2,
            ;
            assert(two_pow(64) == 2 * two_pow(63));
            if pw + 1 >= 64 {
                lemma_two_pow_monotonic(64, (pw + 1) as nat);
            }
        }
        m = m / 2;
        pw = pw + 1;
    }
    proof {
        let t = two_pow(pw as nat) as int;
        assert(t * 1 == t);
        assert(t * 2 == 2 * t);
        assert(two_pow((pw + 1) as nat) == 2 * two_pow(pw as nat));
    }
    pw
}

/// `2^64` exceeds every machine word.
proof fn lemma_two_pow_64()
    ensures
        two_pow(63) == 0x8000000000000000,
{
    lemma_two_pow_value();
    assert(two_pow(30) == 0x40000000) by {
        assert(two_pow(28) == 0x10000000);
        assert(two_pow(29) == 0x20000000);
    }
    assert(two_pow(33) == 0x200000000) by {
        assert(two_pow(31) == 0x80000000);
        assert(two_pow(32) == 0x100000000);
    }
    assert(two_pow(36) == 0x1000000000) by {
        assert(two_pow(34) == 0x400000000);
        assert(two_pow(35) == 0x800000000);
    }
    assert(two_pow(39) == 0x8000000000) by {
        assert(two_pow(37) == 0x2000000000);
        assert(two_pow(38) == 0x4000000000);
    }
    assert(two_pow(42) == 0x40000000000) by {
        assert(two_pow(40) == 0x10000000000);
        assert(two_pow(41) == 0x20000000000);
    }
    assert(two_pow(45) == 0x200000000000) by {
        assert(two_pow(43) == 0x80000000000);
        assert(two_pow(44) == 0x100000000000);
    }
    assert(two_pow(48) == 0x1000000000000) by {
        assert(two_pow(46) == 0x400000000000);
        assert(two_pow(47) == 0x800000000000);
    }
    assert(two_pow(51) == 0x8000000000000) by {
        assert(two_pow(49) == 0x2000000000000);
        assert(two_pow(50) == 0x4000000000000);
    }
    assert(two_pow(54) == 0x40000000000000) by {
        assert(two_pow(52) == 0x10000000000000);
        assert(two_pow(53) == 0x20000000000000);
    }
    assert(two_pow(57) == 0x200000000000000) by {
        assert(two_pow(55) == 0x80000000000000);
        assert(two_pow(56) == 0x100000000000000);
    }
    assert(two_pow(60) == 0x1000000000000000) by {
        assert(two_pow(58) == 0x400000000000000);
        assert(two_pow(59) == 0x800000000000000);
    }
    assert(two_pow(63) == 0x8000000000000000) by {
        assert(two_pow(61) == 0x2000000000000000);
        assert(two_pow(62) == 0x4000000000000000);
    }
}

/// Exponent subtraction gives exact division of powers of two.
#[verifier::spinoff_prover]
#[verifier::rlimit(60)]
pub proof fn lemma_two_pow_adds(a: nat, b: nat)
    ensures
        two_pow(a + b) == two_pow(a) * two_pow(b),
    decreases a,
{
    if a == 0 {
        assert(two_pow(0) == 1);
        assert(a + b == b);
        assert(1 * two_pow(b) == two_pow(b));
    } else {
        lemma_two_pow_adds((a - 1) as nat, b);
        assert(two_pow(a + b) == 2 * two_pow((a + b - 1) as nat));
        assert((a + b - 1) as nat == (a - 1) as nat + b);
        assert(two_pow((a + b - 1) as nat) == two_pow((a - 1) as nat) * two_pow(b));
        assert(two_pow(a) == 2 * two_pow((a - 1) as nat));
        assert(2 * (two_pow((a - 1) as nat) * two_pow(b)) == (2 * two_pow((a - 1) as nat))
            * two_pow(b)) by {
            vstd::arithmetic::mul::lemma_mul_is_associative(
                2,
                two_pow((a - 1) as nat) as int,
                two_pow(b) as int,
            );
        }
    }
}

/// Larger powers of two have larger exponents.
pub proof fn lemma_two_pow_monotonic_converse(j: nat, k: nat)
    requires
        two_pow(j) <= two_pow(k),
    ensures
        j <= k,
{
    if j > k {
        lemma_two_pow_monotonic((k + 1) as nat, j);
        lemma_two_pow_is_pow2(k);
    }
}

/// Dividing two powers of two subtracts their exponents, exactly.
pub proof fn lemma_two_pow_div(j: nat, k: nat)
    requires
        j <= k,
    ensures
        two_pow(k) as int / two_pow(j) as int == two_pow((k - j) as nat),
        two_pow(j) as int * two_pow((k - j) as nat) == two_pow(k),
{
    lemma_two_pow_adds(j, (k - j) as nat);
    lemma_two_pow_is_pow2(j);
    lemma_two_pow_is_pow2((k - j) as nat);
    assert(j + (k - j) as nat == k);
    assert(two_pow(k) == two_pow(j) * two_pow((k - j) as nat));
    assert(two_pow(k) as int == (two_pow((k - j) as nat) as int) * (two_pow(j) as int) + 0) by {
        vstd::arithmetic::mul::lemma_mul_is_commutative(
            two_pow(j) as int,
            two_pow((k - j) as nat) as int,
        );
    }
    vstd::arithmetic::div_mod::lemma_fundamental_div_mod_converse(
        two_pow(k) as int,
        two_pow(j) as int,
        two_pow((k - j) as nat) as int,
        0,
    );
}

/// Powers of two grow monotonically.
pub proof fn lemma_two_pow_monotonic(j: nat, k: nat)
    requires
        j <= k,
    ensures
        two_pow(j) <= two_pow(k),
    decreases k,
{
    if j < k {
        lemma_two_pow_monotonic(j, (k - 1) as nat);
        lemma_two_pow_is_pow2((k - 1) as nat);
    }
}

/// `2^k` stays below the modulus for every `k` up to the two-adicity.
pub proof fn lemma_two_pow_bound(k: nat)
    requires
        k <= TWO_ADICITY,
    ensures
        two_pow(k) <= two_pow(TWO_ADICITY as nat),
        two_pow(TWO_ADICITY as nat) < P,
{
    lemma_two_pow_monotonic(k, TWO_ADICITY as nat);
    lemma_two_pow_value();
}

/// The concrete value of `2^27`.
pub proof fn lemma_two_pow_value()
    ensures
        two_pow(TWO_ADICITY as nat) == 0x8000000,
{
    assert(two_pow(0) == 1);
    assert(two_pow(3) == 8) by {
        assert(two_pow(1) == 2);
        assert(two_pow(2) == 4);
    }
    assert(two_pow(6) == 0x40) by {
        assert(two_pow(4) == 0x10);
        assert(two_pow(5) == 0x20);
    }
    assert(two_pow(9) == 0x200) by {
        assert(two_pow(7) == 0x80);
        assert(two_pow(8) == 0x100);
    }
    assert(two_pow(12) == 0x1000) by {
        assert(two_pow(10) == 0x400);
        assert(two_pow(11) == 0x800);
    }
    assert(two_pow(15) == 0x8000) by {
        assert(two_pow(13) == 0x2000);
        assert(two_pow(14) == 0x4000);
    }
    assert(two_pow(18) == 0x40000) by {
        assert(two_pow(16) == 0x10000);
        assert(two_pow(17) == 0x20000);
    }
    assert(two_pow(21) == 0x200000) by {
        assert(two_pow(19) == 0x80000);
        assert(two_pow(20) == 0x100000);
    }
    assert(two_pow(24) == 0x1000000) by {
        assert(two_pow(22) == 0x400000);
        assert(two_pow(23) == 0x800000);
    }
    assert(two_pow(27) == 0x8000000) by {
        assert(two_pow(25) == 0x2000000);
        assert(two_pow(26) == 0x4000000);
    }
}

/// Between two distinct powers of two there is at least a factor of two.
pub proof fn lemma_pow2_gap(a: nat, b: nat)
    requires
        is_pow2(a),
        is_pow2(b),
        a < b,
    ensures
        2 * a <= b,
    decreases b,
{
    if a == 1 {
    } else {
        lemma_pow2_gap(a / 2, b / 2);
    }
}

/// No power of two at least `n` is smaller than `next_pow2(n)`.
pub proof fn lemma_next_pow2_min(n: nat, m: nat)
    requires
        is_pow2(m),
        m >= n,
    ensures
        next_pow2(n) <= m,
    decreases n,
{
    if n <= 1 {
    } else {
        let half = (n + 1) / 2;
        assert(m % 2 == 0 && m >= 2);
        assert(half <= m / 2);
        lemma_next_pow2_min(half, m / 2);
    }
}

/// While the running power of two is still below `n`, the next power of
/// two for `n` is at least twice it.
proof fn lemma_next_pow2_step(n: nat, size: nat)
    requires
        is_pow2(size),
        size < n,
    ensures
        next_pow2(n) >= 2 * size,
{
    lemma_next_pow2(n);
    lemma_pow2_gap(size, next_pow2(n));
}

} // verus!
