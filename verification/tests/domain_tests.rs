use snarkvm_core::domain::{log2_floor, EvaluationDomain};
use snarkvm_core::field::{Fp, MULTIPLICATIVE_GENERATOR};

fn next_rand(state: &mut u64) -> u64 {
    *state = state
        .wrapping_mul(6364136223846793005)
        .wrapping_add(1442695040888963407);
    *state >> 33
}

fn rand_fp(state: &mut u64) -> Fp {
    Fp::from_u64(next_rand(state))
}

/// Horner evaluation of a dense coefficient vector at a point.
fn eval_dense(coeffs: &[Fp], x: Fp) -> Fp {
    let mut acc = Fp::zero();
    for c in coeffs.iter().rev() {
        acc = acc.mul(x).add(*c);
    }
    acc
}

#[test]
fn test_log2_floor() {
    assert_eq!(log2_floor(1), 0);
    assert_eq!(log2_floor(2), 1);
    assert_eq!(log2_floor(3), 1);
    assert_eq!(log2_floor(4), 2);
    assert_eq!(log2_floor(5), 2);
    assert_eq!(log2_floor(6), 2);
    assert_eq!(log2_floor(7), 2);
    assert_eq!(log2_floor(8), 3);
}

#[test]
fn vanishing_polynomial_evaluation() {
    let mut rng: u64 = 0x12345678;
    for coeffs in 0..10 {
        let domain = EvaluationDomain::new(coeffs).unwrap();
        let z = domain.vanishing_polynomial();
        for _ in 0..100 {
            let point = rand_fp(&mut rng);
            assert_eq!(
                z.evaluate(point),
                domain.evaluate_vanishing_polynomial(point)
            );
        }
    }
}

#[test]
fn vanishing_polynomial_vanishes_on_domain() {
    for coeffs in 0..1000 {
        let domain = EvaluationDomain::new(coeffs).unwrap();
        let mut elements = domain.elements();
        while let Some(point) = elements.next() {
            assert!(domain.evaluate_vanishing_polynomial(point).is_zero());
        }
    }
}

#[test]
fn size_of_elements() {
    for coeffs in 1..10 {
        let size = 1 << coeffs;
        let domain = EvaluationDomain::new(size).unwrap();
        let domain_size = domain.size();
        let mut count = 0;
        let mut elements = domain.elements();
        while let Some(_) = elements.next() {
            count += 1;
        }
        assert_eq!(domain_size, count);
    }
}

#[test]
fn elements_contents() {
    for coeffs in 1..10 {
        let size = 1 << coeffs;
        let domain = EvaluationDomain::new(size).unwrap();
        let mut elements = domain.elements();
        let mut i: u64 = 0;
        while let Some(element) = elements.next() {
            assert_eq!(element, domain.group_gen.pow(i));
            i += 1;
        }
    }
}

/// Lagrange interpolation for a random polynomial at a random point.
#[test]
fn non_systematic_lagrange_coefficients_test() {
    let mut rng: u64 = 0xdeadbeef;
    for domain_dimension in 1..10 {
        let domain_size = 1 << domain_dimension;
        let domain = EvaluationDomain::new(domain_size).unwrap();
        let random_point = rand_fp(&mut rng);
        let lagrange_coefficients = domain.evaluate_all_lagrange_coefficients(random_point);

        let random_polynomial: Vec<Fp> =
            (0..domain_size).map(|_| rand_fp(&mut rng)).collect();
        let polynomial_evaluations = domain.fft(&random_polynomial);
        let actual_evaluations = eval_dense(&random_polynomial, random_point);

        let mut interpolated_evaluation = Fp::zero();
        for i in 0..domain_size {
            interpolated_evaluation = interpolated_evaluation
                .add(lagrange_coefficients[i].mul(polynomial_evaluations[i]));
        }
        assert_eq!(actual_evaluations, interpolated_evaluation);
    }
}

/// Lagrange coefficients for a point inside the domain form an
/// indicator vector.
#[test]
fn systematic_lagrange_coefficients_test() {
    for domain_dimension in 1..5 {
        let domain_size = 1 << domain_dimension;
        let domain = EvaluationDomain::new(domain_size).unwrap();
        let mut all_domain_elements = Vec::new();
        let mut elements = domain.elements();
        while let Some(element) = elements.next() {
            all_domain_elements.push(element);
        }
        for (i, domain_element) in all_domain_elements.iter().enumerate() {
            let lagrange_coefficients =
                domain.evaluate_all_lagrange_coefficients(*domain_element);
            for (j, lagrange_coefficient) in lagrange_coefficients.iter().enumerate() {
                if i == j {
                    assert_eq!(*lagrange_coefficient, Fp::one());
                } else {
                    assert_eq!(*lagrange_coefficient, Fp::zero());
                }
            }
        }
    }
}

/// The roots-of-unity result agrees with domain.elements().
#[test]
fn test_roots_of_unity() {
    let max_degree = 10;
    for log_domain_size in 0..max_degree {
        let domain_size = 1 << log_domain_size;
        let domain = EvaluationDomain::new(domain_size).unwrap();
        let actual_roots = domain.roots_of_unity(domain.group_gen);
        for &value in &actual_roots {
            assert!(domain.evaluate_vanishing_polynomial(value).is_zero());
        }
        let mut elements = domain.elements();
        for &actual in &actual_roots {
            let expected = elements.next().unwrap();
            assert_eq!(expected, actual);
        }
        assert_eq!(actual_roots.len(), domain_size / 2);
    }
}

/// The FFTs output evaluations of the polynomial, and the inverse
/// transforms recover it, on the domain and on its coset.
#[test]
fn test_fft_correctness() {
    let mut rng: u64 = 0xfeedface;
    let log_degree = 5;
    let degree = 1 << log_degree;
    let random_polynomial: Vec<Fp> = (0..degree).map(|_| rand_fp(&mut rng)).collect();

    for log_domain_size in log_degree..(log_degree + 2) {
        let domain_size = 1 << log_domain_size;
        let domain = EvaluationDomain::new(domain_size).unwrap();
        let polynomial_evaluations = domain.fft(&random_polynomial);
        let polynomial_coset_evaluations = domain.coset_fft(&random_polynomial);
        let generator = Fp::from_u64(MULTIPLICATIVE_GENERATOR);
        let mut elements = domain.elements();
        let mut i = 0;
        while let Some(x) = elements.next() {
            let coset_x = generator.mul(x);
            assert_eq!(polynomial_evaluations[i], eval_dense(&random_polynomial, x));
            assert_eq!(
                polynomial_coset_evaluations[i],
                eval_dense(&random_polynomial, coset_x)
            );
            i += 1;
        }

        let polynomial_from_subgroup = domain.ifft(&polynomial_evaluations);
        let polynomial_from_coset = domain.coset_ifft(&polynomial_coset_evaluations);

        for i in 0..domain.size() {
            let expected = if i < degree {
                random_polynomial[i]
            } else {
                Fp::zero()
            };
            assert_eq!(
                polynomial_from_subgroup[i], expected,
                "degree = {}, domain size = {}",
                degree, domain_size
            );
            assert_eq!(
                polynomial_from_coset[i], expected,
                "degree = {}, domain size = {}",
                degree, domain_size
            );
        }
    }
}

#[test]
fn test_compute_size_of_domain() {
    assert_eq!(EvaluationDomain::compute_size_of_domain(0), Some(1));
    assert_eq!(EvaluationDomain::compute_size_of_domain(1), Some(1));
    assert_eq!(EvaluationDomain::compute_size_of_domain(2), Some(2));
    assert_eq!(EvaluationDomain::compute_size_of_domain(3), Some(4));
    assert_eq!(EvaluationDomain::compute_size_of_domain(1000), Some(1024));
    assert_eq!(EvaluationDomain::compute_size_of_domain(1 << 27), Some(1 << 27));
    assert_eq!(EvaluationDomain::compute_size_of_domain((1 << 27) + 1), None);
}

#[test]
fn test_reindex_by_subdomain() {
    let big = EvaluationDomain::new(16).unwrap();
    let small = EvaluationDomain::new(4).unwrap();
    // elements of the subdomain sit at multiples of the period
    assert_eq!(big.reindex_by_subdomain(small, 0), 0);
    assert_eq!(big.reindex_by_subdomain(small, 1), 4);
    assert_eq!(big.reindex_by_subdomain(small, 2), 8);
    assert_eq!(big.reindex_by_subdomain(small, 3), 12);
    // the remaining indices interleave between them
    assert_eq!(big.reindex_by_subdomain(small, 4), 1);
    assert_eq!(big.reindex_by_subdomain(small, 5), 2);
    assert_eq!(big.reindex_by_subdomain(small, 6), 3);
    assert_eq!(big.reindex_by_subdomain(small, 7), 5);
}

#[test]
fn test_mul_polynomials_in_evaluation_domain() {
    let mut rng: u64 = 0xabcdef;
    let domain = EvaluationDomain::new(8).unwrap();
    let a: Vec<Fp> = (0..8).map(|_| rand_fp(&mut rng)).collect();
    let b: Vec<Fp> = (0..8).map(|_| rand_fp(&mut rng)).collect();
    let prod = domain.mul_polynomials_in_evaluation_domain(&a, &b);
    for i in 0..8 {
        assert_eq!(prod[i], a[i].mul(b[i]));
    }
}

#[test]
fn test_divide_by_vanishing_poly_on_coset() {
    let domain = EvaluationDomain::new(8).unwrap();
    let g = Fp::from_u64(MULTIPLICATIVE_GENERATOR);
    let z_at_g = domain.evaluate_vanishing_polynomial(g);
    let mut evals: Vec<Fp> = (0..8).map(|i| Fp::from_u64(i as u64 + 1)).collect();
    let original = evals.clone();
    domain.divide_by_vanishing_poly_on_coset_in_place(&mut evals);
    for i in 0..8 {
        // multiplying back by the vanishing value restores the input
        assert_eq!(evals[i].mul(z_at_g), original[i]);
    }
}

#[test]
fn test_sample_element_outside_domain() {
    let domain = EvaluationDomain::new(64).unwrap();
    let sampled = domain.sample_element_outside_domain().unwrap();
    assert!(!domain.evaluate_vanishing_polynomial(sampled).is_zero());
}
