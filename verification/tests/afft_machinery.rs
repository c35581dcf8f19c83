use srs::afft::generator::generator_row;
use srs::afft::locator::{walsh_hadamard, ErasureLocator, LocatorScratch};
use srs::afft::recovery::{recover_rows, RecoveryScratch};
use srs::afft::systematic::{SystematicLocators, SYSTEMATIC_LOCATOR_CAPACITY};
use srs::afft::tables::{mod_pow, mul_mod, LogExpTables};
use srs::afft::targeted::TargetedInverse;
use srs::afft::{Field, TransformLengthError, TransformPlan};
use srs::gf256;
use srs::gf65536;
use std::fmt::Debug;
use std::sync::Arc;

type Gf8 = gf256::GfElem;
type Gf16 = gf65536::GfElem;

/// The product over the erased points `e != x` of `point(x) + point(e)`, with
/// no logarithms and no convolution.
fn naive<F: Field>(plan: &TransformPlan<F>, known: &[bool]) -> (Vec<F>, Vec<F>) {
    let size = plan.size();
    let mut values = vec![F::zero_value(); size];
    let mut derivatives = vec![F::zero_value(); size];
    for point in 0..size {
        let mut product = F::one_value();
        for (erased, &is_known) in known.iter().enumerate() {
            if is_known || erased == point {
                continue;
            }
            product = product.mul_value(plan.point_element(point ^ erased));
        }
        if known[point] {
            values[point] = product;
        } else {
            derivatives[point] = product;
        }
    }
    (values, derivatives)
}

fn check_pattern<F: Field + PartialEq + Debug>(plan: &TransformPlan<F>, known: &[bool]) {
    let locator = ErasureLocator::new(plan, known).unwrap();
    let (values, derivatives) = naive(plan, known);
    assert_eq!(locator.values(), &values[..], "locator values");
    assert_eq!(
        locator.derivatives(),
        &derivatives[..],
        "locator derivatives"
    );
    for (index, &is_known) in known.iter().enumerate() {
        if is_known {
            assert_ne!(locator.values()[index], F::zero_value());
            assert_eq!(locator.derivatives()[index], F::zero_value());
        } else {
            assert_eq!(locator.values()[index], F::zero_value());
            assert_ne!(locator.derivatives()[index], F::zero_value());
        }
    }
}

#[test]
fn matches_the_product_definition() {
    for log_size in 0..=6 {
        let plan = TransformPlan::<Gf16>::new(1 << log_size).unwrap();
        let size = plan.size();
        // Prefix erasures, suffix erasures, strided, all-known.
        for erased_count in 0..=size {
            let known: Vec<bool> = (0..size).map(|index| index >= erased_count).collect();
            check_pattern(&plan, &known);
            let known: Vec<bool> = (0..size).map(|index| index < size - erased_count).collect();
            check_pattern(&plan, &known);
        }
        let known: Vec<bool> = (0..size).map(|index| index % 3 != 0).collect();
        check_pattern(&plan, &known);
    }
}

#[test]
fn matches_the_product_definition_over_gf8_and_custom_bases() {
    let plan = TransformPlan::<Gf8>::new(8).unwrap();
    let known: Vec<bool> = (0..8).map(|index| index % 2 == 0).collect();
    check_pattern(&plan, &known);

    // A reversed bit basis: point order changes, the identity does not.
    let mut basis = plan.basis().to_vec();
    basis.reverse();
    let reversed = TransformPlan::<Gf8>::with_basis(8, &basis).unwrap();
    check_pattern(&reversed, &known);

    // A non-bit basis over Gf16.
    let basis = [
        gf65536::GfElem(0x1234),
        gf65536::GfElem(0x0108),
        gf65536::GfElem(0xabcd),
    ];
    let plan = TransformPlan::<Gf16>::with_basis(8, &basis).unwrap();
    let known: Vec<bool> = (0..8).map(|index| index != 2 && index != 5).collect();
    check_pattern(&plan, &known);
}

#[test]
fn shift_invariance() {
    // The locator only sees differences, so the points of a coset give the
    // same products as the subspace it was shifted from.
    let plan = TransformPlan::<Gf16>::new(8).unwrap();
    let shift = gf65536::GfElem(0x9e3f);
    let known: Vec<bool> = (0..8).map(|index| index % 4 != 1).collect();
    let direct = ErasureLocator::new(&plan, &known).unwrap();
    let coset: Vec<Gf16> = (0..8)
        .map(|index| plan.point_element(index).add(shift))
        .collect();
    for point in 0..8 {
        let product = (0..8)
            .filter(|&erased| !known[erased] && erased != point)
            .fold(gf65536::GfElem(1), |product, erased| {
                product.mul(coset[point].add(coset[erased]))
            });
        if known[point] {
            assert_eq!(direct.values()[point], product);
        } else {
            assert_eq!(direct.derivatives()[point], product);
        }
    }
}

#[test]
fn recompute_reuses_scratch() {
    let plan = TransformPlan::<Gf16>::new(16).unwrap();
    let tables = LogExpTables::<Gf16>::build();
    let mut locator = ErasureLocator::<Gf16>::for_domain(16);
    let mut scratch = LocatorScratch::for_domain(16);
    for erased_count in 1..16 {
        let known: Vec<bool> = (0..16).map(|index| index >= erased_count).collect();
        locator.recompute(&plan, &tables, &known, &mut scratch).unwrap();
        let fresh = ErasureLocator::new(&plan, &known).unwrap();
        assert_eq!(locator.values(), fresh.values());
        assert_eq!(locator.derivatives(), fresh.derivatives());
    }
}

#[test]
fn rejects_a_mismatched_pattern() {
    let plan = TransformPlan::<Gf16>::new(8).unwrap();
    let error = ErasureLocator::new(&plan, &[true; 7]).unwrap_err();
    assert_eq!(
        error,
        TransformLengthError {
            expected: 8,
            got: 7
        }
    );
}

#[test]
fn systematic_cache_returns_the_same_locator() {
    let plan = TransformPlan::<Gf16>::new(16).unwrap();
    let mut cache = SystematicLocators::<Gf16>::new();
    let first = cache.get(&plan, 5).unwrap();
    let second = cache.get(&plan, 5).unwrap();
    assert!(Arc::ptr_eq(&first, &second));

    let known: Vec<bool> = (0..16).map(|index| index >= 5).collect();
    let expected = ErasureLocator::new(&plan, &known).unwrap();
    assert_eq!(first.values(), expected.values());
    assert_eq!(first.derivatives(), expected.derivatives());

    // A different basis over the same size is a different entry.
    let mut basis = plan.basis().to_vec();
    basis.reverse();
    let reversed = TransformPlan::<Gf16>::with_basis(16, &basis).unwrap();
    let other = cache.get(&reversed, 5).unwrap();
    assert!(!Arc::ptr_eq(&first, &other));
    assert_ne!(first.derivatives(), other.derivatives());

    assert_eq!(
        cache.get(&plan, 17).unwrap_err(),
        TransformLengthError {
            expected: 16,
            got: 17
        }
    );
}

#[test]
fn systematic_cache_evicts_in_insertion_order() {
    let plan = TransformPlan::<Gf16>::new(64).unwrap();
    let mut cache = SystematicLocators::<Gf16>::new();
    let first = cache.get(&plan, 1).unwrap();
    for systematic in 2..=SYSTEMATIC_LOCATOR_CAPACITY {
        cache.get(&plan, systematic).unwrap();
    }
    assert_eq!(cache.len(), SYSTEMATIC_LOCATOR_CAPACITY);
    cache.get(&plan, SYSTEMATIC_LOCATOR_CAPACITY + 1).unwrap();
    assert_eq!(cache.len(), SYSTEMATIC_LOCATOR_CAPACITY);
    // The oldest entry was dropped, so it is rebuilt as a fresh Arc.
    assert!(!Arc::ptr_eq(&first, &cache.get(&plan, 1).unwrap()));
}

#[test]
fn walsh_hadamard_is_its_own_inverse_up_to_length() {
    let modulus = 65_535u32;
    let mut values: Vec<u32> = (0..16).map(|index| index * 4_097 % modulus).collect();
    let original = values.clone();
    walsh_hadamard(&mut values, modulus);
    walsh_hadamard(&mut values, modulus);
    let inverse_size = mod_pow(modulus / 2 + 1, 4, modulus);
    for (value, expected) in values.iter().zip(original.iter()) {
        assert_eq!(mul_mod(*value, inverse_size, modulus), *expected);
    }
}

/// Evaluations of the polynomial with these coefficients, over the whole domain.
fn forward(coefficients: Vec<Gf16>) -> Vec<Gf16> {
    let plan = butterfly_fft::TransformPlan::<fgf::Gf16>::new(coefficients.len()).unwrap();
    let mut values: Vec<_> = coefficients
        .iter()
        .map(|value| fgf::field::gf16::Elem::from_raw(value.0))
        .collect();
    plan.forward(&mut values).unwrap();
    values
        .iter()
        .map(|value| gf65536::GfElem(value.to_raw()))
        .collect()
}

#[test]
fn generator_rows_reproduce_the_systematic_encoding() {
    for (log_size, systematic) in [(3usize, 5usize), (4, 9), (5, 20), (6, 33)] {
        let size = 1usize << log_size;
        let plan = TransformPlan::<Gf16>::new(size).unwrap();
        let tables = LogExpTables::<Gf16>::build();
        let mut locators = SystematicLocators::<Gf16>::new();
        let locator = locators.get(&plan, systematic).unwrap();

        let mut evaluations = vec![gf65536::GfElem(0); size];
        for (index, slot) in evaluations[..systematic].iter_mut().enumerate() {
            let seed = u16::try_from(index).expect("small index");
            *slot = gf65536::GfElem(seed.wrapping_mul(7_919).wrapping_add(3));
        }
        let evaluations = forward(evaluations);
        let data = evaluations[..systematic].to_vec();

        let mut row = vec![gf65536::GfElem(0); systematic];
        for (point, &expected) in evaluations.iter().enumerate().skip(systematic) {
            generator_row(&plan, &tables, &locator, point, &mut row);
            let combined = row
                .iter()
                .zip(data.iter())
                .fold(gf65536::GfElem(0), |accumulator, (&coefficient, &value)| {
                    accumulator.add(coefficient.mul(value))
                });
            assert_eq!(combined, expected, "point {point} of {size}");
        }
    }
}

#[test]
fn generator_rows_work_over_gf8() {
    let plan = TransformPlan::<Gf8>::new(8).unwrap();
    let tables = LogExpTables::<Gf8>::build();
    let mut locators = SystematicLocators::<Gf8>::new();
    let locator = locators.get(&plan, 5).unwrap();
    let mut row = vec![gf256::GfElem(0); 5];
    for point in 5..8 {
        generator_row(&plan, &tables, &locator, point, &mut row);
        assert!(row.iter().all(|coefficient| *coefficient != gf256::GfElem(0)));
    }
}


fn check_tables<F: Field + PartialEq + Debug>(bits: u32) {
    let tables = LogExpTables::<F>::build();
    assert_eq!(tables.order(), (1u32 << bits) - 1);
    assert_eq!(tables.exp(0), F::one_value());
    for exponent in 0..tables.order() {
        let value = tables.exp(exponent);
        assert_ne!(value, F::zero_value());
        assert_eq!(tables.log(value), exponent);
    }
    // Logarithms are additive: log(ab) = log a + log b mod the group order.
    let order = tables.order();
    for a in 1..order.min(97) {
        for b in 1..order.min(53) {
            let product = tables.exp(a).mul_value(tables.exp(b));
            assert_eq!(tables.log(product), (a + b) % order);
        }
    }
}

#[test]
fn tables_invert_each_other() {
    check_tables::<Gf8>(8);
    check_tables::<Gf16>(16);
}

#[test]
fn zero_logarithm_is_the_neutral_exponent() {
    let tables = LogExpTables::<Gf16>::build();
    assert_eq!(tables.log(gf65536::GfElem(0)), 0);
    assert_eq!(
        tables.exp(tables.log(gf65536::GfElem(0))),
        gf65536::GfElem(1)
    );
}

#[test]
fn mod_pow_matches_repeated_multiplication() {
    let modulus = 65_535;
    for exponent in 0..17 {
        let mut expected = 1u64;
        for _ in 0..exponent {
            expected = expected * 32_768 % u64::from(modulus);
        }
        assert_eq!(
            u64::from(mod_pow(32_768, exponent, modulus)),
            expected,
            "exponent {exponent}"
        );
    }
    // 2^(BITS-1) inverts two modulo 2^BITS - 1.
    assert_eq!(u64::from(mod_pow(32_768, 1, modulus)) * 2 % 65_535, 1);
    assert_eq!(u64::from(mod_pow(128, 1, 255)) * 2 % 255, 1);
}

#[test]
fn inverse_times_matrix_is_the_identity_across_reused_sizes() {
    let mut solver = TargetedInverse::<Gf16>::new(6);
    let mut state = 0x9e37_79b9u32;
    for size in 1..=6 {
        let mut matrix = vec![gf65536::GfElem(0); size * size];
        loop {
            for entry in &mut matrix {
                state = state.wrapping_mul(1_664_525).wrapping_add(1_013_904_223);
                *entry = gf65536::GfElem(u16::from_le_bytes(
                    state.to_le_bytes()[1..3].try_into().unwrap(),
                ));
            }
            let mut inverse = vec![gf65536::GfElem(0); size * size];
            if !solver.invert_into(&matrix, size, &mut inverse) {
                continue;
            }
            for row in 0..size {
                for column in 0..size {
                    let actual = (0..size).fold(gf65536::GfElem(0), |accumulator, index| {
                        accumulator
                            .add(matrix[row * size + index].mul(inverse[index * size + column]))
                    });
                    let expected = if row == column { gf65536::GfElem(1) } else { gf65536::GfElem(0) };
                    assert_eq!(actual, expected, "size {size} at ({row},{column})");
                }
            }
            break;
        }
    }
}

#[test]
fn singular_system_leaves_output_untouched() {
    let mut solver = TargetedInverse::<Gf16>::new(3);
    let matrix = [
        gf65536::GfElem(1),
        gf65536::GfElem(2),
        gf65536::GfElem(3),
        gf65536::GfElem(4),
        gf65536::GfElem(8),
        gf65536::GfElem(12),
        gf65536::GfElem(5),
        gf65536::GfElem(10),
        gf65536::GfElem(15),
    ];
    let mut inverse = vec![gf65536::GfElem(1); 9];
    assert!(!solver.invert_into(&matrix, 3, &mut inverse));
    assert_eq!(inverse, vec![gf65536::GfElem(1); 9]);
}

/// Evaluates coefficient rows over the whole domain, in place.
fn forward_rows(size: usize, width: usize, rows: &mut [u8], row_len: usize) {
    if width == 1 {
        let plan = butterfly_fft::TransformPlan::<fgf::Gf8B>::new(size).unwrap();
        plan.forward_bytes(rows, row_len).unwrap();
    } else {
        let plan = butterfly_fft::TransformPlan::<fgf::Gf16>::new(size).unwrap();
        plan.forward_bytes(rows, row_len).unwrap();
    }
}

/// A random-ish codeword: `size` evaluation rows of a novel-basis
/// polynomial with `active` nonzero coefficient rows.
fn codeword<F: Field>(plan: &TransformPlan<F>, row_len: usize, active: usize) -> Vec<u8> {
    let size = plan.size();
    let mut rows = vec![0u8; size * row_len];
    let mut state = 0x1234_5678_9abc_def0u64;
    for byte in &mut rows[..active * row_len] {
        state = state
            .wrapping_mul(6_364_136_223_846_793_005)
            .wrapping_add(1);
        *byte = state.to_le_bytes()[5];
    }
    forward_rows(size, F::element_width(), &mut rows, row_len);
    rows
}

fn check_recovery<F: Field>(log_size: usize, row_len: usize, erased: &[usize]) {
    let plan = TransformPlan::<F>::new(1 << log_size).unwrap();
    let size = plan.size();
    let active = size - erased.len();
    let original = codeword::<F>(&plan, row_len, active);

    let known: Vec<bool> = (0..size).map(|point| !erased.contains(&point)).collect();
    let tables = LogExpTables::<F>::build();
    let mut locator = ErasureLocator::<F>::for_domain(size);
    let mut locator_scratch = LocatorScratch::new();
    locator
        .recompute(&plan, &tables, &known, &mut locator_scratch)
        .unwrap();

    // Poison the erased rows: recovery must not read them.
    let mut received = original.clone();
    for &point in erased {
        received[point * row_len..(point + 1) * row_len].fill(0xA5);
    }

    let mut scratch = RecoveryScratch::new();
    let mut recovered = vec![0u8; erased.len() * row_len];
    recover_rows(
        &plan,
        &locator,
        &received,
        row_len,
        erased,
        &mut scratch,
        &mut recovered,
    )
    .unwrap();
    for (row, &point) in erased.iter().enumerate() {
        assert_eq!(
            &recovered[row * row_len..(row + 1) * row_len],
            &original[point * row_len..(point + 1) * row_len],
            "point {point} of {size}"
        );
    }
}

#[test]
fn recovers_erased_evaluations() {
    for log_size in 1..=6 {
        let size = 1usize << log_size;
        for erased_count in 1..=size / 2 {
            let prefix: Vec<usize> = (0..erased_count).collect();
            check_recovery::<Gf16>(log_size, 2, &prefix);
            let suffix: Vec<usize> = (size - erased_count..size).collect();
            check_recovery::<Gf16>(log_size, 6, &suffix);
            let strided: Vec<usize> = (0..erased_count)
                .map(|i| i * (size / erased_count))
                .collect();
            check_recovery::<Gf16>(log_size, 2, &strided);
        }
    }
}

#[test]
fn recovers_over_gf8_and_wide_rows() {
    check_recovery::<Gf8>(3, 1, &[0, 3]);
    check_recovery::<Gf8>(4, 5, &[1, 2, 7, 15]);
    check_recovery::<Gf16>(5, 64, &[4, 9, 30]);
}

#[test]
fn recovers_a_subset_of_the_erased_points() {
    // The locator erases four points; only two are requested.
    let plan = TransformPlan::<Gf16>::new(16).unwrap();
    let row_len = 4;
    let original = codeword::<Gf16>(&plan, row_len, 12);
    let erased = [1usize, 4, 9, 12];
    let known: Vec<bool> = (0..16).map(|point| !erased.contains(&point)).collect();
    let locator = ErasureLocator::new(&plan, &known).unwrap();
    let mut scratch = RecoveryScratch::new();
    let mut recovered = vec![0u8; 2 * row_len];
    recover_rows(
        &plan,
        &locator,
        &original,
        row_len,
        &[4, 12],
        &mut scratch,
        &mut recovered,
    )
    .unwrap();
    assert_eq!(&recovered[..row_len], &original[4 * row_len..5 * row_len]);
    assert_eq!(&recovered[row_len..], &original[12 * row_len..13 * row_len]);
}

#[test]
fn empty_request_is_a_no_op() {
    let plan = TransformPlan::<Gf16>::new(8).unwrap();
    let known = [true; 8];
    let locator = ErasureLocator::new(&plan, &known).unwrap();
    let mut scratch = RecoveryScratch::new();
    recover_rows(&plan, &locator, &[0u8; 16], 2, &[], &mut scratch, &mut []).unwrap();
}

#[test]
fn reports_length_mismatches() {
    let plan = TransformPlan::<Gf16>::new(8).unwrap();
    let known = [false, true, true, true, true, true, true, true];
    let locator = ErasureLocator::new(&plan, &known).unwrap();
    let mut scratch = RecoveryScratch::new();
    assert_eq!(
        recover_rows(
            &plan,
            &locator,
            &[0u8; 14],
            2,
            &[0],
            &mut scratch,
            &mut [0, 0]
        )
        .unwrap_err(),
        TransformLengthError {
            expected: 16,
            got: 14
        }
    );
    assert_eq!(
        recover_rows(
            &plan,
            &locator,
            &[0u8; 16],
            2,
            &[0],
            &mut scratch,
            &mut [0; 4]
        )
        .unwrap_err(),
        TransformLengthError {
            expected: 2,
            got: 4
        }
    );
    let wrong = ErasureLocator::<Gf16>::for_domain(4);
    assert_eq!(
        recover_rows(
            &plan,
            &wrong,
            &[0u8; 16],
            2,
            &[0],
            &mut scratch,
            &mut [0, 0]
        )
        .unwrap_err(),
        TransformLengthError {
            expected: 8,
            got: 4
        }
    );
}

#[test]
fn locator_derivatives_are_invertible_at_erased_points() {
    // Guards the totality of the Forney division directly.
    let plan = TransformPlan::<Gf8>::new(8).unwrap();
    for pattern in 0u32..256 {
        let known: Vec<bool> = (0..8).map(|index| pattern & (1 << index) != 0).collect();
        let locator = ErasureLocator::new(&plan, &known).unwrap();
        for (index, &is_known) in known.iter().enumerate() {
            if !is_known {
                let derivative = locator.derivatives()[index];
                assert_ne!(derivative, gf256::GfElem(0));
                assert_eq!(
                    derivative.mul(derivative.inv()),
                    gf256::GfElem(1)
                );
            }
        }
    }
}
