use srs::cauchy::CauchyView;
use srs::cauchy_inverse::{cauchy_inverse_closed_form, invert_square};
use srs::coding_matrix::CodingMatrix;
use srs::decoder::cauchy_inverse::rational_lagrange_coefficients;
use srs::gf256::GfElem;
use srs::good_cauchy::GoodCauchyView;

/// The inverse read off the residue formula, one entry at a time.
fn unfactored_inverse(row_vars: &[GfElem], col_vars: &[GfElem]) -> Vec<GfElem> {
    let n = row_vars.len();
    let mut inverse = vec![GfElem(0); n * n];
    for (c, &col) in col_vars.iter().enumerate() {
        for (r, &row) in row_vars.iter().enumerate() {
            let mut numerator = GfElem(1);
            for &other in row_vars {
                numerator = numerator.mul(other.add(col));
            }
            for &other in col_vars {
                numerator = numerator.mul(row.add(other));
            }
            let mut denominator = row.add(col);
            for (i, &other) in row_vars.iter().enumerate() {
                if i != r {
                    denominator = denominator.mul(row.add(other));
                }
            }
            for (i, &other) in col_vars.iter().enumerate() {
                if i != c {
                    denominator = denominator.mul(col.add(other));
                }
            }
            inverse[c * n + r] = numerator.div(denominator);
        }
    }
    inverse
}

#[test]
fn cauchy_inverse_closed_form_inverse_matches_reference() {
    let row_vars = [GfElem(4), GfElem(5), GfElem(6)];
    let col_vars = [GfElem(0), GfElem(2), GfElem(3)];
    let n = row_vars.len();
    let mut matrix = vec![GfElem(0); n * n];
    for (r, &rv) in row_vars.iter().enumerate() {
        for (c, &cv) in col_vars.iter().enumerate() {
            matrix[r * n + c] = rv.add(cv).inv();
        }
    }

    let closed = cauchy_inverse_closed_form(&row_vars, &col_vars);
    let reference = invert_square(&matrix, n).unwrap();
    assert_eq!(closed, reference);

    // Verify closed * matrix = identity.
    for r in 0..n {
        for c in 0..n {
            let mut acc = GfElem(0);
            for p in 0..n {
                acc = acc.add(closed[r * n + p].mul(matrix[p * n + c]));
            }
            assert_eq!(acc, if r == c { GfElem(1) } else { GfElem(0) });
        }
    }
}


fn k_subsets(n: usize, k: usize) -> Vec<Vec<usize>> {
    let mut result = Vec::new();
    let mut state: Vec<_> = (0..k).collect();
    loop {
        result.push(state.clone());
        let Some(i) = (0..k).rev().find(|&i| state[i] < n - k + i) else {
            return result;
        };
        state[i] += 1;
        for j in i + 1..k {
            state[j] = state[j - 1] + 1;
        }
    }
}

fn assert_factorized_coefficients<C: CodingMatrix>() {
    let (k, m) = (4, 3);
    let matrix = C::new(k, m).unwrap();
    for subset in k_subsets(k + m, k) {
        let missing: Vec<_> = (0..k).filter(|i| !subset.contains(i)).collect();
        let present: Vec<_> = (0..k).filter(|i| subset.contains(i)).collect();
        let repairs: Vec<_> = subset.iter().filter_map(|&i| i.checked_sub(k)).collect();
        let row_vars: Vec<_> = repairs.iter().map(|&i| matrix.y_var(i)).collect();
        let col_vars: Vec<_> = missing.iter().map(|&i| matrix.x_var(i)).collect();
        let present_vars: Vec<_> = present.iter().map(|&i| matrix.x_var(i)).collect();

        let factored = rational_lagrange_coefficients(&row_vars, &col_vars, &present_vars);
        let oracle = unfactored_inverse(&row_vars, &col_vars);
        assert_eq!(factored.inverse, oracle, "subset={subset:?}");

        for (present_pos, &data_idx) in present.iter().enumerate() {
            for missing_pos in 0..missing.len() {
                let expected = repairs.iter().enumerate().fold(
                    GfElem(0),
                    |acc, (repair_pos, &repair)| {
                        acc.add(
                            oracle[missing_pos * repairs.len() + repair_pos]
                                .mul(matrix.get(data_idx, repair)),
                        )
                    },
                );
                assert_eq!(
                    factored.present[present_pos * missing.len() + missing_pos],
                    expected,
                    "subset={subset:?}, present={data_idx}, missing_pos={missing_pos}"
                );
            }
        }
    }
}

fn barycentric_factors(row_vars: &[GfElem], col_vars: &[GfElem]) -> (Vec<GfElem>, Vec<GfElem>) {
    let row_factors = row_vars
        .iter()
        .enumerate()
        .map(|(i, &row)| {
            let cross = col_vars
                .iter()
                .fold(GfElem(1), |acc, &col| acc.mul(row.add(col)));
            let within = row_vars
                .iter()
                .enumerate()
                .filter(|&(other, _)| other != i)
                .fold(GfElem(1), |acc, (_, &value)| acc.mul(row.add(value)));
            cross.div(within)
        })
        .collect();
    let col_factors = col_vars
        .iter()
        .enumerate()
        .map(|(j, &col)| {
            let cross = row_vars
                .iter()
                .fold(GfElem(1), |acc, &row| acc.mul(col.add(row)));
            let within = col_vars
                .iter()
                .enumerate()
                .filter(|&(other, _)| other != j)
                .fold(GfElem(1), |acc, (_, &value)| acc.mul(col.add(value)));
            cross.div(within)
        })
        .collect();
    (row_factors, col_factors)
}

fn add_barycentric_pair(
    row_vars: &mut Vec<GfElem>,
    col_vars: &mut Vec<GfElem>,
    row_factors: &mut Vec<GfElem>,
    col_factors: &mut Vec<GfElem>,
    new_row: GfElem,
    new_col: GfElem,
) {
    for (factor, &row) in row_factors.iter_mut().zip(row_vars.iter()) {
        *factor = factor.mul(row.add(new_col)).div(row.add(new_row));
    }
    for (factor, &col) in col_factors.iter_mut().zip(col_vars.iter()) {
        *factor = factor.mul(col.add(new_row)).div(col.add(new_col));
    }

    let new_row_factor = new_row
        .add(new_col)
        .mul(
            col_vars
                .iter()
                .fold(GfElem(1), |acc, &col| acc.mul(new_row.add(col))),
        )
        .div(
            row_vars
                .iter()
                .fold(GfElem(1), |acc, &row| acc.mul(new_row.add(row))),
        );
    let new_col_factor = new_col
        .add(new_row)
        .mul(
            row_vars
                .iter()
                .fold(GfElem(1), |acc, &row| acc.mul(new_col.add(row))),
        )
        .div(
            col_vars
                .iter()
                .fold(GfElem(1), |acc, &col| acc.mul(new_col.add(col))),
        );

    row_vars.push(new_row);
    col_vars.push(new_col);
    row_factors.push(new_row_factor);
    col_factors.push(new_col_factor);
}

fn assert_incremental_barycentric_updates<C: CodingMatrix>() {
    let matrix = C::new(8, 6).unwrap();
    let mut rows = vec![matrix.y_var(0)];
    let mut cols = vec![matrix.x_var(0)];
    let (mut row_factors, mut col_factors) = barycentric_factors(&rows, &cols);

    for i in 1..6 {
        add_barycentric_pair(
            &mut rows,
            &mut cols,
            &mut row_factors,
            &mut col_factors,
            matrix.y_var(i),
            matrix.x_var(i),
        );
        let expected = barycentric_factors(&rows, &cols);
        assert_eq!(row_factors, expected.0, "row factors after pair {i}");
        assert_eq!(col_factors, expected.1, "column factors after pair {i}");
    }
}

#[test]
fn incremental_barycentric_pair_updates_match_one_shot_factors() {
    assert_incremental_barycentric_updates::<CauchyView>();
    assert_incremental_barycentric_updates::<GoodCauchyView>();
}

#[test]
fn factorized_coefficients_match_oracle_for_all_small_subsets() {
    assert_factorized_coefficients::<CauchyView>();
    assert_factorized_coefficients::<GoodCauchyView>();
}
