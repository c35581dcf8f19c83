use srs::gf256::GfElem;
use srs::good_cauchy::GoodCauchyView;
use srs::matrices::{axpy_row, det, rref, MatrixView, MatrixViewMut};

#[test]
fn det_identity_is_one() {
    let buf: Vec<GfElem> = (0..3)
        .flat_map(|r| (0..3).map(move |c| GfElem(if r == c { 1 } else { 0 })))
        .collect();
    let v = MatrixView::new(&buf, 3, 3).unwrap();
    assert_eq!(det(v), GfElem(1));
}

#[test]
fn det_singular_is_zero() {
    // Two identical rows => linearly dependent => singular.
    let buf: Vec<GfElem> = vec![
        GfElem(0x01),
        GfElem(0x02),
        GfElem(0x03),
        GfElem(0x01),
        GfElem(0x02),
        GfElem(0x03),
        GfElem(0x07),
        GfElem(0x05),
        GfElem(0x01),
    ];
    let v = MatrixView::new(&buf, 3, 3).unwrap();
    assert_eq!(det(v), GfElem(0));
}

#[test]
fn det_diagonal_is_product() {
    let diag = [GfElem(0x05), GfElem(0x27), GfElem(0xF3)];
    let mut buf = vec![GfElem(0); 9];
    for i in 0..3 {
        buf[i * 3 + i] = diag[i];
    }
    let v = MatrixView::new(&buf, 3, 3).unwrap();
    let expected = diag[0].mul(diag[1]).mul(diag[2]);
    assert_eq!(det(v), expected);
}

// ---- eliminate_col + rref ----

#[test]
fn eliminate_col_zeros_other_rows() {
    // 3x3 matrix; pivot is row 1, col 1, already normalized to 1.
    //   [5 0 7]      [5 0 7]
    //   [3 1 2]  ->  [0 1 0]  (row 0 gets 5*0=0? no: row0[col1]=0, skip)
    //   [9 4 6]      [0 0 ?]  (row 2: subtract 4 * row1)
    // Actually row 0 has 0 in col 1, so it's untouched.
    let mut buf: Vec<GfElem> = vec![
        GfElem(0x05),
        GfElem(0x00),
        GfElem(0x07),
        GfElem(0x03),
        GfElem(0x01),
        GfElem(0x02),
        GfElem(0x09),
        GfElem(0x04),
        GfElem(0x06),
    ];
    let mut v = MatrixViewMut::new(&mut buf, 3, 3).unwrap();
    v.eliminate_col(1, 1);
    // Row 0: col 1 is 0, unchanged.
    assert_eq!(v.row(0), &[GfElem(0x05), GfElem(0x00), GfElem(0x07)]);
    // Row 1: pivot, unchanged.
    assert_eq!(v.row(1), &[GfElem(0x03), GfElem(0x01), GfElem(0x02)]);
    // Row 2: entry in col 1 was 4, eliminated to 0. Other cols updated.
    assert_eq!(v.get(2, 1), GfElem(0));
    // row2 = row2 - 4 * row1 = [9,4,6] + 4*[3,1,2] (GF add = XOR)
    //   = [9^4*3, 0, 6^4*2]
    //   4*3 = 0x0C (mul), 9^0x0C = 0x09^0x0C = 0x05
    //   4*2 = 0x08, 6^0x08 = 0x06^0x08 = 0x0E
    assert_eq!(v.row(2), &[GfElem(0x05), GfElem(0x00), GfElem(0x0E)]);
}

#[test]
fn rref_identity_is_identity() {
    let mut buf: Vec<GfElem> = (0..3)
        .flat_map(|r| (0..3).map(move |c| GfElem(if r == c { 1 } else { 0 })))
        .collect();
    let mut v = MatrixViewMut::new(&mut buf, 3, 3).unwrap();
    let rank = rref(&mut v);
    assert_eq!(rank, 3);
    for r in 0..3 {
        for c in 0..3 {
            assert_eq!(v.get(r, c), GfElem(if r == c { 1 } else { 0 }));
        }
    }
}

#[test]
fn rref_rank_deficient() {
    // Two identical rows -> rank 2.
    let mut buf: Vec<GfElem> = vec![
        GfElem(0x01),
        GfElem(0x02),
        GfElem(0x03),
        GfElem(0x01),
        GfElem(0x02),
        GfElem(0x03),
        GfElem(0x07),
        GfElem(0x05),
        GfElem(0x01),
    ];
    let mut v = MatrixViewMut::new(&mut buf, 3, 3).unwrap();
    let rank = rref(&mut v);
    assert_eq!(rank, 2);
}

#[test]
fn rref_solves_system() {
    // Solve M * x = b where M is 3x3 and b is the 4th column.
    // After RREF on [M | b], the last column holds x.
    // M = [[2, 3, 1], [1, 1, 1], [1, 2, 3]], b = [4, 3, 5]
    let mut buf: Vec<GfElem> = vec![
        GfElem(0x02),
        GfElem(0x03),
        GfElem(0x01),
        GfElem(0x04),
        GfElem(0x01),
        GfElem(0x01),
        GfElem(0x01),
        GfElem(0x03),
        GfElem(0x01),
        GfElem(0x02),
        GfElem(0x03),
        GfElem(0x05),
    ];
    let mut v = MatrixViewMut::new(&mut buf, 3, 4).unwrap();
    let rank = rref(&mut v);
    assert_eq!(rank, 3);
    // The left 3x3 is now identity; the 4th column is the solution.
    // Verify by substituting back: M_orig * x = b.
    let x = [v.get(0, 3), v.get(1, 3), v.get(2, 3)];
    let m_orig: [[GfElem; 3]; 3] = [
        [GfElem(0x02), GfElem(0x03), GfElem(0x01)],
        [GfElem(0x01), GfElem(0x01), GfElem(0x01)],
        [GfElem(0x01), GfElem(0x02), GfElem(0x03)],
    ];
    let b = [GfElem(0x04), GfElem(0x03), GfElem(0x05)];
    for r in 0..3 {
        let mut acc = GfElem(0);
        for c in 0..3 {
            acc = acc.add(m_orig[r][c].mul(x[c]));
        }
        assert_eq!(acc, b[r], "row {} mismatch", r);
    }
}

#[test]
fn view_dimensions() {
    let v = GoodCauchyView::new(4, 3).unwrap();
    assert_eq!(v.k(), 4);
    assert_eq!(v.m(), 3);
}

#[test]
fn view_rejects_oversized() {
    // The multiplicative group has 255 elements.
    assert!(GoodCauchyView::new(200, 100).is_none());
    assert!(GoodCauchyView::new(0, 5).is_none());
    assert!(GoodCauchyView::new(5, 0).is_none());
}

#[test]
fn coeff_nonzero() {
    let v = GoodCauchyView::new(5, 4).unwrap();
    for i in 0..5 {
        for j in 0..4 {
            let c = v.get(i, j);
            assert_ne!(c, GfElem(0), "zero coeff at ({},{})", i, j);
        }
    }
}

#[test]
fn row_iterator_matches_get() {
    let v = GoodCauchyView::new(4, 6).unwrap();
    for i in 0..4 {
        let row: Vec<GfElem> = v.row(i);
        for (j, c) in row.iter().enumerate() {
            assert_eq!(*c, v.get(i, j));
        }
    }
}

#[test]
fn coefficient_matrix_matches_get() {
    let v = GoodCauchyView::new(16, 8).unwrap();
    let matrix = v.coefficient_matrix();
    for i in 0..16 {
        for j in 0..8 {
            assert_eq!(matrix[i * 8 + j], v.get(i, j));
        }
    }
}

#[test]
fn incremental_update_matches_batch() {
    let k = 4;
    let m = 3;
    let symbol_len = 8;
    let view = GoodCauchyView::new(k, m).unwrap();

    let data: Vec<u8> = (0..k * symbol_len).map(|i| i as u8).collect();

    // Batch repair computation (reference).
    let mut batch_repairs: Vec<Vec<u8>> = vec![vec![0u8; symbol_len]; m];
    for j in 0..m {
        for i in 0..k {
            let coeff = view.get(i, j);
            let data_slice = &data[i * symbol_len..(i + 1) * symbol_len];
            for (out, &b) in batch_repairs[j].iter_mut().zip(data_slice.iter()) {
                *out ^= GfElem(b).mul(coeff).0;
            }
        }
    }

    // Incremental repair computation.
    let mut inc_repairs: Vec<Vec<u8>> = vec![vec![0u8; symbol_len]; m];
    for i in 0..k {
        let data_slice = &data[i * symbol_len..(i + 1) * symbol_len];
        view.add_data_symbol(i, data_slice, &mut inc_repairs);
    }

    assert_eq!(batch_repairs, inc_repairs);
}

fn sample(rows: usize, cols: usize) -> Vec<GfElem> {
    (0..rows * cols).map(|i| GfElem((i * 37 + 5) as u8)).collect()
}

#[test]
fn written_cells_are_read_back() {
    let mut buf = sample(3, 4);
    let mut view = MatrixViewMut::new(&mut buf, 3, 4).unwrap();
    for r in 0..3 {
        for c in 0..4 {
            let value = GfElem((r * 7 + c * 3) as u8);
            view.set(r, c, value);
            assert_eq!(view.get(r, c), value);
        }
    }
    assert!(MatrixViewMut::new(&mut buf, 3, 5).is_none());
    assert!(MatrixView::new(&buf, 0, 12).is_none());
}

#[test]
fn scaling_by_zero_and_one() {
    let before = sample(3, 4);
    let mut buf = before.clone();
    MatrixViewMut::new(&mut buf, 3, 4)
        .unwrap()
        .scale_row(1, GfElem(1));
    assert_eq!(buf, before);
    MatrixViewMut::new(&mut buf, 3, 4)
        .unwrap()
        .scale_row(1, GfElem(0));
    assert_eq!(buf[..4], before[..4]);
    assert_eq!(buf[4..8], [GfElem(0); 4]);
    assert_eq!(buf[8..], before[8..]);
}

#[test]
fn swapped_rows_swap_back() {
    let before = sample(3, 4);
    let mut buf = before.clone();
    let mut view = MatrixViewMut::new(&mut buf, 3, 4).unwrap();
    view.swap_rows(0, 2);
    assert_eq!(view.row(0), &before[8..]);
    assert_eq!(view.row(2), &before[..4]);
    view.swap_rows(2, 0);
    assert_eq!(view.as_view().row(1), &before[4..8]);
    assert_eq!(buf, before);
}

#[test]
fn axpy_adds_a_multiple() {
    let src = sample(1, 8);
    let start: Vec<GfElem> = sample(1, 8).into_iter().rev().collect();
    for s in [0u8, 1, 2, 0x53, 0xff] {
        let mut dst = start.clone();
        axpy_row(&mut dst, GfElem(s), &src);
        for i in 0..8 {
            assert_eq!(dst[i], start[i].add(GfElem(s).mul(src[i])));
        }
        if s == 0 {
            assert_eq!(dst, start);
        }
        if s == 1 {
            assert_eq!(dst[3], GfElem(start[3].0 ^ src[3].0));
        }
    }
}

#[test]
fn views_split_by_rows() {
    let buf = sample(4, 2);
    let view = MatrixView::new(&buf, 4, 2).unwrap();
    let (top, bottom) = view.split_rows(1).unwrap();
    assert_eq!((top.rows(), top.cols()), (1, 2));
    assert_eq!(bottom.rows(), 3);
    assert_eq!(bottom.get(0, 1), view.get(1, 1));
    assert!(view.split_rows(5).is_none());
}

#[test]
fn cauchy_submatrices_are_regular() {
    let view = GoodCauchyView::new(4, 4).unwrap();
    let matrix = view.to_vec();
    let whole = MatrixView::new(&matrix, 4, 4).unwrap();
    assert_ne!(det(whole), GfElem(0));
    for size in 1..4 {
        let corner: Vec<GfElem> = (0..size)
            .flat_map(|r| (0..size).map(move |c| (r, c)))
            .map(|(r, c)| view.get(r, c))
            .collect();
        assert_ne!(det(MatrixView::new(&corner, size, size).unwrap()), GfElem(0));
    }
}
