//! Inversion of the reduced system for targeted recovery.

use vstd::prelude::*;

use crate::afft::field::Field;
use crate::afft::transform::{
    entry, in_kernel, table_inverts, table_is_singular, table_product, table_row_times,
};
use crate::algebra::field::{left_identities, times_zero, FieldElement};
use crate::algebra::interpolation::distinct;
use crate::algebra::linear_code::{codeword, folded, inverts, sum_over_list, unfolded, unit};
use crate::algebra::sums::{sum, sum_congruent, sum_of_zeros, sum_single, sum_split};
use crate::decoder::reduced::valid_split;
use crate::symbols::{lanes_determined, row_bounds, rows_apart, same_codeword_at};

verus! {

/// Fixed-capacity square inversion workspace.
///
/// Smaller systems are embedded as the leading block of a larger one that is
/// the identity elsewhere, so that one workspace serves every order up to
/// `order`.
#[derive(Clone, Debug)]
pub struct TargetedInverse<F: Field> {
    order: usize,
    embedded: Vec<F>,
}

/// Entry of the embedded system.
pub open spec fn embedded_entry<F: FieldElement>(
    system: Seq<F>,
    size: int,
    row: int,
    col: int,
) -> F {
    if row < size && col < size {
        system[row * size + col]
    } else {
        unit::<F>(row, col)
    }
}

/// `table` is the embedded system.
pub open spec fn embeds<F: FieldElement>(
    table: Seq<F>,
    order: int,
    system: Seq<F>,
    size: int,
) -> bool {
    &&& table.len() == order * order
    &&& forall|row: int, col: int|
        0 <= row < order && 0 <= col < order ==> #[trigger] entry(table, order, row, col)
            == embedded_entry(system, size, row, col)
}

/// The leading block of a table.
pub open spec fn leading<F: FieldElement>(table: Seq<F>, order: int, size: int) -> Seq<F> {
    Seq::new((size * size) as nat, |t: int| entry(table, order, t / size, t % size))
}

/// A position in a square table.
pub proof fn table_position(row: int, col: int, size: int)
    requires
        0 <= row < size,
        0 <= col < size,
    ensures
        0 <= row * size + col < size * size,
        (row * size + col) / size == row,
        (row * size + col) % size == col,
{
    assert(0 <= row * size + col < size * size && (row * size + col) / size == row && (row * size
        + col) % size == col) by (nonlinear_arith)
        requires
            0 <= row < size,
            0 <= col < size,
    ;
}

/// A sum whose terms vanish from `size` on.
proof fn leading_sum<F: FieldElement>(f: spec_fn(int) -> F, size: int, order: int)
    requires
        0 <= size <= order,
        forall|i: int| size <= i < order ==> #[trigger] f(i) == F::zero_elem(),
    ensures
        sum(f, order) == sum(f, size),
{
    let rest = order - size;
    sum_split(f, size, rest);
    let tail = |i: int| f(size + i);
    assert forall|i: int| 0 <= i < rest implies #[trigger] tail(i) == F::zero_elem() by {
        assert(f(size + i) == F::zero_elem());
    }
    sum_of_zeros(tail, rest);
    F::plus_identity(sum(f, size));
}

/// The leading block of the inverse inverts the embedded system.
proof fn leading_block_inverts<F: FieldElement>(
    table: Seq<F>,
    inverse: Seq<F>,
    order: int,
    system: Seq<F>,
    size: int,
)
    requires
        0 < size <= order,
        system.len() == size * size,
        embeds(table, order, system, size),
        table_inverts(table, inverse, order),
    ensures
        table_inverts(system, leading(inverse, order, size), size),
{
    let block = leading(inverse, order, size);
    assert forall|a: int, c: int| 0 <= a < size && 0 <= c < size implies #[trigger] table_product(
        block,
        system,
        size,
        a,
        c,
    ) == unit::<F>(a, c) by {
        let whole = |b: int| entry(inverse, order, a, b).times(entry(table, order, b, c));
        let part = |b: int| entry(block, size, a, b).times(entry(system, size, b, c));
        assert forall|b: int| size <= b < order implies #[trigger] whole(b) == F::zero_elem() by {
            assert(entry(table, order, b, c) == embedded_entry(system, size, b, c));
            times_zero(entry(inverse, order, a, b));
        }
        leading_sum(whole, size, order);
        assert forall|b: int| 0 <= b < size implies #[trigger] whole(b) == part(b) by {
            assert(entry(table, order, b, c) == embedded_entry(system, size, b, c));
            table_position(a, b, size);
        }
        sum_congruent(whole, part, size);
        assert(table_product(inverse, table, order, a, c) == unit::<F>(a, c));
    }
    assert forall|a: int, c: int| 0 <= a < size && 0 <= c < size implies #[trigger] table_product(
        system,
        block,
        size,
        a,
        c,
    ) == unit::<F>(a, c) by {
        let whole = |b: int| entry(table, order, a, b).times(entry(inverse, order, b, c));
        let part = |b: int| entry(system, size, a, b).times(entry(block, size, b, c));
        assert forall|b: int| size <= b < order implies #[trigger] whole(b) == F::zero_elem() by {
            assert(entry(table, order, a, b) == embedded_entry(system, size, a, b));
            left_identities(entry(inverse, order, b, c));
        }
        leading_sum(whole, size, order);
        assert forall|b: int| 0 <= b < size implies #[trigger] whole(b) == part(b) by {
            assert(entry(table, order, a, b) == embedded_entry(system, size, a, b));
            table_position(b, c, size);
        }
        sum_congruent(whole, part, size);
        assert(table_product(table, inverse, order, a, c) == unit::<F>(a, c));
    }
}

/// An embedded system is singular only if the system is.
proof fn leading_block_singular<F: FieldElement>(
    table: Seq<F>,
    order: int,
    system: Seq<F>,
    size: int,
)
    requires
        0 < size <= order,
        system.len() == size * size,
        embeds(table, order, system, size),
        table_is_singular(table, order),
    ensures
        table_is_singular(system, size),
{
    let v = choose|v: Seq<F>| #[trigger] in_kernel(table, order, v);
    let w = v.subrange(0, size);
    assert forall|a: int| size <= a < order implies #[trigger] v[a] == F::zero_elem() by {
        let term = |c: int| entry(table, order, a, c).times(v[c]);
        assert forall|c: int| 0 <= c < order && c != a implies #[trigger] term(c)
            == F::zero_elem() by {
            assert(entry(table, order, a, c) == embedded_entry(system, size, a, c));
            left_identities(v[c]);
        }
        sum_single(term, order, a);
        assert(entry(table, order, a, a) == embedded_entry(system, size, a, a));
        left_identities(v[a]);
        assert(table_row_times(table, order, a, v) == F::zero_elem());
    }
    let at = choose|c: int| 0 <= c < order && #[trigger] v[c] != F::zero_elem();
    assert(at < size);
    assert(w[at] != F::zero_elem());
    assert forall|a: int| 0 <= a < size implies #[trigger] table_row_times(system, size, a, w)
        == F::zero_elem() by {
        let whole = |c: int| entry(table, order, a, c).times(v[c]);
        let part = |c: int| entry(system, size, a, c).times(w[c]);
        assert forall|c: int| size <= c < order implies #[trigger] whole(c) == F::zero_elem() by {
            assert(v[c] == F::zero_elem());
            times_zero(entry(table, order, a, c));
        }
        leading_sum(whole, size, order);
        assert forall|c: int| 0 <= c < size implies #[trigger] whole(c) == part(c) by {
            assert(entry(table, order, a, c) == embedded_entry(system, size, a, c));
        }
        sum_congruent(whole, part, size);
        assert(table_row_times(table, order, a, v) == F::zero_elem());
    }
    assert(in_kernel(system, size, w));
}

impl<F: Field> TargetedInverse<F> {
    /// Largest order the workspace serves.
    pub closed spec fn capacity(&self) -> int {
        self.order as int
    }

    /// The last system that was inverted, as the leading block of an identity.
    pub closed spec fn embedded_table(&self) -> Seq<F> {
        self.embedded@
    }

    /// The last system that was inverted, as the leading block of an identity.
    pub fn embedded(&self) -> (r: &[F])
        ensures
            r@ == self.embedded_table(),
    {
        self.embedded.as_slice()
    }

    /// Products of orders can be addressed.
    pub open spec fn valid(&self) -> bool {
        self.capacity() <= 65536 && self.capacity() * self.capacity() <= usize::MAX
    }

    /// A workspace for systems of up to `order` unknowns.
    pub fn new(order: usize) -> (r: Self)
        requires
            order <= 65536,
            order * order <= usize::MAX,
        ensures
            r.valid(),
            r.capacity() == order,
            r.embedded_table().len() == 0,
    {
        TargetedInverse { order, embedded: Vec::new() }
    }

    /// Largest order the workspace serves.
    pub fn capacity_value(&self) -> (r: usize)
        ensures
            r == self.capacity(),
    {
        self.order
    }

    /// Inverts the leading `size` by `size` system, stored row by row, into
    /// `output`.
    ///
    /// Returns `false` and leaves `output` untouched when the system is
    /// singular.
    pub fn invert_into(&mut self, system: &[F], size: usize, output: &mut [F]) -> (r: bool)
        requires
            old(self).valid(),
            0 < size <= old(self).capacity(),
            system@.len() >= size * size,
            old(output)@.len() == size * size,
        ensures
            final(self).valid(),
            final(self).capacity() == old(self).capacity(),
            embeds(
                final(self).embedded_table(),
                final(self).capacity(),
                system@.subrange(0, size * size),
                size as int,
            ),
            final(output)@.len() == old(output)@.len(),
            r ==> table_inverts(
                system@.subrange(0, size * size),
                final(output)@,
                size as int,
            ),
            !r ==> final(output)@ == old(output)@ && table_is_singular(
                system@.subrange(0, size * size),
                size as int,
            ),
    {
        let order: usize = self.order;
        let ghost own = system@.subrange(0, size * size);
        let table = embed(system, size, order);
        self.embedded = table;
        match F::invert_table(self.embedded.as_slice(), order) {
            None => {
                proof {
                    leading_block_singular(self.embedded@, order as int, own, size as int);
                }
                false
            },
            Some(inverse) => {
                proof {
                    leading_block_inverts(
                        self.embedded@,
                        inverse@,
                        order as int,
                        own,
                        size as int,
                    );
                }
                extract(inverse.as_slice(), order, size, output);
                true
            },
        }
    }
}

/// The system as the leading block of an identity.
fn embed<F: Field>(system: &[F], size: usize, order: usize) -> (r: Vec<F>)
    requires
        0 < size <= order,
        order * order <= usize::MAX,
        system@.len() >= size * size,
    ensures
        embeds(r@, order as int, system@.subrange(0, size * size), size as int),
{
    let available: usize = system.len();
    let ghost own = system@.subrange(0, size * size);
    let ghost n = order as int;
    let mut table: Vec<F> = Vec::new();
    let mut row: usize = 0;
    while row < order
        invariant
            row <= order,
            available == system@.len(),
            0 < size <= order,
            n == order,
            order * order <= usize::MAX,
            system@.len() >= size * size,
            own == system@.subrange(0, size * size),
            table@.len() == row * order,
            forall|r: int, c: int|
                0 <= r < row && 0 <= c < order ==> #[trigger] entry(table@, n, r, c)
                    == embedded_entry(own, size as int, r, c),
        decreases order - row,
    {
        let mut col: usize = 0;
        let ghost before = table@;
        while col < order
            invariant
                row < order,
                col <= order,
                available == system@.len(),
                0 < size <= order,
                n == order,
                system@.len() >= size * size,
                own == system@.subrange(0, size * size),
                before.len() == row * order,
                table@.len() == row * order + col,
                forall|t: int| 0 <= t < before.len() ==> #[trigger] table@[t] == before[t],
                forall|c: int|
                    0 <= c < col ==> #[trigger] entry(table@, n, row as int, c)
                        == embedded_entry(own, size as int, row as int, c),
            decreases order - col,
        {
            let value = if row < size && col < size {
                proof {
                    table_position(row as int, col as int, size as int);
                    row_bounds(row as int, size as int, size as int);
                }
                system[row * size + col]
            } else if row == col {
                F::one_value()
            } else {
                F::zero_value()
            };
            let ghost earlier = table@;
            table.push(value);
            proof {
                assert forall|c: int| 0 <= c < col + 1 implies #[trigger] entry(
                    table@,
                    n,
                    row as int,
                    c,
                ) == embedded_entry(own, size as int, row as int, c) by {
                    if c < col {
                        assert(entry(earlier, n, row as int, c) == embedded_entry(
                            own,
                            size as int,
                            row as int,
                            c,
                        ));
                    }
                }
            }
            col += 1;
        }
        proof {
            row_bounds(row as int, order as int, n);
            assert forall|r: int, c: int|
                0 <= r < row + 1 && 0 <= c < order implies #[trigger] entry(table@, n, r, c)
                == embedded_entry(own, size as int, r, c) by {
                if r < row {
                    rows_apart(r, row as int, n);
                    assert(0 <= r * n) by (nonlinear_arith)
                        requires
                            0 <= r,
                            0 <= n,
                    ;
                    assert(table@[r * n + c] == before[r * n + c]);
                    assert(entry(before, n, r, c) == embedded_entry(own, size as int, r, c));
                }
            }
        }
        row += 1;
    }
    table
}

/// Copies the leading block of a table.
fn extract<F: Field>(table: &[F], order: usize, size: usize, output: &mut [F])
    requires
        0 < size <= order,
        table@.len() == order * order,
        old(output)@.len() == size * size,
    ensures
        final(output)@ == leading(table@, order as int, size as int),
{
    let available: usize = table.len();
    let held: usize = output.len();
    let ghost block = leading(table@, order as int, size as int);
    let mut row: usize = 0;
    while row < size
        invariant
            row <= size,
            0 < size <= order,
            available == table@.len(),
            held == output@.len(),
            table@.len() == order * order,
            output@.len() == size * size,
            block == leading(table@, order as int, size as int),
            forall|t: int| 0 <= t < row * size ==> #[trigger] output@[t] == block[t],
        decreases size - row,
    {
        let mut col: usize = 0;
        proof {
            row_bounds(row as int, size as int, size as int);
            row_bounds(row as int, order as int, order as int);
        }
        while col < size
            invariant
                row < size,
                col <= size,
                0 < size <= order,
                available == table@.len(),
                held == output@.len(),
                table@.len() == order * order,
                output@.len() == size * size,
                block == leading(table@, order as int, size as int),
                0 <= row * size,
                row * size + size <= size * size,
                0 <= row * order,
                row * order + order <= order * order,
                forall|t: int| 0 <= t < row * size + col ==> #[trigger] output@[t] == block[t],
            decreases size - col,
        {
            proof {
                table_position(row as int, col as int, size as int);
            }
            output[row * size + col] = table[row * order + col];
            col += 1;
        }
        proof {
            row_bounds(row as int, size as int, size as int);
        }
        row += 1;
    }
    proof {
        assert(output@ =~= block);
    }
}

/// `table` holds the coefficients of every repair at every missing position.
pub open spec fn is_reduced_table<F: FieldElement>(
    coef: spec_fn(int, int) -> F,
    missing: Seq<int>,
    repairs: Seq<int>,
    table: Seq<F>,
) -> bool {
    &&& table.len() == missing.len() * missing.len()
    &&& forall|b: int, c: int|
        0 <= b < missing.len() && 0 <= c < missing.len() ==> #[trigger] entry(
            table,
            missing.len() as int,
            b,
            c,
        ) == coef(repairs[b], missing[c])
}

/// The inverse of the reduced table inverts the reduced system.
pub proof fn table_inverse_inverts<F: FieldElement>(
    coef: spec_fn(int, int) -> F,
    missing: Seq<int>,
    repairs: Seq<int>,
    table: Seq<F>,
    inverse: Seq<F>,
)
    requires
        missing.len() == repairs.len(),
        is_reduced_table(coef, missing, repairs, table),
        table_inverts(table, inverse, missing.len() as int),
    ensures
        inverts(coef, missing, repairs, |a: int, b: int| entry(inverse, missing.len() as int, a, b)),
{
    let r = missing.len() as int;
    let inv = |a: int, b: int| entry(inverse, r, a, b);
    assert forall|a: int, c: int| 0 <= a < r && 0 <= c < r implies #[trigger] folded(
        coef,
        repairs,
        inv,
        a,
        missing[c],
    ) == unit::<F>(a, c) by {
        let left = |b: int| inv(a, b).times(coef(repairs[b], missing[c]));
        let right = |b: int| entry(inverse, r, a, b).times(entry(table, r, b, c));
        assert forall|b: int| 0 <= b < r implies #[trigger] left(b) == right(b) by {
            assert(entry(table, r, b, c) == coef(repairs[b], missing[c]));
        }
        sum_congruent(left, right, r);
        assert(table_product(inverse, table, r, a, c) == unit::<F>(a, c));
    }
    assert forall|b: int, c: int| 0 <= b < r && 0 <= c < r implies #[trigger] unfolded(
        coef,
        missing,
        repairs,
        inv,
        b,
        c,
    ) == unit::<F>(b, c) by {
        let left = |a: int| coef(repairs[b], missing[a]).times(inv(a, c));
        let right = |a: int| entry(table, r, b, a).times(entry(inverse, r, a, c));
        assert forall|a: int| 0 <= a < r implies #[trigger] left(a) == right(a) by {
            assert(entry(table, r, b, a) == coef(repairs[b], missing[a]));
        }
        sum_congruent(left, right, r);
        assert(table_product(table, inverse, r, b, c) == unit::<F>(b, c));
    }
}

/// In a code where any `k` symbols determine the message, no reduced system is
/// singular.
pub proof fn reduced_system_is_regular<F: FieldElement>(
    coef: spec_fn(int, int) -> F,
    k: int,
    m: int,
    missing: Seq<int>,
    present: Seq<int>,
    repairs: Seq<int>,
    table: Seq<F>,
)
    requires
        m >= 0,
        lanes_determined(coef, k, m),
        valid_split(k, m, missing, present, repairs),
        is_reduced_table(coef, missing, repairs, table),
    ensures
        !table_is_singular(table, missing.len() as int),
{
    let r = missing.len() as int;
    if table_is_singular(table, r) {
        let v = choose|v: Seq<F>| #[trigger] in_kernel(table, r, v);
        let hit = choose|c: int| 0 <= c < r && #[trigger] v[c] != F::zero_elem();
        let message = |i: int|
            if missing.contains(i) {
                v[missing.index_of(i)]
            } else {
                F::zero_elem()
            };
        let zero = |i: int| F::zero_elem();
        let used = Seq::new(repairs.len(), |b: int| k + repairs[b]);
        let indices = present + used;
        assert(distinct(indices)) by {
            assert forall|i: int, j: int|
                0 <= i < indices.len() && 0 <= j < indices.len() && i
                    != j implies #[trigger] indices[i] != #[trigger] indices[j] by {
                if i < present.len() && j < present.len() {
                    assert(present[i] != present[j]);
                } else if i >= present.len() && j >= present.len() {
                    assert(repairs[i - present.len()] != repairs[j - present.len()]);
                } else if i < present.len() {
                    assert(present[i] < k);
                    assert(repairs[j - present.len()] >= 0);
                } else {
                    assert(present[j] < k);
                    assert(repairs[i - present.len()] >= 0);
                }
            }
        }
        assert forall|t: int| 0 <= t < indices.len() implies 0 <= #[trigger] indices[t] < k
            + m by {
            if t < present.len() {
                assert(0 <= present[t] < k);
            } else {
                assert(0 <= repairs[t - present.len()] < m);
            }
        }
        assert forall|t: int| 0 <= t < indices.len() implies codeword(
            coef,
            k,
            message,
            #[trigger] indices[t],
        ) == codeword(coef, k, zero, indices[t]) by {
            if t < present.len() {
                assert(indices[t] == present[t]);
                assert(!missing.contains(present[t])) by {
                    if missing.contains(present[t]) {
                        let s = choose|s: int| 0 <= s < missing.len() && missing[s] == present[t];
                        assert(missing[s] != present[t]);
                    }
                }
            } else {
                let b = t - present.len();
                let row = repairs[b];
                assert(indices[t] == k + row);
                let h = |i: int| coef(row, i).times(message(i));
                let masked = |i: int|
                    if missing.contains(i) {
                        h(i)
                    } else {
                        F::zero_elem()
                    };
                assert forall|i: int| 0 <= i < k implies #[trigger] h(i) == masked(i) by {
                    times_zero(coef(row, i));
                }
                sum_congruent(h, masked, k);
                sum_over_list(h, missing, k);
                let over = |c: int| h(missing[c]);
                let kernel = |c: int| entry(table, r, b, c).times(v[c]);
                assert forall|c: int| 0 <= c < r implies #[trigger] over(c) == kernel(c) by {
                    assert(missing.contains(missing[c]));
                    assert(missing.index_of(missing[c]) == c) by {
                        let s = missing.index_of(missing[c]);
                        assert(missing[s] == missing[c]);
                    }
                    assert(entry(table, r, b, c) == coef(row, missing[c]));
                }
                sum_congruent(over, kernel, r);
                assert(table_row_times(table, r, b, v) == F::zero_elem());
                let nothing = |i: int| coef(row, i).times(zero(i));
                assert forall|i: int| 0 <= i < k implies #[trigger] nothing(i)
                    == F::zero_elem() by {
                    times_zero(coef(row, i));
                }
                sum_of_zeros(nothing, k);
                let stated = |i: int| coef(indices[t] - k, i).times(message(i));
                sum_congruent(stated, h, k);
                let stated_zero = |i: int| coef(indices[t] - k, i).times(zero(i));
                sum_congruent(stated_zero, nothing, k);
            }
        }
        assert(same_codeword_at(coef, k, message, zero, indices));
        let at = missing[hit];
        assert(0 <= at < k);
        assert(message(at) == zero(at));
        assert(missing.contains(at));
        assert(missing.index_of(at) == hit) by {
            let s = missing.index_of(at);
            assert(missing[s] == missing[hit]);
        }
    }
}

} // verus!
