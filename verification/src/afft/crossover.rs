//! Which recovery path an erasure pattern should take.
//!
//! The targeted dense solve folds every received row into `r` residuals and
//! applies an `r` by `r` inverse, so it touches `r * (k + r)` symbol rows. The
//! locator path runs three transforms over the padded domain, whatever the
//! erasure count is. Each path also pays an overhead per row call that
//! dominates at short symbols, so the crossover moves with the symbol length
//! too. The weights are fitted to measurements; being a few erasures off costs
//! little, because the two curves meet shallowly.

use vstd::prelude::*;

use crate::afft::field::Field;
use crate::algebra::domains::{span_size, span_size_grows, span_size_is_injective};

verus! {

/// Butterfly weight of the locator path's three domain passes, over [`SCALE`].
pub const LOCATOR_BUTTERFLY_WEIGHT: u128 = 27;

/// Denominator of [`LOCATOR_BUTTERFLY_WEIGHT`].
pub const SCALE: u128 = 8;

/// Per-butterfly overhead of the locator path, in field elements.
pub const LOCATOR_ROW_OVERHEAD: u128 = 32;

/// Per-row-call overhead of the dense path, in field elements.
pub const DENSE_ROW_OVERHEAD: u128 = 512;

/// Which reconstruction path a decode should take.
#[derive(Clone, Copy, Debug, Hash, PartialEq, Eq, Structural)]
pub enum RecoveryPath {
    /// Dense solve against the received repair rows.
    Targeted,
    /// Recovery over the whole evaluation domain.
    Locator,
}

/// `root` is the square root of `n`, rounded down.
pub open spec fn is_root(n: int, root: nat) -> bool {
    root * root <= n < (root + 1) * (root + 1)
}

/// The square root of `n`, rounded down.
pub open spec fn floor_root(n: int) -> nat {
    choose|root: nat| is_root(n, root)
}

/// Rounded-down square roots are unique.
proof fn root_is_unique(n: int, a: nat, b: nat)
    requires
        is_root(n, a),
        is_root(n, b),
    ensures
        a == b,
{
    if a < b {
        assert((a + 1) * (a + 1) <= b * b) by (nonlinear_arith)
            requires
                a + 1 <= b,
        ;
    } else if b < a {
        assert((b + 1) * (b + 1) <= a * a) by (nonlinear_arith)
            requires
                b + 1 <= a,
        ;
    }
}

/// The square root of `n`, rounded down.
pub fn isqrt(n: u128) -> (r: u128)
    ensures
        r == floor_root(n as int),
        is_root(n as int, r as nat),
        r < 0x1_0000_0000_0000_0000,
{
    let mut low: u128 = 0;
    let mut high: u128 = 0x1_0000_0000_0000_0000;
    proof {
        assert(0x1_0000_0000_0000_0000int * 0x1_0000_0000_0000_0000int
            == 0x1_0000_0000_0000_0000_0000_0000_0000_0000int);
    }
    while high - low > 1
        invariant
            low < high <= 0x1_0000_0000_0000_0000,
            low * low <= n,
            n < high * high,
        decreases high - low,
    {
        let middle: u128 = low + (high - low) / 2;
        proof {
            assert(middle * middle <= 0xffff_ffff_ffff_ffff * 0xffff_ffff_ffff_ffff)
                by (nonlinear_arith)
                requires
                    0 <= middle <= 0xffff_ffff_ffff_ffff,
            ;
        }
        if middle * middle <= n {
            low = middle;
        } else {
            high = middle;
        }
    }
    proof {
        assert(high == low + 1);
        assert(is_root(n as int, low as nat));
        root_is_unique(n as int, low as nat, floor_root(n as int));
    }
    low
}

/// Relative cost of one dense-path element operation against one transform
/// element operation, as a fraction.
pub open spec fn dense_weight(width: int) -> (int, int) {
    if width == 1 {
        (1, 1)
    } else {
        (5, 2)
    }
}

/// Cost ratio of the two paths: the targeted path wins while `r * (k + r)` is at
/// most this.
pub open spec fn cost_quotient(dimension: nat, elements: int, width: int) -> int {
    let locator = LOCATOR_BUTTERFLY_WEIGHT * (span_size(dimension) * dimension) * (elements
        + LOCATOR_ROW_OVERHEAD);
    let weight = dense_weight(width);
    let dense = SCALE * (elements + DENSE_ROW_OVERHEAD) * weight.0 / weight.1;
    locator / dense
}

/// Largest erasure count that should take the targeted solve: the root of
/// `r * (k + r)` equal to the cost ratio, at least one and at most `k`.
pub open spec fn crossover(k: int, dimension: nat, elements: int, width: int) -> int {
    let quotient = cost_quotient(dimension, elements, width);
    let estimate = (floor_root(k * k + 4 * quotient) - k) / 2;
    if estimate < 1 {
        1
    } else if estimate > k {
        k
    } else {
        estimate
    }
}

/// The model's quantities fit the integers it is computed with.
pub open spec fn cost_fits(k: int, dimension: nat, elements: int, width: int) -> bool {
    &&& LOCATOR_BUTTERFLY_WEIGHT * (span_size(dimension) * dimension) * (elements
        + LOCATOR_ROW_OVERHEAD) <= u128::MAX
    &&& k * k + 4 * cost_quotient(dimension, elements, width) <= u128::MAX
}

/// The cost ratio is no larger than the cost of the transforms.
proof fn quotient_bound(dimension: nat, elements: int, width: int)
    requires
        elements >= 0,
    ensures
        0 <= cost_quotient(dimension, elements, width) <= LOCATOR_BUTTERFLY_WEIGHT * (span_size(
            dimension,
        ) * dimension) * (elements + LOCATOR_ROW_OVERHEAD),
{
    let b = span_size(dimension) * dimension;
    let locator = LOCATOR_BUTTERFLY_WEIGHT * b * (elements + LOCATOR_ROW_OVERHEAD);
    let weight = dense_weight(width);
    let x = SCALE * (elements + DENSE_ROW_OVERHEAD);
    let dense = x * weight.0 / weight.1;
    assert(dense >= 1) by (nonlinear_arith)
        requires
            dense == x * weight.0 / weight.1,
            1 <= weight.1 <= 2,
            weight.1 <= weight.0,
            x >= 4096,
    ;
    assert(locator >= 0) by (nonlinear_arith)
        requires
            locator == 27 * b * (elements + 32),
            b >= 0,
            elements >= 0,
    ;
    assert(0 <= locator / dense <= locator) by (nonlinear_arith)
        requires
            locator >= 0,
            dense >= 1,
    ;
}

/// Domains of 32-bit size and 32-bit dimensions fit, whatever the symbols.
pub proof fn small_costs_fit(k: int, dimension: nat, elements: int, width: int)
    requires
        0 <= k <= 0x1_0000_0000,
        span_size(dimension) <= 0x1_0000_0000,
        0 <= elements <= 0xffff_ffff_ffff_ffff,
    ensures
        cost_fits(k, dimension, elements, width),
{
    dimension_bound(dimension);
    quotient_bound(dimension, elements, width);
    let size = span_size(dimension) as int;
    let b = size * dimension;
    assert(0 <= b <= 0x20_0000_0000) by (nonlinear_arith)
        requires
            0 <= size <= 0x1_0000_0000,
            0 <= dimension <= 32,
            b == size * dimension,
    ;
    assert(27 * b * (elements + 32) <= 27 * 0x20_0000_0000 * 0x1_0000_0000_0000_001f)
        by (nonlinear_arith)
        requires
            0 <= b <= 0x20_0000_0000,
            0 <= elements <= 0xffff_ffff_ffff_ffff,
    ;
    assert(0 <= k * k <= 0x1_0000_0000_0000_0000) by (nonlinear_arith)
        requires
            0 <= k <= 0x1_0000_0000,
    ;
}

/// Every number has a rounded-down square root.
proof fn root_exists(n: int)
    requires
        n >= 0,
    ensures
        is_root(n, floor_root(n)),
    decreases n,
{
    if n == 0 {
        assert(0nat * 0nat <= 0 < (0nat + 1) * (0nat + 1)) by (nonlinear_arith);
        assert(is_root(0, 0));
    } else {
        root_exists(n - 1);
        let below = floor_root(n - 1);
        if (below + 1) * (below + 1) <= n {
            assert(n < (below + 2) * (below + 2)) by (nonlinear_arith)
                requires
                    n - 1 < (below + 1) * (below + 1),
                    below >= 0,
            ;
            assert(is_root(n, below + 1));
        } else {
            assert(is_root(n, below));
        }
    }
}

/// The crossover is the break-even count: the dense solve of `r` erasures touches
/// `r * (k + r)` rows, the other path three passes over the domain, and `r` is
/// the largest count, of those from one to `k`, for which the first is no dearer.
/// A row costs its elements and a fixed overhead on either path; an element of
/// the dense path costs as much as one of the transform over GF(256), and five
/// halves of it over GF(65536).
pub proof fn crossover_breaks_even(k: int, dimension: nat, elements: int, width: int)
    requires
        k >= 1,
        elements >= 0,
        width == 1 || width == 2,
    ensures
        ({
            let r = crossover(k, dimension, elements, width);
            let passes = 27 * (span_size(dimension) * dimension) * (elements + 32);
            let row = if width == 1 {
                8 * (elements + 512)
            } else {
                20 * (elements + 512)
            };
            &&& 1 <= r <= k
            &&& r > 1 ==> r * (k + r) * row <= passes
            &&& r < k ==> (r + 1) * (k + r + 1) * row > passes
        }),
{
    let r = crossover(k, dimension, elements, width);
    let passes = 27 * (span_size(dimension) * dimension) * (elements + 32);
    let row = if width == 1 {
        8 * (elements + 512)
    } else {
        20 * (elements + 512)
    };
    let q = cost_quotient(dimension, elements, width);
    quotient_bound(dimension, elements, width);
    let weight = dense_weight(width);
    let x = SCALE * (elements + DENSE_ROW_OVERHEAD);
    assert(x * weight.0 / weight.1 == row) by (nonlinear_arith)
        requires
            x == 8 * (elements + 512),
            weight == (if width == 1 {
                (1int, 1int)
            } else {
                (5int, 2int)
            }),
            row == (if width == 1 {
                8 * (elements + 512)
            } else {
                20 * (elements + 512)
            }),
            width == 1 || width == 2,
    ;
    assert(q == passes / row);
    assert(0 <= k * k) by (nonlinear_arith);
    let root = floor_root(k * k + 4 * q) as int;
    root_exists(k * k + 4 * q);
    let estimate = (root - k) / 2;
    assert(2 * estimate + k <= root < 2 * estimate + 2 + k);
    if r > 1 {
        assert(r * (k + r) <= q) by (nonlinear_arith)
            requires
                root * root <= k * k + 4 * q,
                2 * r + k <= root,
                r >= 1,
                k >= 1,
        ;
        break_even(r * (k + r), q, row, passes);
    }
    if r < k {
        assert((r + 1) * (k + r + 1) > q) by (nonlinear_arith)
            requires
                k * k + 4 * q < (root + 1) * (root + 1),
                root + 1 <= 2 * (r + 1) + k,
                root >= 0,
                r >= 1,
                k >= 1,
        ;
        break_even((r + 1) * (k + r + 1), q, row, passes);
    }
}

/// A count is at most a quotient exactly if its multiple is at most the dividend.
proof fn break_even(count: int, quotient: int, row: int, passes: int)
    requires
        row >= 1,
        quotient == passes / row,
    ensures
        count <= quotient <==> count * row <= passes,
{
    assert(count <= quotient <==> count * row <= passes) by (nonlinear_arith)
        requires
            row >= 1,
            quotient == passes / row,
    ;
}

/// Relative cost of one dense-path element operation, as a fraction.
fn dense_element_weight<F: Field>() -> (r: (u128, u128))
    ensures
        r.0 == dense_weight(F::width()).0,
        r.1 == dense_weight(F::width()).1,
{
    if F::element_width() == 1 {
        (1, 1)
    } else {
        (5, 2)
    }
}

/// Base-two logarithm of a domain size.
fn log_of_size(size: usize) -> (r: usize)
    requires
        exists|dimension: nat| size == #[trigger] span_size(dimension),
    ensures
        size == span_size(r as nat),
        r <= usize::MAX,
{
    let ghost whole = choose|dimension: nat| size == #[trigger] span_size(dimension);
    let mut rest: usize = size;
    let mut log: usize = 0;
    while rest > 1
        invariant
            size == span_size(whole),
            log <= whole,
            rest == span_size((whole - log) as nat),
            log + rest <= size,
        decreases rest,
    {
        proof {
            assert(whole - log > 0) by {
                if whole - log == 0 {
                    assert(span_size(0) == 1);
                }
            }
        }
        rest = rest / 2;
        log += 1;
    }
    proof {
        if whole > log {
            span_size_grows(0, (whole - log) as nat);
        }
    }
    log
}

/// Dimensions of 32-bit sizes are at most 32.
proof fn dimension_bound(dimension: nat)
    requires
        span_size(dimension) <= 0x1_0000_0000,
    ensures
        dimension <= 32,
{
    if dimension > 32 {
        span_size_grows(32, dimension);
        assert(span_size(32) == 0x1_0000_0000) by {
            reveal_with_fuel(span_size, 33);
        }
    }
}

/// Largest erasure count that should take the targeted dense solve for this
/// geometry.
///
/// Always at least one, since a single erasure never justifies three transforms
/// over the domain, and never more than `k`. Callers additionally clamp to `m`.
pub fn targeted_max_missing<F: Field>(k: usize, transform_size: usize, symbol_len: usize) -> (r:
    usize)
    requires
        k >= 1,
        exists|dimension: nat| transform_size == #[trigger] span_size(dimension),
        forall|dimension: nat|
            transform_size == #[trigger] span_size(dimension) ==> cost_fits(
                k as int,
                dimension,
                symbol_len as int / F::width(),
                F::width(),
            ),
    ensures
        forall|dimension: nat|
            transform_size == #[trigger] span_size(dimension) ==> r == crossover(
                k as int,
                dimension,
                symbol_len as int / F::width(),
                F::width(),
            ),
        1 <= r <= k,
{
    let width: usize = F::element_width();
    proof {
        F::width_is_positive();
    }
    let elements: u128 = (symbol_len / width) as u128;
    let log: usize = log_of_size(transform_size);
    let ghost dimension = log as nat;
    proof {
        assert(cost_fits(k as int, dimension, elements as int, F::width()));
        quotient_bound(dimension, elements as int, F::width());
        let b = transform_size * log;
        let e = elements as int;
        assert(0 <= b && b <= 27 * b && 27 * b <= 27 * b * (e + 32)) by (nonlinear_arith)
            requires
                b == transform_size * log,
                0 <= transform_size,
                0 <= log,
                0 <= e,
        ;
    }
    let butterflies: u128 = transform_size as u128 * log as u128;
    let (numerator, denominator) = dense_element_weight::<F>();
    let locator: u128 = LOCATOR_BUTTERFLY_WEIGHT * butterflies * (elements + LOCATOR_ROW_OVERHEAD);
    proof {
        let x = 8 * (elements + 512);
        assert(x <= x * numerator <= 5 * x && x * numerator / (denominator as int) >= 1)
            by (nonlinear_arith)
            requires
                1 <= numerator <= 5,
                1 <= denominator <= 2,
                x >= 4096,
        ;
    }
    let dense_row: u128 = SCALE * (elements + DENSE_ROW_OVERHEAD) * numerator / denominator;
    let quotient: u128 = locator / dense_row;
    proof {
        assert(quotient <= locator) by (nonlinear_arith)
            requires
                quotient == locator / dense_row,
                dense_row >= 1,
                locator >= 0,
        ;
    }
    let wide: u128 = k as u128;
    let root: u128 = isqrt(wide * wide + 4 * quotient);
    proof {
        assert(root >= wide) by (nonlinear_arith)
            requires
                wide * wide + 4 * quotient < (root + 1) * (root + 1),
                quotient >= 0,
                root >= 0,
                wide >= 0,
        ;
        assert forall|d: nat| transform_size == #[trigger] span_size(d) implies d == dimension by {
            span_size_is_injective(d, dimension);
        }
    }
    let estimate: u128 = (root - wide) / 2;
    if estimate < 1 {
        1
    } else if estimate > wide {
        k
    } else {
        estimate as usize
    }
}

/// Picks the recovery path for `missing` erasures at this geometry.
pub fn recovery_path<F: Field>(
    k: usize,
    transform_size: usize,
    symbol_len: usize,
    missing: usize,
) -> (r: RecoveryPath)
    requires
        k >= 1,
        exists|dimension: nat| transform_size == #[trigger] span_size(dimension),
        forall|dimension: nat|
            transform_size == #[trigger] span_size(dimension) ==> cost_fits(
                k as int,
                dimension,
                symbol_len as int / F::width(),
                F::width(),
            ),
    ensures
        forall|dimension: nat|
            transform_size == #[trigger] span_size(dimension) ==> r == if missing <= crossover(
                k as int,
                dimension,
                symbol_len as int / F::width(),
                F::width(),
            ) {
                RecoveryPath::Targeted
            } else {
                RecoveryPath::Locator
            },
{
    let limit: usize = targeted_max_missing::<F>(k, transform_size, symbol_len);
    if missing <= limit {
        RecoveryPath::Targeted
    } else {
        RecoveryPath::Locator
    }
}

} // verus!
