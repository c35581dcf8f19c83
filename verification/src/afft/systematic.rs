//! Cached locators of the systematic points.

use std::sync::Arc;

use vstd::prelude::*;

use crate::afft::field::Field;
use crate::afft::generator::systematic_pattern;
use crate::afft::locator::{known_in, ErasureLocator};
use crate::afft::tables::LogExpTables;
use crate::afft::transform::{TransformLengthError, TransformPlan};
use crate::algebra::domains::span_point;
use crate::algebra::evaluation_code::erasure_product_congruent;
use crate::decoder::recipe::share;

verus! {

/// Most locators kept at a time.
pub const SYSTEMATIC_LOCATOR_CAPACITY: usize = 32;

/// One cached locator and what it was computed for.
#[derive(Debug)]
struct LocatorEntry<F: Field> {
    systematic: usize,
    basis: Vec<F>,
    locator: Arc<ErasureLocator<F>>,
}

/// Cache of locators for the pattern with points `0..systematic` erased and
/// the rest known.
///
/// That pattern depends only on the domain and the systematic count, not on
/// which symbols were lost. Entries are kept under the systematic count and
/// the ordered basis, so plans over different bases never collide, and leave
/// in the order in which they came.
#[derive(Debug)]
pub struct SystematicLocators<F: Field> {
    entries: Vec<LocatorEntry<F>>,
}

/// The entry describes what it was computed for.
spec fn entry_valid<F: Field>(entry: &LocatorEntry<F>) -> bool {
    (*entry.locator).locates(entry.basis@, systematic_pattern(entry.systematic as int))
}

/// The keys after a request for `key`.
pub open spec fn keys_after<F>(keys: Seq<(int, Seq<F>)>, key: (int, Seq<F>)) -> Seq<
    (int, Seq<F>),
> {
    if keys.contains(key) {
        keys
    } else if keys.len() >= SYSTEMATIC_LOCATOR_CAPACITY {
        keys.drop_first().push(key)
    } else {
        keys.push(key)
    }
}

/// A request keeps the cache in order of age and no larger than 32 entries: the
/// key is held afterwards, a known key changes nothing, and a new one comes last,
/// at the cost of the oldest entry alone and only if the cache was full.
pub proof fn requests_age_the_keys<F>(keys: Seq<(int, Seq<F>)>, key: (int, Seq<F>))
    requires
        keys.len() <= 32,
    ensures
        keys_after(keys, key).contains(key),
        keys_after(keys, key).len() <= 32,
        keys.contains(key) ==> keys_after(keys, key) == keys,
        !keys.contains(key) ==> keys_after(keys, key).last() == key,
        !keys.contains(key) && keys.len() < 32 ==> keys_after(keys, key).len() == keys.len() + 1
            && forall|t: int|
            0 <= t < keys.len() ==> #[trigger] keys_after(keys, key)[t] == keys[t],
        !keys.contains(key) && keys.len() == 32 ==> keys_after(keys, key).len() == 32 && forall|
            t: int,
        |
            0 <= t < 31 ==> #[trigger] keys_after(keys, key)[t] == keys[t + 1],
{
    let after = keys_after(keys, key);
    if !keys.contains(key) {
        assert(after[after.len() - 1] == key);
    }
}

impl<F: Field> Default for SystematicLocators<F> {
    fn default() -> (r: Self)
        ensures
            r.valid(),
            r.keys() == Seq::<(int, Seq<F>)>::empty(),
    {
        Self::new()
    }
}

impl<F: Field> SystematicLocators<F> {
    /// Systematic count and basis of every entry, oldest first.
    pub closed spec fn keys(&self) -> Seq<(int, Seq<F>)> {
        Seq::new(
            self.entries@.len(),
            |t: int| (self.entries@[t].systematic as int, self.entries@[t].basis@),
        )
    }

    /// Every entry describes what it was computed for.
    pub closed spec fn valid(&self) -> bool {
        &&& self.entries@.len() <= SYSTEMATIC_LOCATOR_CAPACITY
        &&& forall|t: int|
            0 <= t < self.entries@.len() ==> entry_valid(#[trigger] &self.entries@[t])
    }

    /// An empty cache.
    pub fn new() -> (r: Self)
        ensures
            r.valid(),
            r.keys() == Seq::<(int, Seq<F>)>::empty(),
    {
        let r = SystematicLocators { entries: Vec::new() };
        proof {
            assert(r.keys() =~= Seq::<(int, Seq<F>)>::empty());
        }
        r
    }

    /// Number of cached locators.
    pub fn len(&self) -> (r: usize)
        ensures
            r == self.keys().len(),
    {
        self.entries.len()
    }

    /// The locator for the pattern with points `0..systematic` erased, built on
    /// the first request for this count and basis.
    pub fn get(&mut self, plan: &TransformPlan<F>, systematic: usize) -> (r: Result<
        Arc<ErasureLocator<F>>,
        TransformLengthError,
    >)
        requires
            old(self).valid(),
            plan.valid(),
        ensures
            final(self).valid(),
            match r {
                Ok(locator) => systematic <= plan.domain() && (*locator).locates(
                    plan.ordered_basis(),
                    systematic_pattern(systematic as int),
                ) && final(self).keys() == keys_after(
                    old(self).keys(),
                    (systematic as int, plan.ordered_basis()),
                ),
                Err(error) => systematic > plan.domain() && error == (TransformLengthError {
                    expected: plan.domain() as usize,
                    got: systematic,
                }) && final(self).keys() == old(self).keys(),
            },
    {
        if systematic > plan.size() {
            return Err(TransformLengthError { expected: plan.size(), got: systematic });
        }
        let ghost key = (systematic as int, plan.ordered_basis());
        let mut t: usize = 0;
        while t < self.entries.len()
            invariant
                t <= self.entries@.len(),
                *self == *old(self),
                self.valid(),
                plan.valid(),
                systematic <= plan.domain(),
                key == (systematic as int, plan.ordered_basis()),
                forall|s: int| 0 <= s < t ==> #[trigger] self.keys()[s] != key,
            decreases self.entries@.len() - t,
        {
            if self.entries[t].systematic == systematic && same_elements(
                self.entries[t].basis.as_slice(),
                plan.basis(),
            ) {
                proof {
                    assert(self.keys()[t as int] == key);
                    assert(self.keys().contains(key));
                    assert(entry_valid(&self.entries@[t as int]));
                }
                return Ok(share(&self.entries[t].locator));
            }
            proof {
                assert(self.keys()[t as int] != key);
            }
            t += 1;
        }
        let computed = Arc::new(systematic_locator(plan, systematic));
        let basis = copied(plan.basis());
        let ghost before = self.entries@;
        if self.entries.len() >= SYSTEMATIC_LOCATOR_CAPACITY {
            self.entries.remove(0);
        }
        let ghost kept = self.entries@;
        self.entries.push(LocatorEntry { systematic, basis, locator: share(&computed) });
        proof {
            assert(!old(self).keys().contains(key));
            let stated = keys_after(old(self).keys(), key);
            assert(self.keys() =~= stated);
            assert forall|s: int| 0 <= s < self.entries@.len() implies entry_valid(
                #[trigger] &self.entries@[s],
            ) by {
                if s < kept.len() {
                    let from = if before.len() >= SYSTEMATIC_LOCATOR_CAPACITY {
                        s + 1
                    } else {
                        s
                    };
                    assert(entry_valid(&before[from]));
                }
            }
        }
        Ok(computed)
    }
}

/// The locator for the pattern with points `0..systematic` erased.
pub fn systematic_locator<F: Field>(plan: &TransformPlan<F>, systematic: usize) -> (r:
    ErasureLocator<F>)
    requires
        plan.valid(),
        systematic <= plan.domain(),
    ensures
        r.locates(plan.ordered_basis(), systematic_pattern(systematic as int)),
{
    let tables = LogExpTables::<F>::build();
    systematic_locator_with(plan, &tables, systematic)
}

/// [`systematic_locator`] with tables built before.
pub fn systematic_locator_with<F: Field>(
    plan: &TransformPlan<F>,
    tables: &LogExpTables<F>,
    systematic: usize,
) -> (r: ErasureLocator<F>)
    requires
        plan.valid(),
        tables.valid(),
        systematic <= plan.domain(),
    ensures
        r.locates(plan.ordered_basis(), systematic_pattern(systematic as int)),
{
    let size: usize = plan.size();
    let mut known: Vec<bool> = Vec::new();
    let mut i: usize = 0;
    while i < size
        invariant
            i <= size,
            known@.len() == i,
            forall|j: int| 0 <= j < i ==> #[trigger] known@[j] == (j >= systematic),
        decreases size - i,
    {
        known.push(i >= systematic);
        i += 1;
    }
    let ghost basis = plan.ordered_basis();
    let mut locator = ErasureLocator::<F>::for_domain(size);
    let mut scratch = crate::afft::locator::LocatorScratch::for_domain(size);
    let outcome = locator.recompute(plan, tables, known.as_slice(), &mut scratch);
    proof {
        assert(outcome is Ok);
        let listed = known_in(known@);
        let pattern = systematic_pattern(systematic as int);
        let point = |j: int| span_point(basis, j);
        assert forall|i: int| 0 <= i < size implies #[trigger] listed(i) == pattern(i) by {
            assert(known@[i] == (i >= systematic));
        }
        assert forall|i: int| 0 <= i < size implies #[trigger] locator.value_table()[i]
            == if pattern(i) {
            crate::algebra::evaluation_code::erasure_product(point, pattern, i, size as int)
        } else {
            F::zero_elem()
        } by {
            erasure_product_congruent(point, listed, pattern, i, size as int);
            assert(listed(i) == pattern(i));
        }
        assert forall|i: int| 0 <= i < size implies #[trigger] locator.derivative_table()[i]
            == if pattern(i) {
            F::zero_elem()
        } else {
            crate::algebra::evaluation_code::erasure_product(point, pattern, i, size as int)
        } by {
            erasure_product_congruent(point, listed, pattern, i, size as int);
            assert(listed(i) == pattern(i));
        }
    }
    locator
}

/// A copy of a list of elements.
fn copied<F: Field>(list: &[F]) -> (r: Vec<F>)
    ensures
        r@ == list@,
{
    let mut out: Vec<F> = Vec::new();
    let mut i: usize = 0;
    while i < list.len()
        invariant
            i <= list@.len(),
            out@ =~= list@.subrange(0, i as int),
        decreases list@.len() - i,
    {
        out.push(list[i]);
        i += 1;
    }
    proof {
        assert(out@ =~= list@);
    }
    out
}

/// Whether two lists of elements are equal.
fn same_elements<F: Field>(a: &[F], b: &[F]) -> (r: bool)
    ensures
        r == (a@ == b@),
{
    if a.len() != b.len() {
        return false;
    }
    let mut i: usize = 0;
    while i < a.len()
        invariant
            i <= a@.len(),
            a@.len() == b@.len(),
            forall|j: int| 0 <= j < i ==> #[trigger] a@[j] == b@[j],
        decreases a@.len() - i,
    {
        proof {
            F::patterns_are_elements(a@[i as int], 0);
            F::patterns_are_elements(b@[i as int], 0);
        }
        if a[i].raw_value() != b[i].raw_value() {
            return false;
        }
        i += 1;
    }
    proof {
        assert(a@ =~= b@);
    }
    true
}

} // verus!
