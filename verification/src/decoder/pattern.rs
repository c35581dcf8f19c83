//! Receipt patterns: which codeword symbols have arrived.

use vstd::prelude::*;

verus! {

/// A set of codeword indices below a fixed limit.
pub trait SymbolSet: Sized {
    /// Indices below this bound can be members.
    spec fn limit(&self) -> int;

    /// Whether `index` is a member.
    spec fn has_index(&self, index: int) -> bool;

    /// The set is stored for a codeword of `n` symbols and holds nothing else.
    spec fn tidy(&self, n: int) -> bool;

    fn contains_index(&self, index: usize) -> (r: bool)
        requires
            index < self.limit(),
        ensures
            r == self.has_index(index as int),
    ;

    fn insert_index(&mut self, index: usize)
        requires
            index < old(self).limit(),
        ensures
            final(self).limit() == old(self).limit(),
            forall|i: int|
                0 <= i < old(self).limit() ==> #[trigger] final(self).has_index(i) == (i == index
                    || old(self).has_index(i)),
            forall|n: int| #[trigger] old(self).tidy(n) ==> final(self).tidy(n),
    ;

    fn remove_all(&mut self)
        ensures
            final(self).limit() == old(self).limit(),
            forall|i: int| 0 <= i < old(self).limit() ==> !(#[trigger] final(self).has_index(i)),
            forall|n: int| #[trigger] old(self).tidy(n) ==> final(self).tidy(n),
    ;
}

/// Bit `at` of a word.
pub open spec fn word_bit(word: u64, at: u64) -> bool {
    (word >> at) & 1 != 0
}

/// Setting a bit sets that bit and no other.
proof fn set_word_bit(word: u64, set: u64, at: u64)
    requires
        set < 64,
        at < 64,
    ensures
        word_bit(word | (1u64 << set), at) == (set == at || word_bit(word, at)),
{
    assert((((word | (1u64 << set)) >> at) & 1 != 0) == (set == at || (word >> at) & 1 != 0))
        by (bit_vector)
        requires
            set < 64,
            at < 64,
    ;
}

/// The zero word has no bits.
proof fn zero_word_bit(at: u64)
    requires
        at < 64,
    ensures
        !word_bit(0, at),
{
    assert((0u64 >> at) & 1 == 0) by (bit_vector)
        requires
            at < 64,
    ;
}

/// Receipt pattern of a codeword of up to 256 symbols.
///
/// Bit `i` is set when codeword symbol `i` has been received. The fixed 256-bit
/// representation is suitable as a cache key for decode recipes.
#[derive(Debug, Clone, Copy, Default, PartialEq, Eq, Hash)]
pub struct PatternKey(pub [u64; 4]);

impl PatternKey {
    /// Whether bit `index` is set.
    pub open spec fn bit(&self, index: int) -> bool {
        word_bit(self.0@[index / 64], (index % 64) as u64)
    }

    /// Creates an empty key.
    pub fn empty() -> (r: Self)
        ensures
            forall|i: int| 0 <= i < 256 ==> !(#[trigger] r.bit(i)),
    {
        let r = PatternKey([0, 0, 0, 0]);
        proof {
            assert forall|i: int| 0 <= i < 256 implies !(#[trigger] r.bit(i)) by {
                zero_word_bit((i % 64) as u64);
            }
        }
        r
    }

    /// Sets the bit for `idx`.
    pub fn set(&mut self, idx: usize)
        requires
            idx < 256,
        ensures
            forall|i: int|
                0 <= i < 256 ==> #[trigger] final(self).bit(i) == (i == idx || old(self).bit(i)),
    {
        let word: usize = idx / 64;
        let at: u64 = (idx % 64) as u64;
        let before: u64 = self.0[word];
        self.0[word] = before | (1u64 << at);
        proof {
            assert forall|i: int| 0 <= i < 256 implies #[trigger] self.bit(i) == (i == idx || old(
                self,
            ).bit(i)) by {
                if i / 64 == word {
                    set_word_bit(before, at, (i % 64) as u64);
                }
            }
        }
    }

    /// Returns whether the bit for `idx` is set.
    pub fn get(&self, idx: usize) -> (r: bool)
        requires
            idx < 256,
        ensures
            r == self.bit(idx as int),
    {
        let at: u64 = (idx % 64) as u64;
        ((self.0[idx / 64] >> at) & 1) != 0
    }

    /// Exposes the fixed-width representation.
    pub fn words(&self) -> (r: [u64; 4])
        ensures
            r@ == self.0@,
            forall|i: int|
                0 <= i < 256 ==> (#[trigger] self.bit(i) <==> (r@[i / 64] >> ((i % 64) as u64)) & 1
                    == 1),
    {
        proof {
            assert forall|i: int| 0 <= i < 256 implies (#[trigger] self.bit(i) <==> (self.0@[i / 64]
                >> ((i % 64) as u64)) & 1 == 1) by {
                let (word, at) = (self.0@[i / 64], (i % 64) as u64);
                assert((word >> at) & 1 != 0 <==> (word >> at) & 1 == 1) by (bit_vector);
            }
        }
        self.0
    }

    /// Whether both keys hold the same indices.
    pub fn same(&self, other: &PatternKey) -> (r: bool)
        ensures
            r == (self.0@ == other.0@),
    {
        let equal = self.0[0] == other.0[0] && self.0[1] == other.0[1] && self.0[2] == other.0[2]
            && self.0[3] == other.0[3];
        proof {
            if equal {
                assert(self.0@ =~= other.0@);
            }
        }
        equal
    }
}

/// Keys with the same representation hold the same indices, and the other way
/// round.
pub proof fn equal_keys(a: PatternKey, b: PatternKey)
    ensures
        a.0@ == b.0@ <==> forall|i: int| 0 <= i < 256 ==> #[trigger] a.bit(i) == b.bit(i),
{
    if forall|i: int| 0 <= i < 256 ==> #[trigger] a.bit(i) == b.bit(i) {
        assert forall|w: int| 0 <= w < 4 implies a.0@[w] == b.0@[w] by {
            let x = a.0@[w];
            let y = b.0@[w];
            assert forall|at: u64| at < 64 implies #[trigger] word_bit(x, at) == word_bit(
                y,
                at,
            ) by {
                assert(a.bit(64 * w + at) == b.bit(64 * w + at));
            }
            words_from_bits(x, y);
        }
        assert(a.0@ =~= b.0@);
    }
}

/// Words with equal bits are equal.
proof fn words_from_bits(x: u64, y: u64)
    requires
        forall|at: u64| at < 64 ==> #[trigger] word_bit(x, at) == word_bit(y, at),
    ensures
        x == y,
{
    if x != y {
        let d = x ^ y;
        assert(d != 0) by (bit_vector)
            requires
                x != y,
                d == x ^ y,
        ;
        assert(d >> 0u64 != 0) by (bit_vector)
            requires
                d != 0,
        ;
        let at = lowest_bit(d, 0);
        assert(((d >> at) & 1 != 0) ==> (((x >> at) & 1 != 0) != ((y >> at) & 1 != 0)))
            by (bit_vector)
            requires
                d == x ^ y,
                at < 64,
        ;
        assert(word_bit(x, at) == word_bit(y, at));
    }
}

/// A nonzero word has a set bit.
proof fn lowest_bit(d: u64, from: u64) -> (at: u64)
    requires
        from < 64,
        d >> from != 0,
    ensures
        at < 64,
        word_bit(d, at),
    decreases 64 - from,
{
    if word_bit(d, from) {
        from
    } else {
        let next: u64 = (from + 1) as u64;
        assert(next < 64 && d >> next != 0) by (bit_vector)
            requires
                from < 64,
                d >> from != 0,
                (d >> from) & 1 == 0,
                next == from + 1,
        ;
        lowest_bit(d, next)
    }
}

impl SymbolSet for PatternKey {
    open spec fn limit(&self) -> int {
        256
    }

    open spec fn has_index(&self, index: int) -> bool {
        self.bit(index)
    }

    open spec fn tidy(&self, n: int) -> bool {
        true
    }

    fn contains_index(&self, index: usize) -> (r: bool) {
        self.get(index)
    }

    fn insert_index(&mut self, index: usize) {
        self.set(index);
    }

    fn remove_all(&mut self) {
        *self = PatternKey::empty();
    }
}

/// Receipt pattern of a codeword of any length.
#[derive(Clone, Debug)]
pub struct Bitmap {
    words: Vec<u64>,
    len: usize,
}

impl Bitmap {
    /// Creates an empty bitmap for indices below `len`.
    pub fn new(len: usize) -> (r: Self)
        ensures
            r.limit() == len,
            r.tidy(len as int),
            forall|i: int| 0 <= i < len ==> !(#[trigger] r.has_index(i)),
    {
        let count: usize = if len % 64 == 0 {
            len / 64
        } else {
            len / 64 + 1
        };
        let words: Vec<u64> = vec![0u64; count];
        let r = Bitmap { words, len };
        proof {
            assert forall|i: int| 0 <= i < 64 * count implies !(#[trigger] r.has_index(i)) by {
                zero_word_bit((i % 64) as u64);
            }
        }
        r
    }
}

impl Bitmap {
    /// The marks, 64 per word.
    pub fn words(&self) -> (r: &[u64])
        ensures
            forall|n: int| #[trigger]
                self.tidy(n) ==> r@.len() == (n + 63) / 64 && forall|i: int|
                    n <= i < 64 * r@.len() ==> !word_bit(
                        r@[#[trigger] (i / 64)],
                        (i % 64) as u64,
                    ),
            forall|i: int|
                0 <= i < self.limit() ==> #[trigger] self.has_index(i) == word_bit(
                    r@[i / 64],
                    (i % 64) as u64,
                ),
    {
        let r = self.words.as_slice();
        proof {
            assert forall|n: int, i: int| #[trigger]
                self.tidy(n) && n <= i < 64 * r@.len() implies !word_bit(
                r@[#[trigger] (i / 64)],
                (i % 64) as u64,
            ) by {
                assert(!self.has_index(i));
            }
        }
        r
    }
}

impl SymbolSet for Bitmap {
    closed spec fn limit(&self) -> int {
        if self.len <= 64 * self.words@.len() {
            self.len as int
        } else {
            64 * self.words@.len() as int
        }
    }

    closed spec fn has_index(&self, index: int) -> bool {
        word_bit(self.words@[index / 64], (index % 64) as u64)
    }

    closed spec fn tidy(&self, n: int) -> bool {
        &&& self.len == n
        &&& self.words@.len() == (n + 63) / 64
        &&& forall|i: int| n <= i < 64 * self.words@.len() ==> !(#[trigger] self.has_index(i))
    }

    fn contains_index(&self, index: usize) -> (r: bool) {
        let at: u64 = (index % 64) as u64;
        ((self.words[index / 64] >> at) & 1) != 0
    }

    fn insert_index(&mut self, index: usize) {
        let word: usize = index / 64;
        let at: u64 = (index % 64) as u64;
        let before: u64 = self.words[word];
        self.words[word] = before | (1u64 << at);
        proof {
            assert forall|i: int| 0 <= i < 64 * self.words@.len() implies #[trigger] self.has_index(i)
                == (i == index || old(self).has_index(i)) by {
                if i / 64 == word {
                    set_word_bit(before, at, (i % 64) as u64);
                }
            }
        }
    }

    fn remove_all(&mut self) {
        let mut word: usize = 0;
        while word < self.words.len()
            invariant
                word <= self.words@.len(),
                self.words@.len() == old(self).words@.len(),
                self.len == old(self).len,
                forall|w: int| 0 <= w < word ==> #[trigger] self.words@[w] == 0,
            decreases self.words@.len() - word,
        {
            self.words[word] = 0;
            word += 1;
        }
        proof {
            assert forall|i: int| 0 <= i < 64 * self.words@.len() implies !(
            #[trigger] self.has_index(i)) by {
                zero_word_bit((i % 64) as u64);
                assert(self.words@[i / 64] == 0);
            }
        }
    }
}

} // verus!
