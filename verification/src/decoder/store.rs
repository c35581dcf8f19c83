//! Receipt bookkeeping shared by the lazy decoders.
//!
//! Pushing a symbol validates it, marks its codeword position and copies its
//! payload; nothing is combined until finalization.

use vstd::prelude::*;

use crate::algebra::index_lists::{
    indices_where, indices_where_complement, indices_where_congruent, indices_where_facts,
    indices_where_insert, indices_where_split,
};
use crate::codec::Code;
use crate::decoder::pattern::SymbolSet;
use crate::decoder::reduced::{ints, valid_split};
use crate::error::DecodeError;
use crate::payload::{copy_row, row_slice};
use crate::stream::{
    push_fault, push_outcome, push_reports_what_is_recorded, stored_after, PushOutcome,
};
use crate::symbols::{row_bounds, row_of};

verus! {

/// Payloads by codeword position, with the positions received so far.
#[derive(Clone, Debug)]
pub struct SymbolStore<S: SymbolSet> {
    k: usize,
    n: usize,
    symbol_len: usize,
    payloads: Vec<u8>,
    marks: S,
    distinct: usize,
    received: usize,
}

/// The marked positions.
pub open spec fn marked<S: SymbolSet>(marks: S) -> spec_fn(int) -> bool {
    |i: int| marks.has_index(i)
}

/// A finite set given by a predicate has as many members as the list of them.
pub proof fn marked_set_len(p: spec_fn(int) -> bool, n: int)
    requires
        n >= 0,
    ensures
        Set::new(|i: int| 0 <= i < n && p(i)).finite(),
        Set::new(|i: int| 0 <= i < n && p(i)).len() == indices_where(p, n).len(),
    decreases n,
{
    let whole = Set::new(|i: int| 0 <= i < n && p(i));
    if n == 0 {
        assert(whole =~= Set::empty());
    } else {
        marked_set_len(p, n - 1);
        let front = Set::new(|i: int| 0 <= i < n - 1 && p(i));
        if p(n - 1) {
            assert(whole =~= front.insert(n - 1));
        } else {
            assert(whole =~= front);
        }
    }
}

impl<S: SymbolSet> SymbolStore<S> {
    pub closed spec fn valid(&self) -> bool {
        &&& 1 <= self.k <= self.n <= 65536
        &&& 1 <= self.symbol_len
        &&& self.payloads@.len() >= self.n * self.symbol_len
        &&& self.n <= self.marks.limit()
        &&& self.marks.tidy(self.n as int)
        &&& forall|i: int|
            self.n <= i < self.marks.limit() ==> !(#[trigger] self.marks.has_index(i))
        &&& self.distinct == indices_where(marked(self.marks), self.n as int).len()
        &&& self.distinct <= self.k
        &&& self.distinct <= self.received <= self.n
    }

    /// The store belongs to this geometry.
    pub closed spec fn shaped(&self, code: Code) -> bool {
        &&& self.k == code.k
        &&& self.n == code.k + code.m
        &&& self.symbol_len == code.symbol_len
    }

    /// The recorded symbols.
    pub closed spec fn stored(&self) -> Map<int, Seq<u8>> {
        Map::new(
            |i: int| 0 <= i < self.n && self.marks.has_index(i),
            |i: int| row_of(self.payloads@, self.symbol_len as int, i),
        )
    }

    /// Pushes that were not refused.
    pub closed spec fn received_total(&self) -> int {
        self.received as int
    }

    /// The payload storage.
    pub closed spec fn row_bytes(&self) -> Seq<u8> {
        self.payloads@
    }

    /// Bytes of payload storage.
    pub open spec fn storage(&self) -> int {
        self.row_bytes().len() as int
    }

    /// The payload storage; recorded symbols stand at their codeword positions.
    pub fn rows(&self) -> (r: &[u8])
        requires
            self.valid(),
        ensures
            r@ == self.row_bytes(),
            forall|code: Code, i: int|
                #[trigger] self.shaped(code) && #[trigger] self.stored().contains_key(i)
                    ==> self.stored()[i] == row_of(r@, code.symbol_len, i),
    {
        self.payloads.as_slice()
    }

    /// The set of received positions.
    pub closed spec fn pattern(&self) -> S {
        self.marks
    }

    /// Number of recorded symbols.
    proof fn stored_len(&self)
        requires
            self.valid(),
        ensures
            self.stored().len() == self.distinct,
            self.stored().dom().finite(),
    {
        let p = marked(self.marks);
        marked_set_len(p, self.n as int);
        assert(self.stored().dom() =~= Set::new(|i: int| 0 <= i < self.n && p(i)));
    }

    /// A recorded position is a codeword position whose mark is set.
    pub proof fn stored_facts(&self, code: Code)
        requires
            self.valid(),
            self.shaped(code),
        ensures
            self.stored().len() <= code.k,
            self.stored().len() <= self.received_total() <= code.k + code.m,
            self.stored().dom().finite(),
            forall|i: int|
                #[trigger] self.stored().contains_key(i) <==> (0 <= i < code.k + code.m
                    && self.pattern().has_index(i)),
            forall|i: int|
                self.stored().contains_key(i) ==> (#[trigger] self.stored()[i]).len()
                    == code.symbol_len,
            code.k + code.m <= self.pattern().limit(),
            self.pattern().tidy(code.k + code.m),
            forall|i: int|
                0 <= i < self.pattern().limit() ==> #[trigger] self.pattern().has_index(i)
                    == self.stored().contains_key(i),
    {
        self.stored_len();
        assert forall|i: int| self.stored().contains_key(i) implies (#[trigger] self.stored()[i]).len()
            == code.symbol_len by {
            row_bounds(i, self.n as int, self.symbol_len as int);
        }
    }

    /// A store that has received nothing.
    pub fn new(k: usize, n: usize, symbol_len: usize, payloads: Vec<u8>, marks: S) -> (r: Self)
        requires
            1 <= k <= n <= 65536,
            1 <= symbol_len,
            payloads@.len() >= n * symbol_len,
            n <= marks.limit(),
            marks.tidy(n as int),
            forall|i: int| 0 <= i < marks.limit() ==> !(#[trigger] marks.has_index(i)),
        ensures
            r.valid(),
            r.stored() == Map::<int, Seq<u8>>::empty(),
            r.received_total() == 0,
            r.pattern() == marks,
            r.storage() == payloads@.len(),
            forall|code: Code|
                #[trigger] r.shaped(code) == (k == code.k && n == code.k + code.m && symbol_len
                    == code.symbol_len),
    {
        proof {
            no_marks(marked(marks), n as int);
        }
        let r = SymbolStore { k, n, symbol_len, payloads, marks, distinct: 0, received: 0 };
        proof {
            assert(r.stored() =~= Map::<int, Seq<u8>>::empty());
        }
        r
    }

    /// Number of recorded symbols.
    pub fn rank(&self) -> (r: usize)
        requires
            self.valid(),
        ensures
            r == self.stored().len(),
    {
        proof {
            self.stored_len();
        }
        self.distinct
    }

    /// Number of pushes that were not refused.
    pub fn received(&self) -> (r: usize)
        ensures
            r == self.received_total(),
    {
        self.received
    }

    /// The received positions.
    pub fn marks(&self) -> (r: &S)
        ensures
            *r == self.pattern(),
    {
        &self.marks
    }

    /// Whether codeword position `index` has been recorded.
    pub fn has_symbol(&self, index: usize) -> (r: bool)
        requires
            self.valid(),
        ensures
            r == self.stored().contains_key(index as int),
    {
        index < self.n && self.marks.contains_index(index)
    }

    /// Payload of a recorded position.
    pub fn payload(&self, index: usize) -> (r: &[u8])
        requires
            self.valid(),
            self.stored().contains_key(index as int),
        ensures
            r@ == self.stored()[index as int],
    {
        proof {
            row_bounds(index as int, self.n as int, self.symbol_len as int);
        }
        row_slice(&self.payloads, index, self.symbol_len)
    }

    /// Forgets every symbol; the payload storage is kept.
    pub fn reset(&mut self)
        requires
            old(self).valid(),
        ensures
            final(self).valid(),
            final(self).stored() == Map::<int, Seq<u8>>::empty(),
            final(self).received_total() == 0,
            final(self).storage() == old(self).storage(),
            forall|code: Code| #[trigger] final(self).shaped(code) == old(self).shaped(code),
    {
        self.marks.remove_all();
        self.distinct = 0;
        self.received = 0;
        proof {
            no_marks(marked(self.marks), self.n as int);
            assert(self.stored() =~= Map::<int, Seq<u8>>::empty());
        }
    }

    /// Validates and records one symbol.
    pub(crate) fn push(&mut self, index: usize, payload: &[u8], Ghost(code): Ghost<Code>) -> (r: Result<
        PushOutcome,
        DecodeError,
    >)
        requires
            old(self).valid(),
            old(self).shaped(code),
        ensures
            final(self).valid(),
            final(self).shaped(code),
            final(self).storage() == old(self).storage(),
            match push_fault(
                code,
                old(self).received_total(),
                index as int,
                payload@.len() as int,
            ) {
                Some(e) => r == Err::<PushOutcome, DecodeError>(e) && *final(self) == *old(self),
                None => r == Ok::<PushOutcome, DecodeError>(
                    push_outcome(
                        code,
                        old(self).stored(),
                        old(self).received_total(),
                        index as int,
                    ),
                ) && final(self).stored() == stored_after(
                    code,
                    old(self).stored(),
                    index as int,
                    payload@,
                ) && final(self).received_total() == old(self).received_total() + 1,
            },
            r is Ok <==> index < code.k + code.m && payload@.len() == code.symbol_len
                && old(self).received_total() < code.k + code.m,
            r matches Ok(PushOutcome::Advanced { rank, received }) ==> {
                &&& rank == final(self).stored().len()
                &&& rank == old(self).stored().len() + 1
                &&& rank < code.k
                &&& received == final(self).received_total()
            },
            r matches Ok(PushOutcome::Complete) ==> {
                &&& final(self).stored().len() == code.k
                &&& old(self).stored().len() + 1 == code.k
            },
            r matches Ok(PushOutcome::Dependent)
                <==> r is Ok && (old(self).stored().len() >= code.k
                || old(self).stored().contains_key(index as int)),
            r matches Ok(PushOutcome::Dependent) ==> final(self).stored() == old(self).stored(),
            r matches Ok(outcome) ==> {
                &&& final(self).received_total() == old(self).received_total() + 1
                &&& outcome != PushOutcome::Dependent
                    ==> final(self).stored() == old(self).stored().insert(index as int, payload@)
            },
            r is Err ==> final(self).stored() == old(self).stored()
                && final(self).received_total() == old(self).received_total(),
            index >= code.k + code.m <==> r matches Err(DecodeError::IndexOutOfRange { .. }),
            index < code.k + code.m && payload@.len() != code.symbol_len
                <==> r matches Err(DecodeError::WrongPayloadLen { .. }),
            r matches Err(DecodeError::IndexOutOfRange { index: refused, n })
                ==> refused == index && n == code.k + code.m,
            r matches Err(DecodeError::WrongPayloadLen { expected, got })
                ==> expected == code.symbol_len && got == payload@.len(),
            r is Err && index < code.k + code.m && payload@.len() == code.symbol_len
                ==> (r matches Err(DecodeError::TooManySymbols { cap, received })
                && cap == code.k + code.m && received == old(self).received_total()),
    {
        proof {
            self.stored_len();
            push_reports_what_is_recorded(
                code,
                self.stored(),
                self.received_total(),
                index as int,
                payload@,
            );
        }
        if index >= self.n {
            return Err(DecodeError::IndexOutOfRange { index, n: self.n });
        }
        if payload.len() != self.symbol_len {
            return Err(
                DecodeError::WrongPayloadLen { expected: self.symbol_len, got: payload.len() },
            );
        }
        if self.received >= self.n {
            return Err(DecodeError::TooManySymbols { cap: self.n, received: self.received });
        }
        self.received = self.received + 1;
        if self.distinct >= self.k || self.marks.contains_index(index) {
            proof {
                assert(self.stored() =~= old(self).stored());
            }
            return Ok(PushOutcome::Dependent);
        }
        proof {
            row_bounds(index as int, self.n as int, self.symbol_len as int);
        }
        copy_row(&mut self.payloads, index, self.symbol_len, payload);
        self.marks.insert_index(index);
        self.distinct = self.distinct + 1;
        proof {
            let before = marked(old(self).marks);
            let after = marked(self.marks);
            assert forall|i: int| 0 <= i < self.n && i != index implies #[trigger] after(i)
                == before(i) by {
                assert(self.marks.has_index(i) == (i == index || old(self).marks.has_index(i)));
            }
            assert(self.marks.has_index(index as int));
            assert(after(index as int));
            indices_where_insert(before, after, index as int, self.n as int);
            let l = self.symbol_len as int;
            let expected = old(self).stored().insert(index as int, payload@);
            assert(self.stored() =~= expected) by {
                assert forall|i: int| self.stored().contains_key(i) == expected.contains_key(i) by {
                    if 0 <= i < self.n {
                        assert(self.marks.has_index(i) == (i == index || old(
                            self,
                        ).marks.has_index(i)));
                    }
                }
                assert forall|i: int| self.stored().contains_key(i) implies self.stored()[i]
                    == expected[i] by {
                    row_bounds(i, self.n as int, l);
                    if i != index {
                        assert(row_of(self.payloads@, l, i) == row_of(
                            old(self).payloads@,
                            l,
                            i,
                        ));
                    }
                }
            }
        }
        if self.distinct >= self.k {
            Ok(PushOutcome::Complete)
        } else {
            Ok(PushOutcome::Advanced { rank: self.distinct, received: self.received })
        }
    }

    /// Lists the positions below `count`, shifted by `offset`, whose mark is
    /// `wanted`.
    fn list(&self, offset: usize, count: usize, wanted: bool) -> (r: Vec<usize>)
        requires
            self.valid(),
            offset + count <= self.n,
        ensures
            ints(r@) == indices_where(
                |i: int| self.marks.has_index(offset + i) == wanted,
                count as int,
            ),
    {
        let ghost p = |i: int| self.marks.has_index(offset + i) == wanted;
        let mut list: Vec<usize> = Vec::new();
        let mut i: usize = 0;
        proof {
            assert(ints(list@) =~= indices_where(p, 0));
        }
        while i < count
            invariant
                i <= count,
                self.valid(),
                offset + count <= self.n,
                p == (|i: int| self.marks.has_index(offset + i) == wanted),
                ints(list@) == indices_where(p, i as int),
            decreases count - i,
        {
            let ghost before = list@;
            if self.marks.contains_index(offset + i) == wanted {
                list.push(i);
                proof {
                    assert(ints(list@) =~= ints(before).push(i as int));
                }
            }
            i += 1;
        }
        list
    }

    /// The missing data positions, the present ones, and the received repairs.
    pub fn split(&self) -> (r: (Vec<usize>, Vec<usize>, Vec<usize>))
        requires
            self.valid(),
        ensures
            forall|code: Code|
                #[trigger] self.shaped(code) ==> {
                    &&& ints(r.0@) == missing_marks(self.pattern(), code.k)
                    &&& ints(r.1@) == present_marks(self.pattern(), code.k)
                    &&& ints(r.2@) == repair_marks(self.pattern(), code.k, code.m)
                },
    {
        let missing = self.list(0, self.k, false);
        let present = self.list(0, self.k, true);
        let repairs = self.list(self.k, self.n - self.k, true);
        proof {
            let k = self.k as int;
            let m = self.n - self.k;
            indices_where_congruent(
                |i: int| self.marks.has_index(0 + i) == false,
                |i: int| !self.marks.has_index(i),
                k,
            );
            indices_where_congruent(
                |i: int| self.marks.has_index(0 + i) == true,
                |i: int| self.marks.has_index(i),
                k,
            );
            indices_where_congruent(
                |i: int| self.marks.has_index(k + i) == true,
                |j: int| self.marks.has_index(k + j),
                m,
            );
        }
        (missing, present, repairs)
    }

    /// Once `k` symbols are recorded, the split is a reduced system that covers
    /// every one of them.
    pub proof fn split_is_valid(&self, code: Code)
        requires
            self.valid(),
            self.shaped(code),
            self.stored().len() >= code.k,
        ensures
            valid_split(
                code.k,
                code.m,
                missing_marks(self.pattern(), code.k),
                present_marks(self.pattern(), code.k),
                repair_marks(self.pattern(), code.k, code.m),
            ),
            forall|t: int|
                0 <= t < present_marks(self.pattern(), code.k).len()
                    ==> self.stored().contains_key(
                    #[trigger] present_marks(self.pattern(), code.k)[t],
                ),
            forall|t: int|
                0 <= t < repair_marks(self.pattern(), code.k, code.m).len()
                    ==> self.stored().contains_key(
                    code.k + #[trigger] repair_marks(self.pattern(), code.k, code.m)[t],
                ),
            forall|i: int|
                #[trigger] self.stored().contains_key(i) ==> present_marks(
                    self.pattern(),
                    code.k,
                ).contains(i) || repair_marks(self.pattern(), code.k, code.m).contains(i - code.k),
    {
        self.stored_len();
        let k = code.k;
        let m = code.m;
        let p = marked(self.marks);
        let held = |i: int| self.marks.has_index(i);
        let lacks = |i: int| !self.marks.has_index(i);
        let high = |j: int| self.marks.has_index(k + j);
        let missing = missing_marks(self.marks, k);
        let present = present_marks(self.marks, k);
        let repairs = repair_marks(self.marks, k, m);
        indices_where_split(p, k, m);
        indices_where_congruent(|i: int| p(k + i), high, m);
        indices_where_congruent(p, held, k);
        indices_where_complement(held, k);
        indices_where_congruent(|i: int| !held(i), lacks, k);
        indices_where_facts(held, k);
        indices_where_facts(lacks, k);
        indices_where_facts(high, m);
        assert forall|i: int| 0 <= i < k implies #[trigger] missing.contains(i)
            || present.contains(i) by {
            if held(i) {
                assert(present.contains(i));
            } else {
                assert(lacks(i));
            }
        }
        assert forall|s: int, t: int|
            0 <= s < missing.len() && 0 <= t < present.len() implies #[trigger] missing[s]
            != #[trigger] present[t] by {
            assert(lacks(missing[s]));
            assert(held(present[t]));
        }
        assert forall|i: int| #[trigger] self.stored().contains_key(i) implies present.contains(i)
            || repairs.contains(i - k) by {
            if i < k {
                assert(held(i));
            } else {
                assert(high(i - k));
            }
        }
    }
}

/// Data positions without a mark, ascending.
pub open spec fn missing_marks<S: SymbolSet>(marks: S, k: int) -> Seq<int> {
    indices_where(|i: int| !marks.has_index(i), k)
}

/// Data positions with a mark, ascending.
pub open spec fn present_marks<S: SymbolSet>(marks: S, k: int) -> Seq<int> {
    indices_where(|i: int| marks.has_index(i), k)
}

/// Repair numbers whose codeword position has a mark, ascending.
pub open spec fn repair_marks<S: SymbolSet>(marks: S, k: int, m: int) -> Seq<int> {
    indices_where(|j: int| marks.has_index(k + j), m)
}

/// Without marks the list is empty.
proof fn no_marks(p: spec_fn(int) -> bool, n: int)
    requires
        forall|i: int| 0 <= i < n ==> !(#[trigger] p(i)),
    ensures
        indices_where(p, n).len() == 0,
    decreases n,
{
    if n > 0 {
        no_marks(p, n - 1);
        assert(!p(n - 1));
    }
}

} // verus!
