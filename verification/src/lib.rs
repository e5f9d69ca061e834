//! Lazy enumeration of the permutations of a borrowed sequence.
//!
//! A [`Permutator`] walks the orderings of the positions `0..n` in
//! lexicographic order, one per call, projecting each selected element
//! through a caller-supplied accessor. Nothing close to the full `n!`
//! result set is ever materialized: the generator carries only the current
//! index ordering and an exhaustion flag.
use vstd::prelude::*;

pub mod count;
pub mod order;

use crate::order::{advanced, identity_seq, is_descending, is_index_perm, lex_lt, pivot_of};
use crate::order::{
    lemma_advanced_index, lemma_advanced_props, lemma_pivot_from_props,
    lemma_pivot_zero_iff_descending, lemma_succ_from_props, pivot_from, succ_from, succ_of,
    swapped,
};
use crate::count::{factorial, lemma_rank_advanced, lemma_rank_bound, lemma_rank_descending,
    lemma_rank_identity, rank_of};
use vstd::pervasive::VecAdditionalExecFns;

verus! {

/// Builds a generator over `data` whose outputs are produced by feeding
/// each selected element through `accessor`.
pub fn permute<'a, U, T, F>(data: &'a [T], accessor: F) -> (r: Permutator<'a, T, F, U>) where
    F: Fn(&'a T) -> U,

    ensures
        r.wf(),
        r.data_view() == data@,
        r.indices_view() == identity_seq(data@.len()),
        !r.is_done(),
        r.fun() == accessor,
        r.remaining() == factorial(data@.len()),
{
    Permutator::new(data, accessor)
}

/// A lazy generator of the permutations of a borrowed slice.
///
/// It owns the advancement state — the current ordering of the positions
/// `0..n` and an exhaustion flag — and borrows the input for its lifetime.
#[derive(Clone)]
#[verifier::reject_recursive_types(U)]
pub struct Permutator<'a, T, F, U> where F: Fn(&'a T) -> U {
    data: &'a [T],
    indices: Vec<usize>,
    done: bool,
    accessor: F,
}

impl<'a, T, F, U> Permutator<'a, T, F, U> where F: Fn(&'a T) -> U {
    /// The borrowed input, as a sequence.
    pub closed spec fn data_view(&self) -> Seq<T> {
        self.data@
    }

    /// The current index ordering.
    pub closed spec fn indices_view(&self) -> Seq<usize> {
        self.indices@
    }

    /// Whether the lexicographically last ordering has already been
    /// produced.
    pub closed spec fn is_done(&self) -> bool {
        self.done
    }

    /// The projection the generator was built with.
    pub closed spec fn fun(&self) -> F {
        self.accessor
    }

    /// The generator's invariant: the index state is an ordering of the
    /// input's positions, and the flag is raised only on the
    /// lexicographically last ordering.
    pub open spec fn wf(&self) -> bool {
        &&& is_index_perm(self.indices_view(), self.data_view().len())
        &&& (self.is_done() ==> is_descending(self.indices_view()))
    }

    /// How many permutations are still to come: `n!` on a fresh generator,
    /// down by exactly one per produced output, zero once exhausted.
    pub open spec fn remaining(&self) -> int {
        if self.is_done() {
            0
        } else {
            factorial(self.data_view().len()) - rank_of(self.indices_view())
        }
    }

    fn new(data: &'a [T], accessor: F) -> (r: Self)
        ensures
            r.wf(),
            r.data_view() == data@,
            r.indices_view() == identity_seq(data@.len()),
            !r.is_done(),
            r.fun() == accessor,
            r.remaining() == factorial(data@.len()),
    {
        let len = data.len();
        proof {
            lemma_rank_identity(data@.len());
        }
        let mut indices: Vec<usize> = Vec::new();
        let mut k: usize = 0;
        while k < len
            invariant
                k <= len,
                indices@.len() == k,
                forall|i: int| 0 <= i < k ==> #[trigger] indices@[i] == i,
            decreases len - k,
        {
            indices.push(k);
            k += 1;
        }
        proof {
            assert(indices@ =~= identity_seq(data@.len()));
        }
        Self { data, indices, done: false, accessor }
    }

    /// Produces the next permutation, or `None` once every ordering has
    /// been emitted.
    ///
    /// While permutations remain, the output holds one projected value per
    /// input position, in the order the current index state dictates, and
    /// the index state then advances to its lexicographic successor — or
    /// the generator marks itself exhausted when the state was already the
    /// lexicographically last ordering. Once exhausted it stays exhausted
    /// and returns `None` forever, leaving its state untouched.
    pub fn next(&mut self) -> (r: Option<Vec<U>>)
        requires
            old(self).wf(),
            forall|x: &T|
                old(self).data_view().contains(*x) ==> #[trigger] call_requires(
                    old(self).fun(),
                    (x,),
                ),
        ensures
            final(self).wf(),
            final(self).data_view() == old(self).data_view(),
            final(self).fun() == old(self).fun(),
            old(self).is_done() ==> r is None && *final(self) == *old(self),
            !old(self).is_done() ==> (r matches Some(out) && out@.len() == old(
                self,
            ).data_view().len() && (forall|k: int|
                0 <= k < out@.len() ==> call_ensures(
                    old(self).fun(),
                    (&old(self).data_view()[old(self).indices_view()[k] as int],),
                    #[trigger] out@[k],
                ))),
            !old(self).is_done() ==> final(self).indices_view() == (if pivot_of(
                old(self).indices_view(),
            ) > 0 {
                advanced(old(self).indices_view())
            } else {
                old(self).indices_view()
            }),
            !old(self).is_done() ==> (final(self).is_done() <==> is_descending(
                old(self).indices_view(),
            )),
            !old(self).is_done() && !final(self).is_done() ==> lex_lt(
                old(self).indices_view(),
                final(self).indices_view(),
            ),
            r is Some <==> old(self).remaining() > 0,
            !old(self).is_done() ==> final(self).remaining() == old(self).remaining() - 1,
    {
        if self.done {
            return None;
        }
        let data = self.data;
        let len = self.indices.len();
        let mut out: Vec<U> = Vec::new();
        let mut k: usize = 0;
        while k < len
            invariant
                k <= len,
                len == self.indices@.len(),
                data == self.data,
                self.wf(),
                forall|x: &T|
                    self.data_view().contains(*x) ==> #[trigger] call_requires(
                        self.fun(),
                        (x,),
                    ),
                out@.len() == k,
                forall|m: int|
                    0 <= m < k ==> call_ensures(
                        self.fun(),
                        (&self.data_view()[self.indices_view()[m] as int],),
                        #[trigger] out@[m],
                    ),
            decreases len - k,
        {
            let idx = self.indices[k];
            let elem = vstd::slice::slice_index_get(data, idx);
            proof {
                assert(self.data_view()[idx as int] == *elem);
                assert(self.data_view().contains(*elem));
                assert(call_requires(self.fun(), (elem,)));
            }
            out.push((self.accessor)(elem));
            k += 1;
        }
        let ghost s0 = self.indices_view();
        let moved = advance_indices(&mut self.indices);
        proof {
            lemma_pivot_zero_iff_descending(s0);
            lemma_rank_bound(s0);
            if moved {
                lemma_rank_advanced(s0);
            } else {
                lemma_rank_descending(s0);
            }
        }
        if !moved {
            self.done = true;
        }
        Some(out)
    }
}

/// Replaces the index state by its lexicographic successor, the standard
/// in-place next-permutation step: find the pivot, swap its left neighbour
/// with the rightmost larger entry, reverse the suffix. Returns `false`,
/// leaving the state untouched, when the state is already the
/// lexicographically last ordering.
#[verifier::rlimit(50)]
fn advance_indices(v: &mut Vec<usize>) -> (moved: bool)
    requires
        is_index_perm(old(v)@, old(v)@.len()),
    ensures
        is_index_perm(final(v)@, old(v)@.len()),
        moved == (pivot_of(old(v)@) > 0),
        moved ==> final(v)@ == advanced(old(v)@) && lex_lt(old(v)@, final(v)@),
        !moved ==> final(v)@ == old(v)@ && is_descending(old(v)@),
{
    let ghost s = v@;
    let n = v.len();
    if n == 0 {
        return false;
    }
    let mut i: usize = n - 1;
    while i > 0 && v[i - 1] >= v[i]
        invariant
            i <= n - 1,
            n == s.len(),
            v@ == s,
            pivot_from(s, n - 1) == pivot_from(s, i as int),
        decreases i,
    {
        i -= 1;
    }
    proof {
        lemma_pivot_from_props(s, n - 1);
    }
    if i == 0 {
        proof {
            lemma_pivot_zero_iff_descending(s);
        }
        return false;
    }
    let ghost p = i as int;
    proof {
        lemma_succ_from_props(s, p, n - 1);
    }
    let mut j: usize = n - 1;
    while v[j] <= v[i - 1]
        invariant
            i <= j <= n - 1,
            0 < i < n,
            n == s.len(),
            v@ == s,
            p == i as int,
            s[p - 1] < s[p],
            succ_from(s, p, n - 1) == succ_from(s, p, j as int),
        decreases j,
    {
        j -= 1;
    }
    let ghost q = j as int;
    let vi = v[i - 1];
    let vj = v[j];
    v.set(i - 1, vj);
    v.set(j, vi);
    let ghost t = swapped(s);
    proof {
        assert(succ_of(s) == q);
        assert(v@ =~= t);
    }
    let mut lo: usize = i;
    let mut hi: usize = n - 1;
    while lo < hi
        invariant
            i <= lo,
            hi < n,
            lo + hi == i + n - 1,
            0 < i < n,
            n == t.len(),
            v@.len() == n,
            forall|m: int| 0 <= m < i ==> v@[m] == t[m],
            forall|m: int| lo <= m <= hi ==> v@[m] == t[m],
            forall|m: int| i <= m < lo ==> v@[m] == t[i + n - 1 - m],
            forall|m: int| hi < m < n ==> v@[m] == t[i + n - 1 - m],
        decreases hi,
    {
        let a = v[lo];
        let b = v[hi];
        v.set(lo, b);
        v.set(hi, a);
        lo += 1;
        hi -= 1;
    }
    proof {
        lemma_advanced_index(s);
        assert(v@ =~= advanced(s));
        lemma_advanced_props(s);
    }
    true
}

} // verus!
