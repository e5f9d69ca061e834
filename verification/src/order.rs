//! The mathematical model of the index state: which sequences count as a
//! valid index ordering, the lexicographic order on them, and the
//! advancement function that yields the lexicographic successor.
use vstd::prelude::*;

verus! {

/// `s` is an ordering of the positions `0..n`: it has length `n`, every
/// entry is below `n`, and no entry repeats.
pub open spec fn is_index_perm(s: Seq<usize>, n: nat) -> bool {
    &&& s.len() == n
    &&& forall|i: int| 0 <= i < n ==> #[trigger] s[i] < n
    &&& forall|i: int, j: int| 0 <= i < j < n ==> s[i] != s[j]
}

/// The identity ordering `(0, 1, ..., n-1)`.
pub open spec fn identity_seq(n: nat) -> Seq<usize> {
    Seq::new(n, |i: int| i as usize)
}

/// Every adjacent pair is non-increasing, i.e. the sequence as a whole is
/// non-increasing from left to right. On a duplicate-free sequence this is
/// the strictly descending (lexicographically last) ordering.
pub open spec fn is_descending(s: Seq<usize>) -> bool {
    forall|i: int| 0 < i < s.len() ==> #[trigger] s[i - 1] >= s[i]
}

/// Strict lexicographic order on equal-length sequences: at the first
/// differing position, `a` holds the smaller entry.
pub open spec fn lex_lt(a: Seq<usize>, b: Seq<usize>) -> bool {
    exists|k: int|
        0 <= k < a.len() && k < b.len() && a[k] < b[k] && (forall|m: int|
            0 <= m < k ==> a[m] == b[m])
}

/// The pivot search, mirroring a right-to-left scan that starts at position
/// `i` and steps left while the pair at hand is non-increasing. The result
/// is the least position `p` with `s[p - 1] < s[p]` among those scanned, or
/// `0` when every scanned pair is non-increasing.
pub open spec fn pivot_from(s: Seq<usize>, i: int) -> int
    decreases i,
{
    if i <= 0 {
        0
    } else if s[i - 1] >= s[i] {
        pivot_from(s, i - 1)
    } else {
        i
    }
}

/// The pivot position of the whole sequence: `0` means no pivot exists and
/// the sequence is the lexicographically last ordering.
pub open spec fn pivot_of(s: Seq<usize>) -> int {
    if s.len() == 0 {
        0
    } else {
        pivot_from(s, s.len() - 1)
    }
}

/// The successor search: from position `j` step left while the entry does
/// not exceed `s[p - 1]`, stopping at the rightmost position whose entry
/// does (it exists, because `s[p] > s[p - 1]`).
pub open spec fn succ_from(s: Seq<usize>, p: int, j: int) -> int
    decreases j - p,
{
    if j <= p {
        p
    } else if s[j] <= s[p - 1] {
        succ_from(s, p, j - 1)
    } else {
        j
    }
}

/// The position that the advancement step swaps with the pivot's left
/// neighbour.
pub open spec fn succ_of(s: Seq<usize>) -> int {
    succ_from(s, pivot_of(s), s.len() - 1)
}

/// The index state after the swap step: the entry left of the pivot
/// exchanged with the rightmost entry that exceeds it.
pub open spec fn swapped(s: Seq<usize>) -> Seq<usize> {
    let p = pivot_of(s);
    let j = succ_of(s);
    s.update(p - 1, s[j]).update(j, s[p - 1])
}

/// The lexicographic successor of `s`, assuming `pivot_of(s) > 0`: swap the
/// entry left of the pivot with the rightmost larger entry, then reverse the
/// suffix that starts at the pivot.
pub open spec fn advanced(s: Seq<usize>) -> Seq<usize> {
    let p = pivot_of(s);
    let t = swapped(s);
    t.subrange(0, p) + t.subrange(p, t.len() as int).reverse()
}

/// What the pivot search guarantees: the result lies in `[0, k]`, a
/// positive result marks a strictly increasing adjacent pair, and every
/// pair to its right is non-increasing.
pub proof fn lemma_pivot_from_props(s: Seq<usize>, k: int)
    requires
        0 <= k < s.len(),
    ensures
        0 <= pivot_from(s, k) <= k,
        pivot_from(s, k) > 0 ==> s[pivot_from(s, k) - 1] < s[pivot_from(s, k)],
        forall|m: int| pivot_from(s, k) < m <= k ==> s[m - 1] >= #[trigger] s[m],
    decreases k,
{
    if k > 0 && s[k - 1] >= s[k] {
        lemma_pivot_from_props(s, k - 1);
    }
}

/// A sequence whose scanned pairs are all non-increasing has no pivot.
pub proof fn lemma_descending_has_no_pivot(s: Seq<usize>, k: int)
    requires
        0 <= k < s.len(),
        forall|m: int| 0 < m <= k ==> s[m - 1] >= #[trigger] s[m],
    ensures
        pivot_from(s, k) == 0,
    decreases k,
{
    if k > 0 {
        lemma_descending_has_no_pivot(s, k - 1);
    }
}

/// The pivot of the whole sequence vanishes exactly on the non-increasing
/// (lexicographically last) orderings.
pub proof fn lemma_pivot_zero_iff_descending(s: Seq<usize>)
    ensures
        pivot_of(s) == 0 <==> is_descending(s),
{
    if s.len() > 0 {
        lemma_pivot_from_props(s, s.len() - 1);
        if is_descending(s) {
            lemma_descending_has_no_pivot(s, s.len() - 1);
        }
    }
}

/// What the successor search guarantees: starting right of a pivot whose
/// left neighbour is exceeded somewhere, it stops at the rightmost position
/// whose entry exceeds `s[p - 1]`.
pub proof fn lemma_succ_from_props(s: Seq<usize>, p: int, k: int)
    requires
        0 < p <= k < s.len(),
        s[p - 1] < s[p],
    ensures
        p <= succ_from(s, p, k) <= k,
        s[succ_from(s, p, k)] > s[p - 1],
        forall|m: int| succ_from(s, p, k) < m <= k ==> #[trigger] s[m] <= s[p - 1],
    decreases k - p,
{
    if k > p && s[k] <= s[p - 1] {
        lemma_succ_from_props(s, p, k - 1);
    }
}

/// Exchanging two entries of an ordering of `0..n` yields an ordering of
/// `0..n` again.
pub proof fn lemma_swap_preserves_perm(s: Seq<usize>, n: nat, a: int, b: int)
    requires
        is_index_perm(s, n),
        0 <= a < n,
        0 <= b < n,
    ensures
        is_index_perm(s.update(a, s[b]).update(b, s[a]), n),
{
    let t = s.update(a, s[b]).update(b, s[a]);
    assert forall|i: int, j: int| 0 <= i < j < n implies t[i] != t[j] by {
        assert(t[i] == s[if i == b { a } else if i == a { b } else { i }]);
        assert(t[j] == s[if j == b { a } else if j == a { b } else { j }]);
    }
}

/// How `advanced` reads entry by entry: the prefix before the pivot is the
/// swapped state's, the rest is the swapped state's suffix mirrored.
pub proof fn lemma_advanced_index(s: Seq<usize>)
    requires
        0 < pivot_of(s) < s.len(),
    ensures
        advanced(s).len() == s.len(),
        forall|m: int|
            0 <= m < pivot_of(s) ==> #[trigger] advanced(s)[m] == swapped(s)[m],
        forall|m: int|
            pivot_of(s) <= m < s.len() ==> #[trigger] advanced(s)[m] == swapped(s)[pivot_of(s)
                + s.len() - 1 - m],
{
    let p = pivot_of(s);
    let n = s.len() as int;
    lemma_pivot_from_props(s, n - 1);
    lemma_succ_from_props(s, p, n - 1);
    let t = swapped(s);
    assert(t.len() == n);
    assert forall|m: int| p <= m < n implies #[trigger] advanced(s)[m] == t[p + n - 1 - m] by {
        let rev = t.subrange(p, n).reverse();
        assert(advanced(s)[m] == rev[m - p]);
        assert(rev[m - p] == t.subrange(p, n)[n - p - 1 - (m - p)]);
    }
}

/// The advancement step is sound: on any ordering of `0..n` that still has
/// a pivot, it yields an ordering of `0..n` again, and a lexicographically
/// greater one.
pub proof fn lemma_advanced_props(s: Seq<usize>)
    requires
        is_index_perm(s, s.len()),
        pivot_of(s) > 0,
    ensures
        is_index_perm(advanced(s), s.len()),
        lex_lt(s, advanced(s)),
{
    let n = s.len() as int;
    let p = pivot_of(s);
    lemma_pivot_from_props(s, n - 1);
    lemma_succ_from_props(s, p, n - 1);
    let q = succ_of(s);
    let t = swapped(s);
    lemma_swap_preserves_perm(s, s.len(), p - 1, q);
    lemma_advanced_index(s);
    let fin = advanced(s);
    assert forall|a: int, b: int| 0 <= a < b < n implies fin[a] != fin[b] by {
        let sa = if a < p { a } else { p + n - 1 - a };
        let sb = if b < p { b } else { p + n - 1 - b };
        assert(fin[a] == t[sa]);
        assert(fin[b] == t[sb]);
    }
    assert forall|m: int| 0 <= m < n implies #[trigger] fin[m] < n by {
        let sm = if m < p { m } else { p + n - 1 - m };
        assert(fin[m] == t[sm]);
    }
    assert(lex_lt(s, fin)) by {
        assert(forall|m: int| 0 <= m < p - 1 ==> s[m] == #[trigger] fin[m]);
        assert(fin[p - 1] == t[p - 1]);
        assert(s[p - 1] < fin[p - 1]);
    }
}

/// Position `v` occurs in `s` at position `j` or later.
pub open spec fn appears_from(s: Seq<usize>, v: usize, j: int) -> bool {
    exists|m: int| j <= m < s.len() && #[trigger] s[m] == v
}

/// Position `v` occurs somewhere in `s`.
pub open spec fn appears(s: Seq<usize>, v: usize) -> bool {
    appears_from(s, v, 0)
}

/// Within a segment whose adjacent pairs are non-increasing, entries
/// farther right are no larger.
pub proof fn lemma_adjacent_ge_monotone(s: Seq<usize>, lo: int, hi: int, a: int, b: int)
    requires
        0 <= lo <= a <= b <= hi < s.len(),
        forall|m: int| lo < m <= hi ==> s[m - 1] >= #[trigger] s[m],
    ensures
        s[a] >= s[b],
    decreases b - a,
{
    if a < b {
        lemma_adjacent_ge_monotone(s, lo, hi, a + 1, b);
    }
}

/// Within a segment whose adjacent pairs are strictly increasing, entries
/// farther right are no smaller.
pub proof fn lemma_adjacent_lt_monotone(s: Seq<usize>, lo: int, hi: int, a: int, b: int)
    requires
        0 <= lo <= a <= b <= hi < s.len(),
        forall|m: int| lo < m <= hi ==> s[m - 1] < #[trigger] s[m],
    ensures
        s[a] <= s[b],
    decreases b - a,
{
    if a < b {
        lemma_adjacent_lt_monotone(s, lo, hi, a + 1, b);
    }
}

/// Law: an ordering of `0..n` is a bijection on the positions. That no
/// position occurs twice is `is_index_perm` itself; this lemma adds that
/// none is skipped: every position below `n` occurs somewhere.
pub proof fn lemma_index_perm_hits_every_position(s: Seq<usize>, n: nat)
    requires
        is_index_perm(s, n),
    ensures
        forall|v: usize| v < n ==> #[trigger] appears(s, v),
{
    broadcast use vstd::set::group_set_axioms;
    broadcast use vstd::seq_lib::seq_to_set_is_finite;

    let si = s.map_values(|x: usize| x as int);
    assert(si.no_duplicates());
    si.unique_seq_to_set();
    assert forall|v: usize| v < n implies #[trigger] appears(s, v) by {
        if !appears(s, v) {
            let big = vstd::set_lib::set_int_range(0, n as int);
            vstd::set_lib::lemma_int_range(0, n as int);
            let small = big.remove(v as int);
            assert forall|u: int| si.to_set().contains(u) implies small.contains(u) by {
                let i = choose|i: int| 0 <= i < si.len() && si[i] == u;
                assert(s[i] < n);
                assert(s[i] != v);
            }
            vstd::set_lib::lemma_len_subset(si.to_set(), small);
            assert(false);
        }
    }
}

/// One direction of `lemma_equal_prefix_same_tail_values`.
proof fn lemma_equal_prefix_tail_values_one_way(x: Seq<usize>, y: Seq<usize>, d: int, v: usize)
    requires
        is_index_perm(x, x.len()),
        is_index_perm(y, y.len()),
        x.len() == y.len(),
        0 <= d <= x.len(),
        forall|m: int| 0 <= m < d ==> x[m] == #[trigger] y[m],
        appears_from(x, v, d),
    ensures
        appears_from(y, v, d),
{
    let n = x.len() as int;
    let m1 = choose|m: int| d <= m < n && #[trigger] x[m] == v;
    lemma_index_perm_hits_every_position(y, y.len());
    assert(appears(y, v));
    let m2 = choose|m: int| 0 <= m < n && #[trigger] y[m] == v;
    if m2 < d {
        assert(x[m2] == v);
        assert(false);
    }
}

/// Two orderings of `0..n` that agree before position `d` hold the same
/// values from position `d` on — only their arrangement can differ.
pub proof fn lemma_equal_prefix_same_tail_values(x: Seq<usize>, y: Seq<usize>, d: int)
    requires
        is_index_perm(x, x.len()),
        is_index_perm(y, y.len()),
        x.len() == y.len(),
        0 <= d <= x.len(),
        forall|m: int| 0 <= m < d ==> x[m] == #[trigger] y[m],
    ensures
        forall|v: usize| appears_from(x, v, d) <==> #[trigger] appears_from(y, v, d),
{
    assert forall|v: usize|
        appears_from(x, v, d) <==> #[trigger] appears_from(y, v, d) by {
        if appears_from(x, v, d) {
            lemma_equal_prefix_tail_values_one_way(x, y, d, v);
        }
        if appears_from(y, v, d) {
            lemma_equal_prefix_tail_values_one_way(y, x, d, v);
        }
    }
}

/// An ordering whose tail from `e` on is in increasing order is the
/// lexicographically least among the orderings of the same positions that
/// share its first `e` entries.
proof fn lemma_sorted_tail_minimal(x: Seq<usize>, u: Seq<usize>, e: int)
    requires
        is_index_perm(x, x.len()),
        is_index_perm(u, u.len()),
        u.len() == x.len(),
        0 <= e <= x.len(),
        forall|m: int| e < m < x.len() ==> x[m - 1] < #[trigger] x[m],
        forall|m: int| 0 <= m < e ==> x[m] == #[trigger] u[m],
    ensures
        u == x || lex_lt(x, u),
    decreases x.len() - e,
{
    let n = x.len() as int;
    if e == n {
        assert(x =~= u);
    } else if x[e] == u[e] {
        lemma_sorted_tail_minimal(x, u, e + 1);
    } else {
        lemma_equal_prefix_same_tail_values(u, x, e);
        assert(appears_from(u, u[e], e));
        assert(appears_from(x, u[e], e));
        let m = choose|m: int| e <= m < n && #[trigger] x[m] == u[e];
        lemma_adjacent_lt_monotone(x, e, n - 1, e, m);
        assert(x[e] < u[e]);
        assert(lex_lt(x, u));
    }
}

/// After the swap, the suffix that the advancement reverses is strictly
/// decreasing, so the advancement's tail from the pivot on is strictly
/// increasing.
pub proof fn lemma_advanced_tail_ascending(s: Seq<usize>)
    requires
        is_index_perm(s, s.len()),
        pivot_of(s) > 0,
    ensures
        forall|m: int|
            pivot_of(s) < m < s.len() ==> advanced(s)[m - 1] < #[trigger] advanced(s)[m],
{
    let n = s.len() as int;
    let p = pivot_of(s);
    let q = succ_of(s);
    let t = swapped(s);
    let fin = advanced(s);
    lemma_pivot_from_props(s, n - 1);
    lemma_succ_from_props(s, p, n - 1);
    lemma_advanced_index(s);
    assert forall|m: int| p <= m < q implies #[trigger] s[m] > s[q] by {
        lemma_adjacent_ge_monotone(s, p, n - 1, m, q);
    }
    assert(forall|m: int| q < m < n ==> #[trigger] s[m] < s[p - 1]);
    assert forall|k: int| p <= k < n - 1 implies #[trigger] t[k] > t[k + 1] by {
        if k != q && k + 1 != q {
            assert(t[k] == s[k] && t[k + 1] == s[k + 1]);
        }
    }
    assert forall|m: int| p < m < n implies fin[m - 1] < #[trigger] fin[m] by {
        let k = p + n - 1 - m;
        assert(fin[m] == t[k]);
        assert(fin[m - 1] == t[k + 1]);
        assert(t[k] > t[k + 1]);
    }
}

/// An ordering that exceeds `s` cannot first differ from it at the pivot
/// or beyond: there the old tail is descending, so each of its entries is
/// the largest value still available.
proof fn lemma_first_diff_before_pivot(s: Seq<usize>, u: Seq<usize>, d: int)
    requires
        is_index_perm(s, s.len()),
        is_index_perm(u, u.len()),
        u.len() == s.len(),
        pivot_of(s) > 0,
        0 <= d < s.len(),
        s[d] < u[d],
        forall|m: int| 0 <= m < d ==> s[m] == #[trigger] u[m],
    ensures
        d < pivot_of(s),
{
    let n = s.len() as int;
    let p = pivot_of(s);
    lemma_pivot_from_props(s, n - 1);
    if d >= p {
        lemma_equal_prefix_same_tail_values(u, s, d);
        assert(appears_from(u, u[d], d));
        assert(appears_from(s, u[d], d));
        let m = choose|m: int| d <= m < n && #[trigger] s[m] == u[d];
        lemma_adjacent_ge_monotone(s, p, n - 1, d, m);
        assert(false);
    }
}

/// Law: the advancement step yields the immediate lexicographic successor —
/// among the orderings of the same positions, none lies strictly between an
/// ordering and its advancement.
pub proof fn lemma_advanced_is_immediate_successor(s: Seq<usize>, u: Seq<usize>)
    requires
        is_index_perm(s, s.len()),
        is_index_perm(u, u.len()),
        u.len() == s.len(),
        pivot_of(s) > 0,
        lex_lt(s, u),
    ensures
        u == advanced(s) || lex_lt(advanced(s), u),
{
    let n = s.len() as int;
    let p = pivot_of(s);
    let q = succ_of(s);
    let t = swapped(s);
    let fin = advanced(s);
    lemma_pivot_from_props(s, n - 1);
    lemma_succ_from_props(s, p, n - 1);
    lemma_advanced_index(s);
    lemma_advanced_props(s);
    let d = choose|k: int|
        0 <= k < n && s[k] < u[k] && (forall|m: int| 0 <= m < k ==> s[m] == u[m]);
    lemma_first_diff_before_pivot(s, u, d);
    if d < p - 1 {
        assert(fin[d] == t[d]);
        assert(fin[d] == s[d]);
        assert(forall|m: int| 0 <= m < d ==> #[trigger] fin[m] == s[m]);
        assert(lex_lt(fin, u));
    } else {
        // The first difference sits just left of the pivot. The advancement
        // puts the smallest available larger value there, so `u` holds that
        // value or a larger one.
        lemma_equal_prefix_same_tail_values(u, s, p - 1);
        assert(appears_from(u, u[p - 1], p - 1));
        assert(appears_from(s, u[p - 1], p - 1));
        let m = choose|m: int| p - 1 <= m < n && #[trigger] s[m] == u[p - 1];
        assert(m != p - 1);
        if m > q {
            assert(s[m] <= s[p - 1]);
            assert(false);
        }
        lemma_adjacent_ge_monotone(s, p, n - 1, if m < q { m } else { q }, q);
        assert(u[p - 1] >= s[q]);
        assert(fin[p - 1] == t[p - 1]);
        assert(fin[p - 1] == s[q]);
        assert(forall|m2: int| 0 <= m2 < p - 1 ==> #[trigger] fin[m2] == s[m2]);
        if u[p - 1] > s[q] {
            assert(lex_lt(fin, u));
        } else {
            // `u` and the advancement agree through the pivot's left
            // neighbour; past it the advancement's tail is sorted, hence
            // least.
            lemma_advanced_tail_ascending(s);
            lemma_sorted_tail_minimal(fin, u, p);
        }
    }
}

/// Law: two generators over the same input, driven in lockstep, emit
/// value-equal outputs whenever both projections hand each selected
/// element's value through — even though one output may alias the input
/// while the other does not. The lockstep itself is forced by the
/// advancement contract: the successor state is a function of the index
/// state alone, never of the projection. Here `out1` and `out2` are one
/// step's outputs, each constrained exactly as the producing call's
/// postcondition constrains them.
pub proof fn lemma_projection_equivalence<'a, T: 'a, F1, F2>(
    f1: F1,
    f2: F2,
    data: Seq<T>,
    s: Seq<usize>,
    out1: Seq<T>,
    out2: Seq<T>,
) where F1: Fn(&'a T) -> T, F2: Fn(&'a T) -> T
    requires
        is_index_perm(s, data.len()),
        forall|x: &'a T, r: T| #[trigger] call_ensures(f1, (x,), r) ==> r == *x,
        forall|x: &'a T, r: T| #[trigger] call_ensures(f2, (x,), r) ==> r == *x,
        out1.len() == s.len(),
        out2.len() == s.len(),
        forall|k: int|
            0 <= k < s.len() ==> call_ensures(f1, (&data[s[k] as int],), #[trigger] out1[k]),
        forall|k: int|
            0 <= k < s.len() ==> call_ensures(f2, (&data[s[k] as int],), #[trigger] out2[k]),
    ensures
        out1 == out2,
{
    assert forall|k: int| 0 <= k < s.len() implies #[trigger] out1[k] == out2[k] by {
        assert(out1[k] == data[s[k] as int]);
        assert(out2[k] == data[s[k] as int]);
    }
    assert(out1 =~= out2);
}

} // verus!
