//! Counting the enumeration: every index ordering has a rank — its
//! position in the lexicographic enumeration of all orderings — and the
//! advancement step moves the rank up by exactly one. Since the identity
//! ordering has rank `0`, the last (descending) ordering has rank
//! `n! - 1`, and every rank is below `n!`, enumerating to exhaustion
//! yields exactly `n!` outputs.
use crate::order::{is_index_perm, lemma_adjacent_ge_monotone, lemma_adjacent_lt_monotone};
use vstd::prelude::*;

verus! {

/// `n!`, the number of orderings of `n` positions.
pub open spec fn factorial(n: nat) -> nat
    decreases n,
{
    if n == 0 {
        1
    } else {
        n * factorial((n - 1) as nat)
    }
}

/// No entry of `s` occurs twice.
pub open spec fn distinct_entries(s: Seq<usize>) -> bool {
    forall|x: int, y: int| 0 <= x < y < s.len() ==> s[x] != s[y]
}

/// The values below `v` that occur in `s` at position `j` or later.
pub open spec fn later_below(s: Seq<usize>, v: usize, j: int) -> Set<int> {
    Set::new(
        |u: int| 0 <= u < v && (exists|m: int| j <= m < s.len() && #[trigger] s[m] == u),
    )
}

/// How many entries below `v` stand at position `j` or later. On a
/// duplicate-free sequence, counting values is counting positions.
pub open spec fn count_later_below(s: Seq<usize>, v: usize, j: int) -> nat {
    later_below(s, v, j).len()
}

/// The rank contributed by positions `i` and later: the entry at each
/// position weighted by how many smaller entries still follow it — the
/// factorial number system, read off a permutation.
pub open spec fn rank_from(s: Seq<usize>, i: int) -> nat
    decreases s.len() - i,
{
    if i < 0 || i >= s.len() {
        0
    } else {
        count_later_below(s, s[i], i + 1) * factorial((s.len() - i - 1) as nat) + rank_from(
            s,
            i + 1,
        )
    }
}

/// The rank of an index ordering: how many orderings of the same positions
/// precede it lexicographically.
pub open spec fn rank_of(s: Seq<usize>) -> nat {
    rank_from(s, 0)
}

/// The value sets are finite and no bigger than the value range.
proof fn lemma_later_below_finite(s: Seq<usize>, v: usize, j: int)
    ensures
        later_below(s, v, j).finite(),
        later_below(s, v, j).len() <= v,
{
    vstd::set_lib::lemma_int_range(0, v as int);
    assert(later_below(s, v, j).subset_of(vstd::set_lib::set_int_range(0, v as int)));
    vstd::set_lib::lemma_len_subset(
        later_below(s, v, j),
        vstd::set_lib::set_int_range(0, v as int),
    );
}

/// Peeling one position off the front of the counted range: position `j`
/// contributes one when its entry is below `v`, nothing otherwise.
proof fn lemma_later_below_step(s: Seq<usize>, v: usize, j: int)
    requires
        distinct_entries(s),
        0 <= j < s.len(),
    ensures
        s[j] < v ==> count_later_below(s, v, j) == count_later_below(s, v, j + 1) + 1,
        s[j] >= v ==> count_later_below(s, v, j) == count_later_below(s, v, j + 1),
{
    lemma_later_below_finite(s, v, j + 1);
    if s[j] < v {
        assert(later_below(s, v, j) =~= later_below(s, v, j + 1).insert(s[j] as int));
        assert(!later_below(s, v, j + 1).contains(s[j] as int));
    } else {
        assert(later_below(s, v, j) =~= later_below(s, v, j + 1));
    }
}

/// Nothing is counted once the range is empty.
proof fn lemma_later_below_empty(s: Seq<usize>, v: usize, j: int)
    requires
        j >= s.len(),
    ensures
        count_later_below(s, v, j) == 0,
{
    assert(later_below(s, v, j) =~= Set::empty());
}

/// The count never exceeds the number of positions in the range.
proof fn lemma_count_later_below_le(s: Seq<usize>, v: usize, j: int)
    requires
        distinct_entries(s),
        0 <= j <= s.len(),
    ensures
        count_later_below(s, v, j) <= s.len() - j,
    decreases s.len() - j,
{
    if j == s.len() {
        lemma_later_below_empty(s, v, j);
    } else {
        lemma_later_below_step(s, v, j);
        lemma_count_later_below_le(s, v, j + 1);
    }
}

/// When every entry from position `j` on is below `v`, all of them are
/// counted.
proof fn lemma_count_all_below(s: Seq<usize>, v: usize, j: int)
    requires
        distinct_entries(s),
        0 <= j <= s.len(),
        forall|m: int| j <= m < s.len() ==> #[trigger] s[m] < v,
    ensures
        count_later_below(s, v, j) == s.len() - j,
    decreases s.len() - j,
{
    if j == s.len() {
        lemma_later_below_empty(s, v, j);
    } else {
        lemma_later_below_step(s, v, j);
        lemma_count_all_below(s, v, j + 1);
    }
}

/// When the entries at least `v` fill `[j, cut)` and the entries below `v`
/// fill `[cut, len)`, the count is the length of the second range.
proof fn lemma_count_split(s: Seq<usize>, v: usize, j: int, cut: int)
    requires
        distinct_entries(s),
        0 <= j <= cut <= s.len(),
        forall|m: int| j <= m < cut ==> #[trigger] s[m] >= v,
        forall|m: int| cut <= m < s.len() ==> #[trigger] s[m] < v,
    ensures
        count_later_below(s, v, j) == s.len() - cut,
    decreases cut - j,
{
    if j == cut {
        lemma_count_all_below(s, v, j);
    } else {
        lemma_later_below_step(s, v, j);
        lemma_count_split(s, v, j + 1, cut);
    }
}

/// The mirror image: when the entries below `v` fill `[j, cut)` and the
/// entries at least `v` fill `[cut, len)`, the count is the length of the
/// first range.
proof fn lemma_count_prefix(s: Seq<usize>, v: usize, j: int, cut: int)
    requires
        distinct_entries(s),
        0 <= j <= cut <= s.len(),
        forall|m: int| j <= m < cut ==> #[trigger] s[m] < v,
        forall|m: int| cut <= m < s.len() ==> #[trigger] s[m] >= v,
    ensures
        count_later_below(s, v, j) == cut - j,
    decreases cut - j,
{
    if j == cut {
        lemma_count_split(s, v, cut, s.len() as int);
    } else {
        lemma_later_below_step(s, v, j);
        lemma_count_prefix(s, v, j + 1, cut);
    }
}

/// A strictly increasing tail contributes nothing to the rank: each of its
/// entries has no smaller entry after it.
proof fn lemma_ascending_tail_rank_zero(s: Seq<usize>, i: int)
    requires
        distinct_entries(s),
        0 <= i <= s.len(),
        forall|m: int| i < m < s.len() ==> s[m - 1] < #[trigger] s[m],
    ensures
        rank_from(s, i) == 0,
    decreases s.len() - i,
{
    if i < s.len() {
        let n = s.len() as int;
        assert forall|m: int| i + 1 <= m < n implies #[trigger] s[m] >= s[i] by {
            lemma_adjacent_lt_monotone(s, i, n - 1, i, m);
        }
        lemma_count_split(s, s[i], i + 1, n);
        lemma_ascending_tail_rank_zero(s, i + 1);
    }
}

/// A non-increasing tail of distinct entries contributes the most a tail
/// of its length can: one less than the factorial of its length.
proof fn lemma_descending_tail_rank(s: Seq<usize>, i: int)
    requires
        distinct_entries(s),
        0 <= i <= s.len(),
        forall|m: int| i < m < s.len() ==> s[m - 1] >= #[trigger] s[m],
    ensures
        rank_from(s, i) + 1 == factorial((s.len() - i) as nat),
    decreases s.len() - i,
{
    if i < s.len() {
        let n = s.len() as int;
        assert forall|m: int| i + 1 <= m < n implies #[trigger] s[m] < s[i] by {
            lemma_adjacent_ge_monotone(s, i, n - 1, i, m);
        }
        lemma_count_all_below(s, s[i], i + 1);
        lemma_descending_tail_rank(s, i + 1);
        let f = factorial((n - i - 1) as nat);
        assert((n - i - 1) * f + (f - 1) == (n - i) * f - 1) by (nonlinear_arith);
    }
}

/// Law: the identity ordering opens the enumeration — its rank is zero.
pub proof fn lemma_rank_identity(n: nat)
    requires
        n <= usize::MAX,
    ensures
        rank_of(crate::order::identity_seq(n)) == 0,
{
    let s = crate::order::identity_seq(n);
    assert(forall|m: int| 0 <= m < n ==> #[trigger] s[m] == m);
    lemma_ascending_tail_rank_zero(s, 0);
}

/// Law: the fully descending ordering closes the enumeration — its rank is
/// the last one, `n! - 1`.
pub proof fn lemma_rank_descending(s: Seq<usize>)
    requires
        distinct_entries(s),
        crate::order::is_descending(s),
    ensures
        rank_of(s) + 1 == factorial(s.len()),
{
    lemma_descending_tail_rank(s, 0);
}

/// Law: no ordering of `n` positions ranks at `n!` or beyond — there are
/// exactly `n!` of them.
pub proof fn lemma_rank_bound(s: Seq<usize>)
    requires
        distinct_entries(s),
    ensures
        rank_of(s) < factorial(s.len()),
{
    lemma_rank_from_bound(s, 0);
}

proof fn lemma_rank_from_bound(s: Seq<usize>, i: int)
    requires
        distinct_entries(s),
        0 <= i <= s.len(),
    ensures
        rank_from(s, i) < factorial((s.len() - i) as nat),
    decreases s.len() - i,
{
    if i < s.len() {
        let n = s.len() as int;
        lemma_count_later_below_le(s, s[i], i + 1);
        lemma_rank_from_bound(s, i + 1);
        let f = factorial((n - i - 1) as nat) as int;
        let c = count_later_below(s, s[i], i + 1) as int;
        assert(c * f + (f - 1) < (n - i) * f) by (nonlinear_arith)
            requires
                c <= n - i - 1,
                f >= 1,
        ;
        assert(f >= 1) by {
            lemma_factorial_at_least_one((n - i - 1) as nat);
        }
    }
}

/// Every factorial is positive.
proof fn lemma_factorial_at_least_one(n: nat)
    ensures
        factorial(n) >= 1,
    decreases n,
{
    if n > 0 {
        lemma_factorial_at_least_one((n - 1) as nat);
        assert(n * factorial((n - 1) as nat) >= 1) by (nonlinear_arith)
            requires
                n >= 1,
                factorial((n - 1) as nat) >= 1,
        ;
    }
}

/// Two sequences that agree position by position before `cut` and value
/// set by value set from `cut` on count the same entries below `v` from
/// any earlier position.
proof fn lemma_later_below_eq_prefix(a: Seq<usize>, b: Seq<usize>, v: usize, j: int, cut: int)
    requires
        a.len() == b.len(),
        0 <= j <= cut <= a.len(),
        forall|m: int| j <= m < cut ==> a[m] == #[trigger] b[m],
        later_below(a, v, cut) == later_below(b, v, cut),
    ensures
        later_below(a, v, j) == later_below(b, v, j),
{
    assert forall|u: int| later_below(a, v, j).contains(u) implies later_below(
        b,
        v,
        j,
    ).contains(u) by {
        let m = choose|m: int| j <= m < a.len() && #[trigger] a[m] == u;
        if m < cut {
            assert(b[m] == u);
        } else {
            assert(later_below(a, v, cut).contains(u));
            assert(later_below(b, v, cut).contains(u));
        }
    }
    assert forall|u: int| later_below(b, v, j).contains(u) implies later_below(
        a,
        v,
        j,
    ).contains(u) by {
        let m = choose|m: int| j <= m < b.len() && #[trigger] b[m] == u;
        if m < cut {
            assert(a[m] == u);
        } else {
            assert(later_below(b, v, cut).contains(u));
            assert(later_below(a, v, cut).contains(u));
        }
    }
    assert(later_below(a, v, j) =~= later_below(b, v, j));
}

/// Carries a fixed rank difference from position `cut` down to position
/// `i`, when the two sequences agree before `cut` and share their tail
/// value sets.
proof fn lemma_rank_from_eq_offset(a: Seq<usize>, b: Seq<usize>, i: int, cut: int, d: int)
    requires
        a.len() == b.len(),
        0 <= i <= cut <= a.len(),
        forall|m: int| i <= m < cut ==> a[m] == #[trigger] b[m],
        forall|v: usize| later_below(a, v, cut) == #[trigger] later_below(b, v, cut),
        rank_from(a, cut) == rank_from(b, cut) + d,
    ensures
        rank_from(a, i) == rank_from(b, i) + d,
    decreases cut - i,
{
    if i < cut {
        lemma_later_below_eq_prefix(a, b, a[i], i + 1, cut);
        lemma_rank_from_eq_offset(a, b, i + 1, cut, d);
    }
}

/// Shared setup for reasoning about one advancement step: the swapped
/// state read entry by entry, and the ordering facts of the old tail.
proof fn lemma_advanced_step_facts(s: Seq<usize>)
    requires
        is_index_perm(s, s.len()),
        crate::order::pivot_of(s) > 0,
    ensures
        ({
            let n = s.len() as int;
            let p = crate::order::pivot_of(s);
            let q = crate::order::succ_of(s);
            let t = crate::order::swapped(s);
            let fin = crate::order::advanced(s);
            &&& 0 < p <= q < n
            &&& distinct_entries(s)
            &&& distinct_entries(fin)
            &&& fin.len() == n && t.len() == n
            &&& s[p - 1] < s[p] && s[q] > s[p - 1]
            &&& t[p - 1] == s[q] && t[q] == s[p - 1]
            &&& (forall|k: int| 0 <= k < n && k != p - 1 && k != q ==> #[trigger] t[k] == s[k])
            &&& (forall|m: int| 0 <= m < p ==> #[trigger] fin[m] == t[m])
            &&& (forall|m: int| p <= m < n ==> #[trigger] fin[m] == t[p + n - 1 - m])
            &&& (forall|a: int, b: int| p <= a <= b < n ==> #[trigger] s[a] >= #[trigger] s[b])
            &&& (forall|m: int| p <= m < q ==> #[trigger] s[m] > s[q])
            &&& (forall|m: int| q < m < n ==> #[trigger] s[m] < s[p - 1])
        }),
{
    let n = s.len() as int;
    let p = crate::order::pivot_of(s);
    crate::order::lemma_pivot_from_props(s, n - 1);
    crate::order::lemma_succ_from_props(s, p, n - 1);
    crate::order::lemma_advanced_index(s);
    crate::order::lemma_advanced_props(s);
    assert forall|a: int, b: int| p <= a <= b < n implies #[trigger] s[a] >= #[trigger] s[b] by {
        lemma_adjacent_ge_monotone(s, p, n - 1, a, b);
    }
}

/// The positions at and after the pivot hold the same values before and
/// after the step — only their order changes.
proof fn lemma_advanced_tail_values(s: Seq<usize>)
    requires
        is_index_perm(s, s.len()),
        crate::order::pivot_of(s) > 0,
    ensures
        forall|v: usize|
            later_below(crate::order::advanced(s), v, crate::order::pivot_of(s) - 1)
                == #[trigger] later_below(s, v, crate::order::pivot_of(s) - 1),
{
    let n = s.len() as int;
    let p = crate::order::pivot_of(s);
    let q = crate::order::succ_of(s);
    let fin = crate::order::advanced(s);
    lemma_advanced_step_facts(s);
    assert forall|v: usize| later_below(fin, v, p - 1) == #[trigger] later_below(
        s,
        v,
        p - 1,
    ) by {
        assert forall|u: int| #[trigger] later_below(fin, v, p - 1).contains(u) implies later_below(
            s,
            v,
            p - 1,
        ).contains(u) by {
            let m = choose|m: int| p - 1 <= m < n && #[trigger] fin[m] == u;
            let k = if m == p - 1 {
                q
            } else if p + n - 1 - m == q {
                p - 1
            } else {
                p + n - 1 - m
            };
            assert(p - 1 <= k < n && s[k] == u);
        }
        assert forall|u: int| #[trigger] later_below(s, v, p - 1).contains(u) implies later_below(
            fin,
            v,
            p - 1,
        ).contains(u) by {
            let k = choose|k: int| p - 1 <= k < n && #[trigger] s[k] == u;
            let m = if k == q {
                p - 1
            } else if k == p - 1 {
                p + n - 1 - q
            } else {
                p + n - 1 - k
            };
            assert(p - 1 <= m < n && fin[m] == u);
        }
        assert(later_below(fin, v, p - 1) =~= later_below(s, v, p - 1));
    }
}

/// From the pivot's left neighbour on, the step raises the rank
/// contribution by exactly one: that position counts one more smaller
/// successor, while the tail falls from its largest contribution to its
/// smallest.
proof fn lemma_advanced_rank_at_pivot(s: Seq<usize>)
    requires
        is_index_perm(s, s.len()),
        crate::order::pivot_of(s) > 0,
    ensures
        rank_from(crate::order::advanced(s), crate::order::pivot_of(s) - 1) == rank_from(
            s,
            crate::order::pivot_of(s) - 1,
        ) + 1,
{
    let n = s.len() as int;
    let p = crate::order::pivot_of(s);
    let q = crate::order::succ_of(s);
    let t = crate::order::swapped(s);
    let fin = crate::order::advanced(s);
    lemma_advanced_step_facts(s);

    // The new tail is strictly increasing: the reversal of a strictly
    // decreasing one.
    crate::order::lemma_advanced_tail_ascending(s);
    lemma_ascending_tail_rank_zero(fin, p);
    lemma_descending_tail_rank(s, p);

    // The pivot position's own count grows by exactly one.
    lemma_count_split(s, s[p - 1], p, q + 1);
    assert(fin[p - 1] == s[q]);
    assert forall|m: int| p <= m < p + n - q implies #[trigger] fin[m] < s[q] by {
        let k = p + n - 1 - m;
        assert(fin[m] == t[k]);
    }
    assert forall|m: int| p + n - q <= m < n implies #[trigger] fin[m] >= s[q] by {
        let k = p + n - 1 - m;
        assert(fin[m] == t[k]);
    }
    lemma_count_prefix(fin, s[q], p, p + n - q);

    let f = factorial((n - p) as nat) as int;
    assert((n - q) * f == (n - q - 1) * f + f) by (nonlinear_arith);
}

/// Law: the advancement step moves the rank up by exactly one — the
/// successor it produces is the very next ordering in the enumeration.
/// Together with the rank of the identity and descending orderings and the
/// rank bound, this pins the total: enumerating from the identity ordering
/// to exhaustion emits exactly `n!` outputs.
pub proof fn lemma_rank_advanced(s: Seq<usize>)
    requires
        is_index_perm(s, s.len()),
        crate::order::pivot_of(s) > 0,
    ensures
        rank_of(crate::order::advanced(s)) == rank_of(s) + 1,
{
    let p = crate::order::pivot_of(s);
    let fin = crate::order::advanced(s);
    lemma_advanced_step_facts(s);
    lemma_advanced_rank_at_pivot(s);
    lemma_advanced_tail_values(s);
    assert(forall|m: int| 0 <= m < p - 1 ==> #[trigger] fin[m] == s[m]);
    lemma_rank_from_eq_offset(fin, s, 0, p - 1, 1);
}

} // verus!
