//! Strictly increasing series of indices, enumerated in lexicographic order.
//!
//! A series of `n` values below `size` picks `n` of `size` slots; there are
//! `binomial(size, n)` of them. The enumeration is defined mathematically
//! ([`all_series`]) and produced lazily by [`IncreasingSeriesGenerator`],
//! which steps from one series to the next in place.

use vstd::prelude::*;

verus! {

/// The binomial coefficient "`n` choose `k`", by Pascal's rule.
pub open spec fn binomial(n: nat, k: nat) -> nat
    decreases n,
{
    if k == 0 {
        1
    } else if n == 0 {
        0
    } else {
        binomial((n - 1) as nat, (k - 1) as nat) + binomial((n - 1) as nat, k)
    }
}

/// `s` holds `n` strictly increasing values, all of them in `lo..size`.
pub open spec fn is_series(s: Seq<usize>, n: nat, lo: int, size: int) -> bool {
    &&& s.len() == n
    &&& forall|i: int| 0 <= i < s.len() ==> lo <= #[trigger] s[i] < size
    &&& forall|i: int, j: int| 0 <= i < j < s.len() ==> s[i] < s[j]
}

/// `s` with `first` put in front.
pub open spec fn with_first(first: int, s: Seq<usize>) -> Seq<usize> {
    seq![first as usize] + s
}

/// Every strictly increasing series of `n` values in `lo..size`, in
/// lexicographic order: first those that start with `lo`, then the others.
pub open spec fn series_from(lo: int, n: nat, size: int) -> Seq<Seq<usize>>
    decreases n, size - lo,
{
    if n == 0 {
        seq![Seq::<usize>::empty()]
    } else if lo + n > size {
        Seq::<Seq<usize>>::empty()
    } else {
        series_from(lo + 1, (n - 1) as nat, size).map_values(|s: Seq<usize>| with_first(lo, s))
            + series_from(lo + 1, n, size)
    }
}

/// Every strictly increasing series of `n` values below `size`, in
/// lexicographic order.
pub open spec fn all_series(n: nat, size: nat) -> Seq<Seq<usize>> {
    series_from(0, n, size as int)
}

/// The least series of `n` values that starts at `lo`: `lo, lo + 1, ...`.
pub open spec fn least_series(lo: int, n: nat) -> Seq<usize> {
    Seq::new(n, |j: int| (lo + j) as usize)
}

/// The bound that the value at index `i` has to stay below: the next value
/// of the series, or `size` for the last one.
pub open spec fn upper(s: Seq<usize>, i: int, size: int) -> int {
    if i == s.len() - 1 {
        size
    } else {
        s[i + 1] as int
    }
}

/// The value at index `i` can grow by one without reaching its bound.
pub open spec fn can_advance(s: Seq<usize>, i: int, size: int) -> bool {
    s[i] + 1 < upper(s, i, size)
}

/// `s` after the value at index `i` has grown by one and the values behind
/// it have been reset to the least increasing continuation.
pub open spec fn advance(s: Seq<usize>, i: int) -> Seq<usize> {
    Seq::new(
        s.len(),
        |j: int|
            if j < i {
                s[j]
            } else {
                (s[i] + 1 + (j - i)) as usize
            },
    )
}

/// `a` comes strictly before `b` in lexicographic order.
pub open spec fn lex_less(a: Seq<usize>, b: Seq<usize>) -> bool {
    exists|k: int|
        0 <= k < a.len() && k < b.len() && #[trigger] a[k] < b[k] && (forall|j: int|
            0 <= j < k ==> a[j] == b[j])
}

/// There is no way to choose more than there is.
pub proof fn lemma_binomial_zero(n: nat, k: nat)
    requires
        n < k,
    ensures
        binomial(n, k) == 0,
    decreases n,
{
    if n > 0 {
        lemma_binomial_zero((n - 1) as nat, (k - 1) as nat);
        lemma_binomial_zero((n - 1) as nat, k);
    }
}

/// The enumeration has `binomial(size - lo, n)` entries.
pub proof fn lemma_series_count(lo: int, n: nat, size: int)
    requires
        0 <= lo <= size,
    ensures
        series_from(lo, n, size).len() == binomial((size - lo) as nat, n),
    decreases n, size - lo,
{
    if n == 0 {
    } else if lo + n > size {
        lemma_binomial_zero((size - lo) as nat, n);
    } else {
        lemma_series_count(lo + 1, (n - 1) as nat, size);
        lemma_series_count(lo + 1, n, size);
    }
}

/// Every entry of the enumeration is a strictly increasing series in range.
pub proof fn lemma_series_valid(lo: int, n: nat, size: int, idx: int)
    requires
        0 <= lo,
        size <= usize::MAX,
        0 <= idx < series_from(lo, n, size).len(),
    ensures
        is_series(series_from(lo, n, size)[idx], n, lo, size),
    decreases n, size - lo,
{
    if n == 0 {
    } else {
        let heads = series_from(lo + 1, (n - 1) as nat, size);
        let rest = series_from(lo + 1, n, size);
        if idx < heads.len() {
            lemma_series_valid(lo + 1, (n - 1) as nat, size, idx);
            let s = with_first(lo, heads[idx]);
            assert(series_from(lo, n, size)[idx] == s);
            assert forall|i: int| 0 <= i < s.len() implies lo <= #[trigger] s[i] < size by {
                if i > 0 {
                    assert(s[i] == heads[idx][i - 1]);
                }
            }
            assert forall|i: int, j: int| 0 <= i < j < s.len() implies s[i] < s[j] by {
                assert(s[j] == heads[idx][j - 1]);
                if i > 0 {
                    assert(s[i] == heads[idx][i - 1]);
                }
            }
        } else {
            lemma_series_valid(lo + 1, n, size, idx - heads.len());
            assert(series_from(lo, n, size)[idx] == rest[idx - heads.len()]);
        }
    }
}

/// Where there is room for `n` values, the enumeration starts with the least
/// series.
pub proof fn lemma_series_first(lo: int, n: nat, size: int)
    requires
        0 <= lo,
        lo + n <= size <= usize::MAX,
    ensures
        series_from(lo, n, size).len() > 0,
        series_from(lo, n, size)[0] == least_series(lo, n),
    decreases n,
{
    if n == 0 {
        assert(series_from(lo, n, size)[0] =~= least_series(lo, n));
    } else {
        lemma_series_first(lo + 1, (n - 1) as nat, size);
        let heads = series_from(lo + 1, (n - 1) as nat, size);
        assert(series_from(lo, n, size)[0] == with_first(lo, heads[0]));
        assert(with_first(lo, least_series(lo + 1, (n - 1) as nat)) =~= least_series(lo, n));
    }
}

/// Where no value from index `i` on can advance, those values are the
/// largest that there are.
pub proof fn lemma_stuck_is_greatest(s: Seq<usize>, n: nat, lo: int, size: int, i: int)
    requires
        is_series(s, n, lo, size),
        forall|j: int| i <= j < n ==> !can_advance(s, j, size),
        0 <= i < n,
    ensures
        s[i] == size - n + i,
    decreases n - i,
{
    assert(!can_advance(s, i, size));
    if i < n - 1 {
        lemma_stuck_is_greatest(s, n, lo, size, i + 1);
    }
}

/// Advancing at the last index that can advance gives a series in range
/// again.
pub proof fn lemma_advance_valid(s: Seq<usize>, n: nat, lo: int, size: int, i: int)
    requires
        is_series(s, n, lo, size),
        size <= usize::MAX,
        0 <= i < n,
        can_advance(s, i, size),
        forall|j: int| i < j < n ==> !can_advance(s, j, size),
    ensures
        is_series(advance(s, i), n, lo, size),
        forall|k: int| i <= k < n ==> advance(s, i)[k] == s[i] + 1 + (k - i),
{
    if i + 1 < n {
        lemma_stuck_is_greatest(s, n, lo, size, i + 1);
    }
    let t = advance(s, i);
    assert forall|k: int| i <= k < n implies t[k] == s[i] + 1 + (k - i) by {}
    assert forall|a: int, b: int| 0 <= a < b < t.len() implies t[a] < t[b] by {
        if a < i {
            assert(s[a] < s[i]);
        }
    }
}

/// Stepping in place follows the enumeration: where `i` is the last index
/// whose value can advance, the entry after `idx` is the entry at `idx`
/// advanced at `i`.
pub proof fn lemma_series_successor(lo: int, n: nat, size: int, idx: int, i: int)
    requires
        0 <= lo,
        size <= usize::MAX,
        0 <= idx < series_from(lo, n, size).len(),
        0 <= i < n,
        can_advance(series_from(lo, n, size)[idx], i, size),
        forall|j: int| i < j < n ==> !can_advance(series_from(lo, n, size)[idx], j, size),
    ensures
        idx + 1 < series_from(lo, n, size).len(),
        series_from(lo, n, size)[idx + 1] == advance(series_from(lo, n, size)[idx], i),
    decreases n, size - lo,
{
    let all = series_from(lo, n, size);
    let heads = series_from(lo + 1, (n - 1) as nat, size);
    let rest = series_from(lo + 1, n, size);
    let s = all[idx];
    if idx < heads.len() {
        let t = heads[idx];
        assert(s == with_first(lo, t));
        lemma_series_valid(lo + 1, (n - 1) as nat, size, idx);
        assert forall|j: int| 0 <= j < n - 1 implies can_advance(t, j, size) == can_advance(
            s,
            j + 1,
            size,
        ) by {
            assert(s[j + 1] == t[j]);
            if j + 1 < n - 1 {
                assert(s[j + 2] == t[j + 1]);
            }
        }
        if i >= 1 {
            lemma_series_successor(lo + 1, (n - 1) as nat, size, idx, i - 1);
            assert(all[idx + 1] == with_first(lo, heads[idx + 1]));
            assert(with_first(lo, advance(t, i - 1)) =~= advance(s, i));
        } else {
            lemma_series_final(lo + 1, (n - 1) as nat, size, idx);
            if n > 1 {
                lemma_stuck_is_greatest(t, (n - 1) as nat, lo + 1, size, 0);
                assert(s[1] == t[0]);
            }
            assert(lo + 1 + n <= size);
            lemma_series_first(lo + 1, n, size);
            assert(all[idx + 1] == rest[0]);
            assert(least_series(lo + 1, n) =~= advance(s, 0));
        }
    } else {
        assert(s == rest[idx - heads.len()]);
        lemma_series_successor(lo + 1, n, size, idx - heads.len(), i);
        assert(all[idx + 1] == rest[idx + 1 - heads.len()]);
    }
}

/// An entry in which no value can advance is the last of the enumeration.
pub proof fn lemma_series_final(lo: int, n: nat, size: int, idx: int)
    requires
        0 <= lo,
        size <= usize::MAX,
        0 <= idx < series_from(lo, n, size).len(),
        forall|j: int| 0 <= j < n ==> !can_advance(series_from(lo, n, size)[idx], j, size),
    ensures
        idx + 1 == series_from(lo, n, size).len(),
    decreases n, size - lo,
{
    if n > 0 {
        let all = series_from(lo, n, size);
        let heads = series_from(lo + 1, (n - 1) as nat, size);
        let rest = series_from(lo + 1, n, size);
        let s = all[idx];
        if idx < heads.len() {
            let t = heads[idx];
            assert(s == with_first(lo, t));
            lemma_series_valid(lo + 1, (n - 1) as nat, size, idx);
            assert forall|j: int| 0 <= j < n - 1 implies !can_advance(t, j, size) by {
                assert(s[j + 1] == t[j]);
                if j + 1 < n - 1 {
                    assert(s[j + 2] == t[j + 1]);
                }
                assert(!can_advance(s, j + 1, size));
            }
            lemma_series_final(lo + 1, (n - 1) as nat, size, idx);
            if n > 1 {
                lemma_stuck_is_greatest(t, (n - 1) as nat, lo + 1, size, 0);
                assert(s[1] == t[0]);
            }
            assert(!can_advance(s, 0, size));
            assert(lo + 1 + n > size);
        } else {
            assert(s == rest[idx - heads.len()]);
            lemma_series_final(lo + 1, n, size, idx - heads.len());
        }
    }
}

/// Every strictly increasing series in range is an entry of the enumeration.
pub proof fn lemma_series_complete(lo: int, n: nat, size: int, s: Seq<usize>) -> (idx: int)
    requires
        0 <= lo,
        size <= usize::MAX,
        is_series(s, n, lo, size),
    ensures
        0 <= idx < series_from(lo, n, size).len(),
        series_from(lo, n, size)[idx] == s,
    decreases n, size - lo,
{
    if n == 0 {
        assert(s =~= Seq::<usize>::empty());
        0
    } else {
        let heads = series_from(lo + 1, (n - 1) as nat, size);
        let rest = series_from(lo + 1, n, size);
        assert(s[n - 1] < size);
        assert(lo + n <= size) by {
            lemma_series_spread(s, n, lo, size, n - 1);
        }
        if s[0] == lo {
            let t = s.skip(1);
            assert(is_series(t, (n - 1) as nat, lo + 1, size)) by {
                assert forall|i: int| 0 <= i < t.len() implies lo + 1 <= #[trigger] t[i]
                    < size by {
                    assert(t[i] == s[i + 1]);
                    assert(s[0] < s[i + 1]);
                }
            }
            let k = lemma_series_complete(lo + 1, (n - 1) as nat, size, t);
            assert(with_first(lo, t) =~= s);
            k
        } else {
            assert(is_series(s, n, lo + 1, size)) by {
                assert forall|i: int| 0 <= i < s.len() implies lo + 1 <= #[trigger] s[i]
                    < size by {
                    if i > 0 {
                        assert(s[0] < s[i]);
                    }
                }
            }
            let k = lemma_series_complete(lo + 1, n, size, s);
            heads.len() + k
        }
    }
}

/// The value at index `i` of a series that starts at `lo` or later is at
/// least `lo + i`.
pub proof fn lemma_series_spread(s: Seq<usize>, n: nat, lo: int, size: int, i: int)
    requires
        is_series(s, n, lo, size),
        0 <= i < n,
    ensures
        lo + i <= s[i],
    decreases i,
{
    if i > 0 {
        lemma_series_spread(s, n, lo, size, i - 1);
        assert(s[i - 1] < s[i]);
    }
}

/// The enumeration is strictly increasing in lexicographic order.
pub proof fn lemma_series_sorted(lo: int, n: nat, size: int, a: int, b: int)
    requires
        0 <= lo,
        size <= usize::MAX,
        0 <= a < b < series_from(lo, n, size).len(),
    ensures
        lex_less(series_from(lo, n, size)[a], series_from(lo, n, size)[b]),
    decreases n, size - lo,
{
    if n > 0 {
        let all = series_from(lo, n, size);
        let heads = series_from(lo + 1, (n - 1) as nat, size);
        let rest = series_from(lo + 1, n, size);
        let x = all[a];
        let y = all[b];
        if b < heads.len() {
            lemma_series_sorted(lo + 1, (n - 1) as nat, size, a, b);
            let k = choose|k: int|
                0 <= k < heads[a].len() && k < heads[b].len() && #[trigger] heads[a][k]
                    < heads[b][k] && (forall|j: int| 0 <= j < k ==> heads[a][j] == heads[b][j]);
            assert(x == with_first(lo, heads[a]));
            assert(y == with_first(lo, heads[b]));
            assert(x[k + 1] < y[k + 1]);
            assert forall|j: int| 0 <= j < k + 1 implies x[j] == y[j] by {
                if j > 0 {
                    assert(x[j] == heads[a][j - 1]);
                    assert(y[j] == heads[b][j - 1]);
                }
            }
        } else if a < heads.len() {
            assert(x == with_first(lo, heads[a]));
            assert(y == rest[b - heads.len()]);
            lemma_series_valid(lo + 1, n, size, b - heads.len());
            assert(x[0] < y[0]);
        } else {
            lemma_series_sorted(lo + 1, n, size, a - heads.len(), b - heads.len());
            assert(x == rest[a - heads.len()]);
            assert(y == rest[b - heads.len()]);
        }
    }
}

/// No series occurs twice in the enumeration.
pub proof fn lemma_series_distinct(lo: int, n: nat, size: int, a: int, b: int)
    requires
        0 <= lo,
        size <= usize::MAX,
        0 <= a < series_from(lo, n, size).len(),
        0 <= b < series_from(lo, n, size).len(),
        a != b,
    ensures
        series_from(lo, n, size)[a] != series_from(lo, n, size)[b],
{
    if a < b {
        lemma_series_sorted(lo, n, size, a, b);
    } else {
        lemma_series_sorted(lo, n, size, b, a);
    }
}

/// A lazy producer of every strictly increasing series of `n` values below
/// `size`, in lexicographic order. Created by [`gen_increasing_series`].
///
/// For `n == 2` and `size == 3` it yields `[0, 1]`, `[0, 2]`, `[1, 2]`.
pub struct IncreasingSeriesGenerator {
    n: usize,
    size: usize,
    series: Vec<usize>,
    already_started: bool,
    produced: Ghost<nat>,
}

impl IncreasingSeriesGenerator {
    /// The number of values in each series.
    pub closed spec fn count(&self) -> nat {
        self.n as nat
    }

    /// The bound that every value stays below.
    pub closed spec fn limit(&self) -> nat {
        self.size as nat
    }

    /// How many series have been handed out so far.
    pub closed spec fn produced(&self) -> nat {
        self.produced@
    }

    /// Every series that the producer hands out from its creation on, in the
    /// order in which they come.
    pub open spec fn all(&self) -> Seq<Seq<usize>> {
        all_series(self.count(), self.limit())
    }

    /// The state is one that stepping through the enumeration can reach.
    pub closed spec fn wf(&self) -> bool {
        let all = all_series(self.n as nat, self.size as nat);
        &&& self.series@.len() == self.n
        &&& self.produced@ <= all.len()
        &&& !self.already_started ==> self.produced@ == 0 && self.series@ == least_series(
            0,
            self.n as nat,
        )
        &&& self.already_started && all.len() > 0 ==> self.produced@ >= 1 && self.series@
            == all[self.produced@ - 1]
    }

    /// No more series have been handed out than there are.
    pub proof fn lemma_bounds(&self)
        requires
            self.wf(),
        ensures
            self.produced() <= self.all().len(),
    {
    }

    /// Hands out the next series, or `None` once all have been handed out.
    pub fn next(&mut self) -> (res: Option<Vec<usize>>)
        requires
            old(self).wf(),
        ensures
            final(self).wf(),
            final(self).count() == old(self).count(),
            final(self).limit() == old(self).limit(),
            match res {
                Some(v) => {
                    &&& old(self).produced() < old(self).all().len()
                    &&& v@ == old(self).all()[old(self).produced() as int]
                    &&& final(self).produced() == old(self).produced() + 1
                },
                None => {
                    &&& old(self).produced() == old(self).all().len()
                    &&& final(self).produced() == old(self).produced()
                },
            },
    {
        let n = self.n;
        let size = self.size;
        let ghost all = all_series(n as nat, size as nat);
        if !self.already_started {
            // The first call hands out the least series, where there is one.
            self.already_started = true;
            if n > size {
                return None;
            }
            proof {
                lemma_series_first(0, n as nat, size as int);
            }
            self.produced = Ghost(1);
            return Some(self.series.clone());
        }
        if n > size {
            return None;
        }
        proof {
            lemma_series_first(0, n as nat, size as int);
        }
        let ghost idx = self.produced@ - 1;
        let ghost cur = self.series@;
        if n == 0 {
            return None;
        }
        proof {
            lemma_series_valid(0, n as nat, size as int, idx);
        }
        // Look for the last value that can grow.
        let mut i: usize = n - 1;
        loop
            invariant
                n <= size,
                i < n,
                *self == *old(self),
                self.series@ == cur,
                is_series(cur, n as nat, 0, size as int),
                all == all_series(n as nat, size as nat),
                0 <= idx < all.len(),
                cur == all[idx],
                self.produced@ == idx + 1,
                old(self).wf(),
                n == self.n,
                size == self.size,
                forall|j: int| i < j < n ==> !can_advance(cur, j, size as int),
            ensures
                i < n,
                *self == *old(self),
                can_advance(cur, i as int, size as int),
                forall|j: int| i < j < n ==> !can_advance(cur, j, size as int),
            decreases i,
        {
            let bound = if i == n - 1 {
                size
            } else {
                self.series[i + 1]
            };
            if self.series[i] < bound - 1 {
                break ;
            }
            if i == 0 {
                // No value can grow: this was the last series.
                proof {
                    lemma_series_final(0, n as nat, size as int, idx);
                }
                return None;
            }
            i -= 1;
        }
        proof {
            lemma_series_successor(0, n as nat, size as int, idx, i as int);
            lemma_advance_valid(cur, n as nat, 0, size as int, i as int);
        }
        // Let it grow, and reset the values behind it.
        let ghost target = advance(cur, i as int);
        let bumped = self.series[i] + 1;
        self.series.set(i, bumped);
        let mut j: usize = i + 1;
        while j < n
            invariant
                i < j <= n,
                self.series@.len() == n,
                cur.len() == n,
                size <= usize::MAX,
                is_series(target, n as nat, 0, size as int),
                forall|k: int| i <= k < n ==> target[k] == cur[i as int] + 1 + (k - i),
                forall|k: int| 0 <= k < i ==> target[k] == cur[k],
                forall|k: int| 0 <= k < j ==> self.series@[k] == target[k],
                forall|k: int| j <= k < n ==> self.series@[k] == cur[k],
                self.n == n,
                self.size == size,
                self.already_started,
            decreases n - j,
        {
            assert(self.series@[j - 1] == target[j - 1]);
            assert(target[j - 1] + 1 == target[j as int] < size);
            let v = self.series[j - 1] + 1;
            self.series.set(j, v);
            j += 1;
        }
        assert(self.series@ =~= target);
        self.produced = Ghost((idx + 2) as nat);
        Some(self.series.clone())
    }
}

/// Creates the producer of every strictly increasing series of `n` values
/// below `size`.
pub fn gen_increasing_series(n: usize, size: usize) -> (g: IncreasingSeriesGenerator)
    ensures
        g.wf(),
        g.count() == n,
        g.limit() == size,
        g.produced() == 0,
{
    let mut series: Vec<usize> = Vec::new();
    let mut i: usize = 0;
    while i < n
        invariant
            i <= n,
            series@.len() == i,
            forall|k: int| 0 <= k < i ==> series@[k] == k,
        decreases n - i,
    {
        series.push(i);
        i += 1;
    }
    assert(series@ =~= least_series(0, n as nat));
    IncreasingSeriesGenerator { n, size, series, already_started: false, produced: Ghost(0) }
}

} // verus!
