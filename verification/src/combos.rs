//! The k-of-n subset enumerator.
//!
//! [`Combos::new(n, k)`](Combos::new) yields every k-sized subset of the
//! indices `0..n`, each as a strictly ascending list, in a deterministic
//! order: the subset containing the largest indices comes first, and the
//! walk proceeds by decrementing the lowest decrementable position and
//! packing everything below it (descending colexicographic order).  The
//! whole emission order is pinned down by the spec sequence [`combo_list`].

use crate::ncr::spec_ncr;
use vstd::prelude::*;

verus! {

/// The full sequence of k-sized subsets of `{0, ..., n-1}`, in emission
/// order.  Each subset is a strictly ascending sequence of indices.
pub open spec fn combo_list(n: int, k: int) -> Seq<Seq<int>>
    decreases n, k,
{
    if k <= 0 {
        seq![Seq::<int>::empty()]
    } else if n < k {
        Seq::<Seq<int>>::empty()
    } else {
        combo_list(n - 1, k - 1).map_values(|c: Seq<int>| c.push(n - 1)) + combo_list(n - 1, k)
    }
}

/// What it means for `c` to be a well-formed combination drawn from a pool
/// of size `n` with `k` elements: correct length, every index in range and
/// no smaller than its position, and strictly ascending.
pub open spec fn is_combo(n: int, k: int, c: Seq<int>) -> bool {
    &&& c.len() == k
    &&& (forall|j: int| 0 <= j < k ==> j <= #[trigger] c[j] < n)
    &&& (forall|j: int| 0 < j < k ==> c[j - 1] < #[trigger] c[j])
}

/// The number of enumerated combinations is exactly C(n, k).
pub proof fn lemma_combo_list_len(n: int, k: int)
    requires
        0 <= n,
        0 <= k,
    ensures
        combo_list(n, k).len() == spec_ncr(n, k),
    decreases n, k,
{
    if k <= 0 {
    } else if n < k {
    } else {
        lemma_combo_list_len(n - 1, k - 1);
        lemma_combo_list_len(n - 1, k);
    }
}

/// Every enumerated combination is well-formed: it has length `k`, its
/// indices are unique (strictly ascending) and all lie in `[0, n)`.
pub proof fn lemma_combo_list_elems(n: int, k: int)
    requires
        0 <= n,
        0 <= k,
    ensures
        forall|m: int| 0 <= m < combo_list(n, k).len() ==> is_combo(
            n,
            k,
            #[trigger] combo_list(n, k)[m],
        ),
    decreases n, k,
{
    if k <= 0 {
        assert(combo_list(n, k)[0] =~= Seq::<int>::empty());
    } else if n < k {
    } else {
        lemma_combo_list_elems(n - 1, k - 1);
        lemma_combo_list_elems(n - 1, k);
        let a = combo_list(n - 1, k - 1).map_values(|c: Seq<int>| c.push(n - 1));
        let b = combo_list(n - 1, k);
        assert forall|m: int| 0 <= m < combo_list(n, k).len() implies is_combo(
            n,
            k,
            #[trigger] combo_list(n, k)[m],
        ) by {
            if m < a.len() {
                let base = combo_list(n - 1, k - 1)[m];
                assert(is_combo(n - 1, k - 1, base));
                let c = combo_list(n, k)[m];
                assert(c == base.push(n - 1));
                assert(forall|j: int| 0 <= j < k - 1 ==> c[j] == base[j]);
                assert(c[k - 1] == n - 1);
                assert(n - 1 >= k - 1);
            } else {
                assert(combo_list(n, k)[m] == b[m - a.len()]);
                assert(is_combo(n - 1, k, b[m - a.len()]));
            }
        }
    }
}

/// The first combination: the `k` largest indices, `(n-k, ..., n-1)`.
pub open spec fn first_combo(n: int, k: int) -> Seq<int> {
    Seq::new(k as nat, |j: int| n - k + j)
}

/// The last combination: the `k` smallest indices, `(0, ..., k-1)`.
pub open spec fn last_combo(k: int) -> Seq<int> {
    Seq::new(k as nat, |j: int| j)
}

proof fn lemma_combo_list_first(n: int, k: int)
    requires
        0 <= k <= n,
    ensures
        combo_list(n, k).len() >= 1,
        combo_list(n, k)[0] == first_combo(n, k),
    decreases n, k,
{
    if k <= 0 {
        assert(combo_list(n, k)[0] =~= first_combo(n, k));
    } else {
        lemma_combo_list_first(n - 1, k - 1);
        let a = combo_list(n - 1, k - 1).map_values(|c: Seq<int>| c.push(n - 1));
        assert(combo_list(n, k)[0] == combo_list(n - 1, k - 1)[0].push(n - 1));
        assert(first_combo(n - 1, k - 1).push(n - 1) =~= first_combo(n, k));
    }
}

proof fn lemma_combo_list_last(n: int, k: int)
    requires
        0 <= k <= n,
    ensures
        combo_list(n, k).len() >= 1,
        combo_list(n, k).last() == last_combo(k),
    decreases n, k,
{
    if k <= 0 {
        assert(combo_list(n, k).last() =~= last_combo(k));
    } else if n == k {
        lemma_combo_list_last(n - 1, k - 1);
        let a = combo_list(n - 1, k - 1).map_values(|c: Seq<int>| c.push(n - 1));
        assert(combo_list(n - 1, k).len() == 0);
        assert(combo_list(n, k).last() == a.last());
        assert(a.last() == combo_list(n - 1, k - 1).last().push(n - 1));
        assert(last_combo(k - 1).push(k - 1) =~= last_combo(k));
    } else {
        lemma_combo_list_last(n - 1, k);
        assert(combo_list(n - 1, k).len() >= 1);
        assert(combo_list(n, k).last() == combo_list(n - 1, k).last());
    }
}

/// The lowest position `l >= j` at which `c[l] > l` (so `c[l]` can still be
/// decremented), or `c.len()` if there is none.
pub open spec fn min_free_from(c: Seq<int>, j: int) -> int
    decreases c.len() - j,
{
    if j < 0 || j >= c.len() {
        c.len() as int
    } else if c[j] > j {
        j
    } else {
        min_free_from(c, j + 1)
    }
}

/// The lowest position at which the combination can still be decremented.
/// Equal to `c.len()` exactly on the final combination `(0, ..., k-1)`.
pub open spec fn min_free(c: Seq<int>) -> int {
    min_free_from(c, 0)
}

/// The successor of a combination in emission order: decrement the entry at
/// the lowest free position and pack all entries below it right against it.
pub open spec fn succ_combo(c: Seq<int>) -> Seq<int> {
    let j = min_free(c);
    Seq::new(c.len(), |l: int| if l <= j { c[j] - 1 - (j - l) } else { c[l] })
}

/// How `min_free` behaves when one element is appended.
proof fn lemma_min_free_push(a: Seq<int>, x: int, j: int)
    requires
        0 <= j <= a.len(),
    ensures
        min_free_from(a.push(x), j) == if min_free_from(a, j) < a.len() {
            min_free_from(a, j)
        } else if x > a.len() {
            a.len() as int
        } else {
            a.len() + 1 as int
        },
    decreases a.len() - j,
{
    let c = a.push(x);
    if j == a.len() {
        assert(c[j] == x);
        if x > j {
        } else {
            assert(min_free_from(c, j + 1) == c.len());
        }
    } else {
        assert(c[j] == a[j]);
        if a[j] > j {
        } else {
            lemma_min_free_push(a, x, j + 1);
        }
    }
}

/// `min_free_from` is unchanged when skipping over a settled prefix.
proof fn lemma_min_free_skip(c: Seq<int>, j: int)
    requires
        0 <= j < c.len(),
        c[j] <= j,
    ensures
        min_free_from(c, j) == min_free_from(c, j + 1),
{
}

/// The central ordering lemma: within `combo_list(n, k)`, every element but
/// the last has a free position and its successor (per [`succ_combo`]) is
/// the next element of the list; the last element has no free position.
pub proof fn lemma_combo_list_succ(n: int, k: int, m: int)
    requires
        0 <= k <= n,
        0 <= m < combo_list(n, k).len(),
    ensures
        m + 1 < combo_list(n, k).len() ==> min_free(combo_list(n, k)[m]) < k && succ_combo(
            combo_list(n, k)[m],
        ) == combo_list(n, k)[m + 1],
        m + 1 == combo_list(n, k).len() ==> min_free(combo_list(n, k)[m]) == k,
    decreases n, k,
{
    if k <= 0 {
        assert(combo_list(n, k).len() == 1);
        assert(combo_list(n, k)[0] =~= Seq::<int>::empty());
        assert(min_free(combo_list(n, k)[0]) == 0);
    } else {
        let a = combo_list(n - 1, k - 1).map_values(|c: Seq<int>| c.push(n - 1));
        let b = combo_list(n - 1, k);
        lemma_combo_list_elems(n - 1, k - 1);
        if m < a.len() {
            let base = combo_list(n - 1, k - 1)[m];
            let c = combo_list(n, k)[m];
            assert(c == base.push(n - 1));
            assert(is_combo(n - 1, k - 1, base));
            lemma_combo_list_succ(n - 1, k - 1, m);
            lemma_min_free_push(base, n - 1, 0);
            if m + 1 < a.len() {
                // The successor acts below the appended element.
                let j = min_free(base);
                assert(j < k - 1);
                assert(min_free(c) == j);
                let sb = succ_combo(base);
                assert(sb == combo_list(n - 1, k - 1)[m + 1]);
                assert(combo_list(n, k)[m + 1] == combo_list(n - 1, k - 1)[m + 1].push(n - 1));
                assert(succ_combo(c) =~= sb.push(n - 1));
            } else {
                // `base` is the final (k-1)-combination (0, ..., k-2).
                assert(min_free(base) == k - 1);
                lemma_combo_list_last(n - 1, k - 1);
                assert(base == last_combo(k - 1));
                if n == k {
                    // No block of smaller-last combinations follows.
                    assert(b.len() == 0);
                    assert(m + 1 == combo_list(n, k).len());
                    assert(n - 1 <= base.len());
                    assert(min_free(c) == k);
                } else {
                    assert(n - 1 > k - 1);
                    assert(min_free(c) == k - 1);
                    lemma_combo_list_first(n - 1, k);
                    assert(combo_list(n, k)[m + 1] == first_combo(n - 1, k));
                    assert(c[k - 1 as int] == n - 1);
                    assert(succ_combo(c) =~= first_combo(n - 1, k));
                }
            }
        } else {
            let mb = m - a.len();
            lemma_combo_list_succ(n - 1, k, mb);
            assert(combo_list(n, k)[m] == b[mb]);
            if m + 1 < combo_list(n, k).len() {
                assert(combo_list(n, k)[m + 1] == b[mb + 1]);
            }
        }
    }
}

/// A fused enumerator over the sequence [`combo_list(n, k)`](combo_list).
///
/// Each call to [`next`](Combos::next) yields the next combination of the
/// list, then `None` forever once the list is exhausted.
pub struct Combos {
    n: usize,
    k: usize,
    /// The next (or, once started, most recently yielded) combination.
    output: Vec<usize>,
    started: bool,
    done: bool,
    /// How many combinations have been yielded so far.
    yielded: Ghost<int>,
}

impl Combos {
    /// The pool size `n` this enumerator was constructed with.
    pub closed spec fn pool(self) -> int {
        self.n as int
    }

    /// The combination size `k` this enumerator was constructed with.
    pub closed spec fn size(self) -> int {
        self.k as int
    }

    /// The number of combinations yielded so far.
    pub closed spec fn pos(self) -> int {
        self.yielded@
    }

    /// The view of the working buffer as a sequence of mathematical ints.
    spec fn out_view(self) -> Seq<int> {
        self.output@.map_values(|v: usize| v as int)
    }

    /// The enumerator's internal invariant.
    pub closed spec fn wf(self) -> bool {
        let total = combo_list(self.pool(), self.size());
        &&& self.k <= self.n
        &&& self.output.len() == self.k
        &&& 0 <= self.yielded@ <= total.len()
        &&& (!self.started ==> self.yielded@ == 0 && !self.done)
        &&& (!self.started ==> self.out_view() == total[0])
        &&& (self.started && !self.done ==> 1 <= self.yielded@ && self.out_view() == total[
            self.yielded@ - 1])
        &&& (self.done ==> self.yielded@ == total.len())
    }

    /// Creates an enumerator over all k-sized subsets of `0..n`.
    ///
    /// The pool must be at least as large as the requested combinations.
    /// If `k` is 0, the enumerator yields exactly one empty combination.
    pub fn new(n: usize, k: usize) -> (r: Combos)
        requires
            k <= n,
        ensures
            r.wf(),
            r.pool() == n,
            r.size() == k,
            r.pos() == 0,
    {
        let mut output: Vec<usize> = Vec::with_capacity(k);
        let mut l: usize = 0;
        while l < k
            invariant
                l <= k <= n,
                output@.len() == l,
                forall|j: int| 0 <= j < l ==> output@[j] == n - k + j,
            decreases k - l,
        {
            output.push(n - k + l);
            l = l + 1;
        }
        proof {
            lemma_combo_list_first(n as int, k as int);
        }
        let r = Combos { n, k, output, started: false, done: false, yielded: Ghost(0) };
        proof {
            assert(r.out_view() =~= first_combo(n as int, k as int));
        }
        r
    }

    /// Yields the next combination in emission order, or `None` once all
    /// `C(n, k)` combinations have been produced.
    #[verifier::rlimit(60)]
    pub fn next(&mut self) -> (r: Option<Vec<usize>>)
        requires
            old(self).wf(),
        ensures
            final(self).wf(),
            final(self).pool() == old(self).pool(),
            final(self).size() == old(self).size(),
            ({
                let total = combo_list(old(self).pool(), old(self).size());
                if old(self).pos() < total.len() {
                    &&& r is Some
                    &&& r->Some_0@.map_values(|v: usize| v as int) == total[old(self).pos()]
                    &&& r->Some_0@.len() == old(self).size()
                    &&& final(self).pos() == old(self).pos() + 1
                } else {
                    &&& r is None
                    &&& final(self).pos() == old(self).pos()
                }
            }),
    {
        let ghost total = combo_list(self.pool(), self.size());
        if self.done {
            return None;
        }
        if !self.started {
            self.started = true;
            proof {
                lemma_combo_list_first(self.pool(), self.size());
                self.yielded@ = 1;
            }
            let out = clone_usize_vec(&self.output);
            return Some(out);
        }
        // Find the lowest position that can still be decremented.
        let ghost cv = self.out_view();
        proof {
            lemma_combo_list_elems(self.pool(), self.size());
            assert(is_combo(self.pool(), self.size(), cv));
        }
        let mut j: usize = 0;
        while j < self.k && self.output[j as usize] == j
            invariant
                self.output.len() == self.k,
                0 <= j <= self.k,
                cv == self.out_view(),
                cv.len() == self.k,
                min_free_from(cv, 0) == min_free_from(cv, j as int),
            decreases self.k - j,
        {
            proof {
                lemma_min_free_skip(cv, j as int);
            }
            j = j + 1;
        }
        proof {
            lemma_combo_list_succ(self.pool(), self.size(), self.yielded@ - 1);
        }
        if j == self.k {
            // The working buffer is (0, ..., k-1): everything was yielded.
            assert(min_free(cv) == self.size());
            self.done = true;
            return None;
        }
        assert(cv[j as int] > j);
        assert(min_free(cv) == j);
        assert(self.pos() < total.len());
        // Decrement position j and pack the prefix right against it.
        let ghost snap = *self;
        let v = self.output[j] - 1;
        let mut l: usize = 0;
        while l <= j
            invariant
                self.n == snap.n,
                self.k == snap.k,
                self.started == snap.started,
                self.done == snap.done,
                self.yielded == snap.yielded,
                self.output.len() == self.k,
                0 <= l <= j + 1,
                j < self.k,
                cv.len() == self.k,
                v as int == cv[j as int] - 1,
                j <= v,
                forall|p: int| 0 <= p < l ==> #[trigger] self.output@[p] as int == cv[j as int] - 1
                    - (j - p),
                forall|p: int| l <= p < self.k ==> #[trigger] self.output@[p] as int == cv[p],
            decreases j + 1 - l,
        {
            self.output.set(l, v - (j - l));
            l = l + 1;
        }
        proof {
            assert(self.out_view() =~= succ_combo(cv));
            self.yielded@ = self.yielded@ + 1;
        }
        let out = clone_usize_vec(&self.output);
        Some(out)
    }
}

/// Copies a vector of indices element by element.
fn clone_usize_vec(v: &Vec<usize>) -> (r: Vec<usize>)
    ensures
        r@ == v@,
{
    let mut r: Vec<usize> = Vec::with_capacity(v.len());
    let mut i: usize = 0;
    while i < v.len()
        invariant
            0 <= i <= v.len(),
            r@ == v@.take(i as int),
        decreases v.len() - i,
    {
        r.push(v[i]);
        proof {
            assert(r@ =~= v@.take(i + 1));
        }
        i = i + 1;
    }
    proof {
        assert(r@ =~= v@);
    }
    r
}

} // verus!
