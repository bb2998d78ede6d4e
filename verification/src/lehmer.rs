//! Ranking and unranking of permutations in the factorial number system.
//! A permutation of `n` is a sequence of the numbers below `n`, each once.

use crate::radix::{lemma_join, lemma_split};
use vstd::arithmetic::div_mod::lemma_fundamental_div_mod_converse;
use vstd::prelude::*;

verus! {

/// `n!`
pub open spec fn factorial(n: nat) -> nat
    decreases n,
{
    if n == 0 {
        1
    } else {
        n * factorial((n - 1) as nat)
    }
}

/// The numbers below `n` in increasing order.
pub open spec fn iota(n: nat) -> Seq<nat> {
    Seq::new(n, |k: int| k as nat)
}

/// Whether `x` holds each number below its length exactly once.
pub open spec fn is_permutation(x: Seq<nat>) -> bool {
    &&& forall|k: int| 0 <= k < x.len() ==> x[k] < x.len()
    &&& forall|j: int, k: int| 0 <= j < k < x.len() ==> x[j] != x[k]
}

/// How many of the first `k` entries of `x` are below `v`.
pub open spec fn count_below(x: Seq<nat>, k: int, v: nat) -> nat
    decreases k,
{
    if k <= 0 {
        0
    } else {
        count_below(x, k - 1, v) + if x[k - 1] < v {
            1nat
        } else {
            0nat
        }
    }
}

/// Digit `k` of the Lehmer code: entry `k`, less the number of smaller
/// entries before it.
pub open spec fn lehmer_digit(x: Seq<nat>, k: int) -> nat {
    (x[k] - count_below(x, k, x[k])) as nat
}

/// The value of the Lehmer digits from `k` on; digit `j` weighs
/// `(n - 1 - j)!`.
pub open spec fn lehmer_tail(x: Seq<nat>, k: int) -> nat
    decreases x.len() - k,
{
    if k < 0 || k >= x.len() {
        0
    } else {
        lehmer_digit(x, k) * factorial((x.len() - 1 - k) as nat) + lehmer_tail(x, k + 1)
    }
}

/// The rank of a permutation.
pub open spec fn lehmer_index(x: Seq<nat>) -> nat {
    lehmer_tail(x, 0)
}

/// Unranking: the leading digit of `i` picks one of the items that are
/// left, which then leaves; the rest of `i` orders the others. Empty where
/// `i` is too large for the items.
pub open spec fn unrank(avail: Seq<nat>, i: nat) -> Seq<nat>
    decreases avail.len(),
{
    if avail.len() == 0 {
        Seq::empty()
    } else {
        let b = factorial((avail.len() - 1) as nat);
        let d = (i / b) as int;
        if d < 0 || d >= avail.len() {
            Seq::empty()
        } else {
            seq![avail[d]] + unrank(avail.remove(d), i % b)
        }
    }
}

/// The permutation of `n` with rank `i`.
pub open spec fn permutation_at(n: nat, i: nat) -> Seq<nat> {
    unrank(iota(n), i)
}

/// Whether `avail` lists, in increasing order, exactly the numbers below
/// `n` that `pre` does not hold, where `pre` holds no number twice.
pub open spec fn unused(n: nat, pre: Seq<nat>, avail: Seq<nat>) -> bool {
    &&& pre.len() + avail.len() == n
    &&& forall|j: int| 0 <= j < pre.len() ==> pre[j] < n
    &&& forall|j: int, k: int| 0 <= j < k < pre.len() ==> pre[j] != pre[k]
    &&& forall|a: int, b: int| 0 <= a < b < avail.len() ==> avail[a] < avail[b]
    &&& forall|a: int| 0 <= a < avail.len() ==> avail[a] < n && !pre.contains(avail[a])
    &&& forall|a: int|
        0 <= a < avail.len() ==> #[trigger] avail[a] == a + count_below(
            pre,
            pre.len() as int,
            avail[a],
        )
    &&& forall|v: nat| v < n && !pre.contains(v) ==> #[trigger] avail.contains(v)
}

/// No factorial is zero.
pub proof fn lemma_factorial_positive(n: nat)
    ensures
        factorial(n) > 0,
    decreases n,
{
    if n > 0 {
        lemma_factorial_positive((n - 1) as nat);
        let f = factorial((n - 1) as nat);
        assert(n * f > 0) by (nonlinear_arith)
            requires
                n > 0,
                f > 0,
        ;
    }
}

/// Factorials grow with their argument.
pub proof fn lemma_factorial_monotone(a: nat, b: nat)
    requires
        a <= b,
    ensures
        factorial(a) <= factorial(b),
    decreases b,
{
    if a < b {
        lemma_factorial_monotone(a, (b - 1) as nat);
        lemma_factorial_positive((b - 1) as nat);
        let f = factorial((b - 1) as nat);
        assert(f <= b * f) by (nonlinear_arith)
            requires
                b > 0,
                f > 0,
        ;
    }
}

/// The count looks only at the first `k` entries.
pub proof fn lemma_count_below_prefix(x: Seq<nat>, y: Seq<nat>, k: int, v: nat)
    requires
        0 <= k <= x.len(),
        k <= y.len(),
        forall|j: int| 0 <= j < k ==> x[j] == y[j],
    ensures
        count_below(x, k, v) == count_below(y, k, v),
    decreases k,
{
    if k > 0 {
        lemma_count_below_prefix(x, y, k - 1, v);
    }
}

/// Before anything is taken, every number below `n` is unused.
pub proof fn lemma_unused_start(n: nat)
    ensures
        unused(n, Seq::empty(), iota(n)),
{
    let avail = iota(n);
    assert forall|v: nat| v < n implies #[trigger] avail.contains(v) by {
        assert(avail[v as int] == v);
    }
}

/// Taking the item at place `d` leaves the others unused.
pub proof fn lemma_unused_step(n: nat, pre: Seq<nat>, avail: Seq<nat>, d: int)
    requires
        unused(n, pre, avail),
        0 <= d < avail.len(),
    ensures
        unused(n, pre.push(avail[d]), avail.remove(d)),
{
    let v = avail[d];
    let k = pre.len() as int;
    let pre2 = pre.push(v);
    let av2 = avail.remove(d);
    assert(av2.len() == avail.len() - 1);
    assert forall|a: int| 0 <= a < av2.len() implies av2[a] == (if a < d {
        avail[a]
    } else {
        avail[a + 1]
    }) by {}
    assert forall|j: int, l: int| 0 <= j < l < pre2.len() implies pre2[j] != pre2[l] by {
        if l == k {
            assert(!pre.contains(avail[d]));
            assert(pre[j] != v);
        }
    }
    assert forall|a: int| 0 <= a < av2.len() implies av2[a] < n && !pre2.contains(av2[a]) by {
        let w = av2[a];
        let a1 = if a < d {
            a
        } else {
            a + 1
        };
        assert(w == avail[a1]);
        assert(!pre.contains(avail[a1]));
        if pre2.contains(w) {
            let j = choose|j: int| 0 <= j < pre2.len() && pre2[j] == w;
            if j < k {
                assert(pre[j] == w);
            }
            assert(false);
        }
    }
    assert forall|a: int| 0 <= a < av2.len() implies #[trigger] av2[a] == a + count_below(
        pre2,
        pre2.len() as int,
        av2[a],
    ) by {
        let w = av2[a];
        let a1 = if a < d {
            a
        } else {
            a + 1
        };
        assert(w == avail[a1]);
        lemma_count_below_prefix(pre2, pre, k, w);
        assert(count_below(pre2, k + 1, w) == count_below(pre2, k, w) + if pre2[k] < w {
            1nat
        } else {
            0nat
        });
    }
    assert forall|w: nat| w < n && !pre2.contains(w) implies #[trigger] av2.contains(w) by {
        assert(pre2[k] == v);
        if pre.contains(w) {
            let j = choose|j: int| 0 <= j < pre.len() && pre[j] == w;
            assert(pre2[j] == w);
            assert(false);
        }
        assert(avail.contains(w));
        let a0 = choose|a: int| 0 <= a < avail.len() && avail[a] == w;
        if a0 < d {
            assert(av2[a0] == w);
        } else {
            assert(av2[a0 - 1] == w);
        }
    }
}

/// Ranking undoes unranking, for any items that are left.
pub proof fn lemma_unrank_tail(n: nat, pre: Seq<nat>, avail: Seq<nat>, i: nat)
    requires
        unused(n, pre, avail),
        i < factorial(avail.len()),
    ensures
        unrank(avail, i).len() == avail.len(),
        is_permutation(pre + unrank(avail, i)),
        lehmer_tail(pre + unrank(avail, i), pre.len() as int) == i,
    decreases avail.len(),
{
    let full = pre + unrank(avail, i);
    let k = pre.len() as int;
    if avail.len() == 0 {
        assert(full =~= pre);
    } else {
        let b = factorial((avail.len() - 1) as nat);
        lemma_split(i, avail.len(), b);
        let d = (i / b) as int;
        let r = i % b;
        let v = avail[d];
        lemma_unused_step(n, pre, avail, d);
        lemma_unrank_tail(n, pre.push(v), avail.remove(d), r);
        assert(full =~= pre.push(v) + unrank(avail.remove(d), r));
        lemma_count_below_prefix(full, pre, k, v);
        assert(full[k] == v);
        assert(lehmer_digit(full, k) == d);
        assert(full.len() - 1 - k == avail.len() - 1);
    }
}

/// Where the unused numbers are listed, the Lehmer digit of entry `k` is
/// the place of that entry in the list.
pub proof fn lemma_digit_place(x: Seq<nat>, k: int, avail: Seq<nat>)
    requires
        is_permutation(x),
        0 <= k < x.len(),
        unused(x.len(), x.take(k), avail),
    ensures
        count_below(x, k, x[k]) <= x[k],
        lehmer_digit(x, k) < avail.len(),
        avail[lehmer_digit(x, k) as int] == x[k],
{
    let pre = x.take(k);
    let v = x[k];
    if pre.contains(v) {
        let j = choose|j: int| 0 <= j < pre.len() && pre[j] == v;
        assert(x[j] == v);
        assert(false);
    }
    assert(avail.contains(v));
    let a = choose|a: int| 0 <= a < avail.len() && avail[a] == v;
    lemma_count_below_prefix(x, pre, k, v);
    assert(avail[a] == a + count_below(pre, pre.len() as int, avail[a]));
}

/// Unranking undoes ranking, for any entry to start from.
pub proof fn lemma_tail_unrank(x: Seq<nat>, k: int, avail: Seq<nat>)
    requires
        is_permutation(x),
        0 <= k <= x.len(),
        unused(x.len(), x.take(k), avail),
    ensures
        lehmer_tail(x, k) < factorial((x.len() - k) as nat),
        unrank(avail, lehmer_tail(x, k)) == x.skip(k),
    decreases x.len() - k,
{
    if k == x.len() {
        assert(x.skip(k) =~= Seq::<nat>::empty());
    } else {
        lemma_digit_place(x, k, avail);
        let c = lehmer_digit(x, k);
        let b = factorial((x.len() - 1 - k) as nat);
        lemma_unused_step(x.len(), x.take(k), avail, c as int);
        assert(x.take(k).push(x[k]) =~= x.take(k + 1));
        lemma_tail_unrank(x, k + 1, avail.remove(c as int));
        let t = lehmer_tail(x, k + 1);
        lemma_join(c, t, avail.len(), b);
        assert(lehmer_tail(x, k) == c * b + t);
        assert(x.skip(k) =~= seq![x[k]] + x.skip(k + 1));
    }
}

/// The unused numbers after the first `k` entries of the permutation `x`.
pub open spec fn unused_at(x: Seq<nat>, k: int) -> Seq<nat>
    decreases k,
{
    if k <= 0 {
        iota(x.len())
    } else {
        unused_at(x, k - 1).remove(lehmer_digit(x, k - 1) as int)
    }
}

/// `unused_at(x, k)` lists the numbers that the first `k` entries of the
/// permutation `x` leave unused.
pub proof fn lemma_unused_at(x: Seq<nat>, k: int)
    requires
        is_permutation(x),
        0 <= k <= x.len(),
    ensures
        unused(x.len(), x.take(k), unused_at(x, k)),
    decreases k,
{
    if k == 0 {
        lemma_unused_start(x.len());
        assert(x.take(0) =~= Seq::<nat>::empty());
    } else {
        lemma_unused_at(x, k - 1);
        let avail = unused_at(x, k - 1);
        lemma_digit_place(x, k - 1, avail);
        lemma_unused_step(x.len(), x.take(k - 1), avail, lehmer_digit(x, k - 1) as int);
        assert(x.take(k - 1).push(x[k - 1]) =~= x.take(k));
    }
}

/// In a permutation no entry has more smaller entries before it than its
/// value, and the Lehmer digits from `k` on denote a number below
/// `(n - k)!`.
pub proof fn lemma_tail_bound(x: Seq<nat>, k: int)
    requires
        is_permutation(x),
        0 <= k <= x.len(),
    ensures
        lehmer_tail(x, k) < factorial((x.len() - k) as nat),
        k < x.len() ==> count_below(x, k, x[k]) <= x[k],
{
    lemma_unused_at(x, k);
    lemma_tail_unrank(x, k, unused_at(x, k));
    if k < x.len() {
        lemma_digit_place(x, k, unused_at(x, k));
    }
}

/// The rank of a permutation of `n` lies below `n!`, and the permutation
/// with that rank is the permutation itself.
pub proof fn lemma_rank_unrank(x: Seq<nat>)
    requires
        is_permutation(x),
    ensures
        lehmer_index(x) < factorial(x.len()),
        permutation_at(x.len(), lehmer_index(x)) == x,
{
    lemma_unused_start(x.len());
    assert(x.take(0) =~= Seq::<nat>::empty());
    lemma_tail_unrank(x, 0, iota(x.len()));
    assert(x.skip(0) =~= x);
}

/// For a rank below `n!`, the permutation with that rank is a permutation
/// of `n` and has that rank.
pub proof fn lemma_unrank_rank(n: nat, i: nat)
    requires
        i < factorial(n),
    ensures
        permutation_at(n, i).len() == n,
        is_permutation(permutation_at(n, i)),
        lehmer_index(permutation_at(n, i)) == i,
{
    lemma_unused_start(n);
    lemma_unrank_tail(n, Seq::empty(), iota(n), i);
    assert(Seq::<nat>::empty() + unrank(iota(n), i) =~= unrank(iota(n), i));
}

/// One step of unranking in place. The first `m` entries of `g` are the
/// items that are left, the others the items picked so far. The leading
/// digit of `rem` picks an item, which moves to the end.
pub proof fn lemma_unrank_step(g: Seq<nat>, m: int, rem: nat)
    requires
        0 < m <= g.len(),
        rem < factorial(m as nat),
    ensures
        ({
            let block = factorial((m - 1) as nat);
            let ind = (rem / block) as int;
            let g2 = g.remove(ind).push(g[ind]);
            &&& block > 0
            &&& factorial(m as nat) / (m as nat) == block
            &&& 0 <= ind < m
            &&& rem - ind * block == rem % block
            &&& rem % block < block
            &&& g2.len() == g.len()
            &&& g2.skip(m - 1) + unrank(g2.take(m - 1), rem % block) == g.skip(m) + unrank(
                g.take(m),
                rem,
            )
        }),
{
    let block = factorial((m - 1) as nat);
    let ind = (rem / block) as int;
    let g2 = g.remove(ind).push(g[ind]);
    lemma_factorial_positive((m - 1) as nat);
    lemma_split(rem, m as nat, block);
    assert(factorial(m as nat) == block * m + 0) by (nonlinear_arith)
        requires
            factorial(m as nat) == m * block,
    ;
    lemma_fundamental_div_mod_converse(factorial(m as nat) as int, m, block as int, 0);
    assert(g2.take(m - 1) =~= g.take(m).remove(ind));
    assert(g2.skip(m - 1) =~= g.skip(m).push(g[ind]));
    assert(g.take(m)[ind] == g[ind]);
    assert(g2.skip(m - 1) + unrank(g2.take(m - 1), rem % block) =~= g.skip(m) + unrank(
        g.take(m),
        rem,
    ));
}

} // verus!
