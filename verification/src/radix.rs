//! Mixed-radix numbers: a sequence of digit sizes, a sequence of digits,
//! and the number they denote. Digit 0 varies fastest.

use vstd::arithmetic::div_mod::{
    lemma_div_of0, lemma_fundamental_div_mod_converse, lemma_mod_breakdown, lemma_small_mod,
};
use vstd::prelude::*;

verus! {

/// The entries of `s` as natural numbers.
pub open spec fn nats(s: Seq<usize>) -> Seq<nat> {
    Seq::new(s.len(), |k: int| s[k] as nat)
}

/// The weight of digit `k`: the product of the sizes before it.
pub open spec fn stride(s: Seq<nat>, k: int) -> nat
    decreases k,
{
    if k <= 0 {
        1
    } else {
        stride(s, k - 1) * s[k - 1]
    }
}

/// How many numbers the sizes `s` can denote: the product of all of them.
pub open spec fn radix_size(s: Seq<nat>) -> nat {
    stride(s, s.len() as int)
}

/// Whether `x` holds one digit for each size, each below its size.
pub open spec fn radix_valid(s: Seq<nat>, x: Seq<nat>) -> bool {
    &&& x.len() == s.len()
    &&& forall|k: int| 0 <= k < s.len() ==> x[k] < s[k]
}

/// The value of the first `k` digits: each digit times its weight.
pub open spec fn radix_sum(s: Seq<nat>, x: Seq<nat>, k: int) -> nat
    decreases k,
{
    if k <= 0 {
        0
    } else {
        radix_sum(s, x, k - 1) + x[k - 1] * stride(s, k - 1)
    }
}

/// The number that the digits `x` denote.
pub open spec fn radix_index(s: Seq<nat>, x: Seq<nat>) -> nat {
    radix_sum(s, x, s.len() as int)
}

/// The value of the digits from `k` on, with digit `k` weighing 1.
pub open spec fn radix_tail(s: Seq<nat>, x: Seq<nat>, k: int) -> nat
    decreases s.len() - k,
{
    if k < 0 || k >= s.len() {
        0
    } else {
        x[k] + s[k] * radix_tail(s, x, k + 1)
    }
}

/// Digit `k` of the number `i`.
pub open spec fn radix_digit(s: Seq<nat>, i: nat, k: int) -> nat {
    (i / stride(s, k)) % s[k]
}

/// All digits of the number `i`.
pub open spec fn radix_digits(s: Seq<nat>, i: nat) -> Seq<nat> {
    Seq::new(s.len(), |k: int| radix_digit(s, i, k))
}

/// Weights are positive as long as no size before them is zero.
pub proof fn lemma_stride_positive(s: Seq<nat>, k: int)
    requires
        0 <= k <= s.len(),
        forall|j: int| 0 <= j < k ==> s[j] > 0,
    ensures
        stride(s, k) > 0,
    decreases k,
{
    if k > 0 {
        lemma_stride_positive(s, k - 1);
        let a = stride(s, k - 1);
        let b = s[k - 1];
        assert(a * b > 0) by (nonlinear_arith)
            requires
                a > 0,
                b > 0,
        ;
    }
}

/// A weight is zero exactly when a size before it is zero.
pub proof fn lemma_stride_zero(s: Seq<nat>, k: int)
    requires
        0 <= k <= s.len(),
    ensures
        stride(s, k) == 0 <==> exists|j: int| 0 <= j < k && s[j] == 0,
    decreases k,
{
    if k > 0 {
        lemma_stride_zero(s, k - 1);
        let a = stride(s, k - 1);
        let b = s[k - 1];
        assert(a * b == 0 <==> (a == 0 || b == 0)) by (nonlinear_arith);
        if stride(s, k) == 0 {
            if a == 0 {
                let j = choose|j: int| 0 <= j < k - 1 && s[j] == 0;
                assert(0 <= j < k && s[j] == 0);
            } else {
                assert(0 <= k - 1 < k && s[k - 1] == 0);
            }
        }
        if exists|j: int| 0 <= j < k && s[j] == 0 {
            let j = choose|j: int| 0 <= j < k && s[j] == 0;
            if j < k - 1 {
                assert(0 <= j < k - 1 && s[j] == 0);
            }
        }
    }
}

/// The product is zero exactly when some size is zero.
pub proof fn lemma_size_zero(s: Seq<nat>)
    ensures
        radix_size(s) == 0 <==> exists|j: int| 0 <= j < s.len() && s[j] == 0,
{
    lemma_stride_zero(s, s.len() as int);
}

/// Where the product is not zero, no weight exceeds it.
pub proof fn lemma_stride_le_size(s: Seq<nat>, k: int)
    requires
        0 <= k <= s.len(),
        radix_size(s) > 0,
    ensures
        0 < stride(s, k) <= radix_size(s),
    decreases s.len() - k,
{
    lemma_size_zero(s);
    lemma_stride_positive(s, k);
    if k < s.len() {
        lemma_stride_le_size(s, k + 1);
        let a = stride(s, k);
        let b = s[k];
        assert(a <= a * b) by (nonlinear_arith)
            requires
                a > 0,
                b > 0,
        ;
    }
}

/// The first `k` digits of valid digits denote a number below weight `k`.
pub proof fn lemma_sum_bound(s: Seq<nat>, x: Seq<nat>, k: int)
    requires
        radix_valid(s, x),
        0 <= k <= s.len(),
    ensures
        radix_sum(s, x, k) < stride(s, k),
    decreases k,
{
    if k > 0 {
        lemma_sum_bound(s, x, k - 1);
        let a = radix_sum(s, x, k - 1);
        let w = stride(s, k - 1);
        let d = x[k - 1];
        let b = s[k - 1];
        assert(a + d * w < w * b) by (nonlinear_arith)
            requires
                a < w,
                d < b,
        ;
    }
}

/// Valid digits denote a number below the product of the sizes.
pub proof fn lemma_index_bound(s: Seq<nat>, x: Seq<nat>)
    requires
        radix_valid(s, x),
    ensures
        radix_index(s, x) < radix_size(s),
{
    lemma_sum_bound(s, x, s.len() as int);
}

/// The number splits at any digit `k` into the value of the digits before
/// `k` and the weight of `k` times the value of the digits from `k` on.
pub proof fn lemma_sum_tail(s: Seq<nat>, x: Seq<nat>, k: int)
    requires
        x.len() == s.len(),
        0 <= k <= s.len(),
    ensures
        radix_sum(s, x, k) + stride(s, k) * radix_tail(s, x, k) == radix_index(s, x),
    decreases s.len() - k,
{
    if k < s.len() {
        lemma_sum_tail(s, x, k + 1);
        let a = radix_sum(s, x, k);
        let w = stride(s, k);
        let d = x[k];
        let b = s[k];
        let t = radix_tail(s, x, k + 1);
        assert(radix_sum(s, x, k + 1) == a + d * w);
        assert(stride(s, k + 1) == w * b);
        assert(radix_tail(s, x, k) == d + b * t);
        assert((a + d * w) + (w * b) * t == a + w * (d + b * t)) by (nonlinear_arith);
    } else {
        assert(stride(s, k) * 0 == 0) by (nonlinear_arith);
    }
}

/// The value of the digits from `k` on does not exceed the whole number.
pub proof fn lemma_tail_le_index(s: Seq<nat>, x: Seq<nat>, k: int)
    requires
        radix_valid(s, x),
        0 <= k <= s.len(),
    ensures
        radix_tail(s, x, k) <= radix_index(s, x),
{
    lemma_sum_tail(s, x, k);
    assert forall|j: int| 0 <= j < k implies s[j] > 0 by {
        assert(x[j] < s[j]);
    }
    lemma_stride_positive(s, k);
    let w = stride(s, k);
    let t = radix_tail(s, x, k);
    assert(t <= w * t) by (nonlinear_arith)
        requires
            w > 0,
            t >= 0,
    ;
}

/// Reading digit `k` off the number that valid digits denote gives back
/// digit `k`.
pub proof fn lemma_digit_of_index(s: Seq<nat>, x: Seq<nat>, k: int)
    requires
        radix_valid(s, x),
        0 <= k < s.len(),
    ensures
        radix_digit(s, radix_index(s, x), k) == x[k],
{
    lemma_sum_tail(s, x, k);
    lemma_sum_bound(s, x, k);
    let i = radix_index(s, x);
    let a = radix_sum(s, x, k);
    let w = stride(s, k);
    let t = radix_tail(s, x, k);
    let u = radix_tail(s, x, k + 1);
    assert(i == t * w + a) by (nonlinear_arith)
        requires
            a + w * t == i,
    ;
    lemma_fundamental_div_mod_converse(i as int, w as int, t as int, a as int);
    assert(t == u * s[k] + x[k]) by (nonlinear_arith)
        requires
            t == x[k] + s[k] * u,
    ;
    lemma_fundamental_div_mod_converse(t as int, s[k] as int, u as int, x[k] as int);
}

/// The first `k` digits of a number denote its remainder by weight `k`.
pub proof fn lemma_sum_of_digits(s: Seq<nat>, i: nat, k: int)
    requires
        0 <= k <= s.len(),
        forall|j: int| 0 <= j < k ==> s[j] > 0,
    ensures
        radix_sum(s, radix_digits(s, i), k) == i % stride(s, k),
    decreases k,
{
    if k > 0 {
        lemma_sum_of_digits(s, i, k - 1);
        lemma_stride_positive(s, k - 1);
        let w = stride(s, k - 1);
        let b = s[k - 1];
        let x = radix_digits(s, i);
        assert(x[k - 1] == (i / w) % b);
        lemma_mod_breakdown(i as int, w as int, b as int);
        assert(((i / w) % b) * w == w * ((i / w) % b)) by (nonlinear_arith);
    }
}

/// The digits of a number below the product are valid and denote it.
pub proof fn lemma_index_of_digits(s: Seq<nat>, i: nat)
    requires
        i < radix_size(s),
    ensures
        radix_valid(s, radix_digits(s, i)),
        radix_index(s, radix_digits(s, i)) == i,
{
    lemma_size_zero(s);
    lemma_sum_of_digits(s, i, s.len() as int);
    lemma_small_mod(i, radix_size(s));
}

/// One step of reading digits from the last to the first: the remainder by
/// weight `k + 1`, divided by weight `k`, is digit `k`, and what is left is
/// the remainder by weight `k`.
pub proof fn lemma_digit_step(s: Seq<nat>, i: nat, k: int)
    requires
        0 <= k < s.len(),
        forall|j: int| 0 <= j <= k ==> s[j] > 0,
    ensures
        stride(s, k) > 0,
        stride(s, k + 1) / s[k] == stride(s, k),
        radix_digit(s, i, k) < s[k],
        (i % stride(s, k + 1)) / stride(s, k) == radix_digit(s, i, k),
        (i % stride(s, k + 1)) - radix_digit(s, i, k) * stride(s, k) == i % stride(s, k),
{
    lemma_stride_positive(s, k);
    let w = stride(s, k);
    let b = s[k];
    let d = (i / w) % b;
    let r = i % w;
    assert(stride(s, k + 1) == w * b);
    assert(d < b && r < w) by (nonlinear_arith)
        requires
            d == (i / w) % b,
            r == i % w,
            b > 0,
            w > 0,
    ;
    lemma_mod_breakdown(i as int, w as int, b as int);
    assert(w * d + r == d * w + r) by (nonlinear_arith);
    lemma_fundamental_div_mod_converse((i % (w * b)) as int, w as int, d as int, r as int);
    lemma_fundamental_div_mod_converse((w * b) as int, b as int, w as int, 0);
}

/// Every digit of the number 0 is 0.
pub proof fn lemma_digit_of_zero(s: Seq<nat>, k: int)
    requires
        0 <= k < s.len(),
        radix_size(s) > 0,
    ensures
        radix_digit(s, 0, k) == 0,
{
    lemma_size_zero(s);
    lemma_stride_le_size(s, k);
    lemma_div_of0(stride(s, k) as int);
    lemma_small_mod(0, s[k]);
}

/// A number below the product is its own remainder by the product, and no
/// size is zero.
pub proof fn lemma_digits_start(s: Seq<nat>, i: nat)
    requires
        i < radix_size(s),
    ensures
        i % stride(s, s.len() as int) == i,
        forall|j: int| 0 <= j < s.len() ==> s[j] > 0,
{
    lemma_size_zero(s);
    lemma_small_mod(i, radix_size(s));
}

/// A number below `m * n` splits into a quotient below `m` and a
/// remainder below `n`.
pub proof fn lemma_split(i: nat, m: nat, n: nat)
    requires
        i < m * n,
    ensures
        n > 0,
        i / n < m,
        i % n < n,
        (i / n) * n + i % n == i,
{
    assert(n > 0) by (nonlinear_arith)
        requires
            i < m * n,
    ;
    let q = i / n;
    let r = i % n;
    assert(q * n + r == i && r < n) by (nonlinear_arith)
        requires
            n > 0,
            q == i / n,
            r == i % n,
    ;
    assert(q < m) by (nonlinear_arith)
        requires
            q * n + r == i,
            i < m * n,
            n > 0,
    ;
}

/// A quotient below `m` and a remainder below `n` join into a number
/// below `m * n` from which both can be read back.
pub proof fn lemma_join(q: nat, r: nat, m: nat, n: nat)
    requires
        q < m,
        r < n,
    ensures
        q * n + r < m * n,
        (q * n + r) / n == q,
        (q * n + r) % n == r,
{
    assert(q * n + r < m * n) by (nonlinear_arith)
        requires
            q < m,
            r < n,
    ;
    lemma_fundamental_div_mod_converse((q * n + r) as int, n as int, q as int, r as int);
}

} // verus!
