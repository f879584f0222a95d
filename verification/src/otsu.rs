use vstd::prelude::*;

verus! {

// ---------------------------------------------------------------------------
// Histogram
// ---------------------------------------------------------------------------

/// How many bytes of `s` equal `v`.
pub open spec fn count_of(s: Seq<u8>, v: u8) -> nat
    decreases s.len(),
{
    if s.len() == 0 {
        0
    } else {
        count_of(s.drop_last(), v) + if s.last() == v {
            1nat
        } else {
            0nat
        }
    }
}

/// The intensity histogram of a grayscale byte sequence: 256 bins, one per
/// 8-bit level.
pub open spec fn hist_of(s: Seq<u8>) -> Seq<usize> {
    Seq::new(256, |v: int| count_of(s, v as u8) as usize)
}

/// Sum of the first `n` bins.
pub open spec fn psum(h: Seq<usize>, n: int) -> int
    decreases n,
{
    if n <= 0 {
        0
    } else {
        psum(h, n - 1) + h[n - 1]
    }
}

/// Weighted sum of the first `n` bins, each bin weighted by its level.
pub open spec fn wsum(h: Seq<usize>, n: int) -> int
    decreases n,
{
    if n <= 0 {
        0
    } else {
        wsum(h, n - 1) + h[n - 1] * (n - 1)
    }
}

/// No byte occurs more often than the sequence is long.
pub proof fn lemma_count_le_len(s: Seq<u8>, v: u8)
    ensures
        count_of(s, v) <= s.len(),
    decreases s.len(),
{
    if s.len() > 0 {
        lemma_count_le_len(s.drop_last(), v);
    }
}

/// Partial sums of a histogram grow with the range.
pub proof fn lemma_psum_monotone(h: Seq<usize>, m: int, n: int)
    requires
        0 <= m <= n <= h.len(),
    ensures
        psum(h, m) <= psum(h, n),
    decreases n - m,
{
    if m < n {
        lemma_psum_monotone(h, m, n - 1);
    }
}

/// Weighted partial sums of a histogram grow with the range.
pub proof fn lemma_wsum_monotone(h: Seq<usize>, m: int, n: int)
    requires
        0 <= m <= n <= h.len(),
    ensures
        wsum(h, m) <= wsum(h, n),
    decreases n - m,
{
    if m < n {
        lemma_wsum_monotone(h, m, n - 1);
        assert(h[n - 1] * (n - 1) >= 0) by (nonlinear_arith)
            requires h[n - 1] >= 0 && n - 1 >= 0;
    }
}

/// Each level is at most 255, so the weighted sum is at most 255 times the
/// plain sum.
pub proof fn lemma_wsum_le(h: Seq<usize>, n: int)
    requires
        0 <= n <= h.len(),
        h.len() == 256,
    ensures
        wsum(h, n) <= 255 * psum(h, n),
    decreases n,
{
    if n > 0 {
        lemma_wsum_le(h, n - 1);
        assert(h[n - 1] * (n - 1) <= h[n - 1] * 255) by (nonlinear_arith)
            requires h[n - 1] >= 0 && n - 1 <= 255;
    }
}

/// Raising one bin by one raises every partial sum that covers it by one.
proof fn lemma_psum_bump(a: Seq<usize>, b: Seq<usize>, j: int, n: int)
    requires
        a.len() == b.len(),
        0 <= j < a.len(),
        b[j] == a[j] + 1,
        forall|k: int| 0 <= k < a.len() && k != j ==> b[k] == a[k],
        0 <= n <= a.len(),
    ensures
        psum(b, n) == psum(a, n) + if j < n {
            1int
        } else {
            0int
        },
    decreases n,
{
    if n > 0 {
        lemma_psum_bump(a, b, j, n - 1);
    }
}

/// The histogram of a sequence counts every byte once: its bins sum to the
/// length of the sequence.
pub proof fn lemma_hist_total(s: Seq<u8>)
    requires
        s.len() <= usize::MAX,
    ensures
        psum(hist_of(s), 256) == s.len(),
    decreases s.len(),
{
    if s.len() == 0 {
        lemma_psum_all_zero(hist_of(s), 256);
    } else {
        let t = s.drop_last();
        lemma_hist_total(t);
        let x = s.last();
        assert forall|v: int| 0 <= v < 256 && v != x implies hist_of(s)[v] == hist_of(t)[v] by {
            lemma_count_le_len(t, v as u8);
        }
        assert(hist_of(s)[x as int] == hist_of(t)[x as int] + 1) by {
            lemma_count_le_len(t, x);
        }
        lemma_psum_bump(hist_of(t), hist_of(s), x as int, 256);
    }
}

/// Partial sums of an all-zero histogram are zero.
proof fn lemma_psum_all_zero(h: Seq<usize>, n: int)
    requires
        0 <= n <= h.len(),
        forall|k: int| 0 <= k < h.len() ==> h[k] == 0,
    ensures
        psum(h, n) == 0,
    decreases n,
{
    if n > 0 {
        lemma_psum_all_zero(h, n - 1);
    }
}

/// Builds the intensity histogram of a grayscale buffer.
pub fn build_histogram(bytes: &Vec<u8>) -> (h: Vec<usize>)
    ensures
        h@ == hist_of(bytes@),
        psum(h@, 256) == bytes@.len(),
{
    let mut h: Vec<usize> = Vec::new();
    let mut k: usize = 0;
    while k < 256
        invariant
            k <= 256,
            h@.len() == k,
            forall|v: int| 0 <= v < k ==> h@[v] == 0,
        decreases 256 - k,
    {
        h.push(0);
        k = k + 1;
    }
    let mut i: usize = 0;
    while i < bytes.len()
        invariant
            i <= bytes@.len(),
            h@.len() == 256,
            forall|v: int| 0 <= v < 256 ==> h@[v] == count_of(bytes@.take(i as int), v as u8),
        decreases bytes@.len() - i,
    {
        let ghost pre = bytes@.take(i as int);
        let ghost post = bytes@.take(i as int + 1);
        let b = bytes[i];
        proof {
            assert(post.drop_last() =~= pre);
            assert(post.last() == bytes@[i as int]);
            lemma_count_le_len(pre, b);
            assert(bytes@.len() == bytes.len());
        }
        let cur = h[b as usize];
        h.set(b as usize, cur + 1);
        proof {
            assert forall|v: int| 0 <= v < 256 implies h@[v] == count_of(post, v as u8) by {
                assert(count_of(post, v as u8) == count_of(pre, v as u8) + if post.last() == v {
                    1nat
                } else {
                    0nat
                });
            }
        }
        i = i + 1;
    }
    proof {
        assert(bytes@.take(bytes@.len() as int) =~= bytes@);
        assert(h@ =~= hist_of(bytes@));
        assert(bytes@.len() == bytes.len());
        lemma_hist_total(bytes@);
    }
    h
}

// ---------------------------------------------------------------------------
// Threshold search
// ---------------------------------------------------------------------------

/// Pixels below the candidate split `n`.
pub open spec fn sum_left(h: Seq<usize>, n: int) -> int {
    psum(h, n)
}

/// Pixels at or above the candidate split `n`.
pub open spec fn sum_right(h: Seq<usize>, n: int) -> int {
    psum(h, 256) - psum(h, n)
}

/// Weighted count of the pixels below `n`.
pub open spec fn mulsum_left(h: Seq<usize>, n: int) -> int {
    wsum(h, n)
}

/// Weighted count of the pixels in `[n, 255)`. The top bin is left out of
/// the weighted sum: the statistic deliberately keeps this asymmetry, since
/// changing it would change the threshold chosen on real images.
pub open spec fn mulsum_right(h: Seq<usize>, n: int) -> int {
    wsum(h, 255) - wsum(h, n)
}

/// A split is valid when both sides hold at least one pixel.
pub open spec fn split_valid(h: Seq<usize>, n: int) -> bool {
    sum_left(h, n) != 0 && sum_right(h, n) != 0
}

/// Numerator of the inter-class separation score at split `n`: the squared
/// difference of the cross-weighted sums.
pub open spec fn score_num(h: Seq<usize>, n: int) -> int {
    let d = sum_left(h, n) * mulsum_right(h, n) - sum_right(h, n) * mulsum_left(h, n);
    d * d
}

/// Denominator of the inter-class separation score at split `n`.
pub open spec fn score_den(h: Seq<usize>, n: int) -> int {
    sum_left(h, n) * sum_right(h, n)
}

/// The score at split `a` is at least the score at split `b`, as fractions
/// compared by cross-multiplication.
pub open spec fn score_ge(h: Seq<usize>, a: int, b: int) -> bool {
    score_num(h, a) * score_den(h, b) >= score_num(h, b) * score_den(h, a)
}

/// Split `n` is the one the search returns: valid, of maximal score, and the
/// first split of that score in ascending order.
pub open spec fn is_chosen(h: Seq<usize>, n: int) -> bool {
    &&& 0 <= n < 256
    &&& split_valid(h, n)
    &&& forall|m: int| 0 <= m < 256 && split_valid(h, m) ==> score_ge(h, n, m)
    &&& forall|m: int| 0 <= m < n && split_valid(h, m) ==> !score_ge(h, m, n)
}

/// Some split of the histogram is valid.
pub open spec fn has_split(h: Seq<usize>) -> bool {
    exists|n: int| 0 <= n < 256 && split_valid(h, n)
}

/// Comparing fractions by parts: if `a/b <= c/d` and `c/d < e/f`, then
/// `a/b < e/f`, with every fraction written as a cross-product.
proof fn lemma_frac_trans(a: int, b: int, c: int, d: int, e: int, f: int)
    requires
        b > 0,
        d > 0,
        f > 0,
        a * d <= c * b,
        c * f < e * d,
    ensures
        a * f < e * b,
{
    assert(a * d * f <= c * b * f) by (nonlinear_arith)
        requires a * d <= c * b && f > 0;
    assert(c * f * b < e * d * b) by (nonlinear_arith)
        requires c * f < e * d && b > 0;
    assert(a * d * f < e * d * b) by (nonlinear_arith)
        requires a * d * f <= c * b * f && c * f * b < e * d * b;
    assert(a * f < e * b) by (nonlinear_arith)
        requires a * d * f < e * d * b && d > 0;
}

/// Exact comparison of two non-negative fractions: decides `a/b > c/d` by
/// quotients and remainders, recursing on the inverted remainders so that no
/// intermediate product can overflow.
pub fn frac_gt(a: u128, b: u128, c: u128, d: u128) -> (r: bool)
    requires
        b > 0,
        d > 0,
    ensures
        r == (a * d > c * b),
    decreases b + d,
{
    let q1 = a / b;
    let q2 = c / d;
    let r1 = a % b;
    let r2 = c % d;
    proof {
        vstd::arithmetic::div_mod::lemma_fundamental_div_mod(a as int, b as int);
        vstd::arithmetic::div_mod::lemma_fundamental_div_mod(c as int, d as int);
        vstd::arithmetic::div_mod::lemma_mod_bound(a as int, b as int);
        vstd::arithmetic::div_mod::lemma_mod_bound(c as int, d as int);
    }
    if q1 > q2 {
        proof {
            assert(a * d > c * b) by (nonlinear_arith)
                requires
                    a == b * q1 + r1,
                    c == d * q2 + r2,
                    0 <= r1,
                    0 <= r2 < d,
                    b > 0,
                    d > 0,
                    q1 > q2,
            ;
        }
        true
    } else if q1 < q2 {
        proof {
            assert(a * d < c * b) by (nonlinear_arith)
                requires
                    a == b * q1 + r1,
                    c == d * q2 + r2,
                    0 <= r1 < b,
                    0 <= r2,
                    b > 0,
                    d > 0,
                    q1 < q2,
            ;
        }
        false
    } else if r1 == 0 {
        proof {
            assert(a * d <= c * b) by (nonlinear_arith)
                requires
                    a == b * q1 + r1,
                    c == d * q2 + r2,
                    r1 == 0,
                    0 <= r2,
                    b > 0,
                    d > 0,
                    q1 == q2,
            ;
        }
        false
    } else if r2 == 0 {
        proof {
            assert(a * d > c * b) by (nonlinear_arith)
                requires
                    a == b * q1 + r1,
                    c == d * q2 + r2,
                    r1 > 0,
                    r2 == 0,
                    b > 0,
                    d > 0,
                    q1 == q2,
            ;
        }
        true
    } else {
        let sub = frac_gt(d, r2, b, r1);
        proof {
            assert((a * d > c * b) == (d * r1 > b * r2)) by (nonlinear_arith)
                requires
                    a == b * q1 + r1,
                    c == d * q2 + r2,
                    q1 == q2,
            ;
        }
        sub
    }
}

/// Finds the split of the histogram that maximizes the inter-class
/// separation score, scanning candidates in ascending order and keeping the
/// first maximum. Returns `None` exactly when every split is degenerate
/// (one side empty). The scores are compared exactly, as fractions.
///
/// The total pixel count is bounded so that every intermediate product fits
/// the machine words the scan uses.
pub fn otsu_threshold(h: &Vec<usize>) -> (r: Option<u8>)
    requires
        h@.len() == 256,
        psum(h@, 256) <= 0x1000_0000,
    ensures
        r is Some <==> has_split(h@),
        r is Some ==> is_chosen(h@, r->Some_0 as int),
{
    let mut total_p: u128 = 0;
    let mut i: usize = 0;
    while i < 256
        invariant
            h@.len() == 256,
            psum(h@, 256) <= 0x1000_0000,
            i <= 256,
            total_p == psum(h@, i as int),
        decreases 256 - i,
    {
        proof {
            lemma_psum_monotone(h@, i as int + 1, 256);
            lemma_psum_monotone(h@, 0, i as int);
        }
        total_p = total_p + (h[i] as u128);
        i = i + 1;
    }
    let mut total_w: u128 = 0;
    let mut k: usize = 0;
    while k < 255
        invariant
            h@.len() == 256,
            psum(h@, 256) <= 0x1000_0000,
            k <= 255,
            total_w == wsum(h@, k as int),
        decreases 255 - k,
    {
        proof {
            lemma_wsum_le(h@, k as int + 1);
            lemma_psum_monotone(h@, k as int + 1, 256);
            lemma_wsum_monotone(h@, 0, k as int);
            lemma_psum_monotone(h@, 0, k as int);
            lemma_psum_monotone(h@, k as int, k as int + 1);
            assert((h@[k as int] as int) * (k as int) <= 0xf_f000_0000) by (nonlinear_arith)
                requires h@[k as int] <= 0x1000_0000 && 0 <= k < 255 && h@[k as int] >= 0;
        }
        total_w = total_w + (h[k] as u128) * (k as u128);
        k = k + 1;
    }
    proof {
        lemma_wsum_le(h@, 255);
        lemma_psum_monotone(h@, 255, 256);
        assert(total_w <= 0xf_f000_0000);
    }

    let mut sl: u128 = 0;
    let mut wl: u128 = 0;
    let mut found: bool = false;
    let mut bn: usize = 0;
    let mut bnum: u128 = 0;
    let mut bden: u128 = 0;
    let mut n: usize = 0;
    while n < 256
        invariant
            h@.len() == 256,
            psum(h@, 256) <= 0x1000_0000,
            total_p == psum(h@, 256),
            total_w == wsum(h@, 255),
            total_w <= 0xf_f000_0000,
            n <= 256,
            sl == psum(h@, n as int),
            wl == wsum(h@, n as int),
            found ==> bn < n && split_valid(h@, bn as int) && bnum == score_num(h@, bn as int)
                && bden == score_den(h@, bn as int) && bden > 0,
            found ==> forall|m: int|
                0 <= m < n && split_valid(h@, m) ==> score_ge(h@, bn as int, m),
            found ==> forall|m: int|
                0 <= m < bn && split_valid(h@, m) ==> !score_ge(h@, m, bn as int),
            !found ==> forall|m: int| 0 <= m < n ==> !split_valid(h@, m),
        decreases 256 - n,
    {
        proof {
            lemma_psum_monotone(h@, 0, n as int);
            lemma_psum_monotone(h@, n as int, 256);
            lemma_wsum_monotone(h@, 0, n as int);
            lemma_wsum_monotone(h@, n as int, 255);
        }
        let sr: u128 = total_p - sl;
        let mr: u128 = total_w - wl;
        if sl != 0 && sr != 0 {
            proof {
                assert(sl * mr <= 0xff00_0000_0000_0000) by (nonlinear_arith)
                    requires 0 <= sl <= 0x1000_0000 && 0 <= mr <= 0xf_f000_0000;
                assert(sr * wl <= 0xff00_0000_0000_0000) by (nonlinear_arith)
                    requires 0 <= sr <= 0x1000_0000 && 0 <= wl <= 0xf_f000_0000;
                assert(sl * sr <= 0x100_0000_0000_0000) by (nonlinear_arith)
                    requires 0 <= sl <= 0x1000_0000 && 0 <= sr <= 0x1000_0000;
            }
            let x = sl * mr;
            let y = sr * wl;
            let dd = crate::diff(x, y);
            proof {
                assert(dd * dd <= 0xfe01_0000_0000_0000_0000_0000_0000_0000) by (nonlinear_arith)
                    requires 0 <= dd <= 0xff00_0000_0000_0000;
            }
            let num = dd * dd;
            let den = sl * sr;
            proof {
                assert(num == score_num(h@, n as int)) by (nonlinear_arith)
                    requires
                        num == dd * dd,
                        dd == x - y || dd == y - x,
                        score_num(h@, n as int) == (x - y) * (x - y),
                ;
                assert(den == score_den(h@, n as int));
                assert(den >= 1) by (nonlinear_arith)
                    requires den == sl * sr && sl >= 1 && sr >= 1;
            }
            let take_it = if !found {
                true
            } else {
                frac_gt(num, den, bnum, bden)
            };
            if take_it {
                proof {
                    if found {
                        assert forall|m: int| 0 <= m < n && split_valid(h@, m) implies
                            score_ge(h@, n as int, m) && !score_ge(h@, m, n as int) by {
                            lemma_psum_monotone(h@, 0, m);
                            lemma_psum_monotone(h@, m, 256);
                            assert(score_den(h@, m) >= 1) by (nonlinear_arith)
                                requires sum_left(h@, m) >= 1 && sum_right(h@, m) >= 1;
                            lemma_frac_trans(
                                score_num(h@, m),
                                score_den(h@, m),
                                score_num(h@, bn as int),
                                score_den(h@, bn as int),
                                score_num(h@, n as int),
                                score_den(h@, n as int),
                            );
                        }
                    }
                }
                found = true;
                bn = n;
                bnum = num;
                bden = den;
            }
        }
        proof {
            lemma_psum_monotone(h@, n as int + 1, 256);
            lemma_wsum_le(h@, n as int + 1);
            lemma_psum_monotone(h@, 0, n as int);
            lemma_psum_monotone(h@, n as int, n as int + 1);
            assert((h@[n as int] as int) * (n as int) <= 0xf_f000_0000) by (nonlinear_arith)
                requires h@[n as int] <= 0x1000_0000 && 0 <= n < 256 && h@[n as int] >= 0;
        }
        sl = sl + (h[n] as u128);
        wl = wl + (h[n] as u128) * (n as u128);
        n = n + 1;
    }
    if found {
        proof {
            assert(is_chosen(h@, bn as int));
        }
        Some(bn as u8)
    } else {
        proof {
            if has_split(h@) {
                let w = choose|w: int| 0 <= w < 256 && split_valid(h@, w);
                assert(!split_valid(h@, w));
            }
        }
        None
    }
}

/// A histogram whose mass sits in a single bin admits no valid split: one
/// side of every candidate is empty, so the search reports failure.
pub proof fn lemma_single_bin_no_split(h: Seq<usize>, j: int)
    requires
        h.len() == 256,
        0 <= j < 256,
        forall|i: int| 0 <= i < 256 && i != j ==> h[i] == 0,
    ensures
        !has_split(h),
{
    assert forall|n: int| 0 <= n < 256 implies !split_valid(h, n) by {
        if n <= j {
            lemma_psum_zero_range(h, 0, n);
        } else {
            lemma_psum_zero_range(h, n, 256);
        }
    }
    if has_split(h) {
        let w = choose|w: int| 0 <= w < 256 && split_valid(h, w);
        assert(!split_valid(h, w));
    }
}

/// A stretch of empty bins adds nothing to the partial sums.
proof fn lemma_psum_zero_range(h: Seq<usize>, a: int, b: int)
    requires
        0 <= a <= b <= h.len(),
        forall|i: int| a <= i < b ==> h[i] == 0,
    ensures
        psum(h, b) == psum(h, a),
    decreases b - a,
{
    if a < b {
        lemma_psum_zero_range(h, a, b - 1);
    }
}

} // verus!
