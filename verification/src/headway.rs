use vstd::prelude::*;

verus! {

/// Sum of the values.
pub open spec fn total(g: Seq<u32>) -> int
    decreases g.len(),
{
    if g.len() == 0 {
        0
    } else {
        total(g.drop_last()) + g.last()
    }
}

/// Sum of the squared values.
pub open spec fn total_sq(g: Seq<u32>) -> int
    decreases g.len(),
{
    if g.len() == 0 {
        0
    } else {
        total_sq(g.drop_last()) + g.last() * g.last()
    }
}

/// Sum over the values of `(a * g - b)^2`.
pub open spec fn scaled_deviation_sq(g: Seq<u32>, a: int, b: int) -> int
    decreases g.len(),
{
    if g.len() == 0 {
        0
    } else {
        scaled_deviation_sq(g.drop_last(), a, b) + (a * g.last() - b) * (a * g.last() - b)
    }
}

/// Gaps between departures are regular when their coefficient of variation
/// (standard deviation over mean) is below 1/4. With `n` gaps of sum `S`, the
/// deviation of gap `g` from the mean is `(n*g - S)/n`, so
/// `CV^2 = sum((n*g - S)^2) / (n * S^2)` and `CV < 1/4` reads
/// `16 * sum((n*g - S)^2) < n * S^2`. Fewer than two gaps, or a zero mean,
/// carry no variation and count as regular.
pub open spec fn spec_is_regular_headway(gaps: Seq<u32>) -> bool {
    let n = gaps.len() as int;
    let s = total(gaps);
    gaps.len() < 2 || s <= 0 || 16 * scaled_deviation_sq(gaps, n, s) < n * s * s
}

proof fn lemma_deviation_expansion(g: Seq<u32>, a: int, b: int)
    ensures
        scaled_deviation_sq(g, a, b) == a * a * total_sq(g) - 2 * a * b * total(g) + g.len() * b * b,
    decreases g.len(),
{
    if g.len() > 0 {
        let h = g.drop_last();
        lemma_deviation_expansion(h, a, b);
        let x = g.last() as int;
        let q = total_sq(h);
        let s = total(h);
        let k = h.len() as int;
        assert((a * x - b) * (a * x - b) + a * a * q - 2 * a * b * s + k * b * b
            == a * a * (q + x * x) - 2 * a * b * (s + x) + (k + 1) * b * b) by (nonlinear_arith);
    }
}

proof fn lemma_totals_bounded(g: Seq<u32>)
    ensures
        0 <= total(g) <= g.len() * 0xffff_ffff,
        0 <= total_sq(g) <= g.len() * (0xffff_fffe_0000_0001),
    decreases g.len(),
{
    if g.len() > 0 {
        lemma_totals_bounded(g.drop_last());
        let x = g.last() as int;
        let k = g.drop_last().len() as int;
        assert(0 <= x * x <= 0xffff_fffe_0000_0001) by (nonlinear_arith)
            requires 0 <= x <= 0xffff_ffff;
        assert(k * 0xffff_ffff + 0xffff_ffff == (k + 1) * 0xffff_ffff);
        assert(k * 0xffff_fffe_0000_0001 + 0xffff_fffe_0000_0001 == (k + 1) * 0xffff_fffe_0000_0001);
    }
}

// Two-word numbers `hi * 2^128 + lo`, wide enough for the products of the
// regularity test whatever the number of gaps.

/// The value of a two-word number.
pub open spec fn wide(x: (u128, u128)) -> int {
    x.0 * 0x1_0000_0000_0000_0000_0000_0000_0000_0000int + x.1
}

proof fn lemma_split(x: int, d: int)
    requires
        d > 0,
        x >= 0,
    ensures
        x == d * (x / d) + x % d,
        0 <= x % d < d,
        x / d >= 0,
{
    vstd::arithmetic::div_mod::lemma_fundamental_div_mod(x, d);
    vstd::arithmetic::div_mod::lemma_mod_bound(x, d);
    vstd::arithmetic::div_mod::lemma_div_pos_is_pos(x, d);
}

/// The full product of two words.
fn mul_wide(a: u128, b: u128) -> (r: (u128, u128))
    ensures
        wide(r) == a * b,
{
    let w: u128 = 0x1_0000_0000_0000_0000;
    let a1 = a / w;
    let a0 = a % w;
    let b1 = b / w;
    let b0 = b % w;
    proof {
        lemma_split(a as int, w as int);
        lemma_split(b as int, w as int);
        assert(a1 < w) by (nonlinear_arith)
            requires a == w * a1 + a0, a0 >= 0, a < w * w, w > 0;
        assert(b1 < w) by (nonlinear_arith)
            requires b == w * b1 + b0, b0 >= 0, b < w * w, w > 0;
        assert(a0 * b0 < w * w && a0 * b1 < w * w && a1 * b0 < w * w && a1 * b1 < w * w) by (nonlinear_arith)
            requires a0 < w, a1 < w, b0 < w, b1 < w, a0 >= 0, a1 >= 0, b0 >= 0, b1 >= 0;
    }
    let p00 = a0 * b0;
    let p01 = a0 * b1;
    let p10 = a1 * b0;
    let p11 = a1 * b1;
    let m1 = p01 / w;
    let m0 = p01 % w;
    let k1 = p10 / w;
    let k0 = p10 % w;
    proof {
        lemma_split(p01 as int, w as int);
        lemma_split(p10 as int, w as int);
    }
    let t = m0 + k0;
    let t1 = t / w;
    let t0 = t % w;
    proof {
        lemma_split(t as int, w as int);
        assert(t1 <= 1) by (nonlinear_arith)
            requires t == w * t1 + t0, t0 >= 0, t < 2 * w, w > 0;
        assert(t0 * w < w * w) by (nonlinear_arith)
            requires t0 < w, t0 >= 0, w > 0;
    }
    let shifted = t0 * w;
    let room = u128::MAX - shifted;
    let (carry, lo): (u128, u128) = if p00 > room {
        (1, p00 - room - 1)
    } else {
        (0, p00 + shifted)
    };
    proof {
        // a * b = p11 * 2^128 + (p01 + p10) * 2^64 + p00, and p01 + p10 =
        // (m1 + k1 + t1) * 2^64 + t0.
        assert(a * b == p11 * (w * w) + (p01 + p10) * w + p00) by (nonlinear_arith)
            requires a == w * a1 + a0, b == w * b1 + b0, p00 == a0 * b0, p01 == a0 * b1,
                p10 == a1 * b0, p11 == a1 * b1;
        assert(p01 + p10 == (m1 + k1 + t1) * w + t0) by (nonlinear_arith)
            requires p01 == w * m1 + m0, p10 == w * k1 + k0, t == m0 + k0, t == w * t1 + t0;
        assert(shifted + p00 == carry * (w * w) + lo);
        assert(a * b == (p11 + m1 + k1 + t1 + carry) * (w * w) + lo) by (nonlinear_arith)
            requires a * b == p11 * (w * w) + (p01 + p10) * w + p00,
                p01 + p10 == (m1 + k1 + t1) * w + t0,
                shifted == t0 * w,
                shifted + p00 == carry * (w * w) + lo;
        assert(a * b < w * w * (w * w)) by (nonlinear_arith)
            requires a < w * w, b < w * w, a >= 0, b >= 0;
        assert(p11 + m1 + k1 + t1 + carry < w * w) by (nonlinear_arith)
            requires a * b == (p11 + m1 + k1 + t1 + carry) * (w * w) + lo, lo >= 0,
                a * b < w * w * (w * w), w > 0;
        assert(w * w == 0x1_0000_0000_0000_0000_0000_0000_0000_0000int);
    }
    (p11 + m1 + k1 + t1 + carry, lo)
}

/// Sixteen times a two-word number below 2^252.
fn times_sixteen(x: (u128, u128)) -> (r: (u128, u128))
    requires
        x.0 < 0x1000_0000_0000_0000_0000_0000_0000_0000,
    ensures
        wide(r) == 16 * wide(x),
{
    let d: u128 = 0x1000_0000_0000_0000_0000_0000_0000_0000;
    let top = x.1 / d;
    let rest = x.1 % d;
    proof {
        lemma_split(x.1 as int, d as int);
        assert(top < 16) by (nonlinear_arith)
            requires x.1 == d * top + rest, rest >= 0, x.1 < 16 * d, d > 0;
    }
    let r = (x.0 * 16 + top, rest * 16);
    proof {
        assert(16 * wide(x) == wide(r)) by (nonlinear_arith)
            requires x.1 == d * top + rest, r.0 == x.0 * 16 + top, r.1 == rest * 16,
                d * 16 == 0x1_0000_0000_0000_0000_0000_0000_0000_0000int,
                wide(x) == x.0 * 0x1_0000_0000_0000_0000_0000_0000_0000_0000int + x.1,
                wide(r) == r.0 * 0x1_0000_0000_0000_0000_0000_0000_0000_0000int + r.1;
    }
    r
}

/// The sum of two two-word numbers whose high words are small.
fn add_wide(x: (u128, u128), y: (u128, u128)) -> (r: (u128, u128))
    requires
        x.0 < 0x1_0000_0000_0000_0000_0000_0000_0000,
        y.0 < 0x1_0000_0000_0000_0000_0000_0000_0000,
    ensures
        wide(r) == wide(x) + wide(y),
{
    let room = u128::MAX - x.1;
    if y.1 > room {
        (x.0 + y.0 + 1, y.1 - room - 1)
    } else {
        (x.0 + y.0, x.1 + y.1)
    }
}

/// Comparison of two-word numbers.
fn less_wide(x: (u128, u128), y: (u128, u128)) -> (r: bool)
    ensures
        r == (wide(x) < wide(y)),
{
    proof {
        let w = 0x1_0000_0000_0000_0000_0000_0000_0000_0000int;
        if x.0 < y.0 {
            assert(wide(x) < wide(y)) by (nonlinear_arith)
                requires x.0 < y.0, x.1 < w, y.1 >= 0, wide(x) == x.0 * w + x.1, wide(y) == y.0 * w + y.1;
        } else if x.0 > y.0 {
            assert(wide(x) > wide(y)) by (nonlinear_arith)
                requires x.0 > y.0, y.1 < w, x.1 >= 0, wide(x) == x.0 * w + x.1, wide(y) == y.0 * w + y.1;
        }
    }
    x.0 < y.0 || (x.0 == y.0 && x.1 < y.1)
}

/// Are the gaps between consecutive departures regular (coefficient of variation
/// below 0.25)? Regular sparse service is taken to be intentional (e.g. rural
/// morning/evening runs); one huge gap among frequent ones is not.
pub fn is_regular_headway(gaps: &[u32]) -> (r: bool)
    ensures
        r == spec_is_regular_headway(gaps@),
{
    if gaps.len() < 2 {
        return true;
    }
    let mut s: u128 = 0;
    let mut q: u128 = 0;
    let mut i: usize = 0;
    while i < gaps.len()
        invariant
            i <= gaps.len(),
            s == total(gaps@.take(i as int)),
            q == total_sq(gaps@.take(i as int)),
        decreases gaps.len() - i,
    {
        proof {
            assert(gaps@.take(i + 1).drop_last() =~= gaps@.take(i as int));
            lemma_totals_bounded(gaps@.take(i + 1));
            assert(i + 1 <= 0xffff_ffff_ffff_ffff);
            assert((i + 1) * 0xffff_ffff <= 0xffff_ffff_ffff_ffff * 0xffff_ffff) by (nonlinear_arith)
                requires i + 1 <= 0xffff_ffff_ffff_ffff;
            assert((i + 1) * (0xffff_fffe_0000_0001) <= 0xffff_ffff_ffff_ffff * (0xffff_fffe_0000_0001))
                by (nonlinear_arith)
                requires i + 1 <= 0xffff_ffff_ffff_ffff;
        }
        let g = gaps[i] as u128;
        s = s + g;
        q = q + g * g;
        i += 1;
    }
    assert(gaps@.take(i as int) =~= gaps@);
    if s == 0 {
        return true;
    }
    let n = gaps.len() as u128;
    proof {
        lemma_totals_bounded(gaps@);
        lemma_deviation_expansion(gaps@, n as int, s as int);
        assert(n <= 0xffff_ffff_ffff_ffff);
        // 16 * sum((n g - S)^2) = 16 n (n Q - S^2) and the comparison with n S^2 divides by n.
        assert(16 * scaled_deviation_sq(gaps@, n as int, s as int) < n * s * s
            <==> 16 * (n * q) < 17 * (s * s)) by (nonlinear_arith)
            requires
                scaled_deviation_sq(gaps@, n as int, s as int) == n * n * q - 2 * n * s * s + n * s * s,
                n >= 2;
        assert(n * q < 0x1_0000_0000_0000_0000_0000_0000_0000_0000_0000_0000_0000_0000int) by (nonlinear_arith)
            requires n <= 0xffff_ffff_ffff_ffff, q <= n * (0xffff_fffe_0000_0001), q >= 0;
        assert(s * s < 0x1_0000_0000_0000_0000_0000_0000_0000_0000_0000_0000_0000_0000int) by (nonlinear_arith)
            requires s <= n * 0xffff_ffff, n <= 0xffff_ffff_ffff_ffff, s >= 0;
    }
    let a = mul_wide(n, q);
    let b = mul_wide(s, s);
    proof {
        let w = 0x1_0000_0000_0000_0000_0000_0000_0000_0000int;
        assert(a.0 < 0x1_0000_0000_0000_0000) by (nonlinear_arith)
            requires a.0 * w + a.1 < 0x1_0000_0000_0000_0000int * w, a.1 >= 0, w > 0;
        assert(b.0 < 0x1_0000_0000_0000_0000) by (nonlinear_arith)
            requires b.0 * w + b.1 < 0x1_0000_0000_0000_0000int * w, b.1 >= 0, w > 0;
    }
    let a16 = times_sixteen(a);
    let b16 = times_sixteen(b);
    let b17 = add_wide(b16, b);
    less_wide(a16, b17)
}


proof fn lemma_constant_totals(g: Seq<u32>, c: u32)
    requires
        forall|i: int| 0 <= i < g.len() ==> g[i] == c,
    ensures
        total(g) == g.len() * c,
        forall|a: int| #[trigger] scaled_deviation_sq(g, a, a * c) == 0,
    decreases g.len(),
{
    if g.len() > 0 {
        lemma_constant_totals(g.drop_last(), c);
        assert(g.last() == c);
        let k = g.drop_last().len() as int;
        assert(k * c + c == (k + 1) * c) by (nonlinear_arith);
        assert forall|a: int| #[trigger] scaled_deviation_sq(g, a, a * c) == 0 by {
            assert(scaled_deviation_sq(g.drop_last(), a, a * c) == 0);
        }
    }
}

/// Departures at perfectly even intervals are always regular.
pub proof fn law_equal_gaps_are_regular(gaps: Seq<u32>)
    requires
        forall|i: int, j: int| 0 <= i < gaps.len() && 0 <= j < gaps.len() ==> gaps[i] == gaps[j],
    ensures
        spec_is_regular_headway(gaps),
{
    if gaps.len() >= 2 {
        let c = gaps[0];
        lemma_constant_totals(gaps, c);
        let n = gaps.len() as int;
        assert(scaled_deviation_sq(gaps, n, n * c) == 0);
        let s = total(gaps);
        if s > 0 {
            assert(n * s * s > 0) by (nonlinear_arith)
                requires n >= 2, s > 0;
        }
    }
}

// ── Departure sequences ───────────────────────────────────────────────────────

/// Every element is smaller than the next one.
pub open spec fn strictly_increasing(s: Seq<u32>) -> bool {
    forall|i: int, j: int| 0 <= i < j < s.len() ==> s[i] < s[j]
}

/// Every element is at most the next one.
pub open spec fn nondecreasing(s: Seq<u32>) -> bool {
    forall|i: int, j: int| 0 <= i <= j < s.len() ==> s[i] <= s[j]
}

/// `r` lists the distinct values of `v` in increasing order.
pub open spec fn is_distinct_sorted_of(r: Seq<u32>, v: Seq<u32>) -> bool {
    strictly_increasing(r) && forall|x: u32| r.contains(x) <==> v.contains(x)
}

/// Two increasing sequences holding the same values are the same sequence:
/// the sorted, duplicate-free form of a list of times is unique.
pub proof fn law_distinct_sorted_is_unique(r1: Seq<u32>, r2: Seq<u32>)
    requires
        strictly_increasing(r1),
        strictly_increasing(r2),
        forall|x: u32| r1.contains(x) <==> r2.contains(x),
    ensures
        r1 == r2,
    decreases r1.len(),
{
    if r1.len() == 0 {
        if r2.len() > 0 {
            assert(r2.contains(r2[0]));
        }
    } else if r2.len() == 0 {
        assert(r1.contains(r1[0]));
    } else {
        // The last elements are both the maximum.
        let a = r1.last();
        let b = r2.last();
        assert(r1.contains(a));
        assert(r2.contains(b));
        let ia = choose|i: int| 0 <= i < r2.len() && r2[i] == a;
        let ib = choose|i: int| 0 <= i < r1.len() && r1[i] == b;
        assert(a <= b) by {
            if ia < r2.len() - 1 {
                assert(r2[ia] < r2[r2.len() - 1]);
            }
        }
        assert(b <= a) by {
            if ib < r1.len() - 1 {
                assert(r1[ib] < r1[r1.len() - 1]);
            }
        }
        let p1 = r1.drop_last();
        let p2 = r2.drop_last();
        assert forall|x: u32| p1.contains(x) <==> p2.contains(x) by {
            if p1.contains(x) {
                let i = choose|i: int| 0 <= i < p1.len() && p1[i] == x;
                assert(r1[i] < r1[r1.len() - 1]);
                assert(r1.contains(x));
                let j = choose|j: int| 0 <= j < r2.len() && r2[j] == x;
                assert(j != r2.len() - 1);
                assert(p2[j] == x);
            }
            if p2.contains(x) {
                let i = choose|i: int| 0 <= i < p2.len() && p2[i] == x;
                assert(r2[i] < r2[r2.len() - 1]);
                assert(r2.contains(x));
                let j = choose|j: int| 0 <= j < r1.len() && r1[j] == x;
                assert(j != r1.len() - 1);
                assert(p1[j] == x);
            }
        }
        law_distinct_sorted_is_unique(p1, p2);
        assert(r1 =~= p1.push(a));
        assert(r2 =~= p2.push(b));
    }
}

/// `slice::sort_unstable` on `u32`: the result is in ascending order and holds
/// the same values, each as often as before.
#[verifier::external_body]
fn sort_u32s(v: &mut Vec<u32>)
    ensures
        final(v)@.to_multiset() == old(v)@.to_multiset(),
        nondecreasing(final(v)@),
{
    v.sort_unstable();
}

/// Sorts the departure times and removes repeated ones.
pub fn distinct_sorted(v: Vec<u32>) -> (r: Vec<u32>)
    ensures
        is_distinct_sorted_of(r@, v@),
{
    let mut v = v;
    let ghost orig = v@;
    sort_u32s(&mut v);
    proof {
        broadcast use vstd::seq_lib::group_to_multiset_ensures;
        assert forall|x: u32| v@.contains(x) <==> orig.contains(x) by {
            assert(v@.contains(x) <==> v@.to_multiset().count(x) > 0);
            assert(orig.contains(x) <==> orig.to_multiset().count(x) > 0);
        }
    }
    let mut r: Vec<u32> = Vec::new();
    let mut i: usize = 0;
    while i < v.len()
        invariant
            i <= v.len(),
            nondecreasing(v@),
            strictly_increasing(r@),
            forall|x: u32| r@.contains(x) <==> v@.take(i as int).contains(x),
            i > 0 ==> r@.len() > 0 && r@.last() == v@[i - 1],
            i == 0 ==> r@.len() == 0,
        decreases v.len() - i,
    {
        let x = v[i];
        let ghost before = r@;
        if r.len() == 0 || r[r.len() - 1] != x {
            r.push(x);
            proof {
                assert forall|a: int, b: int| 0 <= a < b < r@.len() implies r@[a] < r@[b] by {
                    if b == r@.len() - 1 && a < b {
                        assert(before.contains(r@[a]));
                        let k = choose|k: int| 0 <= k < i && #[trigger] v@.take(i as int)[k] == r@[a];
                        assert(v@[k] <= v@[i as int]);
                        assert(before.last() == v@[i - 1]);
                        assert(v@[i - 1] <= v@[i as int]);
                        if a < before.len() - 1 {
                            assert(before[a] < before[before.len() - 1]);
                        }
                    }
                }
            }
        }
        proof {
            assert(v@.take(i + 1) =~= v@.take(i as int).push(x));
            assert forall|y: u32| r@.contains(y) <==> v@.take(i + 1).contains(y) by {
                if y == x {
                    assert(r@.contains(r@.last()));
                    assert(v@.take(i + 1)[i as int] == x);
                } else {
                    if r@.contains(y) {
                        let k = choose|k: int| 0 <= k < r@.len() && r@[k] == y;
                        assert(before.contains(y)) by {
                            if k == before.len() {
                            } else {
                                assert(before[k] == y);
                            }
                        }
                        let k2 = choose|k2: int| 0 <= k2 < i && #[trigger] v@.take(i as int)[k2] == y;
                        assert(v@.take(i + 1)[k2] == y);
                    }
                    if v@.take(i + 1).contains(y) {
                        let k = choose|k: int| 0 <= k < i + 1 && #[trigger] v@.take(i + 1)[k] == y;
                        assert(k != i);
                        assert(v@.take(i as int)[k] == y);
                        assert(before.contains(y));
                        let k3 = choose|k3: int| 0 <= k3 < before.len() && before[k3] == y;
                        assert(r@[k3] == y);
                    }
                }
            }
        }
        i += 1;
    }
    assert(v@.take(i as int) =~= v@);
    r
}


/// Differences between consecutive values: `d[1] - d[0], d[2] - d[1], ...`.
pub open spec fn gaps_of(d: Seq<u32>) -> Seq<u32> {
    Seq::new(if d.len() == 0 { 0 } else { (d.len() - 1) as nat }, |i: int| (d[i + 1] - d[i]) as u32)
}

/// Largest value, 0 for an empty sequence.
pub open spec fn seq_max(s: Seq<u32>) -> u32
    decreases s.len(),
{
    if s.len() == 0 {
        0
    } else if seq_max(s.drop_last()) >= s.last() {
        seq_max(s.drop_last())
    } else {
        s.last()
    }
}

/// Smallest value, 0 for an empty sequence.
pub open spec fn seq_min(s: Seq<u32>) -> u32
    decreases s.len(),
{
    if s.len() == 0 {
        0
    } else if s.len() == 1 {
        s[0]
    } else if seq_min(s.drop_last()) <= s.last() {
        seq_min(s.drop_last())
    } else {
        s.last()
    }
}

/// The gaps between consecutive departures of an ascending list.
pub fn consecutive_gaps(d: &[u32]) -> (g: Vec<u32>)
    requires
        nondecreasing(d@),
    ensures
        g@ == gaps_of(d@),
{
    let mut g: Vec<u32> = Vec::new();
    if d.len() < 2 {
        assert(g@ =~= gaps_of(d@));
        return g;
    }
    let mut i: usize = 1;
    while i < d.len()
        invariant
            1 <= i <= d.len(),
            nondecreasing(d@),
            g@.len() == i - 1,
            forall|k: int| 0 <= k < i - 1 ==> g@[k] == d@[k + 1] - d@[k],
        decreases d.len() - i,
    {
        assert(d@[i - 1] <= d@[i as int]);
        g.push(d[i] - d[i - 1]);
        i += 1;
    }
    assert(g@ =~= gaps_of(d@));
    g
}

/// Largest value of the slice (0 when empty).
pub fn max_of(s: &[u32]) -> (r: u32)
    ensures
        r == seq_max(s@),
{
    let mut m: u32 = 0;
    let mut i: usize = 0;
    while i < s.len()
        invariant
            i <= s.len(),
            m == seq_max(s@.take(i as int)),
        decreases s.len() - i,
    {
        assert(s@.take(i + 1).drop_last() =~= s@.take(i as int));
        if s[i] > m {
            m = s[i];
        }
        i += 1;
    }
    assert(s@.take(i as int) =~= s@);
    m
}

/// Smallest value of the slice (0 when empty).
pub fn min_of(s: &[u32]) -> (r: u32)
    ensures
        r == seq_min(s@),
{
    if s.len() == 0 {
        return 0;
    }
    let mut m: u32 = s[0];
    let mut i: usize = 1;
    assert(s@.take(1) =~= seq![s@[0]]);
    while i < s.len()
        invariant
            1 <= i <= s.len(),
            m == seq_min(s@.take(i as int)),
        decreases s.len() - i,
    {
        assert(s@.take(i + 1).drop_last() =~= s@.take(i as int));
        if s[i] < m {
            m = s[i];
        }
        i += 1;
    }
    assert(s@.take(i as int) =~= s@);
    m
}

/// OPR_001 on an ascending, duplicate-free list of departures: the largest gap
/// is reported when it exceeds `max_headway_secs`, the route is not listed as
/// rural, and the gaps are irregular.
pub open spec fn spec_sparse_service_gap(deps: Seq<u32>, max_headway_secs: int, is_rural: bool) -> Option<u32> {
    if deps.len() < 2 {
        None
    } else {
        let g = gaps_of(deps);
        if seq_max(g) > max_headway_secs && !is_rural && !spec_is_regular_headway(g) {
            Some(seq_max(g))
        } else {
            None
        }
    }
}

/// OPR_003 on an ascending, duplicate-free list of departures: the smallest
/// positive gap is reported when it is below `bunching_secs`.
pub open spec fn spec_bunching_gap(deps: Seq<u32>, bunching_secs: int) -> Option<u32> {
    if deps.len() < 2 {
        None
    } else {
        let m = seq_min(gaps_of(deps));
        if m < bunching_secs && m > 0 {
            Some(m)
        } else {
            None
        }
    }
}

/// OPR_001 for one (route, direction, service) group: sorts and deduplicates
/// the first departures of its trips and returns the largest gap when the
/// service has a real gap (see [`spec_sparse_service_gap`]).
pub fn sparse_service_gap(departures: Vec<u32>, max_headway_min: u32, is_rural: bool) -> (r: Option<u32>)
    requires
        max_headway_min * 60 <= u32::MAX,
    ensures
        exists|d: Seq<u32>|
            is_distinct_sorted_of(d, departures@) && r == spec_sparse_service_gap(
                d,
                max_headway_min * 60,
                is_rural,
            ),
{
    let d = distinct_sorted(departures);
    if d.len() < 2 {
        return None;
    }
    let max_secs = max_headway_min * 60;
    let g = consecutive_gaps(&d);
    let m = max_of(&g);
    if m > max_secs && !is_rural && !is_regular_headway(&g) {
        Some(m)
    } else {
        None
    }
}

/// OPR_003 for one (route, direction, service, first stop, pattern) group:
/// the smallest gap between distinct departures, when it is below the
/// bunching threshold.
pub fn bunching_gap(departures: Vec<u32>, bunching_min: u32) -> (r: Option<u32>)
    requires
        bunching_min * 60 <= u32::MAX,
    ensures
        exists|d: Seq<u32>|
            is_distinct_sorted_of(d, departures@) && r == spec_bunching_gap(d, bunching_min * 60),
{
    let d = distinct_sorted(departures);
    if d.len() < 2 {
        return None;
    }
    let bunching_secs = bunching_min * 60;
    let g = consecutive_gaps(&d);
    let m = min_of(&g);
    if m < bunching_secs && m > 0 {
        Some(m)
    } else {
        None
    }
}

/// OPR_003 reports the smallest gap between consecutive distinct departures:
/// a reported gap is one of those gaps, is positive and below the threshold,
/// and no gap is smaller; when nothing is reported, every gap is at least the
/// threshold.
pub proof fn law_bunching_gap_is_smallest_gap(deps: Seq<u32>, bunching_secs: int)
    requires
        strictly_increasing(deps),
    ensures
        match spec_bunching_gap(deps, bunching_secs) {
            Some(m) => {
                &&& 0 < m < bunching_secs
                &&& exists|i: int| 0 <= i < deps.len() - 1 && m == #[trigger] deps[i + 1] - deps[i]
                &&& forall|i: int| 0 <= i < deps.len() - 1 ==> m <= #[trigger] deps[i + 1] - deps[i]
            },
            None => forall|i: int|
                0 <= i < deps.len() - 1 ==> #[trigger] deps[i + 1] - deps[i] >= bunching_secs,
        },
{
    if deps.len() >= 2 {
        let g = gaps_of(deps);
        assert forall|i: int| 0 <= i < g.len() implies #[trigger] g[i] == deps[i + 1] - deps[i] by {
            assert(deps[i] < deps[i + 1]);
        }
        crate::calendar::lemma_seq_min_is_min(g);
        let m = seq_min(g);
        let k = choose|k: int| 0 <= k < g.len() && g[k] == m;
        assert(m == deps[k + 1] - deps[k]);
        assert(deps[k] < deps[k + 1]);
        assert forall|i: int| 0 <= i < deps.len() - 1 implies m <= #[trigger] deps[i + 1] - deps[i] by {
            assert(g[i] == deps[i + 1] - deps[i]);
        }
    }
}

/// FRQ_006 / FRQ_010 for one frequencies.txt row.
#[derive(Debug, Clone, Copy, PartialEq, Eq, Structural)]
pub struct FrequencyFindings {
    /// FRQ_006: the headway exceeds the warning threshold.
    pub long_headway: bool,
    /// FRQ_010: the headway is at or below the bunching threshold.
    pub bunching: bool,
}

/// FRQ_006 / FRQ_010 for a row with the given headway and trip id: rows
/// without `headway_secs` or without a trip id give no finding.
pub open spec fn spec_frequency_findings(
    headway_secs: Option<u32>,
    trip_id: Seq<char>,
    max_headway_min: u32,
    bunching_min: u32,
) -> FrequencyFindings {
    FrequencyFindings {
        long_headway: headway_secs is Some && trip_id.len() > 0 && headway_secs->0 > max_headway_min * 60,
        bunching: headway_secs is Some && trip_id.len() > 0 && headway_secs->0 <= bunching_min * 60,
    }
}

/// Checks one frequencies.txt row. Rows without `headway_secs` or without a
/// trip id are skipped (no finding).
pub fn frequency_findings(
    headway_secs: Option<u32>,
    trip_id: &str,
    max_headway_min: u32,
    bunching_min: u32,
) -> (r: FrequencyFindings)
    requires
        max_headway_min * 60 <= u32::MAX,
        bunching_min * 60 <= u32::MAX,
    ensures
        r == spec_frequency_findings(headway_secs, trip_id@, max_headway_min, bunching_min),
{
    let none = FrequencyFindings { long_headway: false, bunching: false };
    match headway_secs {
        None => none,
        Some(hw) => {
            if trip_id.is_empty() {
                none
            } else {
                FrequencyFindings { long_headway: hw > max_headway_min * 60, bunching: hw <= bunching_min * 60 }
            }
        },
    }
}

/// A headway cannot be reported as both too long and bunched when the
/// bunching threshold does not exceed the warning threshold.
pub proof fn law_frequency_findings_exclusive(
    headway_secs: Option<u32>,
    trip_id: Seq<char>,
    max_headway_min: u32,
    bunching_min: u32,
)
    requires
        bunching_min <= max_headway_min,
    ensures
        !(spec_frequency_findings(headway_secs, trip_id, max_headway_min, bunching_min).long_headway
            && spec_frequency_findings(headway_secs, trip_id, max_headway_min, bunching_min).bunching),
{
}

/// The bunching gap never exceeds the largest gap of the same departures.
pub proof fn law_min_gap_at_most_max_gap(s: Seq<u32>)
    ensures
        seq_min(s) <= seq_max(s),
    decreases s.len(),
{
    if s.len() > 1 {
        law_min_gap_at_most_max_gap(s.drop_last());
    }
}

// ── OPR_005: headways compared within a route type ───────────────────────────

/// OPR_005: the average gap between the distinct departures `d` (ascending)
/// of a (route, direction, service) group: the sum of the gaps divided by
/// their number, rounded down; none with fewer than two departures.
pub open spec fn spec_average_headway(d: Seq<u32>) -> Option<int> {
    if d.len() < 2 {
        None
    } else {
        Some(total(gaps_of(d)) / (d.len() - 1))
    }
}

/// The gaps between ascending values add up to the distance from the first
/// to the last.
proof fn lemma_gaps_telescope(d: Seq<u32>)
    requires
        d.len() >= 1,
        nondecreasing(d),
    ensures
        total(gaps_of(d)) == d.last() - d[0],
    decreases d.len(),
{
    if d.len() > 1 {
        let e = d.drop_last();
        assert(nondecreasing(e));
        lemma_gaps_telescope(e);
        assert(gaps_of(d).drop_last() =~= gaps_of(e));
        assert(gaps_of(d).last() == (d.last() - d[d.len() - 2]) as u32);
    } else {
        assert(gaps_of(d).len() == 0);
    }
}

/// OPR_005 for one group: the average headway of its departures (repeated
/// departures counted once).
pub fn average_headway(deps: Vec<u32>) -> (r: Option<u32>)
    ensures
        exists|d: Seq<u32>| #[trigger] is_distinct_sorted_of(d, deps@) && match r {
            Some(x) => spec_average_headway(d) == Some(x as int),
            None => spec_average_headway(d) is None,
        },
{
    let d = distinct_sorted(deps);
    if d.len() < 2 {
        return None;
    }
    let first = d[0];
    let last = d[d.len() - 1];
    proof {
        assert(nondecreasing(d@));
        lemma_gaps_telescope(d@);
        assert(d@[0] <= d@.last());
    }
    let n = (d.len() - 1) as u64;
    let avg = ((last - first) as u64) / n;
    proof {
        assert(avg <= (last - first) as u64) by (nonlinear_arith)
            requires avg == ((last - first) as u64) / n, n >= 1;
    }
    Some(avg as u32)
}

/// `s` holds the values of `v` in ascending order.
pub open spec fn is_sorted_of(s: Seq<u32>, v: Seq<u32>) -> bool {
    nondecreasing(s) && s.to_multiset() == v.to_multiset()
}

/// Distance of every value from `m`.
pub open spec fn deviations(s: Seq<u32>, m: u32) -> Seq<u32> {
    s.map_values(|h: u32| (if h >= m { h - m } else { m - h }) as u32)
}

/// `m` is the middle value of `v` in ascending order, and `dv` the middle
/// value of the distances from `m`.
pub open spec fn is_median_deviation(v: Seq<u32>, m: u32, dv: u32) -> bool {
    exists|s: Seq<u32>, t: Seq<u32>| #[trigger] is_sorted_of(s, v) && #[trigger] is_sorted_of(t, deviations(s, m))
        && m == s[(s.len() / 2) as int] && dv == t[(t.len() / 2) as int]
}

/// OPR_005 baseline of a route type from the average headways of its
/// groups (at least five): the median (middle value in ascending order)
/// and the median of the distances from it.
pub fn median_deviation(hws: Vec<u32>) -> (r: Option<(u32, u32)>)
    ensures
        match r {
            Some((m, dv)) => hws@.len() >= 5 && is_median_deviation(hws@, m, dv),
            None => hws@.len() < 5,
        },
{
    if hws.len() < 5 {
        return None;
    }
    let ghost orig = hws@;
    let mut s = hws;
    sort_u32s(&mut s);
    proof {
        broadcast use vstd::seq_lib::group_to_multiset_ensures;
        assert(s@.to_multiset().len() == orig.to_multiset().len());
        assert(s@.len() == orig.len());
    }
    let m = s[s.len() / 2];
    let mut t: Vec<u32> = Vec::new();
    let mut i: usize = 0;
    while i < s.len()
        invariant
            i <= s@.len(),
            t@ == deviations(s@, m).take(i as int),
        decreases s@.len() - i,
    {
        let h = s[i];
        let dv = if h >= m { h - m } else { m - h };
        t.push(dv);
        proof {
            assert(t@ =~= deviations(s@, m).take(i + 1));
        }
        i += 1;
    }
    proof {
        assert(t@ =~= deviations(s@, m));
    }
    let ghost devs = t@;
    sort_u32s(&mut t);
    proof {
        broadcast use vstd::seq_lib::group_to_multiset_ensures;
        assert(t@.to_multiset().len() == devs.to_multiset().len());
        assert(t@.len() == devs.len());
    }
    let dv = t[t.len() / 2];
    proof {
        assert(is_sorted_of(s@, orig));
        assert(is_sorted_of(t@, deviations(s@, m)));
        assert(m == s@[(s@.len() / 2) as int] && dv == t@[(t@.len() / 2) as int]);
        let ws = s@;
        let wt = t@;
        assert(is_sorted_of(ws, orig) && is_sorted_of(wt, deviations(ws, m)) && m == ws[(ws.len() / 2) as int]
            && dv == wt[(wt.len() / 2) as int]);
        assert(is_median_deviation(orig, m, dv));
    }
    Some((m, dv))
}

/// The OPR_005 baseline does not depend on how equal values are arranged:
/// a list of headways has one median and one median distance.
pub proof fn law_median_deviation_is_determined(v: Seq<u32>, m1: u32, dv1: u32, m2: u32, dv2: u32)
    requires
        is_median_deviation(v, m1, dv1),
        is_median_deviation(v, m2, dv2),
    ensures
        m1 == m2 && dv1 == dv2,
{
    let leq = |a: u32, b: u32| a <= b;
    assert(vstd::relations::total_ordering(leq));
    let (s1, t1) = choose|s: Seq<u32>, t: Seq<u32>| #[trigger] is_sorted_of(s, v) && #[trigger] is_sorted_of(t, deviations(s, m1))
        && m1 == s[(s.len() / 2) as int] && dv1 == t[(t.len() / 2) as int];
    let (s2, t2) = choose|s: Seq<u32>, t: Seq<u32>| #[trigger] is_sorted_of(s, v) && #[trigger] is_sorted_of(t, deviations(s, m2))
        && m2 == s[(s.len() / 2) as int] && dv2 == t[(t.len() / 2) as int];
    assert(vstd::relations::sorted_by(s1, leq));
    assert(vstd::relations::sorted_by(s2, leq));
    vstd::seq_lib::lemma_sorted_unique(s1, s2, leq);
    assert(s1 == s2);
    assert(vstd::relations::sorted_by(t1, leq));
    assert(vstd::relations::sorted_by(t2, leq));
    vstd::seq_lib::lemma_sorted_unique(t1, t2, leq);
}

// ── VAT_003: expected trip durations by time of day ──────────────────────────

/// `m` is the middle value (position `len / 2`) of `v` in ascending order.
pub open spec fn is_middle_of(m: u32, v: Seq<u32>) -> bool {
    exists|s: Seq<u32>| #[trigger] is_sorted_of(s, v) && s.len() > 0 && m == s[(s.len() / 2) as int]
}

/// The middle value of a non-empty `v` in ascending order.
pub open spec fn middle(v: Seq<u32>) -> u32 {
    choose|m: u32| is_middle_of(m, v)
}

/// A list has one middle value.
proof fn lemma_middle_is_unique(v: Seq<u32>, m: u32)
    requires
        is_middle_of(m, v),
    ensures
        middle(v) == m,
{
    let leq = |a: u32, b: u32| a <= b;
    assert(vstd::relations::total_ordering(leq));
    let m2 = middle(v);
    assert(is_middle_of(m2, v));
    let s1 = choose|s: Seq<u32>| #[trigger] is_sorted_of(s, v) && s.len() > 0 && m == s[(s.len() / 2) as int];
    let s2 = choose|s: Seq<u32>| #[trigger] is_sorted_of(s, v) && s.len() > 0 && m2 == s[(s.len() / 2) as int];
    assert(vstd::relations::sorted_by(s1, leq));
    assert(vstd::relations::sorted_by(s2, leq));
    vstd::seq_lib::lemma_sorted_unique(s1, s2, leq);
}

/// The durations of (duration, first departure) pairs.
pub open spec fn all_durations(durs: Seq<(u32, u32)>) -> Seq<u32> {
    durs.map_values(|p: (u32, u32)| p.0)
}

/// The durations of the trips whose first departure lies in time band `b`.
pub open spec fn band_durations(durs: Seq<(u32, u32)>, b: u32) -> Seq<u32>
    decreases durs.len(),
{
    if durs.len() == 0 {
        Seq::empty()
    } else if crate::network::spec_time_band(durs.last().1) == b {
        band_durations(durs.drop_last(), b).push(durs.last().0)
    } else {
        band_durations(durs.drop_last(), b)
    }
}

/// VAT_003: the expected duration of every trip of a pattern (at least
/// five trips, typical duration of at least two minutes): the middle
/// duration of its time band when that band has at least five trips, else
/// the middle duration of the whole pattern.
pub open spec fn spec_duration_references(durs: Seq<(u32, u32)>) -> Option<Seq<u32>> {
    let overall = middle(all_durations(durs));
    if durs.len() < 5 || overall < 120 {
        None
    } else {
        Some(durs.map_values(|p: (u32, u32)| {
            let bd = band_durations(durs, crate::network::spec_time_band(p.1));
            if bd.len() >= 5 { middle(bd) } else { overall }
        }))
    }
}

/// The middle value of a non-empty list.
fn middle_of(v: Vec<u32>) -> (m: u32)
    requires
        v@.len() > 0,
    ensures
        is_middle_of(m, v@),
{
    let ghost orig = v@;
    let mut s = v;
    sort_u32s(&mut s);
    proof {
        broadcast use vstd::seq_lib::group_to_multiset_ensures;
        assert(s@.to_multiset().len() == orig.to_multiset().len());
    }
    let m = s[s.len() / 2];
    proof {
        assert(is_sorted_of(s@, orig));
    }
    m
}

/// The durations of band `b`, in order.
fn durations_in_band(durs: &[(u32, u32)], b: u32) -> (r: Vec<u32>)
    ensures
        r@ == band_durations(durs@, b),
{
    let mut r: Vec<u32> = Vec::new();
    let mut i: usize = 0;
    while i < durs.len()
        invariant
            i <= durs.len(),
            r@ == band_durations(durs@.take(i as int), b),
        decreases durs.len() - i,
    {
        proof {
            assert(durs@.take(i + 1).drop_last() =~= durs@.take(i as int));
            assert(durs@.take(i + 1).last() == durs@[i as int]);
        }
        let (d, dep) = durs[i];
        if crate::network::time_band(dep) == b {
            r.push(d);
        }
        i += 1;
    }
    proof {
        assert(durs@.take(durs@.len() as int) =~= durs@);
    }
    r
}

/// VAT_003 for one stop pattern, from its trips' (duration, first departure)
/// pairs: the duration each trip is compared with, or `None` when the
/// pattern has fewer than five trips or runs under two minutes.
pub fn duration_references(durs: &[(u32, u32)]) -> (r: Option<Vec<u32>>)
    ensures
        match r {
            Some(v) => spec_duration_references(durs@) == Some(v@),
            None => spec_duration_references(durs@) is None,
        },
{
    if durs.len() < 5 {
        return None;
    }
    let mut all: Vec<u32> = Vec::new();
    let mut i: usize = 0;
    while i < durs.len()
        invariant
            i <= durs.len(),
            all@ == all_durations(durs@).take(i as int),
        decreases durs.len() - i,
    {
        all.push(durs[i].0);
        proof {
            assert(all@ =~= all_durations(durs@).take(i + 1));
        }
        i += 1;
    }
    proof {
        assert(all@ =~= all_durations(durs@));
    }
    let overall = middle_of(all);
    proof {
        lemma_middle_is_unique(all_durations(durs@), overall);
    }
    if overall < 120 {
        return None;
    }
    let mut band_ref: Vec<u32> = Vec::new();
    let mut b: u32 = 0;
    while b < 5
        invariant
            b <= 5,
            band_ref@.len() == b,
            overall == middle(all_durations(durs@)),
            forall|k: int| 0 <= k < b ==> #[trigger] band_ref@[k] == (if band_durations(durs@, k as u32).len() >= 5 {
                middle(band_durations(durs@, k as u32))
            } else {
                overall
            }),
        decreases 5 - b,
    {
        let bd = durations_in_band(durs, b);
        if bd.len() >= 5 {
            let ghost bv = bd@;
            let m = middle_of(bd);
            proof {
                lemma_middle_is_unique(bv, m);
            }
            band_ref.push(m);
        } else {
            band_ref.push(overall);
        }
        b += 1;
    }
    let mut refs: Vec<u32> = Vec::new();
    let mut i: usize = 0;
    while i < durs.len()
        invariant
            i <= durs.len(),
            durs@.len() >= 5,
            band_ref@.len() == 5,
            overall == middle(all_durations(durs@)),
            overall >= 120,
            forall|k: int| 0 <= k < 5 ==> #[trigger] band_ref@[k] == (if band_durations(durs@, k as u32).len() >= 5 {
                middle(band_durations(durs@, k as u32))
            } else {
                overall
            }),
            refs@.len() == i,
            forall|j: int| 0 <= j < i ==> #[trigger] refs@[j] == spec_duration_references(durs@)->0[j],
        decreases durs.len() - i,
    {
        let band = crate::network::time_band(durs[i].1);
        refs.push(band_ref[band as usize]);
        i += 1;
    }
    proof {
        assert(refs@ =~= spec_duration_references(durs@)->0);
    }
    Some(refs)
}

} // verus!
