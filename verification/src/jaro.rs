//! The Jaro-Winkler string similarity metric, over exact rationals.
//!
//! The Jaro similarity of two character sequences counts greedily matched
//! characters within a sliding window and their transpositions; the Winkler
//! variant adds a bonus for a shared prefix of up to four characters. Both
//! are computed here as exact fractions: the numerator and denominator of
//! the textbook formula, over the integer counts the specification
//! functions below define.

use crate::score::Score;
use vstd::prelude::*;

verus! {

/// Length cap on each compared sequence, so that the score's denominator
/// `30 * |a| * |b| * matches` fits in a `u64`.
pub const MAX_COMPARE_LEN: usize = 800_000;

/// The matching window radius: `max(|a|, |b|) / 2 - 1`, floored at zero.
pub open spec fn match_radius(al: int, bl: int) -> int {
    let m = if al >= bl {
        al
    } else {
        bl
    };
    if m / 2 >= 1 {
        m / 2 - 1
    } else {
        0
    }
}

/// The first position in `[j, hi)` holding an unused occurrence of `c` in
/// `b`, or `-1`.
pub open spec fn find_match(c: char, b: Seq<char>, used: Seq<bool>, j: int, hi: int) -> int
    recommends
        0 <= j,
        hi <= b.len(),
        used.len() == b.len(),
    decreases hi - j,
{
    if j < hi {
        if 0 <= j < b.len() && j < used.len() && !used[j] && b[j] == c {
            j
        } else {
            find_match(c, b, used, j + 1, hi)
        }
    } else {
        -1
    }
}

/// The greedy matching pass from position `i` on: each character of `a`
/// claims the first unused equal character of `b` within the window.
/// Returns the match flags of `a` and `b` and the match count.
pub open spec fn match_state(
    a: Seq<char>,
    b: Seq<char>,
    d: int,
    i: int,
    au: Seq<bool>,
    bu: Seq<bool>,
    m: int,
) -> (Seq<bool>, Seq<bool>, int)
    decreases a.len() - i,
{
    if 0 <= i < a.len() {
        let lo = if i - d >= 0 {
            i - d
        } else {
            0
        };
        let hi = if i + d + 1 <= b.len() {
            i + d + 1
        } else {
            b.len() as int
        };
        let j = find_match(a[i], b, bu, lo, hi);
        if j >= 0 {
            match_state(a, b, d, i + 1, au.update(i, true), bu.update(j, true), m + 1)
        } else {
            match_state(a, b, d, i + 1, au, bu, m)
        }
    } else {
        (au, bu, m)
    }
}

/// The matching pass over whole sequences.
pub open spec fn jaro_matches(a: Seq<char>, b: Seq<char>) -> (Seq<bool>, Seq<bool>, int) {
    match_state(
        a,
        b,
        match_radius(a.len() as int, b.len() as int),
        0,
        Seq::new(a.len(), |k: int| false),
        Seq::new(b.len(), |k: int| false),
        0,
    )
}

/// The first set flag at or after `k`, or `bu.len()` if none is left.
pub open spec fn next_set(bu: Seq<bool>, k: int) -> int
    recommends
        0 <= k <= bu.len(),
    decreases bu.len() - k,
{
    if 0 <= k < bu.len() {
        if bu[k] {
            k
        } else {
            next_set(bu, k + 1)
        }
    } else {
        k
    }
}

/// The transposition count: matched characters of `a` and of `b`, walked in
/// order and paired up; each pair of unequal characters is one
/// transposition.
pub open spec fn trans_count(
    a: Seq<char>,
    b: Seq<char>,
    au: Seq<bool>,
    bu: Seq<bool>,
    i: int,
    k: int,
    t: int,
) -> int
    decreases a.len() - i,
{
    if 0 <= i < a.len() {
        if !au[i] {
            trans_count(a, b, au, bu, i + 1, k, t)
        } else {
            let k2 = next_set(bu, k);
            trans_count(
                a,
                b,
                au,
                bu,
                i + 1,
                k2 + 1,
                t + if k2 < b.len() && a[i] != b[k2] {
                    1int
                } else {
                    0int
                },
            )
        }
    } else {
        t
    }
}

/// The Jaro similarity of `a` and `b` as a fraction `(numerator,
/// denominator)`: `(m/|a| + m/|b| + (m - t)/m) / 3` with `m` matches and
/// `t` halved transpositions; two empty sequences are fully similar, one
/// empty sequence or no match at all gives zero.
pub open spec fn spec_jaro(a: Seq<char>, b: Seq<char>) -> (int, int) {
    if a.len() == 0 && b.len() == 0 {
        (1, 1)
    } else if a.len() == 0 || b.len() == 0 {
        (0, 1)
    } else {
        let st = jaro_matches(a, b);
        let m = st.2;
        if m == 0 {
            (0, 1)
        } else {
            let th = trans_count(a, b, st.0, st.1, 0, 0, 0) / 2;
            (
                m * m * b.len() + m * m * a.len() + (m - th) * a.len() * b.len(),
                3 * a.len() * b.len() * m,
            )
        }
    }
}

/// The length of the shared prefix of `a` and `b`, counted from `i`, capped
/// at `cap`.
pub open spec fn common_prefix(a: Seq<char>, b: Seq<char>, i: int, cap: int) -> int
    decreases cap - i,
{
    if i < cap && 0 <= i && i < a.len() && i < b.len() && a[i] == b[i] {
        common_prefix(a, b, i + 1, cap)
    } else {
        i
    }
}

/// The Jaro-Winkler similarity as a fraction: the Jaro similarity plus
/// `0.1 * prefix * (1 - jaro)` with the prefix capped at four characters,
/// which over fractions is `((10 - p) * num + p * den) / (10 * den)`.
pub open spec fn spec_jaro_winkler(a: Seq<char>, b: Seq<char>) -> (int, int) {
    let j = spec_jaro(a, b);
    let p = common_prefix(a, b, 0, 4);
    ((10 - p) * j.0 + p * j.1, 10 * j.1)
}

/// The number of set flags at positions `k` and beyond.
pub open spec fn count_true_from(s: Seq<bool>, k: int) -> int
    decreases s.len() - k,
{
    if 0 <= k < s.len() {
        (if s[k] {
            1int
        } else {
            0int
        }) + count_true_from(s, k + 1)
    } else {
        0
    }
}

/// Suffix counts are bounded by the suffix length.
proof fn lemma_count_bounds(s: Seq<bool>, k: int)
    requires
        0 <= k <= s.len(),
    ensures
        0 <= count_true_from(s, k) <= s.len() - k,
    decreases s.len() - k,
{
    if k < s.len() {
        lemma_count_bounds(s, k + 1);
    }
}

/// Setting a clear flag raises every suffix count that covers it by one.
proof fn lemma_count_update(s: Seq<bool>, j: int, k: int)
    requires
        0 <= k <= s.len(),
        0 <= j < s.len(),
        !s[j],
    ensures
        count_true_from(s.update(j, true), k) == count_true_from(s, k) + if k <= j {
            1int
        } else {
            0int
        },
    decreases s.len() - k,
{
    if k < s.len() {
        lemma_count_update(s, j, k + 1);
    }
}

/// A positive suffix count guarantees a next set flag, and skipping to it
/// and over it drops the count by exactly one.
proof fn lemma_next_set(s: Seq<bool>, k: int)
    requires
        0 <= k <= s.len(),
        count_true_from(s, k) >= 1,
    ensures
        k <= next_set(s, k) < s.len(),
        s[next_set(s, k)],
        count_true_from(s, next_set(s, k)) == count_true_from(s, k),
        count_true_from(s, next_set(s, k) + 1) == count_true_from(s, k) - 1,
    decreases s.len() - k,
{
    if !s[k] {
        lemma_next_set(s, k + 1);
    }
}

/// The matching pass keeps its flag vectors' lengths, keeps both flag
/// counts equal to the match count, and never matches more than it visits.
proof fn lemma_match_state_counts(
    a: Seq<char>,
    b: Seq<char>,
    d: int,
    i: int,
    au: Seq<bool>,
    bu: Seq<bool>,
    m: int,
)
    requires
        0 <= i <= a.len(),
        au.len() == a.len(),
        bu.len() == b.len(),
        count_true_from(au, 0) == m,
        count_true_from(bu, 0) == m,
        forall|k: int| i <= k < au.len() ==> !au[k],
    ensures
        match_state(a, b, d, i, au, bu, m).0.len() == a.len(),
        match_state(a, b, d, i, au, bu, m).1.len() == b.len(),
        count_true_from(match_state(a, b, d, i, au, bu, m).0, 0) == match_state(
            a,
            b,
            d,
            i,
            au,
            bu,
            m,
        ).2,
        count_true_from(match_state(a, b, d, i, au, bu, m).1, 0) == match_state(
            a,
            b,
            d,
            i,
            au,
            bu,
            m,
        ).2,
        m <= match_state(a, b, d, i, au, bu, m).2 <= m + a.len() - i,
    decreases a.len() - i,
{
    if i < a.len() {
        let lo = if i - d >= 0 {
            i - d
        } else {
            0
        };
        let hi = if i + d + 1 <= b.len() {
            i + d + 1
        } else {
            b.len() as int
        };
        let j = find_match(a[i], b, bu, lo, hi);
        if j >= 0 {
            lemma_find_match_hit(a[i], b, bu, lo, hi);
            lemma_count_update(au, i, 0);
            lemma_count_update(bu, j, 0);
            assert(count_true_from(au, 0) <= au.len()) by {
                lemma_count_bounds(au, 0);
            }
            lemma_match_state_counts(a, b, d, i + 1, au.update(i, true), bu.update(j, true), m + 1);
        } else {
            lemma_match_state_counts(a, b, d, i + 1, au, bu, m);
        }
    }
}

/// A non-negative result of `find_match` is a real hit: in range, unused,
/// and equal to the sought character. Setting the flag there is sound
/// because the flag was clear.
proof fn lemma_find_match_hit(c: char, b: Seq<char>, used: Seq<bool>, j: int, hi: int)
    requires
        find_match(c, b, used, j, hi) >= 0,
    ensures
        j <= find_match(c, b, used, j, hi) < hi,
        0 <= find_match(c, b, used, j, hi) < b.len(),
        find_match(c, b, used, j, hi) < used.len(),
        !used[find_match(c, b, used, j, hi)],
        b[find_match(c, b, used, j, hi)] == c,
    decreases hi - j,
{
    if j < hi {
        if 0 <= j < b.len() && j < used.len() && !used[j] && b[j] == c {
        } else {
            lemma_find_match_hit(c, b, used, j + 1, hi);
        }
    }
}

/// A fresh vector of `n` clear flags.
fn false_vec(n: usize) -> (r: Vec<bool>)
    ensures
        r@ == Seq::new(n as nat, |k: int| false),
{
    let mut r: Vec<bool> = Vec::new();
    let mut i: usize = 0;
    while i < n
        invariant
            i <= n,
            r@ == Seq::new(i as nat, |k: int| false),
        decreases n - i,
    {
        r.push(false);
        proof {
            assert(r@ =~= Seq::new((i + 1) as nat, |k: int| false));
        }
        i = i + 1;
    }
    r
}

/// A clear suffix contributes nothing to the count.
proof fn lemma_count_all_false(n: nat)
    ensures
        count_true_from(Seq::new(n, |k: int| false), 0) == 0,
{
    lemma_count_false_from(Seq::new(n, |k: int| false), 0);
}

/// Counting set flags over a clear sequence gives zero.
proof fn lemma_count_false_from(s: Seq<bool>, k: int)
    requires
        0 <= k <= s.len(),
        forall|j: int| 0 <= j < s.len() ==> !s[j],
    ensures
        count_true_from(s, k) == 0,
    decreases s.len() - k,
{
    if k < s.len() {
        lemma_count_false_from(s, k + 1);
    }
}

/// The Jaro similarity of `a` and `b`, as an exact fraction.
///
/// The result equals the specification fraction exactly, is well-formed,
/// and its denominator stays below `3 * MAX_COMPARE_LEN^3`, which lets the
/// Winkler bonus be applied without overflow.
pub(crate) fn jaro(a: &[char], b: &[char]) -> (r: Score)
    requires
        a@.len() <= MAX_COMPARE_LEN,
        b@.len() <= MAX_COMPARE_LEN,
    ensures
        r.num as int == spec_jaro(a@, b@).0,
        r.den as int == spec_jaro(a@, b@).1,
        r.wf(),
        r.den as int <= 3 * (MAX_COMPARE_LEN as int) * (MAX_COMPARE_LEN as int) * (
        MAX_COMPARE_LEN as int),
{
    let a_len = a.len();
    let b_len = b.len();
    if a_len == 0 && b_len == 0 {
        return Score { num: 1, den: 1 };
    }
    if a_len == 0 || b_len == 0 {
        return Score { num: 0, den: 1 };
    }

    let max_len = if a_len >= b_len {
        a_len
    } else {
        b_len
    };
    let match_dist: usize = if max_len / 2 >= 1 {
        max_len / 2 - 1
    } else {
        0
    };
    let ghost d = match_radius(a@.len() as int, b@.len() as int);
    assert(match_dist as int == d);

    let mut a_matches = false_vec(a_len);
    let mut b_matches = false_vec(b_len);
    let mut matches: usize = 0;
    let mut i: usize = 0;

    proof {
        lemma_count_all_false(a@.len());
        lemma_count_all_false(b@.len());
    }

    while i < a_len
        invariant
            i <= a_len == a@.len(),
            b_len == b@.len(),
            a_len <= MAX_COMPARE_LEN,
            b_len <= MAX_COMPARE_LEN,
            match_dist <= MAX_COMPARE_LEN,
            a_matches@.len() == a@.len(),
            b_matches@.len() == b@.len(),
            matches <= i,
            match_dist as int == d,
            count_true_from(a_matches@, 0) == matches as int,
            count_true_from(b_matches@, 0) == matches as int,
            forall|k: int| i <= k < a@.len() ==> !a_matches@[k],
            match_state(a@, b@, d, i as int, a_matches@, b_matches@, matches as int)
                == jaro_matches(a@, b@),
        decreases a_len - i,
    {
        let lo: usize = if i >= match_dist {
            i - match_dist
        } else {
            0
        };
        let hi: usize = if i + match_dist + 1 <= b_len {
            i + match_dist + 1
        } else {
            b_len
        };
        let mut j: usize = lo;
        let mut hit: bool = false;
        while j < hi && !hit
            invariant
                lo <= j,
                j <= hi || (j == lo && hi < lo),
                hi <= b_len == b@.len(),
                b_matches@.len() == b@.len(),
                i < a@.len(),
                !hit ==> find_match(a@[i as int], b@, b_matches@, lo as int, hi as int)
                    == find_match(a@[i as int], b@, b_matches@, j as int, hi as int),
                hit ==> j < hi && !b_matches@[j as int] && b@[j as int] == a@[i as int]
                    && find_match(a@[i as int], b@, b_matches@, lo as int, hi as int) == j as int,
            decreases hi - j, (if hit { 0int } else { 1int }),
        {
            if !b_matches[j] && b[j] == a[i] {
                hit = true;
            } else {
                j = j + 1;
            }
        }
        let ghost fm = find_match(a@[i as int], b@, b_matches@, lo as int, hi as int);
        proof {
            assert(match_state(a@, b@, d, i as int, a_matches@, b_matches@, matches as int)
                == jaro_matches(a@, b@));
        }
        if hit {
            proof {
                assert(fm == j as int);
                lemma_count_update(a_matches@, i as int, 0);
                lemma_count_update(b_matches@, j as int, 0);
            }
            a_matches.set(i, true);
            b_matches.set(j, true);
            matches = matches + 1;
        } else {
            proof {
                assert(fm == -1);
            }
        }
        i = i + 1;
    }

    if matches == 0 {
        proof {
            assert(jaro_matches(a@, b@).2 == 0);
        }
        return Score { num: 0, den: 1 };
    }

    // Transposition pass: pair the matched characters of `a` and `b` in
    // order; each unequal pair is a transposition.
    let ghost am = a_matches@;
    let ghost bm = b_matches@;
    let mut transpositions: usize = 0;
    let mut k: usize = 0;
    let mut i2: usize = 0;
    while i2 < a_len
        invariant
            i2 <= a_len == a@.len(),
            b_len == b@.len(),
            a_matches@ == am,
            b_matches@ == bm,
            am.len() == a@.len(),
            bm.len() == b@.len(),
            0 <= k <= b_len,
            transpositions <= i2,
            transpositions as int + count_true_from(am, i2 as int) <= matches as int,
            count_true_from(am, i2 as int) <= count_true_from(bm, k as int),
            trans_count(a@, b@, am, bm, i2 as int, k as int, transpositions as int) == trans_count(
                a@,
                b@,
                am,
                bm,
                0,
                0,
                0,
            ),
        decreases a_len - i2,
    {
        if a_matches[i2] {
            let ghost k0 = k as int;
            proof {
                lemma_count_bounds(am, i2 + 1);
                lemma_next_set(bm, k0);
            }
            while !b_matches[k]
                invariant
                    b_matches@ == bm,
                    bm.len() == b@.len(),
                    bm.len() == b_len,
                    0 <= k0 <= k as int,
                    count_true_from(bm, k as int) == count_true_from(bm, k0) >= 1,
                    next_set(bm, k as int) == next_set(bm, k0),
                    k as int <= next_set(bm, k0) < bm.len(),
                decreases bm.len() - k,
            {
                k = k + 1;
                proof {
                    lemma_next_set(bm, k as int);
                }
            }
            let ghost ns = next_set(bm, k0);
            proof {
                assert(bm[k as int]);
                assert(next_set(bm, k as int) == k as int);
                assert(k as int == ns);
                lemma_next_set(bm, k0);
            }
            if a[i2] != b[k] {
                transpositions = transpositions + 1;
            }
            k = k + 1;
        }
        i2 = i2 + 1;
    }

    let half_t: usize = transpositions / 2;
    let ghost al = a@.len() as int;
    let ghost bl = b@.len() as int;
    let ghost mi = matches as int;
    let ghost th = half_t as int;
    proof {
        lemma_count_bounds(am, 0);
        lemma_count_bounds(bm, 0);
        lemma_jaro_formula_bounds(al, bl, mi, th);
    }
    let m64: u64 = matches as u64;
    let al64: u64 = a_len as u64;
    let bl64: u64 = b_len as u64;
    let t64: u64 = half_t as u64;
    let num: u64 = m64 * m64 * bl64 + m64 * m64 * al64 + (m64 - t64) * al64 * bl64;
    let den: u64 = 3 * al64 * bl64 * m64;
    Score { num, den }
}

/// All terms of the Jaro fraction stay within `u64` range and the fraction
/// lies in `[0, 1]`.
proof fn lemma_jaro_formula_bounds(al: int, bl: int, m: int, th: int)
    requires
        1 <= m,
        m <= al <= MAX_COMPARE_LEN as int,
        m <= bl <= MAX_COMPARE_LEN as int,
        0 <= th <= m,
    ensures
        0 <= m * m <= (MAX_COMPARE_LEN as int) * (MAX_COMPARE_LEN as int),
        0 <= m * m * bl <= al * bl * m,
        0 <= m * m * al <= al * bl * m,
        0 <= (m - th) * al <= (MAX_COMPARE_LEN as int) * (MAX_COMPARE_LEN as int),
        0 <= (m - th) * al * bl <= al * bl * m,
        0 <= 3 * al * bl <= 3 * (MAX_COMPARE_LEN as int) * (MAX_COMPARE_LEN as int),
        m * m * bl + m * m * al + (m - th) * al * bl <= 3 * al * bl * m,
        0 < 3 * al * bl * m <= 3 * (MAX_COMPARE_LEN as int) * (MAX_COMPARE_LEN as int) * (
        MAX_COMPARE_LEN as int),
{
    assert(0 <= m * m && m * m <= (MAX_COMPARE_LEN as int) * (MAX_COMPARE_LEN as int) && m * m * bl
        <= al * bl * m && 0 <= m * m * bl && m * m * al <= al * bl * m && 0 <= m * m * al && 0 <= (
    m - th) * al && (m - th) * al <= (MAX_COMPARE_LEN as int) * (MAX_COMPARE_LEN as int) && 0 <= (m
        - th) * al * bl && (m - th) * al * bl <= al * bl * m && 0 <= 3 * al * bl && 3 * al * bl <= 3
        * (MAX_COMPARE_LEN as int) * (MAX_COMPARE_LEN as int) && 0 < 3 * al * bl * m && 3 * al * bl
        * m <= 3 * (MAX_COMPARE_LEN as int) * (MAX_COMPARE_LEN as int) * (MAX_COMPARE_LEN as int)
        && m * m * bl + m * m * al + (m - th) * al * bl <= 3 * al * bl * m) by (nonlinear_arith)
        requires
            1 <= m,
            m <= al <= MAX_COMPARE_LEN as int,
            m <= bl <= MAX_COMPARE_LEN as int,
            0 <= th <= m,
    ;
}

/// The Jaro-Winkler similarity of `a` and `b`, as an exact fraction.
pub fn jaro_winkler(a: &[char], b: &[char]) -> (r: Score)
    requires
        a@.len() <= MAX_COMPARE_LEN,
        b@.len() <= MAX_COMPARE_LEN,
    ensures
        r.num as int == spec_jaro_winkler(a@, b@).0,
        r.den as int == spec_jaro_winkler(a@, b@).1,
        r.wf(),
{
    let j = jaro(a, b);
    let mut p: usize = 0;
    while p < 4 && p < a.len() && p < b.len() && a[p] == b[p]
        invariant
            0 <= p <= 4,
            common_prefix(a@, b@, p as int, 4) == common_prefix(a@, b@, 0, 4),
        decreases 4 - p,
    {
        p = p + 1;
    }
    assert(common_prefix(a@, b@, 0, 4) == p as int);
    let p64: u64 = p as u64;
    proof {
        lemma_winkler_bounds(j.num as int, j.den as int, p as int);
    }
    let num: u64 = (10 - p64) * j.num + p64 * j.den;
    let den: u64 = 10 * j.den;
    Score { num, den }
}

/// The Winkler combination stays within `u64` range and in `[0, 1]`.
proof fn lemma_winkler_bounds(jn: int, jd: int, p: int)
    requires
        0 <= jn <= jd,
        0 < jd <= 3 * (MAX_COMPARE_LEN as int) * (MAX_COMPARE_LEN as int) * (
        MAX_COMPARE_LEN as int),
        0 <= p <= 4,
    ensures
        0 <= (10 - p) * jn,
        (10 - p) * jn + p * jd <= 10 * jd,
        10 * jd <= u64::MAX as int,
{
    assert(0 <= (10 - p) * jn && (10 - p) * jn + p * jd <= 10 * jd && 10 * jd <= 30 * (
    MAX_COMPARE_LEN as int) * (MAX_COMPARE_LEN as int) * (MAX_COMPARE_LEN as int))
        by (nonlinear_arith)
        requires
            0 <= jn <= jd,
            0 < jd <= 3 * (MAX_COMPARE_LEN as int) * (MAX_COMPARE_LEN as int) * (
            MAX_COMPARE_LEN as int),
            0 <= p <= 4,
    ;
}

/// The Jaro-Winkler fraction is well-formed: its denominator is positive
/// and it lies in `[0, 1]`.
pub proof fn lemma_spec_jaro_winkler_wf(a: Seq<char>, b: Seq<char>)
    ensures
        0 < spec_jaro_winkler(a, b).1,
        0 <= spec_jaro_winkler(a, b).0 <= spec_jaro_winkler(a, b).1,
{
    lemma_spec_jaro_wf(a, b);
    let j = spec_jaro(a, b);
    let p = common_prefix(a, b, 0, 4);
    lemma_common_prefix_bounds(a, b, 0, 4);
    assert(0 <= (10 - p) * j.0 && (10 - p) * j.0 + p * j.1 <= 10 * j.1 && 0 < 10 * j.1)
        by (nonlinear_arith)
        requires
            0 <= j.0 <= j.1,
            0 < j.1,
            0 <= p <= 4,
    ;
}

/// The capped common prefix length lies in `[0, cap]` (for a non-negative
/// cap).
proof fn lemma_common_prefix_bounds(a: Seq<char>, b: Seq<char>, i: int, cap: int)
    requires
        0 <= i <= cap,
    ensures
        i <= common_prefix(a, b, i, cap) <= cap,
    decreases cap - i,
{
    if i < cap && i < a.len() && i < b.len() && a[i] == b[i] {
        lemma_common_prefix_bounds(a, b, i + 1, cap);
    }
}

/// The Jaro fraction is well-formed: its denominator is positive and it
/// lies in `[0, 1]`.
pub proof fn lemma_spec_jaro_wf(a: Seq<char>, b: Seq<char>)
    ensures
        0 < spec_jaro(a, b).1,
        0 <= spec_jaro(a, b).0 <= spec_jaro(a, b).1,
{
    if a.len() > 0 && b.len() > 0 {
        let init_a = Seq::new(a.len(), |k: int| false);
        let init_b = Seq::new(b.len(), |k: int| false);
        lemma_count_all_false(a.len());
        lemma_count_all_false(b.len());
        lemma_match_state_counts(
            a,
            b,
            match_radius(a.len() as int, b.len() as int),
            0,
            init_a,
            init_b,
            0,
        );
        let st = jaro_matches(a, b);
        let m = st.2;
        if m != 0 {
            lemma_count_bounds(st.0, 0);
            lemma_count_bounds(st.1, 0);
            let tfull = trans_count(a, b, st.0, st.1, 0, 0, 0);
            lemma_trans_count_bounds(a, b, st.0, st.1, 0, 0, 0);
            let th = tfull / 2;
            assert(0 <= th <= m);
            lemma_jaro_formula_bounds_wf(a.len() as int, b.len() as int, m, th);
        }
    }
}

/// The transposition count lies between its accumulator and the remaining
/// matched characters of `a`.
proof fn lemma_trans_count_bounds(
    a: Seq<char>,
    b: Seq<char>,
    au: Seq<bool>,
    bu: Seq<bool>,
    i: int,
    k: int,
    t: int,
)
    requires
        0 <= i <= a.len(),
        au.len() == a.len(),
    ensures
        t <= trans_count(a, b, au, bu, i, k, t) <= t + count_true_from(au, i),
    decreases a.len() - i,
{
    if i < a.len() {
        if !au[i] {
            lemma_trans_count_bounds(a, b, au, bu, i + 1, k, t);
        } else {
            let k2 = next_set(bu, k);
            let dt: int = if k2 < b.len() && a[i] != b[k2] {
                1
            } else {
                0
            };
            lemma_trans_count_bounds(a, b, au, bu, i + 1, k2 + 1, t + dt);
            lemma_count_bounds_tail(au, i);
        }
    } else {
        assert(count_true_from(au, i) == 0);
    }
}

/// The suffix count is non-negative one step further in.
proof fn lemma_count_bounds_tail(s: Seq<bool>, i: int)
    requires
        0 <= i < s.len(),
    ensures
        count_true_from(s, i + 1) >= 0,
{
    lemma_count_bounds(s, i + 1);
}

/// Well-formedness of the assembled Jaro fraction.
proof fn lemma_jaro_formula_bounds_wf(al: int, bl: int, m: int, th: int)
    requires
        1 <= m,
        m <= al,
        m <= bl,
        0 <= th <= m,
    ensures
        0 <= m * m * bl + m * m * al + (m - th) * al * bl <= 3 * al * bl * m,
        0 < 3 * al * bl * m,
{
    assert(0 <= m * m * bl && m * m * bl <= al * bl * m && 0 <= m * m * al && m * m * al <= al * bl
        * m && 0 <= (m - th) * al * bl && (m - th) * al * bl <= al * bl * m && 0 < 3 * al * bl * m
        && m * m * bl + m * m * al + (m - th) * al * bl <= 3 * al * bl * m) by (nonlinear_arith)
        requires
            1 <= m,
            m <= al,
            m <= bl,
            0 <= th <= m,
    ;
}

} // verus!
