//! String similarity over grapheme clusters: Jaro, Jaro-Winkler, n-gram
//! Jaccard and normalised Damerau-Levenshtein (optimal string alignment).
use crate::score::{Score, MAX_GRAPHEMES};
use crate::text::{gview, graphemes, graphemes_of};
use crate::util::{jaccard_den, jaccard_num, lemma_distinct_len, lemma_jaccard_range};
use vstd::prelude::*;

verus! {

pub open spec fn min3(x: nat, y: nat, z: nat) -> nat {
    if x <= y && x <= z {
        x
    } else if y <= z {
        y
    } else {
        z
    }
}

/// Edit distance between the first `i` clusters of `a` and the first `j` of
/// `b`, counting insertions, deletions, substitutions and transpositions of
/// adjacent clusters, each at cost one, with no cluster edited twice.
pub open spec fn osa_distance(a: Seq<Seq<char>>, b: Seq<Seq<char>>, i: int, j: int) -> nat
    decreases i + j,
{
    if i <= 0 {
        j as nat
    } else if j <= 0 {
        i as nat
    } else {
        let base = if a[i - 1] == b[j - 1] {
            osa_distance(a, b, i - 1, j - 1)
        } else {
            1 + min3(
                osa_distance(a, b, i - 1, j),
                osa_distance(a, b, i, j - 1),
                osa_distance(a, b, i - 1, j - 1),
            )
        };
        if i > 1 && j > 1 && a[i - 1] == b[j - 2] && a[i - 2] == b[j - 1]
            && osa_distance(a, b, i - 2, j - 2) + 1 < base {
            osa_distance(a, b, i - 2, j - 2) + 1
        } else {
            base
        }
    }
}

/// The distance between prefixes never exceeds the longer prefix.
proof fn lemma_osa_bound(a: Seq<Seq<char>>, b: Seq<Seq<char>>, i: int, j: int)
    requires
        0 <= i,
        0 <= j,
    ensures
        osa_distance(a, b, i, j) <= if i <= j { j } else { i },
    decreases i + j,
{
    if i > 0 && j > 0 {
        lemma_osa_bound(a, b, i - 1, j - 1);
        lemma_osa_bound(a, b, i - 1, j);
        lemma_osa_bound(a, b, i, j - 1);
    }
}

/// The distance is the same read from either side.
pub proof fn lemma_osa_symmetric(a: Seq<Seq<char>>, b: Seq<Seq<char>>, i: int, j: int)
    requires
        0 <= i,
        0 <= j,
    ensures
        osa_distance(a, b, i, j) == osa_distance(b, a, j, i),
    decreases i + j,
{
    if i > 0 && j > 0 {
        lemma_osa_symmetric(a, b, i - 1, j - 1);
        lemma_osa_symmetric(a, b, i - 1, j);
        lemma_osa_symmetric(a, b, i, j - 1);
        if i > 1 && j > 1 {
            lemma_osa_symmetric(a, b, i - 2, j - 2);
        }
    }
}

/// Edit distance between two cluster sequences, filled in column by column
/// while keeping only the last three columns of the table.
fn damerau_levenshtein(source_chars: &Vec<String>, target_chars: &Vec<String>) -> (r: usize)
    ensures
        r == osa_distance(gview(source_chars@), gview(target_chars@), source_chars@.len() as int, target_chars@.len() as int),
{
    let ghost a = gview(source_chars@);
    let ghost b = gview(target_chars@);
    let source_len = source_chars.len();
    let target_len = target_chars.len();
    let mut before: Vec<usize> = Vec::new();
    let mut column: Vec<usize> = Vec::new();
    column.push(0);
    let mut i: usize = 0;
    while i < source_len
        invariant
            i <= source_len,
            source_len == source_chars@.len(),
            column@.len() == i + 1,
            forall|k: int| 0 <= k <= i ==> column@[k] == osa_distance(a, b, k, 0),
        decreases source_len - i,
    {
        i += 1;
        column.push(i);
    }
    let mut j: usize = 0;
    while j < target_len
        invariant
            j <= target_len,
            source_len == source_chars@.len(),
            target_len == target_chars@.len(),
            a == gview(source_chars@),
            b == gview(target_chars@),
            column@.len() == source_len + 1,
            forall|k: int| 0 <= k <= source_len ==> column@[k] == osa_distance(a, b, k, j as int),
            j >= 1 ==> before@.len() == source_len + 1,
            j >= 1 ==> forall|k: int| 0 <= k <= source_len ==> before@[k] == osa_distance(a, b, k, j - 1),
        decreases target_len - j,
    {
        j += 1;
        let mut next: Vec<usize> = Vec::new();
        next.push(j);
        let mut i: usize = 0;
        while i < source_len
            invariant
                i <= source_len,
                1 <= j <= target_len,
                source_len == source_chars@.len(),
                target_len == target_chars@.len(),
                a == gview(source_chars@),
                b == gview(target_chars@),
                column@.len() == source_len + 1,
                forall|k: int| 0 <= k <= source_len ==> column@[k] == osa_distance(a, b, k, j - 1),
                j >= 2 ==> before@.len() == source_len + 1,
                j >= 2 ==> forall|k: int| 0 <= k <= source_len ==> before@[k] == osa_distance(a, b, k, j - 2),
                next@.len() == i + 1,
                forall|k: int| 0 <= k <= i ==> next@[k] == osa_distance(a, b, k, j as int),
            decreases source_len - i,
        {
            i += 1;
            proof {
                lemma_osa_bound(a, b, i - 1, j - 1);
                lemma_osa_bound(a, b, i as int, j as int);
                if i > 1 && j > 1 {
                    lemma_osa_bound(a, b, i - 2, j - 2);
                }
            }
            let mut cell = if source_chars[i - 1] == target_chars[j - 1] {
                column[i - 1]
            } else {
                let delete = column[i];
                let insert = next[i - 1];
                let substitute = column[i - 1];
                if delete <= insert && delete <= substitute {
                    1 + delete
                } else if insert <= substitute {
                    1 + insert
                } else {
                    1 + substitute
                }
            };
            if i > 1 && j > 1 {
                if source_chars[i - 1] == target_chars[j - 2] && source_chars[i - 2] == target_chars[j - 1]
                    && before[i - 2] + 1 < cell {
                    cell = before[i - 2] + 1;
                }
            }
            next.push(cell);
        }
        before = column;
        column = next;
    }
    column[source_len]
}

/// `1 - distance / longer length`, and zero when both sequences are empty.
pub open spec fn dl_norm_num(a: Seq<Seq<char>>, b: Seq<Seq<char>>) -> int {
    let longer = if a.len() <= b.len() { b.len() } else { a.len() };
    if longer == 0 {
        0
    } else {
        longer - osa_distance(a, b, a.len() as int, b.len() as int)
    }
}

pub open spec fn dl_norm_den(a: Seq<Seq<char>>, b: Seq<Seq<char>>) -> int {
    let longer = if a.len() <= b.len() { b.len() } else { a.len() };
    if longer == 0 {
        1
    } else {
        longer as int
    }
}

/// Normalised edit distance similarity between two cluster sequences.
pub fn damerau_levenshtein_norm(source_chars: &Vec<String>, target_chars: &Vec<String>) -> (r: Score)
    ensures
        r.wf(),
        r.is_fraction(
            dl_norm_num(gview(source_chars@), gview(target_chars@)),
            dl_norm_den(gview(source_chars@), gview(target_chars@)),
        ),
{
    let longer_len = if source_chars.len() <= target_chars.len() {
        target_chars.len()
    } else {
        source_chars.len()
    };
    if longer_len == 0 {
        return Score { num: 0, den: 1 };
    }
    let distance = damerau_levenshtein(source_chars, target_chars);
    proof {
        lemma_osa_bound(gview(source_chars@), gview(target_chars@), source_chars@.len() as int, target_chars@.len() as int);
    }
    Score { num: (longer_len - distance) as u128, den: longer_len as u128 }
}

/// Normalised Damerau-Levenshtein similarity of two texts, by grapheme
/// cluster: one minus the edit distance over the longer length; zero when
/// both texts are empty.
pub fn symmetric_damerau_levenshtein_norm(source: &str, target: &str) -> (r: Score)
    ensures
        r.wf(),
        r.is_fraction(
            dl_norm_num(graphemes_of(source@), graphemes_of(target@)),
            dl_norm_den(graphemes_of(source@), graphemes_of(target@)),
        ),
{
    let source_chars = graphemes(source);
    let target_chars = graphemes(target);
    damerau_levenshtein_norm(&source_chars, &target_chars)
}

/// The normalised Damerau-Levenshtein similarity does not depend on the
/// order of its arguments.
pub proof fn lemma_damerau_levenshtein_norm_symmetric(a: Seq<Seq<char>>, b: Seq<Seq<char>>)
    ensures
        dl_norm_num(a, b) == dl_norm_num(b, a),
        dl_norm_den(a, b) == dl_norm_den(b, a),
{
    lemma_osa_symmetric(a, b, a.len() as int, b.len() as int);
}


/// How far from its own position a cluster may find its match: half the
/// longer length, less one, and never negative.
pub open spec fn match_radius(la: nat, lb: nat) -> int {
    let n = if la <= lb { lb } else { la };
    if n / 2 >= 1 {
        n / 2 - 1
    } else {
        0
    }
}

pub open spec fn window_start(i: int, radius: int) -> int {
    if radius > i {
        0
    } else {
        i - radius
    }
}

pub open spec fn window_end(i: int, radius: int, len: nat) -> int {
    if i + radius + 1 < len {
        i + radius + 1
    } else {
        len as int
    }
}

/// The leftmost position in `[j, end)` that is not yet used and holds `g`,
/// or `-1` when there is none.
pub open spec fn first_free(g: Seq<char>, b: Seq<Seq<char>>, used: Seq<bool>, j: int, end: int) -> int
    decreases end - j,
{
    if j >= end {
        -1
    } else if !used[j] && b[j] == g {
        j
    } else {
        first_free(g, b, used, j + 1, end)
    }
}

/// The match flags of `a` and of `b` once the first `i` clusters of `a` have
/// each taken the leftmost free equal cluster of `b` within the radius.
pub open spec fn jaro_flags(a: Seq<Seq<char>>, b: Seq<Seq<char>>, i: int) -> (Seq<bool>, Seq<bool>)
    decreases i,
{
    if i <= 0 {
        (Seq::new(a.len(), |k: int| false), Seq::new(b.len(), |k: int| false))
    } else {
        let (fa, fb) = jaro_flags(a, b, i - 1);
        let radius = match_radius(a.len(), b.len());
        let j = first_free(a[i - 1], b, fb, window_start(i - 1, radius), window_end(i - 1, radius, b.len()));
        if j >= 0 {
            (fa.update(i - 1, true), fb.update(j, true))
        } else {
            (fa, fb)
        }
    }
}

/// The clusters among the first `n` of `s` whose flag is set, in order.
pub open spec fn flagged(s: Seq<Seq<char>>, f: Seq<bool>, n: int) -> Seq<Seq<char>>
    decreases n,
{
    if n <= 0 {
        Seq::empty()
    } else if f[n - 1] {
        flagged(s, f, n - 1).push(s[n - 1])
    } else {
        flagged(s, f, n - 1)
    }
}

/// How many of the first `n` flags are set.
pub open spec fn count_set(f: Seq<bool>, n: int) -> nat
    decreases n,
{
    if n <= 0 {
        0
    } else {
        count_set(f, n - 1) + if f[n - 1] { 1nat } else { 0nat }
    }
}

/// How many of the first `n` positions hold different clusters in `x` and `y`.
pub open spec fn mismatches(x: Seq<Seq<char>>, y: Seq<Seq<char>>, n: int) -> nat
    decreases n,
{
    if n <= 0 {
        0
    } else {
        mismatches(x, y, n - 1) + if x[n - 1] != y[n - 1] { 1nat } else { 0nat }
    }
}

/// The matched clusters of `a`, in the order of `a`.
pub open spec fn matched_source(a: Seq<Seq<char>>, b: Seq<Seq<char>>) -> Seq<Seq<char>> {
    flagged(a, jaro_flags(a, b, a.len() as int).0, a.len() as int)
}

/// The matched clusters of `b`, in the order of `b`.
pub open spec fn matched_target(a: Seq<Seq<char>>, b: Seq<Seq<char>>) -> Seq<Seq<char>> {
    flagged(b, jaro_flags(a, b, a.len() as int).1, b.len() as int)
}

/// The number of matches.
pub open spec fn jaro_matches(a: Seq<Seq<char>>, b: Seq<Seq<char>>) -> int {
    matched_source(a, b).len() as int
}

/// The number of half-transpositions: matched pairs, taken in order, that differ.
pub open spec fn jaro_transpositions(a: Seq<Seq<char>>, b: Seq<Seq<char>>) -> int {
    mismatches(matched_source(a, b), matched_target(a, b), jaro_matches(a, b)) as int
}

/// Numerator of `(m/|a| + m/|b| + (m - t/2)/m) / 3` over the denominator
/// `6 m |a| |b|`; one when both are empty, zero when nothing matches.
pub open spec fn jaro_num(a: Seq<Seq<char>>, b: Seq<Seq<char>>) -> int {
    let m = jaro_matches(a, b);
    let t = jaro_transpositions(a, b);
    if a.len() == 0 && b.len() == 0 {
        1
    } else if m == 0 {
        0
    } else {
        2 * m * m * (a.len() + b.len()) + (2 * m - t) * a.len() * b.len()
    }
}

pub open spec fn jaro_den(a: Seq<Seq<char>>, b: Seq<Seq<char>>) -> int {
    let m = jaro_matches(a, b);
    if a.len() == 0 && b.len() == 0 {
        1
    } else if m == 0 {
        1
    } else {
        6 * m * a.len() * b.len()
    }
}

proof fn lemma_count_bound(f: Seq<bool>, n: int)
    requires
        0 <= n,
    ensures
        count_set(f, n) <= n,
    decreases n,
{
    if n > 0 {
        lemma_count_bound(f, n - 1);
    }
}

proof fn lemma_count_update(f: Seq<bool>, n: int, k: int)
    requires
        0 <= k < n <= f.len(),
        !f[k],
    ensures
        count_set(f.update(k, true), n) == count_set(f, n) + 1,
    decreases n,
{
    if n - 1 > k {
        lemma_count_update(f, n - 1, k);
    } else {
        lemma_count_same(f, f.update(k, true), n - 1);
    }
}

proof fn lemma_count_same(f: Seq<bool>, g: Seq<bool>, n: int)
    requires
        0 <= n <= f.len(),
        n <= g.len(),
        forall|k: int| 0 <= k < n ==> f[k] == g[k],
    ensures
        count_set(f, n) == count_set(g, n),
    decreases n,
{
    if n > 0 {
        lemma_count_same(f, g, n - 1);
    }
}

proof fn lemma_flagged_len(s: Seq<Seq<char>>, f: Seq<bool>, n: int)
    requires
        0 <= n,
    ensures
        flagged(s, f, n).len() == count_set(f, n),
    decreases n,
{
    if n > 0 {
        lemma_flagged_len(s, f, n - 1);
    }
}

proof fn lemma_first_free_range(g: Seq<char>, b: Seq<Seq<char>>, used: Seq<bool>, j: int, end: int)
    ensures
        first_free(g, b, used, j, end) == -1 || (j <= first_free(g, b, used, j, end) < end
            && !used[first_free(g, b, used, j, end)] && b[first_free(g, b, used, j, end)] == g),
    decreases end - j,
{
    if j < end {
        lemma_first_free_range(g, b, used, j + 1, end);
    }
}

/// The greedy pass keeps the flag sequences at their lengths, sets no flag of
/// `a` at or past `i`, and sets as many flags in `b` as in `a`.
proof fn lemma_jaro_flags(a: Seq<Seq<char>>, b: Seq<Seq<char>>, i: int)
    requires
        0 <= i <= a.len(),
    ensures
        jaro_flags(a, b, i).0.len() == a.len(),
        jaro_flags(a, b, i).1.len() == b.len(),
        forall|k: int| i <= k < a.len() ==> !jaro_flags(a, b, i).0[k],
        count_set(jaro_flags(a, b, i).0, a.len() as int) == count_set(jaro_flags(a, b, i).1, b.len() as int),
    decreases i,
{
    if i == 0 {
        lemma_count_zero(a.len(), a.len() as int);
        lemma_count_zero(b.len(), b.len() as int);
    } else {
        lemma_jaro_flags(a, b, i - 1);
        let (fa, fb) = jaro_flags(a, b, i - 1);
        let radius = match_radius(a.len(), b.len());
        let end = window_end(i - 1, radius, b.len());
        lemma_first_free_range(a[i - 1], b, fb, window_start(i - 1, radius), end);
        let j = first_free(a[i - 1], b, fb, window_start(i - 1, radius), end);
        if j >= 0 {
            lemma_count_update(fa, a.len() as int, i - 1);
            lemma_count_update(fb, b.len() as int, j);
        }
    }
}

proof fn lemma_count_zero(len: nat, n: int)
    requires
        0 <= n <= len,
    ensures
        count_set(Seq::new(len, |k: int| false), n) == 0,
    decreases n,
{
    if n > 0 {
        lemma_count_zero(len, n - 1);
    }
}


/// The Jaro fraction lies in `[0, 1]`, and each product in it fits in 128 bits.
proof fn lemma_jaro_fraction(la: int, lb: int, m: int, t: int)
    requires
        0 < m <= la <= MAX_GRAPHEMES,
        m <= lb <= MAX_GRAPHEMES,
        0 <= t <= m,
    ensures
        0 <= 2 * m * m * (la + lb) + (2 * m - t) * la * lb <= 6 * m * la * lb,
        0 < m * m <= 0x1000_0000_0000_0000,
        0 < la * lb <= 0x1000_0000_0000_0000,
        m * m * (la + lb) <= 0x800_0000_0000_0000_0000_0000,
        (2 * m - t) * (la * lb) <= 0x800_0000_0000_0000_0000_0000,
        0 < m * (la * lb) <= 0x400_0000_0000_0000_0000_0000,
        2 * m * m * (la + lb) == 2 * (m * m * (la + lb)),
        (2 * m - t) * la * lb == (2 * m - t) * (la * lb),
        6 * m * la * lb == 6 * (m * (la * lb)),
{
    let x = m * (la * lb);
    assert(2 * m * m * (la + lb) == 2 * (m * m * (la + lb))) by (nonlinear_arith);
    assert((2 * m - t) * la * lb == (2 * m - t) * (la * lb)) by (nonlinear_arith);
    assert(6 * m * la * lb == 6 * x) by (nonlinear_arith)
        requires
            x == m * (la * lb),
    ;
    assert(m * m * (la + lb) <= 2 * x) by (nonlinear_arith)
        requires
            0 < m <= la,
            m <= lb,
            x == m * (la * lb),
    ;
    assert(0 <= (2 * m - t) * (la * lb) <= 2 * x) by (nonlinear_arith)
        requires
            0 <= t <= m,
            0 < la,
            0 < lb,
            x == m * (la * lb),
    ;
    assert(0 < m * m <= 0x1000_0000_0000_0000) by (nonlinear_arith)
        requires
            0 < m <= 0x4000_0000,
    ;
    assert(0 < la * lb <= 0x1000_0000_0000_0000) by (nonlinear_arith)
        requires
            0 < la <= 0x4000_0000,
            0 < lb <= 0x4000_0000,
    ;
    assert(0 < x <= 0x400_0000_0000_0000_0000_0000) by (nonlinear_arith)
        requires
            0 < m <= 0x4000_0000,
            0 < la * lb <= 0x1000_0000_0000_0000,
            x == m * (la * lb),
    ;
}

/// Jaro similarity of two cluster sequences.
fn jaro_of(source_chars: &Vec<String>, target_chars: &Vec<String>) -> (r: Score)
    requires
        source_chars@.len() <= MAX_GRAPHEMES,
        target_chars@.len() <= MAX_GRAPHEMES,
    ensures
        r.wf(),
        r.is_fraction(
            jaro_num(gview(source_chars@), gview(target_chars@)),
            jaro_den(gview(source_chars@), gview(target_chars@)),
        ),
{
    let ghost a = gview(source_chars@);
    let ghost b = gview(target_chars@);
    let source_len = source_chars.len();
    let target_len = target_chars.len();
    let longer_len = if source_len <= target_len {
        target_len
    } else {
        source_len
    };
    if longer_len == 0 {
        return Score { num: 1, den: 1 };
    }
    let match_distance: usize = if longer_len / 2 >= 1 {
        longer_len / 2 - 1
    } else {
        0
    };
    let mut source_matches: Vec<bool> = Vec::new();
    let mut k: usize = 0;
    while k < source_len
        invariant
            k <= source_len,
            source_matches@ =~= Seq::new(k as nat, |q: int| false),
        decreases source_len - k,
    {
        source_matches.push(false);
        k += 1;
    }
    let mut target_matches: Vec<bool> = Vec::new();
    let mut k: usize = 0;
    while k < target_len
        invariant
            k <= target_len,
            target_matches@ =~= Seq::new(k as nat, |q: int| false),
        decreases target_len - k,
    {
        target_matches.push(false);
        k += 1;
    }
    let mut i: usize = 0;
    while i < source_len
        invariant
            i <= source_len,
            source_len == source_chars@.len() <= MAX_GRAPHEMES,
            target_len == target_chars@.len() <= MAX_GRAPHEMES,
            a == gview(source_chars@),
            b == gview(target_chars@),
            match_distance == match_radius(a.len(), b.len()),
            match_distance < MAX_GRAPHEMES,
            source_matches@ == jaro_flags(a, b, i as int).0,
            target_matches@ == jaro_flags(a, b, i as int).1,
        decreases source_len - i,
    {
        proof {
            lemma_jaro_flags(a, b, i as int);
        }
        let start = if match_distance > i {
            0
        } else {
            i - match_distance
        };
        let end = if i + match_distance + 1 < target_len {
            i + match_distance + 1
        } else {
            target_len
        };
        let mut j = start;
        while j < end && (target_matches[j] || !(source_chars[i] == target_chars[j]))
            invariant
                start <= j,
                j <= end || j == start,
                end <= target_len,
                i < source_len,
                source_len == source_chars@.len(),
                target_len == target_chars@.len(),
                target_matches@.len() == target_len,
                a == gview(source_chars@),
                b == gview(target_chars@),
                first_free(a[i as int], b, target_matches@, start as int, end as int)
                    == first_free(a[i as int], b, target_matches@, j as int, end as int),
            decreases end - j,
        {
            j += 1;
        }
        if j < end {
            source_matches.set(i, true);
            target_matches.set(j, true);
        }
        i += 1;
    }
    let ghost fa = source_matches@;
    let ghost fb = target_matches@;
    proof {
        lemma_jaro_flags(a, b, a.len() as int);
    }
    let mut source_picked: Vec<usize> = Vec::new();
    let mut k: usize = 0;
    while k < source_len
        invariant
            k <= source_len,
            source_len == source_chars@.len(),
            a == gview(source_chars@),
            fa == source_matches@,
            fa.len() == source_len,
            forall|q: int| 0 <= q < source_picked@.len() ==> source_picked@[q] < source_len,
            Seq::new(source_picked@.len(), |q: int| a[source_picked@[q] as int]) =~= flagged(a, fa, k as int),
        decreases source_len - k,
    {
        if source_matches[k] {
            source_picked.push(k);
        }
        k += 1;
    }
    let mut target_picked: Vec<usize> = Vec::new();
    let mut k: usize = 0;
    while k < target_len
        invariant
            k <= target_len,
            target_len == target_chars@.len(),
            b == gview(target_chars@),
            fb == target_matches@,
            fb.len() == target_len,
            forall|q: int| 0 <= q < target_picked@.len() ==> target_picked@[q] < target_len,
            Seq::new(target_picked@.len(), |q: int| b[target_picked@[q] as int]) =~= flagged(b, fb, k as int),
        decreases target_len - k,
    {
        if target_matches[k] {
            target_picked.push(k);
        }
        k += 1;
    }
    let ghost ma = matched_source(a, b);
    let ghost mb = matched_target(a, b);
    proof {
        lemma_flagged_len(a, fa, a.len() as int);
        lemma_flagged_len(b, fb, b.len() as int);
        lemma_count_bound(fa, a.len() as int);
        lemma_count_bound(fb, b.len() as int);
    }
    let matches = source_picked.len();
    if matches == 0 {
        return Score { num: 0, den: 1 };
    }
    let mut transpositions: usize = 0;
    let mut q: usize = 0;
    while q < matches
        invariant
            q <= matches,
            matches == source_picked@.len() == target_picked@.len(),
            matches == ma.len() == mb.len(),
            source_len == source_chars@.len(),
            target_len == target_chars@.len(),
            a == gview(source_chars@),
            b == gview(target_chars@),
            forall|p: int| 0 <= p < source_picked@.len() ==> source_picked@[p] < source_len,
            forall|p: int| 0 <= p < target_picked@.len() ==> target_picked@[p] < target_len,
            forall|p: int| 0 <= p < matches ==> ma[p] == a[source_picked@[p] as int],
            forall|p: int| 0 <= p < matches ==> mb[p] == b[target_picked@[p] as int],
            transpositions == mismatches(ma, mb, q as int),
            transpositions <= q,
        decreases matches - q,
    {
        if !(source_chars[source_picked[q]] == target_chars[target_picked[q]]) {
            transpositions += 1;
        }
        q += 1;
    }
    proof {
        lemma_jaro_fraction(source_len as int, target_len as int, matches as int, transpositions as int);
    }
    let m = matches as u128;
    let t = transpositions as u128;
    let la = source_len as u128;
    let lb = target_len as u128;
    let both = la * lb;
    let num = 2 * (m * m * (la + lb)) + (2 * m - t) * both;
    let den = 6 * (m * both);
    Score { num, den }
}


/// Jaro similarity of two texts, by grapheme cluster.
pub fn jaro(source: &str, target: &str) -> (r: Score)
    requires
        source@.len() <= MAX_GRAPHEMES,
        target@.len() <= MAX_GRAPHEMES,
    ensures
        r.wf(),
        r.is_fraction(
            jaro_num(graphemes_of(source@), graphemes_of(target@)),
            jaro_den(graphemes_of(source@), graphemes_of(target@)),
        ),
{
    let source_chars = graphemes(source);
    let target_chars = graphemes(target);
    jaro_of(&source_chars, &target_chars)
}

/// The length of the common prefix of `a` and `b` from position `k` on,
/// counted to at most four clusters and never past either end.
pub open spec fn common_prefix(a: Seq<Seq<char>>, b: Seq<Seq<char>>, k: int) -> int
    decreases 4 - k,
{
    if k >= 4 || k >= a.len() || k >= b.len() || a[k] != b[k] {
        k
    } else {
        common_prefix(a, b, k + 1)
    }
}

/// Numerator of `jaro + 0.1 * p * (1 - jaro)` over ten times the Jaro
/// denominator, where `p` is the common prefix length.
pub open spec fn jaro_winkler_num(a: Seq<Seq<char>>, b: Seq<Seq<char>>) -> int {
    let p = common_prefix(a, b, 0);
    (10 - p) * jaro_num(a, b) + p * jaro_den(a, b)
}

pub open spec fn jaro_winkler_den(a: Seq<Seq<char>>, b: Seq<Seq<char>>) -> int {
    10 * jaro_den(a, b)
}

/// Jaro-Winkler similarity of two cluster sequences.
pub fn jaro_winkler_of(source_chars: &Vec<String>, target_chars: &Vec<String>) -> (r: Score)
    requires
        source_chars@.len() <= MAX_GRAPHEMES,
        target_chars@.len() <= MAX_GRAPHEMES,
    ensures
        r.wf(),
        r.is_fraction(
            jaro_winkler_num(gview(source_chars@), gview(target_chars@)),
            jaro_winkler_den(gview(source_chars@), gview(target_chars@)),
        ),
{
    let ghost a = gview(source_chars@);
    let ghost b = gview(target_chars@);
    let mut prefix: usize = 0;
    while prefix < 4 && prefix < source_chars.len() && prefix < target_chars.len()
        && source_chars[prefix] == target_chars[prefix]
        invariant
            prefix <= 4,
            a == gview(source_chars@),
            b == gview(target_chars@),
            common_prefix(a, b, 0) == common_prefix(a, b, prefix as int),
        decreases 4 - prefix,
    {
        prefix += 1;
    }
    let score = jaro_of(source_chars, target_chars);
    proof {
        lemma_jaro_den_bound(a, b);
        assert((10 - prefix) * score.num + prefix * score.den <= 10 * score.den) by (nonlinear_arith)
            requires
                score.num <= score.den,
                prefix <= 4,
        ;
        assert(0 <= (10 - prefix) * score.num) by (nonlinear_arith)
            requires
                prefix <= 4,
        ;
    }
    let p = prefix as u128;
    Score { num: (10 - p) * score.num + p * score.den, den: 10 * score.den }
}

proof fn lemma_jaro_den_bound(a: Seq<Seq<char>>, b: Seq<Seq<char>>)
    requires
        a.len() <= MAX_GRAPHEMES,
        b.len() <= MAX_GRAPHEMES,
    ensures
        0 < jaro_den(a, b) <= 0x1800_0000_0000_0000_0000_0000,
{
    let m = jaro_matches(a, b);
    if !(a.len() == 0 && b.len() == 0) && m != 0 {
        let (fa, fb) = jaro_flags(a, b, a.len() as int);
        lemma_jaro_flags(a, b, a.len() as int);
        lemma_flagged_len(a, fa, a.len() as int);
        lemma_count_bound(fa, a.len() as int);
        lemma_count_bound(fb, b.len() as int);
        lemma_jaro_fraction(a.len() as int, b.len() as int, m, 0);
    }
}

/// Jaro-Winkler similarity of two texts, by grapheme cluster: the Jaro score
/// raised by a tenth of the remaining distance for each cluster of common
/// prefix, up to four.
pub fn jaro_winkler(source: &str, target: &str) -> (r: Score)
    requires
        source@.len() <= MAX_GRAPHEMES,
        target@.len() <= MAX_GRAPHEMES,
    ensures
        r.wf(),
        r.is_fraction(
            jaro_winkler_num(graphemes_of(source@), graphemes_of(target@)),
            jaro_winkler_den(graphemes_of(source@), graphemes_of(target@)),
        ),
{
    let source_chars = graphemes(source);
    let target_chars = graphemes(target);
    jaro_winkler_of(&source_chars, &target_chars)
}


proof fn lemma_first_free_own(a: Seq<Seq<char>>, used: Seq<bool>, j: int, i: int, end: int)
    requires
        0 <= j <= i < end <= a.len(),
        used.len() == a.len(),
        forall|k: int| 0 <= k < a.len() ==> used[k] == (k < i),
    ensures
        first_free(a[i], a, used, j, end) == i,
    decreases i - j,
{
    if j < i {
        lemma_first_free_own(a, used, j + 1, i, end);
    }
}

/// Matching a sequence against itself pairs every cluster with its own position.
proof fn lemma_jaro_flags_identical(a: Seq<Seq<char>>, i: int)
    requires
        0 <= i <= a.len(),
    ensures
        jaro_flags(a, a, i).0 =~= Seq::new(a.len(), |k: int| k < i),
        jaro_flags(a, a, i).1 =~= Seq::new(a.len(), |k: int| k < i),
    decreases i,
{
    if i > 0 {
        lemma_jaro_flags_identical(a, i - 1);
        let (fa, fb) = jaro_flags(a, a, i - 1);
        let radius = match_radius(a.len(), a.len());
        lemma_first_free_own(a, fb, window_start(i - 1, radius), i - 1, window_end(i - 1, radius, a.len()));
    }
}

proof fn lemma_flagged_all(s: Seq<Seq<char>>, f: Seq<bool>, n: int)
    requires
        0 <= n <= s.len(),
        n <= f.len(),
        forall|k: int| 0 <= k < n ==> f[k],
    ensures
        flagged(s, f, n) =~= s.subrange(0, n),
    decreases n,
{
    if n > 0 {
        lemma_flagged_all(s, f, n - 1);
    }
}

proof fn lemma_mismatches_same(x: Seq<Seq<char>>, n: int)
    requires
        0 <= n,
    ensures
        mismatches(x, x, n) == 0,
    decreases n,
{
    if n > 0 {
        lemma_mismatches_same(x, n - 1);
    }
}

/// A sequence is perfectly Jaro-similar to itself, the empty one included.
pub proof fn lemma_jaro_identical(a: Seq<Seq<char>>)
    ensures
        jaro_num(a, a) == jaro_den(a, a),
        jaro_den(a, a) > 0,
{
    let n = a.len() as int;
    lemma_jaro_flags_identical(a, n);
    let (fa, fb) = jaro_flags(a, a, n);
    lemma_flagged_all(a, fa, n);
    lemma_flagged_all(a, fb, n);
    assert(a.subrange(0, n) =~= a);
    lemma_mismatches_same(a, n);
    if n > 0 {
        assert(2 * n * n * (n + n) + (2 * n - 0) * n * n == 6 * n * n * n) by (nonlinear_arith);
        assert(6 * n * n * n > 0) by (nonlinear_arith)
            requires
                n > 0,
        ;
    }
}


/// The distinct runs of `width` consecutive clusters of `s`.
pub open spec fn ngrams(s: Seq<Seq<char>>, width: nat) -> Set<Seq<Seq<char>>> {
    Set::new(|g: Seq<Seq<char>>| exists|k: int| 0 <= k && k + width <= s.len() && g == #[trigger] s.subrange(k, k + width))
}

/// The runs of `width` clusters of `s` that start at the given positions.
pub open spec fn runs_at(s: Seq<Seq<char>>, starts: Seq<usize>, width: nat) -> Seq<Seq<Seq<char>>> {
    Seq::new(starts.len(), |q: int| s.subrange(starts[q] as int, starts[q] + width))
}

/// Whether the run of `width` clusters of `x` at `i` equals that of `y` at `j`.
fn same_run(x: &Vec<String>, i: usize, y: &Vec<String>, j: usize, width: usize) -> (r: bool)
    requires
        i + width <= x@.len(),
        j + width <= y@.len(),
    ensures
        r == (gview(x@).subrange(i as int, i + width) == gview(y@).subrange(j as int, j + width)),
{
    let _ = x.len();
    let _ = y.len();
    let ghost gx = gview(x@).subrange(i as int, i + width);
    let ghost gy = gview(y@).subrange(j as int, j + width);
    let mut q: usize = 0;
    while q < width
        invariant
            q <= width,
            i + width <= x@.len(),
            j + width <= y@.len(),
            x@.len() <= usize::MAX,
            y@.len() <= usize::MAX,
            gx == gview(x@).subrange(i as int, i + width),
            gy == gview(y@).subrange(j as int, j + width),
            forall|p: int| 0 <= p < q ==> gx[p] == gy[p],
        decreases width - q,
    {
        if !(x[i + q] == y[j + q]) {
            proof {
                assert(gx[q as int] != gy[q as int]);
            }
            return false;
        }
        q += 1;
    }
    assert(gx =~= gy);
    true
}

/// Whether the run of `width` clusters of `x` at `i` occurs anywhere in `y`.
fn has_run(y: &Vec<String>, x: &Vec<String>, i: usize, width: usize) -> (r: bool)
    requires
        width > 0,
        i + width <= x@.len(),
    ensures
        r == ngrams(gview(y@), width as nat).contains(gview(x@).subrange(i as int, i + width)),
{
    let ghost g = gview(x@).subrange(i as int, i + width);
    if width > y.len() {
        return false;
    }
    let last = y.len() - width;
    let mut k: usize = 0;
    while k <= last
        invariant
            k <= last + 1,
            last + width == y@.len(),
            y@.len() <= usize::MAX,
            width > 0,
            i + width <= x@.len(),
            g == gview(x@).subrange(i as int, i + width),
            forall|p: int| 0 <= p < k ==> #[trigger] gview(y@).subrange(p, p + width) != g,
        decreases last + 1 - k,
    {
        if same_run(y, k, x, i, width) {
            return true;
        }
        k += 1;
    }
    false
}

/// The starts of the distinct runs of `width` clusters of `s`, each run
/// taken where it first occurs.
fn distinct_runs(s: &Vec<String>, width: usize) -> (r: Vec<usize>)
    requires
        width > 0,
    ensures
        forall|q: int| 0 <= q < r@.len() ==> r@[q] + width <= s@.len(),
        runs_at(gview(s@), r@, width as nat).no_duplicates(),
        runs_at(gview(s@), r@, width as nat).to_set() == ngrams(gview(s@), width as nat),
{
    let ghost a = gview(s@);
    let mut starts: Vec<usize> = Vec::new();
    if width > s.len() {
        assert(runs_at(a, starts@, width as nat).to_set() =~= ngrams(a, width as nat));
        return starts;
    }
    let last = s.len() - width;
    let mut k: usize = 0;
    while k <= last
        invariant
            k <= last + 1,
            last + width == s@.len(),
            s@.len() <= usize::MAX,
            width > 0,
            a == gview(s@),
            forall|q: int| 0 <= q < starts@.len() ==> starts@[q] < k,
            runs_at(a, starts@, width as nat).no_duplicates(),
            runs_at(a, starts@, width as nat).to_set() == Set::new(
                |g: Seq<Seq<char>>| exists|p: int| 0 <= p < k && g == #[trigger] a.subrange(p, p + width),
            ),
        decreases last + 1 - k,
    {
        let ghost before = runs_at(a, starts@, width as nat);
        let ghost run = a.subrange(k as int, k + width);
        let mut seen = false;
        let mut q: usize = 0;
        while q < starts.len()
            invariant
                q <= starts@.len(),
                k <= last,
                last + width == s@.len(),
                a == gview(s@),
                before == runs_at(a, starts@, width as nat),
                run == a.subrange(k as int, k + width),
                forall|p: int| 0 <= p < starts@.len() ==> starts@[p] < k,
                seen == exists|p: int| 0 <= p < q && before[p] == run,
            decreases starts@.len() - q,
        {
            let same = same_run(s, starts[q], s, k, width);
            proof {
                if same {
                    assert(before[q as int] == run);
                }
            }
            if same {
                seen = true;
            }
            q += 1;
        }
        let ghost old_starts = starts@;
        if !seen {
            starts.push(k);
            proof {
                assert(runs_at(a, starts@, width as nat) =~= before.push(run));
                before.lemma_push_to_set_commute(run);
                assert forall|x: int, y: int| 0 <= x < y < before.push(run).len() implies before.push(run)[x] != before.push(run)[y] by {
                    if y == before.len() {
                        assert(before[x] != run);
                    }
                }
            }
        }
        proof {
            let cur = runs_at(a, starts@, width as nat).to_set();
            let target = Set::new(|g: Seq<Seq<char>>| exists|p: int| 0 <= p < k + 1 && g == #[trigger] a.subrange(p, p + width));
            assert forall|g: Seq<Seq<char>>| cur.contains(g) <==> target.contains(g) by {
                if target.contains(g) {
                    let p = choose|p: int| 0 <= p < k + 1 && g == #[trigger] a.subrange(p, p + width);
                    if p == k {
                        if seen {
                            let x = choose|x: int| 0 <= x < before.len() && before[x] == run;
                            assert(before.contains(g));
                        } else {
                            assert(runs_at(a, starts@, width as nat)[before.len() as int] == g);
                        }
                    } else {
                        assert(before.to_set().contains(g));
                        if !seen {
                            assert(before.contains(g));
                            let x = choose|x: int| 0 <= x < before.len() && before[x] == g;
                            assert(runs_at(a, starts@, width as nat)[x] == g);
                        }
                    }
                }
                if cur.contains(g) {
                    if !seen {
                        assert(before.push(run).contains(g));
                        if g != run {
                            let x = choose|x: int| 0 <= x < before.push(run).len() && before.push(run)[x] == g;
                            assert(before.contains(g)) by { assert(before[x] == g); }
                            assert(before.to_set().contains(g));
                        }
                    } else {
                        assert(before.to_set().contains(g));
                    }
                }
            }
            assert(cur =~= target);
        }
        k += 1;
    }
    assert(Set::new(|g: Seq<Seq<char>>| exists|p: int| 0 <= p < k && g == #[trigger] a.subrange(p, p + width))
        =~= ngrams(a, width as nat));
    starts
}


/// How many of the distinct runs of `x` that start at `starts` occur in `y`
/// (when `inside`), or do not occur in it.
fn count_runs(x: &Vec<String>, starts: &Vec<usize>, y: &Vec<String>, width: usize, inside: bool) -> (r: usize)
    requires
        width > 0,
        forall|q: int| 0 <= q < starts@.len() ==> starts@[q] + width <= x@.len(),
        runs_at(gview(x@), starts@, width as nat).no_duplicates(),
    ensures
        r <= starts@.len(),
        r == (if inside {
            runs_at(gview(x@), starts@, width as nat).to_set().intersect(ngrams(gview(y@), width as nat))
        } else {
            runs_at(gview(x@), starts@, width as nat).to_set().difference(ngrams(gview(y@), width as nat))
        }).len(),
{
    let ghost runs = runs_at(gview(x@), starts@, width as nat);
    let ghost other = ngrams(gview(y@), width as nat);
    let ghost part = if inside {
        runs.to_set().intersect(other)
    } else {
        runs.to_set().difference(other)
    };
    let mut count: usize = 0;
    let mut q: usize = 0;
    proof {
        assert(runs.take(0).to_set().intersect(part) =~= Set::empty());
    }
    while q < starts.len()
        invariant
            q <= starts@.len(),
            width > 0,
            forall|p: int| 0 <= p < starts@.len() ==> starts@[p] + width <= x@.len(),
            runs == runs_at(gview(x@), starts@, width as nat),
            runs.no_duplicates(),
            other == ngrams(gview(y@), width as nat),
            part == (if inside { runs.to_set().intersect(other) } else { runs.to_set().difference(other) }),
            count <= q,
            count == runs.take(q as int).to_set().intersect(part).len(),
        decreases starts@.len() - q,
    {
        let found = has_run(y, x, starts[q], width);
        proof {
            broadcast use vstd::seq_lib::seq_to_set_is_finite;

            let pre = runs.take(q as int);
            let g = runs[q as int];
            assert(runs.take(q + 1) =~= pre.push(g));
            pre.lemma_push_to_set_commute(g);
            assert(!pre.to_set().contains(g)) by {
                if pre.to_set().contains(g) {
                    let k = choose|k: int| 0 <= k < pre.len() && pre[k] == g;
                    assert(runs[k] == runs[q as int]);
                }
            }
            assert(runs.to_set().contains(g)) by {
                assert(runs.contains(g));
            }
            assert(part.contains(g) == (found == inside));
            if part.contains(g) {
                assert(pre.to_set().insert(g).intersect(part) =~= pre.to_set().intersect(part).insert(g));
            } else {
                assert(pre.to_set().insert(g).intersect(part) =~= pre.to_set().intersect(part));
            }
        }
        if found == inside {
            count += 1;
        }
        q += 1;
    }
    proof {
        assert(runs.take(q as int) =~= runs);
        assert(runs.to_set().intersect(part) =~= part);
    }
    count
}

/// Jaccard similarity of the sets of runs of `width` consecutive clusters of
/// two cluster sequences.
pub fn ngram_jaccard_of(source_chars: &Vec<String>, target_chars: &Vec<String>, ngram_width: usize) -> (r: Score)
    requires
        ngram_width > 0,
    ensures
        r.wf(),
        r.is_fraction(
            jaccard_num(ngrams(gview(source_chars@), ngram_width as nat), ngrams(gview(target_chars@), ngram_width as nat)),
            jaccard_den(ngrams(gview(source_chars@), ngram_width as nat), ngrams(gview(target_chars@), ngram_width as nat)),
        ),
{
    let ghost x = ngrams(gview(source_chars@), ngram_width as nat);
    let ghost y = ngrams(gview(target_chars@), ngram_width as nat);
    let source_runs = distinct_runs(source_chars, ngram_width);
    let target_runs = distinct_runs(target_chars, ngram_width);
    let common = count_runs(source_chars, &source_runs, target_chars, ngram_width, true);
    let only_source = count_runs(source_chars, &source_runs, target_chars, ngram_width, false);
    let only_target = count_runs(target_chars, &target_runs, source_chars, ngram_width, false);
    proof {
        broadcast use vstd::seq_lib::seq_to_set_is_finite;

        lemma_distinct_len(runs_at(gview(source_chars@), source_runs@, ngram_width as nat));
        lemma_distinct_len(runs_at(gview(target_chars@), target_runs@, ngram_width as nat));
        assert(x.union(y) =~= x.intersect(y) + (x.difference(y) + y.difference(x)));
        vstd::set_lib::lemma_set_disjoint_lens(x.difference(y), y.difference(x));
        vstd::set_lib::lemma_set_disjoint_lens(x.intersect(y), x.difference(y) + y.difference(x));
        lemma_jaccard_range(x, y);
    }
    let total = common as u128 + only_source as u128 + only_target as u128;
    if total == 0 {
        return Score { num: 1, den: 1 };
    }
    Score { num: common as u128, den: total }
}

/// Jaccard similarity of the sets of n-grams (runs of `ngram_width`
/// consecutive grapheme clusters) of two texts; one when neither has any.
pub fn ngram_jaccard(source: &str, target: &str, ngram_width: usize) -> (r: Score)
    requires
        ngram_width > 0,
    ensures
        r.wf(),
        r.is_fraction(
            jaccard_num(ngrams(graphemes_of(source@), ngram_width as nat), ngrams(graphemes_of(target@), ngram_width as nat)),
            jaccard_den(ngrams(graphemes_of(source@), ngram_width as nat), ngrams(graphemes_of(target@), ngram_width as nat)),
        ),
{
    let source_chars = graphemes(source);
    let target_chars = graphemes(target);
    ngram_jaccard_of(&source_chars, &target_chars, ngram_width)
}

/// Every sequence has n-gram Jaccard similarity one with itself.
pub proof fn lemma_ngram_jaccard_identical(s: Seq<Seq<char>>, width: nat)
    ensures
        jaccard_num(ngrams(s, width), ngrams(s, width)) == jaccard_den(ngrams(s, width), ngrams(s, width)),
{
    let x = ngrams(s, width);
    assert(x.intersect(x) =~= x);
    assert(x.union(x) =~= x);
}


/// The similarity function that ranks the candidates of a lookup.
#[derive(Clone, Copy, Debug)]
pub enum Metric {
    Jaro,
    JaroWinkler,
    /// n-gram Jaccard over runs of the given (positive) number of clusters.
    NgramJaccard(usize),
    DamerauLevenshtein,
}

impl Metric {
    pub open spec fn wf(self) -> bool {
        match self {
            Metric::NgramJaccard(width) => width > 0,
            _ => true,
        }
    }

    /// Numerator of the score of `a` against `b` under this metric.
    pub open spec fn num(self, a: Seq<Seq<char>>, b: Seq<Seq<char>>) -> int {
        match self {
            Metric::Jaro => jaro_num(a, b),
            Metric::JaroWinkler => jaro_winkler_num(a, b),
            Metric::NgramJaccard(width) => jaccard_num(ngrams(a, width as nat), ngrams(b, width as nat)),
            Metric::DamerauLevenshtein => dl_norm_num(a, b),
        }
    }

    /// Denominator of the score of `a` against `b` under this metric.
    pub open spec fn den(self, a: Seq<Seq<char>>, b: Seq<Seq<char>>) -> int {
        match self {
            Metric::Jaro => jaro_den(a, b),
            Metric::JaroWinkler => jaro_winkler_den(a, b),
            Metric::NgramJaccard(width) => jaccard_den(ngrams(a, width as nat), ngrams(b, width as nat)),
            Metric::DamerauLevenshtein => dl_norm_den(a, b),
        }
    }

    /// Scores two cluster sequences under this metric.
    pub fn score(&self, source_chars: &Vec<String>, target_chars: &Vec<String>) -> (r: Score)
        requires
            self.wf(),
            source_chars@.len() <= MAX_GRAPHEMES,
            target_chars@.len() <= MAX_GRAPHEMES,
        ensures
            r.wf(),
            r.is_fraction(
                self.num(gview(source_chars@), gview(target_chars@)),
                self.den(gview(source_chars@), gview(target_chars@)),
            ),
    {
        match self {
            Metric::Jaro => jaro_of(source_chars, target_chars),
            Metric::JaroWinkler => jaro_winkler_of(source_chars, target_chars),
            Metric::NgramJaccard(width) => ngram_jaccard_of(source_chars, target_chars, *width),
            Metric::DamerauLevenshtein => damerau_levenshtein_norm(source_chars, target_chars),
        }
    }
}

} // verus!
