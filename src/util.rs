//! Set similarity, and the shape profile of a text.
use crate::score::Score;
use crate::text::{graphemes, graphemes_of, gview, string_from_chars};
use std::collections::HashSet;
use std::hash::Hash;
use vstd::prelude::*;
use vstd::std_specs::hash::obeys_key_model;

verus! {

broadcast use vstd::std_specs::hash::group_hash_axioms;

/// Numerator of `|a ∩ b| / |a ∪ b|`; two empty sets count as identical.
pub open spec fn jaccard_num<T>(a: Set<T>, b: Set<T>) -> int {
    if a.union(b).len() == 0 {
        1
    } else {
        a.intersect(b).len() as int
    }
}

pub open spec fn jaccard_den<T>(a: Set<T>, b: Set<T>) -> int {
    if a.union(b).len() == 0 {
        1
    } else {
        a.union(b).len() as int
    }
}

/// A sequence without repeats has as many distinct elements as entries.
pub proof fn lemma_distinct_len<T>(s: Seq<T>)
    requires
        s.no_duplicates(),
    ensures
        s.to_set().len() == s.len(),
        s.to_set().finite(),
{
    broadcast use vstd::seq_lib::seq_to_set_is_finite;

    s.unique_seq_to_set();
}

/// The Jaccard fraction of two finite sets lies in `[0, 1]` and has a
/// positive denominator.
pub proof fn lemma_jaccard_range<T>(a: Set<T>, b: Set<T>)
    requires
        a.finite(),
        b.finite(),
    ensures
        0 <= jaccard_num(a, b) <= jaccard_den(a, b),
        0 < jaccard_den(a, b),
{
    vstd::set_lib::lemma_len_subset(a.intersect(b), a.union(b));
}

/// How many elements of `a` lie in `b` (when `inside`) or outside it.
fn count_against<T: Eq + Hash>(a: &HashSet<T>, b: &HashSet<T>, inside: bool) -> (r: usize)
    requires
        obeys_key_model::<T>(),
    ensures
        a@.finite(),
        r <= a@.len(),
        r == (if inside { a@.intersect(b@) } else { a@.difference(b@) }).len(),
{
    let mut count: usize = 0;
    let ghost mut seen: Set<T> = Set::empty();
    let ghost part = if inside { a@.intersect(b@) } else { a@.difference(b@) };
    let total = a.len();
    proof {
        assert(seen.intersect(part) =~= Set::empty());
    }
    for x in it: a.iter()
        invariant
            obeys_key_model::<T>(),
            part == (if inside { a@.intersect(b@) } else { a@.difference(b@) }),
            it.seq().unref().to_set() == a@,
            it.seq().unref().no_duplicates(),
            seen == it.seq().unref().take(it.index() as int).to_set(),
            total == a@.len(),
            seen.finite(),
            seen.subset_of(a@),
            count == seen.intersect(part).len(),
            count <= seen.len(),
            it.index() == it.seq().len() ==> seen == a@,
    {
        proof {
            broadcast use vstd::seq_lib::seq_to_set_is_finite;

            let keys = it.seq().unref();
            let pre = keys.take(it.index() as int);
            assert(keys.take(it.index() + 1) =~= pre.push(*x));
            pre.lemma_push_to_set_commute(*x);
            assert(!seen.contains(*x)) by {
                if seen.contains(*x) {
                    let k = choose|k: int| 0 <= k < pre.len() && pre[k] == *x;
                    assert(keys[k] == keys[it.index() as int]);
                }
            }
            assert(keys.contains(*x)) by {
                assert(keys[it.index() as int] == *x);
            }
            assert(a@.contains(*x));
            vstd::set_lib::lemma_len_subset(seen.insert(*x), a@);
            assert(seen.insert(*x).len() == seen.len() + 1);
            if part.contains(*x) {
                assert(seen.insert(*x).intersect(part) =~= seen.intersect(part).insert(*x));
            } else {
                assert(seen.insert(*x).intersect(part) =~= seen.intersect(part));
            }
            vstd::set_lib::lemma_len_subset(seen.intersect(part), seen);
            if it.index() + 1 == keys.len() {
                assert(keys.take(it.index() + 1) =~= keys);
            }
            seen = seen.insert(*x);
        }
        if b.contains(x) == inside {
            count += 1;
        }
    }
    proof {
        assert(seen.intersect(part) =~= part);
    }
    count
}

/// Jaccard similarity of two sets: the size of their intersection over the
/// size of their union, and one when both are empty.
pub fn jaccard_similarity<T: Eq + Hash>(a: &HashSet<T>, b: &HashSet<T>) -> (r: Score)
    requires
        obeys_key_model::<T>(),
    ensures
        r.wf(),
        r.is_fraction(jaccard_num(a@, b@), jaccard_den(a@, b@)),
{
    let common = count_against(a, b, true);
    let only_b = count_against(b, a, false);
    let only_a = count_against(a, b, false);
    proof {
        assert(a@.union(b@) =~= a@.intersect(b@) + (a@.difference(b@) + b@.difference(a@)));
        vstd::set_lib::lemma_set_disjoint_lens(a@.difference(b@), b@.difference(a@));
        vstd::set_lib::lemma_set_disjoint_lens(a@.intersect(b@), a@.difference(b@) + b@.difference(a@));
        lemma_jaccard_range(a@, b@);
    }
    let total = common as u128 + only_a as u128 + only_b as u128;
    if total == 0 {
        return Score { num: 1, den: 1 };
    }
    Score { num: common as u128, den: total }
}

/// Jaccard similarity does not depend on the order of its arguments.
pub proof fn lemma_jaccard_symmetric<T>(a: Set<T>, b: Set<T>)
    ensures
        jaccard_num(a, b) == jaccard_num(b, a),
        jaccard_den(a, b) == jaccard_den(b, a),
{
    assert(a.intersect(b) =~= b.intersect(a));
    assert(a.union(b) =~= b.union(a));
}

/// The distinct clusters of `g`, in order of first appearance.
pub open spec fn first_seen(g: Seq<Seq<char>>) -> Seq<Seq<char>>
    decreases g.len(),
{
    if g.len() == 0 {
        Seq::empty()
    } else {
        let prev = first_seen(g.drop_last());
        if prev.contains(g.last()) {
            prev
        } else {
            prev.push(g.last())
        }
    }
}

/// Where `x` first stands in `s`, or `s.len()` when it does not.
pub open spec fn position_of(s: Seq<Seq<char>>, x: Seq<char>) -> nat
    decreases s.len(),
{
    if s.len() == 0 {
        0
    } else if s[0] == x {
        0
    } else {
        1 + position_of(s.drop_first(), x)
    }
}

/// The decimal digit of `d`, for `d < 10`.
pub open spec fn digit_char(d: nat) -> char {
    seq!['0', '1', '2', '3', '4', '5', '6', '7', '8', '9'][d as int]
}

/// The decimal numeral of `n`, without leading zeros.
pub open spec fn decimal(n: nat) -> Seq<char>
    decreases n,
{
    if n < 10 {
        seq![digit_char(n)]
    } else {
        decimal(n / 10).push(digit_char(n % 10))
    }
}

/// The shape of a cluster sequence: each cluster replaced by the decimal
/// rank of its first appearance, the numerals written one after another.
pub open spec fn profile(g: Seq<Seq<char>>) -> Seq<char>
    decreases g.len(),
{
    if g.len() == 0 {
        Seq::empty()
    } else {
        profile(g.drop_last()) + decimal(position_of(first_seen(g), g.last()))
    }
}

fn digit(d: usize) -> (c: char)
    requires
        d < 10,
    ensures
        c == digit_char(d as nat),
{
    if d == 0 {
        '0'
    } else if d == 1 {
        '1'
    } else if d == 2 {
        '2'
    } else if d == 3 {
        '3'
    } else if d == 4 {
        '4'
    } else if d == 5 {
        '5'
    } else if d == 6 {
        '6'
    } else if d == 7 {
        '7'
    } else if d == 8 {
        '8'
    } else {
        '9'
    }
}

/// Appends the decimal numeral of `n`.
fn push_decimal(out: &mut Vec<char>, n: usize)
    ensures
        final(out)@ == old(out)@ + decimal(n as nat),
    decreases n,
{
    if n >= 10 {
        push_decimal(out, n / 10);
    }
    out.push(digit(n % 10));
    proof {
        if n >= 10 {
            assert(old(out)@ + decimal(n as nat) =~= old(out)@ + decimal((n / 10) as nat) + seq![digit_char((n % 10) as nat)]);
        }
    }
}

proof fn lemma_position_of(s: Seq<Seq<char>>, x: Seq<char>)
    ensures
        position_of(s, x) <= s.len(),
        position_of(s, x) < s.len() <==> s.contains(x),
        position_of(s, x) < s.len() ==> s[position_of(s, x) as int] == x,
        forall|k: int| 0 <= k < position_of(s, x) ==> s[k] != x,
    decreases s.len(),
{
    if s.len() > 0 && s[0] != x {
        lemma_position_of(s.drop_first(), x);
        if s.contains(x) {
            let k = choose|k: int| 0 <= k < s.len() && s[k] == x;
            assert(s.drop_first()[k - 1] == x);
        }
        assert forall|k: int| 0 <= k < position_of(s, x) implies s[k] != x by {
            if k > 0 {
                assert(s[k] == s.drop_first()[k - 1]);
            }
        }
    }
}

/// The shape profile of a text, by grapheme cluster: "abca" gives "0120".
pub fn string_profile(s: &str) -> (r: String)
    ensures
        r@ == profile(graphemes_of(s@)),
{
    let chars = graphemes(s);
    let ghost g = gview(chars@);
    let mut seen: Vec<String> = Vec::new();
    let mut out: Vec<char> = Vec::new();
    let mut k: usize = 0;
    while k < chars.len()
        invariant
            k <= chars@.len(),
            g == gview(chars@),
            gview(seen@) == first_seen(g.take(k as int)),
            out@ == profile(g.take(k as int)),
        decreases chars@.len() - k,
    {
        let ghost prefix = g.take(k as int);
        let ghost next = g.take(k + 1);
        proof {
            assert(next.drop_last() =~= prefix);
            assert(next.last() == g[k as int]);
            lemma_position_of(gview(seen@), g[k as int]);
        }
        let mut index: usize = 0;
        while index < seen.len() && !(seen[index] == chars[k])
            invariant
                index <= seen@.len(),
                k < chars@.len(),
                g == gview(chars@),
                forall|q: int| 0 <= q < index ==> gview(seen@)[q] != g[k as int],
            decreases seen@.len() - index,
        {
            index += 1;
        }
        proof {
            let fs = gview(seen@);
            if index < seen.len() {
                assert(fs[index as int] == g[k as int]);
                assert(fs.contains(g[k as int]));
                assert(position_of(fs, g[k as int]) == index) by {
                    lemma_position_of(fs, g[k as int]);
                    if position_of(fs, g[k as int]) < index {
                        assert(fs[position_of(fs, g[k as int]) as int] == g[k as int]);
                    }
                }
            } else {
                assert(!fs.contains(g[k as int])) by {
                    if fs.contains(g[k as int]) {
                        let q = choose|q: int| 0 <= q < fs.len() && fs[q] == g[k as int];
                    }
                }
                let pushed = fs.push(g[k as int]);
                lemma_position_of(pushed, g[k as int]);
                assert(pushed[index as int] == g[k as int]);
                assert forall|q: int| 0 <= q < index implies pushed[q] != g[k as int] by {
                    assert(pushed[q] == fs[q]);
                }
                if position_of(pushed, g[k as int]) < index {
                    assert(pushed[position_of(pushed, g[k as int]) as int] == g[k as int]);
                }
            }
        }
        if index == seen.len() {
            seen.push(chars[k].clone());
            proof {
                assert(gview(seen@) =~= first_seen(next));
            }
        }
        push_decimal(&mut out, index);
        k += 1;
    }
    proof {
        assert(g.take(k as int) =~= g);
    }
    string_from_chars(&out)
}

} // verus!
