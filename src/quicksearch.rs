//! The inverted token index over a corpus of names, and ranked lookup in it.
use crate::score::{lemma_le_lt, Score, MAX_GRAPHEMES};
use crate::string_sim::Metric;
use crate::text::{
    char_vec, graphemes, graphemes_of, gview, lowercase, lowercase_of, string_from_chars, transliterate,
    transliteration_of, words, words_of,
};
use vstd::prelude::*;

verus! {

/// `s` with periods and apostrophes removed and hyphens turned into spaces.
pub open spec fn strip_punctuation(s: Seq<char>) -> Seq<char>
    decreases s.len(),
{
    if s.len() == 0 {
        s
    } else {
        let rest = strip_punctuation(s.drop_last());
        let c = s.last();
        if c == '.' || c == '\'' {
            rest
        } else if c == '-' {
            rest.push(' ')
        } else {
            rest.push(c)
        }
    }
}

/// The canonical form of a text: transliterated to ASCII, stripped of
/// punctuation, and lowercased.
pub open spec fn normalized(s: Seq<char>) -> Seq<char> {
    lowercase_of(strip_punctuation(transliteration_of(s)))
}

/// The tokens of a text: the canonical forms of its words.
pub open spec fn token_set(s: Seq<char>) -> Set<Seq<char>> {
    words_of(s).map_values(|w: Seq<char>| normalized(w)).to_set()
}

/// Removes periods and apostrophes and turns hyphens into spaces.
fn strip(s: &str) -> (r: String)
    ensures
        r@ == strip_punctuation(s@),
{
    let chars = char_vec(s);
    let mut kept: Vec<char> = Vec::new();
    let mut i: usize = 0;
    while i < chars.len()
        invariant
            i <= chars@.len(),
            chars@ == s@,
            kept@ == strip_punctuation(chars@.take(i as int)),
        decreases chars@.len() - i,
    {
        let c = chars[i];
        proof {
            assert(chars@.take(i + 1).drop_last() =~= chars@.take(i as int));
        }
        if c == '-' {
            kept.push(' ');
        } else if c != '.' && c != '\'' {
            kept.push(c);
        }
        i += 1;
    }
    proof {
        assert(chars@.take(i as int) =~= chars@);
    }
    string_from_chars(&kept)
}

/// The index that a corpus builds: each token of some name maps to the set
/// of names that hold it.
pub open spec fn index_of(corpus: Seq<Seq<char>>) -> Map<Seq<char>, Set<Seq<char>>> {
    Map::new(
        |t: Seq<char>| exists|k: int| 0 <= k < corpus.len() && #[trigger] token_set(corpus[k]).contains(t),
        |t: Seq<char>| Set::new(|c: Seq<char>| corpus.contains(c) && token_set(c).contains(t)),
    )
}

/// Name `c` is among the first `k` names of `corpus` and has token `t`.
pub open spec fn indexed_before(corpus: Seq<Seq<char>>, k: int, t: Seq<char>, c: Seq<char>) -> bool {
    exists|q: int| 0 <= q < k && corpus[q] == c && #[trigger] token_set(corpus[q]).contains(t)
}

/// The names that share at least one token with the text `q` in `index`.
pub open spec fn shortlist(index: Map<Seq<char>, Set<Seq<char>>>, q: Seq<char>) -> Set<Seq<char>> {
    Set::new(
        |c: Seq<char>|
            exists|t: Seq<char>| token_set(q).contains(t) && index.contains_key(t) && #[trigger] index[t].contains(c),
    )
}

/// Some token of the text `q` is a key of `index`.
pub open spec fn any_token_indexed(index: Map<Seq<char>, Set<Seq<char>>>, q: Seq<char>) -> bool {
    exists|t: Seq<char>| token_set(q).contains(t) && #[trigger] index.contains_key(t)
}

/// Adds to `acc` each string of `extra` that it does not hold yet.
fn merge_into(acc: &mut Vec<String>, extra: &Vec<String>)
    requires
        gview(old(acc)@).no_duplicates(),
    ensures
        gview(final(acc)@).no_duplicates(),
        gview(final(acc)@).to_set() == gview(old(acc)@).to_set().union(gview(extra@).to_set()),
{
    let ghost start = gview(acc@).to_set();
    let mut k: usize = 0;
    while k < extra.len()
        invariant
            k <= extra@.len(),
            gview(acc@).no_duplicates(),
            gview(acc@).to_set() == start.union(gview(extra@).take(k as int).to_set()),
        decreases extra@.len() - k,
    {
        let mut present = false;
        let mut q: usize = 0;
        while q < acc.len()
            invariant
                q <= acc@.len(),
                k < extra@.len(),
                present == exists|p: int| 0 <= p < q && #[trigger] acc@[p]@ == extra@[k as int]@,
            decreases acc@.len() - q,
        {
            if acc[q] == extra[k] {
                present = true;
            }
            q += 1;
        }
        let ghost before = acc@;
        let ghost item = extra@[k as int]@;
        proof {
            assert(gview(extra@).take(k + 1) =~= gview(extra@).take(k as int).push(item));
            gview(extra@).take(k as int).lemma_push_to_set_commute(item);
        }
        if !present {
            acc.push(extra[k].clone());
            proof {
                assert(gview(acc@) =~= gview(before).push(item));
                gview(before).lemma_push_to_set_commute(item);
                assert forall|x: int, y: int| 0 <= x < y < gview(acc@).len() implies gview(acc@)[x] != gview(acc@)[y] by {
                    if y == before.len() {
                        assert(before[x]@ != item);
                    } else {
                        assert(gview(before)[x] != gview(before)[y]);
                    }
                }
                assert(gview(acc@).to_set() =~= start.union(gview(extra@).take(k + 1).to_set()));
            }
        } else {
            proof {
                let p = choose|p: int| 0 <= p < q && #[trigger] acc@[p]@ == item;
                assert(gview(acc@)[p] == item);
                assert(gview(acc@).to_set().contains(item));
                assert(gview(acc@).to_set() =~= start.union(gview(extra@).take(k + 1).to_set()));
            }
        }
        k += 1;
    }
    proof {
        assert(gview(extra@).take(k as int) =~= gview(extra@));
    }
}

/// The clusters of the canonical form of a text.
pub open spec fn normal_clusters(s: Seq<char>) -> Seq<Seq<char>> {
    graphemes_of(normalized(s))
}

/// The query and every name of its shortlist are short enough to score.
pub open spec fn scoreable(index: Map<Seq<char>, Set<Seq<char>>>, q: Seq<char>) -> bool {
    &&& normal_clusters(q).len() <= MAX_GRAPHEMES
    &&& forall|c: Seq<char>| #[trigger] shortlist(index, q).contains(c) ==> normal_clusters(c).len() <= MAX_GRAPHEMES
}

/// The names of a ranking, in order.
pub open spec fn ranked_names(v: Seq<(String, Score)>) -> Seq<Seq<char>> {
    v.map_values(|e: (String, Score)| e.0@)
}

/// Each entry's score is `metric` on the canonical forms of the query and the name.
pub open spec fn scored(metric: Metric, q: Seq<char>, v: Seq<(String, Score)>) -> bool {
    forall|i: int|
        0 <= i < v.len() ==> (#[trigger] v[i]).1.is_fraction(
            metric.num(normal_clusters(q), normal_clusters(v[i].0@)),
            metric.den(normal_clusters(q), normal_clusters(v[i].0@)),
        )
}

/// No score is below a later one.
pub open spec fn descending(v: Seq<(String, Score)>) -> bool {
    forall|i: int, j: int| 0 <= i < j < v.len() ==> !(#[trigger] v[i]).1.spec_lt((#[trigger] v[j]).1)
}

/// `v` ranks the shortlist of `q` in `index` by `metric`: each name once,
/// with its score, best first.
pub open spec fn ranked(index: Map<Seq<char>, Set<Seq<char>>>, q: Seq<char>, metric: Metric, v: Seq<(String, Score)>) -> bool {
    &&& ranked_names(v).no_duplicates()
    &&& ranked_names(v).to_set() == shortlist(index, q)
    &&& scored(metric, q, v)
    &&& forall|i: int| 0 <= i < v.len() ==> (#[trigger] v[i]).1.wf()
    &&& descending(v)
}

/// Two rankings of one query in one index list the same names with the same
/// scores, and put any two names whose scores differ in the same order.
pub proof fn lemma_ranking_determined(
    index: Map<Seq<char>, Set<Seq<char>>>,
    q: Seq<char>,
    metric: Metric,
    v: Seq<(String, Score)>,
    w: Seq<(String, Score)>,
)
    requires
        ranked(index, q, metric, v),
        ranked(index, q, metric, w),
    ensures
        v.len() == w.len(),
        ranked_names(v).to_set() == ranked_names(w).to_set(),
        forall|i: int, k: int|
            0 <= i < v.len() && 0 <= k < w.len() && v[i].0@ == w[k].0@ ==> (#[trigger] v[i]).1 == (#[trigger] w[k]).1,
        forall|i: int, j: int, k: int, l: int|
            #![trigger v[i], v[j], w[k], w[l]]
            0 <= i < v.len() && 0 <= j < v.len() && 0 <= k < w.len() && 0 <= l < w.len() && v[i].0@ == w[k].0@
                && v[j].0@ == w[l].0@ && v[j].1.spec_lt(v[i].1) ==> i < j && k < l,
{
    ranked_names(v).unique_seq_to_set();
    ranked_names(w).unique_seq_to_set();
    assert forall|i: int, k: int|
        0 <= i < v.len() && 0 <= k < w.len() && v[i].0@ == w[k].0@ implies (#[trigger] v[i]).1 == (#[trigger] w[k]).1 by {
        assert(v[i].1.is_fraction(
            metric.num(normal_clusters(q), normal_clusters(v[i].0@)),
            metric.den(normal_clusters(q), normal_clusters(v[i].0@)),
        ));
        assert(w[k].1.is_fraction(
            metric.num(normal_clusters(q), normal_clusters(w[k].0@)),
            metric.den(normal_clusters(q), normal_clusters(w[k].0@)),
        ));
    }
    assert forall|i: int, j: int, k: int, l: int|
        #![trigger v[i], v[j], w[k], w[l]]
        0 <= i < v.len() && 0 <= j < v.len() && 0 <= k < w.len() && 0 <= l < w.len() && v[i].0@ == w[k].0@
            && v[j].0@ == w[l].0@ && v[j].1.spec_lt(v[i].1) implies i < j && k < l by {
        assert(v[i].1 == w[k].1);
        assert(v[j].1 == w[l].1);
        if j <= i {
            if j == i {
            } else {
                assert(!v[j].1.spec_lt(v[i].1));
            }
        }
        if l <= k {
            if l == k {
            } else {
                assert(!w[l].1.spec_lt(w[k].1));
            }
        }
    }
}

/// Inserts `entry` into a descending ranking, after every score that is not
/// below its own, and says where.
fn insert_ranked(v: &mut Vec<(String, Score)>, entry: (String, Score)) -> (p: usize)
    requires
        descending(old(v)@),
        entry.1.wf(),
        forall|i: int| 0 <= i < old(v)@.len() ==> (#[trigger] old(v)@[i]).1.wf(),
    ensures
        p <= old(v)@.len(),
        final(v)@ == old(v)@.insert(p as int, entry),
        descending(final(v)@),
        forall|i: int| 0 <= i < final(v)@.len() ==> (#[trigger] final(v)@[i]).1.wf(),
{
    let mut p: usize = 0;
    while p < v.len() && !v[p].1.less_than(&entry.1)
        invariant
            p <= v@.len(),
            entry.1.wf(),
            forall|i: int| 0 <= i < v@.len() ==> (#[trigger] v@[i]).1.wf(),
            forall|i: int| 0 <= i < p ==> !(#[trigger] v@[i]).1.spec_lt(entry.1),
        decreases v@.len() - p,
    {
        p += 1;
    }
    let ghost before = v@;
    proof {
        assert forall|j: int| p <= j < before.len() implies !entry.1.spec_lt((#[trigger] before[j]).1) by {
            if j == p {
                lemma_le_lt(before[j].1, before[j].1, entry.1);
            } else {
                assert(!before[p as int].1.spec_lt(before[j].1));
                lemma_le_lt(before[j].1, before[p as int].1, entry.1);
            }
        }
    }
    v.insert(p, entry);
    proof {
        let after = v@;
        assert forall|i: int, j: int| 0 <= i < j < after.len() implies !(#[trigger] after[i]).1.spec_lt((#[trigger] after[j]).1) by {
            if j < p {
                assert(after[i] == before[i] && after[j] == before[j]);
            } else if j == p {
                assert(after[i] == before[i]);
            } else if i == p {
                assert(after[j] == before[j - 1]);
            } else if i < p {
                assert(after[i] == before[i] && after[j] == before[j - 1]);
            } else {
                assert(after[i] == before[i - 1] && after[j] == before[j - 1]);
            }
        }
        assert forall|i: int| 0 <= i < after.len() implies (#[trigger] after[i]).1.wf() by {
            if i < p {
                assert(after[i] == before[i]);
            } else if i > p {
                assert(after[i] == before[i - 1]);
            }
        }
    }
    p
}

/// An inverted index from tokens to the names of a corpus that hold them.
///
/// `tokens[i]` is a token and `buckets[i]` the distinct names that hold it.
pub struct QuickSearch {
    tokens: Vec<String>,
    buckets: Vec<Vec<String>>,
}

impl View for QuickSearch {
    type V = Map<Seq<char>, Set<Seq<char>>>;

    closed spec fn view(&self) -> Map<Seq<char>, Set<Seq<char>>> {
        Map::new(
            |t: Seq<char>| exists|i: int| 0 <= i < self.tokens@.len() && #[trigger] self.tokens@[i]@ == t,
            |t: Seq<char>| Set::new(|c: Seq<char>| self.holds(t, c)),
        )
    }
}

impl QuickSearch {
    /// Token `t` is listed with name `c` in its bucket.
    closed spec fn holds(&self, t: Seq<char>, c: Seq<char>) -> bool {
        exists|i: int|
            0 <= i < self.tokens@.len() && #[trigger] self.tokens@[i]@ == t && gview(self.buckets@[i]@).contains(c)
    }

    /// Tokens are distinct, one bucket stands beside each, and buckets are
    /// non-empty and without repeats.
    pub closed spec fn wf(&self) -> bool {
        &&& self.buckets@.len() == self.tokens@.len()
        &&& gview(self.tokens@).no_duplicates()
        &&& forall|i: int| 0 <= i < self.buckets@.len() ==> #[trigger] self.buckets@[i]@.len() > 0
        &&& forall|i: int| 0 <= i < self.buckets@.len() ==> gview(#[trigger] self.buckets@[i]@).no_duplicates()
    }

    /// Where `token` stands among the tokens, if it does.
    fn position(&self, token: &String) -> (r: Option<usize>)
        ensures
            match r {
                Some(i) => i < self.tokens@.len() && self.tokens@[i as int]@ == token@,
                None => forall|i: int| 0 <= i < self.tokens@.len() ==> #[trigger] self.tokens@[i]@ != token@,
            },
    {
        let mut i: usize = 0;
        while i < self.tokens.len()
            invariant
                i <= self.tokens@.len(),
                forall|k: int| 0 <= k < i ==> #[trigger] self.tokens@[k]@ != token@,
            decreases self.tokens@.len() - i,
        {
            if self.tokens[i] == *token {
                return Some(i);
            }
            i += 1;
        }
        None
    }

    /// Lists `name` under `token`.
    fn add(&mut self, token: &String, name: &String)
        requires
            old(self).wf(),
        ensures
            final(self).wf(),
            forall|t: Seq<char>, c: Seq<char>|
                final(self).holds(t, c) <==> (old(self).holds(t, c) || (t == token@ && c == name@)),
    {
        let ghost before = *self;
        match self.position(token) {
            Some(p) => {
                let mut present = false;
                let mut k: usize = 0;
                while k < self.buckets[p].len()
                    invariant
                        *self == before,
                        p < self.buckets@.len(),
                        self.buckets@.len() == self.tokens@.len(),
                        k <= self.buckets@[p as int]@.len(),
                        present == exists|q: int| 0 <= q < k && #[trigger] self.buckets@[p as int]@[q]@ == name@,
                    decreases self.buckets@[p as int]@.len() - k,
                {
                    if self.buckets[p][k] == *name {
                        present = true;
                    }
                    k += 1;
                }
                if !present {
                    self.buckets[p].push(name.clone());
                    proof {
                        let old_b = before.buckets@[p as int]@;
                        assert(gview(self.buckets@[p as int]@) =~= gview(old_b).push(name@));
                        assert forall|x: int, y: int| 0 <= x < y < gview(old_b).push(name@).len() implies gview(old_b).push(name@)[x] != gview(old_b).push(name@)[y] by {
                            if y == old_b.len() {
                                assert(old_b[x]@ != name@);
                            }
                        }
                        assert forall|i: int| 0 <= i < self.buckets@.len() implies gview(#[trigger] self.buckets@[i]@).no_duplicates() by {
                            if i != p {
                                assert(self.buckets@[i] == before.buckets@[i]);
                            }
                        }
                        assert forall|i: int| 0 <= i < self.buckets@.len() implies #[trigger] self.buckets@[i]@.len() > 0 by {
                            if i != p {
                                assert(self.buckets@[i] == before.buckets@[i]);
                            }
                        }
                        assert forall|t: Seq<char>, c: Seq<char>|
                            self.holds(t, c) <==> (before.holds(t, c) || (t == token@ && c == name@)) by {
                            if self.holds(t, c) {
                                let i = choose|i: int|
                                    0 <= i < self.tokens@.len() && #[trigger] self.tokens@[i]@ == t && gview(self.buckets@[i]@).contains(c);
                                if i != p {
                                    assert(self.buckets@[i] == before.buckets@[i]);
                                } else if c != name@ {
                                    let q = choose|q: int| 0 <= q < gview(self.buckets@[i]@).len() && gview(self.buckets@[i]@)[q] == c;
                                    assert(gview(old_b)[q] == c);
                                }
                            }
                            if before.holds(t, c) {
                                let i = choose|i: int|
                                    0 <= i < before.tokens@.len() && #[trigger] before.tokens@[i]@ == t && gview(before.buckets@[i]@).contains(c);
                                if i != p {
                                    assert(self.buckets@[i] == before.buckets@[i]);
                                } else {
                                    let q = choose|q: int| 0 <= q < gview(old_b).len() && gview(old_b)[q] == c;
                                    assert(gview(self.buckets@[i]@)[q] == c);
                                }
                                assert(self.tokens@[i]@ == t);
                            }
                            if t == token@ && c == name@ {
                                assert(gview(self.buckets@[p as int]@)[old_b.len() as int] == c);
                                assert(self.tokens@[p as int]@ == t);
                            }
                        }
                    }
                } else {
                    proof {
                        assert forall|t: Seq<char>, c: Seq<char>|
                            self.holds(t, c) <==> (before.holds(t, c) || (t == token@ && c == name@)) by {
                            if t == token@ && c == name@ {
                                let q = choose|q: int| 0 <= q < k && #[trigger] self.buckets@[p as int]@[q]@ == name@;
                                assert(gview(self.buckets@[p as int]@)[q] == c);
                                assert(self.tokens@[p as int]@ == t);
                            }
                        }
                    }
                }
            }
            None => {
                self.tokens.push(token.clone());
                let mut bucket: Vec<String> = Vec::new();
                bucket.push(name.clone());
                self.buckets.push(bucket);
                proof {
                    let n = before.tokens@.len() as int;
                    assert(gview(self.tokens@) =~= gview(before.tokens@).push(token@));
                    assert forall|x: int, y: int| 0 <= x < y < gview(self.tokens@).len() implies gview(self.tokens@)[x] != gview(self.tokens@)[y] by {
                        if y == n {
                            assert(before.tokens@[x]@ != token@);
                        } else {
                            assert(gview(before.tokens@)[x] != gview(before.tokens@)[y]);
                        }
                    }
                    assert forall|i: int| 0 <= i < self.buckets@.len() implies gview(#[trigger] self.buckets@[i]@).no_duplicates() by {
                        if i != n {
                            assert(self.buckets@[i] == before.buckets@[i]);
                        }
                    }
                    assert forall|i: int| 0 <= i < self.buckets@.len() implies #[trigger] self.buckets@[i]@.len() > 0 by {
                        if i != n {
                            assert(self.buckets@[i] == before.buckets@[i]);
                        }
                    }
                    assert forall|t: Seq<char>, c: Seq<char>|
                        self.holds(t, c) <==> (before.holds(t, c) || (t == token@ && c == name@)) by {
                        if self.holds(t, c) {
                            let i = choose|i: int|
                                0 <= i < self.tokens@.len() && #[trigger] self.tokens@[i]@ == t && gview(self.buckets@[i]@).contains(c);
                            if i != n {
                                assert(self.buckets@[i] == before.buckets@[i]);
                                assert(before.tokens@[i]@ == t);
                            } else {
                                let q = choose|q: int| 0 <= q < gview(self.buckets@[i]@).len() && gview(self.buckets@[i]@)[q] == c;
                            }
                        }
                        if before.holds(t, c) {
                            let i = choose|i: int|
                                0 <= i < before.tokens@.len() && #[trigger] before.tokens@[i]@ == t && gview(before.buckets@[i]@).contains(c);
                            assert(self.buckets@[i] == before.buckets@[i]);
                            assert(self.tokens@[i]@ == t);
                        }
                        if t == token@ && c == name@ {
                            assert(gview(self.buckets@[n]@)[0] == c);
                            assert(self.tokens@[n]@ == t);
                        }
                    }
                }
            }
        }
    }

    /// Builds the index of a corpus: every token of every name maps to the
    /// distinct names that hold it. A name without tokens is not indexed.
    pub fn new(names: &Vec<String>) -> (r: QuickSearch)
        ensures
            r.wf(),
            r@ == index_of(gview(names@)),
    {
        let ghost corpus = gview(names@);
        let mut index = QuickSearch { tokens: Vec::new(), buckets: Vec::new() };
        proof {
            assert(gview(index.tokens@) =~= Seq::<Seq<char>>::empty());
        }
        let mut k: usize = 0;
        while k < names.len()
            invariant
                k <= names@.len(),
                corpus == gview(names@),
                index.wf(),
                forall|t: Seq<char>, c: Seq<char>| index.holds(t, c) <==> indexed_before(corpus, k as int, t, c),
            decreases names@.len() - k,
        {
            let name = &names[k];
            let tokens = Self::tokenize(name.as_str());
            let mut j: usize = 0;
            while j < tokens.len()
                invariant
                    j <= tokens@.len(),
                    k < names@.len(),
                    corpus == gview(names@),
                    name == names@[k as int],
                    gview(tokens@).to_set() == token_set(name@),
                    index.wf(),
                    forall|t: Seq<char>, c: Seq<char>|
                        index.holds(t, c) <==> (indexed_before(corpus, k as int, t, c) || (c == name@
                            && gview(tokens@).take(j as int).contains(t))),
                decreases tokens@.len() - j,
            {
                let ghost before = index;
                index.add(&tokens[j], name);
                proof {
                    assert forall|t: Seq<char>, c: Seq<char>|
                        index.holds(t, c) <==> (indexed_before(corpus, k as int, t, c) || (c == name@
                            && gview(tokens@).take(j + 1).contains(t))) by {
                        let pre = gview(tokens@).take(j as int);
                        assert(gview(tokens@).take(j + 1) =~= pre.push(tokens@[j as int]@));
                        if pre.contains(t) {
                            let q = choose|q: int| 0 <= q < pre.len() && pre[q] == t;
                            assert(pre.push(tokens@[j as int]@)[q] == t);
                        }
                        if pre.push(tokens@[j as int]@).contains(t) && t != tokens@[j as int]@ {
                            let q = choose|q: int| 0 <= q < pre.len() + 1 && pre.push(tokens@[j as int]@)[q] == t;
                            assert(pre[q] == t);
                        }
                        if t == tokens@[j as int]@ {
                            assert(pre.push(tokens@[j as int]@)[j as int] == t);
                        }
                    }
                }
                j += 1;
            }
            proof {
                assert(gview(tokens@).take(j as int) =~= gview(tokens@));
                assert forall|t: Seq<char>, c: Seq<char>|
                    index.holds(t, c) <==> indexed_before(corpus, k + 1, t, c) by {
                    if indexed_before(corpus, k + 1, t, c) && !indexed_before(corpus, k as int, t, c) {
                        let q = choose|q: int| 0 <= q < k + 1 && corpus[q] == c && #[trigger] token_set(corpus[q]).contains(t);
                        assert(q == k);
                        assert(gview(tokens@).to_set().contains(t));
                    }
                    if c == name@ && gview(tokens@).contains(t) {
                        assert(gview(tokens@).to_set().contains(t));
                        assert(corpus[k as int] == c);
                        assert(token_set(corpus[k as int]).contains(t));
                    }
                    if indexed_before(corpus, k as int, t, c) {
                        let q = choose|q: int| 0 <= q < k && corpus[q] == c && #[trigger] token_set(corpus[q]).contains(t);
                        assert(0 <= q < k + 1 && corpus[q] == c && token_set(corpus[q]).contains(t));
                    }
                }
            }
            k += 1;
        }
        proof {
            let target = index_of(corpus);
            assert forall|t: Seq<char>| #[trigger] index@.contains_key(t) <==> target.contains_key(t) by {
                if index@.contains_key(t) {
                    let i = choose|i: int| 0 <= i < index.tokens@.len() && #[trigger] index.tokens@[i]@ == t;
                    assert(index.buckets@[i]@.len() > 0);
                    let c = index.buckets@[i]@[0]@;
                    assert(gview(index.buckets@[i]@)[0] == c);
                    assert(index.holds(t, c));
                    let q = choose|q: int| 0 <= q < k && corpus[q] == c && #[trigger] token_set(corpus[q]).contains(t);
                }
                if target.contains_key(t) {
                    let q = choose|q: int| 0 <= q < corpus.len() && #[trigger] token_set(corpus[q]).contains(t);
                    assert(indexed_before(corpus, k as int, t, corpus[q]));
                    assert(index.holds(t, corpus[q]));
                }
            }
            assert forall|t: Seq<char>| #[trigger] index@.contains_key(t) implies index@[t] =~= target[t] by {
                assert forall|c: Seq<char>| index@[t].contains(c) <==> target[t].contains(c) by {
                    if index.holds(t, c) {
                        let q = choose|q: int| 0 <= q < k && corpus[q] == c && #[trigger] token_set(corpus[q]).contains(t);
                        assert(corpus.contains(c));
                    }
                    if corpus.contains(c) && token_set(c).contains(t) {
                        let q = choose|q: int| 0 <= q < corpus.len() && corpus[q] == c;
                        assert(indexed_before(corpus, k as int, t, c));
                    }
                }
            }
            assert(index@ =~= target);
        }
        index
    }

    /// The bucket at `p` holds exactly the names that the view lists under
    /// its token.
    proof fn lemma_bucket(&self, p: int)
        requires
            self.wf(),
            0 <= p < self.tokens@.len(),
        ensures
            self@.contains_key(self.tokens@[p]@),
            self@[self.tokens@[p]@] == gview(self.buckets@[p]@).to_set(),
    {
        let t = self.tokens@[p]@;
        assert(gview(self.tokens@)[p] == t);
        assert forall|c: Seq<char>| self.holds(t, c) <==> gview(self.buckets@[p]@).to_set().contains(c) by {
            if self.holds(t, c) {
                let i = choose|i: int|
                    0 <= i < self.tokens@.len() && #[trigger] self.tokens@[i]@ == t && gview(self.buckets@[i]@).contains(c);
                assert(gview(self.tokens@)[i] == gview(self.tokens@)[p]);
            }
        }
        assert(self@[t] =~= gview(self.buckets@[p]@).to_set());
    }

    /// The names that share at least one token with `name`, each once; `None`
    /// when no token of `name` is in the index.
    pub fn get_token_matches(&self, name: &str) -> (r: Option<Vec<String>>)
        requires
            self.wf(),
        ensures
            r is None <==> !any_token_indexed(self@, name@),
            r matches Some(v) ==> gview(v@).no_duplicates() && gview(v@).to_set() == shortlist(self@, name@),
    {
        let tokens = Self::tokenize(name);
        let ghost toks = gview(tokens@);
        let mut matches: Vec<String> = Vec::new();
        let mut is_matched = false;
        let mut j: usize = 0;
        proof {
            assert(gview(matches@) =~= Seq::<Seq<char>>::empty());
            assert(gview(matches@).to_set() =~= Set::<Seq<char>>::empty());
            assert(Set::new(|c: Seq<char>| exists|q: int| 0 <= q < 0 && self@.contains_key(toks[q]) && #[trigger] self@[toks[q]].contains(c)) =~= Set::<Seq<char>>::empty());
        }
        while j < tokens.len()
            invariant
                j <= tokens@.len(),
                self.wf(),
                toks == gview(tokens@),
                gview(matches@).no_duplicates(),
                gview(matches@).to_set() == Set::new(
                    |c: Seq<char>| exists|q: int| 0 <= q < j && self@.contains_key(toks[q]) && #[trigger] self@[toks[q]].contains(c),
                ),
                is_matched == exists|q: int| 0 <= q < j && #[trigger] self@.contains_key(toks[q]),
            decreases tokens@.len() - j,
        {
            let ghost before = gview(matches@).to_set();
            match self.position(&tokens[j]) {
                Some(p) => {
                    proof {
                        self.lemma_bucket(p as int);
                        assert(self.tokens@[p as int]@ == toks[j as int]);
                    }
                    merge_into(&mut matches, &self.buckets[p]);
                    is_matched = true;
                    proof {
                        assert(self@.contains_key(toks[j as int]));
                    }
                }
                None => {
                    proof {
                        assert(!self@.contains_key(toks[j as int]));
                        assert(gview(matches@).to_set() == before);
                    }
                }
            }
            proof {
                let next = Set::new(
                    |c: Seq<char>| exists|q: int| 0 <= q < j + 1 && self@.contains_key(toks[q]) && #[trigger] self@[toks[q]].contains(c),
                );
                assert forall|c: Seq<char>| #[trigger] gview(matches@).to_set().contains(c) <==> next.contains(c) by {
                    if before.contains(c) {
                        let q = choose|q: int| 0 <= q < j && self@.contains_key(toks[q]) && #[trigger] self@[toks[q]].contains(c);
                        assert(0 <= q < j + 1 && self@.contains_key(toks[q]) && self@[toks[q]].contains(c));
                    }
                    if self@.contains_key(toks[j as int]) && self@[toks[j as int]].contains(c) {
                        assert(0 <= j < j + 1 && self@.contains_key(toks[j as int]) && self@[toks[j as int]].contains(c));
                    }
                    if next.contains(c) {
                        let q = choose|q: int| 0 <= q < j + 1 && self@.contains_key(toks[q]) && #[trigger] self@[toks[q]].contains(c);
                        if q < j {
                            assert(before.contains(c));
                        }
                    }
                }
                assert(gview(matches@).to_set() =~= next);
                if is_matched && !(exists|q: int| 0 <= q < j && #[trigger] self@.contains_key(toks[q])) {
                    assert(self@.contains_key(toks[j as int]));
                }
                if exists|q: int| 0 <= q < j + 1 && #[trigger] self@.contains_key(toks[q]) {
                    let q = choose|q: int| 0 <= q < j + 1 && #[trigger] self@.contains_key(toks[q]);
                    if q < j {
                        assert(exists|q: int| 0 <= q < j && #[trigger] self@.contains_key(toks[q]));
                    }
                }
            }
            j += 1;
        }
        proof {
            let tset = token_set(name@);
            assert(toks.to_set() == tset);
            if is_matched {
                let q = choose|q: int| 0 <= q < j && #[trigger] self@.contains_key(toks[q]);
                assert(toks.to_set().contains(toks[q]));
            }
            if any_token_indexed(self@, name@) {
                let t = choose|t: Seq<char>| tset.contains(t) && #[trigger] self@.contains_key(t);
                let q = choose|q: int| 0 <= q < toks.len() && toks[q] == t;
            }
            assert forall|c: Seq<char>| #[trigger] gview(matches@).to_set().contains(c) <==> shortlist(self@, name@).contains(c) by {
                if gview(matches@).to_set().contains(c) {
                    let q = choose|q: int| 0 <= q < j && self@.contains_key(toks[q]) && #[trigger] self@[toks[q]].contains(c);
                    assert(toks.to_set().contains(toks[q]));
                }
                if shortlist(self@, name@).contains(c) {
                    let t = choose|t: Seq<char>| tset.contains(t) && self@.contains_key(t) && #[trigger] self@[t].contains(c);
                    let q = choose|q: int| 0 <= q < toks.len() && toks[q] == t;
                }
            }
            assert(gview(matches@).to_set() =~= shortlist(self@, name@));
        }
        if is_matched {
            Some(matches)
        } else {
            None
        }
    }

    /// Ranks the names that share a token with `name` by `metric` on the
    /// canonical forms, best first; names whose scores tie come in no
    /// promised order. `None` when no token of `name` is in the index, or when
    /// the query or a shortlisted name has more clusters than a score allows.
    pub fn find_with(&self, name: &str, metric: Metric) -> (r: Option<Vec<(String, Score)>>)
        requires
            self.wf(),
            metric.wf(),
        ensures
            r is None <==> (!any_token_indexed(self@, name@) || !scoreable(self@, name@)),
            r matches Some(v) ==> ranked(self@, name@, metric, v@),
    {
        let candidates = match self.get_token_matches(name) {
            Some(v) => v,
            None => return None,
        };
        let ghost names = gview(candidates@);
        let query = graphemes(Self::normalize(name).as_str());
        if query.len() > MAX_GRAPHEMES {
            return None;
        }
        let mut results: Vec<(String, Score)> = Vec::new();
        let mut k: usize = 0;
        proof {
            assert(ranked_names(results@).to_set() =~= names.take(0).to_set());
        }
        while k < candidates.len()
            invariant
                k <= candidates@.len(),
                metric.wf(),
                names == gview(candidates@),
                names.no_duplicates(),
                names.to_set() == shortlist(self@, name@),
                gview(query@) == normal_clusters(name@),
                query@.len() <= MAX_GRAPHEMES,
                forall|q: int| 0 <= q < k ==> normal_clusters(#[trigger] names[q]).len() <= MAX_GRAPHEMES,
                results@.len() == k,
                ranked_names(results@).to_set() == names.take(k as int).to_set(),
                ranked_names(results@).no_duplicates(),
                scored(metric, name@, results@),
                forall|i: int| 0 <= i < results@.len() ==> (#[trigger] results@[i]).1.wf(),
                descending(results@),
            decreases candidates@.len() - k,
        {
            let candidate = graphemes(Self::normalize(candidates[k].as_str()).as_str());
            if candidate.len() > MAX_GRAPHEMES {
                proof {
                    assert(names.to_set().contains(names[k as int]));
                }
                return None;
            }
            let score = metric.score(&query, &candidate);
            let ghost before = results@;
            let ghost entry_name = names[k as int];
            let p = insert_ranked(&mut results, (candidates[k].clone(), score));
            proof {
                let after = results@;
                assert(ranked_names(after) =~= ranked_names(before).insert(p as int, entry_name));
                assert(names.take(k + 1) =~= names.take(k as int).push(entry_name));
                names.take(k as int).lemma_push_to_set_commute(entry_name);
                assert(!ranked_names(before).to_set().contains(entry_name)) by {
                    if names.take(k as int).to_set().contains(entry_name) {
                        let q = choose|q: int| 0 <= q < k && names.take(k as int)[q] == entry_name;
                        assert(names[q] == names[k as int]);
                    }
                }
                assert forall|c: Seq<char>| ranked_names(after).to_set().contains(c) <==> names.take(k + 1).to_set().contains(c) by {
                    if ranked_names(after).contains(c) {
                        let q = choose|q: int| 0 <= q < after.len() && ranked_names(after)[q] == c;
                        if q < p {
                            assert(ranked_names(before)[q] == c);
                        } else if q > p {
                            assert(ranked_names(before)[q - 1] == c);
                        }
                    }
                    if ranked_names(before).contains(c) {
                        let q = choose|q: int| 0 <= q < before.len() && ranked_names(before)[q] == c;
                        if q < p {
                            assert(ranked_names(after)[q] == c);
                        } else {
                            assert(ranked_names(after)[q + 1] == c);
                        }
                    }
                    if c == entry_name {
                        assert(ranked_names(after)[p as int] == c);
                    }
                }
                assert(ranked_names(after).to_set() =~= names.take(k + 1).to_set());
                assert forall|x: int, y: int| 0 <= x < y < after.len() implies ranked_names(after)[x] != ranked_names(after)[y] by {
                    let ra = ranked_names(after);
                    let rb = ranked_names(before);
                    if x != p && y != p {
                        let x0 = if x < p { x } else { x - 1 };
                        let y0 = if y < p { y } else { y - 1 };
                        assert(ra[x] == rb[x0] && ra[y] == rb[y0]);
                    } else if x == p {
                        assert(ra[y] == rb[y - 1]);
                        assert(rb.to_set().contains(rb[y - 1]));
                    } else {
                        let x0 = if x < p { x } else { x - 1 };
                        assert(ra[x] == rb[x0]);
                        assert(rb.to_set().contains(rb[x0]));
                    }
                }
                assert forall|i: int| 0 <= i < after.len() implies (#[trigger] after[i]).1.is_fraction(
                    metric.num(normal_clusters(name@), normal_clusters(after[i].0@)),
                    metric.den(normal_clusters(name@), normal_clusters(after[i].0@)),
                ) by {
                    if i < p {
                        assert(after[i] == before[i]);
                    } else if i > p {
                        assert(after[i] == before[i - 1]);
                    }
                }
            }
            k += 1;
        }
        proof {
            assert(names.take(k as int) =~= names);
            assert forall|c: Seq<char>| #[trigger] shortlist(self@, name@).contains(c) implies normal_clusters(c).len() <= MAX_GRAPHEMES by {
                let q = choose|q: int| 0 <= q < names.len() && names[q] == c;
            }
        }
        Some(results)
    }

    /// Ranks the names that share a token with `name` by Jaro-Winkler
    /// similarity of the canonical forms, best first; see `find_with`.
    pub fn find(&self, name: &str) -> (r: Option<Vec<(String, Score)>>)
        requires
            self.wf(),
        ensures
            r is None <==> (!any_token_indexed(self@, name@) || !scoreable(self@, name@)),
            r matches Some(v) ==> ranked(self@, name@, Metric::JaroWinkler, v@),
    {
        self.find_with(name, Metric::JaroWinkler)
    }

    /// The canonical form of a text, used to compare names.
    pub fn normalize(s: &str) -> (r: String)
        ensures
            r@ == normalized(s@),
    {
        let ascii = transliterate(s);
        let stripped = strip(ascii.as_str());
        lowercase(stripped.as_str())
    }

    /// The distinct tokens of a text.
    pub fn tokenize(s: &str) -> (r: Vec<String>)
        ensures
            gview(r@).no_duplicates(),
            gview(r@).to_set() == token_set(s@),
            s@.len() == 0 ==> r@.len() == 0,
    {
        let parts = words(s);
        let ghost ws = words_of(s@).map_values(|w: Seq<char>| normalized(w));
        let mut tokens: Vec<String> = Vec::new();
        let mut i: usize = 0;
        while i < parts.len()
            invariant
                i <= parts@.len(),
                gview(parts@) == words_of(s@),
                ws == words_of(s@).map_values(|w: Seq<char>| normalized(w)),
                s@.len() == 0 ==> parts@.len() == 0,
                tokens@.len() <= i,
                gview(tokens@).no_duplicates(),
                gview(tokens@).to_set() == ws.take(i as int).to_set(),
            decreases parts@.len() - i,
        {
            let token = Self::normalize(parts[i].as_str());
            let mut present = false;
            let mut k: usize = 0;
            while k < tokens.len()
                invariant
                    k <= tokens@.len(),
                    present == exists|p: int| 0 <= p < k && tokens@[p]@ == token@,
                decreases tokens@.len() - k,
            {
                if tokens[k] == token {
                    present = true;
                }
                k += 1;
            }
            proof {
                broadcast use vstd::seq_lib::group_seq_properties;

                assert(ws[i as int] == token@);
                assert(ws.take(i + 1) =~= ws.take(i as int).push(token@));
                ws.take(i as int).lemma_push_to_set_commute(token@);
                if present {
                    let p = choose|p: int| 0 <= p < k && tokens@[p]@ == token@;
                    assert(gview(tokens@)[p] == token@);
                    assert(gview(tokens@).to_set().contains(token@));
                    assert(gview(tokens@).to_set().insert(token@) =~= gview(tokens@).to_set());
                } else {
                    assert(gview(tokens@.push(token)) =~= gview(tokens@).push(token@));
                    gview(tokens@).lemma_push_to_set_commute(token@);
                    assert forall|x: int, y: int| 0 <= x < y < gview(tokens@).push(token@).len() implies gview(tokens@).push(token@)[x] != gview(tokens@).push(token@)[y] by {
                        if y == tokens@.len() {
                            assert(tokens@[x]@ != token@);
                        }
                    }
                }
            }
            if !present {
                tokens.push(token);
            }
            i += 1;
        }
        proof {
            assert(ws.take(i as int) =~= ws);
        }
        tokens
    }
}

} // verus!
