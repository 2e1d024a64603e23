use std::collections::HashMap;
use vstd::prelude::*;

use crate::index::{chars_of, BaseGeneralizedSuffixArray};
use crate::lcp::{
    common_prefix_len, get_longest_common_prefix, lemma_common_prefix_len_bounded,
    lemma_common_prefix_len_symmetric, lemma_lex_chain, lemma_lex_total, lex_le, lex_le_from,
};

verus! {

broadcast use vstd::std_specs::hash::group_hash_axioms;

/// The best match of a query against one item. Lengths and offsets count characters: the
/// query's length, the item's, the overlap's, and where the overlap starts in each. Its
/// overlap percentage is `2 * len_overlap / (len_1 + len_2)`.
#[derive(Debug, Clone, Copy, PartialEq, Eq, Structural)]
pub struct MatchDetails {
    pub len_1: usize,
    pub len_2: usize,
    pub len_overlap: usize,
    pub start_1: usize,
    pub start_2: usize,
}

impl MatchDetails {
    /// The overlap percentage `2 * len_overlap / (len_1 + len_2)`, as its numerator and
    /// denominator.
    pub fn overlap_pct(&self) -> (r: (u128, u128))
        ensures
            r.0 == 2 * self.len_overlap,
            r.1 == self.len_1 + self.len_2,
    {
        (2 * (self.len_overlap as u128), (self.len_1 as u128) + (self.len_2 as u128))
    }
}

/// The ratio `numerator / denominator`, used as an overlap percentage.
#[derive(Debug, Clone, Copy, PartialEq, Eq, Structural)]
pub struct Fraction {
    pub numerator: u32,
    pub denominator: u32,
}

/// The overlap percentage `2 * overlap / (len_1 + len_2)` is not below `pct`.
pub open spec fn meets_pct(overlap: int, len_1: int, len_2: int, pct: Fraction) -> bool {
    2 * overlap * pct.denominator >= pct.numerator * (len_1 + len_2)
}

/// The first `f` positions of `walk` run up from `start`, and the rest run down from just
/// before it.
pub open spec fn walk_shape(walk: Seq<(usize, usize)>, start: int, f: int) -> bool {
    &&& 0 <= f <= walk.len()
    &&& forall|t: int|
        0 <= t < walk.len() ==> (#[trigger] walk[t]).0 == if t < f {
            start + t
        } else {
            start - 1 - (t - f)
        }
}

/// Number of positions among the first `k` whose suffix sorts strictly before `q`.
pub open spec fn count_before(idx: BaseGeneralizedSuffixArray, q: Seq<char>, k: nat) -> nat
    decreases k,
{
    if k == 0 {
        0
    } else {
        count_before(idx, q, (k - 1) as nat) + if lex_le(q, idx.text_at(k - 1)) {
            0nat
        } else {
            1nat
        }
    }
}

impl BaseGeneralizedSuffixArray {
    /// Where `q` would be inserted into the sorted index: the number of suffixes sorting
    /// strictly before it.
    pub open spec fn insertion_point(&self, q: Seq<char>) -> int {
        count_before(*self, q, self.suffixes@.len()) as int
    }

    /// `p` splits the index into the suffixes sorting before `q` and those not.
    pub open spec fn splits_at(&self, q: Seq<char>, p: int) -> bool {
        &&& 0 <= p <= self.suffixes@.len()
        &&& forall|i: int| 0 <= i < p ==> !lex_le(q, #[trigger] self.text_at(i))
        &&& forall|i: int| p <= i < self.suffixes@.len() ==> lex_le(q, #[trigger] self.text_at(i))
    }

    /// `p` is an insertion point of `q`: the suffixes before it sort no later than `q`, and
    /// those from it on no earlier.
    pub open spec fn brackets(&self, q: Seq<char>, p: int) -> bool {
        &&& 0 <= p <= self.suffixes@.len()
        &&& forall|i: int| 0 <= i < p ==> lex_le(#[trigger] self.text_at(i), q)
        &&& forall|i: int| p <= i < self.suffixes@.len() ==> lex_le(q, #[trigger] self.text_at(i))
    }

    /// Step at which the walk from `p` reaches position `i`: first `p, p + 1, ...`, then
    /// `p - 1, p - 2, ...`.
    pub open spec fn walk_step(&self, p: int, i: int) -> int {
        if i >= p {
            i - p
        } else {
            self.suffixes@.len() + p - i
        }
    }

    /// Common prefix length of the query from character `o` and the suffix at position `i`.
    pub open spec fn overlap_at(&self, q: Seq<char>, o: int, i: int) -> nat {
        common_prefix_len(q.skip(o), self.text_at(i))
    }

    /// Length of the item that the suffix at position `i` belongs to.
    pub open spec fn item_len_at(&self, i: int) -> nat {
        self.texts()[self.suffixes@[i].item as int].len()
    }

    /// The query from `o` and the suffix at position `i` share at least `m` characters, with
    /// an overlap percentage of at least `pct`.
    pub open spec fn is_candidate(&self, q: Seq<char>, m: nat, pct: Fraction, o: int, i: int) -> bool {
        &&& 0 <= o < q.len()
        &&& 0 <= i < self.suffixes@.len()
        &&& self.overlap_at(q, o, i) >= m
        &&& meets_pct(self.overlap_at(q, o, i) as int, q.len() as int, self.item_len_at(i) as int, pct)
    }

    /// `d` reports the overlap of the query from `o` with the suffix at position `i`.
    pub open spec fn describes(&self, q: Seq<char>, o: int, i: int, d: MatchDetails) -> bool {
        &&& d.len_1 == q.len()
        &&& d.len_2 == self.item_len_at(i)
        &&& d.len_overlap == self.overlap_at(q, o, i)
        &&& d.start_1 == o
        &&& d.start_2 == self.suffixes@[i].start
    }

    /// Between two candidates for one item, `(o1, i1)` is kept over `(o2, i2)`: it overlaps
    /// longer, or as long and starts earlier in the query, or starts at the same place and the
    /// walk reaches it no earlier.
    pub open spec fn kept_over(&self, q: Seq<char>, o1: int, i1: int, o2: int, i2: int) -> bool {
        let l1 = self.overlap_at(q, o1, i1);
        let l2 = self.overlap_at(q, o2, i2);
        let p = self.insertion_point(q.skip(o1));
        l1 > l2 || (l1 == l2 && o1 < o2) || (l1 == l2 && o1 == o2 && self.walk_step(p, i1)
            >= self.walk_step(p, i2))
    }

    /// `r` holds, for each item that some candidate among those `seen` belongs to, the one of
    /// them that is kept over all the others.
    pub open spec fn best_among(
        &self,
        q: Seq<char>,
        m: nat,
        pct: Fraction,
        seen: spec_fn(int, int) -> bool,
        r: Map<usize, MatchDetails>,
    ) -> bool {
        &&& forall|j: usize|
            r.contains_key(j) <==> exists|o: int, i: int|
                #[trigger] self.is_candidate(q, m, pct, o, i) && seen(o, i)
                    && self.suffixes@[i].item == j
        &&& forall|j: usize|
            #[trigger] r.contains_key(j) ==> exists|w: int|
                {
                    &&& #[trigger] self.is_candidate(q, m, pct, r[j].start_1 as int, w)
                    &&& seen(r[j].start_1 as int, w)
                    &&& self.suffixes@[w].item == j
                    &&& self.describes(q, r[j].start_1 as int, w, r[j])
                    &&& forall|o2: int, i2: int|
                        #[trigger] self.is_candidate(q, m, pct, o2, i2) && seen(o2, i2)
                            && self.suffixes@[i2].item == j ==> self.kept_over(
                            q,
                            r[j].start_1 as int,
                            w,
                            o2,
                            i2,
                        )
                }
    }

    /// `r` is the answer to the query `q` with floors `m` and `pct`: every item with a
    /// candidate, mapped to the candidate kept over all its others.
    pub open spec fn similar_matches(
        &self,
        q: Seq<char>,
        m: nat,
        pct: Fraction,
        r: Map<usize, MatchDetails>,
    ) -> bool {
        self.best_among(q, m, pct, |o: int, i: int| true, r)
    }

    /// Where the query from `o` falls in the sorted index.
    fn find_insertion_point(&self, q: &Vec<char>, o: usize) -> (p: usize)
        requires
            self.wf(),
            o <= q@.len(),
        ensures
            self.splits_at(q@.skip(o as int), p as int),
            p == self.insertion_point(q@.skip(o as int)),
    {
        let ghost qs = q@.skip(o as int);
        let mut lo: usize = 0;
        let mut hi: usize = self.suffixes.len();
        while lo < hi
            invariant
                self.wf(),
                o <= q@.len(),
                qs == q@.skip(o as int),
                0 <= lo <= hi <= self.suffixes@.len(),
                forall|i: int| 0 <= i < lo ==> !lex_le(qs, #[trigger] self.text_at(i)),
                forall|i: int|
                    hi <= i < self.suffixes@.len() ==> lex_le(qs, #[trigger] self.text_at(i)),
            decreases hi - lo,
        {
            let mid = lo + (hi - lo) / 2;
            let s = self.suffixes[mid];
            let text = self.item_chars(s.item);
            if lex_le_from(q, o, text, s.start) {
                proof {
                    assert forall|i: int| mid <= i < self.suffixes@.len() implies lex_le(
                        qs,
                        #[trigger] self.text_at(i),
                    ) by {
                        if i > mid {
                            assert(lex_le(self.text_at(mid as int), self.text_at(i)));
                            lemma_lex_chain(qs, self.text_at(mid as int), self.text_at(i));
                        }
                    }
                }
                hi = mid;
            } else {
                proof {
                    assert forall|i: int| 0 <= i <= mid implies !lex_le(
                        qs,
                        #[trigger] self.text_at(i),
                    ) by {
                        if i < mid && lex_le(qs, self.text_at(i)) {
                            assert(lex_le(self.text_at(i), self.text_at(mid as int)));
                            lemma_lex_chain(qs, self.text_at(i), self.text_at(mid as int));
                        }
                    }
                }
                lo = mid + 1;
            }
        }
        proof {
            self.lemma_count_before(qs, lo as int, self.suffixes@.len());
        }
        lo
    }

    proof fn lemma_count_before(&self, q: Seq<char>, p: int, k: nat)
        requires
            self.splits_at(q, p),
            k <= self.suffixes@.len(),
        ensures
            count_before(*self, q, k) == if k <= p {
                k as int
            } else {
                p
            },
        decreases k,
    {
        if k > 0 {
            self.lemma_count_before(q, p, (k - 1) as nat);
        }
    }

    /// The overlap of the query from `o` with the suffix at position `i`.
    fn overlap_with(&self, q: &Vec<char>, o: usize, i: usize) -> (r: usize)
        requires
            self.wf(),
            o <= q@.len(),
            i < self.suffixes@.len(),
        ensures
            r == self.overlap_at(q@, o as int, i as int),
    {
        let s = self.suffixes[i];
        get_longest_common_prefix(q, o, self.item_chars(s.item), s.start)
    }

    /// Walks outward from `start_idx`, first forward and then backward, while the running
    /// overlap with the query from `o` stays at least `min_overlap_chars`, and lists each
    /// position reached with that overlap, in the order reached. The running overlap is the
    /// least of the first suffix's overlap and the common prefix lengths stepped over; where
    /// `start_idx` is an insertion point of the query, it is each suffix's true overlap, and
    /// the walk reaches every suffix that overlaps at least that far.
    fn get_neighborhood(&self, q: &Vec<char>, o: usize, start_idx: usize, min_overlap_chars: usize) -> (r:
        Vec<(usize, usize)>)
        requires
            self.wf(),
            o <= q@.len(),
            start_idx <= self.suffixes@.len(),
        ensures
            r@.len() <= self.suffixes@.len(),
            exists|f: int| #[trigger] walk_shape(r@, start_idx as int, f),
            forall|t: int|
                0 <= t < r@.len() ==> {
                    &&& (#[trigger] r@[t]).0 < self.suffixes@.len()
                    &&& r@[t].1 >= min_overlap_chars
                },
            forall|t1: int, t2: int|
                0 <= t1 < t2 < r@.len() && ((#[trigger] r@[t1]).0 >= start_idx <==> (
                #[trigger] r@[t2]).0 >= start_idx) ==> r@[t1].1 >= r@[t2].1,
            forall|t1: int, t2: int|
                0 <= t1 < t2 < r@.len() ==> self.walk_step(start_idx as int, #[trigger] r@[t1].0 as int)
                    < self.walk_step(start_idx as int, #[trigger] r@[t2].0 as int),
            self.brackets(q@.skip(o as int), start_idx as int) ==> forall|t: int|
                0 <= t < r@.len() ==> (#[trigger] r@[t]).1 == self.overlap_at(
                    q@,
                    o as int,
                    r@[t].0 as int,
                ),
            self.brackets(q@.skip(o as int), start_idx as int) ==> forall|i: int|
                0 <= i < self.suffixes@.len() && self.overlap_at(q@, o as int, i)
                    >= min_overlap_chars ==> exists|t: int| 0 <= t < r@.len() && #[trigger] r@[t].0 == i,
    {
        let ghost qs = q@.skip(o as int);
        let ghost len = self.suffixes@.len();
        let ghost split = self.brackets(qs, start_idx as int);
        let n = self.suffixes.len();
        let p = start_idx;
        let mut r: Vec<(usize, usize)> = Vec::new();
        let mut pos = p;
        let mut lcp: usize = if p < n {
            self.overlap_with(q, o, p)
        } else {
            0
        };
        while pos < n && lcp >= min_overlap_chars
            invariant
                self.wf(),
                o <= q@.len(),
                qs == q@.skip(o as int),
                n == len,
                len == self.suffixes@.len(),
                split == self.brackets(qs, p as int),
                p <= pos <= n,
                split && pos < n ==> lcp == self.overlap_at(q@, o as int, pos as int),
                r@.len() == pos - p,
                forall|t: int|
                    0 <= t < r@.len() ==> {
                        &&& (#[trigger] r@[t]).0 == p + t
                        &&& r@[t].1 >= min_overlap_chars
                        &&& r@[t].1 >= lcp
                        &&& split ==> r@[t].1 == self.overlap_at(q@, o as int, p + t)
                    },
                forall|t1: int, t2: int|
                    0 <= t1 < t2 < r@.len() ==> (#[trigger] r@[t1]).1 >= (#[trigger] r@[t2]).1,
            decreases n - pos,
        {
            r.push((pos, lcp));
            let next = self.lcp_array[pos + 1];
            proof {
                if split && pos + 1 < n {
                    assert(lex_le(self.text_at(pos as int), self.text_at(pos + 1)));
                    assert(lex_le(qs, self.text_at(pos as int)));
                    lemma_lex_chain(qs, self.text_at(pos as int), self.text_at(pos + 1));
                }
            }
            lcp = if next < lcp {
                next
            } else {
                lcp
            };
            pos = pos + 1;
        }
        let ghost forward = r@.len();
        proof {
            if split && pos < n {
                assert forall|i: int| pos < i < len implies self.overlap_at(q@, o as int, i)
                    < min_overlap_chars by {
                    assert(lex_le(self.text_at(pos as int), self.text_at(i)));
                    assert(lex_le(qs, self.text_at(pos as int)));
                    lemma_lex_chain(qs, self.text_at(pos as int), self.text_at(i));
                }
            }
        }
        let ghost forward_end = pos;
        pos = p;
        lcp = if p > 0 {
            self.overlap_with(q, o, p - 1)
        } else {
            0
        };
        while pos > 0 && lcp >= min_overlap_chars
            invariant
                self.wf(),
                o <= q@.len(),
                qs == q@.skip(o as int),
                n == len,
                len == self.suffixes@.len(),
                split == self.brackets(qs, p as int),
                p <= forward_end <= n,
                forward == forward_end - p,
                0 <= pos <= p,
                split && pos > 0 ==> lcp == self.overlap_at(q@, o as int, pos - 1),
                r@.len() == forward + (p - pos),
                forall|t: int|
                    0 <= t < r@.len() ==> {
                        &&& (#[trigger] r@[t]).0 == if t < forward {
                            p + t
                        } else {
                            p - 1 - (t - forward)
                        }
                        &&& r@[t].1 >= min_overlap_chars
                        &&& t >= forward ==> r@[t].1 >= lcp
                        &&& split ==> r@[t].1 == self.overlap_at(q@, o as int, r@[t].0 as int)
                    },
                forall|t1: int, t2: int|
                    0 <= t1 < t2 < r@.len() && (t2 < forward || forward <= t1) ==> (
                    #[trigger] r@[t1]).1 >= (#[trigger] r@[t2]).1,
            decreases pos,
        {
            r.push((pos - 1, lcp));
            let next = self.lcp_array[pos - 1];
            proof {
                if split && pos - 1 > 0 {
                    let a = self.text_at(pos - 2);
                    let b = self.text_at(pos - 1);
                    assert(lex_le(a, b));
                    assert(lex_le(b, qs));
                    lemma_lex_chain(a, b, qs);
                    lemma_common_prefix_len_symmetric(a, qs);
                    lemma_common_prefix_len_symmetric(b, qs);
                }
            }
            lcp = if next < lcp {
                next
            } else {
                lcp
            };
            pos = pos - 1;
        }
        proof {
            if split && pos > 0 {
                assert forall|i: int| 0 <= i < pos - 1 implies self.overlap_at(q@, o as int, i)
                    < min_overlap_chars by {
                    let a = self.text_at(i);
                    let b = self.text_at(pos - 1);
                    assert(lex_le(a, b));
                    assert(lex_le(b, qs));
                    lemma_lex_chain(a, b, qs);
                    lemma_common_prefix_len_symmetric(a, qs);
                    lemma_common_prefix_len_symmetric(b, qs);
                }
            }
            if split {
                assert forall|i: int|
                    0 <= i < len && self.overlap_at(q@, o as int, i)
                        >= min_overlap_chars implies exists|t: int|
                    0 <= t < r@.len() && #[trigger] r@[t].0 == i by {
                    if i >= p {
                        let t = i - p;
                        assert(r@[t].0 == i);
                    } else {
                        let t = forward + (p - 1 - i);
                        assert(r@[t].0 == i);
                    }
                }
            }
            assert(walk_shape(r@, p as int, forward as int));
            assert forall|t1: int, t2: int|
                0 <= t1 < t2 < r@.len() && ((#[trigger] r@[t1]).0 >= start_idx <==> (
                #[trigger] r@[t2]).0 >= start_idx) implies r@[t1].1 >= r@[t2].1 by {
                assert(t2 < forward || forward <= t1);
            }
        }
        r
    }

    /// A set of candidates that agrees with another on which candidates it holds has the same
    /// best matches.
    proof fn lemma_best_among_same(
        &self,
        q: Seq<char>,
        m: nat,
        pct: Fraction,
        s1: spec_fn(int, int) -> bool,
        s2: spec_fn(int, int) -> bool,
        r: Map<usize, MatchDetails>,
    )
        requires
            self.best_among(q, m, pct, s1, r),
            forall|o: int, i: int|
                #[trigger] self.is_candidate(q, m, pct, o, i) ==> (s1(o, i) <==> s2(o, i)),
        ensures
            self.best_among(q, m, pct, s2, r),
    {
        assert forall|j: usize| #[trigger] r.contains_key(j) implies exists|w: int|
            {
                &&& #[trigger] self.is_candidate(q, m, pct, r[j].start_1 as int, w)
                &&& s2(r[j].start_1 as int, w)
                &&& self.suffixes@[w].item == j
                &&& self.describes(q, r[j].start_1 as int, w, r[j])
                &&& forall|o2: int, i2: int|
                    #[trigger] self.is_candidate(q, m, pct, o2, i2) && s2(o2, i2)
                        && self.suffixes@[i2].item == j ==> self.kept_over(
                        q,
                        r[j].start_1 as int,
                        w,
                        o2,
                        i2,
                    )
            } by {
            let w = choose|w: int|
                {
                    &&& #[trigger] self.is_candidate(q, m, pct, r[j].start_1 as int, w)
                    &&& s1(r[j].start_1 as int, w)
                    &&& self.suffixes@[w].item == j
                    &&& self.describes(q, r[j].start_1 as int, w, r[j])
                    &&& forall|o2: int, i2: int|
                        #[trigger] self.is_candidate(q, m, pct, o2, i2) && s1(o2, i2)
                            && self.suffixes@[i2].item == j ==> self.kept_over(
                            q,
                            r[j].start_1 as int,
                            w,
                            o2,
                            i2,
                        )
                };
            assert(self.is_candidate(q, m, pct, r[j].start_1 as int, w));
        }
        assert forall|j: usize| r.contains_key(j) <==> exists|o: int, i: int|
            #[trigger] self.is_candidate(q, m, pct, o, i) && s2(o, i)
                && self.suffixes@[i].item == j by {
            if r.contains_key(j) {
                let (o, i) = choose|o: int, i: int|
                    #[trigger] self.is_candidate(q, m, pct, o, i) && s1(o, i)
                        && self.suffixes@[i].item == j;
                assert(self.is_candidate(q, m, pct, o, i));
            }
            if exists|o: int, i: int|
                #[trigger] self.is_candidate(q, m, pct, o, i) && s2(o, i)
                    && self.suffixes@[i].item == j {
                let (o, i) = choose|o: int, i: int|
                    #[trigger] self.is_candidate(q, m, pct, o, i) && s2(o, i)
                        && self.suffixes@[i].item == j;
                assert(self.is_candidate(q, m, pct, o, i));
            }
        }
    }

    /// Every item that shares at least `min_overlap_chars` characters of some substring with
    /// `query`, at an overlap percentage of at least `min_overlap_pct`, mapped to its best
    /// match.
    pub fn similar(&self, query: &str, min_overlap_chars: usize, min_overlap_pct: Fraction) -> (r:
        HashMap<usize, MatchDetails>)
        requires
            self.wf(),
        ensures
            self.similar_matches(query@, min_overlap_chars as nat, min_overlap_pct, r@),
    {
        let q = chars_of(query);
        let qlen = q.len();
        let m = min_overlap_chars;
        let pct = min_overlap_pct;
        let ghost qv = q@;
        // Query offsets at which an overlap of `m` characters still fits.
        let limit: usize = if m == 0 {
            qlen
        } else if m > qlen {
            0
        } else {
            qlen - m + 1
        };
        let mut res: HashMap<usize, MatchDetails> = HashMap::new();
        proof {
            assert(self.best_among(qv, m as nat, pct, |o2: int, i2: int| o2 < 0, res@));
        }
        for o in 0..limit
            invariant
                self.wf(),
                qv == q@,
                qv == query@,
                qlen == qv.len(),
                limit <= qlen,
                self.best_among(qv, m as nat, pct, |o2: int, i2: int| o2 < o, res@),
        {
            let p = self.find_insertion_point(&q, o);
            proof {
                let qs = qv.skip(o as int);
                assert forall|i: int| 0 <= i < p implies lex_le(#[trigger] self.text_at(i), qs) by {
                    lemma_lex_total(qs, self.text_at(i));
                }
                assert(self.brackets(qs, p as int));
            }
            let nb = self.get_neighborhood(&q, o, p, m);
            proof {
                self.lemma_best_among_same(
                    qv,
                    m as nat,
                    pct,
                    |o2: int, i2: int| o2 < o,
                    |o2: int, i2: int|
                        o2 < o || (o2 == o && exists|t2: int|
                            0 <= t2 < 0 && #[trigger] nb@[t2].0 == i2),
                    res@,
                );
            }
            for t in 0..nb.len()
                invariant
                    self.wf(),
                    qv == q@,
                    qlen == qv.len(),
                    o < limit <= qlen,
                    p == self.insertion_point(qv.skip(o as int)),
                    forall|t: int|
                        0 <= t < nb@.len() ==> {
                            &&& (#[trigger] nb@[t]).0 < self.suffixes@.len()
                            &&& nb@[t].1 == self.overlap_at(qv, o as int, nb@[t].0 as int)
                            &&& nb@[t].1 >= m
                        },
                    forall|t1: int, t2: int|
                        0 <= t1 < t2 < nb@.len() ==> self.walk_step(p as int, #[trigger] nb@[t1].0 as int)
                            < self.walk_step(p as int, #[trigger] nb@[t2].0 as int),
                    self.best_among(
                        qv,
                        m as nat,
                        pct,
                        |o2: int, i2: int|
                            o2 < o || (o2 == o && exists|t2: int|
                                0 <= t2 < t && #[trigger] nb@[t2].0 == i2),
                        res@,
                    ),
            {
                let (idx, len_overlap) = nb[t];
                let suffix = self.suffixes[idx];
                let len_2 = self.item_chars(suffix.item).len();
                let ghost before = res@;
                let ghost seen_before = |o2: int, i2: int|
                    o2 < o || (o2 == o && exists|t2: int| 0 <= t2 < t && #[trigger] nb@[t2].0 == i2);
                let ghost seen_after = |o2: int, i2: int|
                    o2 < o || (o2 == o && exists|t2: int|
                        0 <= t2 < t + 1 && #[trigger] nb@[t2].0 == i2);
                proof {
                    assert(seen_after(o as int, idx as int));
                    assert forall|o2: int, i2: int| #[trigger] seen_after(o2, i2) && !(o2 == o && i2 == idx)
                        implies seen_before(o2, i2) by {
                        if o2 == o {
                            let t2 = choose|t2: int| 0 <= t2 < t + 1 && #[trigger] nb@[t2].0 == i2;
                            assert(t2 < t);
                        }
                    }
                    assert forall|o2: int, i2: int| #[trigger] seen_before(o2, i2) implies seen_after(o2, i2) by {
                        if o2 == o {
                            let t2 = choose|t2: int| 0 <= t2 < t && #[trigger] nb@[t2].0 == i2;
                            assert(nb@[t2].0 == i2);
                        }
                    }
                    assert forall|i2: int| #[trigger] seen_before(o as int, i2) implies self.walk_step(p as int, i2)
                        < self.walk_step(p as int, idx as int) by {
                        let t2 = choose|t2: int| 0 <= t2 < t && #[trigger] nb@[t2].0 == i2;
                        assert(self.walk_step(p as int, nb@[t2].0 as int) < self.walk_step(
                            p as int,
                            nb@[t as int].0 as int,
                        ));
                    }
                }
                if meets_overlap_pct(len_overlap, qlen, len_2, pct) {
                    let details = MatchDetails {
                        len_1: qlen,
                        len_2,
                        len_overlap,
                        start_1: o,
                        start_2: suffix.start,
                    };
                    let keep_prev = match res.get(&suffix.item) {
                        Some(prev) => prev_is_larger(prev, &details),
                        None => false,
                    };
                    proof {
                        assert(self.is_candidate(qv, m as nat, pct, o as int, idx as int));
                        assert(self.describes(qv, o as int, idx as int, details));
                    }
                    if !keep_prev {
                        res.insert(suffix.item, details);
                    }
                    proof {
                        self.lemma_merge_step(
                            qv,
                            m as nat,
                            pct,
                            seen_before,
                            seen_after,
                            before,
                            res@,
                            o as int,
                            idx as int,
                            details,
                            keep_prev,
                        );
                    }
                } else {
                    proof {
                        assert(!self.is_candidate(qv, m as nat, pct, o as int, idx as int));
                        self.lemma_best_among_same(qv, m as nat, pct, seen_before, seen_after, res@);
                    }
                }
            }
            proof {
                let seen_end = |o2: int, i2: int|
                    o2 < o || (o2 == o && exists|t2: int|
                        0 <= t2 < nb@.len() && #[trigger] nb@[t2].0 == i2);
                assert forall|o2: int, i2: int|
                    #[trigger] self.is_candidate(qv, m as nat, pct, o2, i2) implies (seen_end(
                    o2,
                    i2,
                ) <==> o2 < o + 1) by {
                    if o2 == o {
                        assert(self.overlap_at(qv, o as int, i2) >= m);
                        let t2 = choose|t2: int| 0 <= t2 < nb@.len() && #[trigger] nb@[t2].0 == i2;
                        assert(nb@[t2].0 == i2);
                    }
                }
                self.lemma_best_among_same(
                    qv,
                    m as nat,
                    pct,
                    seen_end,
                    |o2: int, i2: int| o2 < o + 1,
                    res@,
                );
            }
        }
        proof {
            assert forall|o2: int, i2: int|
                #[trigger] self.is_candidate(qv, m as nat, pct, o2, i2) implies (o2 < limit <==> true) by {
                lemma_common_prefix_len_bounded(qv.skip(o2), self.text_at(i2));
            }
            self.lemma_best_among_same(
                qv,
                m as nat,
                pct,
                |o2: int, i2: int| o2 < limit,
                |o2: int, i2: int| true,
                res@,
            );
        }
        res
    }

    /// One candidate joins those seen: the best matches before, updated by the rule that keeps
    /// the earlier entry only where it is larger, are the best matches after.
    proof fn lemma_merge_step(
        &self,
        q: Seq<char>,
        m: nat,
        pct: Fraction,
        seen_before: spec_fn(int, int) -> bool,
        seen_after: spec_fn(int, int) -> bool,
        before: Map<usize, MatchDetails>,
        after: Map<usize, MatchDetails>,
        o: int,
        i: int,
        d: MatchDetails,
        keep_prev: bool,
    )
        requires
            self.best_among(q, m, pct, seen_before, before),
            self.is_candidate(q, m, pct, o, i),
            self.describes(q, o, i, d),
            seen_after(o, i),
            forall|o2: int, i2: int|
                #[trigger] seen_after(o2, i2) && !(o2 == o && i2 == i) ==> seen_before(o2, i2),
            forall|o2: int, i2: int| #[trigger] seen_before(o2, i2) ==> seen_after(o2, i2),
            forall|o2: int, i2: int| #[trigger] seen_before(o2, i2) ==> o2 <= o,
            forall|i2: int|
                #[trigger] seen_before(o, i2) ==> self.walk_step(self.insertion_point(q.skip(o)), i2)
                    < self.walk_step(self.insertion_point(q.skip(o)), i),
            keep_prev == (before.contains_key(self.suffixes@[i].item) && prev_is_larger_spec(
                before[self.suffixes@[i].item],
                d,
            )),
            after == if keep_prev {
                before
            } else {
                before.insert(self.suffixes@[i].item, d)
            },
        ensures
            self.best_among(q, m, pct, seen_after, after),
    {
        let j = self.suffixes@[i].item;
        assert forall|k: usize| after.contains_key(k) <==> exists|o2: int, i2: int|
            #[trigger] self.is_candidate(q, m, pct, o2, i2) && seen_after(o2, i2)
                && self.suffixes@[i2].item == k by {
            if after.contains_key(k) && k != j {
                let (o2, i2) = choose|o2: int, i2: int|
                    #[trigger] self.is_candidate(q, m, pct, o2, i2) && seen_before(o2, i2)
                        && self.suffixes@[i2].item == k;
                assert(self.is_candidate(q, m, pct, o2, i2));
            }
            if exists|o2: int, i2: int|
                #[trigger] self.is_candidate(q, m, pct, o2, i2) && seen_after(o2, i2)
                    && self.suffixes@[i2].item == k {
                let (o2, i2) = choose|o2: int, i2: int|
                    #[trigger] self.is_candidate(q, m, pct, o2, i2) && seen_after(o2, i2)
                        && self.suffixes@[i2].item == k;
                if k != j {
                    assert(seen_before(o2, i2));
                    assert(self.is_candidate(q, m, pct, o2, i2));
                }
            }
            if k == j {
                assert(self.is_candidate(q, m, pct, o, i));
            }
        }
        assert forall|k: usize| #[trigger] after.contains_key(k) implies exists|w: int|
            {
                &&& #[trigger] self.is_candidate(q, m, pct, after[k].start_1 as int, w)
                &&& seen_after(after[k].start_1 as int, w)
                &&& self.suffixes@[w].item == k
                &&& self.describes(q, after[k].start_1 as int, w, after[k])
                &&& forall|o2: int, i2: int|
                    #[trigger] self.is_candidate(q, m, pct, o2, i2) && seen_after(o2, i2)
                        && self.suffixes@[i2].item == k ==> self.kept_over(
                        q,
                        after[k].start_1 as int,
                        w,
                        o2,
                        i2,
                    )
            } by {
            if k == j && !keep_prev {
                assert(after[k] == d);
                assert forall|o2: int, i2: int|
                    #[trigger] self.is_candidate(q, m, pct, o2, i2) && seen_after(o2, i2)
                        && self.suffixes@[i2].item == k implies self.kept_over(q, o, i, o2, i2) by {
                    if !(o2 == o && i2 == i) {
                        assert(seen_before(o2, i2));
                        assert(before.contains_key(k));
                        let w = choose|w: int|
                            {
                                &&& #[trigger] self.is_candidate(q, m, pct, before[k].start_1 as int, w)
                                &&& seen_before(before[k].start_1 as int, w)
                                &&& self.suffixes@[w].item == k
                                &&& self.describes(q, before[k].start_1 as int, w, before[k])
                                &&& forall|o3: int, i3: int|
                                    #[trigger] self.is_candidate(q, m, pct, o3, i3) && seen_before(
                                        o3,
                                        i3,
                                    ) && self.suffixes@[i3].item == k ==> self.kept_over(
                                        q,
                                        before[k].start_1 as int,
                                        w,
                                        o3,
                                        i3,
                                    )
                            };
                        assert(self.kept_over(q, before[k].start_1 as int, w, o2, i2));
                        assert(seen_before(before[k].start_1 as int, w));
                        if before[k].start_1 == o {
                            assert(seen_before(o, w));
                        }
                    }
                }
                assert(self.is_candidate(q, m, pct, o, i));
            } else {
                let w = choose|w: int|
                    {
                        &&& #[trigger] self.is_candidate(q, m, pct, before[k].start_1 as int, w)
                        &&& seen_before(before[k].start_1 as int, w)
                        &&& self.suffixes@[w].item == k
                        &&& self.describes(q, before[k].start_1 as int, w, before[k])
                        &&& forall|o3: int, i3: int|
                            #[trigger] self.is_candidate(q, m, pct, o3, i3) && seen_before(o3, i3)
                                && self.suffixes@[i3].item == k ==> self.kept_over(
                                q,
                                before[k].start_1 as int,
                                w,
                                o3,
                                i3,
                            )
                    };
                assert(after[k] == before[k]);
                assert(self.is_candidate(q, m, pct, after[k].start_1 as int, w));
                assert forall|o2: int, i2: int|
                    #[trigger] self.is_candidate(q, m, pct, o2, i2) && seen_after(o2, i2)
                        && self.suffixes@[i2].item == k implies self.kept_over(
                    q,
                    after[k].start_1 as int,
                    w,
                    o2,
                    i2,
                ) by {
                    if !(o2 == o && i2 == i) {
                        assert(seen_before(o2, i2));
                    }
                }
            }
        }
    }

    /// Item `j` has at least one candidate for the query.
    pub open spec fn has_candidate(&self, q: Seq<char>, m: nat, pct: Fraction, j: int) -> bool {
        exists|o: int, i: int| #[trigger] self.is_candidate(q, m, pct, o, i) && self.suffixes@[i].item == j
    }

    /// The texts of the items among the first `k` that have a candidate, in item order.
    pub open spec fn matching_texts(&self, q: Seq<char>, m: nat, pct: Fraction, k: nat) -> Seq<Seq<char>>
        decreases k,
    {
        if k == 0 {
            seq![]
        } else {
            let rest = self.matching_texts(q, m, pct, (k - 1) as nat);
            if self.has_candidate(q, m, pct, k - 1) {
                rest.push(self.texts()[k - 1])
            } else {
                rest
            }
        }
    }

    /// The texts of the items that `similar` reports, in item order.
    pub fn similar_str(&self, query: &str, min_overlap_chars: usize, min_overlap_pct: Fraction) -> (r:
        Vec<String>)
        requires
            self.wf(),
        ensures
            r@.map_values(|s: String| s@) == self.matching_texts(
                query@,
                min_overlap_chars as nat,
                min_overlap_pct,
                self.texts().len(),
            ),
    {
        let res = self.similar(query, min_overlap_chars, min_overlap_pct);
        let ghost m = min_overlap_chars as nat;
        let mut out: Vec<String> = Vec::new();
        let count = self.len();
        for j in 0..count
            invariant
                self.wf(),
                count == self.texts().len(),
                self.similar_matches(query@, m, min_overlap_pct, res@),
                out@.map_values(|s: String| s@) == self.matching_texts(
                    query@,
                    m,
                    min_overlap_pct,
                    j as nat,
                ),
        {
            let ghost before = out@;
            if res.contains_key(&j) {
                proof {
                    let (o, i) = choose|o: int, i: int|
                        #[trigger] self.is_candidate(query@, m, min_overlap_pct, o, i)
                            && self.suffixes@[i].item == j;
                    assert(self.has_candidate(query@, m, min_overlap_pct, j as int));
                }
                out.push(self.get_item_unchecked(j).to_owned());
                proof {
                    assert(out@.map_values(|s: String| s@) =~= before.map_values(|s: String| s@).push(
                        self.texts()[j as int],
                    ));
                }
            } else {
                proof {
                    if self.has_candidate(query@, m, min_overlap_pct, j as int) {
                        let (o, i) = choose|o: int, i: int|
                            #[trigger] self.is_candidate(query@, m, min_overlap_pct, o, i)
                                && self.suffixes@[i].item == j;
                        assert(self.is_candidate(query@, m, min_overlap_pct, o, i));
                    }
                }
            }
        }
        out
    }

    /// Querying is a function of the index and the arguments: any two answers to the same
    /// query are equal.
    pub proof fn lemma_similar_deterministic(
        &self,
        q: Seq<char>,
        m: nat,
        pct: Fraction,
        r1: Map<usize, MatchDetails>,
        r2: Map<usize, MatchDetails>,
    )
        requires
            self.wf(),
            self.similar_matches(q, m, pct, r1),
            self.similar_matches(q, m, pct, r2),
        ensures
            r1 == r2,
    {
        assert forall|j: usize| r1.contains_key(j) implies r2.contains_key(j) && r1[j] == r2[j] by {
            let (o, i) = choose|o: int, i: int|
                #[trigger] self.is_candidate(q, m, pct, o, i) && true && self.suffixes@[i].item == j;
            assert(self.is_candidate(q, m, pct, o, i));
            assert(r2.contains_key(j));
            let w1 = choose|w: int|
                {
                    &&& #[trigger] self.is_candidate(q, m, pct, r1[j].start_1 as int, w)
                    &&& true
                    &&& self.suffixes@[w].item == j
                    &&& self.describes(q, r1[j].start_1 as int, w, r1[j])
                    &&& forall|o2: int, i2: int|
                        #[trigger] self.is_candidate(q, m, pct, o2, i2) && true
                            && self.suffixes@[i2].item == j ==> self.kept_over(
                            q,
                            r1[j].start_1 as int,
                            w,
                            o2,
                            i2,
                        )
                };
            let w2 = choose|w: int|
                {
                    &&& #[trigger] self.is_candidate(q, m, pct, r2[j].start_1 as int, w)
                    &&& true
                    &&& self.suffixes@[w].item == j
                    &&& self.describes(q, r2[j].start_1 as int, w, r2[j])
                    &&& forall|o2: int, i2: int|
                        #[trigger] self.is_candidate(q, m, pct, o2, i2) && true
                            && self.suffixes@[i2].item == j ==> self.kept_over(
                            q,
                            r2[j].start_1 as int,
                            w,
                            o2,
                            i2,
                        )
                };
            assert(self.kept_over(q, r1[j].start_1 as int, w1, r2[j].start_1 as int, w2));
            assert(self.kept_over(q, r2[j].start_1 as int, w2, r1[j].start_1 as int, w1));
            assert(w1 == w2);
        }
        assert forall|j: usize| r2.contains_key(j) implies r1.contains_key(j) by {
            let (o, i) = choose|o: int, i: int|
                #[trigger] self.is_candidate(q, m, pct, o, i) && true && self.suffixes@[i].item == j;
            assert(self.is_candidate(q, m, pct, o, i));
        }
        assert(r1 =~= r2);
    }

    /// Raising the character floor or the percentage floor never adds an item to the answer.
    pub proof fn lemma_raising_floors_adds_nothing(
        &self,
        q: Seq<char>,
        m1: nat,
        pct1: Fraction,
        m2: nat,
        pct2: Fraction,
        r1: Map<usize, MatchDetails>,
        r2: Map<usize, MatchDetails>,
    )
        requires
            self.wf(),
            m1 <= m2,
            pct1.denominator > 0,
            pct2.denominator > 0,
            pct1.numerator * pct2.denominator <= pct2.numerator * pct1.denominator,
            self.similar_matches(q, m1, pct1, r1),
            self.similar_matches(q, m2, pct2, r2),
        ensures
            r2.dom().subset_of(r1.dom()),
    {
        assert forall|j: usize| r2.contains_key(j) implies r1.contains_key(j) by {
            let (o, i) = choose|o: int, i: int|
                #[trigger] self.is_candidate(q, m2, pct2, o, i) && true && self.suffixes@[i].item == j;
            let l = self.overlap_at(q, o, i) as int;
            let total = q.len() + self.item_len_at(i);
            let n1 = pct1.numerator as int;
            let d1 = pct1.denominator as int;
            let n2 = pct2.numerator as int;
            let d2 = pct2.denominator as int;
            assert(2 * l * d1 >= n1 * total) by (nonlinear_arith)
                requires
                    2 * l * d2 >= n2 * total,
                    n1 * d2 <= n2 * d1,
                    d1 > 0,
                    d2 > 0,
                    total >= 0,
            ;
            assert(self.is_candidate(q, m1, pct1, o, i));
        }
    }

    /// Of two identical non-empty items, querying with the text of one at a zero percentage
    /// floor reports the other with an overlap over its whole length, an overlap percentage of
    /// one.
    pub proof fn lemma_identical_items_match_fully(
        &self,
        j1: usize,
        j2: usize,
        m: nat,
        pct: Fraction,
        r: Map<usize, MatchDetails>,
    )
        requires
            self.wf(),
            j1 < self.texts().len(),
            j2 < self.texts().len(),
            self.texts()[j1 as int] == self.texts()[j2 as int],
            self.texts()[j1 as int].len() > 0,
            m <= self.texts()[j1 as int].len(),
            pct.numerator == 0,
            self.similar_matches(self.texts()[j1 as int], m, pct, r),
        ensures
            r.contains_key(j2),
            r[j2].len_overlap == self.texts()[j2 as int].len(),
            2 * r[j2].len_overlap == r[j2].len_1 + r[j2].len_2,
    {
        let q = self.texts()[j1 as int];
        let s = crate::index::Suffix { item: j2, start: 0 };
        assert(self.suffixes@.contains(s));
        let i = choose|i: int| 0 <= i < self.suffixes@.len() && self.suffixes@[i] == s;
        assert(q.skip(0) =~= q);
        assert(self.text_at(i) =~= q);
        crate::lcp::lemma_common_prefix_len_self(q);
        assert(self.is_candidate(q, m, pct, 0, i));
        assert(r.contains_key(j2));
        let w = choose|w: int|
            {
                &&& #[trigger] self.is_candidate(q, m, pct, r[j2].start_1 as int, w)
                &&& true
                &&& self.suffixes@[w].item == j2
                &&& self.describes(q, r[j2].start_1 as int, w, r[j2])
                &&& forall|o2: int, i2: int|
                    #[trigger] self.is_candidate(q, m, pct, o2, i2) && true
                        && self.suffixes@[i2].item == j2 ==> self.kept_over(
                        q,
                        r[j2].start_1 as int,
                        w,
                        o2,
                        i2,
                    )
            };
        assert(self.kept_over(q, r[j2].start_1 as int, w, 0, i));
        lemma_common_prefix_len_bounded(q.skip(r[j2].start_1 as int), self.text_at(w));
    }

    /// Over an empty corpus every query's answer is empty.
    pub proof fn lemma_empty_corpus_matches_nothing(
        &self,
        q: Seq<char>,
        m: nat,
        pct: Fraction,
        r: Map<usize, MatchDetails>,
    )
        requires
            self.wf(),
            self.texts().len() == 0,
            self.similar_matches(q, m, pct, r),
        ensures
            r == Map::<usize, MatchDetails>::empty(),
    {
        assert forall|j: usize| !r.contains_key(j) by {
            if r.contains_key(j) {
                let (o, i) = choose|o: int, i: int|
                    #[trigger] self.is_candidate(q, m, pct, o, i) && true && self.suffixes@[i].item == j;
                assert(self.is_candidate(q, m, pct, o, i));
            }
        }
        assert(r =~= Map::<usize, MatchDetails>::empty());
    }
}

/// The earlier entry `prev` stays over `new`: it overlaps longer, or as long and starts
/// earlier in the query.
pub open spec fn prev_is_larger_spec(prev: MatchDetails, new: MatchDetails) -> bool {
    prev.len_overlap > new.len_overlap || (prev.len_overlap == new.len_overlap && prev.start_1
        < new.start_1)
}

fn prev_is_larger(prev: &MatchDetails, new: &MatchDetails) -> (r: bool)
    ensures
        r == prev_is_larger_spec(*prev, *new),
{
    prev.len_overlap > new.len_overlap || (prev.len_overlap == new.len_overlap && prev.start_1
        < new.start_1)
}

/// Whether `2 * len_overlap / (len_1 + len_2)` is at least `pct`.
fn meets_overlap_pct(len_overlap: usize, len_1: usize, len_2: usize, pct: Fraction) -> (r: bool)
    ensures
        r == meets_pct(len_overlap as int, len_1 as int, len_2 as int, pct),
{
    let a: u128 = 2 * (len_overlap as u128);
    let d: u128 = pct.denominator as u128;
    let n: u128 = pct.numerator as u128;
    let total: u128 = (len_1 as u128) + (len_2 as u128);
    proof {
        assert(a * d <= 0x2_0000_0000_0000_0000u128 * 0x1_0000_0000u128) by (nonlinear_arith)
            requires
                a <= 0x2_0000_0000_0000_0000u128,
                d <= 0x1_0000_0000u128,
        ;
        assert(n * total <= 0x1_0000_0000u128 * 0x2_0000_0000_0000_0000u128) by (nonlinear_arith)
            requires
                n <= 0x1_0000_0000u128,
                total <= 0x2_0000_0000_0000_0000u128,
        ;
    }
    let lhs = a * d;
    let rhs = n * total;
    lhs >= rhs
}

} // verus!
