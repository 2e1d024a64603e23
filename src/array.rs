use std::collections::HashMap;
use vstd::prelude::*;

use crate::index::{byte_len, concat_all, texts_of, total_len, BaseGeneralizedSuffixArray};
use crate::lcp::{common_prefix_len, lex_le};
use crate::query::{Fraction, MatchDetails};

verus! {

broadcast use vstd::std_specs::hash::group_hash_axioms;

/// Why a call on the index failed.
#[derive(Debug, Clone, Copy, PartialEq, Eq, Structural)]
pub enum SuffixArrayError {
    /// A query gave neither floor, or a percentage outside `[0, 1]`.
    InvalidArgument,
    /// No item has the index asked for.
    NotFound,
}

/// `pct` is a percentage: a ratio with a positive denominator, between zero and one.
pub open spec fn is_valid_pct(pct: Fraction) -> bool {
    pct.denominator > 0 && pct.numerator <= pct.denominator
}

/// The smallest overlap that can reach `pct` for a query of `query_len` characters, whatever
/// the item's length: `ceil(pct * query_len / (2 - pct))`.
pub open spec fn min_chars_from_pct(pct: Fraction, query_len: nat) -> nat {
    let d = 2 * pct.denominator - pct.numerator;
    ((pct.numerator * query_len + d - 1) / d) as nat
}

/// The percentage floor that a query uses: the one given, else zero.
pub open spec fn pct_or_zero(pct: Option<Fraction>) -> Fraction {
    match pct {
        Some(p) => p,
        None => Fraction { numerator: 0, denominator: 1 },
    }
}

/// The character floor that a query searches with: the larger of the one given (zero if
/// none) and the one that the percentage floor implies.
pub open spec fn effective_min_chars(
    min_overlap_chars: Option<usize>,
    min_overlap_pct: Option<Fraction>,
    query_len: nat,
) -> nat {
    let given = chars_or_zero(min_overlap_chars);
    let from_pct = min_chars_from_pct(pct_or_zero(min_overlap_pct), query_len);
    if given >= from_pct {
        given
    } else {
        from_pct
    }
}

/// The character floor given, zero where none is.
pub open spec fn chars_or_zero(min_overlap_chars: Option<usize>) -> nat {
    match min_overlap_chars {
        Some(c) => c as nat,
        None => 0,
    }
}

/// `x / d` rounded up is at most `c` exactly where `x <= c * d`.
proof fn lemma_ceil_div_at_most(x: int, d: int, c: int)
    requires
        d > 0,
        x >= 0,
        c >= 0,
    ensures
        (x + d - 1) / d <= c <==> x <= c * d,
{
    vstd::arithmetic::div_mod::lemma_fundamental_div_mod(x + d - 1, d);
    let y = (x + d - 1) / d;
    let r = (x + d - 1) % d;
    assert(0 <= r < d);
    if x <= c * d {
        assert(y <= c) by (nonlinear_arith)
            requires
                x + d - 1 == d * y + r,
                0 <= r,
                x <= c * d,
                d > 0,
        ;
    }
    if y <= c {
        assert(x <= c * d) by (nonlinear_arith)
            requires
                x + d - 1 == d * y + r,
                r < d,
                y <= c,
                d > 0,
        ;
    }
}

/// A higher percentage never implies a lower character floor.
pub proof fn lemma_min_chars_from_pct_monotone(pct1: Fraction, pct2: Fraction, query_len: nat)
    requires
        is_valid_pct(pct1),
        is_valid_pct(pct2),
        pct1.numerator * pct2.denominator <= pct2.numerator * pct1.denominator,
    ensures
        min_chars_from_pct(pct1, query_len) <= min_chars_from_pct(pct2, query_len),
{
    let n1 = pct1.numerator as int;
    let n2 = pct2.numerator as int;
    let d1 = 2 * pct1.denominator - n1;
    let d2 = 2 * pct2.denominator - n2;
    let l = query_len as int;
    let a1 = n1 * l;
    let a2 = n2 * l;
    assert(n1 * d2 <= n2 * d1) by (nonlinear_arith)
        requires
            n1 * pct2.denominator <= n2 * pct1.denominator,
            d1 == 2 * pct1.denominator - n1,
            d2 == 2 * pct2.denominator - n2,
    ;
    assert(a1 * d2 <= a2 * d1) by (nonlinear_arith)
        requires
            n1 * d2 <= n2 * d1,
            a1 == n1 * l,
            a2 == n2 * l,
            l >= 0,
    ;
    assert(a1 >= 0 && a2 >= 0) by (nonlinear_arith)
        requires
            n1 >= 0,
            n2 >= 0,
            l >= 0,
            a1 == n1 * l,
            a2 == n2 * l,
    ;
    let c2 = (a2 + d2 - 1) / d2;
    vstd::arithmetic::div_mod::lemma_fundamental_div_mod(a2 + d2 - 1, d2);
    assert(c2 >= 0);
    lemma_ceil_div_at_most(a2, d2, c2);
    assert(a1 <= c2 * d1) by (nonlinear_arith)
        requires
            a1 * d2 <= a2 * d1,
            a2 <= c2 * d2,
            d1 > 0,
            d2 > 0,
    ;
    lemma_ceil_div_at_most(a1, d1, c2);
}

/// A generalized suffix array whose queries take optional floors and report misuse as errors.
pub struct GeneralizedSuffixArray {
    pub suffix_array: BaseGeneralizedSuffixArray,
}

impl GeneralizedSuffixArray {
    /// The underlying index is well formed.
    pub open spec fn wf(&self) -> bool {
        self.suffix_array.wf()
    }

    /// The indexed items, as character sequences.
    pub open spec fn texts(&self) -> Seq<Seq<char>> {
        self.suffix_array.texts()
    }

    /// Builds the index over `items`: one suffix for each character of each item, in
    /// lexicographic order, and the common prefix length of each pair of neighbours between two
    /// zero sentinels.
    pub fn new(items: Vec<&str>) -> (r: Self)
        requires
            byte_len(concat_all(texts_of(items@))) <= usize::MAX,
        ensures
            r.wf(),
            r.texts() == texts_of(items@),
            r.suffix_array.suffixes@.len() == total_len(texts_of(items@)),
            forall|i: int, k: int|
                0 <= i < k < r.suffix_array.suffixes@.len() ==> lex_le(
                    #[trigger] r.suffix_array.text_at(i),
                    #[trigger] r.suffix_array.text_at(k),
                ),
            forall|i: int|
                0 < i < r.suffix_array.suffixes@.len() ==> #[trigger] r.suffix_array.lcp_array@[i]
                    == common_prefix_len(r.suffix_array.text_at(i - 1), r.suffix_array.text_at(i)),
            r.suffix_array.lcp_array@[0] == 0,
            r.suffix_array.lcp_array@.last() == 0,
    {
        GeneralizedSuffixArray { suffix_array: BaseGeneralizedSuffixArray::new(items.as_slice()) }
    }

    /// Number of indexed items.
    pub fn len(&self) -> (r: usize)
        requires
            self.wf(),
        ensures
            r == self.texts().len(),
    {
        self.suffix_array.len()
    }

    /// The text of item `idx`, or `NotFound` where there is no such item.
    pub fn item(&self, idx: usize) -> (r: Result<String, SuffixArrayError>)
        requires
            self.wf(),
        ensures
            idx < self.texts().len() ==> r is Ok && r->Ok_0@ == self.texts()[idx as int],
            idx >= self.texts().len() ==> r == Err::<String, SuffixArrayError>(
                SuffixArrayError::NotFound,
            ),
    {
        match self.suffix_array.get_item(idx) {
            Some(s) => Ok(s.to_owned()),
            None => Err(SuffixArrayError::NotFound),
        }
    }

    /// Every item with a substring in common with `query` that clears the floors, mapped to
    /// its best match. A percentage floor alone also raises the character floor to the least
    /// overlap that could reach it. Giving neither floor, or a percentage outside `[0, 1]`, is
    /// `InvalidArgument`.
    pub fn similar(
        &self,
        query: &str,
        min_overlap_chars: Option<usize>,
        min_overlap_pct: Option<Fraction>,
    ) -> (r: Result<HashMap<usize, MatchDetails>, SuffixArrayError>)
        requires
            self.wf(),
        ensures
            min_overlap_chars is None && min_overlap_pct is None ==> r == Err::<
                HashMap<usize, MatchDetails>,
                SuffixArrayError,
            >(SuffixArrayError::InvalidArgument),
            min_overlap_pct is Some && !is_valid_pct(min_overlap_pct->0) ==> r == Err::<
                HashMap<usize, MatchDetails>,
                SuffixArrayError,
            >(SuffixArrayError::InvalidArgument),
            (min_overlap_chars is Some || min_overlap_pct is Some) && (min_overlap_pct is Some
                ==> is_valid_pct(min_overlap_pct->0)) ==> {
                &&& r is Ok
                &&& self.suffix_array.similar_matches(
                    query@,
                    effective_min_chars(min_overlap_chars, min_overlap_pct, query@.len()),
                    pct_or_zero(min_overlap_pct),
                    r->Ok_0@,
                )
            },
    {
        let min_pct = match min_overlap_pct {
            Some(p) => p,
            None => Fraction { numerator: 0, denominator: 1 },
        };
        if min_pct.denominator == 0 || min_pct.numerator > min_pct.denominator {
            return Err(SuffixArrayError::InvalidArgument);
        }
        let query_len = query.unicode_len();
        let min_chars_from_pct = min_chars_for_pct(min_pct, query_len);
        let min_chars = match (min_overlap_chars, min_overlap_pct) {
            (Some(val), _) => val,
            (_, Some(_)) => 0,
            _ => return Err(SuffixArrayError::InvalidArgument),
        };
        let min_chars = if min_chars >= min_chars_from_pct {
            min_chars
        } else {
            min_chars_from_pct
        };
        Ok(self.suffix_array.similar(query, min_chars, min_pct))
    }
}

impl GeneralizedSuffixArray {
    /// Raising a query's character floor or its percentage floor never adds an item to the
    /// answer.
    pub proof fn lemma_raising_query_floors_adds_nothing(
        &self,
        q: Seq<char>,
        chars1: Option<usize>,
        pct1: Option<Fraction>,
        chars2: Option<usize>,
        pct2: Option<Fraction>,
        r1: Map<usize, MatchDetails>,
        r2: Map<usize, MatchDetails>,
    )
        requires
            self.wf(),
            chars_or_zero(chars1) <= chars_or_zero(chars2),
            is_valid_pct(pct_or_zero(pct1)),
            is_valid_pct(pct_or_zero(pct2)),
            pct_or_zero(pct1).numerator * pct_or_zero(pct2).denominator <= pct_or_zero(
                pct2,
            ).numerator * pct_or_zero(pct1).denominator,
            self.suffix_array.similar_matches(
                q,
                effective_min_chars(chars1, pct1, q.len()),
                pct_or_zero(pct1),
                r1,
            ),
            self.suffix_array.similar_matches(
                q,
                effective_min_chars(chars2, pct2, q.len()),
                pct_or_zero(pct2),
                r2,
            ),
        ensures
            r2.dom().subset_of(r1.dom()),
    {
        lemma_min_chars_from_pct_monotone(pct_or_zero(pct1), pct_or_zero(pct2), q.len());
        self.suffix_array.lemma_raising_floors_adds_nothing(
            q,
            effective_min_chars(chars1, pct1, q.len()),
            pct_or_zero(pct1),
            effective_min_chars(chars2, pct2, q.len()),
            pct_or_zero(pct2),
            r1,
            r2,
        );
    }

    /// Over an empty corpus a query with a floor given never fails, and finds nothing.
    pub proof fn lemma_empty_corpus_query(
        &self,
        q: Seq<char>,
        chars: Option<usize>,
        pct: Option<Fraction>,
        r: Map<usize, MatchDetails>,
    )
        requires
            self.wf(),
            self.texts().len() == 0,
            self.suffix_array.similar_matches(
                q,
                effective_min_chars(chars, pct, q.len()),
                pct_or_zero(pct),
                r,
            ),
        ensures
            r == Map::<usize, MatchDetails>::empty(),
    {
        self.suffix_array.lemma_empty_corpus_matches_nothing(
            q,
            effective_min_chars(chars, pct, q.len()),
            pct_or_zero(pct),
            r,
        );
    }
}

/// `ceil(pct * query_len / (2 - pct))`, the least overlap that reaches `pct` for a query of
/// `query_len` characters.
pub fn min_chars_for_pct(pct: Fraction, query_len: usize) -> (r: usize)
    requires
        is_valid_pct(pct),
    ensures
        r == min_chars_from_pct(pct, query_len as nat),
        r <= query_len,
{
    let d: u128 = 2 * (pct.denominator as u128) - (pct.numerator as u128);
    let n: u128 = pct.numerator as u128;
    let len: u128 = query_len as u128;
    proof {
        assert(n * len <= 0x1_0000_0000u128 * 0x1_0000_0000_0000_0000u128) by (nonlinear_arith)
            requires
                n <= 0x1_0000_0000u128,
                len <= 0x1_0000_0000_0000_0000u128,
        ;
        let ni = n as int;
        let di = d as int;
        let li = len as int;
        assert(ni * li <= di * li) by (nonlinear_arith)
            requires
                ni <= di,
                li >= 0,
        ;
        assert((ni * li + di - 1) / di <= li) by (nonlinear_arith)
            requires
                ni * li <= di * li,
                di > 0,
                li >= 0,
        ;
        assert(0 <= (ni * li + di - 1) / di) by (nonlinear_arith)
            requires
                ni * li >= 0,
                di > 0,
        ;
    }
    let r = (n * len + d - 1) / d;
    r as usize
}

} // verus!
