use vstd::prelude::*;
use vstd::string::StringSliceAdditionalSpecFns;
use vstd::utf8::encode_utf8;

use crate::encoding::{lemma_boundary_after, lemma_encode_concat, lemma_encode_injective};
use crate::lcp::{
    common_prefix_len, compare_from, get_longest_common_prefix, lemma_lex_chain, lemma_lex_total, lex_le,
};

verus! {

/// The text of item `item` from character offset `start` to its end.
#[derive(Debug, Clone, Copy, PartialEq, Eq, Structural)]
pub struct Suffix {
    pub item: usize,
    pub start: usize,
}

/// All the sequences, one after the other.
pub open spec fn concat_all(texts: Seq<Seq<char>>) -> Seq<char>
    decreases texts.len(),
{
    if texts.len() == 0 {
        seq![]
    } else {
        concat_all(texts.drop_last()) + texts.last()
    }
}

/// Number of characters over all the sequences.
pub open spec fn total_len(texts: Seq<Seq<char>>) -> nat
    decreases texts.len(),
{
    if texts.len() == 0 {
        0
    } else {
        total_len(texts.drop_last()) + texts.last().len()
    }
}

/// Number of bytes in the UTF-8 encoding of `s`.
pub open spec fn byte_len(s: Seq<char>) -> nat {
    encode_utf8(s).len()
}

/// The character sequences of a batch of strings.
pub open spec fn texts_of(items: Seq<&str>) -> Seq<Seq<char>> {
    items.map_values(|s: &str| s@)
}

/// The character sequences held in a vector of character vectors.
pub open spec fn views(texts: Seq<Vec<char>>) -> Seq<Seq<char>> {
    texts.map_values(|t: Vec<char>| t@)
}

/// The text that a suffix denotes in `texts`.
pub open spec fn suffix_text(texts: Seq<Seq<char>>, s: Suffix) -> Seq<char> {
    texts[s.item as int].skip(s.start as int)
}

/// `s` starts at a character of one of the `texts`.
pub open spec fn is_suffix_in(texts: Seq<Seq<char>>, s: Suffix) -> bool {
    s.item < texts.len() && s.start < texts[s.item as int].len()
}

/// The concatenation splits at any item into the part before and the part from it.
pub proof fn lemma_concat_split(texts: Seq<Seq<char>>, k: int)
    requires
        0 <= k <= texts.len(),
    ensures
        concat_all(texts) == concat_all(texts.take(k)) + concat_all(texts.skip(k)),
    decreases texts.len(),
{
    if k == texts.len() {
        assert(texts.take(k) =~= texts);
        assert(texts.skip(k) =~= seq![]);
        assert(concat_all(texts) + seq![] =~= concat_all(texts));
    } else {
        let dl = texts.drop_last();
        lemma_concat_split(dl, k);
        assert(dl.take(k) =~= texts.take(k));
        assert(texts.skip(k).drop_last() =~= dl.skip(k));
        assert(texts.skip(k).last() == texts.last());
        assert(concat_all(texts) =~= concat_all(texts.take(k)) + concat_all(texts.skip(k)));
    }
}

/// A generalized suffix array: the items' concatenation with each item's byte range, every
/// suffix of every item in lexicographic order, and the common prefix lengths of neighbours.
#[derive(Debug)]
pub struct BaseGeneralizedSuffixArray {
    pub items: String,
    pub item_ranges: Vec<(usize, usize)>,
    pub suffixes: Vec<Suffix>,
    pub lcp_array: Vec<usize>,
    pub chars: Vec<Vec<char>>,
}

impl BaseGeneralizedSuffixArray {
    /// The indexed items, as character sequences.
    pub open spec fn texts(&self) -> Seq<Seq<char>> {
        views(self.chars@)
    }

    /// Text of the suffix at position `i` of the sorted index.
    pub open spec fn text_at(&self, i: int) -> Seq<char> {
        suffix_text(self.texts(), self.suffixes@[i])
    }

    /// The concatenation holds every item, and each range is that item's span of bytes in it.
    pub open spec fn storage_wf(&self) -> bool {
        &&& self.items@ == concat_all(self.texts())
        &&& self.item_ranges@.len() == self.texts().len()
        &&& forall|i: int|
            0 <= i < self.texts().len() ==> #[trigger] self.item_ranges@[i] == (
                byte_len(concat_all(self.texts().take(i))) as usize,
                byte_len(concat_all(self.texts().take(i + 1))) as usize,
            )
        &&& byte_len(self.items@) <= usize::MAX
    }

    /// One entry for each character of each item, sorted, with the common prefix lengths of
    /// neighbours between two zero sentinels.
    pub open spec fn index_wf(&self) -> bool {
        let n = self.suffixes@.len();
        &&& n == total_len(self.texts())
        &&& forall|k: int| 0 <= k < n ==> is_suffix_in(self.texts(), #[trigger] self.suffixes@[k])
        &&& forall|s: Suffix| is_suffix_in(self.texts(), s) ==> #[trigger] self.suffixes@.contains(s)
        &&& forall|i: int, k: int|
            0 <= i < k < n ==> lex_le(#[trigger] self.text_at(i), #[trigger] self.text_at(k))
        &&& self.lcp_array@.len() == if n == 0 {
            2
        } else {
            n + 1
        }
        &&& self.lcp_array@[0] == 0
        &&& self.lcp_array@.last() == 0
        &&& forall|i: int|
            0 < i < n ==> #[trigger] self.lcp_array@[i] == common_prefix_len(
                self.text_at(i - 1),
                self.text_at(i),
            )
    }

    /// The storage and the index both agree with the items.
    pub open spec fn wf(&self) -> bool {
        self.storage_wf() && self.index_wf()
    }

    /// Builds the index over `items`, which it copies: one suffix for each character of each
    /// item, in lexicographic order, and the common prefix length of each pair of neighbours
    /// between two zero sentinels.
    pub fn new(items: &[&str]) -> (r: Self)
        requires
            byte_len(concat_all(texts_of(items@))) <= usize::MAX,
        ensures
            r.wf(),
            r.texts() == texts_of(items@),
            r.suffixes@.len() == total_len(texts_of(items@)),
            forall|i: int, k: int|
                0 <= i < k < r.suffixes@.len() ==> lex_le(
                    #[trigger] r.text_at(i),
                    #[trigger] r.text_at(k),
                ),
            forall|i: int|
                0 < i < r.suffixes@.len() ==> #[trigger] r.lcp_array@[i] == common_prefix_len(
                    r.text_at(i - 1),
                    r.text_at(i),
                ),
            r.lcp_array@[0] == 0,
            r.lcp_array@.last() == 0,
    {
        let mut chars: Vec<Vec<char>> = Vec::new();
        for i in 0..items.len()
            invariant
                chars@.len() == i,
                i <= items@.len(),
                views(chars@) == texts_of(items@).take(i as int),
        {
            let item_chars = chars_of(items[i]);
            let ghost before = chars@;
            chars.push(item_chars);
            proof {
                assert(item_chars@ == texts_of(items@)[i as int]);
                assert forall|k: int| 0 <= k <= i implies #[trigger] views(chars@)[k]
                    == texts_of(items@).take(i + 1)[k] by {
                    if k < i {
                        assert(chars@[k] == before[k]);
                        assert(views(before)[k] == texts_of(items@).take(i as int)[k]);
                    }
                }
                assert(views(chars@) =~= texts_of(items@).take(i + 1));
            }
        }
        proof {
            assert(views(chars@) =~= texts_of(items@));
        }
        let enumerated = enumerate_suffixes(&chars);
        let suffixes = sort_range(&enumerated, 0, enumerated.len(), &chars);
        proof {
            let texts = views(chars@);
            assert(enumerated@.subrange(0, enumerated@.len() as int) =~= enumerated@);
            lemma_same_multiset(enumerated@, suffixes@);
            assert forall|k: int| 0 <= k < suffixes@.len() implies is_suffix_in(
                texts,
                #[trigger] suffixes@[k],
            ) by {
                assert(suffixes@.contains(suffixes@[k]));
                let j = choose|j: int| 0 <= j < enumerated@.len() && enumerated@[j] == suffixes@[k];
                assert(is_suffix_in(texts, enumerated@[j]));
            }
        }
        let lcp_array = build_lcp_array(&suffixes, &chars);
        let (storage_items, item_ranges) = Self::build_storage_data(items);
        BaseGeneralizedSuffixArray {
            items: storage_items,
            item_ranges,
            suffixes,
            lcp_array,
            chars,
        }
    }

    /// The concatenation of `items` and the byte range of each item in it.
    fn build_storage_data(items: &[&str]) -> (r: (String, Vec<(usize, usize)>))
        requires
            byte_len(concat_all(texts_of(items@))) <= usize::MAX,
        ensures
            r.0@ == concat_all(texts_of(items@)),
            r.1@.len() == items@.len(),
            forall|i: int|
                0 <= i < items@.len() ==> #[trigger] r.1@[i] == (
                    byte_len(concat_all(texts_of(items@).take(i))) as usize,
                    byte_len(concat_all(texts_of(items@).take(i + 1))) as usize,
                ),
    {
        let ghost texts = texts_of(items@);
        let mut storage_items = String::new();
        let mut item_ranges: Vec<(usize, usize)> = Vec::new();
        let mut offset: usize = 0;
        for i in 0..items.len()
            invariant
                texts == texts_of(items@),
                byte_len(concat_all(texts)) <= usize::MAX,
                storage_items@ == concat_all(texts.take(i as int)),
                offset == byte_len(storage_items@),
                item_ranges@.len() == i,
                forall|k: int|
                    0 <= k < i ==> #[trigger] item_ranges@[k] == (
                        byte_len(concat_all(texts.take(k))) as usize,
                        byte_len(concat_all(texts.take(k + 1))) as usize,
                    ),
        {
            let item = items[i];
            let ghost before = storage_items@;
            proof {
                assert(texts.take(i + 1).drop_last() =~= texts.take(i as int));
                assert(texts.take(i + 1).last() == item@);
                lemma_concat_split(texts, i + 1);
                lemma_encode_concat(before, item@);
                lemma_encode_concat(
                    concat_all(texts.take(i + 1)),
                    concat_all(texts.skip(i + 1)),
                );
            }
            storage_items.append(item);
            item_ranges.push((offset, offset + item.len()));
            offset = offset + item.len();
        }
        proof {
            assert(texts.take(items@.len() as int) =~= texts);
        }
        (storage_items, item_ranges)
    }

    /// Number of indexed items.
    pub fn len(&self) -> (r: usize)
        requires
            self.wf(),
        ensures
            r == self.texts().len(),
    {
        self.item_ranges.len()
    }

    /// The text of item `idx`, or `None` where there is no such item.
    pub fn get_item(&self, idx: usize) -> (r: Option<&str>)
        requires
            self.wf(),
        ensures
            idx < self.texts().len() ==> r is Some && r->0@ == self.texts()[idx as int],
            idx >= self.texts().len() ==> r is None,
    {
        if idx >= self.item_ranges.len() {
            return None;
        }
        Some(self.get_item_unchecked(idx))
    }

    /// The text of item `idx`, which must exist.
    pub fn get_item_unchecked(&self, idx: usize) -> (r: &str)
        requires
            self.wf(),
            idx < self.texts().len(),
        ensures
            r@ == self.texts()[idx as int],
    {
        let (start, end) = self.item_ranges[idx];
        let ghost texts = self.texts();
        let ghost before = concat_all(texts.take(idx as int));
        let ghost t = texts[idx as int];
        let ghost after = concat_all(texts.skip(idx + 1));
        proof {
            lemma_concat_split(texts, idx + 1);
            assert(texts.take(idx + 1).drop_last() =~= texts.take(idx as int));
            assert(self.items@ =~= before + (t + after));
            lemma_encode_concat(before, t + after);
            lemma_encode_concat(t, after);
            lemma_encode_concat(before, t);
            lemma_boundary_after(before, t + after);
            lemma_boundary_after(t, after);
        }
        let (_, rest) = self.items.as_str().split_at(start);
        proof {
            assert(rest.spec_bytes() =~= encode_utf8(t + after));
        }
        let (item, _) = rest.split_at(end - start);
        proof {
            assert(item.spec_bytes() =~= encode_utf8(t));
            lemma_encode_injective(item@, t);
        }
        item
    }

    /// The characters of item `idx`.
    pub fn item_chars(&self, idx: usize) -> (r: &Vec<char>)
        requires
            self.wf(),
            idx < self.texts().len(),
        ensures
            r@ == self.texts()[idx as int],
    {
        &self.chars[idx]
    }
}

proof fn lemma_same_multiset(a: Seq<Suffix>, b: Seq<Suffix>)
    requires
        a.to_multiset() == b.to_multiset(),
    ensures
        a.len() == b.len(),
        forall|x: Suffix| a.contains(x) <==> b.contains(x),
{
    vstd::seq_lib::to_multiset_len(a);
    vstd::seq_lib::to_multiset_len(b);
    assert forall|x: Suffix| a.contains(x) <==> b.contains(x) by {
        vstd::seq_lib::to_multiset_contains(a, x);
        vstd::seq_lib::to_multiset_contains(b, x);
    }
}

/// The characters of `s`.
pub fn chars_of(s: &str) -> (r: Vec<char>)
    ensures
        r@ == s@,
{
    let mut r: Vec<char> = Vec::new();
    for c in it: s.chars()
        invariant
            r@ == it.seq().take(it.index() as int),
    {
        r.push(c);
    }
    r
}

/// One suffix for each character of each text, item by item.
fn enumerate_suffixes(chars: &Vec<Vec<char>>) -> (r: Vec<Suffix>)
    ensures
        r@.len() == total_len(views(chars@)),
        forall|k: int| 0 <= k < r@.len() ==> is_suffix_in(views(chars@), #[trigger] r@[k]),
        forall|s: Suffix| is_suffix_in(views(chars@), s) ==> #[trigger] r@.contains(s),
{
    let ghost texts = views(chars@);
    let mut suffixes: Vec<Suffix> = Vec::new();
    for item in 0..chars.len()
        invariant
            texts == views(chars@),
            suffixes@.len() == total_len(texts.take(item as int)),
            forall|k: int|
                0 <= k < suffixes@.len() ==> is_suffix_in(texts, #[trigger] suffixes@[k]),
            forall|s: Suffix|
                is_suffix_in(texts, s) && s.item < item ==> #[trigger] suffixes@.contains(s),
    {
        let ghost prev_len = suffixes@.len();
        let n = chars[item].len();
        for start in 0..n
            invariant
                texts == views(chars@),
                n == texts[item as int].len(),
                item < texts.len(),
                suffixes@.len() == prev_len + start,
                forall|k: int|
                    0 <= k < suffixes@.len() ==> is_suffix_in(texts, #[trigger] suffixes@[k]),
                forall|s: Suffix|
                    is_suffix_in(texts, s) && (s.item < item || (s.item == item && s.start
                        < start)) ==> #[trigger] suffixes@.contains(s),
        {
            let ghost old_suffixes = suffixes@;
            suffixes.push(Suffix { item, start });
            proof {
                assert(suffixes@[suffixes@.len() - 1] == (Suffix { item, start }));
                assert forall|s: Suffix|
                    is_suffix_in(texts, s) && (s.item < item || (s.item == item && s.start
                        <= start)) implies #[trigger] suffixes@.contains(s) by {
                    if s == (Suffix { item, start }) {
                        assert(suffixes@[suffixes@.len() - 1] == s);
                    } else {
                        assert(old_suffixes.contains(s));
                        let k = choose|k: int| 0 <= k < old_suffixes.len() && old_suffixes[k] == s;
                        assert(suffixes@[k] == s);
                    }
                }
            }
        }
        proof {
            assert(texts.take(item + 1).drop_last() =~= texts.take(item as int));
        }
    }
    proof {
        assert(texts.take(chars@.len() as int) =~= texts);
    }
    suffixes
}

/// Orders two suffixes of `chars` by their texts.
fn compare_suffixes(chars: &Vec<Vec<char>>, a: &Suffix, b: &Suffix) -> (r: core::cmp::Ordering)
    requires
        is_suffix_in(views(chars@), *a),
        is_suffix_in(views(chars@), *b),
    ensures
        r == core::cmp::Ordering::Less <==> !lex_le(
            suffix_text(views(chars@), *b),
            suffix_text(views(chars@), *a),
        ),
        r == core::cmp::Ordering::Greater <==> !lex_le(
            suffix_text(views(chars@), *a),
            suffix_text(views(chars@), *b),
        ),
{
    compare_from(&chars[a.item], a.start, &chars[b.item], b.start)
}

/// Each suffix's text sorts no later than that of any suffix after it.
pub open spec fn sorted_in(texts: Seq<Seq<char>>, s: Seq<Suffix>) -> bool {
    forall|i: int, k: int|
        0 <= i < k < s.len() ==> lex_le(
            suffix_text(texts, #[trigger] s[i]),
            suffix_text(texts, #[trigger] s[k]),
        )
}

/// Every entry of `s` is a suffix of one of the `texts`.
pub open spec fn all_suffixes_in(texts: Seq<Seq<char>>, s: Seq<Suffix>) -> bool {
    forall|k: int| 0 <= k < s.len() ==> is_suffix_in(texts, #[trigger] s[k])
}

/// `suffixes[lo..hi]`, merge-sorted by their texts.
fn sort_range(suffixes: &Vec<Suffix>, lo: usize, hi: usize, chars: &Vec<Vec<char>>) -> (r: Vec<
    Suffix,
>)
    requires
        lo <= hi <= suffixes@.len(),
        all_suffixes_in(views(chars@), suffixes@),
    ensures
        r@.to_multiset() == suffixes@.subrange(lo as int, hi as int).to_multiset(),
        sorted_in(views(chars@), r@),
        all_suffixes_in(views(chars@), r@),
    decreases hi - lo,
{
    if hi - lo <= 1 {
        let mut r: Vec<Suffix> = Vec::new();
        if hi - lo == 1 {
            r.push(suffixes[lo]);
        }
        proof {
            assert(r@ =~= suffixes@.subrange(lo as int, hi as int));
        }
        return r;
    }
    let mid = lo + (hi - lo) / 2;
    let left = sort_range(suffixes, lo, mid, chars);
    let right = sort_range(suffixes, mid, hi, chars);
    proof {
        assert(suffixes@.subrange(lo as int, hi as int) =~= suffixes@.subrange(lo as int, mid as int)
            + suffixes@.subrange(mid as int, hi as int));
        vstd::seq_lib::lemma_multiset_commutative(
            suffixes@.subrange(lo as int, mid as int),
            suffixes@.subrange(mid as int, hi as int),
        );
    }
    merge(&left, &right, chars)
}

/// The entries of two sorted runs, merged into one sorted run; on equal texts the left
/// run's entry comes first.
fn merge(left: &Vec<Suffix>, right: &Vec<Suffix>, chars: &Vec<Vec<char>>) -> (r: Vec<Suffix>)
    requires
        sorted_in(views(chars@), left@),
        sorted_in(views(chars@), right@),
        all_suffixes_in(views(chars@), left@),
        all_suffixes_in(views(chars@), right@),
    ensures
        r@.to_multiset() == left@.to_multiset().add(right@.to_multiset()),
        sorted_in(views(chars@), r@),
        all_suffixes_in(views(chars@), r@),
{
    let ghost texts = views(chars@);
    let mut r: Vec<Suffix> = Vec::new();
    let mut i: usize = 0;
    let mut j: usize = 0;
    proof {
        broadcast use vstd::multiset::group_multiset_axioms;

        assert(left@.subrange(0, 0) =~= Seq::<Suffix>::empty());
        assert(right@.subrange(0, 0) =~= Seq::<Suffix>::empty());
        assert(r@ =~= Seq::<Suffix>::empty());
        vstd::seq_lib::to_multiset_len(Seq::<Suffix>::empty());
        assert(Seq::<Suffix>::empty().to_multiset() =~= vstd::multiset::Multiset::<Suffix>::empty());
        assert(r@.to_multiset() =~= left@.subrange(0, 0).to_multiset().add(
            right@.subrange(0, 0).to_multiset(),
        ));
    }
    while i < left.len() || j < right.len()
        invariant
            texts == views(chars@),
            sorted_in(texts, left@),
            sorted_in(texts, right@),
            all_suffixes_in(texts, left@),
            all_suffixes_in(texts, right@),
            i <= left@.len(),
            j <= right@.len(),
            r@.to_multiset() == left@.subrange(0, i as int).to_multiset().add(
                right@.subrange(0, j as int).to_multiset(),
            ),
            sorted_in(texts, r@),
            all_suffixes_in(texts, r@),
            forall|k: int, i2: int|
                0 <= k < r@.len() && i <= i2 < left@.len() ==> lex_le(
                    suffix_text(texts, #[trigger] r@[k]),
                    suffix_text(texts, #[trigger] left@[i2]),
                ),
            forall|k: int, j2: int|
                0 <= k < r@.len() && j <= j2 < right@.len() ==> lex_le(
                    suffix_text(texts, #[trigger] r@[k]),
                    suffix_text(texts, #[trigger] right@[j2]),
                ),
        decreases left@.len() + right@.len() - i - j,
    {
        let take_left = if i == left.len() {
            false
        } else if j == right.len() {
            true
        } else {
            match compare_suffixes(chars, &left[i], &right[j]) {
                core::cmp::Ordering::Greater => false,
                _ => true,
            }
        };
        let ghost old_r = r@;
        if take_left {
            let x = left[i];
            r.push(x);
            proof {
                assert(left@.subrange(0, i + 1) =~= left@.subrange(0, i as int).push(x));
                vstd::seq_lib::to_multiset_build(old_r, x);
                vstd::seq_lib::to_multiset_build(left@.subrange(0, i as int), x);
                assert forall|k: int, i2: int|
                    0 <= k < r@.len() && i + 1 <= i2 < left@.len() implies lex_le(
                    suffix_text(texts, #[trigger] r@[k]),
                    suffix_text(texts, #[trigger] left@[i2]),
                ) by {
                    if k == old_r.len() {
                        assert(lex_le(suffix_text(texts, left@[i as int]), suffix_text(texts, left@[i2])));
                    } else {
                        assert(r@[k] == old_r[k]);
                    }
                }
                assert forall|k: int, j2: int|
                    0 <= k < r@.len() && j <= j2 < right@.len() implies lex_le(
                    suffix_text(texts, #[trigger] r@[k]),
                    suffix_text(texts, #[trigger] right@[j2]),
                ) by {
                    if k == old_r.len() {
                        let a = suffix_text(texts, x);
                        let b = suffix_text(texts, right@[j as int]);
                        let c = suffix_text(texts, right@[j2]);
                        assert(lex_le(a, b));
                        if j2 > j {
                            assert(lex_le(b, c));
                            lemma_lex_chain(a, b, c);
                        }
                    } else {
                        assert(r@[k] == old_r[k]);
                    }
                }
                assert forall|k1: int, k2: int| 0 <= k1 < k2 < r@.len() implies lex_le(
                    suffix_text(texts, #[trigger] r@[k1]),
                    suffix_text(texts, #[trigger] r@[k2]),
                ) by {
                    assert(r@[k1] == old_r[k1]);
                    if k2 < old_r.len() {
                        assert(r@[k2] == old_r[k2]);
                    }
                }
                assert(r@.to_multiset() =~= left@.subrange(0, i + 1).to_multiset().add(
                    right@.subrange(0, j as int).to_multiset(),
                ));
            }
            i = i + 1;
        } else {
            let x = right[j];
            r.push(x);
            proof {
                assert(right@.subrange(0, j + 1) =~= right@.subrange(0, j as int).push(x));
                vstd::seq_lib::to_multiset_build(old_r, x);
                vstd::seq_lib::to_multiset_build(right@.subrange(0, j as int), x);
                assert forall|k: int, j2: int|
                    0 <= k < r@.len() && j + 1 <= j2 < right@.len() implies lex_le(
                    suffix_text(texts, #[trigger] r@[k]),
                    suffix_text(texts, #[trigger] right@[j2]),
                ) by {
                    if k == old_r.len() {
                        assert(lex_le(suffix_text(texts, right@[j as int]), suffix_text(texts, right@[j2])));
                    } else {
                        assert(r@[k] == old_r[k]);
                    }
                }
                assert forall|k: int, i2: int|
                    0 <= k < r@.len() && i <= i2 < left@.len() implies lex_le(
                    suffix_text(texts, #[trigger] r@[k]),
                    suffix_text(texts, #[trigger] left@[i2]),
                ) by {
                    if k == old_r.len() {
                        let a = suffix_text(texts, x);
                        let b = suffix_text(texts, left@[i as int]);
                        let c = suffix_text(texts, left@[i2]);
                        lemma_lex_total(a, b);
                        assert(lex_le(a, b));
                        if i2 > i {
                            assert(lex_le(b, c));
                            lemma_lex_chain(a, b, c);
                        }
                    } else {
                        assert(r@[k] == old_r[k]);
                    }
                }
                assert forall|k1: int, k2: int| 0 <= k1 < k2 < r@.len() implies lex_le(
                    suffix_text(texts, #[trigger] r@[k1]),
                    suffix_text(texts, #[trigger] r@[k2]),
                ) by {
                    assert(r@[k1] == old_r[k1]);
                    if k2 < old_r.len() {
                        assert(r@[k2] == old_r[k2]);
                    }
                }
                assert(r@.to_multiset() =~= left@.subrange(0, i as int).to_multiset().add(
                    right@.subrange(0, j + 1).to_multiset(),
                ));
            }
            j = j + 1;
        }
    }
    proof {
        assert(left@.subrange(0, i as int) =~= left@);
        assert(right@.subrange(0, j as int) =~= right@);
    }
    r
}

/// A zero, the common prefix length of each pair of neighbours in `suffixes`, and a zero.
fn build_lcp_array(suffixes: &Vec<Suffix>, chars: &Vec<Vec<char>>) -> (r: Vec<usize>)
    requires
        forall|k: int|
            0 <= k < suffixes@.len() ==> is_suffix_in(views(chars@), #[trigger] suffixes@[k]),
    ensures
        r@.len() == if suffixes@.len() == 0 {
            2
        } else {
            suffixes@.len() + 1
        },
        r@[0] == 0,
        r@.last() == 0,
        forall|i: int|
            0 < i < suffixes@.len() ==> #[trigger] r@[i] == common_prefix_len(
                suffix_text(views(chars@), suffixes@[i - 1]),
                suffix_text(views(chars@), suffixes@[i]),
            ),
{
    let ghost texts = views(chars@);
    let mut lcp_array: Vec<usize> = vec![0];
    let mut i: usize = 1;
    while i < suffixes.len()
        invariant
            texts == views(chars@),
            forall|k: int| 0 <= k < suffixes@.len() ==> is_suffix_in(texts, #[trigger] suffixes@[k]),
            1 <= i,
            i <= suffixes@.len() || (i == 1 && suffixes@.len() == 0),
            lcp_array@.len() == i,
            lcp_array@[0] == 0,
            forall|k: int|
                0 < k < i ==> #[trigger] lcp_array@[k] == common_prefix_len(
                    suffix_text(texts, suffixes@[k - 1]),
                    suffix_text(texts, suffixes@[k]),
                ),
        decreases suffixes.len() - i,
    {
        let a = suffixes[i - 1];
        let b = suffixes[i];
        let n = get_longest_common_prefix(&chars[a.item], a.start, &chars[b.item], b.start);
        lcp_array.push(n);
        i = i + 1;
    }
    lcp_array.push(0);
    lcp_array
}

} // verus!
