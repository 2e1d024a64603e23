use vstd::prelude::*;

verus! {

/// Number of leading characters that `a` and `b` share.
pub open spec fn common_prefix_len(a: Seq<char>, b: Seq<char>) -> nat
    decreases a.len(),
{
    if a.len() == 0 || b.len() == 0 || a[0] != b[0] {
        0
    } else {
        1 + common_prefix_len(a.drop_first(), b.drop_first())
    }
}

/// `a` and `b` agree on their first `n` characters, and at `n` one of them ends or they differ.
pub open spec fn parts_at(a: Seq<char>, b: Seq<char>, n: int) -> bool {
    &&& 0 <= n <= a.len()
    &&& n <= b.len()
    &&& forall|k: int| 0 <= k < n ==> a[k] == b[k]
    &&& (n == a.len() || n == b.len() || a[n] != b[n])
}

/// Lexicographic order on character sequences, by code point, a prefix sorting first.
pub open spec fn lex_le(a: Seq<char>, b: Seq<char>) -> bool {
    let n = common_prefix_len(a, b) as int;
    n == a.len() || (n < b.len() && (a[n] as u32) < (b[n] as u32))
}

/// Two sequences agree up to their common prefix length and part there.
pub proof fn lemma_common_prefix_len(a: Seq<char>, b: Seq<char>)
    ensures
        parts_at(a, b, common_prefix_len(a, b) as int),
    decreases a.len(),
{
    if a.len() == 0 || b.len() == 0 || a[0] != b[0] {
    } else {
        lemma_common_prefix_len(a.drop_first(), b.drop_first());
        let n = common_prefix_len(a, b) as int;
        assert forall|k: int| 0 <= k < n implies a[k] == b[k] by {
            if k > 0 {
                assert(a.drop_first()[k - 1] == b.drop_first()[k - 1]);
            }
        }
        if n < a.len() && n < b.len() {
            assert(a.drop_first()[n - 1] != b.drop_first()[n - 1]);
        }
    }
}

/// The place where two sequences part is unique, and is their common prefix length.
pub proof fn lemma_parts_at_unique(a: Seq<char>, b: Seq<char>, n: int)
    requires
        parts_at(a, b, n),
    ensures
        n == common_prefix_len(a, b),
{
    lemma_common_prefix_len(a, b);
    let m = common_prefix_len(a, b) as int;
    if n < m {
        assert(a[n] == b[n]);
    } else if m < n {
        assert(a[m] == b[m]);
    }
}

/// The common prefix length does not depend on the order of the two sequences.
pub proof fn lemma_common_prefix_len_symmetric(a: Seq<char>, b: Seq<char>)
    ensures
        common_prefix_len(a, b) == common_prefix_len(b, a),
{
    lemma_common_prefix_len(a, b);
    lemma_parts_at_unique(b, a, common_prefix_len(a, b) as int);
}

/// A common prefix is no longer than either sequence.
pub proof fn lemma_common_prefix_len_bounded(a: Seq<char>, b: Seq<char>)
    ensures
        common_prefix_len(a, b) <= a.len(),
        common_prefix_len(a, b) <= b.len(),
{
    lemma_common_prefix_len(a, b);
}

/// A sequence shares all of itself with itself, and sorts no later than itself.
pub proof fn lemma_common_prefix_len_self(a: Seq<char>)
    ensures
        common_prefix_len(a, a) == a.len(),
        lex_le(a, a),
{
    lemma_parts_at_unique(a, a, a.len() as int);
}

/// Any two sequences are ordered one way or the other.
pub proof fn lemma_lex_total(a: Seq<char>, b: Seq<char>)
    ensures
        lex_le(a, b) || lex_le(b, a),
{
    lemma_common_prefix_len(a, b);
    lemma_common_prefix_len_symmetric(a, b);
    let n = common_prefix_len(a, b) as int;
    if n < a.len() && n < b.len() {
        vstd::utf8::char_u32_cast(a[n], a[n] as u32);
        vstd::utf8::char_u32_cast(b[n], b[n] as u32);
    }
}

/// For `a <= b <= c`, the common prefix of `a` and `c` is the shorter of the two neighbouring
/// ones, and `a <= c`.
pub proof fn lemma_lex_chain(a: Seq<char>, b: Seq<char>, c: Seq<char>)
    requires
        lex_le(a, b),
        lex_le(b, c),
    ensures
        common_prefix_len(a, c) == if common_prefix_len(a, b) <= common_prefix_len(b, c) {
            common_prefix_len(a, b)
        } else {
            common_prefix_len(b, c)
        },
        lex_le(a, c),
{
    lemma_common_prefix_len(a, b);
    lemma_common_prefix_len(b, c);
    let x = common_prefix_len(a, b) as int;
    let y = common_prefix_len(b, c) as int;
    let n = if x <= y {
        x
    } else {
        y
    };
    assert forall|k: int| 0 <= k < n implies a[k] == c[k] by {
        assert(a[k] == b[k]);
        assert(b[k] == c[k]);
    }
    if x < y {
        if x < a.len() {
            assert(b[x] == c[x]);
        }
    } else if y < x {
        assert(a[y] == b[y]);
    } else {
        if x < a.len() {
            assert((a[x] as u32) < (b[x] as u32));
            assert((b[x] as u32) < (c[x] as u32));
        }
    }
    assert(parts_at(a, c, n));
    lemma_parts_at_unique(a, c, n);
}

/// Common prefix length of `a[a_start..]` and `b[b_start..]`.
pub fn get_longest_common_prefix(a: &Vec<char>, a_start: usize, b: &Vec<char>, b_start: usize) -> (n:
    usize)
    requires
        a_start <= a.len(),
        b_start <= b.len(),
    ensures
        n == common_prefix_len(a@.skip(a_start as int), b@.skip(b_start as int)),
{
    let ghost sa = a@.skip(a_start as int);
    let ghost sb = b@.skip(b_start as int);
    let mut n: usize = 0;
    while a_start + n < a.len() && b_start + n < b.len() && a[a_start + n] == b[b_start + n]
        invariant
            a_start + n <= a.len(),
            b_start + n <= b.len(),
            sa == a@.skip(a_start as int),
            sb == b@.skip(b_start as int),
            forall|k: int| 0 <= k < n ==> sa[k] == sb[k],
        decreases a.len() - n,
    {
        n = n + 1;
    }
    proof {
        assert(parts_at(sa, sb, n as int));
        lemma_parts_at_unique(sa, sb, n as int);
    }
    n
}

/// Whether `a[a_start..]` sorts no later than `b[b_start..]`.
pub fn lex_le_from(a: &Vec<char>, a_start: usize, b: &Vec<char>, b_start: usize) -> (r: bool)
    requires
        a_start <= a.len(),
        b_start <= b.len(),
    ensures
        r == lex_le(a@.skip(a_start as int), b@.skip(b_start as int)),
{
    let n = get_longest_common_prefix(a, a_start, b, b_start);
    proof {
        lemma_common_prefix_len_bounded(a@.skip(a_start as int), b@.skip(b_start as int));
    }
    if a_start + n == a.len() {
        true
    } else if b_start + n == b.len() {
        false
    } else {
        (a[a_start + n] as u32) < (b[b_start + n] as u32)
    }
}

/// Three-way comparison of `a[a_start..]` and `b[b_start..]` in lexicographic order.
pub fn compare_from(a: &Vec<char>, a_start: usize, b: &Vec<char>, b_start: usize) -> (r:
    core::cmp::Ordering)
    requires
        a_start <= a.len(),
        b_start <= b.len(),
    ensures
        r == core::cmp::Ordering::Less <==> !lex_le(b@.skip(b_start as int), a@.skip(a_start as int)),
        r == core::cmp::Ordering::Greater <==> !lex_le(a@.skip(a_start as int), b@.skip(b_start as int)),
{
    proof {
        lemma_lex_total(a@.skip(a_start as int), b@.skip(b_start as int));
    }
    let le = lex_le_from(a, a_start, b, b_start);
    let ge = lex_le_from(b, b_start, a, a_start);
    if le && ge {
        core::cmp::Ordering::Equal
    } else if le {
        core::cmp::Ordering::Less
    } else {
        core::cmp::Ordering::Greater
    }
}

} // verus!
