use vstd::prelude::*;
use vstd::utf8::*;

verus! {

/// UTF-8 encodes a concatenation piece by piece.
pub proof fn lemma_encode_concat(x: Seq<char>, y: Seq<char>)
    ensures
        encode_utf8(x + y) == encode_utf8(x) + encode_utf8(y),
    decreases x.len(),
{
    if x.len() == 0 {
        assert(x + y =~= y);
        assert(encode_utf8(x) + encode_utf8(y) =~= encode_utf8(y));
    } else {
        assert((x + y).drop_first() =~= x.drop_first() + y);
        assert((x + y)[0] == x[0]);
        lemma_encode_concat(x.drop_first(), y);
        assert(encode_utf8(x + y) =~= encode_utf8(x) + encode_utf8(y));
    }
}

/// The encoding of `x` ends on a character boundary of the encoding of `x + y`.
pub proof fn lemma_boundary_after(x: Seq<char>, y: Seq<char>)
    ensures
        is_char_boundary(encode_utf8(x + y), encode_utf8(x).len() as int),
    decreases x.len(),
{
    broadcast use encode_utf8_valid_utf8;

    if x.len() > 0 {
        let xy = x + y;
        assert(xy.drop_first() =~= x.drop_first() + y);
        assert(xy[0] == x[0]);
        encode_utf8_first_scalar(xy);
        let bytes = encode_utf8(xy);
        assert(pop_first_scalar(bytes) =~= encode_utf8(xy.drop_first()));
        lemma_boundary_after(x.drop_first(), y);
        assert(encode_scalar(x[0] as u32).len() > 0);
    }
}

/// Two character sequences with the same encoding are equal.
pub proof fn lemma_encode_injective(x: Seq<char>, y: Seq<char>)
    requires
        encode_utf8(x) == encode_utf8(y),
    ensures
        x == y,
{
    encode_utf8_decode_utf8(x);
    encode_utf8_decode_utf8(y);
}

} // verus!
