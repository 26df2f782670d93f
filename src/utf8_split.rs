use vstd::prelude::*;
use vstd::utf8::*;

verus! {

/// Encoding a concatenation encodes each part in turn.
pub proof fn lemma_encode_concat(a: Seq<char>, b: Seq<char>)
    ensures
        encode_utf8(a + b) == encode_utf8(a) + encode_utf8(b),
    decreases a.len(),
{
    if a.len() == 0 {
        assert(a + b =~= b);
        assert(encode_utf8(a) + encode_utf8(b) =~= encode_utf8(b));
    } else {
        assert((a + b).drop_first() =~= a.drop_first() + b);
        lemma_encode_concat(a.drop_first(), b);
        assert(encode_utf8(a + b) =~= encode_utf8(a) + encode_utf8(b));
    }
}

/// Two texts with the same encoding are the same text.
pub proof fn lemma_encode_injective(a: Seq<char>, b: Seq<char>)
    requires
        encode_utf8(a) == encode_utf8(b),
    ensures
        a == b,
{
    encode_utf8_decode_utf8(a);
    encode_utf8_decode_utf8(b);
}

/// Every character takes at least one byte.
pub proof fn lemma_encode_len(s: Seq<char>)
    ensures
        encode_utf8(s).len() >= s.len(),
    decreases s.len(),
{
    if s.len() > 0 {
        lemma_encode_len(s.drop_first());
    }
}

/// The end of an encoded prefix is a character boundary of the whole encoding.
pub proof fn lemma_prefix_boundary(a: Seq<char>, b: Seq<char>)
    ensures
        is_char_boundary(encode_utf8(a + b), encode_utf8(a).len() as int),
    decreases a.len(),
{
    broadcast use encode_utf8_valid_utf8;

    if a.len() > 0 {
        let ab = a + b;
        let bytes = encode_utf8(ab);
        encode_utf8_first_scalar(ab);
        assert(ab.drop_first() =~= a.drop_first() + b);
        assert(pop_first_scalar(bytes) =~= encode_utf8(a.drop_first() + b));
        lemma_prefix_boundary(a.drop_first(), b);
        lemma_encode_len(a);
        assert(encode_utf8(a).len() == encode_scalar(a[0] as u32).len() + encode_utf8(
            a.drop_first(),
        ).len());
    }
}

/// Splitting a text at the byte offset of its `k`-th character: the offset is a
/// character boundary, and the two byte ranges encode the two character ranges.
pub proof fn lemma_split_at_char(s: Seq<char>, k: int)
    requires
        0 <= k <= s.len(),
    ensures
        is_char_boundary(encode_utf8(s), encode_utf8(s.take(k)).len() as int),
        encode_utf8(s).subrange(0, encode_utf8(s.take(k)).len() as int) == encode_utf8(s.take(k)),
        encode_utf8(s).subrange(encode_utf8(s.take(k)).len() as int, encode_utf8(s).len() as int)
            == encode_utf8(s.skip(k)),
        encode_utf8(s).len() == encode_utf8(s.take(k)).len() + encode_utf8(s.skip(k)).len(),
        k == 0 <==> encode_utf8(s.take(k)).len() == 0,
        k == s.len() <==> encode_utf8(s.take(k)).len() == encode_utf8(s).len(),
{
    assert(s =~= s.take(k) + s.skip(k));
    lemma_encode_concat(s.take(k), s.skip(k));
    lemma_prefix_boundary(s.take(k), s.skip(k));
    lemma_encode_len(s.take(k));
    lemma_encode_len(s.skip(k));
    assert(encode_utf8(s).subrange(0, encode_utf8(s.take(k)).len() as int) =~= encode_utf8(
        s.take(k),
    ));
    assert(encode_utf8(s).subrange(
        encode_utf8(s.take(k)).len() as int,
        encode_utf8(s).len() as int,
    ) =~= encode_utf8(s.skip(k)));
    if k == 0 {
        assert(s.take(k) =~= Seq::<char>::empty());
    }
    if k == s.len() {
        assert(s.skip(k) =~= Seq::<char>::empty());
    }
}

} // verus!
