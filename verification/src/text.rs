//! Text as the store compares it: by the bytes of its UTF-8 encoding.
//!
//! Dates are kept as `YYYY-MM-DD` text and timestamps as date-time text, so
//! the order of the encoded bytes is the calendar order.

use vstd::prelude::*;
use vstd::utf8::*;
use vstd::string::*;

verus! {

/// `a` comes strictly before `b` in lexicographic order.
pub open spec fn bytes_lt(a: Seq<u8>, b: Seq<u8>) -> bool
    decreases a.len(),
{
    if b.len() == 0 {
        false
    } else if a.len() == 0 {
        true
    } else if a[0] != b[0] {
        a[0] < b[0]
    } else {
        bytes_lt(a.drop_first(), b.drop_first())
    }
}

/// `a` comes strictly before `b` when both are compared as UTF-8 bytes.
pub open spec fn text_lt(a: Seq<char>, b: Seq<char>) -> bool {
    bytes_lt(encode_utf8(a), encode_utf8(b))
}

/// `a` comes before `b`, or is the same text.
pub open spec fn text_le(a: Seq<char>, b: Seq<char>) -> bool {
    a == b || text_lt(a, b)
}

/// No byte string comes before itself.
pub proof fn lemma_bytes_lt_irreflexive(a: Seq<u8>)
    ensures
        !bytes_lt(a, a),
    decreases a.len(),
{
    if a.len() > 0 {
        lemma_bytes_lt_irreflexive(a.drop_first());
    }
}

/// Of two byte strings, at most one comes before the other.
pub proof fn lemma_bytes_lt_asymmetric(a: Seq<u8>, b: Seq<u8>)
    requires
        bytes_lt(a, b),
    ensures
        !bytes_lt(b, a),
    decreases a.len(),
{
    if a.len() > 0 && b.len() > 0 && a[0] == b[0] {
        lemma_bytes_lt_asymmetric(a.drop_first(), b.drop_first());
    }
}

/// The order on byte strings is transitive.
pub proof fn lemma_bytes_lt_transitive(a: Seq<u8>, b: Seq<u8>, c: Seq<u8>)
    requires
        bytes_lt(a, b),
        bytes_lt(b, c),
    ensures
        bytes_lt(a, c),
    decreases a.len(),
{
    if a.len() > 0 && a[0] == b[0] && b[0] == c[0] {
        lemma_bytes_lt_transitive(a.drop_first(), b.drop_first(), c.drop_first());
    }
}

/// Two different byte strings are ordered one way or the other.
pub proof fn lemma_bytes_lt_total(a: Seq<u8>, b: Seq<u8>)
    requires
        a != b,
    ensures
        bytes_lt(a, b) || bytes_lt(b, a),
    decreases a.len(),
{
    if a.len() > 0 && b.len() > 0 && a[0] == b[0] {
        if a.drop_first() == b.drop_first() {
            assert(a =~= seq![a[0]] + a.drop_first());
            assert(b =~= seq![b[0]] + b.drop_first());
        }
        lemma_bytes_lt_total(a.drop_first(), b.drop_first());
    } else if a.len() == 0 && b.len() == 0 {
        assert(a =~= b);
    }
}

/// Different texts have different encodings.
pub proof fn lemma_encoding_distinct(a: Seq<char>, b: Seq<char>)
    requires
        a != b,
    ensures
        encode_utf8(a) != encode_utf8(b),
{
    encode_utf8_decode_utf8(a);
    encode_utf8_decode_utf8(b);
}

/// No text comes before itself.
pub proof fn lemma_text_lt_irreflexive(a: Seq<char>)
    ensures
        !text_lt(a, a),
{
    lemma_bytes_lt_irreflexive(encode_utf8(a));
}

/// Of two texts, at most one comes before the other.
pub proof fn lemma_text_lt_asymmetric(a: Seq<char>, b: Seq<char>)
    requires
        text_lt(a, b),
    ensures
        !text_lt(b, a),
        a != b,
{
    lemma_bytes_lt_asymmetric(encode_utf8(a), encode_utf8(b));
    lemma_bytes_lt_irreflexive(encode_utf8(a));
}

/// The order on texts is transitive.
pub proof fn lemma_text_lt_transitive(a: Seq<char>, b: Seq<char>, c: Seq<char>)
    requires
        text_lt(a, b),
        text_lt(b, c),
    ensures
        text_lt(a, c),
{
    lemma_bytes_lt_transitive(encode_utf8(a), encode_utf8(b), encode_utf8(c));
}

/// Two different texts are ordered one way or the other.
pub proof fn lemma_text_lt_total(a: Seq<char>, b: Seq<char>)
    ensures
        a == b || text_lt(a, b) || text_lt(b, a),
{
    if a != b {
        lemma_encoding_distinct(a, b);
        lemma_bytes_lt_total(encode_utf8(a), encode_utf8(b));
    }
}

/// `a <= b` and `b < c` give `a < c`; so do `a < b` and `b <= c`.
pub proof fn lemma_text_le_lt(a: Seq<char>, b: Seq<char>, c: Seq<char>)
    requires
        (text_le(a, b) && text_lt(b, c)) || (text_lt(a, b) && text_le(b, c)),
    ensures
        text_lt(a, c),
{
    if a != b && b != c {
        lemma_text_lt_transitive(a, b, c);
    }
}

/// `!(b < a)` says the same as `a <= b`.
pub proof fn lemma_text_not_lt(a: Seq<char>, b: Seq<char>)
    ensures
        !text_lt(b, a) <==> text_le(a, b),
{
    lemma_text_lt_total(a, b);
    if text_lt(a, b) {
        lemma_text_lt_asymmetric(a, b);
    }
    if a == b {
        lemma_text_lt_irreflexive(a);
    }
}

/// A text begins with another exactly when its encoding begins with the
/// other's encoding.
pub proof fn lemma_prefix_encoding(prefix: Seq<char>, text: Seq<char>)
    ensures
        encode_utf8(prefix).is_prefix_of(encode_utf8(text)) <==> prefix.is_prefix_of(text),
    decreases prefix.len(),
{
    let p = encode_utf8(prefix);
    let t = encode_utf8(text);
    if prefix.len() == 0 {
        assert(p =~= t.subrange(0, 0));
        assert(prefix =~= text.subrange(0, 0));
    } else if text.len() == 0 {
        encode_utf8_first_scalar(prefix);
    } else {
        encode_utf8_first_scalar(prefix);
        encode_utf8_first_scalar(text);
        let prefix_rest = prefix.drop_first();
        let text_rest = text.drop_first();
        let p_head = encode_scalar(prefix[0] as u32);
        let t_head = encode_scalar(text[0] as u32);
        lemma_prefix_encoding(prefix_rest, text_rest);
        assert(p =~= p_head + encode_utf8(prefix_rest));
        assert(t =~= t_head + encode_utf8(text_rest));
        if p.is_prefix_of(t) {
            assert(forall|k: int| 0 <= k < p.len() ==> p[k] == t.subrange(0, p.len() as int)[k]);
            assert(p[0] == t[0]);
            assert(p_head.len() == t_head.len());
            assert(decode_first_scalar(p) == decode_first_scalar(t));
            char_u32_cast(prefix[0], decode_first_scalar(p));
            char_u32_cast(text[0], decode_first_scalar(t));
            assert(prefix[0] == text[0]);
            assert(encode_utf8(prefix_rest) =~= p.subrange(p_head.len() as int, p.len() as int));
            assert(encode_utf8(text_rest) =~= t.subrange(t_head.len() as int, t.len() as int));
            assert(encode_utf8(prefix_rest).is_prefix_of(encode_utf8(text_rest)));
            assert(prefix =~= text.subrange(0, prefix.len() as int)) by {
                assert(prefix_rest =~= text_rest.subrange(0, prefix_rest.len() as int));
                assert forall|k: int| 0 <= k < prefix.len() implies prefix[k] == text[k] by {
                    if k > 0 {
                        assert(prefix[k] == prefix_rest[k - 1]);
                        assert(text_rest.subrange(0, prefix_rest.len() as int)[k - 1] == text[k]);
                    }
                }
            }
        }
        if prefix.is_prefix_of(text) {
            assert(prefix[0] == text.subrange(0, prefix.len() as int)[0]);
            assert(prefix_rest =~= text_rest.subrange(0, prefix_rest.len() as int));
            assert(p =~= t.subrange(0, p.len() as int));
        }
    }
}

/// Whether `text` begins with `prefix`.
pub fn starts_with(text: &str, prefix: &str) -> (r: bool)
    ensures
        r == prefix@.is_prefix_of(text@),
{
    let t = text.as_bytes();
    let p = prefix.as_bytes();
    proof {
        lemma_prefix_encoding(prefix@, text@);
    }
    if p.len() > t.len() {
        return false;
    }
    let mut i: usize = 0;
    while i < p.len()
        invariant
            p@ == encode_utf8(prefix@),
            t@ == encode_utf8(text@),
            p@.is_prefix_of(t@) <==> prefix@.is_prefix_of(text@),
            i <= p@.len() <= t@.len(),
            forall|k: int| 0 <= k < i ==> p@[k] == t@[k],
        decreases p@.len() - i,
    {
        if p[i] != t[i] {
            assert(t@.subrange(0, p@.len() as int)[i as int] == t@[i as int]);
            return false;
        }
        i += 1;
    }
    assert(p@ =~= t@.subrange(0, p@.len() as int));
    true
}

/// Whether `a` comes strictly before `b`.
pub fn comes_before(a: &str, b: &str) -> (r: bool)
    ensures
        r == text_lt(a@, b@),
{
    let x = a.as_bytes();
    let y = b.as_bytes();
    let mut i: usize = 0;
    proof {
        assert(x@.skip(0) =~= x@);
        assert(y@.skip(0) =~= y@);
    }
    while i < x.len() && i < y.len()
        invariant
            x@ == encode_utf8(a@),
            y@ == encode_utf8(b@),
            i <= x@.len(),
            i <= y@.len(),
            bytes_lt(x@, y@) == bytes_lt(x@.skip(i as int), y@.skip(i as int)),
        decreases x@.len() - i,
    {
        if x[i] != y[i] {
            assert(x@.skip(i as int)[0] == x@[i as int]);
            assert(y@.skip(i as int)[0] == y@[i as int]);
            return x[i] < y[i];
        }
        proof {
            assert(x@.skip(i as int)[0] == x@[i as int]);
            assert(y@.skip(i as int)[0] == y@[i as int]);
            assert(x@.skip(i as int).drop_first() =~= x@.skip(i + 1));
            assert(y@.skip(i as int).drop_first() =~= y@.skip(i + 1));
        }
        i += 1;
    }
    i < y.len()
}

/// Folding one more pair of bytes into the differences seen so far leaves
/// zero exactly when there was none before and the two bytes agree.
proof fn lemma_difference_bits(seen: u8, x: u8, y: u8)
    by (bit_vector)
    ensures
        (seen | (x ^ y)) == 0 <==> (seen == 0 && x == y),
{
}

/// Whether `a` and `b` are the same text. Texts of the same length take the
/// same number of steps to compare, wherever they first differ.
pub fn same_text(a: &str, b: &str) -> (r: bool)
    ensures
        r == (a@ == b@),
{
    let x = a.as_bytes();
    let y = b.as_bytes();
    proof {
        if a@ != b@ {
            lemma_encoding_distinct(a@, b@);
        }
    }
    if x.len() != y.len() {
        return false;
    }
    let mut seen: u8 = 0;
    let mut i: usize = 0;
    while i < x.len()
        invariant
            x@.len() == y@.len(),
            i <= x@.len(),
            seen == 0 <==> (forall|k: int| 0 <= k < i ==> x@[k] == y@[k]),
        decreases x@.len() - i,
    {
        proof {
            lemma_difference_bits(seen, x@[i as int], y@[i as int]);
        }
        seen = seen | (x[i] ^ y[i]);
        i += 1;
    }
    proof {
        if seen == 0 {
            assert(x@ =~= y@);
        }
    }
    seen == 0
}

} // verus!
