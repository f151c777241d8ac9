//! What `LIKE` means: of texts, not of their bytes.
use crate::expr::matching::{begins, ends, like, occurs, occurs_at};
use crate::text::lemma_encode_injective;
use vstd::prelude::*;
use vstd::utf8::{
    decode_utf8, decode_utf8_encode_utf8, decode_utf8_split, encode_scalar, encode_utf8,
    encode_utf8_decode_utf8, encode_utf8_first_scalar, encode_utf8_valid_utf8, is_char_boundary,
    is_char_boundary_iff_not_is_continuation_byte, is_char_boundary_start_end_of_seq,
    is_continuation_byte, partial_valid_partial_invalid_utf8, valid_utf8, valid_utf8_split,
};

verus! {

/// The bytes of two texts, one behind the other, are those of the two.
pub proof fn lemma_encode_joined(a: Seq<char>, b: Seq<char>)
    ensures
        encode_utf8(a + b) == encode_utf8(a) + encode_utf8(b),
    decreases a.len(),
{
    if a.len() == 0 {
        assert(a + b =~= b);
        assert(encode_utf8(a) + encode_utf8(b) =~= encode_utf8(b));
    } else {
        lemma_encode_joined(a.drop_first(), b);
        assert((a + b).drop_first() =~= a.drop_first() + b);
        assert((a + b)[0] == a[0]);
        assert(encode_utf8(a + b) =~= encode_utf8(a) + encode_utf8(b));
    }
}

/// The first byte of a text begins a character.
proof fn lemma_first_byte(s: Seq<char>)
    requires
        s.len() > 0,
    ensures
        encode_utf8(s).len() > 0,
        !is_continuation_byte(encode_utf8(s)[0]),
{
    encode_utf8_valid_utf8(s);
    encode_utf8_first_scalar(s);
    let b = encode_utf8(s);
    is_char_boundary_start_end_of_seq(b);
    is_char_boundary_iff_not_is_continuation_byte(b, 0);
}

/// Where the bytes of a text can be parted between characters, the text can.
proof fn lemma_parted(h: Seq<char>, i: int) -> (r: (Seq<char>, Seq<char>))
    requires
        0 <= i <= encode_utf8(h).len(),
        is_char_boundary(encode_utf8(h), i),
    ensures
        h == r.0 + r.1,
        encode_utf8(r.0) == encode_utf8(h).take(i),
        encode_utf8(r.1) == encode_utf8(h).skip(i),
{
    let bytes = encode_utf8(h);
    encode_utf8_valid_utf8(h);
    valid_utf8_split(bytes, i);
    decode_utf8_split(bytes, i);
    encode_utf8_decode_utf8(h);
    assert(bytes.take(i) =~= bytes.subrange(0, i));
    assert(bytes.skip(i) =~= bytes.subrange(i, bytes.len() as int));
    decode_utf8_encode_utf8(bytes.subrange(0, i));
    decode_utf8_encode_utf8(bytes.subrange(i, bytes.len() as int));
    (decode_utf8(bytes.take(i)), decode_utf8(bytes.skip(i)))
}

/// A text whose bytes end with those of another ends with the other.
proof fn lemma_ends(h: Seq<char>, s: Seq<char>)
    ensures
        ends(encode_utf8(h), encode_utf8(s)) <==> exists|a: Seq<char>| h == #[trigger] (a + s),
{
    let bytes = encode_utf8(h);
    let back = encode_utf8(s);
    encode_utf8_valid_utf8(h);
    if ends(bytes, back) {
        let i = bytes.len() - back.len();
        if s.len() == 0 {
            is_char_boundary_start_end_of_seq(bytes);
        } else {
            lemma_first_byte(s);
            assert(bytes[i] == bytes.skip(i)[0]);
            is_char_boundary_iff_not_is_continuation_byte(bytes, i);
        }
        let (a, b) = lemma_parted(h, i);
        lemma_encode_injective(b, s);
        assert(h == a + s);
    }
    if exists|a: Seq<char>| h == #[trigger] (a + s) {
        let a = choose|a: Seq<char>| h == #[trigger] (a + s);
        lemma_encode_joined(a, s);
        assert(bytes.skip(bytes.len() - back.len()) =~= back);
    }
}

/// A text whose bytes begin with those of another begins with the other.
proof fn lemma_begins(h: Seq<char>, s: Seq<char>)
    ensures
        begins(encode_utf8(h), encode_utf8(s)) <==> exists|b: Seq<char>| h == #[trigger] (s + b),
{
    let bytes = encode_utf8(h);
    let front = encode_utf8(s);
    encode_utf8_valid_utf8(h);
    encode_utf8_valid_utf8(s);
    if begins(bytes, front) {
        let k = front.len() as int;
        let rest = bytes.subrange(k, bytes.len() as int);
        assert(bytes.subrange(0, k) =~= front);
        if !valid_utf8(rest) {
            partial_valid_partial_invalid_utf8(bytes, k);
        }
        let b = decode_utf8(rest);
        decode_utf8_encode_utf8(rest);
        lemma_encode_joined(s, b);
        assert(encode_utf8(s + b) =~= bytes);
        lemma_encode_injective(h, s + b);
        assert(h == s + b);
    }
    if exists|b: Seq<char>| h == #[trigger] (s + b) {
        let b = choose|b: Seq<char>| h == #[trigger] (s + b);
        lemma_encode_joined(s, b);
        assert(bytes.take(front.len() as int) =~= front);
    }
}

/// A text in whose bytes those of another occur holds the other.
pub proof fn lemma_holds(h: Seq<char>, s: Seq<char>)
    ensures
        occurs(encode_utf8(h), encode_utf8(s)) <==> exists|a: Seq<char>, b: Seq<char>|
            h == #[trigger] (a + s + b),
{
    let bytes = encode_utf8(h);
    let part = encode_utf8(s);
    encode_utf8_valid_utf8(h);
    if s.len() == 0 {
        assert(h =~= Seq::<char>::empty() + s + h);
        assert(occurs_at(bytes, part, 0)) by {
            assert(bytes.subrange(0, 0) =~= part);
        }
    } else if occurs(bytes, part) {
        let i = choose|i: int| occurs_at(bytes, part, i);
        lemma_first_byte(s);
        assert(bytes[i] == bytes.subrange(i, i + part.len())[0]);
        is_char_boundary_iff_not_is_continuation_byte(bytes, i);
        let (a, c) = lemma_parted(h, i);
        assert(encode_utf8(c).take(part.len() as int) =~= part);
        lemma_begins(c, s);
        let b = choose|b: Seq<char>| c == #[trigger] (s + b);
        assert(h =~= a + s + b);
    }
    if exists|a: Seq<char>, b: Seq<char>| h == #[trigger] (a + s + b) {
        let (a, b) = choose|a: Seq<char>, b: Seq<char>| h == #[trigger] (a + s + b);
        lemma_encode_joined(a + s, b);
        lemma_encode_joined(a, s);
        let i = encode_utf8(a).len() as int;
        assert(bytes.subrange(i, i + part.len()) =~= part);
        assert(occurs_at(bytes, part, i));
    }
}

/// The byte of the per cent sign.
proof fn lemma_percent()
    ensures
        encode_utf8(seq!['%']) == seq![37u8],
{
    let p = seq!['%'];
    assert(p.drop_first() =~= Seq::<char>::empty());
    reveal_with_fuel(encode_utf8, 2);
    let v: u32 = 37;
    assert(('%' as u32) == v);
    assert((v & 0x7F) as u8 == 37u8) by (bit_vector)
        requires
            v == 37u32,
    ;
    assert(encode_scalar(v) =~= seq![37u8]);
    assert(encode_utf8(p) =~= seq![37u8]);
}

/// The bytes of a text end with that of the per cent sign just where the text ends with the
/// sign, and so at the front.
proof fn lemma_percent_at_ends(s: Seq<char>)
    requires
        s.len() > 0,
    ensures
        encode_utf8(s).len() > 0,
        encode_utf8(s)[encode_utf8(s).len() - 1] == 37 <==> s.last() == '%',
        encode_utf8(s)[0] == 37 <==> s[0] == '%',
{
    let bytes = encode_utf8(s);
    let sign = seq!['%'];
    lemma_percent();
    lemma_first_byte(s);
    lemma_ends(s, sign);
    lemma_begins(s, sign);
    let n = bytes.len() as int;
    if bytes[n - 1] == 37 {
        assert(bytes.skip(n - 1) =~= seq![37u8]);
        let a = choose|a: Seq<char>| s == #[trigger] (a + sign);
        assert(s.last() == '%');
    }
    if s.last() == '%' {
        assert(s =~= s.drop_last() + sign);
        assert(ends(bytes, seq![37u8]));
        assert(bytes.skip(n - 1)[0] == bytes[n - 1]);
    }
    if bytes[0] == 37 {
        assert(bytes.take(1) =~= seq![37u8]);
        let b = choose|b: Seq<char>| s == #[trigger] (sign + b);
        assert(s[0] == '%');
    }
    if s[0] == '%' {
        assert(s =~= sign + s.drop_first());
        assert(begins(bytes, seq![37u8]));
        assert(bytes.take(1)[0] == bytes[0]);
    }
}

/// Whether a text is like a pattern.
pub open spec fn is_like(h: Seq<char>, pattern: Seq<char>) -> bool {
    like(encode_utf8(h), encode_utf8(pattern))
}

/// A sign in front of a text that does not end with one lets any text stand before it: what
/// is like this pattern ends with the text.
pub proof fn law_like_end(h: Seq<char>, s: Seq<char>)
    requires
        s.len() > 0,
        s.last() != '%',
    ensures
        is_like(h, seq!['%'] + s) <==> exists|a: Seq<char>| h == #[trigger] (a + s),
{
    let p = seq!['%'] + s;
    lemma_percent();
    lemma_encode_joined(seq!['%'], s);
    lemma_percent_at_ends(p);
    assert(p.last() == s.last());
    assert(encode_utf8(p).skip(1) =~= encode_utf8(s));
    lemma_ends(h, s);
}

/// A sign behind a text that does not begin with one lets any text stand after it: what is
/// like this pattern begins with the text.
pub proof fn law_like_begin(h: Seq<char>, s: Seq<char>)
    requires
        s.len() > 0,
        s[0] != '%',
    ensures
        is_like(h, s + seq!['%']) <==> exists|b: Seq<char>| h == #[trigger] (s + b),
{
    let p = s + seq!['%'];
    lemma_percent();
    lemma_encode_joined(s, seq!['%']);
    lemma_percent_at_ends(p);
    assert(p[0] == s[0]);
    let n = encode_utf8(p).len() as int;
    assert(encode_utf8(p).take(n - 1) =~= encode_utf8(s));
    lemma_begins(h, s);
}

/// Signs on both sides of a text let any texts stand around it: what is like this pattern
/// holds the text.
pub proof fn law_like_within(h: Seq<char>, s: Seq<char>)
    ensures
        is_like(h, seq!['%'] + s + seq!['%']) <==> exists|a: Seq<char>, b: Seq<char>|
            h == #[trigger] (a + s + b),
{
    let p = seq!['%'] + s + seq!['%'];
    lemma_percent();
    lemma_encode_joined(seq!['%'] + s, seq!['%']);
    lemma_encode_joined(seq!['%'], s);
    let n = encode_utf8(p).len() as int;
    assert(encode_utf8(p).subrange(1, n - 1) =~= encode_utf8(s));
    lemma_holds(h, s);
    if s.len() == 0 {
        assert(h =~= Seq::<char>::empty() + s + h);
    } else {
        lemma_first_byte(s);
    }
}

/// A pattern without a sign at its ends is like itself and nothing else.
pub proof fn law_like_exact(h: Seq<char>, s: Seq<char>)
    requires
        s.len() > 0 ==> s[0] != '%' && s.last() != '%',
    ensures
        is_like(h, s) <==> h == s,
{
    if s.len() > 0 {
        lemma_percent_at_ends(s);
    }
    if encode_utf8(h) == encode_utf8(s) {
        lemma_encode_injective(h, s);
    }
}

/// A sign alone is like every text.
pub proof fn law_like_any(h: Seq<char>)
    ensures
        is_like(h, seq!['%']),
        is_like(h, seq!['%', '%']),
{
    lemma_percent();
    let none = Seq::<char>::empty();
    assert(seq!['%', '%'] =~= seq!['%'] + none + seq!['%']);
    law_like_within(h, none);
    assert(h =~= none + none + h);
    let bytes = encode_utf8(h);
    assert(bytes.skip(bytes.len() as int) =~= encode_utf8(seq!['%']).skip(1));
}

} // verus!
