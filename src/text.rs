use vstd::prelude::*;
use vstd::utf8::{
    decode_utf8, decode_utf8_encode_utf8, encode_utf8, encode_utf8_valid_utf8, valid_utf8,
};
use crate::bytes::push_all;

verus! {

/// Relies on `String::from_utf8`: it succeeds exactly on valid UTF-8, and the
/// string then holds the characters that the bytes encode.
#[verifier::external_body]
pub(crate) fn utf8_to_string(v: Vec<u8>) -> (r: Option<String>)
    ensures
        r is Some <==> valid_utf8(v@),
        r matches Some(s) ==> s@ == decode_utf8(v@),
{
    String::from_utf8(v).ok()
}

/// The decimal digits of `x`, as ASCII bytes, most significant first.
pub open spec fn decimal(x: nat) -> Seq<u8>
    decreases x,
{
    if x < 10 {
        seq![(48 + x) as u8]
    } else {
        decimal(x / 10).push((48 + x % 10) as u8)
    }
}

/// The items of `d` in decimal, separated by `", "`.
pub open spec fn decimal_items(d: Seq<u8>) -> Seq<u8>
    decreases d.len(),
{
    if d.len() == 0 {
        Seq::empty()
    } else if d.len() == 1 {
        decimal(d[0] as nat)
    } else {
        decimal_items(d.drop_last()) + encode_utf8(", "@) + decimal(d.last() as nat)
    }
}

/// `d` written as a list of decimal numbers: `[1, 2, 3]`.
pub open spec fn decimal_list(d: Seq<u8>) -> Seq<u8> {
    encode_utf8("["@) + decimal_items(d) + encode_utf8("]"@)
}

/// Bytes below 0x80 are valid UTF-8: each is a one-byte character.
pub proof fn lemma_ascii_valid_utf8(b: Seq<u8>)
    requires
        forall|i: int| 0 <= i < b.len() ==> #[trigger] b[i] < 128,
    ensures
        valid_utf8(b),
    decreases b.len(),
{
    if b.len() > 0 {
        let rest = vstd::utf8::pop_first_scalar(b);
        assert(rest =~= b.drop_first());
        assert forall|i: int| 0 <= i < rest.len() implies #[trigger] rest[i] < 128 by {
            assert(rest[i] == b[i + 1]);
        }
        lemma_ascii_valid_utf8(rest);
    }
}

proof fn lemma_encode_utf8_append(s: Seq<char>, t: Seq<char>)
    ensures
        encode_utf8(s + t) == encode_utf8(s) + encode_utf8(t),
    decreases s.len(),
{
    if s.len() == 0 {
        assert(s + t =~= t);
    } else {
        assert((s + t).drop_first() =~= s.drop_first() + t);
        lemma_encode_utf8_append(s.drop_first(), t);
        assert(encode_utf8(s + t) =~= encode_utf8(s) + encode_utf8(t));
    }
}

/// Two pieces of valid UTF-8 make valid UTF-8.
pub proof fn lemma_valid_utf8_append(a: Seq<u8>, b: Seq<u8>)
    requires
        valid_utf8(a),
        valid_utf8(b),
    ensures
        valid_utf8(a + b),
{
    decode_utf8_encode_utf8(a);
    decode_utf8_encode_utf8(b);
    lemma_encode_utf8_append(decode_utf8(a), decode_utf8(b));
    encode_utf8_valid_utf8(decode_utf8(a) + decode_utf8(b));
}

/// Decimal digits are ASCII.
pub proof fn lemma_decimal_ascii(x: nat)
    ensures
        forall|i: int| 0 <= i < decimal(x).len() ==> #[trigger] decimal(x)[i] < 128,
        decimal(x).len() > 0,
    decreases x,
{
    if x >= 10 {
        lemma_decimal_ascii(x / 10);
    }
}

/// A list of decimal numbers is ASCII.
pub proof fn lemma_decimal_list_valid_utf8(d: Seq<u8>)
    ensures
        valid_utf8(decimal_list(d)),
{
    lemma_decimal_items_valid_utf8(d);
    encode_utf8_valid_utf8("["@);
    encode_utf8_valid_utf8("]"@);
    lemma_valid_utf8_append(encode_utf8("["@), decimal_items(d));
    lemma_valid_utf8_append(encode_utf8("["@) + decimal_items(d), encode_utf8("]"@));
}

pub proof fn lemma_decimal_valid_utf8(x: nat)
    ensures
        valid_utf8(decimal(x)),
{
    lemma_decimal_ascii(x);
    lemma_ascii_valid_utf8(decimal(x));
}

proof fn lemma_decimal_items_valid_utf8(d: Seq<u8>)
    ensures
        valid_utf8(decimal_items(d)),
    decreases d.len(),
{
    if d.len() == 1 {
        lemma_decimal_valid_utf8(d[0] as nat);
    } else if d.len() > 1 {
        let sep = encode_utf8(", "@);
        lemma_decimal_items_valid_utf8(d.drop_last());
        lemma_decimal_valid_utf8(d.last() as nat);
        encode_utf8_valid_utf8(", "@);
        lemma_valid_utf8_append(decimal_items(d.drop_last()), sep);
        lemma_valid_utf8_append(decimal_items(d.drop_last()) + sep, decimal(d.last() as nat));
    }
}

/// Appends the UTF-8 bytes of `s`.
pub fn push_str(out: &mut Vec<u8>, s: &str)
    ensures
        final(out)@ == old(out)@ + encode_utf8(s@),
        valid_utf8(old(out)@) ==> valid_utf8(final(out)@),
{
    proof {
        encode_utf8_valid_utf8(s@);
        if valid_utf8(out@) {
            lemma_valid_utf8_append(out@, encode_utf8(s@));
        }
    }
    push_all(out, s.as_bytes());
}

/// Appends `x` in decimal.
pub fn push_decimal(out: &mut Vec<u8>, x: u32)
    ensures
        final(out)@ == old(out)@ + decimal(x as nat),
        valid_utf8(old(out)@) ==> valid_utf8(final(out)@),
    decreases x,
{
    proof {
        lemma_decimal_valid_utf8(x as nat);
        if valid_utf8(out@) {
            lemma_valid_utf8_append(out@, decimal(x as nat));
        }
    }
    if x >= 10 {
        push_decimal(out, x / 10);
    }
    out.push((48 + x % 10) as u8);
    assert(final(out)@ =~= old(out)@ + decimal(x as nat));
}

/// Appends `d` as a list of decimal numbers: `[1, 2, 3]`.
pub fn push_decimal_list(out: &mut Vec<u8>, d: &[u8])
    ensures
        final(out)@ == old(out)@ + decimal_list(d@),
        valid_utf8(old(out)@) ==> valid_utf8(final(out)@),
{
    proof {
        lemma_decimal_list_valid_utf8(d@);
        if valid_utf8(out@) {
            lemma_valid_utf8_append(out@, decimal_list(d@));
        }
    }
    let ghost start = out@;
    push_all(out, "[".as_bytes());
    let ghost open = out@;
    let mut i: usize = 0;
    while i < d.len()
        invariant
            i <= d@.len(),
            out@ == open + decimal_items(d@.take(i as int)),
        decreases d@.len() - i,
    {
        if i > 0 {
            push_all(out, ", ".as_bytes());
        }
        push_decimal(out, d[i] as u32);
        proof {
            let t = d@.take(i + 1);
            assert(t.drop_last() =~= d@.take(i as int));
            assert(t.last() == d@[i as int]);
            if i == 0 {
                assert(d@.take(0) =~= Seq::<u8>::empty());
            }
        }
        i = i + 1;
    }
    assert(d@.take(i as int) =~= d@);
    push_all(out, "]".as_bytes());
    assert(final(out)@ =~= start + decimal_list(d@));
}

} // verus!
