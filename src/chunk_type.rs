use vstd::prelude::*;
use vstd::utf8::{
    char_is_scalar, decode_utf8, encode_scalar, encode_utf8, encode_utf8_decode_utf8,
};
use crate::error::PngError;
use crate::text::{lemma_ascii_valid_utf8, utf8_to_string};

verus! {

/// An ASCII letter, `A`..=`Z` or `a`..=`z`.
pub open spec fn is_ascii_letter(b: u8) -> bool {
    (65 <= b && b <= 90) || (97 <= b && b <= 122)
}

/// An ASCII upper-case letter.
pub open spec fn is_ascii_upper(b: u8) -> bool {
    65 <= b && b <= 90
}

/// An ASCII lower-case letter.
pub open spec fn is_ascii_lower(b: u8) -> bool {
    97 <= b && b <= 122
}

/// Four bytes, each an ASCII letter: what a chunk type is made of.
pub open spec fn is_type_code(b: Seq<u8>) -> bool {
    b.len() == 4 && forall|i: int| 0 <= i < 4 ==> is_ascii_letter(#[trigger] b[i])
}

/// What parsing a type from text gives: its UTF-8 bytes when it is four
/// characters, each an ASCII letter.
pub open spec fn type_from_text(s: Seq<char>) -> Result<Seq<u8>, PngError> {
    if s.len() != 4 {
        Err(PngError::WrongLength)
    } else if !is_type_code(encode_utf8(s)) {
        Err(PngError::InvalidCharacters)
    } else {
        Ok(encode_utf8(s))
    }
}

/// A byte that begins a UTF-8 character, rather than continuing one.
pub open spec fn starts_char(b: u8) -> bool {
    b & 0xC0u8 != 0x80u8
}

/// How many bytes of `b` begin a character.
pub open spec fn count_char_starts(b: Seq<u8>) -> nat
    decreases b.len(),
{
    if b.len() == 0 {
        0
    } else {
        (if starts_char(b[0]) {
            1nat
        } else {
            0nat
        }) + count_char_starts(b.drop_first())
    }
}

proof fn lemma_count_char_starts_append(a: Seq<u8>, b: Seq<u8>)
    ensures
        count_char_starts(a + b) == count_char_starts(a) + count_char_starts(b),
    decreases a.len(),
{
    if a.len() == 0 {
        assert(a + b =~= b);
    } else {
        assert((a + b).drop_first() =~= a.drop_first() + b);
        lemma_count_char_starts_append(a.drop_first(), b);
    }
}

proof fn lemma_scalar_has_one_start(c: char)
    ensures
        count_char_starts(encode_scalar(c as u32)) == 1,
{
    reveal_with_fuel(count_char_starts, 5);
    broadcast use char_is_scalar;

    let v = c as u32;
    assert(((0x80u8 | (v & 0x3F) as u8) & 0xC0u8) == 0x80u8) by (bit_vector);
    assert(((0x80u8 | ((v >> 6u32) & 0x3F) as u8) & 0xC0u8) == 0x80u8) by (bit_vector);
    assert(((0x80u8 | ((v >> 12u32) & 0x3F) as u8) & 0xC0u8) == 0x80u8) by (bit_vector);
    assert(((0xC0u8 | ((v >> 6u32) & 0x1F) as u8) & 0xC0u8) != 0x80u8) by (bit_vector);
    assert(((0xE0u8 | ((v >> 12u32) & 0x0F) as u8) & 0xC0u8) != 0x80u8) by (bit_vector);
    assert(((0xF0u8 | ((v >> 18u32) & 0x7) as u8) & 0xC0u8) != 0x80u8) by (bit_vector);
    if v <= 0x7F {
        assert(((v & 0x7F) as u8 & 0xC0u8) != 0x80u8) by (bit_vector)
            requires
                v <= 0x7F,
        ;
    }
}

/// Text has as many characters as its UTF-8 bytes have character starts.
proof fn lemma_count_chars(s: Seq<char>)
    ensures
        count_char_starts(encode_utf8(s)) == s.len(),
    decreases s.len(),
{
    if s.len() > 0 {
        lemma_scalar_has_one_start(s[0]);
        lemma_count_char_starts_append(encode_scalar(s[0] as u32), encode_utf8(s.drop_first()));
        lemma_count_chars(s.drop_first());
    }
}

/// The number of characters that the UTF-8 bytes `b` encode.
fn char_count(b: &[u8]) -> (r: usize)
    ensures
        r == count_char_starts(b@),
{
    let mut n: usize = 0;
    let mut i: usize = b.len();
    assert(b@.subrange(0, i as int) =~= b@);
    while i > 0
        invariant
            i <= b@.len(),
            n <= b@.len() - i,
            n + count_char_starts(b@.subrange(0, i as int)) == count_char_starts(b@),
        decreases i,
    {
        i = i - 1;
        proof {
            let head = b@.subrange(0, i as int);
            let last = b@.subrange(i as int, i + 1);
            assert(b@.subrange(0, i + 1) =~= head + last);
            lemma_count_char_starts_append(head, last);
            reveal_with_fuel(count_char_starts, 2);
            assert(last[0] == b@[i as int]);
            assert(last.drop_first() =~= Seq::<u8>::empty());
        }
        if b[i] & 0xC0u8 != 0x80u8 {
            n = n + 1;
        }
    }
    assert(b@.subrange(0, 0) =~= Seq::<u8>::empty());
    n
}

/// The four-letter type code of a chunk.
///
/// Each byte is an ASCII letter; the case of each letter carries a flag.
#[derive(Debug, Clone, Copy, Eq)]
pub struct ChunkType {
    code: [u8; 4],
}

impl View for ChunkType {
    type V = Seq<u8>;

    closed spec fn view(&self) -> Seq<u8> {
        self.code@
    }
}

impl PartialEq for ChunkType {
    fn eq(&self, other: &ChunkType) -> (r: bool) {
        let r = self.code[0] == other.code[0] && self.code[1] == other.code[1] && self.code[2]
            == other.code[2] && self.code[3] == other.code[3];
        proof {
            if r {
                assert(self.code@ =~= other.code@);
            }
        }
        r
    }
}

impl vstd::std_specs::cmp::PartialEqSpecImpl for ChunkType {
    open spec fn obeys_eq_spec() -> bool {
        true
    }

    open spec fn eq_spec(&self, other: &ChunkType) -> bool {
        self@ == other@
    }
}

impl ChunkType {
    #[verifier::type_invariant]
    closed spec fn inv(self) -> bool {
        is_type_code(self.code@)
    }

    /// Builds a type from four bytes; fails unless each is an ASCII letter.
    pub fn try_from(code: [u8; 4]) -> (r: Result<ChunkType, PngError>)
        ensures
            r is Ok <==> is_type_code(code@),
            r matches Ok(t) ==> t@ == code@,
            r matches Err(e) ==> e == PngError::InvalidCharacters,
    {
        let mut i: usize = 0;
        while i < 4
            invariant
                i <= 4,
                forall|j: int| 0 <= j < i ==> is_ascii_letter(#[trigger] code@[j]),
            decreases 4 - i,
        {
            let b = code[i];
            if !((65 <= b && b <= 90) || (97 <= b && b <= 122)) {
                return Err(PngError::InvalidCharacters);
            }
            i = i + 1;
        }
        Ok(ChunkType { code })
    }

    /// Parses a type from its text: four characters, each an ASCII letter.
    pub fn from_str(s: &str) -> (r: Result<ChunkType, PngError>)
        ensures
            match type_from_text(s@) {
                Ok(b) => r matches Ok(t) && t@ == b,
                Err(e) => r == Err::<ChunkType, PngError>(e),
            },
    {
        let b = s.as_bytes();
        proof {
            lemma_count_chars(s@);
        }
        if char_count(b) != 4 {
            return Err(PngError::WrongLength);
        }
        if b.len() != 4 {
            return Err(PngError::InvalidCharacters);
        }
        let r = ChunkType::try_from([b[0], b[1], b[2], b[3]]);
        assert(b@ =~= seq![b@[0], b@[1], b@[2], b@[3]]);
        r
    }

    /// The four bytes of the type, each an ASCII letter.
    pub fn bytes(&self) -> (r: [u8; 4])
        ensures
            r@ == self@,
            is_type_code(r@),
    {
        proof {
            use_type_invariant(self);
        }
        self.code
    }

    /// Whether the type is critical: its first letter is upper-case.
    pub fn is_critical(&self) -> (r: bool)
        ensures
            r == is_ascii_upper(self@[0]),
    {
        let b = self.code[0];
        65 <= b && b <= 90
    }

    /// Whether the type is public: its second letter is upper-case.
    pub fn is_public(&self) -> (r: bool)
        ensures
            r == is_ascii_upper(self@[1]),
    {
        let b = self.code[1];
        65 <= b && b <= 90
    }

    /// Whether the reserved bit (0x20 of the third byte) is clear.
    pub fn is_reserved_bit_valid(&self) -> (r: bool)
        ensures
            r == (self@[2] & 0x20u8 == 0u8),
    {
        self.code[2] & 0x20u8 == 0u8
    }

    /// Whether the type is safe to copy: its fourth letter is lower-case.
    pub fn is_safe_to_copy(&self) -> (r: bool)
        ensures
            r == is_ascii_lower(self@[3]),
    {
        let b = self.code[3];
        97 <= b && b <= 122
    }

    /// Whether the reserved bit is clear and every byte is an ASCII letter.
    pub fn is_valid(&self) -> (r: bool)
        ensures
            r == ((self@[2] & 0x20u8 == 0u8) && is_type_code(self@)),
    {
        proof {
            use_type_invariant(self);
        }
        self.is_reserved_bit_valid()
    }

    /// The type as text.
    pub fn to_string(&self) -> (r: String)
        ensures
            r@ == decode_utf8(self@),
    {
        proof {
            use_type_invariant(self);
            assert forall|i: int| 0 <= i < self.code@.len() implies #[trigger] self.code@[i]
                < 128 by {
                assert(is_ascii_letter(self.code@[i]));
            }
            lemma_ascii_valid_utf8(self.code@);
        }
        let v = vec![self.code[0], self.code[1], self.code[2], self.code[3]];
        assert(v@ =~= self.code@);
        match utf8_to_string(v) {
            Some(s) => s,
            None => String::new(),
        }
    }
}

/// Text that names a type comes back unchanged when the type is shown.
pub proof fn lemma_type_text_round_trip(s: Seq<char>)
    requires
        type_from_text(s) is Ok,
    ensures
        decode_utf8(type_from_text(s)->Ok_0) == s,
{
    encode_utf8_decode_utf8(s);
}

} // verus!
