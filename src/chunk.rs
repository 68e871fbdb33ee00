use vstd::prelude::*;
use vstd::utf8::{decode_utf8, encode_utf8, encode_utf8_valid_utf8, valid_utf8};
use crate::bytes::{
    be_u32_at, copy_range, lemma_be_u32_injective, lemma_be_u32_round_trip, push_all,
    push_be_u32, read_be_u32, u32_be_bytes,
};
use crate::checksum::{crc32, crc32_of};
use crate::chunk_type::{is_ascii_letter, is_type_code, ChunkType};
use crate::error::PngError;
use crate::text::{
    decimal, decimal_list, lemma_ascii_valid_utf8, lemma_valid_utf8_append, push_decimal,
    push_decimal_list, push_str, utf8_to_string,
};

verus! {

/// What a chunk holds: its type code and its payload.  Its length and CRC
/// follow from these.
pub struct ChunkView {
    pub chunk_type: Seq<u8>,
    pub data: Seq<u8>,
}

/// The CRC of a chunk: over its type bytes followed by its payload.
pub open spec fn chunk_crc(c: ChunkView) -> u32 {
    crc32_of(c.chunk_type + c.data)
}

/// A chunk as it is written: length, type, payload, CRC.
pub open spec fn chunk_bytes(c: ChunkView) -> Seq<u8> {
    u32_be_bytes(c.data.len() as u32) + c.chunk_type + c.data + u32_be_bytes(chunk_crc(c))
}

/// A chunk that can be written: a type code and a payload whose length fits in 32 bits.
pub open spec fn is_chunk(c: ChunkView) -> bool {
    is_type_code(c.chunk_type) && c.data.len() <= u32::MAX
}

/// The chunk at the start of `b`, or why there is none.
///
/// The checks come in order: room for the fixed fields, the type code, room
/// for the declared payload and CRC, and the CRC itself.
#[verifier::opaque]
pub open spec fn parse_chunk(b: Seq<u8>) -> Result<ChunkView, PngError> {
    if b.len() < 12 {
        Err(PngError::Truncated)
    } else if !is_type_code(b.subrange(4, 8)) {
        Err(PngError::InvalidCharacters)
    } else {
        let n = be_u32_at(b, 0) as int;
        if b.len() < 12 + n {
            Err(PngError::Truncated)
        } else {
            let c = ChunkView { chunk_type: b.subrange(4, 8), data: b.subrange(8, 8 + n) };
            if chunk_crc(c) != be_u32_at(b, 8 + n) {
                Err(PngError::ChecksumMismatch)
            } else {
                Ok(c)
            }
        }
    }
}

/// A chunk described in one line of text, as UTF-8:
/// `Chunk { length: 4, type: RuSt, data: "Rust", crc: 712841866 }`.  A payload
/// that is not UTF-8 is shown as a list of byte values.
pub open spec fn chunk_summary(c: ChunkView) -> Seq<u8> {
    encode_utf8("Chunk { length: "@) + decimal(c.data.len()) + encode_utf8(", type: "@)
        + c.chunk_type + encode_utf8(", data: "@) + (if valid_utf8(c.data) {
        encode_utf8("\""@) + c.data + encode_utf8("\""@)
    } else {
        decimal_list(c.data)
    }) + encode_utf8(", crc: "@) + decimal(chunk_crc(c) as nat) + encode_utf8(" }"@)
}

/// A chunk that reads correctly can be written, and lies within the bytes it
/// was read from.
pub proof fn lemma_parse_chunk_fits(b: Seq<u8>)
    ensures
        parse_chunk(b) matches Ok(c) ==> is_chunk(c) && 12 + c.data.len() <= b.len(),
{
    reveal(parse_chunk);
}

/// One record of a chunk stream: a type, a payload and the CRC over both.
#[derive(Debug)]
pub struct Chunk {
    length: u32,
    chunk_type: ChunkType,
    data: Vec<u8>,
    crc: u32,
}

impl View for Chunk {
    type V = ChunkView;

    closed spec fn view(&self) -> ChunkView {
        ChunkView { chunk_type: self.chunk_type@, data: self.data@ }
    }
}

impl PartialEq for Chunk {
    fn eq(&self, other: &Chunk) -> (r: bool) {
        if self.chunk_type != other.chunk_type || self.data.len() != other.data.len() {
            return false;
        }
        let mut i: usize = 0;
        while i < self.data.len()
            invariant
                i <= self.data@.len(),
                self.data@.len() == other.data@.len(),
                forall|j: int| 0 <= j < i ==> self.data@[j] == other.data@[j],
            decreases self.data@.len() - i,
        {
            if self.data[i] != other.data[i] {
                return false;
            }
            i = i + 1;
        }
        assert(self.data@ =~= other.data@);
        true
    }
}

impl Clone for Chunk {
    fn clone(&self) -> (r: Chunk)
        ensures
            r@ == self@,
    {
        proof {
            use_type_invariant(self);
        }
        let data = copy_range(self.data.as_slice(), 0, self.data.len());
        assert(data@ =~= self.data@);
        Chunk { length: self.length, chunk_type: self.chunk_type, data, crc: self.crc }
    }
}

impl vstd::std_specs::cmp::PartialEqSpecImpl for Chunk {
    open spec fn obeys_eq_spec() -> bool {
        true
    }

    open spec fn eq_spec(&self, other: &Chunk) -> bool {
        self@ == other@
    }
}

/// The bytes that the CRC of a chunk covers.
fn crc_input(chunk_type: &ChunkType, data: &[u8]) -> (r: Vec<u8>)
    ensures
        r@ == chunk_type@ + data@,
        is_type_code(chunk_type@),
{
    let code = chunk_type.bytes();
    let mut r: Vec<u8> = Vec::new();
    push_all(&mut r, code.as_slice());
    push_all(&mut r, data);
    r
}

impl Chunk {
    #[verifier::type_invariant]
    closed spec fn inv(self) -> bool {
        &&& self.length as int == self.data@.len()
        &&& is_type_code(self.chunk_type@)
        &&& self.crc == crc32_of(self.chunk_type@ + self.data@)
    }

    /// A chunk of the given type and payload, with its CRC computed.
    pub fn new(chunk_type: ChunkType, data: Vec<u8>) -> (r: Chunk)
        requires
            data@.len() <= u32::MAX,
        ensures
            r@ == (ChunkView { chunk_type: chunk_type@, data: data@ }),
    {
        let all = crc_input(&chunk_type, data.as_slice());
        let crc = crc32(all.as_slice());
        Chunk { length: data.len() as u32, chunk_type, data, crc }
    }

    /// The length of the payload.
    pub fn length(&self) -> (r: u32)
        ensures
            r as int == self@.data.len(),
            is_chunk(self@),
    {
        proof {
            use_type_invariant(self);
        }
        self.length
    }

    /// The type of the chunk.
    pub fn chunk_type(&self) -> (r: &ChunkType)
        ensures
            r@ == self@.chunk_type,
    {
        &self.chunk_type
    }

    /// The payload.
    pub fn data(&self) -> (r: &[u8])
        ensures
            r@ == self@.data,
    {
        self.data.as_slice()
    }

    /// The CRC over the type bytes and the payload.
    pub fn crc(&self) -> (r: u32)
        ensures
            r == chunk_crc(self@),
    {
        proof {
            use_type_invariant(self);
        }
        self.crc
    }

    /// The payload as text, when it is valid UTF-8.
    pub fn data_as_string(&self) -> (r: Result<String, PngError>)
        ensures
            r is Ok <==> valid_utf8(self@.data),
            r matches Ok(s) ==> s@ == decode_utf8(self@.data),
            r matches Err(e) ==> e == PngError::NotUtf8,
    {
        let copy = copy_range(self.data.as_slice(), 0, self.data.len());
        assert(copy@ =~= self.data@);
        match utf8_to_string(copy) {
            Some(s) => Ok(s),
            None => Err(PngError::NotUtf8),
        }
    }

    /// The one-line description of the chunk, as UTF-8 bytes.
    pub fn summary(&self) -> (r: Vec<u8>)
        ensures
            r@ == chunk_summary(self@),
            valid_utf8(r@),
    {
        proof {
            use_type_invariant(self);
        }
        let code = self.chunk_type.bytes();
        let mut r: Vec<u8> = Vec::new();
        proof {
            lemma_ascii_valid_utf8(r@);
        }
        push_str(&mut r, "Chunk { length: ");
        push_decimal(&mut r, self.length);
        push_str(&mut r, ", type: ");
        proof {
            assert forall|i: int| 0 <= i < code@.len() implies #[trigger] code@[i] < 128 by {
                assert(is_ascii_letter(code@[i]));
            }
            lemma_ascii_valid_utf8(code@);
            lemma_valid_utf8_append(r@, code@);
        }
        push_all(&mut r, code.as_slice());
        push_str(&mut r, ", data: ");
        match self.data_as_string() {
            Ok(_) => {
                push_str(&mut r, "\"");
                proof {
                    lemma_valid_utf8_append(r@, self.data@);
                }
                push_all(&mut r, self.data.as_slice());
                push_str(&mut r, "\"");
            },
            Err(_) => {
                push_decimal_list(&mut r, self.data.as_slice());
            },
        }
        push_str(&mut r, ", crc: ");
        push_decimal(&mut r, self.crc);
        push_str(&mut r, " }");
        assert(r@ =~= chunk_summary(self@));
        r
    }

    /// The one-line description of the chunk.
    pub fn to_string(&self) -> (r: String)
        ensures
            r@ == decode_utf8(chunk_summary(self@)),
    {
        match utf8_to_string(self.summary()) {
            Some(s) => s,
            None => String::new(),
        }
    }

    /// The chunk as it is written: length, type, payload and CRC, the numbers
    /// big-endian.
    pub fn as_bytes(&self) -> (r: Vec<u8>)
        ensures
            r@ == chunk_bytes(self@),
            r@.len() == 12 + self@.data.len(),
    {
        proof {
            use_type_invariant(self);
        }
        let code = self.chunk_type.bytes();
        let mut r: Vec<u8> = Vec::new();
        push_be_u32(&mut r, self.length);
        push_all(&mut r, code.as_slice());
        push_all(&mut r, self.data.as_slice());
        push_be_u32(&mut r, self.crc);
        r
    }

    /// Reads the chunk at the start of `value`; bytes after it are ignored.
    pub fn try_from(value: &[u8]) -> (r: Result<Chunk, PngError>)
        ensures
            r is Ok <==> parse_chunk(value@) is Ok,
            r matches Ok(c) ==> parse_chunk(value@) == Ok::<ChunkView, PngError>(c@),
            r matches Err(e) ==> parse_chunk(value@) == Err::<ChunkView, PngError>(e),
    {
        reveal(parse_chunk);
        if value.len() < 12 {
            return Err(PngError::Truncated);
        }
        let length = read_be_u32(value, 0);
        let chunk_type = match ChunkType::try_from([value[4], value[5], value[6], value[7]]) {
            Ok(t) => t,
            Err(e) => {
                assert(value@.subrange(4, 8) =~= seq![value@[4], value@[5], value@[6], value@[7]]);
                return Err(e);
            },
        };
        assert(chunk_type@ =~= value@.subrange(4, 8));
        let n = length as usize;
        if value.len() - 12 < n {
            return Err(PngError::Truncated);
        }
        let data = copy_range(value, 8, 8 + n);
        let expected = read_be_u32(value, 8 + n);
        let all = crc_input(&chunk_type, data.as_slice());
        let crc = crc32(all.as_slice());
        if crc != expected {
            return Err(PngError::ChecksumMismatch);
        }
        Ok(Chunk { length, chunk_type, data, crc })
    }
}

/// Where the fields of a written chunk lie, whatever follows it.
proof fn lemma_chunk_layout(c: ChunkView, rest: Seq<u8>)
    requires
        is_chunk(c),
    ensures
        ({
            let b = chunk_bytes(c) + rest;
            let n = c.data.len() as int;
            &&& chunk_bytes(c).len() == 12 + n
            &&& be_u32_at(b, 0) == n
            &&& b.subrange(4, 8) == c.chunk_type
            &&& b.subrange(8, 8 + n) == c.data
            &&& be_u32_at(b, 8 + n) == chunk_crc(c)
        }),
{
    let n = c.data.len() as int;
    let len_bytes = u32_be_bytes(n as u32);
    let crc_bytes = u32_be_bytes(chunk_crc(c));
    let b = chunk_bytes(c) + rest;
    assert(chunk_bytes(c).len() == 12 + n);
    lemma_be_u32_round_trip(n as u32);
    lemma_be_u32_round_trip(chunk_crc(c));
    assert(b[0] == len_bytes[0] && b[1] == len_bytes[1] && b[2] == len_bytes[2] && b[3]
        == len_bytes[3]);
    assert(b.subrange(4, 8) =~= c.chunk_type);
    assert(b.subrange(8, 8 + n) =~= c.data);
    assert(b[8 + n] == crc_bytes[0] && b[9 + n] == crc_bytes[1] && b[10 + n] == crc_bytes[2]
        && b[11 + n] == crc_bytes[3]);
}

/// Bytes whose fields hold the type and payload of `c` and the CRC `crc`
/// read as `c` exactly when `crc` is the CRC of `c`.
proof fn lemma_parse_chunk_fields(b: Seq<u8>, c: ChunkView, crc: u32)
    requires
        is_chunk(c),
        b.len() >= 12 + c.data.len(),
        be_u32_at(b, 0) == c.data.len(),
        b.subrange(4, 8) == c.chunk_type,
        b.subrange(8, 8 + c.data.len() as int) == c.data,
        be_u32_at(b, 8 + c.data.len() as int) == crc,
    ensures
        parse_chunk(b) == if chunk_crc(c) == crc {
            Ok::<ChunkView, PngError>(c)
        } else {
            Err::<ChunkView, PngError>(PngError::ChecksumMismatch)
        },
{
    reveal(parse_chunk);
}

/// A written chunk followed by any bytes reads back as the same chunk, and
/// takes up twelve bytes more than its payload.
pub proof fn lemma_parse_chunk_bytes(c: ChunkView, rest: Seq<u8>)
    requires
        is_chunk(c),
    ensures
        parse_chunk(chunk_bytes(c) + rest) == Ok::<ChunkView, PngError>(c),
        chunk_bytes(c).len() == 12 + c.data.len(),
{
    lemma_chunk_layout(c, rest);
    lemma_parse_chunk_fields(chunk_bytes(c) + rest, c, chunk_crc(c));
}

/// Reading a written chunk gives back the chunk.
pub proof fn lemma_chunk_round_trip(chunk_type: Seq<u8>, data: Seq<u8>)
    requires
        is_type_code(chunk_type),
        data.len() <= u32::MAX,
    ensures
        parse_chunk(chunk_bytes(ChunkView { chunk_type, data })) == Ok::<ChunkView, PngError>(
            ChunkView { chunk_type, data },
        ),
{
    let c = ChunkView { chunk_type, data };
    lemma_parse_chunk_bytes(c, Seq::empty());
    assert(chunk_bytes(c) + Seq::<u8>::empty() =~= chunk_bytes(c));
}

/// `b` with bit `k` of byte `i` inverted.
pub open spec fn flip_bit(b: Seq<u8>, i: int, k: u8) -> Seq<u8> {
    b.update(i, b[i] ^ (1u8 << k))
}

proof fn lemma_flip_changes(x: u8, k: u8)
    requires
        k < 8,
    ensures
        x ^ (1u8 << k) != x,
{
    assert(x ^ (1u8 << k) != x) by (bit_vector)
        requires
            k < 8,
    ;
}

/// The fields of a chunk with payload `c.data` and CRC `crc` lie in `b`.
spec fn holds_chunk_fields(b: Seq<u8>, c: ChunkView, crc: u32) -> bool {
    let n = c.data.len() as int;
    &&& b.len() == 12 + n
    &&& be_u32_at(b, 0) == n
    &&& b.subrange(4, 8) == c.chunk_type
    &&& b.subrange(8, 8 + n) == c.data
    &&& be_u32_at(b, 8 + n) == crc
}

proof fn lemma_flip_crc_field(b: Seq<u8>, c: ChunkView, i: int, k: u8)
    requires
        is_chunk(c),
        holds_chunk_fields(b, c, chunk_crc(c)),
        8 + c.data.len() <= i < 12 + c.data.len(),
        k < 8,
    ensures
        parse_chunk(flip_bit(b, i, k)) == Err::<ChunkView, PngError>(PngError::ChecksumMismatch),
{
    let n = c.data.len() as int;
    let f = flip_bit(b, i, k);
    lemma_flip_changes(b[i], k);
    assert(f.subrange(4, 8) =~= b.subrange(4, 8));
    assert(f.subrange(8, 8 + n) =~= b.subrange(8, 8 + n));
    if be_u32_at(f, 8 + n) == be_u32_at(b, 8 + n) {
        lemma_be_u32_injective(
            f[8 + n],
            f[9 + n],
            f[10 + n],
            f[11 + n],
            b[8 + n],
            b[9 + n],
            b[10 + n],
            b[11 + n],
        );
    }
    lemma_parse_chunk_fields(f, c, be_u32_at(f, 8 + n));
}

proof fn lemma_flip_payload_field(b: Seq<u8>, c: ChunkView, i: int, k: u8)
    requires
        is_chunk(c),
        holds_chunk_fields(b, c, chunk_crc(c)),
        8 <= i < 8 + c.data.len(),
        k < 8,
    ensures
        holds_chunk_fields(
            flip_bit(b, i, k),
            ChunkView { chunk_type: c.chunk_type, data: flip_bit(c.data, i - 8, k) },
            chunk_crc(c),
        ),
{
    let n = c.data.len() as int;
    let f = flip_bit(b, i, k);
    let d = ChunkView { chunk_type: c.chunk_type, data: flip_bit(c.data, i - 8, k) };
    assert(f.subrange(4, 8) =~= b.subrange(4, 8));
    assert(b.subrange(8, 8 + n)[i - 8] == b[i]);
    assert(f.subrange(8, 8 + n) =~= d.data);
}

/// Inverting one bit of a written chunk's CRC makes reading it fail with
/// `ChecksumMismatch`.
pub proof fn lemma_flip_in_crc(c: ChunkView, i: int, k: u8)
    requires
        is_chunk(c),
        8 + c.data.len() <= i < 12 + c.data.len(),
        k < 8,
    ensures
        parse_chunk(flip_bit(chunk_bytes(c), i, k)) == Err::<ChunkView, PngError>(
            PngError::ChecksumMismatch,
        ),
{
    lemma_chunk_layout(c, Seq::empty());
    assert(chunk_bytes(c) + Seq::<u8>::empty() =~= chunk_bytes(c));
    lemma_flip_crc_field(chunk_bytes(c), c, i, k);
}

/// Inverting one bit of a written chunk's payload makes reading it fail with
/// `ChecksumMismatch`, unless the changed payload has the same CRC; then the
/// changed chunk is read.
pub proof fn lemma_flip_in_payload(c: ChunkView, i: int, k: u8)
    requires
        is_chunk(c),
        8 <= i < 8 + c.data.len(),
        k < 8,
    ensures
        ({
            let d = ChunkView { chunk_type: c.chunk_type, data: flip_bit(c.data, i - 8, k) };
            parse_chunk(flip_bit(chunk_bytes(c), i, k)) == if chunk_crc(d) == chunk_crc(c) {
                Ok::<ChunkView, PngError>(d)
            } else {
                Err::<ChunkView, PngError>(PngError::ChecksumMismatch)
            }
        }),
{
    let d = ChunkView { chunk_type: c.chunk_type, data: flip_bit(c.data, i - 8, k) };
    lemma_chunk_layout(c, Seq::empty());
    assert(chunk_bytes(c) + Seq::<u8>::empty() =~= chunk_bytes(c));
    lemma_flip_payload_field(chunk_bytes(c), c, i, k);
    lemma_parse_chunk_fields(flip_bit(chunk_bytes(c), i, k), d, chunk_crc(c));
}

} // verus!
