use vstd::prelude::*;
use vstd::slice::slice_subrange;
use vstd::utf8::{decode_utf8, encode_utf8, valid_utf8};
use crate::chunk::{
    chunk_bytes, chunk_summary, is_chunk, lemma_parse_chunk_bytes, lemma_parse_chunk_fits,
    parse_chunk, Chunk, ChunkView,
};
use crate::chunk_type::{type_from_text, ChunkType};
use crate::text::{
    decimal_list, lemma_valid_utf8_append, push_decimal_list, push_str, utf8_to_string,
};
use crate::error::PngError;

verus! {

/// The eight bytes that open every PNG stream.
pub open spec fn png_signature() -> Seq<u8> {
    seq![137u8, 80u8, 78u8, 71u8, 13u8, 10u8, 26u8, 10u8]
}

/// What each chunk of a sequence holds.
pub open spec fn chunk_views(cs: Seq<Chunk>) -> Seq<ChunkView> {
    cs.map_values(|c: Chunk| c@)
}

/// The chunks written one after another.
pub open spec fn chunks_bytes(cs: Seq<ChunkView>) -> Seq<u8>
    decreases cs.len(),
{
    if cs.len() == 0 {
        Seq::empty()
    } else {
        chunk_bytes(cs[0]) + chunks_bytes(cs.drop_first())
    }
}

/// A whole stream as it is written: the signature, then the chunks in order.
pub open spec fn png_bytes(cs: Seq<ChunkView>) -> Seq<u8> {
    png_signature() + chunks_bytes(cs)
}

/// The chunks that fill `b` exactly, one after another, or the first reason
/// why the next one cannot be read.
pub open spec fn parse_chunks(b: Seq<u8>) -> Result<Seq<ChunkView>, PngError>
    decreases b.len(),
    via parse_chunks_decreases
{
    if b.len() == 0 {
        Ok(Seq::empty())
    } else {
        match parse_chunk(b) {
            Err(e) => Err(e),
            Ok(c) => match parse_chunks(b.subrange(12 + c.data.len() as int, b.len() as int)) {
                Ok(rest) => Ok(seq![c] + rest),
                Err(e) => Err(e),
            },
        }
    }
}

#[via_fn]
proof fn parse_chunks_decreases(b: Seq<u8>) {
    lemma_parse_chunk_fits(b);
}

/// The chunks of a stream: the signature must come first, and every byte
/// after it must belong to a chunk that reads correctly.
pub open spec fn parse_png(b: Seq<u8>) -> Result<Seq<ChunkView>, PngError> {
    if b.len() < 8 || b.subrange(0, 8) != png_signature() {
        Err(PngError::BadHeader)
    } else {
        parse_chunks(b.subrange(8, b.len() as int))
    }
}

/// Index `i` holds the first chunk of type `t`.
pub open spec fn is_first_of_type(cs: Seq<ChunkView>, t: Seq<u8>, i: int) -> bool {
    &&& 0 <= i < cs.len()
    &&& cs[i].chunk_type == t
    &&& forall|j: int| 0 <= j < i ==> cs[j].chunk_type != t
}

/// Some chunk has type `t`.
pub open spec fn has_type(cs: Seq<ChunkView>, t: Seq<u8>) -> bool {
    exists|i: int| 0 <= i < cs.len() && cs[i].chunk_type == t
}

/// One indented line per chunk, in order.
pub open spec fn chunk_lines(cs: Seq<ChunkView>) -> Seq<u8>
    decreases cs.len(),
{
    if cs.len() == 0 {
        Seq::empty()
    } else {
        chunk_lines(cs.drop_last()) + encode_utf8("    "@) + chunk_summary(cs.last())
            + encode_utf8("\n"@)
    }
}

/// A stream described as text, as UTF-8: a title, the signature as a list of
/// byte values, then one line per chunk.
pub open spec fn png_summary(cs: Seq<ChunkView>) -> Seq<u8> {
    encode_utf8("PNG File:\n  Header: "@) + decimal_list(png_signature()) + encode_utf8(
        "\n  Chunks:\n"@,
    ) + chunk_lines(cs)
}

spec fn prepend(
    done: Seq<ChunkView>,
    r: Result<Seq<ChunkView>, PngError>,
) -> Result<Seq<ChunkView>, PngError> {
    match r {
        Ok(rest) => Ok(done + rest),
        Err(e) => Err(e),
    }
}

/// A PNG stream: the signature, which is always `Png::STANDARD_HEADER`, and
/// an ordered sequence of chunks.
pub struct Png {
    chunks: Vec<Chunk>,
}

impl View for Png {
    type V = Seq<ChunkView>;

    closed spec fn view(&self) -> Seq<ChunkView> {
        chunk_views(self.chunks@)
    }
}

impl Png {
    /// The PNG signature.
    pub const STANDARD_HEADER: [u8; 8] = [137, 80, 78, 71, 13, 10, 26, 10];

    /// A stream holding the given chunks, in order.
    pub fn from_chunks(chunks: Vec<Chunk>) -> (r: Png)
        ensures
            r@ == chunk_views(chunks@),
    {
        Png { chunks }
    }

    /// Adds a chunk at the end.
    pub fn append_chunk(&mut self, chunk: Chunk)
        ensures
            final(self)@ == old(self)@.push(chunk@),
    {
        self.chunks.push(chunk);
        assert(chunk_views(self.chunks@) =~= chunk_views(old(self).chunks@).push(chunk@));
    }

    /// Removes and returns the first chunk whose type is `chunk_type`.
    ///
    /// Fails, and leaves the stream as it was, when the text is not a chunk
    /// type or no chunk has that type.
    pub fn remove_first_chunk(&mut self, chunk_type: &str) -> (r: Result<Chunk, PngError>)
        ensures
            match type_from_text(chunk_type@) {
                Err(e) => r == Err::<Chunk, PngError>(e) && final(self)@ == old(self)@,
                Ok(t) => if has_type(old(self)@, t) {
                    r matches Ok(c) && exists|i: int|
                        is_first_of_type(old(self)@, t, i) && c@ == old(self)@[i]
                            && final(self)@ == old(self)@.remove(i)
                } else {
                    r == Err::<Chunk, PngError>(PngError::NotFound)
                        && final(self)@ == old(self)@
                },
            },
    {
        let t = match ChunkType::from_str(chunk_type) {
            Ok(t) => t,
            Err(e) => return Err(e),
        };
        let mut i: usize = 0;
        while i < self.chunks.len()
            invariant
                i <= self.chunks@.len(),
                self.chunks@ == old(self).chunks@,
                type_from_text(chunk_type@) == Ok::<Seq<u8>, PngError>(t@),
                forall|j: int| 0 <= j < i ==> self@[j].chunk_type != t@,
            decreases self.chunks@.len() - i,
        {
            assert(self@[i as int] == self.chunks@[i as int]@);
            if *self.chunks[i].chunk_type() == t {
                assert(is_first_of_type(old(self)@, t@, i as int));
                assert(has_type(old(self)@, t@));
                let ghost before = self.chunks@;
                let c = self.chunks.remove(i);
                assert(c@ == old(self)@[i as int]);
                assert(chunk_views(self.chunks@) =~= chunk_views(before).remove(i as int));
                assert(self@ == old(self)@.remove(i as int));
                assert(type_from_text(chunk_type@) == Ok::<Seq<u8>, PngError>(t@));
                return Ok(c);
            }
            i = i + 1;
        }
        assert forall|j: int| 0 <= j < old(self)@.len() implies old(self)@[j].chunk_type
            != t@ by {
            assert(old(self)@[j] == self@[j]);
        }
        assert(!has_type(old(self)@, t@));
        Err(PngError::NotFound)
    }

    /// The signature at the start of the stream.
    pub fn header(&self) -> (r: &[u8; 8])
        ensures
            r@ == png_signature(),
    {
        let r = &Png::STANDARD_HEADER;
        assert(r@ =~= png_signature());
        r
    }

    /// The chunks, in order.
    pub fn chunks(&self) -> (r: &[Chunk])
        ensures
            chunk_views(r@) == self@,
    {
        self.chunks.as_slice()
    }

    /// The first chunk whose type is `chunk_type`; none when the text is not
    /// a chunk type or no chunk has that type.
    pub fn chunk_by_type(&self, chunk_type: &str) -> (r: Option<&Chunk>)
        ensures
            match type_from_text(chunk_type@) {
                Err(_) => r is None,
                Ok(t) => if has_type(self@, t) {
                    r matches Some(c) && exists|i: int| is_first_of_type(self@, t, i) && c@ == self@[i]
                } else {
                    r is None
                },
            },
    {
        let t = match ChunkType::from_str(chunk_type) {
            Ok(t) => t,
            Err(_) => return None,
        };
        let mut i: usize = 0;
        while i < self.chunks.len()
            invariant
                i <= self.chunks@.len(),
                forall|j: int| 0 <= j < i ==> self@[j].chunk_type != t@,
                type_from_text(chunk_type@) == Ok::<Seq<u8>, PngError>(t@),
            decreases self.chunks@.len() - i,
        {
            assert(self@[i as int] == self.chunks@[i as int]@);
            if *self.chunks[i].chunk_type() == t {
                assert(is_first_of_type(self@, t@, i as int));
                assert(has_type(self@, t@));
                assert(type_from_text(chunk_type@) == Ok::<Seq<u8>, PngError>(t@));
                assert(self.chunks@[i as int]@ == self@[i as int]);
                return Some(&self.chunks[i]);
            }
            i = i + 1;
        }
        assert(!has_type(self@, t@));
        None
    }

    /// The stream as it is written: the signature, then every chunk in order.
    pub fn as_bytes(&self) -> (r: Vec<u8>)
        ensures
            r@ == png_bytes(self@),
    {
        let header = self.header();
        let mut r: Vec<u8> = Vec::new();
        crate::bytes::push_all(&mut r, header.as_slice());
        let mut i: usize = 0;
        while i < self.chunks.len()
            invariant
                i <= self.chunks@.len(),
                r@ == png_signature() + chunks_bytes(self@.take(i as int)),
            decreases self.chunks@.len() - i,
        {
            let b = self.chunks[i].as_bytes();
            crate::bytes::push_all(&mut r, b.as_slice());
            proof {
                assert(self@.take(i + 1) =~= self@.take(i as int).push(self@[i as int]));
                lemma_chunks_bytes_push(self@.take(i as int), self@[i as int]);
            }
            i = i + 1;
        }
        assert(self@.take(i as int) =~= self@);
        r
    }

    /// The stream described as text: a title, the signature, then one
    /// indented line per chunk.
    pub fn to_string(&self) -> (r: String)
        ensures
            r@ == decode_utf8(png_summary(self@)),
    {
        let mut out: Vec<u8> = Vec::new();
        proof {
            crate::text::lemma_ascii_valid_utf8(out@);
        }
        push_str(&mut out, "PNG File:\n  Header: ");
        push_decimal_list(&mut out, self.header().as_slice());
        push_str(&mut out, "\n  Chunks:\n");
        let ghost head = out@;
        let mut i: usize = 0;
        while i < self.chunks.len()
            invariant
                i <= self.chunks@.len(),
                out@ == head + chunk_lines(self@.take(i as int)),
                valid_utf8(out@),
            decreases self.chunks@.len() - i,
        {
            push_str(&mut out, "    ");
            let line = self.chunks[i].summary();
            proof {
                lemma_valid_utf8_append(out@, line@);
            }
            crate::bytes::push_all(&mut out, line.as_slice());
            push_str(&mut out, "\n");
            proof {
                let t = self@.take(i + 1);
                assert(t.drop_last() =~= self@.take(i as int));
                assert(t.last() == self@[i as int]);
                assert(out@ =~= head + chunk_lines(t));
            }
            i = i + 1;
        }
        assert(self@.take(i as int) =~= self@);
        assert(out@ =~= png_summary(self@));
        match utf8_to_string(out) {
            Some(s) => s,
            None => String::new(),
        }
    }

    /// Reads a whole stream: the signature, then chunks up to the last byte.
    ///
    /// Every byte after the signature must belong to a chunk: bytes left
    /// over after the last whole chunk are read as a chunk, and fail.
    pub fn try_from(value: &[u8]) -> (r: Result<Png, PngError>)
        ensures
            r is Ok <==> parse_png(value@) is Ok,
            r matches Ok(p) ==> parse_png(value@) == Ok::<Seq<ChunkView>, PngError>(p@),
            r matches Err(e) ==> parse_png(value@) == Err::<Seq<ChunkView>, PngError>(e),
    {
        if value.len() < 8 || !(value[0] == 137 && value[1] == 80 && value[2] == 78 && value[3]
            == 71 && value[4] == 13 && value[5] == 10 && value[6] == 26 && value[7] == 10) {
            proof {
                if value@.len() >= 8 && value@.subrange(0, 8) == png_signature() {
                    assert(value@[0] == value@.subrange(0, 8)[0]);
                    assert(value@[1] == value@.subrange(0, 8)[1]);
                    assert(value@[2] == value@.subrange(0, 8)[2]);
                    assert(value@[3] == value@.subrange(0, 8)[3]);
                    assert(value@[4] == value@.subrange(0, 8)[4]);
                    assert(value@[5] == value@.subrange(0, 8)[5]);
                    assert(value@[6] == value@.subrange(0, 8)[6]);
                    assert(value@[7] == value@.subrange(0, 8)[7]);
                }
            }
            return Err(PngError::BadHeader);
        }
        assert(value@.subrange(0, 8) =~= png_signature());
        let mut chunks: Vec<Chunk> = Vec::new();
        let mut index: usize = 8;
        while index < value.len()
            invariant
                8 <= index <= value@.len(),
                parse_png(value@) == prepend(
                    chunk_views(chunks@),
                    parse_chunks(value@.subrange(index as int, value@.len() as int)),
                ),
            decreases value@.len() - index,
        {
            let rest = slice_subrange(value, index, value.len());
            let chunk = match Chunk::try_from(rest) {
                Ok(c) => c,
                Err(e) => return Err(e),
            };
            let n = chunk.length() as usize;
            proof {
                lemma_parse_chunk_fits(rest@);
                let next = value@.subrange(index + 12 + n, value@.len() as int);
                assert(rest@.subrange(12 + n, rest@.len() as int) =~= next);
                assert(chunk_views(chunks@.push(chunk)) =~= chunk_views(chunks@).push(chunk@));
                match parse_chunks(next) {
                    Ok(s) => {
                        assert(chunk_views(chunks@) + (seq![chunk@] + s) =~= chunk_views(
                            chunks@,
                        ).push(chunk@) + s);
                    },
                    Err(_) => {},
                }
            }
            index = index + 12 + n;
            chunks.push(chunk);
        }
        assert(chunk_views(chunks@) + Seq::empty() =~= chunk_views(chunks@));
        Ok(Png { chunks })
    }
}

/// Writing one more chunk appends its bytes.
pub proof fn lemma_chunks_bytes_push(cs: Seq<ChunkView>, c: ChunkView)
    ensures
        chunks_bytes(cs.push(c)) == chunks_bytes(cs) + chunk_bytes(c),
    decreases cs.len(),
{
    if cs.len() == 0 {
        assert(cs.push(c).drop_first() =~= Seq::<ChunkView>::empty());
        assert(cs.push(c)[0] == c);
        assert(chunks_bytes(Seq::<ChunkView>::empty()) == Seq::<u8>::empty());
        assert(chunks_bytes(cs.push(c)) =~= chunks_bytes(cs) + chunk_bytes(c));
    } else {
        assert(cs.push(c).drop_first() =~= cs.drop_first().push(c));
        assert(cs.push(c)[0] == cs[0]);
        lemma_chunks_bytes_push(cs.drop_first(), c);
        assert(chunks_bytes(cs.push(c)) == chunk_bytes(cs[0]) + chunks_bytes(
            cs.drop_first().push(c),
        ));
        assert(chunks_bytes(cs.push(c)) =~= chunks_bytes(cs) + chunk_bytes(c));
    }
}

/// Chunks written one after another read back as the same chunks.
pub proof fn lemma_chunks_round_trip(cs: Seq<ChunkView>)
    requires
        forall|i: int| 0 <= i < cs.len() ==> is_chunk(#[trigger] cs[i]),
    ensures
        parse_chunks(chunks_bytes(cs)) == Ok::<Seq<ChunkView>, PngError>(cs),
    decreases cs.len(),
{
    if cs.len() > 0 {
        let rest = cs.drop_first();
        let b = chunks_bytes(cs);
        assert(is_chunk(cs[0]));
        assert(b == chunk_bytes(cs[0]) + chunks_bytes(rest));
        lemma_parse_chunk_bytes(cs[0], chunks_bytes(rest));
        assert(b.subrange(12 + cs[0].data.len() as int, b.len() as int) =~= chunks_bytes(rest));
        assert forall|i: int| 0 <= i < rest.len() implies is_chunk(#[trigger] rest[i]) by {
            assert(rest[i] == cs[i + 1]);
        }
        lemma_chunks_round_trip(rest);
        assert(b.len() != 0);
        assert(parse_chunk(b) == Ok::<ChunkView, PngError>(cs[0]));
        assert(parse_chunks(b.subrange(12 + cs[0].data.len() as int, b.len() as int)) == Ok::<
            Seq<ChunkView>,
            PngError,
        >(rest));
        assert(seq![cs[0]] + rest =~= cs);
        assert(parse_chunks(b) == Ok::<Seq<ChunkView>, PngError>(seq![cs[0]] + rest));
    } else {
        assert(cs =~= Seq::<ChunkView>::empty());
    }
}

/// A written stream reads back as the same chunks, in the same order.
pub proof fn lemma_png_round_trip(cs: Seq<ChunkView>)
    requires
        forall|i: int| 0 <= i < cs.len() ==> is_chunk(#[trigger] cs[i]),
    ensures
        parse_png(png_bytes(cs)) == Ok::<Seq<ChunkView>, PngError>(cs),
{
    let b = png_bytes(cs);
    assert(b.subrange(0, 8) =~= png_signature());
    assert(b.subrange(8, b.len() as int) =~= chunks_bytes(cs));
    lemma_chunks_round_trip(cs);
}

} // verus!
