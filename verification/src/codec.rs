//! What stands between a chunk and its bytes: the codec that the user brings, the padding of
//! records to whole sectors, and compressed streams with their length in front.

use vstd::prelude::*;
use crate::chunk::{Chunk, ChunkIndex, SerialChunk};
use crate::dude::Dude;
use crate::point::WorldPosition;
use crate::region::{invalid_data, SerialError, SerialResult};

verus! {

/// The dudes of a list of borrowed dudes.
pub open spec fn dudes_of(list: Seq<(WorldPosition, &Dude)>) -> Seq<(WorldPosition, Dude)> {
    list.map_values(|entry: (WorldPosition, &Dude)| (entry.0, *entry.1))
}

/// Turns what is saved of a chunk, its cells and the dudes who stand on them, into bytes, and
/// bytes into what was saved.
///
/// A region file pads the bytes with zeroes to whole sectors, and a record that was written
/// over by a shorter one keeps the longer one's tail. `decode` is handed all of it, and has to
/// find the end of the payload by itself.
///
/// A codec is a function: what `encode` and `decode` give depends on what they are given and
/// on nothing else. `encoding` and `decoding` are the names of what they give. The library
/// states what it writes and what it hands out in these names; it knows nothing else of them,
/// and what it proves holds of a codec that keeps to this.
pub trait ChunkCodec {
    /// The bytes that `encode` makes of a chunk and its dudes, where it makes any.
    open spec fn encoding(&self, chunk: Chunk, dudes: Seq<(WorldPosition, Dude)>) -> Option<
        Seq<u8>,
    > {
        arbitrary()
    }

    /// The chunk and the dudes that `decode` finds in bytes, where it finds any.
    open spec fn decoding(&self, bytes: Seq<u8>) -> Option<(Chunk, Seq<(WorldPosition, Dude)>)> {
        arbitrary()
    }

    fn encode(&self, chunk: &Chunk, dudes: &Vec<(WorldPosition, &Dude)>) -> (result: Result<
        Vec<u8>,
        Box<bincode::ErrorKind>,
    >)
        ensures
            match result {
                Ok(bytes) => self.encoding(*chunk, dudes_of(dudes@)) == Some(bytes@),
                Err(_) => self.encoding(*chunk, dudes_of(dudes@)) is None,
            },
    ;

    fn decode(&self, bytes: &Vec<u8>) -> (result: Result<SerialChunk, Box<bincode::ErrorKind>>)
        ensures
            match result {
                Ok(payload) => self.decoding(bytes@) == Some((payload.chunk, payload.dudes@)),
                Err(_) => self.decoding(bytes@) is None,
            },
    ;
}

/// Makes the cells of a chunk that was never seen before.
pub trait ChunkGenerator {
    fn generate(&mut self, index: &ChunkIndex) -> Chunk;
}

/// The codec finds in a record what was saved: it reads a payload back from any bytes that
/// start with the payload's encoding, whatever zeroes and leftovers follow it.
pub open spec fn reads_back_what_it_wrote<K: ChunkCodec>(codec: &K) -> bool {
    forall|chunk: Chunk, dudes: Seq<(WorldPosition, Dude)>, record: Seq<u8>|
        #![trigger codec.encoding(chunk, dudes), codec.decoding(record)]
        codec.encoding(chunk, dudes) is Some && codec.encoding(chunk, dudes).unwrap().is_prefix_of(
            record,
        ) ==> codec.decoding(record) == Some((chunk, dudes))
}

/// The number of zero bytes that bring a record of `len` bytes to the next multiple of `size`:
/// at least one, at most `size`.
pub open spec fn padding(len: nat, size: nat) -> nat {
    (size - len % size) as nat
}

/// `n` zero bytes.
pub open spec fn zeros(n: nat) -> Seq<u8> {
    Seq::new(n, |i: int| 0u8)
}

/// The bytes followed by zeroes up to the next multiple of `size`.
pub open spec fn padded(bytes: Seq<u8>, size: nat) -> Seq<u8> {
    bytes + zeros(padding(bytes.len(), size))
}

/// A padded record is longer than what it holds, by a sector at most, and fills whole sectors.
pub proof fn lemma_padded_len(len: nat, size: nat)
    requires
        size > 0,
    ensures
        0 < padding(len, size) <= size,
        (len + padding(len, size)) % size == 0,
        len + padding(len, size) == (len / size + 1) * size,
{
    vstd::arithmetic::div_mod::lemma_fundamental_div_mod(len as int, size as int);
    vstd::arithmetic::div_mod::lemma_mod_bound(len as int, size as int);
    let q = len as int / size as int;
    let r = len as int % size as int;
    assert(len + (size - r) == (q + 1) * size) by (nonlinear_arith)
        requires
            len == size * q + r,
    ;
    vstd::arithmetic::div_mod::lemma_mod_multiples_basic(q + 1, size as int);
}

/// Pads the given byte vec with zeroes to the next multiple of the given sector size. A vec
/// whose length is a multiple already grows by a whole sector.
pub fn pad_byte_vec(bytes: &mut Vec<u8>, size: usize)
    requires
        size > 0,
        old(bytes).len() + size <= usize::MAX,
    ensures
        final(bytes)@ == padded(old(bytes)@, size as nat),
        final(bytes).len() % size == 0,
        final(bytes).len() == (old(bytes).len() / size + 1) * size,
{
    proof {
        lemma_padded_len(bytes.len() as nat, size as nat);
    }
    let count: usize = size - (bytes.len() % size);
    let mut i: usize = 0;
    while i < count
        invariant
            i <= count,
            count == padding(old(bytes)@.len(), size as nat),
            old(bytes).len() + count <= usize::MAX,
            bytes@ == old(bytes)@ + zeros(i as nat),
        decreases count - i,
    {
        bytes.push(0);
        assert(bytes@ =~= old(bytes)@ + zeros((i + 1) as nat));
        i += 1;
    }
}

/// The number that four bytes stand for, the first byte weighing most.
pub open spec fn u32_from_be(bytes: Seq<u8>) -> int {
    bytes[0] * 0x100_0000 + bytes[1] * 0x1_0000 + bytes[2] * 0x100 + bytes[3]
}

/// The four bytes of a number, the one that weighs most first.
pub open spec fn u32_to_be(val: u32) -> Seq<u8> {
    seq![
        (val / 0x100_0000) as u8,
        (val / 0x1_0000 % 0x100) as u8,
        (val / 0x100 % 0x100) as u8,
        (val % 0x100) as u8,
    ]
}

/// Reading back the four bytes of a number gives the number.
pub proof fn lemma_u32_be_roundtrip(val: u32)
    ensures
        u32_to_be(val).len() == 4,
        u32_from_be(u32_to_be(val)) == val,
{
}

/// Writes a length as the four bytes of a record's header, the byte that weighs most first.
pub fn serialize_u32(val: u32) -> (bytes: [u8; 4])
    ensures
        bytes@ == u32_to_be(val),
{
    let b0: u32 = val >> 24;
    let b1: u32 = (val >> 16) & 0xff;
    let b2: u32 = (val >> 8) & 0xff;
    let b3: u32 = val & 0xff;
    assert(b0 == val / 0x100_0000 && b0 < 0x100) by (bit_vector)
        requires
            b0 == val >> 24,
    ;
    assert(b1 == val / 0x1_0000 % 0x100 && b1 < 0x100) by (bit_vector)
        requires
            b1 == (val >> 16) & 0xff,
    ;
    assert(b2 == val / 0x100 % 0x100 && b2 < 0x100) by (bit_vector)
        requires
            b2 == (val >> 8) & 0xff,
    ;
    assert(b3 == val % 0x100 && b3 < 0x100) by (bit_vector)
        requires
            b3 == val & 0xff,
    ;
    let bytes: [u8; 4] = [b0 as u8, b1 as u8, b2 as u8, b3 as u8];
    assert(bytes@ =~= u32_to_be(val));
    bytes
}

/// Reads the length that stands in the first four bytes of a buffer.
pub fn deserialize_u32(buf: &[u8]) -> (val: u32)
    requires
        buf@.len() >= 4,
    ensures
        val == u32_from_be(buf@),
{
    let b0: u32 = buf[0] as u32;
    let b1: u32 = buf[1] as u32;
    let b2: u32 = buf[2] as u32;
    let b3: u32 = buf[3] as u32;
    let val: u32 = (b0 << 24) | (b1 << 16) | (b2 << 8) | b3;
    assert(val == b0 * 0x100_0000 + b1 * 0x1_0000 + b2 * 0x100 + b3) by (bit_vector)
        requires
            val == (b0 << 24) | (b1 << 16) | (b2 << 8) | b3,
            b0 < 0x100,
            b1 < 0x100,
            b2 < 0x100,
            b3 < 0x100,
    ;
    val
}

/// The zlib stream that `flate2` makes of bytes at its default level of compression; none
/// where it fails.
pub uninterp spec fn zlib_stream(bytes: Seq<u8>) -> Option<Seq<u8>>;

/// The bytes that `flate2` reads from a zlib stream; none where the bytes are no such stream.
pub uninterp spec fn zlib_content(stream: Seq<u8>) -> Option<Seq<u8>>;

/// Writes the bytes through a `flate2::write::ZlibEncoder` over an empty vec, made with
/// `Compression::default()`, and calls its `finish`, which hands out the vec with the whole
/// zlib stream in it. What comes out depends on the bytes alone and is named `zlib_stream`,
/// a failure too. That nothing fails is not claimed.
#[verifier::external_body]
fn zlib_encode(bytes: &Vec<u8>) -> (result: Result<Vec<u8>, std::io::Error>)
    ensures
        match result {
            Ok(stream) => zlib_stream(bytes@) == Some(stream@),
            Err(_) => zlib_stream(bytes@) is None,
        },
{
    let mut e = flate2::write::ZlibEncoder::new(Vec::new(), flate2::Compression::default());
    std::io::Write::write_all(&mut e, bytes.as_slice())?;
    e.finish()
}

/// Reads a `flate2::read::ZlibDecoder` over the bytes to its end. What is read where the
/// bytes are a zlib stream is named `zlib_content`; where they are none, the decoder fails.
#[verifier::external_body]
fn zlib_decode(stream: &[u8]) -> (result: Result<Vec<u8>, std::io::Error>)
    ensures
        match result {
            Ok(bytes) => zlib_content(stream@) == Some(bytes@),
            Err(_) => zlib_content(stream@) is None,
        },
{
    let mut d = flate2::read::ZlibDecoder::new(stream);
    let mut buf = Vec::new();
    std::io::Read::read_to_end(&mut d, &mut buf)?;
    Ok(buf)
}

/// A compressed stream behind a header of four bytes that says how long it is.
pub open spec fn framed(stream: Seq<u8>) -> Seq<u8> {
    u32_to_be(stream.len() as u32) + stream
}

/// The compressed stream that a frame holds: the bytes behind the header, as many as the
/// header says; none where the frame is shorter than that.
pub open spec fn unframed(frame: Seq<u8>) -> Option<Seq<u8>> {
    if frame.len() >= 4 && 4 + u32_from_be(frame) <= frame.len() {
        Some(frame.subrange(4, 4 + u32_from_be(frame)))
    } else {
        None
    }
}

/// A frame gives its stream back, whatever follows the frame.
pub proof fn lemma_frame_roundtrip(stream: Seq<u8>, tail: Seq<u8>)
    requires
        stream.len() <= u32::MAX,
    ensures
        unframed(framed(stream) + tail) == Some(stream),
{
    let frame = framed(stream) + tail;
    lemma_u32_be_roundtrip(stream.len() as u32);
    assert(frame.subrange(0, 4) =~= u32_to_be(stream.len() as u32));
    assert(u32_from_be(frame) == stream.len());
    assert(frame.subrange(4, 4 + stream.len() as int) =~= stream);
}

/// Puts the header that says how long it is in front of a compressed stream.
pub fn frame_stream(stream: Vec<u8>) -> (frame: Vec<u8>)
    requires
        stream@.len() <= u32::MAX,
    ensures
        frame@ == framed(stream@),
{
    let size: u32 = stream.len() as u32;
    let header: [u8; 4] = serialize_u32(size);
    let mut frame: Vec<u8> = Vec::new();
    frame.push(header[0]);
    frame.push(header[1]);
    frame.push(header[2]);
    frame.push(header[3]);
    assert(frame@ =~= u32_to_be(size));
    frame.extend_from_slice(stream.as_slice());
    frame
}

/// Compresses bytes and puts the length of the compressed stream in front of it. A stream
/// too long for the header to say its length is turned down as too long for any region, and
/// bytes that cannot be compressed with the error of the compressor.
pub fn compress_data(bytes: &Vec<u8>) -> (result: SerialResult<Vec<u8>>)
    ensures
        match zlib_stream(bytes@) {
            Some(stream) => if stream.len() <= u32::MAX {
                result matches Ok(frame) && frame@ == framed(stream)
            } else {
                result == Err::<Vec<u8>, SerialError>(SerialError::RegionFull)
            },
            None => result matches Err(SerialError::IoError(_)),
        },
{
    let stream: Vec<u8> = match zlib_encode(bytes) {
        Ok(stream) => stream,
        Err(e) => {
            return Err(SerialError::from(e));
        },
    };
    if stream.len() > u32::MAX as usize {
        return Err(SerialError::RegionFull);
    }
    Ok(frame_stream(stream))
}

/// Reads the length of the compressed stream from the header of a frame, and decompresses
/// the stream. What follows the stream is left alone. A frame that is shorter than its header
/// says, and a stream that is no zlib stream, are turned down.
pub fn decompress_data(bytes: &Vec<u8>) -> (result: SerialResult<Vec<u8>>)
    ensures
        match unframed(bytes@) {
            Some(stream) => match zlib_content(stream) {
                Some(content) => result matches Ok(buf) && buf@ == content,
                None => result matches Err(SerialError::IoError(_)),
            },
            None => result matches Err(SerialError::IoError(_)),
        },
{
    if bytes.len() < 4 {
        return Err(SerialError::from(invalid_data()));
    }
    let data_length: usize = deserialize_u32(bytes.as_slice()) as usize;
    if data_length > bytes.len() - 4 {
        return Err(SerialError::from(invalid_data()));
    }
    let stream: &[u8] = vstd::slice::slice_subrange(bytes.as_slice(), 4, 4 + data_length);
    match zlib_decode(stream) {
        Ok(buf) => Ok(buf),
        Err(e) => Err(SerialError::from(e)),
    }
}

} // verus!
