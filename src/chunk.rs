//! One chunk record: length, type, data and CRC.
use crate::chunk_type::{lemma_tag_len, utf8_text, ChunkType};
use crate::crc::{crc32, crc_feed, crc_fold, lemma_crc_fold_concat};
use crate::error::PngError;
use vstd::prelude::*;
use vstd::utf8::{decode_utf8, valid_utf8};

verus! {

broadcast use lemma_tag_len;

/// What a chunk holds: its type bytes, its data and its CRC.
pub struct ChunkModel {
    pub chunk_type: Seq<u8>,
    pub data: Seq<u8>,
    pub crc: u32,
}

impl ChunkModel {
    /// A four-byte type, data whose length fits the length field, and the CRC
    /// of type and data.
    pub open spec fn wf(self) -> bool {
        &&& self.chunk_type.len() == 4
        &&& self.data.len() <= u32::MAX
        &&& self.crc == crc32(self.chunk_type + self.data)
    }
}

/// The chunk of type `t` and data `d`, with the CRC of both.
pub open spec fn chunk_model(t: Seq<u8>, d: Seq<u8>) -> ChunkModel {
    ChunkModel { chunk_type: t, data: d, crc: crc32(t + d) }
}

/// The four big-endian bytes of `n`.
pub open spec fn be32_bytes(n: u32) -> Seq<u8> {
    seq![
        ((n >> 24u32) & 0xffu32) as u8,
        ((n >> 16u32) & 0xffu32) as u8,
        ((n >> 8u32) & 0xffu32) as u8,
        (n & 0xffu32) as u8,
    ]
}

/// The number that the first four bytes of `b` give, big-endian.
pub open spec fn be32_value(b: Seq<u8>) -> u32 {
    ((b[0] as u32) << 24u32) | ((b[1] as u32) << 16u32) | ((b[2] as u32) << 8u32) | (b[3] as u32)
}

/// The on-disk frame of a chunk: `length | type | data | crc`.
pub open spec fn frame(m: ChunkModel) -> Seq<u8> {
    be32_bytes(m.data.len() as u32) + m.chunk_type + m.data + be32_bytes(m.crc)
}

/// Decoding the chunk at the start of `b`: the chunk and the number of bytes
/// its frame takes, or why that fails.
#[verifier::opaque]
pub open spec fn decode_spec(b: Seq<u8>) -> Result<(ChunkModel, nat), PngError> {
    if b.len() < 12 {
        Err(PngError::Format)
    } else {
        let n = be32_value(b) as int;
        if b.len() < 12 + n {
            Err(PngError::Format)
        } else {
            let m = ChunkModel {
                chunk_type: b.subrange(4, 8),
                data: b.subrange(8, 8 + n),
                crc: be32_value(b.subrange(8 + n, 12 + n)),
            };
            if m.crc != crc32(m.chunk_type + m.data) {
                Err(PngError::Checksum)
            } else {
                Ok((m, (12 + n) as nat))
            }
        }
    }
}

/// The model of what a decoder returned.
pub open spec fn decoded(r: Result<(Chunk, usize), PngError>) -> Result<(ChunkModel, nat), PngError> {
    match r {
        Ok((c, k)) => Ok((c@, k as nat)),
        Err(e) => Err(e),
    }
}

/// Four bytes read back give the number they were written from.
pub proof fn lemma_be32_value_of_bytes(n: u32)
    ensures
        be32_value(be32_bytes(n)) == n,
{
    let b = be32_bytes(n);
    let (b0, b1, b2, b3) = (b[0], b[1], b[2], b[3]);
    assert(((b0 as u32) << 24u32) | ((b1 as u32) << 16u32) | ((b2 as u32) << 8u32) | (b3 as u32)
        == n) by (bit_vector)
        requires
            b0 == ((n >> 24u32) & 0xffu32) as u8,
            b1 == ((n >> 16u32) & 0xffu32) as u8,
            b2 == ((n >> 8u32) & 0xffu32) as u8,
            b3 == (n & 0xffu32) as u8,
    ;
}

/// A number read from four bytes writes back as those bytes.
pub proof fn lemma_be32_bytes_of_value(b: Seq<u8>)
    requires
        b.len() == 4,
    ensures
        be32_bytes(be32_value(b)) == b,
{
    let (b0, b1, b2, b3) = (b[0], b[1], b[2], b[3]);
    let v = be32_value(b);
    assert(((v >> 24u32) & 0xffu32) as u8 == b0 && ((v >> 16u32) & 0xffu32) as u8 == b1 && ((v
        >> 8u32) & 0xffu32) as u8 == b2 && (v & 0xffu32) as u8 == b3) by (bit_vector)
        requires
            v == ((b0 as u32) << 24u32) | ((b1 as u32) << 16u32) | ((b2 as u32) << 8u32) | (
            b3 as u32),
    ;
    assert(be32_bytes(v) =~= b);
}

/// A decoded chunk is well formed, and its frame is exactly the bytes it was
/// decoded from.
pub proof fn lemma_decoded_frame(b: Seq<u8>)
    requires
        decode_spec(b) is Ok,
    ensures
        ({
            let (m, k) = decode_spec(b)->Ok_0;
            &&& m.wf()
            &&& 12 <= k <= b.len()
            &&& frame(m) == b.subrange(0, k as int)
        }),
{
    reveal(decode_spec);
    let (m, k) = decode_spec(b)->Ok_0;
    let n = be32_value(b) as int;
    let head = b.subrange(0, 4);
    let tail = b.subrange(8 + n, 12 + n);
    lemma_be32_bytes_of_value(head);
    lemma_be32_bytes_of_value(tail);
    assert(be32_value(head) == be32_value(b));
    assert(m.data.len() == n);
    assert(be32_bytes(m.data.len() as u32) == head);
    assert(be32_bytes(m.crc) == tail);
    assert(b.subrange(0, k as int) =~= head + m.chunk_type + m.data + tail);
}

/// Decoding the frame of a well-formed chunk, whatever follows it, gives back
/// that chunk, CRC included, and uses up exactly the frame.
pub proof fn lemma_decode_frame(m: ChunkModel, rest: Seq<u8>)
    requires
        m.wf(),
    ensures
        decode_spec(frame(m) + rest) == Ok::<(ChunkModel, nat), PngError>((m, frame(m).len())),
{
    reveal(decode_spec);
    let b = frame(m) + rest;
    let n = m.data.len() as int;
    lemma_be32_value_of_bytes(m.data.len() as u32);
    lemma_be32_value_of_bytes(m.crc);
    assert(b.subrange(0, 4) =~= be32_bytes(m.data.len() as u32));
    assert(be32_value(b) == be32_value(b.subrange(0, 4)));
    assert(b.subrange(4, 8) =~= m.chunk_type);
    assert(b.subrange(8, 8 + n) =~= m.data);
    assert(b.subrange(8 + n, 12 + n) =~= be32_bytes(m.crc));
}

/// A chunk made from a four-byte type and data, once encoded and decoded
/// again, has the CRC it was made with.
pub proof fn lemma_decode_keeps_crc(t: Seq<u8>, d: Seq<u8>)
    requires
        t.len() == 4,
        d.len() <= u32::MAX,
    ensures
        decode_spec(frame(chunk_model(t, d))) is Ok,
        (decode_spec(frame(chunk_model(t, d)))->Ok_0).0.crc == chunk_model(t, d).crc,
{
    let m = chunk_model(t, d);
    lemma_decode_frame(m, Seq::empty());
    assert(frame(m) + Seq::<u8>::empty() =~= frame(m));
}

/// Changing any one byte of a frame's type, data or CRC makes decoding fail
/// with `Checksum`.
pub proof fn lemma_corrupt_frame(m: ChunkModel, i: int, x: u8)
    requires
        m.wf(),
        4 <= i < frame(m).len(),
        frame(m)[i] != x,
    ensures
        decode_spec(frame(m).update(i, x)) == Err::<(ChunkModel, nat), PngError>(
            PngError::Checksum,
        ),
{
    reveal(decode_spec);
    let b = frame(m);
    let c = b.update(i, x);
    let n = m.data.len() as int;
    lemma_be32_value_of_bytes(m.data.len() as u32);
    assert(b.subrange(0, 4) =~= be32_bytes(m.data.len() as u32));
    assert(be32_value(c) == be32_value(b.subrange(0, 4)));
    let td = m.chunk_type + m.data;
    let stored = c.subrange(8 + n, 12 + n);
    if i < 8 + n {
        assert(c.subrange(4, 8) + c.subrange(8, 8 + n) =~= td.update(i - 4, x));
        assert(td[i - 4] == b[i]);
        crate::crc::lemma_crc32_detects_byte_change(td, i - 4, x);
        assert(stored =~= be32_bytes(m.crc));
        lemma_be32_value_of_bytes(m.crc);
    } else {
        assert(c.subrange(4, 8) + c.subrange(8, 8 + n) =~= td);
        lemma_be32_bytes_of_value(stored);
        assert(stored[i - 8 - n] != be32_bytes(m.crc)[i - 8 - n]);
    }
}

fn read_be32(bytes: &[u8], at: usize) -> (r: u32)
    requires
        at + 4 <= bytes@.len(),
    ensures
        r == be32_value(bytes@.subrange(at as int, at + 4)),
{
    ((bytes[at] as u32) << 24u32) | ((bytes[at + 1] as u32) << 16u32) | ((bytes[at + 2] as u32)
        << 8u32) | (bytes[at + 3] as u32)
}

fn push_be32(out: &mut Vec<u8>, n: u32)
    ensures
        final(out)@ == old(out)@ + be32_bytes(n),
{
    out.push(((n >> 24u32) & 0xffu32) as u8);
    out.push(((n >> 16u32) & 0xffu32) as u8);
    out.push(((n >> 8u32) & 0xffu32) as u8);
    out.push((n & 0xffu32) as u8);
    assert(final(out)@ =~= old(out)@ + be32_bytes(n));
}

/// A chunk: its type, its data and the CRC of both.
pub struct Chunk {
    chunk_type: ChunkType,
    data: Vec<u8>,
    crc: u32,
}

impl View for Chunk {
    type V = ChunkModel;

    closed spec fn view(&self) -> ChunkModel {
        ChunkModel { chunk_type: self.chunk_type@, data: self.data@, crc: self.crc }
    }
}

impl Chunk {
    #[verifier::type_invariant]
    spec fn well_formed(self) -> bool {
        self@.wf()
    }

    /// A chunk of the given type and data, with its CRC computed.
    pub fn new(chunk_type: ChunkType, data: Vec<u8>) -> (r: Chunk)
        requires
            data@.len() <= u32::MAX,
        ensures
            r@ == chunk_model(chunk_type@, data@),
    {
        let tb = chunk_type.bytes();
        let s = crc_feed(0xFFFF_FFFFu32, tb.as_slice(), 0, 4);
        let s = crc_feed(s, data.as_slice(), 0, data.len());
        proof {
            assert(tb@.subrange(0, 4) =~= chunk_type@);
            assert(data@.subrange(0, data@.len() as int) =~= data@);
            lemma_crc_fold_concat(0xFFFF_FFFFu32, chunk_type@, data@);
            reveal(crc32);
        }
        Chunk { chunk_type, data, crc: s ^ 0xFFFF_FFFFu32 }
    }

    /// Decodes the chunk whose frame starts at `bytes[start]`.
    pub(crate) fn decode_at(bytes: &[u8], start: usize) -> (r: Result<(Chunk, usize), PngError>)
        requires
            start <= bytes@.len(),
        ensures
            decoded(r) == decode_spec(bytes@.subrange(start as int, bytes@.len() as int)),
    {
        let ghost b = bytes@.subrange(start as int, bytes@.len() as int);
        proof {
            reveal(decode_spec);
        }
        let avail = bytes.len() - start;
        if avail < 12 {
            return Err(PngError::Format);
        }
        let n = read_be32(bytes, start);
        assert(bytes@.subrange(start as int, start + 4) =~= b.subrange(0, 4));
        assert(be32_value(b) == be32_value(b.subrange(0, 4)));
        if avail - 12 < n as usize {
            return Err(PngError::Format);
        }
        let len = n as usize;
        let t0 = start + 4;
        let d0 = start + 8;
        let c0 = d0 + len;
        let computed = crc_feed(0xFFFF_FFFFu32, bytes, t0, c0) ^ 0xFFFF_FFFFu32;
        let stored = read_be32(bytes, c0);
        proof {
            assert(bytes@.subrange(t0 as int, c0 as int) =~= b.subrange(4, 8) + b.subrange(
                8,
                8 + len,
            ));
            assert(bytes@.subrange(c0 as int, c0 + 4) =~= b.subrange(8 + len, 12 + len));
            reveal(crc32);
        }
        if computed != stored {
            return Err(PngError::Checksum);
        }
        let chunk_type = ChunkType::from_bytes([bytes[t0], bytes[t0 + 1], bytes[t0 + 2], bytes[t0 + 3]]);
        let mut data: Vec<u8> = Vec::new();
        let mut i: usize = d0;
        while i < c0
            invariant
                d0 <= i <= c0,
                c0 + 4 <= bytes@.len(),
                data@ == bytes@.subrange(d0 as int, i as int),
            decreases c0 - i,
        {
            data.push(bytes[i]);
            assert(data@ =~= bytes@.subrange(d0 as int, i + 1));
            i = i + 1;
        }
        proof {
            assert(chunk_type@ =~= b.subrange(4, 8));
            assert(data@ =~= b.subrange(8, 8 + len));
        }
        Ok((Chunk { chunk_type, data, crc: stored }, c0 + 4 - start))
    }

    /// Decodes the chunk whose frame begins `bytes`, returning it with the
    /// number of bytes its frame takes.
    pub fn decode(bytes: &[u8]) -> (r: Result<(Chunk, usize), PngError>)
        ensures
            decoded(r) == decode_spec(bytes@),
            bytes@.len() < 12 ==> r == Err::<(Chunk, usize), PngError>(PngError::Format),
            bytes@.len() >= 12 && bytes@.len() < 12 + be32_value(bytes@) ==> r == Err::<
                (Chunk, usize),
                PngError,
            >(PngError::Format),
    {
        assert(bytes@.subrange(0, bytes@.len() as int) =~= bytes@);
        proof {
            reveal(decode_spec);
        }
        Chunk::decode_at(bytes, 0)
    }

    /// The frame of the chunk, as it is written to a file.
    pub fn encode(&self) -> (r: Vec<u8>)
        ensures
            r@ == frame(self@),
    {
        proof {
            use_type_invariant(self);
        }
        let mut out: Vec<u8> = Vec::new();
        push_be32(&mut out, self.data.len() as u32);
        let tb = self.chunk_type.bytes();
        out.push(tb[0]);
        out.push(tb[1]);
        out.push(tb[2]);
        out.push(tb[3]);
        let ghost head = out@;
        let mut i: usize = 0;
        while i < self.data.len()
            invariant
                i <= self.data@.len(),
                out@ == head + self.data@.subrange(0, i as int),
            decreases self.data@.len() - i,
        {
            out.push(self.data[i]);
            assert(out@ =~= head + self.data@.subrange(0, i + 1));
            i = i + 1;
        }
        push_be32(&mut out, self.crc);
        assert(out@ =~= frame(self@));
        out
    }

    /// The length of the data.
    pub fn length(&self) -> (r: u32)
        ensures
            r == self@.data.len(),
    {
        proof {
            use_type_invariant(self);
        }
        self.data.len() as u32
    }

    /// The chunk's type.
    pub fn chunk_type(&self) -> (r: ChunkType)
        ensures
            r@ == self@.chunk_type,
    {
        self.chunk_type
    }

    /// The chunk's data.
    pub fn data(&self) -> (r: &[u8])
        ensures
            r@ == self@.data,
    {
        self.data.as_slice()
    }

    /// The chunk's CRC, which is always that of its type and data.
    pub fn crc(&self) -> (r: u32)
        ensures
            r == self@.crc,
            self@.wf(),
    {
        proof {
            use_type_invariant(self);
        }
        self.crc
    }

    /// The data as text; fails with `Encoding` when it is not UTF-8.
    pub fn data_as_text(&self) -> (r: Result<String, PngError>)
        ensures
            r is Ok <==> valid_utf8(self@.data),
            r matches Ok(s) ==> s@ == decode_utf8(self@.data),
            r matches Err(e) ==> e == PngError::Encoding,
    {
        match utf8_text(self.data.clone()) {
            Some(s) => Ok(s),
            None => Err(PngError::Encoding),
        }
    }
}

} // verus!
