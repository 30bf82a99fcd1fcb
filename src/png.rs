//! A whole PNG file: the signature followed by an ordered sequence of chunks.
use crate::chunk::{
    decode_spec, frame, lemma_decode_frame, lemma_decoded_frame, Chunk, ChunkModel,
};
use crate::error::PngError;
use vstd::prelude::*;
use vstd::string::StringSliceAdditionalSpecFns;

verus! {

/// The eight bytes that every PNG file starts with.
pub open spec fn png_signature() -> Seq<u8> {
    seq![137u8, 80u8, 78u8, 71u8, 13u8, 10u8, 26u8, 10u8]
}

/// The frames of a sequence of chunks, one after the other.
pub open spec fn frames(s: Seq<ChunkModel>) -> Seq<u8>
    decreases s.len(),
{
    if s.len() == 0 {
        Seq::empty()
    } else {
        frame(s[0]) + frames(s.drop_first())
    }
}

/// The bytes of a file holding the chunks `s`.
pub open spec fn png_bytes(s: Seq<ChunkModel>) -> Seq<u8> {
    png_signature() + frames(s)
}

/// Decoding chunks one after the other until `b` is used up.
pub open spec fn parse_chunks(b: Seq<u8>) -> Result<Seq<ChunkModel>, PngError>
    decreases b.len(),
    via parse_chunks_decreases
{
    if b.len() == 0 {
        Ok(Seq::empty())
    } else {
        match decode_spec(b) {
            Err(e) => Err(e),
            Ok((m, k)) => match parse_chunks(b.subrange(k as int, b.len() as int)) {
                Ok(rest) => Ok(seq![m] + rest),
                Err(e) => Err(e),
            },
        }
    }
}

/// Each decoded frame takes at least twelve bytes, so the rest is shorter.
#[via_fn]
proof fn parse_chunks_decreases(b: Seq<u8>) {
    if b.len() != 0 && decode_spec(b) is Ok {
        lemma_decoded_frame(b);
    }
}

/// Parsing a whole file: the signature, then the chunks.
pub open spec fn parse_spec(b: Seq<u8>) -> Result<Seq<ChunkModel>, PngError> {
    if b.len() < 8 || b.subrange(0, 8) != png_signature() {
        Err(PngError::Format)
    } else {
        parse_chunks(b.subrange(8, b.len() as int))
    }
}

/// The chunk at `i` is the first in `s` whose type bytes are `tag`.
pub open spec fn is_first_of(s: Seq<ChunkModel>, tag: Seq<u8>, i: int) -> bool {
    &&& 0 <= i < s.len()
    &&& s[i].chunk_type == tag
    &&& forall|j: int| 0 <= j < i ==> #[trigger] s[j].chunk_type != tag
}

/// No chunk in `s` has the type bytes `tag`.
pub open spec fn lacks(s: Seq<ChunkModel>, tag: Seq<u8>) -> bool {
    forall|j: int| 0 <= j < s.len() ==> #[trigger] s[j].chunk_type != tag
}

/// `r` with the chunks `p` put in front when it is a success.
pub open spec fn with_prefix(p: Seq<ChunkModel>, r: Result<Seq<ChunkModel>, PngError>) -> Result<
    Seq<ChunkModel>,
    PngError,
> {
    match r {
        Ok(s) => Ok(p + s),
        Err(e) => Err(e),
    }
}

/// The frames of a sequence with one more chunk end with that chunk's frame.
pub proof fn lemma_frames_push(s: Seq<ChunkModel>, m: ChunkModel)
    ensures
        frames(s.push(m)) == frames(s) + frame(m),
    decreases s.len(),
{
    if s.len() == 0 {
        assert(s.push(m).drop_first() =~= Seq::<ChunkModel>::empty());
        assert(s.push(m)[0] == m);
        assert(frames(Seq::<ChunkModel>::empty()) == Seq::<u8>::empty());
        assert(frames(s.push(m)) =~= frames(s) + frame(m));
    } else {
        lemma_frames_push(s.drop_first(), m);
        assert(s.push(m).drop_first() =~= s.drop_first().push(m));
        assert(frames(s.push(m)) =~= frames(s) + frame(m));
    }
}

/// Chunks decoded from `b` write back as exactly `b`.
pub proof fn lemma_parse_chunks_frames(b: Seq<u8>)
    requires
        parse_chunks(b) is Ok,
    ensures
        frames(parse_chunks(b)->Ok_0) == b,
    decreases b.len(),
{
    if b.len() == 0 {
        assert(frames(Seq::<ChunkModel>::empty()) =~= b);
    } else {
        let (m, k) = decode_spec(b)->Ok_0;
        lemma_decoded_frame(b);
        let tail = b.subrange(k as int, b.len() as int);
        lemma_parse_chunks_frames(tail);
        let rest = parse_chunks(tail)->Ok_0;
        let s = seq![m] + rest;
        assert(parse_chunks(b) == Ok::<Seq<ChunkModel>, PngError>(s));
        assert(s[0] == m);
        assert(s.drop_first() =~= rest);
        assert(frames(s) == frame(m) + frames(rest));
        assert(b =~= b.subrange(0, k as int) + tail);
    }
}

/// Every chunk decoded from `b` is well formed.
pub proof fn lemma_parse_chunks_wf(b: Seq<u8>)
    requires
        parse_chunks(b) is Ok,
    ensures
        forall|i: int|
            0 <= i < (parse_chunks(b)->Ok_0).len() ==> #[trigger] (parse_chunks(b)->Ok_0)[i].wf(),
    decreases b.len(),
{
    if b.len() > 0 {
        let (m, k) = decode_spec(b)->Ok_0;
        lemma_decoded_frame(b);
        let tail = b.subrange(k as int, b.len() as int);
        lemma_parse_chunks_wf(tail);
        let rest = parse_chunks(tail)->Ok_0;
        assert forall|i: int| 0 <= i < (seq![m] + rest).len() implies #[trigger] (seq![m]
            + rest)[i].wf() by {
            if i > 0 {
                assert((seq![m] + rest)[i] == rest[i - 1]);
            }
        }
    }
}

/// The frames of well-formed chunks decode back to those chunks.
pub proof fn lemma_parse_frames(s: Seq<ChunkModel>)
    requires
        forall|i: int| 0 <= i < s.len() ==> #[trigger] s[i].wf(),
    ensures
        parse_chunks(frames(s)) == Ok::<Seq<ChunkModel>, PngError>(s),
    decreases s.len(),
{
    if s.len() == 0 {
        assert(frames(s) =~= Seq::<u8>::empty());
        assert(s =~= Seq::<ChunkModel>::empty());
    } else {
        let m = s[0];
        let rest = s.drop_first();
        assert forall|i: int| 0 <= i < rest.len() implies #[trigger] rest[i].wf() by {
            assert(rest[i] == s[i + 1]);
        }
        lemma_parse_frames(rest);
        lemma_decode_frame(m, frames(rest));
        let b = frames(s);
        assert(b == frame(m) + frames(rest));
        assert(b.subrange(frame(m).len() as int, b.len() as int) =~= frames(rest));
        assert(seq![m] + rest =~= s);
    }
}

/// Parsing the frames of well-formed chunks followed by more bytes gives
/// those chunks in front of what the rest parses to, or the rest's error.
pub proof fn lemma_parse_frames_then(s: Seq<ChunkModel>, rest: Seq<u8>)
    requires
        forall|i: int| 0 <= i < s.len() ==> #[trigger] s[i].wf(),
    ensures
        parse_chunks(frames(s) + rest) == with_prefix(s, parse_chunks(rest)),
    decreases s.len(),
{
    if s.len() == 0 {
        assert(frames(s) + rest =~= rest);
        if parse_chunks(rest) is Ok {
            assert(s + parse_chunks(rest)->Ok_0 =~= parse_chunks(rest)->Ok_0);
        }
    } else {
        let m = s[0];
        let tail = s.drop_first();
        assert forall|i: int| 0 <= i < tail.len() implies #[trigger] tail[i].wf() by {
            assert(tail[i] == s[i + 1]);
        }
        lemma_parse_frames_then(tail, rest);
        let after = frames(tail) + rest;
        lemma_decode_frame(m, after);
        let b = frames(s) + rest;
        assert(b =~= frame(m) + after);
        assert(b.subrange(frame(m).len() as int, b.len() as int) =~= after);
        if parse_chunks(rest) is Ok {
            let r = parse_chunks(rest)->Ok_0;
            assert(seq![m] + (tail + r) =~= s + r);
        }
    }
}

/// Parsing the bytes of well-formed chunks gives back those chunks.
pub proof fn lemma_parse_encoded(s: Seq<ChunkModel>)
    requires
        forall|i: int| 0 <= i < s.len() ==> #[trigger] s[i].wf(),
    ensures
        parse_spec(png_bytes(s)) == Ok::<Seq<ChunkModel>, PngError>(s),
{
    lemma_parse_frames(s);
    let b = png_bytes(s);
    assert(b.subrange(0, 8) =~= png_signature());
    assert(b.subrange(8, b.len() as int) =~= frames(s));
}

/// Encoding a parsed file gives back the bytes it was parsed from.
pub proof fn lemma_round_trip(b: Seq<u8>)
    requires
        parse_spec(b) is Ok,
    ensures
        png_bytes(parse_spec(b)->Ok_0) == b,
{
    let body = b.subrange(8, b.len() as int);
    assert(parse_spec(b) == parse_chunks(body));
    lemma_parse_chunks_frames(body);
    assert(b.subrange(0, 8) == png_signature());
    assert(b =~= b.subrange(0, 8) + body);
}

/// Appending a chunk whose type no chunk had, then removing the first chunk of
/// that type, gives back the chunks from before the append.
pub proof fn lemma_append_then_remove(s: Seq<ChunkModel>, m: ChunkModel)
    requires
        lacks(s, m.chunk_type),
    ensures
        is_first_of(s.push(m), m.chunk_type, s.len() as int),
        forall|i: int| is_first_of(s.push(m), m.chunk_type, i) ==> s.push(m).remove(i) == s,
{
    assert forall|i: int| is_first_of(s.push(m), m.chunk_type, i) implies s.push(m).remove(i)
        == s by {
        if i < s.len() {
            assert(s.push(m)[i] == s[i]);
        }
        assert(s.push(m).remove(i) =~= s);
    }
}

/// A PNG file held in memory as its sequence of chunks.
pub struct Png {
    chunks: Vec<Chunk>,
}

impl View for Png {
    type V = Seq<ChunkModel>;

    closed spec fn view(&self) -> Seq<ChunkModel> {
        self.chunks@.map_values(|c: Chunk| c@)
    }
}

fn push_all(out: &mut Vec<u8>, src: &[u8])
    ensures
        final(out)@ == old(out)@ + src@,
{
    let ghost head = out@;
    let mut i: usize = 0;
    while i < src.len()
        invariant
            i <= src@.len(),
            out@ == head + src@.subrange(0, i as int),
        decreases src@.len() - i,
    {
        out.push(src[i]);
        assert(out@ =~= head + src@.subrange(0, i + 1));
        i = i + 1;
    }
    assert(src@.subrange(0, src@.len() as int) =~= src@);
}

impl Png {
    /// The eight signature bytes.
    pub fn signature() -> (r: Vec<u8>)
        ensures
            r@ == png_signature(),
    {
        let r: Vec<u8> = vec![137u8, 80u8, 78u8, 71u8, 13u8, 10u8, 26u8, 10u8];
        assert(r@ =~= png_signature());
        r
    }

    /// A file holding the given chunks, in that order.
    pub fn from_chunks(chunks: Vec<Chunk>) -> (r: Png)
        ensures
            r@ == chunks@.map_values(|c: Chunk| c@),
    {
        Png { chunks }
    }

    /// Parses a whole file: the signature must match, then chunks are decoded
    /// one after the other until the bytes are used up.
    pub fn parse(bytes: &[u8]) -> (r: Result<Png, PngError>)
        ensures
            match r {
                Ok(p) => parse_spec(bytes@) == Ok::<Seq<ChunkModel>, PngError>(p@),
                Err(e) => parse_spec(bytes@) == Err::<Seq<ChunkModel>, PngError>(e),
            },
    {
        let sig = Png::signature();
        if bytes.len() < 8 {
            return Err(PngError::Format);
        }
        let mut i: usize = 0;
        while i < 8
            invariant
                i <= 8 <= bytes@.len(),
                sig@ == png_signature(),
                forall|j: int| 0 <= j < i ==> bytes@[j] == png_signature()[j],
            decreases 8 - i,
        {
            if bytes[i] != sig[i] {
                assert(bytes@.subrange(0, 8)[i as int] != png_signature()[i as int]);
                return Err(PngError::Format);
            }
            i = i + 1;
        }
        assert(bytes@.subrange(0, 8) =~= png_signature());
        let ghost body = bytes@.subrange(8, bytes@.len() as int);
        assert(parse_spec(bytes@) == parse_chunks(body));
        let mut chunks: Vec<Chunk> = Vec::new();
        let mut pos: usize = 8;
        assert(bytes@.subrange(8, bytes@.len() as int) =~= body);
        assert(chunks@.map_values(|c: Chunk| c@) =~= Seq::<ChunkModel>::empty());
        while pos < bytes.len()
            invariant
                8 <= pos <= bytes@.len(),
                body == bytes@.subrange(8, bytes@.len() as int),
                parse_spec(bytes@) == parse_chunks(body),
                parse_chunks(body) == with_prefix(
                    chunks@.map_values(|c: Chunk| c@),
                    parse_chunks(bytes@.subrange(pos as int, bytes@.len() as int)),
                ),
            decreases bytes@.len() - pos,
        {
            let ghost cur = bytes@.subrange(pos as int, bytes@.len() as int);
            let ghost before = chunks@.map_values(|c: Chunk| c@);
            match Chunk::decode_at(bytes, pos) {
                Err(e) => {
                    assert(parse_chunks(cur) == Err::<Seq<ChunkModel>, PngError>(e));
                    return Err(e);
                },
                Ok((c, k)) => {
                    proof {
                        lemma_decoded_frame(cur);
                        assert(cur.subrange(k as int, cur.len() as int) =~= bytes@.subrange(
                            pos + k,
                            bytes@.len() as int,
                        ));
                    }
                    chunks.push(c);
                    pos = pos + k;
                    proof {
                        assert(chunks@.map_values(|c: Chunk| c@) =~= before.push(c@));
                        let rest = parse_chunks(bytes@.subrange(pos as int, bytes@.len() as int));
                        if rest is Ok {
                            assert(before + (seq![c@] + rest->Ok_0) =~= before.push(c@)
                                + rest->Ok_0);
                        }
                    }
                },
            }
        }
        assert(bytes@.subrange(pos as int, bytes@.len() as int) =~= Seq::<u8>::empty());
        assert(chunks@.map_values(|c: Chunk| c@) + Seq::<ChunkModel>::empty()
            =~= chunks@.map_values(|c: Chunk| c@));
        Ok(Png { chunks })
    }

    /// The bytes of the file: the signature, then each chunk's frame in order.
    pub fn encode(&self) -> (r: Vec<u8>)
        ensures
            r@ == png_bytes(self@),
    {
        let mut out = Png::signature();
        let mut i: usize = 0;
        while i < self.chunks.len()
            invariant
                i <= self.chunks@.len(),
                out@ == png_signature() + frames(self@.subrange(0, i as int)),
            decreases self.chunks@.len() - i,
        {
            let f = self.chunks[i].encode();
            push_all(&mut out, f.as_slice());
            proof {
                lemma_frames_push(self@.subrange(0, i as int), self@[i as int]);
                assert(self@.subrange(0, i + 1) =~= self@.subrange(0, i as int).push(
                    self@[i as int],
                ));
            }
            i = i + 1;
        }
        assert(self@.subrange(0, self@.len() as int) =~= self@);
        out
    }

    /// Adds a chunk at the end.
    pub fn append_chunk(&mut self, chunk: Chunk)
        ensures
            final(self)@ == old(self)@.push(chunk@),
    {
        self.chunks.push(chunk);
        assert(self@ =~= old(self)@.push(chunk@));
    }

    fn position(&self, chunk_type: &str) -> (r: Option<usize>)
        ensures
            match r {
                None => lacks(self@, chunk_type.spec_bytes()),
                Some(i) => is_first_of(self@, chunk_type.spec_bytes(), i as int),
            },
    {
        let mut i: usize = 0;
        while i < self.chunks.len()
            invariant
                i <= self.chunks@.len(),
                forall|j: int| 0 <= j < i ==> #[trigger] self@[j].chunk_type
                    != chunk_type.spec_bytes(),
            decreases self.chunks@.len() - i,
        {
            let t = self.chunks[i].chunk_type();
            if t.matches_text(chunk_type) {
                return Some(i);
            }
            i = i + 1;
        }
        None
    }

    /// The first chunk whose type is `chunk_type`, if any.
    pub fn chunk_by_type(&self, chunk_type: &str) -> (r: Option<&Chunk>)
        ensures
            match r {
                None => lacks(self@, chunk_type.spec_bytes()),
                Some(c) => exists|i: int|
                    is_first_of(self@, chunk_type.spec_bytes(), i) && c@ == #[trigger] self@[i],
            },
    {
        match self.position(chunk_type) {
            None => None,
            Some(i) => Some(&self.chunks[i]),
        }
    }

    /// Removes the first chunk whose type is `chunk_type`; fails with
    /// `NotFound`, changing nothing, when there is none.
    pub fn remove_first_chunk(&mut self, chunk_type: &str) -> (r: Result<(), PngError>)
        ensures
            r is Err <==> lacks(old(self)@, chunk_type.spec_bytes()),
            r matches Err(e) ==> e == PngError::NotFound && final(self)@ == old(self)@,
            r is Ok ==> exists|i: int|
                is_first_of(old(self)@, chunk_type.spec_bytes(), i) && final(self)@ == old(
                    self,
                )@.remove(i),
    {
        match self.position(chunk_type) {
            None => Err(PngError::NotFound),
            Some(i) => {
                let ghost before = self@;
                self.chunks.remove(i);
                assert(self@ =~= before.remove(i as int));
                Ok(())
            },
        }
    }

    /// The chunks, in file order.
    pub fn chunks(&self) -> (r: &[Chunk])
        ensures
            r@.map_values(|c: Chunk| c@) == self@,
    {
        self.chunks.as_slice()
    }
}

} // verus!
