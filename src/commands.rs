//! The three edits offered on a whole file: hide a message, read it back, and
//! remove it. Each takes the file's bytes and gives back bytes or text.
use crate::chunk::{chunk_model, frame, lemma_corrupt_frame, Chunk, ChunkModel};
use crate::chunk_type::{is_tag_text, ChunkType};
use crate::error::PngError;
use crate::png::{
    frames, is_first_of, lacks, lemma_append_then_remove, lemma_frames_push, lemma_parse_chunks_wf,
    lemma_parse_encoded, lemma_parse_frames_then, lemma_round_trip, parse_chunks, parse_spec,
    png_bytes, png_signature, Png,
};
use vstd::prelude::*;
use vstd::slice::slice_to_vec;
use vstd::string::StringSliceAdditionalSpecFns;
use vstd::utf8::{
    decode_utf8, encode_utf8, encode_utf8_decode_utf8, encode_utf8_valid_utf8, valid_utf8,
};

verus! {

/// A chunk of the type named by `chunk_type` holding the bytes of `data`.
pub fn chunk_from_strings(chunk_type: &str, data: &str) -> (r: Result<Chunk, PngError>)
    requires
        data.spec_bytes().len() <= u32::MAX,
    ensures
        r is Ok <==> is_tag_text(chunk_type.spec_bytes()),
        r matches Ok(c) ==> c@ == chunk_model(chunk_type.spec_bytes(), data.spec_bytes()),
        r matches Err(e) ==> e == PngError::Tag,
{
    let t = ChunkType::from_text(chunk_type)?;
    let d = slice_to_vec(data.as_bytes());
    Ok(Chunk::new(t, d))
}

/// The file `file` with a chunk of type `chunk_type` holding `message`
/// appended after its last chunk.
pub fn encode(file: &[u8], chunk_type: &str, message: &str) -> (r: Result<Vec<u8>, PngError>)
    requires
        message.spec_bytes().len() <= u32::MAX,
    ensures
        match parse_spec(file@) {
            Err(e) => r == Err::<Vec<u8>, PngError>(e),
            Ok(s) => if is_tag_text(chunk_type.spec_bytes()) {
                r matches Ok(out) && out@ == png_bytes(
                    s.push(chunk_model(chunk_type.spec_bytes(), message.spec_bytes())),
                )
            } else {
                r == Err::<Vec<u8>, PngError>(PngError::Tag)
            },
        },
{
    let mut png = Png::parse(file)?;
    let chunk = chunk_from_strings(chunk_type, message)?;
    png.append_chunk(chunk);
    Ok(png.encode())
}

/// The text held by the first chunk of type `chunk_type` in `file`.
pub fn decode(file: &[u8], chunk_type: &str) -> (r: Result<String, PngError>)
    ensures
        match parse_spec(file@) {
            Err(e) => r == Err::<String, PngError>(e),
            Ok(s) => if lacks(s, chunk_type.spec_bytes()) {
                r == Err::<String, PngError>(PngError::NotFound)
            } else {
                exists|i: int|
                    #![trigger s[i]]
                    is_first_of(s, chunk_type.spec_bytes(), i) && if valid_utf8(s[i].data) {
                        r matches Ok(text) && text@ == decode_utf8(s[i].data)
                    } else {
                        r == Err::<String, PngError>(PngError::Encoding)
                    }
            },
        },
{
    let png = Png::parse(file)?;
    match png.chunk_by_type(chunk_type) {
        Some(chunk) => chunk.data_as_text(),
        None => Err(PngError::NotFound),
    }
}

/// A message hidden in a valid file under a tag that the file did not hold
/// yet is what `decode` finds there: the file written by `encode` parses, its
/// first chunk of that tag is the new one, and its data read as text are the
/// message.
pub proof fn lemma_encode_then_decode(file: Seq<u8>, tag: Seq<u8>, message: Seq<char>)
    requires
        parse_spec(file) is Ok,
        lacks(parse_spec(file)->Ok_0, tag),
        is_tag_text(tag),
        encode_utf8(message).len() <= u32::MAX,
    ensures
        ({
            let s = parse_spec(file)->Ok_0;
            let out = png_bytes(s.push(chunk_model(tag, encode_utf8(message))));
            &&& parse_spec(out) == Ok::<Seq<ChunkModel>, PngError>(
                s.push(chunk_model(tag, encode_utf8(message))),
            )
            &&& is_first_of(parse_spec(out)->Ok_0, tag, s.len() as int)
            &&& valid_utf8((parse_spec(out)->Ok_0)[s.len() as int].data)
            &&& decode_utf8((parse_spec(out)->Ok_0)[s.len() as int].data) == message
        }),
{
    let s = parse_spec(file)->Ok_0;
    let m = chunk_model(tag, encode_utf8(message));
    let t = s.push(m);
    lemma_parse_chunks_wf(file.subrange(8, file.len() as int));
    assert(m.wf());
    assert forall|i: int| 0 <= i < t.len() implies #[trigger] t[i].wf() by {
        if i < s.len() {
            assert(t[i] == s[i]);
        }
    }
    lemma_parse_encoded(t);
    lemma_append_then_remove(s, m);
    encode_utf8_valid_utf8(message);
    encode_utf8_decode_utf8(message);
}

/// Hiding a message in a valid file leaves the file's bytes as they were and
/// adds only the new chunk's frame after them.
pub proof fn lemma_encode_appends_frame(file: Seq<u8>, tag: Seq<u8>, message: Seq<char>)
    requires
        parse_spec(file) is Ok,
    ensures
        png_bytes((parse_spec(file)->Ok_0).push(chunk_model(tag, encode_utf8(message)))) == file
            + frame(chunk_model(tag, encode_utf8(message))),
{
    let s = parse_spec(file)->Ok_0;
    let m = chunk_model(tag, encode_utf8(message));
    lemma_round_trip(file);
    lemma_frames_push(s, m);
    assert(png_bytes(s.push(m)) =~= png_bytes(s) + frame(m));
}

/// Hiding a message in a valid file under a tag that the file did not hold
/// yet, then removing the first chunk of that tag, gives back the file's
/// bytes exactly.
pub proof fn lemma_encode_then_remove(file: Seq<u8>, tag: Seq<u8>, message: Seq<char>)
    requires
        parse_spec(file) is Ok,
        lacks(parse_spec(file)->Ok_0, tag),
        is_tag_text(tag),
        encode_utf8(message).len() <= u32::MAX,
    ensures
        ({
            let s = parse_spec(file)->Ok_0;
            let out = png_bytes(s.push(chunk_model(tag, encode_utf8(message))));
            &&& parse_spec(out) is Ok
            &&& !lacks(parse_spec(out)->Ok_0, tag)
            &&& forall|i: int|
                is_first_of(parse_spec(out)->Ok_0, tag, i) ==> png_bytes(
                    (parse_spec(out)->Ok_0).remove(i),
                ) == file
        }),
{
    let s = parse_spec(file)->Ok_0;
    let m = chunk_model(tag, encode_utf8(message));
    lemma_encode_then_decode(file, tag, message);
    lemma_append_then_remove(s, m);
    lemma_round_trip(file);
    assert(s.push(m)[s.len() as int].chunk_type == tag);
}

/// Hiding a message in a valid file, then changing any one byte of the new
/// chunk's type, data or CRC, gives a file whose parse fails with `Checksum`,
/// so that `decode` reports it.
pub proof fn lemma_encode_then_corrupt(
    file: Seq<u8>,
    tag: Seq<u8>,
    message: Seq<char>,
    j: int,
    x: u8,
)
    requires
        parse_spec(file) is Ok,
        is_tag_text(tag),
        encode_utf8(message).len() <= u32::MAX,
        file.len() + 4 <= j < file.len() + frame(chunk_model(tag, encode_utf8(message))).len(),
        png_bytes((parse_spec(file)->Ok_0).push(chunk_model(tag, encode_utf8(message))))[j] != x,
    ensures
        parse_spec(
            png_bytes((parse_spec(file)->Ok_0).push(chunk_model(tag, encode_utf8(message)))).update(
                j,
                x,
            ),
        ) == Err::<Seq<ChunkModel>, PngError>(PngError::Checksum),
{
    let s = parse_spec(file)->Ok_0;
    let m = chunk_model(tag, encode_utf8(message));
    let out = png_bytes(s.push(m));
    lemma_encode_appends_frame(file, tag, message);
    lemma_round_trip(file);
    lemma_parse_chunks_wf(file.subrange(8, file.len() as int));
    let k = j - file.len();
    assert(frame(m)[k] == out[j]);
    lemma_corrupt_frame(m, k, x);
    let bad = frame(m).update(k, x);
    assert(bad[0] == frame(m)[0]);
    assert(parse_chunks(bad) == Err::<Seq<ChunkModel>, PngError>(PngError::Checksum));
    lemma_parse_frames_then(s, bad);
    let changed = out.update(j, x);
    assert(changed =~= png_signature() + (frames(s) + bad));
    assert(changed.subrange(0, 8) =~= png_signature());
    assert(changed.subrange(8, changed.len() as int) =~= frames(s) + bad);
}

/// The file `file` without its first chunk of type `chunk_type`.
pub fn remove(file: &[u8], chunk_type: &str) -> (r: Result<Vec<u8>, PngError>)
    ensures
        match parse_spec(file@) {
            Err(e) => r == Err::<Vec<u8>, PngError>(e),
            Ok(s) => if lacks(s, chunk_type.spec_bytes()) {
                r == Err::<Vec<u8>, PngError>(PngError::NotFound)
            } else {
                exists|i: int|
                    is_first_of(s, chunk_type.spec_bytes(), i) && (r matches Ok(out) && out@
                        == png_bytes(s.remove(i)))
            },
        },
{
    let mut png = Png::parse(file)?;
    png.remove_first_chunk(chunk_type)?;
    Ok(png.encode())
}

} // verus!
