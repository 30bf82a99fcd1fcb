//! The four-byte chunk type tag and the properties encoded in the case of its letters.
use crate::error::PngError;
use vstd::prelude::*;
use vstd::string::StringSliceAdditionalSpecFns;
use vstd::utf8::{decode_utf8, valid_utf8};

verus! {

/// An upper-case ASCII letter.
pub open spec fn is_upper(b: u8) -> bool {
    65 <= b <= 90
}

/// A lower-case ASCII letter.
pub open spec fn is_lower(b: u8) -> bool {
    97 <= b <= 122
}

/// An ASCII letter of either case.
pub open spec fn is_letter(b: u8) -> bool {
    is_upper(b) || is_lower(b)
}

/// The bytes of a legal chunk type text: exactly four ASCII letters.
pub open spec fn is_tag_text(s: Seq<u8>) -> bool {
    s.len() == 4 && forall|i: int| 0 <= i < 4 ==> #[trigger] is_letter(s[i])
}

fn byte_is_upper(b: u8) -> (r: bool)
    ensures
        r == is_upper(b),
{
    b >= 65 && b <= 90
}

fn byte_is_lower(b: u8) -> (r: bool)
    ensures
        r == is_lower(b),
{
    b >= 97 && b <= 122
}

/// Relies on std's `String::from_utf8`: it succeeds exactly on valid UTF-8 and
/// then holds the characters that the bytes encode.
#[verifier::external_body]
pub(crate) fn utf8_text(bytes: Vec<u8>) -> (r: Option<String>)
    ensures
        r.is_some() <==> valid_utf8(bytes@),
        r matches Some(s) ==> s@ == decode_utf8(bytes@),
{
    String::from_utf8(bytes).ok()
}

/// A chunk type tag: four bytes, normally ASCII letters.
#[derive(Debug, Clone, Copy, PartialEq, Eq)]
pub struct ChunkType {
    data: [u8; 4],
}

impl View for ChunkType {
    type V = Seq<u8>;

    closed spec fn view(&self) -> Seq<u8> {
        self.data@
    }
}

/// Every tag is four bytes long.
pub broadcast proof fn lemma_tag_len(t: ChunkType)
    ensures
        #[trigger] t@.len() == 4,
{
}

impl ChunkType {
    /// Builds a tag from four raw bytes, taken as they are.
    pub fn from_bytes(bytes: [u8; 4]) -> (r: ChunkType)
        ensures
            r@ == bytes@,
    {
        ChunkType { data: bytes }
    }

    /// Builds a tag from text, which must be exactly four ASCII letters.
    pub fn from_text(s: &str) -> (r: Result<ChunkType, PngError>)
        ensures
            r is Ok <==> is_tag_text(s.spec_bytes()),
            r matches Ok(t) ==> t@ == s.spec_bytes(),
            r matches Err(e) ==> e == PngError::Tag,
    {
        let b = s.as_bytes();
        if b.len() != 4 {
            return Err(PngError::Tag);
        }
        let mut i: usize = 0;
        while i < 4
            invariant
                b@ == s.spec_bytes(),
                b@.len() == 4,
                i <= 4,
                forall|j: int| 0 <= j < i ==> #[trigger] is_letter(b@[j]),
            decreases 4 - i,
        {
            if !(byte_is_upper(b[i]) || byte_is_lower(b[i])) {
                assert(!is_letter(b@[i as int]));
                return Err(PngError::Tag);
            }
            i = i + 1;
        }
        let data: [u8; 4] = [b[0], b[1], b[2], b[3]];
        assert(data@ =~= b@);
        Ok(ChunkType { data })
    }

    /// The four bytes of the tag.
    pub fn bytes(&self) -> (r: [u8; 4])
        ensures
            r@ == self@,
    {
        self.data
    }

    /// Whether the tag has exactly `text` as its bytes.
    pub fn matches_text(&self, text: &str) -> (r: bool)
        ensures
            r == (self@ == text.spec_bytes()),
    {
        let b = text.as_bytes();
        if b.len() != 4 {
            return false;
        }
        let r = self.data[0] == b[0] && self.data[1] == b[1] && self.data[2] == b[2]
            && self.data[3] == b[3];
        proof {
            if r {
                assert(self@ =~= b@);
            }
        }
        r
    }

    /// A tag is valid when its reserved bit is valid: the third byte is upper case.
    pub fn is_valid(&self) -> (r: bool)
        ensures
            r == is_upper(self@[2]),
    {
        byte_is_upper(self.data[2])
    }

    /// Critical when the first byte is upper case, ancillary otherwise.
    pub fn is_critical(&self) -> (r: bool)
        ensures
            r == is_upper(self@[0]),
    {
        byte_is_upper(self.data[0])
    }

    /// Public when the second byte is upper case, private otherwise.
    pub fn is_public(&self) -> (r: bool)
        ensures
            r == is_upper(self@[1]),
    {
        byte_is_upper(self.data[1])
    }

    /// The reserved bit is valid when the third byte is upper case.
    pub fn is_reserved_bit_valid(&self) -> (r: bool)
        ensures
            r == is_upper(self@[2]),
    {
        byte_is_upper(self.data[2])
    }

    /// Safe to copy when the fourth byte is lower case.
    pub fn is_safe_to_copy(&self) -> (r: bool)
        ensures
            r == is_lower(self@[3]),
    {
        byte_is_lower(self.data[3])
    }

    /// The tag as text; fails with `Encoding` when its bytes are not UTF-8.
    pub fn to_string(&self) -> (r: Result<String, PngError>)
        ensures
            r is Ok <==> valid_utf8(self@),
            r matches Ok(s) ==> s@ == decode_utf8(self@),
            r matches Err(e) ==> e == PngError::Encoding,
    {
        let mut v: Vec<u8> = Vec::new();
        v.push(self.data[0]);
        v.push(self.data[1]);
        v.push(self.data[2]);
        v.push(self.data[3]);
        assert(v@ =~= self@);
        match utf8_text(v) {
            Some(s) => Ok(s),
            None => Err(PngError::Encoding),
        }
    }
}

impl TryFrom<[u8; 4]> for ChunkType {
    type Error = PngError;

    fn try_from(bytes: [u8; 4]) -> (r: Result<ChunkType, PngError>)
        ensures
            r matches Ok(t) && t@ == bytes@,
    {
        Ok(ChunkType { data: bytes })
    }
}

impl vstd::std_specs::convert::TryFromSpecImpl<[u8; 4]> for ChunkType {
    open spec fn obeys_try_from_spec() -> bool {
        true
    }

    closed spec fn try_from_spec(bytes: [u8; 4]) -> Result<ChunkType, PngError> {
        Ok(ChunkType { data: bytes })
    }
}

impl std::str::FromStr for ChunkType {
    type Err = PngError;

    fn from_str(s: &str) -> (r: Result<ChunkType, PngError>)
        ensures
            r is Ok <==> is_tag_text(s.spec_bytes()),
            r matches Ok(t) ==> t@ == s.spec_bytes(),
            r matches Err(e) ==> e == PngError::Tag,
    {
        ChunkType::from_text(s)
    }
}

} // verus!
