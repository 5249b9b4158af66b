use vstd::prelude::*;
use crate::error::PngError;
use vstd::string::StringSliceAdditionalSpecFns;

verus! {

/// An ASCII letter, `A`-`Z` or `a`-`z`.
pub open spec fn is_letter(b: u8) -> bool {
    (65 <= b && b <= 90) || (97 <= b && b <= 122)
}

/// Four bytes, each an ASCII letter.
pub open spec fn all_letters(s: Seq<u8>) -> bool {
    s.len() == 4 && forall|i: int| 0 <= i < 4 ==> is_letter(#[trigger] s[i])
}

/// Bit 5 (the lowercase bit) of a byte is unset.
pub open spec fn bit5_clear(b: u8) -> bool {
    b & 0x20u8 == 0
}

/// A four-letter chunk type; the case of each letter carries one flag.
#[derive(PartialEq, Eq, Debug, Clone, Copy)]
pub struct ChunkType {
    chunk_type: [u8; 4],
}

impl View for ChunkType {
    type V = Seq<u8>;

    closed spec fn view(&self) -> Seq<u8> {
        self.chunk_type@
    }
}

const FIFTH_BIT_MASK: u8 = 0x20;

fn is_ascii_letter(b: u8) -> (r: bool)
    ensures
        r == is_letter(b),
{
    (65 <= b && b <= 90) || (97 <= b && b <= 122)
}

impl ChunkType {
    #[verifier::type_invariant]
    spec fn inv(&self) -> bool {
        all_letters(self.chunk_type@)
    }

    /// Builds a tag from four bytes; fails unless all four are ASCII letters.
    pub fn try_from(value: [u8; 4]) -> (r: Result<ChunkType, PngError>)
        ensures
            r is Ok <==> all_letters(value@),
            r is Ok ==> r->Ok_0@ == value@,
            r is Err ==> r->Err_0 == PngError::InvalidTag,
    {
        let mut i: usize = 0;
        while i < 4
            invariant
                0 <= i <= 4,
                value@.len() == 4,
                forall|j: int| 0 <= j < i ==> is_letter(#[trigger] value@[j]),
            decreases 4 - i,
        {
            if !is_ascii_letter(value[i]) {
                return Err(PngError::InvalidTag);
            }
            i = i + 1;
        }
        Ok(ChunkType { chunk_type: value })
    }

    /// Builds a tag from a string of exactly four bytes, each an ASCII letter.
    pub fn from_str(s: &str) -> (r: Result<ChunkType, PngError>)
        ensures
            r is Ok <==> (s.spec_bytes().len() == 4 && all_letters(s.spec_bytes())),
            r is Ok ==> r->Ok_0@ == s.spec_bytes(),
            r is Err ==> r->Err_0 == PngError::InvalidTag,
    {
        let b = s.as_bytes();
        if b.len() != 4 {
            return Err(PngError::InvalidTag);
        }
        let buf: [u8; 4] = [b[0], b[1], b[2], b[3]];
        assert(buf@ =~= b@);
        ChunkType::try_from(buf)
    }

    /// The four bytes of the tag; they are always ASCII letters.
    pub fn bytes(&self) -> (r: [u8; 4])
        ensures
            r@ == self@,
            all_letters(r@),
    {
        proof {
            use_type_invariant(self);
        }
        self.chunk_type
    }

    /// Whether the tag passes validation: only the reserved bit is looked at.
    pub fn is_valid(&self) -> (r: bool)
        ensures
            r == bit5_clear(self@[2]),
    {
        self.is_reserved_bit_valid()
    }

    pub fn is_critical(&self) -> (r: bool)
        ensures
            r == bit5_clear(self@[0]),
    {
        proof {
            use_type_invariant(self);
        }
        (self.chunk_type[0] & FIFTH_BIT_MASK) == 0
    }

    pub fn is_public(&self) -> (r: bool)
        ensures
            r == bit5_clear(self@[1]),
    {
        proof {
            use_type_invariant(self);
        }
        (self.chunk_type[1] & FIFTH_BIT_MASK) == 0
    }

    pub fn is_reserved_bit_valid(&self) -> (r: bool)
        ensures
            r == bit5_clear(self@[2]),
    {
        proof {
            use_type_invariant(self);
        }
        (self.chunk_type[2] & FIFTH_BIT_MASK) == 0
    }

    pub fn is_safe_to_copy(&self) -> (r: bool)
        ensures
            r == !bit5_clear(self@[3]),
    {
        proof {
            use_type_invariant(self);
        }
        (self.chunk_type[3] & FIFTH_BIT_MASK) != 0
    }
}

} // verus!
