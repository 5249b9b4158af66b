use vstd::prelude::*;
use crate::chunk_type::{all_letters, ChunkType};
use crate::error::PngError;
use vstd::string::StringSliceAdditionalSpecFns;
use vstd::utf8::{encode_utf8, valid_utf8};

verus! {

/// The CRC-32 (ISO-HDLC) of a byte sequence.
pub uninterp spec fn crc32_of(s: Seq<u8>) -> u32;

/// Relies on crc::Crc::<u32>::checksum with the CRC_32_ISO_HDLC parameters:
/// the checksum is a function of the bytes alone.
#[verifier::external_body]
fn crc32(bytes: &[u8]) -> (r: u32)
    ensures
        r == crc32_of(bytes@),
{
    crc::Crc::<u32>::new(&crc::CRC_32_ISO_HDLC).checksum(bytes)
}

/// Relies on std::str::from_utf8: it succeeds exactly on valid UTF-8, and the text it
/// returns is the same bytes read as a string.
#[verifier::external_body]
fn utf8_str(bytes: &[u8]) -> (r: Option<&str>)
    ensures
        r is Some <==> valid_utf8(bytes@),
        r is Some ==> r->Some_0.spec_bytes() == bytes@,
{
    std::str::from_utf8(bytes).ok()
}

/// The four big-endian bytes of `n`.
pub open spec fn be32(n: u32) -> Seq<u8> {
    seq![(n >> 24u32) as u8, (n >> 16u32) as u8, (n >> 8u32) as u8, n as u8]
}

/// The number that four bytes spell in big-endian order.
pub open spec fn from_be(b: Seq<u8>) -> u32 {
    ((b[0] as u32) << 24u32) | ((b[1] as u32) << 16u32) | ((b[2] as u32) << 8u32) | (b[3] as u32)
}

/// The on-disk form of a chunk: length, tag, payload, and the CRC of tag and payload.
pub open spec fn serialized(tag: Seq<u8>, data: Seq<u8>) -> Seq<u8> {
    be32(data.len() as u32) + tag + data + be32(crc32_of(tag + data))
}

/// What parsing a chunk from the front of `b` yields: its tag and payload, or the error.
pub open spec fn parse_spec(b: Seq<u8>) -> Result<(Seq<u8>, Seq<u8>), PngError> {
    if b.len() < 12 {
        Err(PngError::TruncatedRecord)
    } else {
        let n = from_be(b.subrange(0, 4)) as int;
        if 12 + n > b.len() {
            Err(PngError::TruncatedRecord)
        } else if !all_letters(b.subrange(4, 8)) {
            Err(PngError::InvalidTag)
        } else if from_be(b.subrange(8 + n, 12 + n)) != crc32_of(b.subrange(4, 8 + n)) {
            Err(PngError::CrcMismatch)
        } else {
            Ok((b.subrange(4, 8), b.subrange(8, 8 + n)))
        }
    }
}

proof fn lemma_be32_round(n: u32)
    ensures
        from_be(be32(n)) == n,
{
    let b = be32(n);
    assert(b[0] == (n >> 24u32) as u8 && b[1] == (n >> 16u32) as u8 && b[2] == (n >> 8u32) as u8 && b[3] == n as u8);
    assert((((((n >> 24u32) as u8) as u32) << 24u32) | ((((n >> 16u32) as u8) as u32) << 16u32) | ((((n >> 8u32) as u8) as u32) << 8u32) | ((n as u8) as u32)) == n) by (bit_vector);
}

/// Parsing the bytes of a freshly built chunk gives back its tag and payload.
pub proof fn lemma_round_trip(tag: Seq<u8>, data: Seq<u8>)
    requires
        all_letters(tag),
        data.len() <= u32::MAX,
    ensures
        parse_spec(serialized(tag, data)) == Ok::<(Seq<u8>, Seq<u8>), PngError>((tag, data)),
{
    let b = serialized(tag, data);
    let n = data.len() as u32;
    let m = data.len() as int;
    lemma_be32_round(n);
    lemma_be32_round(crc32_of(tag + data));
    assert(b.subrange(0, 4) =~= be32(n));
    assert(b.subrange(4, 8) =~= tag);
    assert(b.subrange(8, 8 + m) =~= data);
    assert(b.subrange(4, 8 + m) =~= tag + data);
    assert(b.subrange(8 + m, 12 + m) =~= be32(crc32_of(tag + data)));
}

/// Every proper, non-empty prefix of a chunk's bytes is too short to parse.
pub proof fn lemma_truncated(tag: Seq<u8>, data: Seq<u8>, k: int)
    requires
        all_letters(tag),
        data.len() <= u32::MAX,
        0 < k < serialized(tag, data).len(),
    ensures
        parse_spec(serialized(tag, data).subrange(0, k)) == Err::<(Seq<u8>, Seq<u8>), PngError>(
            PngError::TruncatedRecord,
        ),
{
    let b = serialized(tag, data);
    let p = b.subrange(0, k);
    lemma_be32_round(data.len() as u32);
    if k >= 12 {
        assert(p.subrange(0, 4) =~= be32(data.len() as u32));
    }
}

proof fn lemma_from_be_round(b: Seq<u8>)
    requires
        b.len() == 4,
    ensures
        be32(from_be(b)) == b,
{
    let (b0, b1, b2, b3) = (b[0], b[1], b[2], b[3]);
    assert((((((b0 as u32) << 24u32) | ((b1 as u32) << 16u32) | ((b2 as u32) << 8u32) | (b3 as u32))
        >> 24u32) as u8) == b0) by (bit_vector);
    assert((((((b0 as u32) << 24u32) | ((b1 as u32) << 16u32) | ((b2 as u32) << 8u32) | (b3 as u32))
        >> 16u32) as u8) == b1) by (bit_vector);
    assert((((((b0 as u32) << 24u32) | ((b1 as u32) << 16u32) | ((b2 as u32) << 8u32) | (b3 as u32))
        >> 8u32) as u8) == b2) by (bit_vector);
    assert(((((b0 as u32) << 24u32) | ((b1 as u32) << 16u32) | ((b2 as u32) << 8u32) | (b3 as u32))
        as u8) == b3) by (bit_vector);
    assert(be32(from_be(b)) =~= b);
}

/// A record that parses is exactly the bytes of its tag and payload laid out again.
pub proof fn lemma_parsed_prefix(b: Seq<u8>)
    requires
        parse_spec(b) is Ok,
    ensures
        ({
            let (t, d) = parse_spec(b)->Ok_0;
            12 + d.len() <= b.len() && serialized(t, d) == b.subrange(0, 12 + d.len() as int)
        }),
{
    let (t, d) = parse_spec(b)->Ok_0;
    let n = from_be(b.subrange(0, 4)) as int;
    assert(d.len() == n);
    lemma_from_be_round(b.subrange(0, 4));
    lemma_from_be_round(b.subrange(8 + n, 12 + n));
    assert(t + d =~= b.subrange(4, 8 + n));
    assert(serialized(t, d) =~= b.subrange(0, 12 + n));
}

fn read_be(v: &[u8], at: usize) -> (r: u32)
    requires
        at + 4 <= v@.len(),
    ensures
        r == from_be(v@.subrange(at as int, at + 4)),
{
    ((v[at] as u32) << 24u32) | ((v[at + 1] as u32) << 16u32) | ((v[at + 2] as u32) << 8u32)
        | (v[at + 3] as u32)
}

fn write_be(out: &mut Vec<u8>, n: u32)
    ensures
        final(out)@ == old(out)@ + be32(n),
{
    let ghost start = out@;
    out.push((n >> 24u32) as u8);
    out.push((n >> 16u32) as u8);
    out.push((n >> 8u32) as u8);
    out.push(n as u8);
    assert(out@ =~= start + be32(n));
}

/// Appends the bytes of `src[from..to]` to `out`.
pub fn push_range(out: &mut Vec<u8>, src: &[u8], from: usize, to: usize)
    requires
        from <= to <= src@.len(),
    ensures
        final(out)@ == old(out)@ + src@.subrange(from as int, to as int),
{
    let ghost start = out@;
    let mut i: usize = from;
    while i < to
        invariant
            from <= i <= to <= src@.len(),
            out@ == start + src@.subrange(from as int, i as int),
        decreases to - i,
    {
        out.push(src[i]);
        i = i + 1;
        assert(out@ =~= start + src@.subrange(from as int, i as int));
    }
}

/// A chunk: a tag, a payload, and the CRC-32 of both.
pub struct Chunk {
    len: u32,
    c_type: ChunkType,
    crc: u32,
    data: Vec<u8>,
}

impl Chunk {
    #[verifier::type_invariant]
    spec fn inv(&self) -> bool {
        &&& self.len as int == self.data@.len()
        &&& self.crc == crc32_of(self.c_type@ + self.data@)
        &&& all_letters(self.c_type@)
    }

    pub closed spec fn tag(&self) -> Seq<u8> {
        self.c_type@
    }

    pub closed spec fn payload(&self) -> Seq<u8> {
        self.data@
    }

    /// Builds a chunk and computes its CRC over the tag and the payload.
    pub fn new(chunk_type: ChunkType, data: Vec<u8>) -> (r: Chunk)
        requires
            data@.len() <= u32::MAX,
        ensures
            r.tag() == chunk_type@,
            r.payload() == data@,
    {
        let tag = chunk_type.bytes();
        let mut both: Vec<u8> = Vec::new();
        push_range(&mut both, tag.as_slice(), 0, 4);
        push_range(&mut both, data.as_slice(), 0, data.len());
        assert(both@ =~= chunk_type@ + data@);
        let crc = crc32(both.as_slice());
        Chunk { len: data.len() as u32, c_type: chunk_type, crc, data }
    }

    /// The length of the payload in bytes.
    pub fn length(&self) -> (r: u32)
        ensures
            r as int == self.payload().len(),
    {
        proof {
            use_type_invariant(self);
        }
        self.len
    }

    pub fn chunk_type(&self) -> (r: &ChunkType)
        ensures
            r@ == self.tag(),
    {
        &self.c_type
    }

    pub fn data(&self) -> (r: &[u8])
        ensures
            r@ == self.payload(),
    {
        self.data.as_slice()
    }

    /// The CRC-32 of the tag followed by the payload.
    pub fn crc(&self) -> (r: u32)
        ensures
            r == crc32_of(self.tag() + self.payload()),
    {
        proof {
            use_type_invariant(self);
        }
        self.crc
    }

    /// The payload read as UTF-8 text; fails with `NotUtf8` where it is not valid UTF-8.
    pub fn data_as_string(&self) -> (r: Result<String, PngError>)
        ensures
            r is Ok <==> valid_utf8(self.payload()),
            r is Ok ==> encode_utf8(r->Ok_0@) == self.payload(),
            r is Err ==> r->Err_0 == PngError::NotUtf8,
    {
        match utf8_str(self.data.as_slice()) {
            Some(s) => Ok(s.to_owned()),
            None => Err(PngError::NotUtf8),
        }
    }

    /// The chunk as it is laid out in a file.
    pub fn as_bytes(&self) -> (r: Vec<u8>)
        ensures
            r@ == serialized(self.tag(), self.payload()),
    {
        proof {
            use_type_invariant(self);
        }
        let mut out: Vec<u8> = Vec::new();
        write_be(&mut out, self.len);
        let tag = self.c_type.bytes();
        push_range(&mut out, tag.as_slice(), 0, 4);
        push_range(&mut out, self.data.as_slice(), 0, self.data.len());
        write_be(&mut out, self.crc);
        assert(out@ =~= serialized(self.tag(), self.payload()));
        out
    }

    /// Parses one chunk from the front of `value`, checking its CRC.
    pub fn try_from(value: &[u8]) -> (r: Result<Chunk, PngError>)
        ensures
            match parse_spec(value@) {
                Ok((t, d)) => r is Ok && r->Ok_0.tag() == t && r->Ok_0.payload() == d,
                Err(e) => r == Err::<Chunk, PngError>(e),
            },
    {
        if value.len() < 12 {
            return Err(PngError::TruncatedRecord);
        }
        let size = read_be(value, 0);
        let n = size as usize;
        if n > value.len() - 12 {
            return Err(PngError::TruncatedRecord);
        }
        let tag_bytes: [u8; 4] = [value[4], value[5], value[6], value[7]];
        assert(tag_bytes@ =~= value@.subrange(4, 8));
        let c_type = match ChunkType::try_from(tag_bytes) {
            Ok(t) => t,
            Err(e) => return Err(e),
        };
        let mut data: Vec<u8> = Vec::new();
        push_range(&mut data, value, 8, 8 + n);
        let stored = read_be(value, 8 + n);
        let chunk = Chunk::new(c_type, data);
        let computed = chunk.crc();
        assert(value@.subrange(4, 8 + n as int) =~= value@.subrange(4, 8) + value@.subrange(8, 8 + n as int));
        if stored != computed {
            return Err(PngError::CrcMismatch);
        }
        Ok(chunk)
    }
}

} // verus!
