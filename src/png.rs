use vstd::prelude::*;
use vstd::slice::slice_subrange;
use vstd::string::StringSliceAdditionalSpecFns;
use crate::chunk::{lemma_parsed_prefix, parse_spec, push_range, serialized, Chunk};
use crate::chunk_type::{all_letters, ChunkType};
use crate::error::PngError;

verus! {

/// The eight bytes that open every PNG file.
pub open spec fn signature() -> Seq<u8> {
    seq![137u8, 80u8, 78u8, 71u8, 13u8, 10u8, 26u8, 10u8]
}

/// Puts `first` in front of the records of a successful parse; an error stays as it is.
pub open spec fn prepend(
    first: Seq<(Seq<u8>, Seq<u8>)>,
    rest: Result<Seq<(Seq<u8>, Seq<u8>)>, PngError>,
) -> Result<Seq<(Seq<u8>, Seq<u8>)>, PngError> {
    match rest {
        Ok(cs) => Ok(first + cs),
        Err(e) => Err(e),
    }
}

/// The records (tag and payload) that follow one another in `b` until it runs out,
/// or the error of the first record that does not parse.
pub open spec fn parse_all(b: Seq<u8>) -> Result<Seq<(Seq<u8>, Seq<u8>)>, PngError>
    decreases b.len(),
{
    if b.len() == 0 {
        Ok(Seq::empty())
    } else {
        match parse_spec(b) {
            Err(e) => Err(e),
            Ok((t, d)) => prepend(seq![(t, d)], parse_all(b.subrange(12 + d.len() as int, b.len() as int))),
        }
    }
}

/// The bytes of each record in turn.
pub open spec fn all_serialized(ts: Seq<Seq<u8>>, ds: Seq<Seq<u8>>) -> Seq<u8>
    decreases ts.len(),
{
    if ts.len() == 0 {
        Seq::empty()
    } else {
        serialized(ts[0], ds[0]) + all_serialized(ts.drop_first(), ds.drop_first())
    }
}

proof fn lemma_parse_all_step(b: Seq<u8>)
    requires
        b.len() > 0,
        parse_all(b) is Ok,
    ensures
        parse_spec(b) is Ok,
        ({
            let (t, d) = parse_spec(b)->Ok_0;
            let tail = b.subrange(12 + d.len() as int, b.len() as int);
            &&& 12 + d.len() <= b.len()
            &&& parse_all(tail) is Ok
            &&& parse_all(b)->Ok_0 == seq![(t, d)] + parse_all(tail)->Ok_0
            &&& serialized(t, d) == b.subrange(0, 12 + d.len() as int)
        }),
{
    lemma_parsed_prefix(b);
}

#[verifier::rlimit(80)]
proof fn lemma_parse_all_serialized(b: Seq<u8>)
    requires
        parse_all(b) is Ok,
    ensures
        ({
            let cs = parse_all(b)->Ok_0;
            all_serialized(
                cs.map_values(|c: (Seq<u8>, Seq<u8>)| c.0),
                cs.map_values(|c: (Seq<u8>, Seq<u8>)| c.1),
            ) == b
        }),
    decreases b.len(),
{
    let cs = parse_all(b)->Ok_0;
    let ts = cs.map_values(|c: (Seq<u8>, Seq<u8>)| c.0);
    let ds = cs.map_values(|c: (Seq<u8>, Seq<u8>)| c.1);
    if b.len() == 0 {
        assert(cs.len() == 0);
        assert(b =~= Seq::<u8>::empty());
    } else {
        lemma_parse_all_step(b);
        let t = parse_spec(b)->Ok_0.0;
        let d = parse_spec(b)->Ok_0.1;
        let tail = b.subrange(12 + d.len() as int, b.len() as int);
        lemma_parse_all_serialized(tail);
        let rest = parse_all(tail)->Ok_0;
        assert(cs == seq![(t, d)] + rest);
        assert(ts.len() == cs.len() && cs.len() > 0);
        assert(ts.drop_first() =~= rest.map_values(|c: (Seq<u8>, Seq<u8>)| c.0));
        assert(ds.drop_first() =~= rest.map_values(|c: (Seq<u8>, Seq<u8>)| c.1));
        assert(ts[0] == t && ds[0] == d);
        assert(all_serialized(ts, ds) == serialized(ts[0], ds[0]) + all_serialized(
            ts.drop_first(),
            ds.drop_first(),
        ));
        assert(b =~= b.subrange(0, 12 + d.len() as int) + tail);
    }
}

/// A file that parses is given back byte for byte by laying out its signature and
/// records again: serializing a parsed image reproduces its input.
#[verifier::rlimit(50)]
pub proof fn lemma_container_round_trip(value: Seq<u8>)
    requires
        value.len() >= 8,
        value.subrange(0, 8) == signature(),
        parse_all(value.subrange(8, value.len() as int)) is Ok,
    ensures
        ({
            let cs = parse_all(value.subrange(8, value.len() as int))->Ok_0;
            signature() + all_serialized(
                cs.map_values(|c: (Seq<u8>, Seq<u8>)| c.0),
                cs.map_values(|c: (Seq<u8>, Seq<u8>)| c.1),
            ) == value
        }),
{
    lemma_parse_all_serialized(value.subrange(8, value.len() as int));
    assert(value =~= value.subrange(0, 8) + value.subrange(8, value.len() as int));
}

/// The tag of the chunk that ends an image.
pub open spec fn end_tag() -> Seq<u8> {
    seq![73u8, 69u8, 78u8, 68u8]
}

/// `rs` with `x` added just before a final `IEND` record, or at the end where there is none.
pub open spec fn before_end(
    rs: Seq<(Seq<u8>, Seq<u8>)>,
    x: (Seq<u8>, Seq<u8>),
) -> Seq<(Seq<u8>, Seq<u8>)> {
    if rs.len() > 0 && rs.last().0 == end_tag() {
        rs.drop_last().push(x).push(rs.last())
    } else {
        rs.push(x)
    }
}

/// The tag and payload of each chunk, in order.
pub open spec fn pairs(chunks: Seq<Chunk>) -> Seq<(Seq<u8>, Seq<u8>)> {
    chunks.map_values(|c: Chunk| (c.tag(), c.payload()))
}

/// A PNG image: the signature followed by an ordered list of chunks.
pub struct Png {
    chunks: Vec<Chunk>,
}

fn tag_is(c: &Chunk, s: &[u8]) -> (r: bool)
    ensures
        r == (c.tag() == s@),
{
    let t = c.chunk_type().bytes();
    if s.len() != 4 {
        return false;
    }
    let r = t[0] == s[0] && t[1] == s[1] && t[2] == s[2] && t[3] == s[3];
    proof {
        if r {
            assert(t@ =~= s@);
        }
    }
    r
}

impl Png {
    pub const STANDARD_HEADER: [u8; 8] = [137, 80, 78, 71, 13, 10, 26, 10];

    /// The tag and payload of each chunk, in order.
    pub open spec fn records(&self) -> Seq<(Seq<u8>, Seq<u8>)> {
        Seq::new(self.tags().len(), |i: int| (self.tags()[i], self.payloads()[i]))
    }

    proof fn lemma_records(&self)
        ensures
            self.records() == pairs(self.chunks@),
            self.tags().len() == self.payloads().len(),
    {
        assert(self.records() =~= pairs(self.chunks@));
    }

    /// The tags of the chunks, in order.
    pub closed spec fn tags(&self) -> Seq<Seq<u8>> {
        self.chunks@.map_values(|c: Chunk| c.tag())
    }

    /// The payloads of the chunks, in order.
    pub closed spec fn payloads(&self) -> Seq<Seq<u8>> {
        self.chunks@.map_values(|c: Chunk| c.payload())
    }

    /// An image with the given chunks, in the given order.
    pub fn from_chunks(chunks: Vec<Chunk>) -> (r: Png)
        ensures
            r.tags() == chunks@.map_values(|c: Chunk| c.tag()),
            r.payloads() == chunks@.map_values(|c: Chunk| c.payload()),
    {
        Png { chunks }
    }

    /// Parses a whole file: the signature, then chunks until the bytes run out.
    pub fn try_from(value: &[u8]) -> (r: Result<Png, PngError>)
        ensures
            (value@.len() < 8 || value@.subrange(0, 8) != signature()) ==> r == Err::<Png, PngError>(
                PngError::BadSignature,
            ),
            value@.len() >= 8 && value@.subrange(0, 8) == signature() ==> match parse_all(
                value@.subrange(8, value@.len() as int),
            ) {
                Ok(cs) => r is Ok && r->Ok_0.tags() == cs.map_values(|c: (Seq<u8>, Seq<u8>)| c.0)
                    && r->Ok_0.payloads() == cs.map_values(|c: (Seq<u8>, Seq<u8>)| c.1),
                Err(e) => r == Err::<Png, PngError>(e),
            },
    {
        let sig: [u8; 8] = [137, 80, 78, 71, 13, 10, 26, 10];
        if value.len() < 8 {
            return Err(PngError::BadSignature);
        }
        let mut k: usize = 0;
        while k < 8
            invariant
                0 <= k <= 8,
                value@.len() >= 8,
                sig@ == signature(),
                forall|j: int| 0 <= j < k ==> value@[j] == signature()[j],
            decreases 8 - k,
        {
            if value[k] != sig[k] {
                proof {
                    assert(value@.subrange(0, 8)[k as int] != signature()[k as int]);
                }
                return Err(PngError::BadSignature);
            }
            k = k + 1;
        }
        assert(value@.subrange(0, 8) =~= signature());
        let mut chunks: Vec<Chunk> = Vec::new();
        let mut pos: usize = 8;
        let ghost whole = value@.subrange(8, value@.len() as int);
        assert(pairs(chunks@) =~= Seq::empty());
        assert(prepend(Seq::empty(), parse_all(whole)) == parse_all(whole)) by {
            if let Ok(cs) = parse_all(whole) {
                assert(Seq::<(Seq<u8>, Seq<u8>)>::empty() + cs =~= cs);
            }
        }
        while pos < value.len()
            invariant
                8 <= pos <= value@.len(),
                whole == value@.subrange(8, value@.len() as int),
                value@.subrange(0, 8) == signature(),
                parse_all(whole) == prepend(
                    pairs(chunks@),
                    parse_all(value@.subrange(pos as int, value@.len() as int)),
                ),
            decreases value@.len() - pos,
        {
            let rest = slice_subrange(value, pos, value.len());
            let c = match Chunk::try_from(rest) {
                Ok(c) => c,
                Err(e) => return Err(e),
            };
            let ghost before = pairs(chunks@);
            let ghost tail = value@.subrange(pos as int, value@.len() as int);
            let used = c.length() as usize + 12;
            pos = pos + used;
            chunks.push(c);
            proof {
                let next = value@.subrange(pos as int, value@.len() as int);
                assert(tail.subrange(12 + c.payload().len() as int, tail.len() as int) =~= next);
                assert(pairs(chunks@) =~= before + seq![(c.tag(), c.payload())]);
                if let Ok(cs) = parse_all(next) {
                    assert(before + (seq![(c.tag(), c.payload())] + cs) =~= pairs(chunks@) + cs);
                }
            }
        }
        proof {
            assert(value@.subrange(pos as int, value@.len() as int) =~= Seq::<u8>::empty());
            assert(pairs(chunks@) + Seq::<(Seq<u8>, Seq<u8>)>::empty() =~= pairs(chunks@));
        }
        let png = Png { chunks };
        proof {
            assert(png.tags() =~= pairs(chunks@).map_values(|c: (Seq<u8>, Seq<u8>)| c.0));
            assert(png.payloads() =~= pairs(chunks@).map_values(|c: (Seq<u8>, Seq<u8>)| c.1));
        }
        Ok(png)
    }

    /// Adds a chunk at the end.
    pub fn append_chunk(&mut self, chunk: Chunk)
        ensures
            final(self).tags() == old(self).tags().push(chunk.tag()),
            final(self).payloads() == old(self).payloads().push(chunk.payload()),
    {
        self.chunks.push(chunk);
        assert(self.tags() =~= old(self).tags().push(chunk.tag()));
        assert(self.payloads() =~= old(self).payloads().push(chunk.payload()));
    }

    /// The position of the first chunk whose tag spells `chunk_type`.
    fn position(&self, chunk_type: &str) -> (r: Option<usize>)
        ensures
            match r {
                None => forall|i: int|
                    0 <= i < self.tags().len() ==> #[trigger] self.tags()[i] != chunk_type.spec_bytes(),
                Some(k) => k < self.tags().len() && self.tags()[k as int] == chunk_type.spec_bytes()
                    && forall|i: int| 0 <= i < k ==> #[trigger] self.tags()[i] != chunk_type.spec_bytes(),
            },
    {
        let s = chunk_type.as_bytes();
        let mut i: usize = 0;
        while i < self.chunks.len()
            invariant
                0 <= i <= self.chunks@.len(),
                s@ == chunk_type.spec_bytes(),
                forall|j: int| 0 <= j < i ==> #[trigger] self.tags()[j] != chunk_type.spec_bytes(),
            decreases self.chunks@.len() - i,
        {
            if tag_is(&self.chunks[i], s) {
                return Some(i);
            }
            i = i + 1;
        }
        None
    }

    /// Removes the first chunk whose tag spells `chunk_type`, and hands it back.
    pub fn remove_chunk(&mut self, chunk_type: &str) -> (r: Result<Chunk, PngError>)
        ensures
            r is Err <==> !old(self).tags().contains(chunk_type.spec_bytes()),
            r is Err ==> r->Err_0 == PngError::NoSuchChunk && final(self).tags() == old(self).tags()
                && final(self).payloads() == old(self).payloads(),
            r is Ok ==> exists|k: int|
                0 <= k < old(self).tags().len() && old(self).tags()[k] == chunk_type.spec_bytes()
                    && (forall|i: int| 0 <= i < k ==> #[trigger] old(self).tags()[i] != chunk_type.spec_bytes())
                    && final(self).tags() == old(self).tags().remove(k)
                    && final(self).payloads() == old(self).payloads().remove(k)
                    && final(self).records() == old(self).records().remove(k)
                    && r->Ok_0.tag() == old(self).tags()[k]
                    && r->Ok_0.payload() == old(self).payloads()[k],
    {
        match self.position(chunk_type) {
            None => {
                proof {
                    if old(self).tags().contains(chunk_type.spec_bytes()) {
                        let j = choose|j: int| 0 <= j < old(self).tags().len() && old(self).tags()[j] == chunk_type.spec_bytes();
                        assert(self.tags()[j] != chunk_type.spec_bytes());
                    }
                }
                Err(PngError::NoSuchChunk)
            },
            Some(k) => {
                let c = self.chunks.remove(k);
                proof {
                    assert(self.tags() =~= old(self).tags().remove(k as int));
                    assert(self.payloads() =~= old(self).payloads().remove(k as int));
                    assert(self.records() =~= old(self).records().remove(k as int));
                    assert(old(self).tags().contains(chunk_type.spec_bytes())) by {
                        assert(old(self).tags()[k as int] == chunk_type.spec_bytes());
                    }
                }
                Ok(c)
            },
        }
    }

    /// Removes every chunk whose tag spells `chunk_type`, keeping the others in order.
    pub fn remove_all(&mut self, chunk_type: &str)
        ensures
            final(self).records() == old(self).records().filter(
                |p: (Seq<u8>, Seq<u8>)| p.0 != chunk_type.spec_bytes(),
            ),
    {
        let s = chunk_type.as_bytes();
        let ghost orig = pairs(self.chunks@);
        proof {
            self.lemma_records();
        }
        let mut rest: Vec<Chunk> = Vec::new();
        std::mem::swap(&mut self.chunks, &mut rest);
        let ghost total = rest@.len();
        assert(orig.take(0).filter(|p: (Seq<u8>, Seq<u8>)| p.0 != chunk_type.spec_bytes()) == Seq::<(Seq<u8>, Seq<u8>)>::empty()) by {
            reveal(Seq::filter);
        }
        assert(pairs(self.chunks@) =~= Seq::<(Seq<u8>, Seq<u8>)>::empty());
        assert(pairs(rest@) =~= orig.skip(0));
        while rest.len() > 0
            invariant
                s@ == chunk_type.spec_bytes(),
                orig.len() == total,
                rest@.len() <= total,
                pairs(rest@) == orig.skip(total - rest@.len()),
                pairs(self.chunks@) == orig.take(total - rest@.len()).filter(|p: (Seq<u8>, Seq<u8>)| p.0 != chunk_type.spec_bytes()),
            decreases rest@.len(),
        {
            let ghost i = total - rest@.len();
            let ghost r0 = rest@;
            let c = rest.remove(0);
            proof {
                assert(pairs(rest@) =~= pairs(r0).drop_first());
                assert(pairs(r0).drop_first() =~= orig.skip(i + 1));
                assert(orig[i] == pairs(r0)[0]);
                assert(orig.take(i + 1).drop_last() =~= orig.take(i));
                assert(orig.take(i + 1).last() == orig[i]);
            }
            let ghost before = pairs(self.chunks@);
            let skip_it = tag_is(&c, s);
            if !skip_it {
                self.chunks.push(c);
                assert(pairs(self.chunks@) =~= before.push((c.tag(), c.payload())));
            }
            proof {
                reveal(Seq::filter);
                assert(orig[i].0 == c.tag());
                assert((orig[i].0 != chunk_type.spec_bytes()) == !skip_it);
                assert(total - rest@.len() == i + 1);
                assert(orig.take(i + 1).filter(|p: (Seq<u8>, Seq<u8>)| p.0 != chunk_type.spec_bytes()) == if orig[i].0 != chunk_type.spec_bytes() {
                    orig.take(i).filter(|p: (Seq<u8>, Seq<u8>)| p.0 != chunk_type.spec_bytes()).push(orig[i])
                } else {
                    orig.take(i).filter(|p: (Seq<u8>, Seq<u8>)| p.0 != chunk_type.spec_bytes())
                });
            }
        }
        proof {
            assert(orig.take(total as int) =~= orig);
            self.lemma_records();
        }
    }

    /// Adds a chunk just before a final `IEND` chunk, or at the end where there is none.
    fn insert_before_end(&mut self, chunk: Chunk)
        ensures
            final(self).records() == before_end(old(self).records(), (chunk.tag(), chunk.payload())),
    {
        proof {
            self.lemma_records();
        }
        let ghost rs = self.records();
        let ghost x = (chunk.tag(), chunk.payload());
        let n = self.chunks.len();
        let iend: [u8; 4] = [73, 69, 78, 68];
        assert(iend@ =~= end_tag());
        if n > 0 && tag_is(&self.chunks[n - 1], iend.as_slice()) {
            self.chunks.insert(n - 1, chunk);
            proof {
                self.lemma_records();
                assert(rs.last() == rs[n - 1]);
                assert(pairs(self.chunks@) =~= rs.drop_last().push(x).push(rs.last()));
            }
        } else {
            self.chunks.push(chunk);
            proof {
                self.lemma_records();
                assert(pairs(self.chunks@) =~= rs.push(x));
            }
        }
    }

    /// Puts a chunk of the given type and payload just before the final `IEND` chunk (or at
    /// the end where there is none), after removing the first chunk of that type if there
    /// is one.
    pub fn replace_chunk(&mut self, chunk_type: &str, data: Vec<u8>) -> (r: Result<(), PngError>)
        requires
            data@.len() <= u32::MAX,
        ensures
            r is Err <==> !(chunk_type.spec_bytes().len() == 4 && all_letters(chunk_type.spec_bytes())),
            r is Err ==> r->Err_0 == PngError::InvalidTag && final(self).records() == old(self).records(),
            r is Ok && !old(self).tags().contains(chunk_type.spec_bytes()) ==> final(self).records()
                == before_end(old(self).records(), (chunk_type.spec_bytes(), data@)),
            r is Ok && old(self).tags().contains(chunk_type.spec_bytes()) ==> exists|k: int|
                0 <= k < old(self).tags().len() && old(self).tags()[k] == chunk_type.spec_bytes()
                    && (forall|i: int| 0 <= i < k ==> #[trigger] old(self).tags()[i] != chunk_type.spec_bytes())
                    && final(self).records() == before_end(
                    old(self).records().remove(k),
                    (chunk_type.spec_bytes(), data@),
                ),
    {
        let tag = match ChunkType::from_str(chunk_type) {
            Ok(t) => t,
            Err(e) => return Err(e),
        };
        let ghost pd = data@;
        let chunk = Chunk::new(tag, data);
        let ghost mid = self.records();
        let removed = self.remove_chunk(chunk_type);
        let ghost after_remove = self.records();
        self.insert_before_end(chunk);
        proof {
            if removed is Err {
                assert(after_remove =~= mid);
            } else {
                let k = choose|k: int|
                    0 <= k < old(self).tags().len() && old(self).tags()[k] == chunk_type.spec_bytes()
                        && (forall|i: int| 0 <= i < k ==> #[trigger] old(self).tags()[i] != chunk_type.spec_bytes())
                        && after_remove == mid.remove(k);
                assert(self.records() == before_end(
                    old(self).records().remove(k),
                    (chunk_type.spec_bytes(), pd),
                ));
            }
        }
        Ok(())
    }

    /// The first chunk whose tag spells `chunk_type`, if there is one.
    pub fn chunk_by_type(&self, chunk_type: &str) -> (r: Option<&Chunk>)
        ensures
            r is None <==> !self.tags().contains(chunk_type.spec_bytes()),
            r is Some ==> exists|k: int|
                0 <= k < self.tags().len() && self.tags()[k] == chunk_type.spec_bytes()
                    && (forall|i: int| 0 <= i < k ==> #[trigger] self.tags()[i] != chunk_type.spec_bytes())
                    && r->Some_0.tag() == self.tags()[k]
                    && r->Some_0.payload() == self.payloads()[k],
    {
        match self.position(chunk_type) {
            None => {
                proof {
                    if self.tags().contains(chunk_type.spec_bytes()) {
                        let j = choose|j: int| 0 <= j < self.tags().len() && self.tags()[j] == chunk_type.spec_bytes();
                        assert(self.tags()[j] != chunk_type.spec_bytes());
                    }
                }
                None
            },
            Some(k) => {
                assert(self.tags().contains(chunk_type.spec_bytes()));
                let c = &self.chunks[k];
                assert(c.tag() == self.tags()[k as int] && c.payload() == self.payloads()[k as int]);
                Some(c)
            },
        }
    }

    /// The chunks, in order.
    pub fn chunks(&self) -> (r: &[Chunk])
        ensures
            r@.map_values(|c: Chunk| c.tag()) == self.tags(),
            r@.map_values(|c: Chunk| c.payload()) == self.payloads(),
    {
        self.chunks.as_slice()
    }

    /// The whole file: the signature, then each chunk's bytes in order.
    pub fn as_bytes(&self) -> (r: Vec<u8>)
        ensures
            r@ == signature() + all_serialized(self.tags(), self.payloads()),
    {
        let sig: [u8; 8] = [137, 80, 78, 71, 13, 10, 26, 10];
        let mut out: Vec<u8> = Vec::new();
        push_range(&mut out, sig.as_slice(), 0, 8);
        assert(out@ =~= signature());
        assert(self.tags().skip(0) =~= self.tags());
        assert(self.payloads().skip(0) =~= self.payloads());
        let mut i: usize = 0;
        while i < self.chunks.len()
            invariant
                0 <= i <= self.chunks@.len(),
                self.tags().len() == self.chunks@.len(),
                self.payloads().len() == self.chunks@.len(),
                signature() + all_serialized(self.tags(), self.payloads()) == out@ + all_serialized(
                    self.tags().skip(i as int),
                    self.payloads().skip(i as int),
                ),
            decreases self.chunks@.len() - i,
        {
            let b = self.chunks[i].as_bytes();
            let ghost before = out@;
            push_range(&mut out, b.as_slice(), 0, b.len());
            proof {
                let ts = self.tags().skip(i as int);
                let ds = self.payloads().skip(i as int);
                assert(ts.drop_first() =~= self.tags().skip(i + 1));
                assert(ds.drop_first() =~= self.payloads().skip(i + 1));
                assert(ts[0] == self.chunks@[i as int].tag());
                assert(ds[0] == self.chunks@[i as int].payload());
                assert(b@.subrange(0, b@.len() as int) =~= b@);
                assert(before + all_serialized(ts, ds) =~= out@ + all_serialized(ts.drop_first(), ds.drop_first()));
            }
            i = i + 1;
        }
        assert(all_serialized(self.tags().skip(i as int), self.payloads().skip(i as int)) =~= Seq::<u8>::empty());
        assert(out@ + Seq::<u8>::empty() =~= out@);
        out
    }
}

} // verus!
