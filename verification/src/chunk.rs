//! The chunk codec: walks a raster container's chunk sequence strictly by
//! declared lengths, extracts and re-injects chunks, and recomputes
//! checksums. A container is an 8-byte signature followed by chunks; each
//! chunk is a big-endian length, a 4-byte tag, the payload, and a CRC-32
//! over tag and payload.
use vstd::prelude::*;

use crate::bytes::{
    be32, be32_bytes, be32_spec, extend_bytes, lemma_be32_of_bytes, lemma_be32_round_trip,
    push_be32, subvec,
};
use crate::errors::FormatError;

verus! {

/// CRC-32 of a byte string, as the checksum routine computes it.
pub uninterp spec fn crc_of(data: Seq<u8>) -> u32;

/// Relies on crc32fast::hash: the CRC-32 of a byte slice, a function of the
/// bytes alone.
#[verifier::external_body]
pub(crate) fn crc32(data: &Vec<u8>) -> (r: u32)
    ensures
        r == crc_of(data@),
{
    crc32fast::hash(data.as_slice())
}

/// The checksum a chunk must carry: CRC-32 over the tag bytes followed by
/// the payload.
pub open spec fn chunk_crc(tag: u32, payload: Seq<u8>) -> u32 {
    crc_of(be32_bytes(tag) + payload)
}

/// Computes the checksum over tag and payload.
pub fn checksum(tag: u32, payload: &Vec<u8>) -> (r: u32)
    ensures
        r == chunk_crc(tag, payload@),
{
    let mut buf: Vec<u8> = Vec::new();
    push_be32(&mut buf, tag);
    extend_bytes(&mut buf, payload);
    proof {
        assert(buf@ =~= be32_bytes(tag) + payload@);
    }
    crc32(&buf)
}

/// One chunk: tag, payload, and the checksum it carries (which may or may
/// not be the one its contents demand).
pub struct Chunk {
    pub tag: u32,
    pub payload: Vec<u8>,
    pub crc: u32,
}

pub ghost struct ChunkModel {
    pub tag: u32,
    pub payload: Seq<u8>,
    pub crc: u32,
}

impl View for Chunk {
    type V = ChunkModel;

    open spec fn view(&self) -> ChunkModel {
        ChunkModel { tag: self.tag, payload: self.payload@, crc: self.crc }
    }
}

/// A chunk whose payload length fits the 32-bit length field.
pub open spec fn chunk_wf(c: ChunkModel) -> bool {
    c.payload.len() <= u32::MAX
}

/// A chunk whose carried checksum is the one its contents demand.
pub open spec fn chunk_checks(c: ChunkModel) -> bool {
    c.crc == chunk_crc(c.tag, c.payload)
}

/// The byte form of one chunk.
pub open spec fn chunk_bytes(c: ChunkModel) -> Seq<u8> {
    be32_bytes(c.payload.len() as u32) + be32_bytes(c.tag) + c.payload + be32_bytes(c.crc)
}

/// The byte form of a chunk sequence.
pub open spec fn chunks_bytes(cs: Seq<ChunkModel>) -> Seq<u8>
    decreases cs.len(),
{
    if cs.len() == 0 {
        Seq::empty()
    } else {
        chunk_bytes(cs[0]) + chunks_bytes(cs.drop_first())
    }
}

/// The fixed 8-byte signature that opens a container.
pub open spec fn signature() -> Seq<u8> {
    seq![137u8, 80u8, 78u8, 71u8, 13u8, 10u8, 26u8, 10u8]
}

/// The byte form of a whole container.
pub open spec fn container_bytes(cs: Seq<ChunkModel>) -> Seq<u8> {
    signature() + chunks_bytes(cs)
}

/// The views of a vector of chunks.
pub open spec fn chunk_views(cs: Seq<Chunk>) -> Seq<ChunkModel> {
    Seq::new(cs.len(), |i: int| cs[i]@)
}

// ---------------------------------------------------------------------------
// Parsing: structural length-walking
// ---------------------------------------------------------------------------

/// Walks the chunk sequence from `pos`, collecting every chunk. Fails with
/// `TruncatedChunk` when a declared length would read past the end.
pub open spec fn parse_chunks_at(bytes: Seq<u8>, pos: int) -> Result<Seq<ChunkModel>, FormatError>
    decreases bytes.len() - pos,
{
    if pos == bytes.len() {
        Ok(Seq::empty())
    } else if pos < 0 || pos + 12 > bytes.len() {
        Err(FormatError::TruncatedChunk)
    } else {
        let len = be32_spec(bytes[pos], bytes[pos + 1], bytes[pos + 2], bytes[pos + 3]) as int;
        if pos + 12 + len > bytes.len() {
            Err(FormatError::TruncatedChunk)
        } else {
            let c = ChunkModel {
                tag: be32_spec(bytes[pos + 4], bytes[pos + 5], bytes[pos + 6], bytes[pos + 7]),
                payload: bytes.subrange(pos + 8, pos + 8 + len),
                crc: be32_spec(
                    bytes[pos + 8 + len],
                    bytes[pos + 9 + len],
                    bytes[pos + 10 + len],
                    bytes[pos + 11 + len],
                ),
            };
            match parse_chunks_at(bytes, pos + 12 + len) {
                Ok(rest) => Ok(seq![c] + rest),
                Err(e) => Err(e),
            }
        }
    }
}

/// Parses a whole container into its chunks.
pub open spec fn parse_container_spec(bytes: Seq<u8>) -> Result<Seq<ChunkModel>, FormatError> {
    if bytes.len() < 8 {
        Err(FormatError::TruncatedChunk)
    } else {
        parse_chunks_at(bytes, 8)
    }
}

/// Walks the chunk sequence from `pos` for the first chunk tagged `tag`;
/// `Ok(Some((offset, total_length)))` on a match, `Ok(None)` at a clean end.
pub open spec fn find_chunk_at(bytes: Seq<u8>, pos: int, tag: u32) -> Result<
    Option<(int, int)>,
    FormatError,
>
    decreases bytes.len() - pos,
{
    if pos == bytes.len() {
        Ok(None)
    } else if pos < 0 || pos + 12 > bytes.len() {
        Err(FormatError::TruncatedChunk)
    } else {
        let len = be32_spec(bytes[pos], bytes[pos + 1], bytes[pos + 2], bytes[pos + 3]) as int;
        if pos + 12 + len > bytes.len() {
            Err(FormatError::TruncatedChunk)
        } else if be32_spec(bytes[pos + 4], bytes[pos + 5], bytes[pos + 6], bytes[pos + 7])
            == tag {
            Ok(Some((pos, 12 + len)))
        } else {
            find_chunk_at(bytes, pos + 12 + len, tag)
        }
    }
}

/// Locates the first chunk tagged `tag` by structural length-walking.
pub open spec fn find_chunk_spec(bytes: Seq<u8>, tag: u32) -> Result<
    Option<(int, int)>,
    FormatError,
> {
    if bytes.len() < 8 {
        Err(FormatError::TruncatedChunk)
    } else {
        find_chunk_at(bytes, 8, tag)
    }
}

/// Scans the container strictly chunk by chunk — never by searching payload
/// bytes for a tag pattern — and returns the offset and total length of the
/// first chunk tagged `tag`.
pub fn find_chunk(bytes: &Vec<u8>, tag: u32) -> (r: Result<Option<(usize, usize)>, FormatError>)
    ensures
        match r {
            Ok(Some((off, total))) => find_chunk_spec(bytes@, tag) == Ok::<_, FormatError>(
                Some((off as int, total as int)),
            ) && 8 <= off && off + total <= bytes@.len() && total >= 12,
            Ok(None) => find_chunk_spec(bytes@, tag) == Ok::<Option<(int, int)>, FormatError>(
                None,
            ),
            Err(e) => find_chunk_spec(bytes@, tag) == Err::<Option<(int, int)>, _>(e),
        },
{
    if bytes.len() < 8 {
        return Err(FormatError::TruncatedChunk);
    }
    let mut pos: usize = 8;
    loop
        invariant
            8 <= pos <= bytes@.len(),
            bytes@.len() >= 8,
            find_chunk_at(bytes@, pos as int, tag) == find_chunk_spec(bytes@, tag),
        decreases bytes@.len() - pos,
    {
        let remaining = bytes.len() - pos;
        if remaining == 0 {
            return Ok(None);
        }
        if remaining < 12 {
            return Err(FormatError::TruncatedChunk);
        }
        let len = be32(bytes[pos], bytes[pos + 1], bytes[pos + 2], bytes[pos + 3]);
        let total: u64 = len as u64 + 12;
        if total > remaining as u64 {
            return Err(FormatError::TruncatedChunk);
        }
        let t = be32(bytes[pos + 4], bytes[pos + 5], bytes[pos + 6], bytes[pos + 7]);
        if t == tag {
            return Ok(Some((pos, total as usize)));
        }
        pos = pos + total as usize;
    }
}

/// Parses a whole container into its chunk list.
pub fn parse_container(bytes: &Vec<u8>) -> (r: Result<Vec<Chunk>, FormatError>)
    ensures
        match r {
            Ok(cs) => parse_container_spec(bytes@) == Ok::<_, FormatError>(chunk_views(cs@)),
            Err(e) => parse_container_spec(bytes@) == Err::<Seq<ChunkModel>, _>(e),
        },
{
    if bytes.len() < 8 {
        return Err(FormatError::TruncatedChunk);
    }
    let mut out: Vec<Chunk> = Vec::new();
    let mut pos: usize = 8;
    loop
        invariant
            8 <= pos <= bytes@.len(),
            bytes@.len() >= 8,
            parse_chunks_at(bytes@, 8) == (match parse_chunks_at(bytes@, pos as int) {
                Ok(rest) => Ok::<_, FormatError>(chunk_views(out@) + rest),
                Err(e) => Err::<Seq<ChunkModel>, _>(e),
            }),
        decreases bytes@.len() - pos,
    {
        let remaining = bytes.len() - pos;
        if remaining == 0 {
            proof {
                assert(chunk_views(out@) + Seq::<ChunkModel>::empty() =~= chunk_views(out@));
            }
            return Ok(out);
        }
        if remaining < 12 {
            return Err(FormatError::TruncatedChunk);
        }
        let len = be32(bytes[pos], bytes[pos + 1], bytes[pos + 2], bytes[pos + 3]);
        let total: u64 = len as u64 + 12;
        if total > remaining as u64 {
            return Err(FormatError::TruncatedChunk);
        }
        let lenu = len as usize;
        let t = be32(bytes[pos + 4], bytes[pos + 5], bytes[pos + 6], bytes[pos + 7]);
        let payload = subvec(bytes, pos + 8, pos + 8 + lenu);
        let crc = be32(
            bytes[pos + 8 + lenu],
            bytes[pos + 9 + lenu],
            bytes[pos + 10 + lenu],
            bytes[pos + 11 + lenu],
        );
        let ghost pre = out@;
        out.push(Chunk { tag: t, payload, crc });
        proof {
            let c = ChunkModel {
                tag: t,
                payload: bytes@.subrange(pos + 8, pos + 8 + len as int),
                crc: crc,
            };
            assert(chunk_views(out@) =~= chunk_views(pre) + seq![c]);
            let next = pos + 12 + len as int;
            match parse_chunks_at(bytes@, next) {
                Ok(rest) => {
                    assert(parse_chunks_at(bytes@, pos as int)
                        == Ok::<_, FormatError>(seq![c] + rest));
                    assert(chunk_views(pre) + (seq![c] + rest)
                        =~= chunk_views(out@) + rest);
                },
                Err(e) => {},
            }
        }
        pos = pos + total as usize;
    }
}

/// Serializes one chunk: length, tag, payload, carried checksum.
pub fn chunk_to_bytes(c: &Chunk) -> (r: Vec<u8>)
    requires
        chunk_wf(c@),
    ensures
        r@ == chunk_bytes(c@),
{
    let mut out: Vec<u8> = Vec::new();
    push_be32(&mut out, c.payload.len() as u32);
    push_be32(&mut out, c.tag);
    extend_bytes(&mut out, &c.payload);
    push_be32(&mut out, c.crc);
    proof {
        assert(out@ =~= chunk_bytes(c@));
    }
    out
}

/// Builds a chunk around a payload, computing the checksum it must carry.
pub fn make_chunk(tag: u32, payload: Vec<u8>) -> (c: Chunk)
    requires
        payload@.len() <= u32::MAX,
    ensures
        c@.tag == tag,
        c@.payload == payload@,
        c@.crc == chunk_crc(tag, payload@),
        chunk_wf(c@),
        chunk_checks(c@),
{
    let crc = checksum(tag, &payload);
    Chunk { tag, payload, crc }
}

/// Reassembles a container from an ordered chunk list, byte for byte.
pub fn build_container(cs: &Vec<Chunk>) -> (r: Vec<u8>)
    requires
        forall|i: int| 0 <= i < cs@.len() ==> chunk_wf(#[trigger] cs@[i]@),
    ensures
        r@ == container_bytes(chunk_views(cs@)),
{
    let ghost views = chunk_views(cs@);
    let mut out: Vec<u8> = Vec::new();
    out.push(137);
    out.push(80);
    out.push(78);
    out.push(71);
    out.push(13);
    out.push(10);
    out.push(26);
    out.push(10);
    proof {
        assert(out@ =~= signature());
        assert(chunks_bytes(views.subrange(0, 0)) =~= Seq::<u8>::empty());
        assert(out@ =~= signature() + chunks_bytes(views.subrange(0, 0)));
    }
    let mut i: usize = 0;
    while i < cs.len()
        invariant
            i <= cs@.len(),
            views == chunk_views(cs@),
            views.len() == cs@.len(),
            forall|k: int| 0 <= k < cs@.len() ==> chunk_wf(#[trigger] cs@[k]@),
            out@ == signature() + chunks_bytes(views.subrange(0, i as int)),
        decreases cs@.len() - i,
    {
        let cb = chunk_to_bytes(&cs[i]);
        extend_bytes(&mut out, &cb);
        proof {
            lemma_chunks_bytes_snoc(views.subrange(0, i + 1));
            assert(views.subrange(0, i + 1).drop_last() =~= views.subrange(0, i as int));
            assert(views.subrange(0, i + 1).last() == views[i as int]);
            assert(views[i as int] == cs@[i as int]@);
            assert(out@ =~= signature() + chunks_bytes(views.subrange(0, i + 1)));
        }
        i = i + 1;
    }
    proof {
        assert(views.subrange(0, views.len() as int) =~= views);
    }
    out
}

/// Unfolds a chunk sequence's byte form at its last chunk.
pub proof fn lemma_chunks_bytes_snoc(cs: Seq<ChunkModel>)
    requires
        cs.len() >= 1,
    ensures
        chunks_bytes(cs) == chunks_bytes(cs.drop_last()) + chunk_bytes(cs.last()),
    decreases cs.len(),
{
    if cs.len() == 1 {
        assert(cs.drop_last() =~= Seq::<ChunkModel>::empty());
        assert(chunks_bytes(cs.drop_first()) =~= Seq::<u8>::empty());
        assert(cs[0] == cs.last());
        assert(chunks_bytes(cs) =~= chunk_bytes(cs.last()));
        assert(chunks_bytes(cs.drop_last()) + chunk_bytes(cs.last()) =~= chunk_bytes(cs.last()));
    } else {
        lemma_chunks_bytes_snoc(cs.drop_first());
        assert(cs.drop_first().drop_last() =~= cs.drop_last().drop_first());
        assert(cs.drop_first().last() == cs.last());
        assert(cs.drop_last()[0] == cs[0]);
        assert(chunks_bytes(cs) == chunk_bytes(cs[0]) + chunks_bytes(cs.drop_first()));
        assert(chunks_bytes(cs.drop_last()) == chunk_bytes(cs[0])
            + chunks_bytes(cs.drop_last().drop_first()));
        assert(chunks_bytes(cs) =~= chunks_bytes(cs.drop_last()) + chunk_bytes(cs.last()));
    }
}

/// Parsing a built container gives back exactly the chunks it was built
/// from: the codec's round trip at the chunk layer.
pub proof fn lemma_parse_chunks_round_trip(bytes: Seq<u8>, pos: int, cs: Seq<ChunkModel>)
    requires
        0 <= pos <= bytes.len(),
        bytes.subrange(pos, bytes.len() as int) == chunks_bytes(cs),
        forall|i: int| 0 <= i < cs.len() ==> chunk_wf(#[trigger] cs[i]),
    ensures
        parse_chunks_at(bytes, pos) == Ok::<_, FormatError>(cs),
    decreases cs.len(),
{
    let tail = bytes.subrange(pos, bytes.len() as int);
    if cs.len() == 0 {
        assert(chunks_bytes(cs) =~= Seq::<u8>::empty());
        assert(pos == bytes.len());
        assert(cs =~= Seq::<ChunkModel>::empty());
    } else {
        let c = cs[0];
        assert(chunk_wf(c));
        let rest = cs.drop_first();
        let cb = chunk_bytes(c);
        let len = c.payload.len() as int;
        assert(tail == cb + chunks_bytes(rest));
        assert(cb.len() == 12 + len);
        assert forall|k: int| 0 <= k < cb.len() implies bytes[pos + k] == cb[k] by {
            assert(tail[k] == cb[k]);
            assert(bytes[pos + k] == tail[k]);
        }
        let lv = c.payload.len() as u32;
        let lb = be32_bytes(lv);
        let tb = be32_bytes(c.tag);
        let vb = be32_bytes(c.crc);
        assert(cb[0] == lb[0] && cb[1] == lb[1] && cb[2] == lb[2] && cb[3] == lb[3]);
        assert(lb[0] == (lv >> 24) as u8 && lb[1] == (lv >> 16) as u8 && lb[2] == (lv >> 8) as u8
            && lb[3] == lv as u8);
        lemma_be32_round_trip(lv);
        assert(be32_spec(bytes[pos], bytes[pos + 1], bytes[pos + 2], bytes[pos + 3]) == lv);
        assert(cb[4] == tb[0] && cb[5] == tb[1] && cb[6] == tb[2] && cb[7] == tb[3]);
        assert(tb[0] == (c.tag >> 24) as u8 && tb[1] == (c.tag >> 16) as u8
            && tb[2] == (c.tag >> 8) as u8 && tb[3] == c.tag as u8);
        lemma_be32_round_trip(c.tag);
        assert(be32_spec(bytes[pos + 4], bytes[pos + 5], bytes[pos + 6], bytes[pos + 7])
            == c.tag);
        assert forall|j: int| 0 <= j < len implies cb[8 + j] == c.payload[j] by {
            assert((lb + tb + c.payload + vb)[8 + j] == c.payload[j]);
        }
        assert(bytes.subrange(pos + 8, pos + 8 + len) =~= c.payload);
        assert(cb[8 + len] == vb[0] && cb[9 + len] == vb[1] && cb[10 + len] == vb[2]
            && cb[11 + len] == vb[3]);
        assert(vb[0] == (c.crc >> 24) as u8 && vb[1] == (c.crc >> 16) as u8
            && vb[2] == (c.crc >> 8) as u8 && vb[3] == c.crc as u8);
        lemma_be32_round_trip(c.crc);
        assert(be32_spec(
            bytes[pos + 8 + len],
            bytes[pos + 9 + len],
            bytes[pos + 10 + len],
            bytes[pos + 11 + len],
        ) == c.crc);
        assert forall|j: int| 0 <= j < chunks_bytes(rest).len() implies bytes[pos + 12 + len + j]
            == chunks_bytes(rest)[j] by {
            assert(tail[12 + len + j] == (cb + chunks_bytes(rest))[12 + len + j]);
            assert(bytes[pos + 12 + len + j] == tail[12 + len + j]);
        }
        assert(bytes.subrange(pos + 12 + len, bytes.len() as int) =~= chunks_bytes(rest));
        lemma_parse_chunks_round_trip(bytes, pos + 12 + len, rest);
        let parsed = ChunkModel {
            tag: be32_spec(bytes[pos + 4], bytes[pos + 5], bytes[pos + 6], bytes[pos + 7]),
            payload: bytes.subrange(pos + 8, pos + 8 + len),
            crc: be32_spec(
                bytes[pos + 8 + len],
                bytes[pos + 9 + len],
                bytes[pos + 10 + len],
                bytes[pos + 11 + len],
            ),
        };
        assert(parsed == c);
        assert((be32_spec(bytes[pos], bytes[pos + 1], bytes[pos + 2], bytes[pos + 3]) as int)
            == len);
        assert(parse_chunks_at(bytes, pos) == Ok::<_, FormatError>(seq![parsed] + rest));
        assert(seq![c] + rest =~= cs);
    }
}

/// The container round trip: parsing what `build_container` wrote gives the
/// chunk list back unchanged.
pub proof fn lemma_container_round_trip(cs: Seq<ChunkModel>)
    requires
        forall|i: int| 0 <= i < cs.len() ==> chunk_wf(#[trigger] cs[i]),
    ensures
        parse_container_spec(container_bytes(cs)) == Ok::<_, FormatError>(cs),
{
    let bytes = container_bytes(cs);
    assert(bytes.len() >= 8);
    assert(bytes.subrange(8, bytes.len() as int) =~= chunks_bytes(cs));
    lemma_parse_chunks_round_trip(bytes, 8, cs);
}

/// Builds a new container by copying every byte up to the first chunk tagged
/// `before_tag`, inserting `new_chunk` (a fully formed chunk), and copying
/// the remainder unchanged.
pub fn splice_chunk(container: &Vec<u8>, new_chunk: &Vec<u8>, before_tag: u32) -> (r: Result<
    Vec<u8>,
    FormatError,
>)
    ensures
        match r {
            Ok(out) => match find_chunk_spec(container@, before_tag) {
                Ok(Some(p)) => out@ == container@.subrange(0, p.0) + new_chunk@
                    + container@.subrange(p.0, container@.len() as int),
                _ => false,
            },
            Err(e) => match find_chunk_spec(container@, before_tag) {
                Ok(Some(p)) => false,
                Ok(None) => e == FormatError::MissingChunk,
                Err(fe) => e == fe,
            },
        },
{
    match find_chunk(container, before_tag) {
        Ok(Some((off, total))) => {
            proof {
                assert(find_chunk_spec(container@, before_tag) == Ok::<_, FormatError>(
                    Some((off as int, total as int)),
                ));
            }
            let mut out = subvec(container, 0, off);
            extend_bytes(&mut out, new_chunk);
            let rest = subvec(container, off, container.len());
            extend_bytes(&mut out, &rest);
            proof {
                assert(out@ =~= container@.subrange(0, off as int) + new_chunk@
                    + container@.subrange(off as int, container@.len() as int));
            }
            Ok(out)
        },
        Ok(None) => Err(FormatError::MissingChunk),
        Err(e) => Err(e),
    }
}

} // verus!
