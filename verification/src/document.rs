//! The icon document: decoded metadata combined with per-frame pixel tiles,
//! the spritesheet grid that lays the tiles out on one raster, and the
//! container codec that turns a document into container bytes and back.
//!
//! Grid geometry: states are laid out in declaration order, one state per
//! row; within a state, direction is the outer axis and frame index the
//! inner axis. The grid is as wide as the longest state row; unfilled
//! trailing cells stay fully transparent.
use vstd::prelude::*;

use crate::bytes::{be32, be32_bytes, be32_spec, lemma_be32_of_bytes, lemma_be32_round_trip,
    push_be32, subvec};
use crate::chunk::{build_container, chunk_crc, chunk_views, chunk_wf, chunk_checks, Chunk,
    ChunkModel, container_bytes, lemma_container_round_trip, make_chunk, parse_container,
    parse_container_spec};
use crate::errors::FormatError;
use crate::grammar::{lemma_metadata_round_trip, Metadata, MetadataModel, metadata_wf,
    parse_metadata, parse_metadata_spec, serialize_metadata, serialize_metadata_spec, StateMeta,
    StateMetaModel, state_meta_wf};
use crate::pixels::{crop_pixel, crop_rect, crop_spec, kc, kx, ky, lemma_px_decode,
    lemma_px_encode, lemma_px_ext, px, Raster, RasterModel, raster_wf};
use vstd::arithmetic::div_mod::{lemma_fundamental_div_mod_converse, lemma_mod_bound,
    lemma_div_pos_is_pos};

verus! {

/// The header chunk tag.
pub const TAG_HEADER: u32 = 0x49484452;

/// The metadata chunk tag.
pub const TAG_META: u32 = 0x7A545874;

/// The pixel-raster chunk tag.
pub const TAG_PIXELS: u32 = 0x49444154;

/// The trailer chunk tag.
pub const TAG_END: u32 = 0x49454E44;

/// One state with its pixel tiles: `frames` holds `dirs * frame_count`
/// tiles, direction-major.
pub struct IconState {
    pub meta: StateMeta,
    pub frames: Vec<Raster>,
}

pub ghost struct IconStateModel {
    pub meta: StateMetaModel,
    pub frames: Seq<RasterModel>,
}

impl View for IconState {
    type V = IconStateModel;

    open spec fn view(&self) -> IconStateModel {
        IconStateModel {
            meta: self.meta@,
            frames: Seq::new(self.frames@.len(), |i: int| self.frames@[i]@),
        }
    }
}

/// The in-memory icon document: format version, per-frame canvas size, and
/// the ordered states with their tiles.
pub struct IconDocument {
    pub version: Vec<u8>,
    pub width: u32,
    pub height: u32,
    pub states: Vec<IconState>,
}

pub ghost struct IconDocumentModel {
    pub version: Seq<u8>,
    pub width: u32,
    pub height: u32,
    pub states: Seq<IconStateModel>,
}

impl View for IconDocument {
    type V = IconDocumentModel;

    open spec fn view(&self) -> IconDocumentModel {
        IconDocumentModel {
            version: self.version@,
            width: self.width,
            height: self.height,
            states: Seq::new(self.states@.len(), |i: int| self.states@[i]@),
        }
    }
}

/// The number of tiles a state occupies: directions times frames.
pub open spec fn state_tiles(m: StateMetaModel) -> int {
    (m.dirs as int) * (m.frame_count as int)
}

/// The grid's column count: the longest state row, at least one.
pub open spec fn layout_cols(states: Seq<IconStateModel>) -> int
    decreases states.len(),
{
    if states.len() == 0 {
        1
    } else {
        let rest = layout_cols(states.drop_last());
        let own = state_tiles(states.last().meta);
        if own > rest {
            own
        } else {
            rest
        }
    }
}

/// The grid's row count: one row per state, at least one.
pub open spec fn layout_rows(states: Seq<IconStateModel>) -> int {
    if states.len() == 0 {
        1
    } else {
        states.len() as int
    }
}

/// The channel value the composed raster holds at column `a`, row `b`: the
/// covering tile's pixel, or fully transparent where no tile lies.
pub open spec fn grid_pixel(
    states: Seq<IconStateModel>,
    tw: u32,
    th: u32,
    a: int,
    b: int,
    c: int,
) -> u8 {
    let row = b / (th as int);
    let col = a / (tw as int);
    if 0 <= row < states.len() && 0 <= col < states[row].frames.len() {
        px(states[row].frames[col], a % (tw as int), b % (th as int), c)
    } else {
        0
    }
}

/// The composed spritesheet raster, pixel by pixel.
pub open spec fn compose_spec(
    states: Seq<IconStateModel>,
    tw: u32,
    th: u32,
    gw: u32,
    gh: u32,
) -> RasterModel {
    RasterModel {
        width: gw,
        height: gh,
        pixels: Seq::new(
            (4 * (gw as int) * (gh as int)) as nat,
            |k: int| grid_pixel(states, tw, th, kx(k, gw as int), ky(k, gw as int), kc(k)),
        ),
    }
}

/// A document whose metadata is well-formed, whose every tile matches the
/// canvas size, and whose grid fits the format's 32-bit limits.
pub open spec fn document_wf(d: IconDocumentModel) -> bool {
    &&& d.width >= 1
    &&& d.height >= 1
    &&& metadata_wf(doc_metadata(d))
    &&& forall|i: int| 0 <= i < d.states.len() ==> state_meta_wf(#[trigger] d.states[i].meta)
    &&& forall|i: int|
        0 <= i < d.states.len() ==> (#[trigger] d.states[i].frames).len() == state_tiles(
            d.states[i].meta,
        )
    &&& forall|i: int, t: int|
        0 <= i < d.states.len() && 0 <= t < d.states[i].frames.len() ==> raster_wf(
            #[trigger] d.states[i].frames[t],
        ) && d.states[i].frames[t].width == d.width && d.states[i].frames[t].height == d.height
    &&& layout_cols(d.states) * d.width <= u32::MAX
    &&& layout_rows(d.states) * d.height <= u32::MAX
    &&& 4 * (layout_cols(d.states) * d.width) * (layout_rows(d.states) * d.height) <= u32::MAX
}

/// The metadata document a document serializes.
pub open spec fn doc_metadata(d: IconDocumentModel) -> MetadataModel {
    MetadataModel {
        version: d.version,
        width: d.width,
        height: d.height,
        states: Seq::new(d.states.len(), |i: int| d.states[i].meta),
    }
}

/// Repeated layout computations on the same states give the same grid: the
/// grid geometry is a function of the state list alone, with no hidden
/// nondeterminism.
pub proof fn lemma_layout_deterministic(
    a: Seq<IconStateModel>,
    b: Seq<IconStateModel>,
    tw: u32,
    th: u32,
)
    requires
        a == b,
    ensures
        layout_cols(a) == layout_cols(b),
        layout_rows(a) == layout_rows(b),
        forall|x: int, y: int, c: int|
            grid_pixel(a, tw, th, x, y, c) == grid_pixel(b, tw, th, x, y, c),
{
}

/// Computes the grid column count.
#[verifier::loop_isolation(false)]
pub fn layout_cols_exec(states: &Vec<IconState>) -> (r: u64)
    requires
        forall|i: int|
            0 <= i < states@.len() ==> (#[trigger] states@[i]@.frames).len() == state_tiles(
                states@[i]@.meta,
            ),
    ensures
        r as int == layout_cols(Seq::new(states@.len(), |i: int| states@[i]@)),
        1 <= r,
{
    let ghost sv = Seq::new(states@.len(), |i: int| states@[i]@);
    let mut cols: u64 = 1;
    let mut i: usize = 0;
    proof {
        assert(sv.subrange(0, 0) =~= Seq::<IconStateModel>::empty());
    }
    while i < states.len()
        invariant
            i <= states@.len(),
            cols as int == layout_cols(sv.subrange(0, i as int)),
            cols >= 1,
        decreases states@.len() - i,
    {
        let m = &states[i].meta;
        proof {
            assert((m.dirs as int) * (m.frame_count as int) <= u64::MAX) by (nonlinear_arith)
                requires
                    m.dirs <= u32::MAX,
                    m.frame_count <= u32::MAX,
            ;
        }
        let own: u64 = (m.dirs as u64) * (m.frame_count as u64);
        proof {
            assert(sv.subrange(0, i + 1).drop_last() =~= sv.subrange(0, i as int));
            assert(sv.subrange(0, i + 1).last() == sv[i as int]);
            assert(sv[i as int].meta == states@[i as int]@.meta);
            assert(own as int == state_tiles(sv[i as int].meta));
        }
        if own > cols {
            cols = own;
        }
        i = i + 1;
    }
    proof {
        assert(sv.subrange(0, sv.len() as int) =~= sv);
    }
    cols
}

/// Composes every state's tiles onto one blank spritesheet raster; cells no
/// tile covers stay fully transparent.
#[verifier::loop_isolation(false)]
pub fn compose(states: &Vec<IconState>, tw: u32, th: u32, gw: u32, gh: u32) -> (r: Raster)
    requires
        tw >= 1,
        th >= 1,
        4 * (gw as int) * (gh as int) <= u32::MAX,
        forall|i: int, t: int|
            0 <= i < states@.len() && 0 <= t < states@[i]@.frames.len() ==> raster_wf(
                #[trigger] states@[i]@.frames[t],
            ) && states@[i]@.frames[t].width == tw && states@[i]@.frames[t].height == th,
    ensures
        raster_wf(r@),
        r@ == compose_spec(Seq::new(states@.len(), |i: int| states@[i]@), tw, th, gw, gh),
{
    let ghost sv = Seq::new(states@.len(), |i: int| states@[i]@);
    let ghost cs = compose_spec(sv, tw, th, gw, gh);
    let mut pixels: Vec<u8> = Vec::new();
    let n: usize = compose_len(gw, gh);
    let mut k: usize = 0;
    while k < n
        invariant
            k <= n,
            pixels@.len() == k,
            forall|k2: int| 0 <= k2 < k ==> pixels@[k2] == cs.pixels[k2],
        decreases n - k,
    {
        proof {
            assert(gw >= 1) by (nonlinear_arith)
                requires
                    k < n,
                    n == 4 * (gw as int) * (gh as int),
                    gw >= 0,
                    gh >= 0,
            ;
            lemma_px_decode(gw as int, gh as int, k as int);
        }
        let q: usize = k / 4;
        let c: usize = k % 4;
        let a: usize = q % (gw as usize);
        let b: usize = q / (gw as usize);
        let row: usize = b / (th as usize);
        let col: usize = a / (tw as usize);
        proof {
            lemma_div_pos_is_pos(b as int, th as int);
            lemma_div_pos_is_pos(a as int, tw as int);
        }
        let v: u8 = if row < states.len() {
            let st = &states[row];
            proof {
                assert(sv[row as int] == states@[row as int]@);
            }
            if col < st.frames.len() {
                let x2: usize = a % (tw as usize);
                let y2: usize = b % (th as usize);
                proof {
                    lemma_mod_bound(a as int, tw as int);
                    lemma_mod_bound(b as int, th as int);
                    lemma_px_encode(tw as int, th as int, x2 as int, y2 as int, c as int);
                    assert(sv[row as int].frames[col as int] == states@[row as int]@.frames[
                        col as int]);
                    assert(raster_wf(states@[row as int]@.frames[col as int]));
                }
                let fr = &st.frames[col];
                fr.pixels[4 * (y2 * (tw as usize) + x2) + c]
            } else {
                0
            }
        } else {
            0
        };
        pixels.push(v);
        proof {
            assert(cs.pixels[k as int] == grid_pixel(sv, tw, th, kx(k as int, gw as int),
                ky(k as int, gw as int), kc(k as int)));
        }
        k = k + 1;
    }
    let r = Raster { width: gw, height: gh, pixels };
    proof {
        assert(r@.pixels =~= cs.pixels);
    }
    r
}

/// The buffer length of the composed raster.
fn compose_len(gw: u32, gh: u32) -> (n: usize)
    requires
        4 * (gw as int) * (gh as int) <= u32::MAX,
    ensures
        n == 4 * (gw as int) * (gh as int),
{
    proof {
        assert((gw as int) * (gh as int) <= u32::MAX && 4 * ((gw as int) * (gh as int)) == 4 * (
        gw as int) * (gh as int)) by (nonlinear_arith)
            requires
                4 * (gw as int) * (gh as int) <= u32::MAX,
                gw >= 0,
                gh >= 0,
        ;
    }
    let wh: usize = (gw as usize) * (gh as usize);
    4 * wh
}

// ---------------------------------------------------------------------------
// Container encoding
// ---------------------------------------------------------------------------

/// The header chunk payload: grid width and height, big-endian.
pub open spec fn header_payload(gw: u32, gh: u32) -> Seq<u8> {
    be32_bytes(gw) + be32_bytes(gh)
}

/// A chunk carrying a payload, with the checksum its contents demand.
pub open spec fn enc_chunk(tag: u32, payload: Seq<u8>) -> ChunkModel {
    ChunkModel { tag, payload, crc: chunk_crc(tag, payload) }
}

/// The grid pixel width a document composes to.
pub open spec fn doc_grid_w(d: IconDocumentModel) -> int {
    layout_cols(d.states) * d.width
}

/// The grid pixel height a document composes to.
pub open spec fn doc_grid_h(d: IconDocumentModel) -> int {
    layout_rows(d.states) * d.height
}

/// The four chunks a document encodes to: header, metadata, pixel raster,
/// trailer.
pub open spec fn encode_chunks(d: IconDocumentModel) -> Seq<ChunkModel> {
    let gw = doc_grid_w(d) as u32;
    let gh = doc_grid_h(d) as u32;
    seq![
        enc_chunk(TAG_HEADER, header_payload(gw, gh)),
        enc_chunk(TAG_META, serialize_metadata_spec(doc_metadata(d))),
        enc_chunk(TAG_PIXELS, compose_spec(d.states, d.width, d.height, gw, gh).pixels),
        enc_chunk(TAG_END, Seq::empty()),
    ]
}

/// What `encode_container` returns: the container bytes, unless the
/// metadata text outgrows the 32-bit chunk length field.
pub open spec fn encode_spec(d: IconDocumentModel) -> Result<Seq<u8>, FormatError> {
    if serialize_metadata_spec(doc_metadata(d)).len() > u32::MAX {
        Err(FormatError::InvalidValue)
    } else {
        Ok(container_bytes(encode_chunks(d)))
    }
}

/// Builds the metadata document a document carries.
#[verifier::loop_isolation(false)]
fn doc_metadata_exec(doc: &IconDocument) -> (r: Metadata)
    ensures
        r@ == doc_metadata(doc@),
{
    let mut metas: Vec<StateMeta> = Vec::new();
    let mut i: usize = 0;
    while i < doc.states.len()
        invariant
            i <= doc.states@.len(),
            metas@.len() == i,
            forall|q: int| 0 <= q < i ==> #[trigger] metas@[q]@ == doc.states@[q]@.meta,
        decreases doc.states@.len() - i,
    {
        metas.push(clone_state_meta(&doc.states[i].meta));
        i = i + 1;
    }
    let r = Metadata {
        version: crate::grammar::clone_bytes(&doc.version),
        width: doc.width,
        height: doc.height,
        states: metas,
    };
    proof {
        assert(r@.states =~~= doc_metadata(doc@).states);
    }
    r
}

/// Copies one state's metadata.
#[verifier::loop_isolation(false)]
pub fn clone_state_meta(s: &StateMeta) -> (r: StateMeta)
    ensures
        r@ == s@,
{
    StateMeta {
        name: crate::grammar::clone_bytes(&s.name),
        dirs: s.dirs,
        frame_count: s.frame_count,
        delays: clone_lines(&s.delays),
        loop_count: s.loop_count,
        rewind: s.rewind,
        movement: s.movement,
        hotspots: clone_lines(&s.hotspots),
        extra: clone_lines(&s.extra),
    }
}

/// Copies a vector of byte strings.
#[verifier::loop_isolation(false)]
pub fn clone_lines(v: &Vec<Vec<u8>>) -> (r: Vec<Vec<u8>>)
    ensures
        r.deep_view() == v.deep_view(),
{
    let mut out: Vec<Vec<u8>> = Vec::new();
    let mut i: usize = 0;
    while i < v.len()
        invariant
            i <= v@.len(),
            out@.len() == i,
            forall|q: int| 0 <= q < i ==> #[trigger] out@[q]@ == v@[q]@,
        decreases v@.len() - i,
    {
        out.push(crate::grammar::clone_bytes(&v[i]));
        i = i + 1;
    }
    proof {
        assert(out.deep_view() =~~= v.deep_view());
    }
    out
}

/// Serializes a document into container bytes: header chunk, metadata
/// chunk, composed pixel raster chunk, and trailer, each with a freshly
/// computed checksum.
pub fn encode_container(doc: &IconDocument) -> (r: Result<Vec<u8>, FormatError>)
    requires
        document_wf(doc@),
    ensures
        match r {
            Ok(out) => encode_spec(doc@) == Ok::<_, FormatError>(out@) && (forall|i: int|
                0 <= i < encode_chunks(doc@).len() ==> chunk_checks(
                    #[trigger] encode_chunks(doc@)[i],
                )),
            Err(e) => encode_spec(doc@) == Err::<Seq<u8>, _>(e),
        },
{
    let ghost d = doc@;
    proof {
        assert forall|i: int| 0 <= i < doc.states@.len() implies (#[trigger] doc.states@[i]@
            .frames).len() == state_tiles(doc.states@[i]@.meta) by {
            assert(d.states[i] == doc.states@[i]@);
            assert(d.states[i].frames.len() == state_tiles(d.states[i].meta));
        }
        assert forall|i: int, t: int|
            0 <= i < doc.states@.len() && 0 <= t < doc.states@[i]@.frames.len() implies raster_wf(
            #[trigger] doc.states@[i]@.frames[t]) && doc.states@[i]@.frames[t].width == doc.width
            && doc.states@[i]@.frames[t].height == doc.height by {
            assert(d.states[i] == doc.states@[i]@);
            assert(raster_wf(d.states[i].frames[t]) && d.states[i].frames[t].width == d.width
                && d.states[i].frames[t].height == d.height);
        }
    }
    let cols: u64 = layout_cols_exec(&doc.states);
    let rows: u64 = if doc.states.len() == 0 {
        1
    } else {
        proof {
            assert(layout_rows(d.states) * d.height <= u32::MAX);
            assert(d.states.len() >= 1);
            assert(d.height >= 1);
            assert(layout_rows(d.states) <= u32::MAX) by (nonlinear_arith)
                requires
                    layout_rows(d.states) * d.height <= u32::MAX,
                    d.height >= 1,
                    layout_rows(d.states) >= 0,
            ;
        }
        doc.states.len() as u64
    };
    proof {
        assert(cols as int == layout_cols(d.states));
        assert(rows as int == layout_rows(d.states));
        assert(cols * (d.width as u64) <= u32::MAX) by (nonlinear_arith)
            requires
                cols as int == layout_cols(d.states),
                layout_cols(d.states) * d.width <= u32::MAX,
                d.width >= 0,
                cols >= 0,
        ;
        assert(rows * (d.height as u64) <= u32::MAX) by (nonlinear_arith)
            requires
                rows as int == layout_rows(d.states),
                layout_rows(d.states) * d.height <= u32::MAX,
                d.height >= 0,
                rows >= 0,
        ;
    }
    let gw: u32 = (cols * (doc.width as u64)) as u32;
    let gh: u32 = (rows * (doc.height as u64)) as u32;
    proof {
        assert(gw as int == doc_grid_w(d));
        assert(gh as int == doc_grid_h(d));
        assert(4 * (gw as int) * (gh as int) <= u32::MAX);
        assert(Seq::new(doc.states@.len(), |i: int| doc.states@[i]@) =~= d.states);
    }
    let raster = compose(&doc.states, doc.width, doc.height, gw, gh);
    let meta = doc_metadata_exec(doc);
    let text = serialize_metadata(&meta);
    if text.len() as u64 > u32::MAX as u64 {
        return Err(FormatError::InvalidValue);
    }
    let mut hp: Vec<u8> = Vec::new();
    push_be32(&mut hp, gw);
    push_be32(&mut hp, gh);
    proof {
        assert(hp@ =~= header_payload(gw, gh));
    }
    let mut chunks: Vec<Chunk> = Vec::new();
    chunks.push(make_chunk(TAG_HEADER, hp));
    chunks.push(make_chunk(TAG_META, text));
    chunks.push(make_chunk(TAG_PIXELS, raster.pixels));
    chunks.push(make_chunk(TAG_END, Vec::new()));
    proof {
        assert(chunk_views(chunks@) =~~= encode_chunks(d));
        assert(forall|i: int| 0 <= i < chunks@.len() ==> chunk_wf(#[trigger] chunks@[i]@));
    }
    let out = build_container(&chunks);
    proof {
        assert forall|i: int| 0 <= i < encode_chunks(d).len() implies chunk_checks(
            #[trigger] encode_chunks(d)[i]) by {
            assert(encode_chunks(d)[i] == chunk_views(chunks@)[i]);
        }
    }
    Ok(out)
}

// ---------------------------------------------------------------------------
// Container decoding
// ---------------------------------------------------------------------------

/// The grid column count a metadata document implies.
pub open spec fn meta_cols(ss: Seq<StateMetaModel>) -> int
    decreases ss.len(),
{
    if ss.len() == 0 {
        1
    } else {
        let rest = meta_cols(ss.drop_last());
        let own = (ss.last().dirs as int) * (ss.last().frame_count as int);
        if own > rest {
            own
        } else {
            rest
        }
    }
}

/// The grid row count a metadata document implies.
pub open spec fn meta_rows(ss: Seq<StateMetaModel>) -> int {
    if ss.len() == 0 {
        1
    } else {
        ss.len() as int
    }
}

/// The first chunk tagged `tag` at or after index `i`.
pub open spec fn first_chunk_from(cs: Seq<ChunkModel>, tag: u32, i: int) -> Option<int>
    decreases cs.len() - i,
{
    if i < 0 || i >= cs.len() {
        None
    } else if cs[i].tag == tag {
        Some(i)
    } else {
        first_chunk_from(cs, tag, i + 1)
    }
}

/// Finds the first chunk with the given tag in a parsed chunk list.
#[verifier::loop_isolation(false)]
pub fn find_tag(cs: &Vec<Chunk>, tag: u32) -> (r: Option<usize>)
    ensures
        match r {
            Option::Some(i) => first_chunk_from(chunk_views(cs@), tag, 0) == Option::Some(
                i as int,
            ) && i < cs@.len() && cs@[i as int].tag == tag,
            Option::None => first_chunk_from(chunk_views(cs@), tag, 0) is None,
        },
{
    let ghost cv = chunk_views(cs@);
    let mut i: usize = 0;
    while i < cs.len()
        invariant
            i <= cs@.len(),
            first_chunk_from(cv, tag, i as int) == first_chunk_from(cv, tag, 0),
        decreases cs@.len() - i,
    {
        if cs[i].tag == tag {
            proof {
                assert(cv[i as int].tag == tag);
            }
            return Some(i);
        }
        proof {
            assert(cv[i as int].tag != tag);
        }
        i = i + 1;
    }
    None
}

/// The tile the decoder extracts for state `i`, tile `t`.
pub open spec fn decode_tile(
    raster: RasterModel,
    tw: u32,
    th: u32,
    i: int,
    t: int,
) -> RasterModel {
    crop_spec(raster, t * (tw as int), i * (th as int), tw, th)
}

/// The states the decoder assembles from metadata and the raster.
pub open spec fn decode_states(
    metas: Seq<StateMetaModel>,
    raster: RasterModel,
    tw: u32,
    th: u32,
) -> Seq<IconStateModel> {
    Seq::new(
        metas.len(),
        |i: int| IconStateModel {
            meta: metas[i],
            frames: Seq::new(
                ((metas[i].dirs as int) * (metas[i].frame_count as int)) as nat,
                |t: int| decode_tile(raster, tw, th, i, t),
            ),
        },
    )
}

/// What `decode_container` returns for any container bytes: the document,
/// or the exact error the bytes earn.
pub open spec fn decode_spec(bytes: Seq<u8>) -> Result<IconDocumentModel, FormatError> {
    match parse_container_spec(bytes) {
        Err(e) => Err(e),
        Ok(chunks) => match first_chunk_from(chunks, TAG_META, 0) {
            Option::None => Err(FormatError::MissingChunk),
            Option::Some(mi) => match parse_metadata_spec(chunks[mi].payload) {
                Err(e) => Err(e),
                Ok(meta) => match first_chunk_from(chunks, TAG_HEADER, 0) {
                    Option::None => Err(FormatError::MissingChunk),
                    Option::Some(hi) => if chunks[hi].payload.len() != 8 {
                        Err(FormatError::InvalidValue)
                    } else {
                        let hp = chunks[hi].payload;
                        let gw = be32_spec(hp[0], hp[1], hp[2], hp[3]);
                        let gh = be32_spec(hp[4], hp[5], hp[6], hp[7]);
                        match first_chunk_from(chunks, TAG_PIXELS, 0) {
                            Option::None => Err(FormatError::MissingChunk),
                            Option::Some(pi) => {
                                let tw = meta.width;
                                let th = meta.height;
                                if tw < 1 || th < 1 || 4 * (tw as int) * (th as int)
                                    > u32::MAX {
                                    Err(FormatError::InvalidValue)
                                } else {
                                    let cols = meta_cols(meta.states);
                                    let rows = meta_rows(meta.states);
                                    if (gw as int) < cols * (tw as int) || (gh as int) < rows
                                        * (th as int) {
                                        Err(FormatError::RasterTooSmall)
                                    } else if chunks[pi].payload.len() != 4 * (gw as int) * (
                                    gh as int) || 4 * (gw as int) * (gh as int) > u32::MAX {
                                        Err(FormatError::InvalidValue)
                                    } else {
                                        let raster = RasterModel {
                                            width: gw,
                                            height: gh,
                                            pixels: chunks[pi].payload,
                                        };
                                        Ok(
                                            IconDocumentModel {
                                                version: meta.version,
                                                width: tw,
                                                height: th,
                                                states: decode_states(
                                                    meta.states,
                                                    raster,
                                                    tw,
                                                    th,
                                                ),
                                            },
                                        )
                                    }
                                }
                            },
                        }
                    },
                },
            },
        },
    }
}

/// Decodes container bytes into a document: locates the metadata, header,
/// and pixel chunks by structural walking, parses the metadata, and slices
/// the raster into per-state tiles.
#[verifier::loop_isolation(false)]
pub fn decode_container(bytes: &Vec<u8>) -> (r: Result<IconDocument, FormatError>)
    ensures
        match r {
            Ok(d) => decode_spec(bytes@) == Ok::<_, FormatError>(d@) && d@.width >= 1
                && d@.height >= 1 && 4 * (d@.width as int) * (d@.height as int) <= u32::MAX && (
            forall|i: int|
                0 <= i < d@.states.len() ==> (#[trigger] d@.states[i].frames).len()
                    == state_tiles(d@.states[i].meta)) && (forall|i: int, t: int|
                0 <= i < d@.states.len() && 0 <= t < d@.states[i].frames.len() ==> raster_wf(
                    #[trigger] d@.states[i].frames[t],
                ) && d@.states[i].frames[t].width == d@.width && d@.states[i].frames[t].height
                    == d@.height),
            Err(e) => decode_spec(bytes@) == Err::<IconDocumentModel, _>(e),
        },
{
    let chunks = match parse_container(bytes) {
        Ok(cs) => cs,
        Err(e) => {
            return Err(e);
        },
    };
    let ghost cv = chunk_views(chunks@);
    let mi = match find_tag(&chunks, TAG_META) {
        Option::Some(i) => i,
        Option::None => {
            return Err(FormatError::MissingChunk);
        },
    };
    proof {
        assert(cv[mi as int].payload == chunks@[mi as int]@.payload);
    }
    let meta = match parse_metadata(&chunks[mi].payload) {
        Ok(m) => m,
        Err(e) => {
            return Err(e);
        },
    };
    let hi = match find_tag(&chunks, TAG_HEADER) {
        Option::Some(i) => i,
        Option::None => {
            return Err(FormatError::MissingChunk);
        },
    };
    proof {
        assert(cv[hi as int].payload == chunks@[hi as int]@.payload);
    }
    if chunks[hi].payload.len() != 8 {
        return Err(FormatError::InvalidValue);
    }
    let hp = &chunks[hi].payload;
    let gw = be32(hp[0], hp[1], hp[2], hp[3]);
    let gh = be32(hp[4], hp[5], hp[6], hp[7]);
    let pi = match find_tag(&chunks, TAG_PIXELS) {
        Option::Some(i) => i,
        Option::None => {
            return Err(FormatError::MissingChunk);
        },
    };
    proof {
        assert(cv[pi as int].payload == chunks@[pi as int]@.payload);
    }
    let tw = meta.width;
    let th = meta.height;
    proof {
        assert(4 * (tw as int) * (th as int) <= u128::MAX) by (nonlinear_arith)
            requires
                tw <= u32::MAX,
                th <= u32::MAX,
        ;
    }
    let t4: u128 = 4u128 * (tw as u128) * (th as u128);
    if tw < 1 || th < 1 || t4 > u32::MAX as u128 {
        return Err(FormatError::InvalidValue);
    }
    let ghost metas = meta@.states;
    let mut cols: u128 = 1;
    let mut si: usize = 0;
    proof {
        assert(metas.subrange(0, 0) =~= Seq::<StateMetaModel>::empty());
    }
    while si < meta.states.len()
        invariant
            si <= meta.states@.len(),
            metas.len() == meta.states@.len(),
            cols as int == meta_cols(metas.subrange(0, si as int)),
            cols >= 1,
            cols <= u64::MAX as u128,
        decreases meta.states@.len() - si,
    {
        let m = &meta.states[si];
        proof {
            assert(metas[si as int] == meta.states@[si as int]@);
            assert((m.dirs as u128) * (m.frame_count as u128) <= u64::MAX as u128)
                by (nonlinear_arith)
                requires
                    m.dirs <= u32::MAX,
                    m.frame_count <= u32::MAX,
            ;
        }
        let own: u128 = (m.dirs as u128) * (m.frame_count as u128);
        proof {
            assert(metas.subrange(0, si + 1).drop_last() =~= metas.subrange(0, si as int));
            assert(metas.subrange(0, si + 1).last() == metas[si as int]);
        }
        if own > cols {
            cols = own;
        }
        si = si + 1;
    }
    proof {
        assert(metas.subrange(0, metas.len() as int) =~= metas);
        assert(cols as int == meta_cols(metas));
    }
    let rows: u128 = if meta.states.len() == 0 {
        1
    } else {
        meta.states.len() as u128
    };
    proof {
        assert(rows as int == meta_rows(metas));
    }
    proof {
        assert(cols * (tw as u128) <= u128::MAX && rows * (th as u128) <= u128::MAX)
            by (nonlinear_arith)
            requires
                0 <= cols <= u64::MAX as u128,
                0 <= rows <= u64::MAX as u128,
                tw <= u32::MAX,
                th <= u32::MAX,
        ;
    }
    if (gw as u128) < cols * (tw as u128) || (gh as u128) < rows * (th as u128) {
        proof {
            assert((cols * (tw as u128)) as int == meta_cols(metas) * (tw as int))
                by (nonlinear_arith)
                requires
                    cols as int == meta_cols(metas),
                    cols * (tw as u128) <= u128::MAX,
            ;
            assert((rows * (th as u128)) as int == meta_rows(metas) * (th as int))
                by (nonlinear_arith)
                requires
                    rows as int == meta_rows(metas),
                    rows * (th as u128) <= u128::MAX,
            ;
        }
        return Err(FormatError::RasterTooSmall);
    }
    proof {
        assert((cols * (tw as u128)) as int == meta_cols(metas) * (tw as int))
            by (nonlinear_arith)
            requires
                cols as int == meta_cols(metas),
                cols * (tw as u128) <= u128::MAX,
        ;
        assert((rows * (th as u128)) as int == meta_rows(metas) * (th as int))
            by (nonlinear_arith)
            requires
                rows as int == meta_rows(metas),
                rows * (th as u128) <= u128::MAX,
        ;
    }
    let plen = chunks[pi].payload.len();
    proof {
        assert(4 * (gw as int) * (gh as int) <= u128::MAX) by (nonlinear_arith)
            requires
                gw <= u32::MAX,
                gh <= u32::MAX,
        ;
    }
    let g4: u128 = 4u128 * (gw as u128) * (gh as u128);
    if plen as u128 != g4 || g4 > u32::MAX as u128 {
        return Err(FormatError::InvalidValue);
    }
    let raster = Raster {
        width: gw,
        height: gh,
        pixels: subvec(&chunks[pi].payload, 0, plen),
    };
    let ghost rm = RasterModel { width: gw, height: gh, pixels: cv[pi as int].payload };
    proof {
        assert(chunks@[pi as int]@.payload.subrange(0, plen as int)
            =~= chunks@[pi as int]@.payload);
        assert(raster@ == rm);
        assert(raster_wf(rm));
    }
    let mut out_states: Vec<IconState> = Vec::new();
    let ghost target = decode_states(metas, rm, tw, th);
    let mut i: usize = 0;
    while i < meta.states.len()
        invariant
            i <= meta.states@.len(),
            out_states@.len() == i,
            forall|q: int| 0 <= q < i ==> #[trigger] out_states@[q]@ == target[q],
        decreases meta.states@.len() - i,
    {
        let m = &meta.states[i];
        proof {
            assert(metas[i as int] == meta.states@[i as int]@);
            assert((m.dirs as u128) * (m.frame_count as u128) <= cols) by {
                assert(metas.subrange(0, metas.len() as int) =~= metas);
                lemma_meta_cols_bound(metas, i as int);
            }
            assert(cols * (tw as u128) <= gw as u128);
            assert((m.dirs as u128) * (m.frame_count as u128) <= u32::MAX as u128)
                by (nonlinear_arith)
                requires
                    (m.dirs as u128) * (m.frame_count as u128) <= cols,
                    cols * (tw as u128) <= gw as u128,
                    gw <= u32::MAX,
                    tw >= 1,
                    cols >= 0,
            ;
        }
        let count: usize = ((m.dirs as u64) * (m.frame_count as u64)) as usize;
        let mut frames: Vec<Raster> = Vec::new();
        let mut t: usize = 0;
        while t < count
            invariant
                t <= count,
                frames@.len() == t,
                forall|q: int| 0 <= q < t ==> #[trigger] frames@[q]@ == decode_tile(
                    rm,
                    tw,
                    th,
                    i as int,
                    q,
                ),
            decreases count - t,
        {
            proof {
                assert((t as int) * (tw as int) + tw <= (count as int) * (tw as int))
                    by (nonlinear_arith)
                    requires
                        t < count,
                        tw >= 1,
                ;
                assert((count as int) * (tw as int) <= (cols as int) * (tw as int))
                    by (nonlinear_arith)
                    requires
                        count as int <= cols as int,
                        tw >= 0,
                ;
                assert((cols as int) * (tw as int) == (cols * (tw as u128)) as int)
                    by (nonlinear_arith)
                    requires
                        cols * (tw as u128) <= u128::MAX,
                ;
                assert((i as int) * (th as int) + th <= (rows as int) * (th as int))
                    by (nonlinear_arith)
                    requires
                        i < meta.states@.len(),
                        rows as int == meta_rows(metas),
                        metas.len() == meta.states@.len(),
                        th >= 1,
                ;
                assert((rows as int) * (th as int) == (rows * (th as u128)) as int)
                    by (nonlinear_arith)
                    requires
                        rows * (th as u128) <= u128::MAX,
                ;
            }
            let x: u32 = ((t as u64) * (tw as u64)) as u32;
            let y: u32 = ((i as u64) * (th as u64)) as u32;
            let tile = crop_rect(&raster, x, y, tw, th);
            frames.push(tile);
            t = t + 1;
        }
        let st = IconState { meta: clone_state_meta(m), frames };
        proof {
            assert(st@.frames =~~= target[i as int].frames);
            assert(st@ == target[i as int]);
        }
        out_states.push(st);
        i = i + 1;
    }
    let doc = IconDocument {
        version: crate::grammar::clone_bytes(&meta.version),
        width: tw,
        height: th,
        states: out_states,
    };
    proof {
        assert(doc@.states =~~= target);
        assert(decode_spec(bytes@) == Ok::<_, FormatError>(doc@));
        assert forall|q: int| 0 <= q < doc@.states.len() implies (#[trigger] doc@.states[q]
            .frames).len() == state_tiles(doc@.states[q].meta) by {
            assert(doc@.states[q] == target[q]);
            assert(metas[q] == meta.states@[q]@);
        }
        assert forall|q: int, t2: int|
            0 <= q < doc@.states.len() && 0 <= t2 < doc@.states[q].frames.len() implies raster_wf(
            #[trigger] doc@.states[q].frames[t2]) && doc@.states[q].frames[t2].width == tw
            && doc@.states[q].frames[t2].height == th by {
            assert(doc@.states[q] == target[q]);
            assert(target[q].frames[t2] == decode_tile(rm, tw, th, q, t2));
            assert(decode_tile(rm, tw, th, q, t2).pixels.len() == 4 * (tw as int) * (th as int));
        }
    }
    Ok(doc)
}

/// Every state's tile count is at most the implied column count.
proof fn lemma_meta_cols_bound(ss: Seq<StateMetaModel>, i: int)
    requires
        0 <= i < ss.len(),
    ensures
        (ss[i].dirs as int) * (ss[i].frame_count as int) <= meta_cols(ss),
    decreases ss.len(),
{
    if i == ss.len() - 1 {
        assert(ss.last() == ss[i]);
    } else {
        assert(ss.drop_last()[i] == ss[i]);
        lemma_meta_cols_bound(ss.drop_last(), i);
    }
}

// ---------------------------------------------------------------------------
// The container round trip
// ---------------------------------------------------------------------------

/// The column count is at least one.
proof fn lemma_layout_cols_pos(ss: Seq<IconStateModel>)
    ensures
        layout_cols(ss) >= 1,
    decreases ss.len(),
{
    if ss.len() > 0 {
        lemma_layout_cols_pos(ss.drop_last());
    }
}

/// Every state's tile count is at most the column count.
proof fn lemma_layout_cols_bound(ss: Seq<IconStateModel>, i: int)
    requires
        0 <= i < ss.len(),
    ensures
        state_tiles(ss[i].meta) <= layout_cols(ss),
    decreases ss.len(),
{
    if i == ss.len() - 1 {
        assert(ss.last() == ss[i]);
    } else {
        assert(ss.drop_last()[i] == ss[i]);
        lemma_layout_cols_bound(ss.drop_last(), i);
    }
}

/// The metadata's implied grid equals the document's grid.
proof fn lemma_meta_layout_cols(ss: Seq<IconStateModel>, ms: Seq<StateMetaModel>)
    requires
        ms.len() == ss.len(),
        forall|i: int| 0 <= i < ss.len() ==> #[trigger] ms[i] == ss[i].meta,
    ensures
        meta_cols(ms) == layout_cols(ss),
        meta_rows(ms) == layout_rows(ss),
    decreases ss.len(),
{
    if ss.len() > 0 {
        assert forall|i: int| 0 <= i < ss.drop_last().len() implies #[trigger] ms.drop_last()[i]
            == ss.drop_last()[i].meta by {
            assert(ms[i] == ss[i].meta);
        }
        lemma_meta_layout_cols(ss.drop_last(), ms.drop_last());
        assert(ms.last() == ss.last().meta);
    }
}

/// A crop's pixels, read back through the pixel accessor.
proof fn lemma_crop_spec_px(src: RasterModel, x: int, y: int, w: u32, h: u32)
    ensures
        forall|i: int, j: int, c: int|
            0 <= i < w && 0 <= j < h && 0 <= c < 4 ==> px(
                crop_spec(src, x, y, w, h),
                i,
                j,
                c,
            ) == crop_pixel(src, x, y, i, j, c),
{
    let cs = crop_spec(src, x, y, w, h);
    assert forall|i: int, j: int, c: int|
        0 <= i < w && 0 <= j < h && 0 <= c < 4 implies px(cs, i, j, c) == crop_pixel(
        src,
        x,
        y,
        i,
        j,
        c,
    ) by {
        lemma_px_encode(w as int, h as int, i, j, c);
        let k = 4 * (j * (w as int) + i) + c;
        assert(cs.pixels[k] == crop_pixel(src, x, y, kx(k, w as int), ky(k, w as int), kc(k)));
    }
}

/// The composed raster's pixels, read back through the pixel accessor.
proof fn lemma_compose_spec_px(states: Seq<IconStateModel>, tw: u32, th: u32, gw: u32, gh: u32)
    ensures
        forall|a: int, b: int, c: int|
            0 <= a < gw && 0 <= b < gh && 0 <= c < 4 ==> px(
                compose_spec(states, tw, th, gw, gh),
                a,
                b,
                c,
            ) == grid_pixel(states, tw, th, a, b, c),
{
    let cs = compose_spec(states, tw, th, gw, gh);
    assert forall|a: int, b: int, c: int|
        0 <= a < gw && 0 <= b < gh && 0 <= c < 4 implies px(cs, a, b, c) == grid_pixel(
        states,
        tw,
        th,
        a,
        b,
        c,
    ) by {
        lemma_px_encode(gw as int, gh as int, a, b, c);
        let k = 4 * (b * (gw as int) + a) + c;
        assert(cs.pixels[k] == grid_pixel(states, tw, th, kx(k, gw as int), ky(k, gw as int),
            kc(k)));
    }
}

/// Slicing the composed raster gives every tile back: the grid's own
/// inverse property.
proof fn lemma_slice_compose(d: IconDocumentModel, gw: u32, gh: u32, i: int, t: int)
    requires
        document_wf(d),
        gw as int == doc_grid_w(d),
        gh as int == doc_grid_h(d),
        0 <= i < d.states.len(),
        0 <= t < d.states[i].frames.len(),
    ensures
        crop_spec(
            compose_spec(d.states, d.width, d.height, gw, gh),
            t * (d.width as int),
            i * (d.height as int),
            d.width,
            d.height,
        ) == d.states[i].frames[t],
{
    let w = d.width;
    let h = d.height;
    let raster = compose_spec(d.states, w, h, gw, gh);
    let lhs = crop_spec(raster, t * (w as int), i * (h as int), w, h);
    let rhs = d.states[i].frames[t];
    let cols = layout_cols(d.states);
    let rows = layout_rows(d.states);
    lemma_layout_cols_pos(d.states);
    lemma_layout_cols_bound(d.states, i);
    assert(raster_wf(rhs));
    assert(lhs.pixels.len() == 4 * (w as int) * (h as int));
    assert(raster_wf(lhs)) by {
        assert(4 * (w as int) * (h as int) <= 4 * (cols * w) * (rows * h)) by (nonlinear_arith)
            requires
                cols >= 1,
                rows >= 1,
                w >= 1,
                h >= 1,
        ;
    }
    lemma_crop_spec_px(raster, t * (w as int), i * (h as int), w, h);
    lemma_compose_spec_px(d.states, w, h, gw, gh);
    assert forall|x: int, y: int, c: int|
        0 <= x < w && 0 <= y < h && 0 <= c < 4 implies px(lhs, x, y, c) == px(rhs, x, y, c) by {
        let a = t * (w as int) + x;
        let b = i * (h as int) + y;
        assert(t + 1 <= state_tiles(d.states[i].meta));
        assert(state_tiles(d.states[i].meta) <= cols);
        assert(a < cols * w && a < gw as int) by (nonlinear_arith)
            requires
                a == t * (w as int) + x,
                x < w,
                t + 1 <= cols,
                w >= 1,
                gw as int == cols * w,
        ;
        assert(b < rows * h && b < gh as int) by (nonlinear_arith)
            requires
                b == i * (h as int) + y,
                y < h,
                i + 1 <= rows,
                h >= 1,
                gh as int == rows * h,
        ;
        assert(a >= 0 && b >= 0) by (nonlinear_arith)
            requires
                a == t * (w as int) + x,
                b == i * (h as int) + y,
                t >= 0,
                i >= 0,
                x >= 0,
                y >= 0,
                w >= 1,
                h >= 1,
        ;
        assert(px(lhs, x, y, c) == crop_pixel(raster, t * (w as int), i * (h as int), x, y, c));
        assert(raster.width == gw && raster.height == gh);
        assert(crop_pixel(raster, t * (w as int), i * (h as int), x, y, c) == px(raster, a, b,
            c));
        assert(px(raster, a, b, c) == grid_pixel(d.states, w, h, a, b, c));
        assert(a == t * (w as int) + x && b == i * (h as int) + y);
        lemma_fundamental_div_mod_converse(a, w as int, t, x);
        lemma_fundamental_div_mod_converse(b, h as int, i, y);
        assert(a / (w as int) == t && a % (w as int) == x);
        assert(b / (h as int) == i && b % (h as int) == y);
        assert(grid_pixel(d.states, w, h, a, b, c) == px(rhs, x, y, c));
    }
    lemma_px_ext(lhs, rhs);
}

/// The container round trip: decoding what `encode_container` wrote gives
/// the document back unchanged — metadata and pixel content — for any
/// well-formed document whose metadata text fits the chunk length field.
pub proof fn lemma_document_round_trip(d: IconDocumentModel)
    requires
        document_wf(d),
        serialize_metadata_spec(doc_metadata(d)).len() <= u32::MAX,
    ensures
        encode_spec(d) matches Ok(bytes) && decode_spec(bytes) == Ok::<_, FormatError>(d),
{
    let chunks = encode_chunks(d);
    let bytes = container_bytes(chunks);
    let text = serialize_metadata_spec(doc_metadata(d));
    let cols = layout_cols(d.states);
    let rows = layout_rows(d.states);
    lemma_layout_cols_pos(d.states);
    assert(cols * d.width >= 1 && rows * d.height >= 1) by (nonlinear_arith)
        requires
            cols >= 1,
            rows >= 1,
            d.width >= 1,
            d.height >= 1,
    ;
    let gw = doc_grid_w(d) as u32;
    let gh = doc_grid_h(d) as u32;
    assert(gw as int == cols * d.width && gh as int == rows * d.height);
    let raster = compose_spec(d.states, d.width, d.height, gw, gh);
    assert(chunks[0] == enc_chunk(TAG_HEADER, header_payload(gw, gh)));
    assert(chunks[1] == enc_chunk(TAG_META, text));
    assert(chunks[2] == enc_chunk(TAG_PIXELS, raster.pixels));
    assert(chunks[3] == enc_chunk(TAG_END, Seq::<u8>::empty()));
    assert(raster.pixels.len() == 4 * (gw as int) * (gh as int));
    assert forall|i: int| 0 <= i < chunks.len() implies chunk_wf(#[trigger] chunks[i]) by {
        assert(header_payload(gw, gh).len() == 8);
    }
    lemma_container_round_trip(chunks);
    assert(parse_container_spec(bytes) == Ok::<_, FormatError>(chunks));
    assert(TAG_HEADER != TAG_META && TAG_PIXELS != TAG_META);
    assert(first_chunk_from(chunks, TAG_META, 1) == Option::Some(1int));
    assert(first_chunk_from(chunks, TAG_META, 0) == Option::Some(1int));
    lemma_metadata_round_trip(doc_metadata(d));
    assert(parse_metadata_spec(text) == Ok::<_, FormatError>(doc_metadata(d)));
    assert(first_chunk_from(chunks, TAG_HEADER, 0) == Option::Some(0int));
    let hp = header_payload(gw, gh);
    assert(hp.len() == 8);
    assert(hp[0] == (gw >> 24) as u8 && hp[1] == (gw >> 16) as u8 && hp[2] == (gw >> 8) as u8
        && hp[3] == gw as u8) by {
        assert(hp == be32_bytes(gw) + be32_bytes(gh));
    }
    assert(hp[4] == (gh >> 24) as u8 && hp[5] == (gh >> 16) as u8 && hp[6] == (gh >> 8) as u8
        && hp[7] == gh as u8) by {
        assert(hp == be32_bytes(gw) + be32_bytes(gh));
    }
    lemma_be32_round_trip(gw);
    lemma_be32_round_trip(gh);
    assert(be32_spec(hp[0], hp[1], hp[2], hp[3]) == gw);
    assert(be32_spec(hp[4], hp[5], hp[6], hp[7]) == gh);
    assert(first_chunk_from(chunks, TAG_PIXELS, 2) == Option::Some(2int));
    assert(first_chunk_from(chunks, TAG_PIXELS, 1) == Option::Some(2int));
    assert(first_chunk_from(chunks, TAG_PIXELS, 0) == Option::Some(2int));
    let meta = doc_metadata(d);
    assert(meta.width == d.width && meta.height == d.height);
    assert(4 * (d.width as int) * (d.height as int) <= u32::MAX) by (nonlinear_arith)
        requires
            cols >= 1,
            rows >= 1,
            d.width >= 1,
            d.height >= 1,
            4 * (cols * d.width) * (rows * d.height) <= u32::MAX,
    ;
    assert forall|i: int| 0 <= i < d.states.len() implies #[trigger] meta.states[i]
        == d.states[i].meta by {}
    lemma_meta_layout_cols(d.states, meta.states);
    assert(meta_cols(meta.states) == cols && meta_rows(meta.states) == rows);
    assert(!((gw as int) < meta_cols(meta.states) * (d.width as int)));
    assert(!((gh as int) < meta_rows(meta.states) * (d.height as int)));
    assert(chunks[2].payload.len() == 4 * (gw as int) * (gh as int));
    assert(4 * (gw as int) * (gh as int) <= u32::MAX);
    let rm = RasterModel { width: gw, height: gh, pixels: chunks[2].payload };
    assert(rm == raster);
    let ds = decode_states(meta.states, rm, d.width, d.height);
    assert forall|i: int| 0 <= i < d.states.len() implies ds[i] == #[trigger] d.states[i] by {
        assert(ds[i].meta == d.states[i].meta);
        assert(d.states[i].frames.len() == state_tiles(d.states[i].meta));
        assert(ds[i].frames.len() == d.states[i].frames.len());
        assert forall|t: int| 0 <= t < d.states[i].frames.len() implies ds[i].frames[t]
            == #[trigger] d.states[i].frames[t] by {
            assert(ds[i].frames[t] == decode_tile(rm, d.width, d.height, i, t));
            lemma_slice_compose(d, gw, gh, i, t);
        }
        assert(ds[i].frames =~= d.states[i].frames);
    }
    assert(ds =~= d.states);
    assert(decode_spec(bytes) == Ok::<_, FormatError>(IconDocumentModel {
        version: meta.version,
        width: d.width,
        height: d.height,
        states: ds,
    }));
    assert(IconDocumentModel { version: meta.version, width: d.width, height: d.height,
        states: ds } == d);
}

/// Computes the grid column count of a well-formed document.
pub fn layout_cols_doc(doc: &IconDocument) -> (r: u64)
    requires
        document_wf(doc@),
    ensures
        r as int == layout_cols(doc@.states),
        1 <= r,
{
    proof {
        assert forall|i: int| 0 <= i < doc.states@.len() implies (#[trigger] doc.states@[i]@
            .frames).len() == state_tiles(doc.states@[i]@.meta) by {
            assert(doc@.states[i] == doc.states@[i]@);
            assert(doc@.states[i].frames.len() == state_tiles(doc@.states[i].meta));
        }
        assert(Seq::new(doc.states@.len(), |i: int| doc.states@[i]@) =~= doc@.states);
    }
    layout_cols_exec(&doc.states)
}

/// Two state lists with the same metadata and the same tile counts imply
/// the same grid.
pub proof fn lemma_layout_cols_pub(a: Seq<IconStateModel>, b: Seq<IconStateModel>)
    requires
        a.len() == b.len(),
        forall|i: int| 0 <= i < a.len() ==> #[trigger] b[i].meta == a[i].meta,
    ensures
        layout_cols(a) == layout_cols(b),
        layout_rows(a) == layout_rows(b),
    decreases a.len(),
{
    if a.len() > 0 {
        assert forall|i: int| 0 <= i < a.drop_last().len() implies #[trigger] b.drop_last()[i]
            .meta == a.drop_last()[i].meta by {
            assert(b[i].meta == a[i].meta);
        }
        lemma_layout_cols_pub(a.drop_last(), b.drop_last());
        assert(b.last().meta == a.last().meta);
    }
}

/// A fresh blank state: one direction, one frame of `width` by `height`
/// fully transparent pixels, a unit delay, and no hotspot.
pub fn new_blank_state(width: u32, height: u32) -> (r: Result<IconState, FormatError>)
    ensures
        match r {
            Ok(st) => {
                &&& width >= 1 && height >= 1 && 4 * (width as int) * (height as int)
                    <= u32::MAX
                &&& state_meta_wf(st@.meta)
                &&& st@.meta.name.len() == 0
                &&& st@.meta.dirs == 1
                &&& st@.meta.frame_count == 1
                &&& st@.meta.loop_count == 0
                &&& st@.meta.rewind == false
                &&& st@.meta.movement == false
                &&& st@.frames.len() == 1
                &&& raster_wf(st@.frames[0])
                &&& st@.frames[0].width == width && st@.frames[0].height == height
                &&& forall|x: int, y: int, c: int|
                    0 <= x < width && 0 <= y < height && 0 <= c < 4 ==> crate::pixels::px(
                        st@.frames[0],
                        x,
                        y,
                        c,
                    ) == 0
            },
            Err(FormatError::InvalidValue) => width < 1 || height < 1 || 4 * (width as int) * (
            height as int) > u32::MAX,
            Err(_) => false,
        },
{
    proof {
        assert(4 * (width as int) * (height as int) <= u128::MAX) by (nonlinear_arith)
            requires
                width <= u32::MAX,
                height <= u32::MAX,
        ;
    }
    if width < 1 || height < 1 || 4u128 * (width as u128) * (height as u128)
        > u32::MAX as u128 {
        return Err(FormatError::InvalidValue);
    }
    let mut delays: Vec<Vec<u8>> = Vec::new();
    let mut one: Vec<u8> = Vec::new();
    one.push(49);
    delays.push(one);
    let mut hotspots: Vec<Vec<u8>> = Vec::new();
    hotspots.push(Vec::new());
    let meta = StateMeta {
        name: Vec::new(),
        dirs: 1,
        frame_count: 1,
        delays,
        loop_count: 0,
        rewind: false,
        movement: false,
        hotspots,
        extra: Vec::new(),
    };
    let mut frames: Vec<Raster> = Vec::new();
    frames.push(crate::pixels::blank(width, height));
    let st = IconState { meta, frames };
    proof {
        assert(st@.meta.delays =~~= seq![seq![49u8]]);
        assert(st@.meta.hotspots =~~= seq![Seq::<u8>::empty()]);
        assert(st@.meta.extra =~~= Seq::<Seq<u8>>::empty());
        assert(crate::grammar::is_delay_token(st@.meta.delays[0]));
        assert(state_meta_wf(st@.meta));
    }
    Ok(st)
}

/// A fresh blank document of the given per-frame canvas size, with no
/// states yet.
pub fn new_document(width: u32, height: u32) -> (r: Result<IconDocument, FormatError>)
    ensures
        match r {
            Ok(d) => {
                &&& width >= 1 && height >= 1 && 4 * (width as int) * (height as int)
                    <= u32::MAX
                &&& document_wf(d@)
                &&& d@.width == width && d@.height == height
                &&& d@.states.len() == 0
            },
            Err(FormatError::InvalidValue) => width < 1 || height < 1 || 4 * (width as int) * (
            height as int) > u32::MAX,
            Err(_) => false,
        },
{
    proof {
        assert(4 * (width as int) * (height as int) <= u128::MAX) by (nonlinear_arith)
            requires
                width <= u32::MAX,
                height <= u32::MAX,
        ;
    }
    if width < 1 || height < 1 || 4u128 * (width as u128) * (height as u128)
        > u32::MAX as u128 {
        return Err(FormatError::InvalidValue);
    }
    let mut version: Vec<u8> = Vec::new();
    version.push(52);
    version.push(46);
    version.push(48);
    let d = IconDocument { version, width, height, states: Vec::new() };
    proof {
        assert(d@.states =~= Seq::<IconStateModel>::empty());
        assert(layout_cols(d@.states) == 1);
        assert(layout_rows(d@.states) == 1);
        assert(crate::document::doc_metadata(d@).states =~= Seq::<StateMetaModel>::empty());
        assert(crate::bytes::no_byte(d@.version, 10u8));
        assert(4 * (1 * (width as int)) * (1 * (height as int)) <= u32::MAX) by (nonlinear_arith)
            requires
                4 * (width as int) * (height as int) <= u32::MAX,
        ;
        assert(document_wf(d@));
    }
    Ok(d)
}

} // verus!
