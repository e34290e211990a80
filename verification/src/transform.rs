//! Document transforms: resampling every tile to a new canvas size through
//! the imaging library, cropping and expanding tiles in verified code, the
//! color overlay, and the spritesheet merge that re-injects a metadata
//! chunk into an edited raster. All three canvas transforms leave every
//! state's directions, frames, delays, loop, rewind, movement, and hotspots
//! untouched — only pixel content and canvas dimensions change.
use vstd::prelude::*;

use crate::chunk::find_chunk_spec;
use crate::document::{document_wf, IconDocument, IconDocumentModel, IconState, layout_cols,
    layout_rows, lemma_layout_cols_pub, state_tiles, TAG_META, TAG_PIXELS};
use crate::errors::FormatError;
use crate::grammar::StateMeta;
use crate::pixels::{crop_rect, crop_spec, expand_pixel, expand_rect, kc, px, Raster,
    RasterModel, raster_wf};
use crate::bytes::subvec;

verus! {

/// The resampling filters the imaging library offers.
#[derive(Clone, Copy, Debug, PartialEq, Eq, Structural)]
pub enum Filter {
    Nearest,
    Triangle,
    CatmullRom,
    Gaussian,
    Lanczos3,
}

/// What resampling a tile returns: a function of the pixel bytes, the two
/// sizes, and the filter alone.
pub uninterp spec fn resized_of(
    pixels: Seq<u8>,
    w: u32,
    h: u32,
    nw: u32,
    nh: u32,
    filter: Filter,
) -> Seq<u8>;

/// Relies on image::imageops::resize: resampling an RGBA buffer to the new
/// dimensions; its source returns a plain copy whenever the dimensions are
/// unchanged, whatever the filter.
#[verifier::external_body]
fn resize_raw(pixels: &Vec<u8>, w: u32, h: u32, nw: u32, nh: u32, filter: Filter) -> (r: Vec<u8>)
    requires
        pixels@.len() == 4 * (w as int) * (h as int),
        w >= 1,
        h >= 1,
        nw >= 1,
        nh >= 1,
    ensures
        r@.len() == 4 * (nw as int) * (nh as int),
        r@ == resized_of(pixels@, w, h, nw, nh, filter),
        nw == w && nh == h ==> r@ == pixels@,
{
    let buf: image::ImageBuffer<image::Rgba<u8>, Vec<u8>> =
        image::ImageBuffer::from_vec(w, h, pixels.clone()).unwrap();
    let ft = match filter {
        Filter::Nearest => image::imageops::FilterType::Nearest,
        Filter::Triangle => image::imageops::FilterType::Triangle,
        Filter::CatmullRom => image::imageops::FilterType::CatmullRom,
        Filter::Gaussian => image::imageops::FilterType::Gaussian,
        Filter::Lanczos3 => image::imageops::FilterType::Lanczos3,
    };
    image::imageops::resize(&buf, nw, nh, ft).into_raw()
}

/// What overlaying one RGBA buffer onto another returns: a function of the
/// two buffers and their shared dimensions alone.
pub uninterp spec fn overlaid_of(bottom: Seq<u8>, top: Seq<u8>, w: u32, h: u32) -> Seq<u8>;

/// Relies on image::imageops::overlay: alpha-blends the top buffer onto the
/// bottom buffer in place, leaving the bottom buffer's dimensions unchanged.
#[verifier::external_body]
fn overlay_raw(bottom: &Vec<u8>, top: &Vec<u8>, w: u32, h: u32) -> (r: Vec<u8>)
    requires
        bottom@.len() == 4 * (w as int) * (h as int),
        top@.len() == 4 * (w as int) * (h as int),
    ensures
        r@.len() == 4 * (w as int) * (h as int),
        r@ == overlaid_of(bottom@, top@, w, h),
{
    let mut b: image::ImageBuffer<image::Rgba<u8>, Vec<u8>> =
        image::ImageBuffer::from_vec(w, h, bottom.clone()).unwrap();
    let t: image::ImageBuffer<image::Rgba<u8>, Vec<u8>> =
        image::ImageBuffer::from_vec(w, h, top.clone()).unwrap();
    image::imageops::overlay(&mut b, &t, 0, 0);
    b.into_raw()
}

/// The fully opaque single-color buffer the overlay uses as background.
pub open spec fn solid_pixels(r: u8, g: u8, b: u8, w: u32, h: u32) -> Seq<u8> {
    Seq::new(
        (4 * (w as int) * (h as int)) as nat,
        |k: int| if kc(k) == 0 {
            r
        } else if kc(k) == 1 {
            g
        } else if kc(k) == 2 {
            b
        } else {
            255u8
        },
    )
}

/// Blends an RGBA buffer over a fully opaque single-color background of the
/// same size; `None` when the buffer does not hold exactly `w` by `h` RGBA
/// pixels within the 32-bit size limit.
pub fn overlay_color(r: u8, g: u8, b: u8, w: u32, h: u32, top: &Vec<u8>) -> (out: Option<Vec<u8>>)
    ensures
        match out {
            Option::Some(v) => top@.len() == 4 * (w as int) * (h as int) && 4 * (w as int) * (
            h as int) <= u32::MAX && v@ == overlaid_of(solid_pixels(r, g, b, w, h), top@, w, h)
                && v@.len() == top@.len(),
            Option::None => top@.len() != 4 * (w as int) * (h as int) || 4 * (w as int) * (
            h as int) > u32::MAX,
        },
{
    proof {
        assert(4 * (w as int) * (h as int) <= u128::MAX) by (nonlinear_arith)
            requires
                w <= u32::MAX,
                h <= u32::MAX,
        ;
    }
    let need: u128 = 4u128 * (w as u128) * (h as u128);
    if need > u32::MAX as u128 || (top.len() as u128) != need {
        return None;
    }
    let mut bottom: Vec<u8> = Vec::new();
    let n: usize = top.len();
    let mut k: usize = 0;
    while k < n
        invariant
            k <= n,
            n == 4 * (w as int) * (h as int),
            bottom@.len() == k,
            forall|q: int| 0 <= q < k ==> bottom@[q] == solid_pixels(r, g, b, w, h)[q],
        decreases n - k,
    {
        let c: usize = k % 4;
        let v: u8 = if c == 0 {
            r
        } else if c == 1 {
            g
        } else if c == 2 {
            b
        } else {
            255
        };
        bottom.push(v);
        k = k + 1;
    }
    proof {
        assert(bottom@ =~= solid_pixels(r, g, b, w, h));
    }
    Some(overlay_raw(&bottom, top, w, h))
}

/// Resamples every frame tile of every state to `nw` by `nh` with the given
/// filter and updates the canvas size; metadata fields stay untouched.
/// Unchanged dimensions leave every tile's pixel content unchanged,
/// whatever the filter. Fails, leaving the document unchanged, only when
/// the new grid would outgrow the format's 32-bit limits.
#[verifier::loop_isolation(false)]
pub fn resize(doc: &mut IconDocument, nw: u32, nh: u32, filter: Filter) -> (r: Result<
    (),
    FormatError,
>)
    requires
        document_wf(old(doc)@),
        nw >= 1,
        nh >= 1,
    ensures
        match r {
            Ok(()) => {
                &&& document_wf(final(doc)@)
                &&& final(doc)@.width == nw
                &&& final(doc)@.height == nh
                &&& final(doc)@.version == old(doc)@.version
                &&& final(doc)@.states.len() == old(doc)@.states.len()
                &&& forall|i: int|
                    0 <= i < old(doc)@.states.len() ==> #[trigger] final(doc)@.states[i].meta
                        == old(doc)@.states[i].meta
                &&& forall|i: int|
                    0 <= i < old(doc)@.states.len()
                        ==> (#[trigger] final(doc)@.states[i].frames).len()
                        == old(doc)@.states[i].frames.len()
                &&& forall|i: int, t: int|
                    0 <= i < old(doc)@.states.len() && 0 <= t < old(doc)@.states[i].frames.len()
                        ==> (#[trigger] final(doc)@.states[i].frames[t]).pixels == resized_of(
                        old(doc)@.states[i].frames[t].pixels,
                        old(doc)@.width,
                        old(doc)@.height,
                        nw,
                        nh,
                        filter,
                    )
                &&& nw == old(doc)@.width && nh == old(doc)@.height ==> final(doc)@ == old(
                    doc,
                )@
            },
            Err(FormatError::InvalidValue) => final(doc)@ == old(doc)@ && !(layout_cols(
                old(doc)@.states,
            ) * nw <= u32::MAX && layout_rows(old(doc)@.states) * nh <= u32::MAX && 4 * (
            layout_cols(old(doc)@.states) * nw) * (layout_rows(old(doc)@.states) * nh)
                <= u32::MAX),
            Err(_) => false,
        },
{
    let ghost od = old(doc)@;
    let cols: u64 = crate::document::layout_cols_doc(doc);
    let rows: u64 = if doc.states.len() == 0 {
        1
    } else {
        doc.states.len() as u64
    };
    proof {
        assert(rows as int == layout_rows(od.states));
        assert(rows <= u64::MAX);
    }
    proof {
        assert((cols as u128) * (nw as u128) <= u128::MAX && (rows as u128) * (nh as u128)
            <= u128::MAX && (cols as u128) * (nw as u128) <= u64::MAX as u128 * u32::MAX as u128
            && (rows as u128) * (nh as u128) <= u64::MAX as u128 * u32::MAX as u128)
            by (nonlinear_arith)
            requires
                cols <= u64::MAX,
                rows <= u64::MAX,
                nw <= u32::MAX,
                nh <= u32::MAX,
        ;
    }
    let gw: u128 = (cols as u128) * (nw as u128);
    let gh: u128 = (rows as u128) * (nh as u128);
    proof {
        assert(gw as int == layout_cols(od.states) * nw) by (nonlinear_arith)
            requires
                cols as int == layout_cols(od.states),
                gw == (cols as u128) * (nw as u128),
                (cols as u128) * (nw as u128) <= u128::MAX,
        ;
        assert(gh as int == layout_rows(od.states) * nh) by (nonlinear_arith)
            requires
                rows as int == layout_rows(od.states),
                gh == (rows as u128) * (nh as u128),
                (rows as u128) * (nh as u128) <= u128::MAX,
        ;
        assert(4 * (gw as int) * (gh as int) == 4 * (layout_cols(od.states) * nw) * (
        layout_rows(od.states) * nh)) by (nonlinear_arith)
            requires
                gw as int == layout_cols(od.states) * nw,
                gh as int == layout_rows(od.states) * nh,
        ;
    }
    if gw > u32::MAX as u128 || gh > u32::MAX as u128 {
        return Err(FormatError::InvalidValue);
    }
    proof {
        assert(4 * (gw as int) * (gh as int) <= u128::MAX) by (nonlinear_arith)
            requires
                gw <= u32::MAX,
                gh <= u32::MAX,
        ;
    }
    if 4u128 * gw * gh > u32::MAX as u128 {
        return Err(FormatError::InvalidValue);
    }
    let ow = doc.width;
    let oh = doc.height;
    let mut new_states: Vec<IconState> = Vec::new();
    let mut i: usize = 0;
    while i < doc.states.len()
        invariant
            i <= doc.states@.len(),
            doc.states@.len() == od.states.len(),
            doc@ == od,
            ow == od.width,
            oh == od.height,
            new_states@.len() == i,
            forall|q: int|
                0 <= q < i ==> #[trigger] new_states@[q]@.meta == od.states[q].meta
                    && new_states@[q]@.frames.len() == od.states[q].frames.len(),
            forall|q: int, t: int|
                0 <= q < i && 0 <= t < od.states[q].frames.len() ==> (#[trigger] new_states@[q]@
                    .frames[t]) == (RasterModel {
                    width: nw,
                    height: nh,
                    pixels: resized_of(od.states[q].frames[t].pixels, ow, oh, nw, nh, filter),
                }),
            forall|q: int, t: int|
                0 <= q < i && 0 <= t < od.states[q].frames.len() ==> (#[trigger] new_states@[q]@
                    .frames[t]).pixels.len() == 4 * (nw as int) * (nh as int),
            nw == ow && nh == oh ==> forall|q: int, t: int|
                0 <= q < i && 0 <= t < od.states[q].frames.len() ==> (#[trigger] new_states@[q]@
                    .frames[t]).pixels == od.states[q].frames[t].pixels,
        decreases doc.states@.len() - i,
    {
        let st = &doc.states[i];
        let mut frames: Vec<Raster> = Vec::new();
        let mut t: usize = 0;
        proof {
            assert(od.states[i as int] == doc.states@[i as int]@);
        }
        while t < st.frames.len()
            invariant
                t <= st.frames@.len(),
                st@ == od.states[i as int],
                i < od.states.len(),
                ow == od.width,
                oh == od.height,
                frames@.len() == t,
                forall|q: int|
                    0 <= q < t ==> #[trigger] frames@[q]@ == (RasterModel {
                        width: nw,
                        height: nh,
                        pixels: resized_of(od.states[i as int].frames[q].pixels, ow, oh, nw, nh,
                            filter),
                    }),
                forall|q: int|
                    0 <= q < t ==> (#[trigger] frames@[q]@).pixels.len() == 4 * (nw as int) * (
                    nh as int),
                nw == ow && nh == oh ==> forall|q: int|
                    0 <= q < t ==> (#[trigger] frames@[q]@).pixels
                        == od.states[i as int].frames[q].pixels,
            decreases st.frames@.len() - t,
        {
            proof {
                assert(od.states[i as int].frames[t as int] == st.frames@[t as int]@);
                assert(raster_wf(od.states[i as int].frames[t as int]));
            }
            let fr = &st.frames[t];
            let np = resize_raw(&fr.pixels, ow, oh, nw, nh, filter);
            frames.push(Raster { width: nw, height: nh, pixels: np });
            t = t + 1;
        }
        let ns = IconState { meta: crate::document::clone_state_meta(&st.meta), frames };
        proof {
            assert(ns@.frames =~~= Seq::new(od.states[i as int].frames.len(),
                |q: int| RasterModel {
                    width: nw,
                    height: nh,
                    pixels: resized_of(od.states[i as int].frames[q].pixels, ow, oh, nw, nh,
                        filter),
                }));
        }
        new_states.push(ns);
        i = i + 1;
    }
    doc.states = new_states;
    doc.width = nw;
    doc.height = nh;
    proof {
        assert(4 * (nw as int) * (nh as int) <= u32::MAX) by (nonlinear_arith)
            requires
                cols >= 1,
                rows >= 1,
                nw >= 1,
                nh >= 1,
                gw as int == (cols as int) * (nw as int),
                gh as int == (rows as int) * (nh as int),
                4 * (gw as int) * (gh as int) <= u32::MAX,
        ;
        assert forall|q: int|
            0 <= q < doc@.states.len() implies (#[trigger] doc@.states[q].frames).len()
            == od.states[q].frames.len() && doc@.states[q].meta == od.states[q].meta by {
            assert(doc@.states[q] == new_states@[q]@);
            assert(new_states@[q]@.meta == od.states[q].meta);
        }
        assert forall|q: int, t: int|
            0 <= q < doc@.states.len() && 0 <= t < doc@.states[q].frames.len() implies raster_wf(
            #[trigger] doc@.states[q].frames[t]) && doc@.states[q].frames[t].width == nw
            && doc@.states[q].frames[t].height == nh by {
            assert(doc@.states[q] == new_states@[q]@);
            assert(new_states@[q]@.frames[t] == (RasterModel {
                width: nw,
                height: nh,
                pixels: resized_of(od.states[q].frames[t].pixels, ow, oh, nw, nh, filter),
            }));
            assert(new_states@[q]@.frames[t].pixels.len() == 4 * (nw as int) * (nh as int));
        }
        lemma_transform_wf(od, doc@, nw, nh);
        if nw == od.width && nh == od.height {
            assert forall|q: int| 0 <= q < od.states.len() implies #[trigger] doc@.states[q]
                == od.states[q] by {
                assert forall|t2: int| 0 <= t2 < od.states[q].frames.len() implies #[trigger]
                    doc@.states[q].frames[t2] == od.states[q].frames[t2] by {
                    assert(raster_wf(od.states[q].frames[t2]));
                    assert(od.states[q].frames[t2].width == nw);
                    assert(od.states[q].frames[t2].height == nh);
                }
                assert(doc@.states[q].frames =~= od.states[q].frames);
            }
            assert(doc@.states =~= od.states);
        }
    }
    Ok(())
}

/// The shared well-formedness argument of the three canvas transforms: new
/// tiles of the new canvas size, old metadata, old state count.
proof fn lemma_transform_wf(od: IconDocumentModel, nd: IconDocumentModel, nw: u32, nh: u32)
    requires
        document_wf(od),
        nw >= 1,
        nh >= 1,
        nd.width == nw,
        nd.height == nh,
        nd.version == od.version,
        nd.states.len() == od.states.len(),
        forall|i: int| 0 <= i < od.states.len() ==> #[trigger] nd.states[i].meta
            == od.states[i].meta,
        forall|i: int| 0 <= i < od.states.len() ==> (#[trigger] nd.states[i].frames).len()
            == od.states[i].frames.len(),
        forall|i: int, t: int|
            0 <= i < nd.states.len() && 0 <= t < nd.states[i].frames.len() ==> raster_wf(
                #[trigger] nd.states[i].frames[t],
            ) && nd.states[i].frames[t].width == nw && nd.states[i].frames[t].height == nh,
        layout_cols(od.states) * nw <= u32::MAX,
        layout_rows(od.states) * nh <= u32::MAX,
        4 * (layout_cols(od.states) * nw) * (layout_rows(od.states) * nh) <= u32::MAX,
    ensures
        document_wf(nd),
{
    lemma_layout_cols_pub(od.states, nd.states);
    let mo = crate::document::doc_metadata(od);
    let mn = crate::document::doc_metadata(nd);
    assert(mn.version == mo.version);
    assert forall|i: int| 0 <= i < mn.states.len() implies crate::grammar::state_meta_wf(
        #[trigger] mn.states[i]) by {
        assert(mn.states[i] == nd.states[i].meta);
        assert(mo.states[i] == od.states[i].meta);
        assert(crate::grammar::state_meta_wf(mo.states[i]));
    }
    assert(crate::grammar::metadata_wf(mn));
    assert forall|i: int| 0 <= i < nd.states.len() implies (#[trigger] nd.states[i].frames).len()
        == state_tiles(nd.states[i].meta) by {
        assert(od.states[i].frames.len() == state_tiles(od.states[i].meta));
    }
}

/// Replaces every frame tile by the window `[x, x+w) x [y, y+h)` of its
/// content; window cells outside the old canvas are fully transparent, and
/// the canvas size becomes `w` by `h`. Metadata fields stay untouched.
#[verifier::loop_isolation(false)]
pub fn crop(doc: &mut IconDocument, x: u32, y: u32, w: u32, h: u32) -> (r: Result<
    (),
    FormatError,
>)
    requires
        document_wf(old(doc)@),
        w >= 1,
        h >= 1,
    ensures
        match r {
            Ok(()) => {
                &&& document_wf(final(doc)@)
                &&& final(doc)@.width == w
                &&& final(doc)@.height == h
                &&& final(doc)@.version == old(doc)@.version
                &&& final(doc)@.states.len() == old(doc)@.states.len()
                &&& forall|i: int|
                    0 <= i < old(doc)@.states.len() ==> #[trigger] final(doc)@.states[i].meta
                        == old(doc)@.states[i].meta
                &&& forall|i: int|
                    0 <= i < old(doc)@.states.len()
                        ==> (#[trigger] final(doc)@.states[i].frames).len()
                        == old(doc)@.states[i].frames.len()
                &&& forall|i: int, t: int|
                    0 <= i < old(doc)@.states.len() && 0 <= t < old(doc)@.states[i].frames.len()
                        ==> #[trigger] final(doc)@.states[i].frames[t] == crop_spec(
                        old(doc)@.states[i].frames[t],
                        x as int,
                        y as int,
                        w,
                        h,
                    )
            },
            Err(FormatError::InvalidValue) => final(doc)@ == old(doc)@ && !(layout_cols(
                old(doc)@.states,
            ) * w <= u32::MAX && layout_rows(old(doc)@.states) * h <= u32::MAX && 4 * (
            layout_cols(old(doc)@.states) * w) * (layout_rows(old(doc)@.states) * h)
                <= u32::MAX),
            Err(_) => false,
        },
{
    let ghost od = old(doc)@;
    let cols: u64 = crate::document::layout_cols_doc(doc);
    let rows: u64 = if doc.states.len() == 0 {
        1
    } else {
        doc.states.len() as u64
    };
    proof {
        assert(rows as int == layout_rows(od.states));
        assert((cols as u128) * (w as u128) <= u128::MAX && (rows as u128) * (h as u128)
            <= u128::MAX) by (nonlinear_arith)
            requires
                cols <= u64::MAX,
                rows <= u64::MAX,
                w <= u32::MAX,
                h <= u32::MAX,
        ;
    }
    let gw: u128 = (cols as u128) * (w as u128);
    let gh: u128 = (rows as u128) * (h as u128);
    proof {
        assert(gw as int == layout_cols(od.states) * w) by (nonlinear_arith)
            requires
                cols as int == layout_cols(od.states),
                gw == (cols as u128) * (w as u128),
        ;
        assert(gh as int == layout_rows(od.states) * h) by (nonlinear_arith)
            requires
                rows as int == layout_rows(od.states),
                gh == (rows as u128) * (h as u128),
        ;
        assert(4 * (gw as int) * (gh as int) == 4 * (layout_cols(od.states) * w) * (
        layout_rows(od.states) * h)) by (nonlinear_arith)
            requires
                gw as int == layout_cols(od.states) * w,
                gh as int == layout_rows(od.states) * h,
        ;
    }
    if gw > u32::MAX as u128 || gh > u32::MAX as u128 {
        return Err(FormatError::InvalidValue);
    }
    proof {
        assert(4 * (gw as int) * (gh as int) <= u128::MAX) by (nonlinear_arith)
            requires
                gw <= u32::MAX,
                gh <= u32::MAX,
        ;
    }
    if 4u128 * gw * gh > u32::MAX as u128 {
        return Err(FormatError::InvalidValue);
    }
    proof {
        assert(4 * (w as int) * (h as int) <= u32::MAX) by (nonlinear_arith)
            requires
                cols >= 1,
                rows >= 1,
                w >= 1,
                h >= 1,
                gw as int == (cols as int) * (w as int),
                gh as int == (rows as int) * (h as int),
                4 * (gw as int) * (gh as int) <= u32::MAX,
        ;
    }
    let mut new_states: Vec<IconState> = Vec::new();
    let mut i: usize = 0;
    while i < doc.states.len()
        invariant
            i <= doc.states@.len(),
            doc@ == od,
            4 * (w as int) * (h as int) <= u32::MAX,
            new_states@.len() == i,
            forall|q: int|
                0 <= q < i ==> #[trigger] new_states@[q]@.meta == od.states[q].meta
                    && new_states@[q]@.frames.len() == od.states[q].frames.len(),
            forall|q: int, t: int|
                0 <= q < i && 0 <= t < od.states[q].frames.len() ==> (#[trigger] new_states@[q]@
                    .frames[t]) == crop_spec(od.states[q].frames[t], x as int, y as int, w, h),
        decreases doc.states@.len() - i,
    {
        let st = &doc.states[i];
        let mut frames: Vec<Raster> = Vec::new();
        let mut t: usize = 0;
        proof {
            assert(od.states[i as int] == doc.states@[i as int]@);
        }
        while t < st.frames.len()
            invariant
                t <= st.frames@.len(),
                st@ == od.states[i as int],
                i < od.states.len(),
                frames@.len() == t,
                forall|q: int|
                    0 <= q < t ==> #[trigger] frames@[q]@ == crop_spec(
                        od.states[i as int].frames[q],
                        x as int,
                        y as int,
                        w,
                        h,
                    ),
            decreases st.frames@.len() - t,
        {
            proof {
                assert(od.states[i as int].frames[t as int] == st.frames@[t as int]@);
                assert(raster_wf(od.states[i as int].frames[t as int]));
            }
            let tile = crop_rect(&st.frames[t], x, y, w, h);
            frames.push(tile);
            t = t + 1;
        }
        let ns = IconState { meta: crate::document::clone_state_meta(&st.meta), frames };
        proof {
            assert(ns@.frames =~~= Seq::new(od.states[i as int].frames.len(),
                |q: int| crop_spec(od.states[i as int].frames[q], x as int, y as int, w, h)));
        }
        new_states.push(ns);
        i = i + 1;
    }
    doc.states = new_states;
    doc.width = w;
    doc.height = h;
    proof {
        assert forall|q: int|
            0 <= q < doc@.states.len() implies (#[trigger] doc@.states[q].frames).len()
            == od.states[q].frames.len() && doc@.states[q].meta == od.states[q].meta by {
            assert(doc@.states[q] == new_states@[q]@);
            assert(new_states@[q]@.meta == od.states[q].meta);
        }
        assert forall|q: int, t: int|
            0 <= q < doc@.states.len() && 0 <= t < doc@.states[q].frames.len() implies raster_wf(
            #[trigger] doc@.states[q].frames[t]) && doc@.states[q].frames[t].width == w
            && doc@.states[q].frames[t].height == h by {
            assert(doc@.states[q] == new_states@[q]@);
            assert(new_states@[q]@.frames[t] == crop_spec(od.states[q].frames[t], x as int,
                y as int, w, h));
        }
        lemma_transform_wf(od, doc@, w, h);
    }
    Ok(())
}

/// Places every frame tile at offset (`x`, `y`) onto a fresh fully
/// transparent `w` by `h` canvas; content outside the new canvas is
/// discarded. Complementary to crop. Metadata fields stay untouched.
#[verifier::loop_isolation(false)]
pub fn expand(doc: &mut IconDocument, x: u32, y: u32, w: u32, h: u32) -> (r: Result<
    (),
    FormatError,
>)
    requires
        document_wf(old(doc)@),
        w >= 1,
        h >= 1,
        x + old(doc)@.width <= u32::MAX,
        y + old(doc)@.height <= u32::MAX,
    ensures
        match r {
            Ok(()) => {
                &&& document_wf(final(doc)@)
                &&& final(doc)@.width == w
                &&& final(doc)@.height == h
                &&& final(doc)@.version == old(doc)@.version
                &&& final(doc)@.states.len() == old(doc)@.states.len()
                &&& forall|i: int|
                    0 <= i < old(doc)@.states.len() ==> #[trigger] final(doc)@.states[i].meta
                        == old(doc)@.states[i].meta
                &&& forall|i: int|
                    0 <= i < old(doc)@.states.len()
                        ==> (#[trigger] final(doc)@.states[i].frames).len()
                        == old(doc)@.states[i].frames.len()
                &&& forall|i: int, t: int, x2: int, y2: int, c: int|
                    0 <= i < old(doc)@.states.len() && 0 <= t < old(doc)@.states[i].frames.len()
                        && 0 <= x2 < w && 0 <= y2 < h && 0 <= c < 4 ==> #[trigger] px(
                        final(doc)@.states[i].frames[t],
                        x2,
                        y2,
                        c,
                    ) == expand_pixel(old(doc)@.states[i].frames[t], x as int, y as int, x2, y2,
                        c)
            },
            Err(FormatError::InvalidValue) => final(doc)@ == old(doc)@ && !(layout_cols(
                old(doc)@.states,
            ) * w <= u32::MAX && layout_rows(old(doc)@.states) * h <= u32::MAX && 4 * (
            layout_cols(old(doc)@.states) * w) * (layout_rows(old(doc)@.states) * h)
                <= u32::MAX),
            Err(_) => false,
        },
{
    let ghost od = old(doc)@;
    let cols: u64 = crate::document::layout_cols_doc(doc);
    let rows: u64 = if doc.states.len() == 0 {
        1
    } else {
        doc.states.len() as u64
    };
    proof {
        assert(rows as int == layout_rows(od.states));
        assert((cols as u128) * (w as u128) <= u128::MAX && (rows as u128) * (h as u128)
            <= u128::MAX) by (nonlinear_arith)
            requires
                cols <= u64::MAX,
                rows <= u64::MAX,
                w <= u32::MAX,
                h <= u32::MAX,
        ;
    }
    let gw: u128 = (cols as u128) * (w as u128);
    let gh: u128 = (rows as u128) * (h as u128);
    proof {
        assert(gw as int == layout_cols(od.states) * w) by (nonlinear_arith)
            requires
                cols as int == layout_cols(od.states),
                gw == (cols as u128) * (w as u128),
        ;
        assert(gh as int == layout_rows(od.states) * h) by (nonlinear_arith)
            requires
                rows as int == layout_rows(od.states),
                gh == (rows as u128) * (h as u128),
        ;
        assert(4 * (gw as int) * (gh as int) == 4 * (layout_cols(od.states) * w) * (
        layout_rows(od.states) * h)) by (nonlinear_arith)
            requires
                gw as int == layout_cols(od.states) * w,
                gh as int == layout_rows(od.states) * h,
        ;
    }
    if gw > u32::MAX as u128 || gh > u32::MAX as u128 {
        return Err(FormatError::InvalidValue);
    }
    proof {
        assert(4 * (gw as int) * (gh as int) <= u128::MAX) by (nonlinear_arith)
            requires
                gw <= u32::MAX,
                gh <= u32::MAX,
        ;
    }
    if 4u128 * gw * gh > u32::MAX as u128 {
        return Err(FormatError::InvalidValue);
    }
    proof {
        assert(4 * (w as int) * (h as int) <= u32::MAX) by (nonlinear_arith)
            requires
                cols >= 1,
                rows >= 1,
                w >= 1,
                h >= 1,
                gw as int == (cols as int) * (w as int),
                gh as int == (rows as int) * (h as int),
                4 * (gw as int) * (gh as int) <= u32::MAX,
        ;
    }
    let mut new_states: Vec<IconState> = Vec::new();
    let mut i: usize = 0;
    while i < doc.states.len()
        invariant
            i <= doc.states@.len(),
            doc@ == od,
            4 * (w as int) * (h as int) <= u32::MAX,
            new_states@.len() == i,
            forall|q: int|
                0 <= q < i ==> #[trigger] new_states@[q]@.meta == od.states[q].meta
                    && new_states@[q]@.frames.len() == od.states[q].frames.len(),
            forall|q: int, t: int|
                0 <= q < i && 0 <= t < od.states[q].frames.len() ==> raster_wf(
                    #[trigger] new_states@[q]@.frames[t],
                ) && new_states@[q]@.frames[t].width == w && new_states@[q]@.frames[t].height
                    == h,
            forall|q: int, t: int, x2: int, y2: int, c: int|
                0 <= q < i && 0 <= t < od.states[q].frames.len() && 0 <= x2 < w && 0 <= y2 < h
                    && 0 <= c < 4 ==> #[trigger] px(new_states@[q]@.frames[t], x2, y2, c)
                    == expand_pixel(od.states[q].frames[t], x as int, y as int, x2, y2, c),
        decreases doc.states@.len() - i,
    {
        let st = &doc.states[i];
        let mut frames: Vec<Raster> = Vec::new();
        let mut t: usize = 0;
        proof {
            assert(od.states[i as int] == doc.states@[i as int]@);
        }
        while t < st.frames.len()
            invariant
                t <= st.frames@.len(),
                st@ == od.states[i as int],
                i < od.states.len(),
                frames@.len() == t,
                forall|q: int|
                    0 <= q < t ==> raster_wf(#[trigger] frames@[q]@) && frames@[q]@.width == w
                        && frames@[q]@.height == h,
                forall|q: int, x2: int, y2: int, c: int|
                    0 <= q < t && 0 <= x2 < w && 0 <= y2 < h && 0 <= c < 4 ==> #[trigger] px(
                        frames@[q]@,
                        x2,
                        y2,
                        c,
                    ) == expand_pixel(od.states[i as int].frames[q], x as int, y as int, x2, y2,
                        c),
            decreases st.frames@.len() - t,
        {
            proof {
                assert(od.states[i as int].frames[t as int] == st.frames@[t as int]@);
                assert(raster_wf(od.states[i as int].frames[t as int]));
            }
            let tile = expand_rect(&st.frames[t], x, y, w, h);
            frames.push(tile);
            t = t + 1;
        }
        let ns = IconState { meta: crate::document::clone_state_meta(&st.meta), frames };
        new_states.push(ns);
        i = i + 1;
    }
    doc.states = new_states;
    doc.width = w;
    doc.height = h;
    proof {
        assert forall|q: int|
            0 <= q < doc@.states.len() implies (#[trigger] doc@.states[q].frames).len()
            == od.states[q].frames.len() && doc@.states[q].meta == od.states[q].meta by {
            assert(doc@.states[q] == new_states@[q]@);
            assert(new_states@[q]@.meta == od.states[q].meta);
        }
        assert forall|q: int, t: int|
            0 <= q < doc@.states.len() && 0 <= t < doc@.states[q].frames.len() implies raster_wf(
            #[trigger] doc@.states[q].frames[t]) && doc@.states[q].frames[t].width == w
            && doc@.states[q].frames[t].height == h by {
            assert(doc@.states[q] == new_states@[q]@);
            assert(raster_wf(new_states@[q]@.frames[t]));
        }
        lemma_transform_wf(od, doc@, w, h);
        assert forall|i2: int, t: int, x2: int, y2: int, c: int|
            0 <= i2 < od.states.len() && 0 <= t < od.states[i2].frames.len() && 0 <= x2 < w && 0
                <= y2 < h && 0 <= c < 4 implies #[trigger] px(doc@.states[i2].frames[t], x2, y2,
            c) == expand_pixel(od.states[i2].frames[t], x as int, y as int, x2, y2, c) by {
            assert(doc@.states[i2] == new_states@[i2]@);
            assert(px(new_states@[i2]@.frames[t], x2, y2, c) == expand_pixel(
                od.states[i2].frames[t], x as int, y as int, x2, y2, c));
        }
    }
    Ok(())
}

/// Builds a merged container: every byte of the edited raster up to its
/// first pixel-data chunk, then the original container's metadata chunk,
/// then the rest of the edited raster unchanged. Both containers are walked
/// strictly by declared chunk lengths, never by searching payload bytes.
pub fn merge_edited_raster(edited: &Vec<u8>, original: &Vec<u8>) -> (r: Result<
    Vec<u8>,
    FormatError,
>)
    ensures
        match r {
            Ok(out) => match (find_chunk_spec(original@, TAG_META), find_chunk_spec(
                edited@,
                TAG_PIXELS,
            )) {
                (Ok(Some(m)), Ok(Some(p))) => out@ == edited@.subrange(0, p.0) + original@
                    .subrange(m.0, m.0 + m.1) + edited@.subrange(p.0, edited@.len() as int),
                _ => false,
            },
            Err(e) => match find_chunk_spec(original@, TAG_META) {
                Ok(Some(m)) => match find_chunk_spec(edited@, TAG_PIXELS) {
                    Ok(Some(p)) => false,
                    Ok(None) => e == FormatError::MissingChunk,
                    Err(fe) => e == fe,
                },
                Ok(None) => e == FormatError::MissingChunk,
                Err(fe) => e == fe,
            },
        },
{
    let meta_chunk = match crate::chunk::find_chunk(original, TAG_META) {
        Ok(Some((off, total))) => {
            let olen = original.len();
            proof {
                assert(off + total <= olen);
            }
            subvec(original, off, off + total)
        },
        Ok(None) => {
            return Err(FormatError::MissingChunk);
        },
        Err(e) => {
            return Err(e);
        },
    };
    crate::chunk::splice_chunk(edited, &meta_chunk, TAG_PIXELS)
}

/// Resamples one tile to the given size with the nearest-neighbor filter.
pub fn resize_tile(fr: &Raster, nw: u32, nh: u32) -> (r: Raster)
    requires
        raster_wf(fr@),
        fr@.width >= 1,
        fr@.height >= 1,
        nw >= 1,
        nh >= 1,
        4 * (nw as int) * (nh as int) <= u32::MAX,
    ensures
        r@ == (RasterModel {
            width: nw,
            height: nh,
            pixels: resized_of(fr@.pixels, fr@.width, fr@.height, nw, nh, Filter::Nearest),
        }),
        raster_wf(r@),
{
    let np = resize_raw(&fr.pixels, fr.width, fr.height, nw, nh, Filter::Nearest);
    Raster { width: nw, height: nh, pixels: np }
}

} // verus!
