//! The clipboard codec's parsing side: a copied state travels as a
//! self-contained single-state container envelope, so a receiving process
//! with a different or absent scratch directory can still reconstruct it.
//! Malformed or foreign clipboard content is rejected as an invalid
//! envelope, never a crash; a state whose tile size differs from the
//! destination canvas is resampled to fit before it is returned.
use vstd::prelude::*;

use crate::document::{decode_container, decode_spec, IconState, IconStateModel};
use crate::errors::FormatError;
use crate::pixels::{Raster, RasterModel, raster_wf};
use crate::transform::{resized_of, Filter};

verus! {

/// The state a paste of `bytes` onto a `w` by `h` canvas yields: the
/// envelope's single state, its tiles resampled with the nearest-neighbor
/// filter when the envelope's tile size differs from the destination's.
pub open spec fn paste_spec(bytes: Seq<u8>, w: u32, h: u32) -> Result<
    IconStateModel,
    FormatError,
> {
    match decode_spec(bytes) {
        Err(_) => Err(FormatError::InvalidEnvelope),
        Ok(d) => if d.states.len() != 1 {
            Err(FormatError::InvalidEnvelope)
        } else if d.width == w && d.height == h {
            Ok(d.states[0])
        } else if 4 * (w as int) * (h as int) > u32::MAX {
            Err(FormatError::InvalidEnvelope)
        } else {
            Ok(
                IconStateModel {
                    meta: d.states[0].meta,
                    frames: Seq::new(
                        d.states[0].frames.len(),
                        |t: int| RasterModel {
                            width: w,
                            height: h,
                            pixels: resized_of(
                                d.states[0].frames[t].pixels,
                                d.width,
                                d.height,
                                w,
                                h,
                                Filter::Nearest,
                            ),
                        },
                    ),
                },
            )
        },
    }
}

/// Reconstructs a state from clipboard envelope bytes, resampling it to the
/// destination canvas when the sizes differ. Any malformed or foreign
/// content earns `InvalidEnvelope`.
#[verifier::loop_isolation(false)]
pub fn paste_state_from_envelope(bytes: &Vec<u8>, w: u32, h: u32) -> (r: Result<
    IconState,
    FormatError,
>)
    requires
        w >= 1,
        h >= 1,
    ensures
        match r {
            Ok(st) => paste_spec(bytes@, w, h) == Ok::<_, FormatError>(st@),
            Err(e) => paste_spec(bytes@, w, h) == Err::<IconStateModel, _>(e),
        },
{
    let mut doc = match decode_container(bytes) {
        Ok(d) => d,
        Err(_) => {
            return Err(FormatError::InvalidEnvelope);
        },
    };
    if doc.states.len() != 1 {
        return Err(FormatError::InvalidEnvelope);
    }
    let st = doc.states.remove(0);
    let ghost sv = st@;
    let ghost dv = doc@;
    if doc.width == w && doc.height == h {
        return Ok(st);
    }
    proof {
        assert(4 * (w as int) * (h as int) <= u128::MAX) by (nonlinear_arith)
            requires
                w <= u32::MAX,
                h <= u32::MAX,
        ;
    }
    if 4u128 * (w as u128) * (h as u128) > u32::MAX as u128 {
        return Err(FormatError::InvalidEnvelope);
    }
    let dw = doc.width;
    let dh = doc.height;
    let mut frames: Vec<Raster> = Vec::new();
    let mut t: usize = 0;
    while t < st.frames.len()
        invariant
            t <= st.frames@.len(),
            frames@.len() == t,
            forall|q: int|
                0 <= q < t ==> #[trigger] frames@[q]@ == (RasterModel {
                    width: w,
                    height: h,
                    pixels: resized_of(sv.frames[q].pixels, dw, dh, w, h, Filter::Nearest),
                }),
        decreases st.frames@.len() - t,
    {
        proof {
            assert(sv.frames[t as int] == st.frames@[t as int]@);
            assert(raster_wf(sv.frames[t as int]));
        }
        let np = crate::transform::resize_tile(&st.frames[t], w, h);
        frames.push(np);
        t = t + 1;
    }
    let out = IconState { meta: st.meta, frames };
    proof {
        let target = match paste_spec(bytes@, w, h) {
            Ok(s) => s,
            Err(_) => sv,
        };
        assert(out@.frames =~~= target.frames);
        assert(out@ == target);
    }
    Ok(out)
}

} // verus!
