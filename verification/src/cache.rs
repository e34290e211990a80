//! The artifact cache boundary: frame pixel data is persisted as files in a
//! caller-supplied scratch directory, named by a content-derived key, so a
//! host process can reference large pixel buffers without re-transferring
//! them. The planning and reassembly logic here is pure; the caller performs
//! the actual file writes and reads and hands the contents back.
use vstd::prelude::*;

use crate::bytes::dec_bytes;
use crate::chunk::{crc32, crc_of};
use crate::document::{clone_state_meta, IconState};
use crate::errors::CacheError;
use crate::grammar::StateMeta;
use crate::pixels::{Raster, RasterModel, raster_wf};

verus! {

/// The content-derived key of one frame's pixel bytes: the decimal digits
/// of their checksum. Identical content always earns the same key, so
/// states sharing frame content share artifacts.
pub open spec fn content_key(pixels: Seq<u8>) -> Seq<u8> {
    dec_bytes(crc_of(pixels))
}

/// Computes a frame's content key.
pub fn frame_key(frame: &Raster) -> (r: Vec<u8>)
    ensures
        r@ == content_key(frame@.pixels),
{
    let crc = crc32(&frame.pixels);
    crate::bytes::dec_of_u32(crc)
}

/// One artifact to write: the file name (its key) and the pixel bytes.
pub struct Artifact {
    pub key: Vec<u8>,
    pub bytes: Vec<u8>,
}

/// A state with its tiles replaced by artifact references.
pub struct SerializedState {
    pub meta: StateMeta,
    pub width: u32,
    pub height: u32,
    pub frame_keys: Vec<Vec<u8>>,
}

/// Plans the persistence of one state: the serialized projection and the
/// artifact list, one entry per frame, each named by its content key.
#[verifier::loop_isolation(false)]
pub fn persist_plan(state: &IconState, width: u32, height: u32) -> (r: (
    SerializedState,
    Vec<Artifact>,
))
    ensures
        r.0.meta@ == state@.meta,
        r.0.width == width,
        r.0.height == height,
        r.0.frame_keys@.len() == state@.frames.len(),
        r.1@.len() == state@.frames.len(),
        forall|t: int|
            0 <= t < state@.frames.len() ==> (#[trigger] r.0.frame_keys@[t])@ == content_key(
                state@.frames[t].pixels,
            ),
        forall|t: int|
            0 <= t < state@.frames.len() ==> (#[trigger] r.1@[t]).key@ == content_key(
                state@.frames[t].pixels,
            ) && r.1@[t].bytes@ == state@.frames[t].pixels,
{
    let mut keys: Vec<Vec<u8>> = Vec::new();
    let mut artifacts: Vec<Artifact> = Vec::new();
    let mut t: usize = 0;
    while t < state.frames.len()
        invariant
            t <= state.frames@.len(),
            keys@.len() == t,
            artifacts@.len() == t,
            forall|q: int|
                0 <= q < t ==> (#[trigger] keys@[q])@ == content_key(state@.frames[q].pixels),
            forall|q: int|
                0 <= q < t ==> (#[trigger] artifacts@[q]).key@ == content_key(
                    state@.frames[q].pixels,
                ) && artifacts@[q].bytes@ == state@.frames[q].pixels,
        decreases state.frames@.len() - t,
    {
        proof {
            assert(state@.frames[t as int] == state.frames@[t as int]@);
        }
        let key = frame_key(&state.frames[t]);
        let bytes = crate::grammar::clone_bytes(&state.frames[t].pixels);
        let key2 = crate::grammar::clone_bytes(&key);
        keys.push(key);
        artifacts.push(Artifact { key: key2, bytes });
        t = t + 1;
    }
    let s = SerializedState { meta: clone_state_meta(&state.meta), width, height, frame_keys: keys };
    (s, artifacts)
}

/// Reassembles a state from artifact file contents read back by the caller,
/// in frame order. Fails with `MissingArtifact` exactly when a referenced
/// artifact is absent or does not hold one tile of the serialized size.
#[verifier::loop_isolation(false)]
pub fn materialize(s: &SerializedState, files: Vec<Option<Vec<u8>>>) -> (r: Result<
    IconState,
    CacheError,
>)
    requires
        4 * (s.width as int) * (s.height as int) <= u32::MAX,
    ensures
        match r {
            Ok(st) => {
                &&& files@.len() == s.frame_keys@.len()
                &&& st@.meta == s.meta@
                &&& st@.frames.len() == s.frame_keys@.len()
                &&& forall|t: int|
                    0 <= t < files@.len() ==> ((#[trigger] files@[t]) matches Some(b)
                        && st@.frames[t] == (RasterModel {
                        width: s.width,
                        height: s.height,
                        pixels: b@,
                    }))
                &&& forall|t: int|
                    0 <= t < st@.frames.len() ==> raster_wf(#[trigger] st@.frames[t])
            },
            Err(CacheError::MissingArtifact) => files@.len() != s.frame_keys@.len() || exists|t: int|
                0 <= t < files@.len() && !((#[trigger] files@[t]) matches Some(b) && b@.len()
                    == 4 * (s.width as int) * (s.height as int)),
        },
{
    if files.len() != s.frame_keys.len() {
        return Err(CacheError::MissingArtifact);
    }
    let mut frames: Vec<Raster> = Vec::new();
    let mut files = files;
    let ghost all = files@;
    let mut t: usize = 0;
    while t < s.frame_keys.len()
        invariant
            t <= s.frame_keys@.len(),
            files@ == all,
            all.len() == s.frame_keys@.len(),
            frames@.len() == t,
            forall|q: int|
                0 <= q < t ==> ((#[trigger] all[q]) matches Some(b) && frames@[q]@
                    == (RasterModel { width: s.width, height: s.height, pixels: b@ })),
            forall|q: int| 0 <= q < t ==> raster_wf(#[trigger] frames@[q]@),
        decreases s.frame_keys@.len() - t,
    {
        let need: usize = crate::pixels::raster_len(s.width, s.height);
        match &files[t] {
            Option::Some(b) => {
                if b.len() != need {
                    return Err(CacheError::MissingArtifact);
                }
                let pixels = crate::grammar::clone_bytes(b);
                frames.push(Raster { width: s.width, height: s.height, pixels });
            },
            Option::None => {
                return Err(CacheError::MissingArtifact);
            },
        }
        t = t + 1;
    }
    let st = IconState { meta: clone_state_meta(&s.meta), frames };
    Ok(st)
}

} // verus!
