use dmi_codec::cache::{frame_key, materialize, persist_plan};
use dmi_codec::chunk::{build_container, checksum, find_chunk, make_chunk, parse_container};
use dmi_codec::clipboard::paste_state_from_envelope;
use dmi_codec::document::{
    decode_container, encode_container, new_blank_state, new_document, IconDocument, IconState,
    TAG_END, TAG_HEADER, TAG_META, TAG_PIXELS,
};
use dmi_codec::errors::{CacheError, FormatError};
use dmi_codec::grammar::{parse_metadata, serialize_metadata, Metadata, StateMeta};
use dmi_codec::pixels::{blank, crop_rect, expand_rect, Raster};
use dmi_codec::transform::{crop, expand, merge_edited_raster, overlay_color, resize, Filter};
use dmi_codec::update::{update_available, VersionOrder};

fn patterned_raster(w: u32, h: u32, seed: u8) -> Raster {
    let n = (4 * w * h) as usize;
    let mut pixels = Vec::with_capacity(n);
    for k in 0..n {
        pixels.push((seed as usize).wrapping_add(k.wrapping_mul(31)) as u8);
    }
    Raster { width: w, height: h, pixels }
}

fn idle_state(w: u32, h: u32, frames: u32, dirs: u32) -> IconState {
    let count = (dirs * frames) as usize;
    let mut tiles = Vec::new();
    for t in 0..count {
        tiles.push(patterned_raster(w, h, t as u8));
    }
    let mut delays = Vec::new();
    let mut hotspots = Vec::new();
    for _ in 0..frames {
        delays.push(b"1.0".to_vec());
        hotspots.push(Vec::new());
    }
    IconState {
        meta: StateMeta {
            name: b"idle".to_vec(),
            dirs,
            frame_count: frames,
            delays,
            loop_count: 0,
            rewind: false,
            movement: false,
            hotspots,
            extra: Vec::new(),
        },
        frames: tiles,
    }
}

fn sample_doc() -> IconDocument {
    let mut doc = new_document(32, 32).unwrap();
    doc.states.push(idle_state(32, 32, 2, 1));
    doc
}

#[test]
fn container_round_trip_preserves_document() {
    let doc = sample_doc();
    let bytes = encode_container(&doc).unwrap();
    let back = decode_container(&bytes).unwrap();
    assert_eq!(back.version, doc.version);
    assert_eq!(back.width, 32);
    assert_eq!(back.height, 32);
    assert_eq!(back.states.len(), 1);
    let st = &back.states[0];
    assert_eq!(st.meta.name, b"idle".to_vec());
    assert_eq!(st.meta.frame_count, 2);
    assert_eq!(st.meta.dirs, 1);
    assert_eq!(st.frames.len(), 2);
    for t in 0..2 {
        assert_eq!(st.frames[t].width, 32);
        assert_eq!(st.frames[t].height, 32);
        assert_eq!(st.frames[t].pixels, doc.states[0].frames[t].pixels);
    }
}

#[test]
fn scenario_single_row_grid() {
    // one state, one direction, two frames, 32x32 canvas: a 2-tile single
    // row, so the composed raster is 64 wide and 32 tall
    let doc = sample_doc();
    let bytes = encode_container(&doc).unwrap();
    let (off, _total) = find_chunk(&bytes, TAG_HEADER).unwrap().unwrap();
    let p = &bytes[off + 8..off + 16];
    let gw = u32::from_be_bytes([p[0], p[1], p[2], p[3]]);
    let gh = u32::from_be_bytes([p[4], p[5], p[6], p[7]]);
    assert_eq!((gw, gh), (64, 32));
    let back = decode_container(&bytes).unwrap();
    assert_eq!(back.states[0].frames.len(), 2);
    assert_eq!(back.states[0].frames[0].width, 32);
    assert_eq!(back.states[0].frames[0].height, 32);
}

#[test]
fn layout_is_deterministic() {
    let doc = sample_doc();
    let a = encode_container(&doc).unwrap();
    let b = encode_container(&doc).unwrap();
    assert_eq!(a, b);
}

#[test]
fn encoded_checksums_validate() {
    let doc = sample_doc();
    let bytes = encode_container(&doc).unwrap();
    let chunks = parse_container(&bytes).unwrap();
    assert_eq!(chunks.len(), 4);
    for c in &chunks {
        assert_eq!(c.crc, checksum(c.tag, &c.payload));
    }
    // rebuilding the parsed chunks reproduces the container byte for byte
    let rebuilt = build_container(&chunks);
    assert_eq!(rebuilt, bytes);
}

#[test]
fn checksum_matches_reference_value() {
    // the CRC-32 of the bytes of the trailer tag is a fixed, well-known value
    let empty: Vec<u8> = Vec::new();
    assert_eq!(checksum(TAG_END, &empty), 0xAE42_6082);
}

#[test]
fn find_chunk_ignores_tag_bytes_inside_payload() {
    // a pixel payload that happens to contain the metadata tag pattern must
    // not produce a false match: the walk goes by declared lengths only
    let mut payload = vec![0u8; 4];
    payload.extend_from_slice(&TAG_META.to_be_bytes());
    payload.extend_from_slice(&[1, 2, 3, 4]);
    let chunks = vec![make_chunk(TAG_PIXELS, payload), make_chunk(TAG_END, Vec::new())];
    let bytes = build_container(&chunks);
    assert_eq!(find_chunk(&bytes, TAG_META).unwrap(), None);
    let (off, _) = find_chunk(&bytes, TAG_PIXELS).unwrap().unwrap();
    assert_eq!(off, 8);
}

#[test]
fn truncated_declared_length_is_rejected() {
    let chunks = vec![make_chunk(TAG_END, Vec::new())];
    let mut bytes = build_container(&chunks);
    // inflate the declared length beyond the buffer
    bytes[8] = 0xFF;
    assert_eq!(find_chunk(&bytes, TAG_END), Err(FormatError::TruncatedChunk));
    assert!(parse_container(&bytes).is_err());
}

#[test]
fn merge_injects_metadata_before_pixels() {
    let original = encode_container(&sample_doc()).unwrap();
    // an edited 64x64 raster with no metadata chunk
    let edited_chunks = vec![
        make_chunk(TAG_HEADER, {
            let mut p = Vec::new();
            p.extend_from_slice(&64u32.to_be_bytes());
            p.extend_from_slice(&64u32.to_be_bytes());
            p
        }),
        make_chunk(TAG_PIXELS, vec![7u8; (4 * 64 * 64) as usize]),
        make_chunk(TAG_END, Vec::new()),
    ];
    let edited = build_container(&edited_chunks);
    assert_eq!(find_chunk(&edited, TAG_META).unwrap(), None);

    let merged = merge_edited_raster(&edited, &original).unwrap();
    // the metadata chunk bytes are exactly the original's
    let (mo, mt) = find_chunk(&original, TAG_META).unwrap().unwrap();
    let (go, gt) = find_chunk(&merged, TAG_META).unwrap().unwrap();
    assert_eq!(&merged[go..go + gt], &original[mo..mo + mt]);
    // it sits immediately before the edited file's pixel chunk position
    let (po, _) = find_chunk(&edited, TAG_PIXELS).unwrap().unwrap();
    assert_eq!(go, po);
    // the pixel bytes are the edited raster's, and the header is preserved
    let (npo, npt) = find_chunk(&merged, TAG_PIXELS).unwrap().unwrap();
    assert_eq!(&merged[npo..npo + npt], &edited[po..po + npt]);
    assert_eq!(&merged[0..po], &edited[0..po]);
}

#[test]
fn merge_without_metadata_chunk_fails() {
    let edited_chunks = vec![make_chunk(TAG_END, Vec::new())];
    let edited = build_container(&edited_chunks);
    let err = merge_edited_raster(&edited, &edited).unwrap_err();
    assert_eq!(err, FormatError::MissingChunk);
}

#[test]
fn metadata_grammar_round_trip() {
    let doc = sample_doc();
    let meta = Metadata {
        version: b"4.0".to_vec(),
        width: 32,
        height: 32,
        states: vec![idle_state(32, 32, 2, 1).meta],
    };
    let text = serialize_metadata(&meta);
    let back = parse_metadata(&text).unwrap();
    assert_eq!(back.version, meta.version);
    assert_eq!(back.width, 32);
    assert_eq!(back.height, 32);
    assert_eq!(back.states.len(), 1);
    assert_eq!(back.states[0].name, b"idle".to_vec());
    assert_eq!(back.states[0].delays, vec![b"1.0".to_vec(), b"1.0".to_vec()]);
    drop(doc);
}

#[test]
fn metadata_field_count_mismatch_is_invalid() {
    let mut meta = Metadata {
        version: b"4.0".to_vec(),
        width: 32,
        height: 32,
        states: vec![idle_state(32, 32, 2, 1).meta],
    };
    // three delays against a frame count of two
    meta.states[0].delays.push(b"2".to_vec());
    let text = serialize_metadata(&meta);
    assert!(matches!(parse_metadata(&text), Err(FormatError::InvalidValue)));
}

#[test]
fn metadata_missing_directive() {
    let text = b"# BEGIN DMI\nversion = 4.0\n\twidth = 32\n".to_vec();
    assert!(matches!(parse_metadata(&text), Err(FormatError::MissingField)));
}

#[test]
fn metadata_bad_number_is_invalid() {
    let text =
        b"# BEGIN DMI\nversion = 4.0\n\twidth = abc\n\theight = 32\n# END DMI".to_vec();
    assert!(matches!(parse_metadata(&text), Err(FormatError::InvalidValue)));
}

#[test]
fn crop_expand_inverse_on_overlap() {
    let src = patterned_raster(8, 8, 3);
    let cropped = crop_rect(&src, 2, 1, 4, 5);
    let back = expand_rect(&cropped, 2, 1, 8, 8);
    for j in 1..6u32 {
        for i in 2..6u32 {
            for c in 0..4u32 {
                let k = (4 * (j * 8 + i) + c) as usize;
                assert_eq!(back.pixels[k], src.pixels[k]);
            }
        }
    }
    // outside the window the canvas is fully transparent
    assert_eq!(back.pixels[(4 * (0 * 8 + 0)) as usize], 0);
}

#[test]
fn document_crop_then_expand() {
    let mut doc = sample_doc();
    let before = doc.states[0].frames[0].pixels.clone();
    crop(&mut doc, 4, 4, 16, 16).unwrap();
    assert_eq!(doc.width, 16);
    assert_eq!(doc.states[0].frames[0].pixels.len(), 4 * 16 * 16);
    expand(&mut doc, 4, 4, 32, 32).unwrap();
    assert_eq!(doc.width, 32);
    // overlap content reproduced
    for j in 4..20u32 {
        for i in 4..20u32 {
            for c in 0..4u32 {
                let k = (4 * (j * 32 + i) + c) as usize;
                assert_eq!(doc.states[0].frames[0].pixels[k], before[k]);
            }
        }
    }
    // metadata untouched
    assert_eq!(doc.states[0].meta.frame_count, 2);
    assert_eq!(doc.states[0].meta.delays.len(), 2);
}

#[test]
fn resize_same_size_nearest_is_identity() {
    let mut doc = sample_doc();
    let before = doc.states[0].frames[1].pixels.clone();
    resize(&mut doc, 32, 32, Filter::Nearest).unwrap();
    assert_eq!(doc.states[0].frames[1].pixels, before);
}

#[test]
fn resize_changes_dimensions() {
    let mut doc = sample_doc();
    resize(&mut doc, 16, 8, Filter::Triangle).unwrap();
    assert_eq!((doc.width, doc.height), (16, 8));
    for fr in &doc.states[0].frames {
        assert_eq!(fr.pixels.len(), 4 * 16 * 8);
    }
    assert_eq!(doc.states[0].meta.frame_count, 2);
}

#[test]
fn overlay_respects_alpha() {
    // a fully transparent top layer leaves the solid background visible
    let top = vec![0u8; 16];
    let out = overlay_color(10, 20, 30, 2, 2, &top).unwrap();
    assert_eq!(out.len(), 16);
    assert_eq!(&out[0..4], &[10, 20, 30, 255]);
    // a fully opaque top layer replaces it
    let mut top2 = Vec::new();
    for _ in 0..4 {
        top2.extend_from_slice(&[1, 2, 3, 255]);
    }
    let out2 = overlay_color(10, 20, 30, 2, 2, &top2).unwrap();
    assert_eq!(&out2[0..4], &[1, 2, 3, 255]);
    // a buffer of the wrong size is refused
    assert!(overlay_color(0, 0, 0, 2, 2, &vec![0u8; 3]).is_none());
}

#[test]
fn blank_state_is_transparent() {
    let st = new_blank_state(8, 8).unwrap();
    assert_eq!(st.meta.dirs, 1);
    assert_eq!(st.meta.frame_count, 1);
    assert_eq!(st.frames.len(), 1);
    assert!(st.frames[0].pixels.iter().all(|&b| b == 0));
    assert!(matches!(new_blank_state(0, 8), Err(FormatError::InvalidValue)));
}

#[test]
fn cache_round_trip_and_missing_artifact() {
    let st = idle_state(8, 8, 2, 1);
    let (ser, artifacts) = persist_plan(&st, 8, 8);
    assert_eq!(ser.frame_keys.len(), 2);
    assert_eq!(artifacts.len(), 2);
    assert_eq!(ser.frame_keys[0], frame_key(&st.frames[0]));
    // contents handed back in order reconstruct the state
    let files: Vec<Option<Vec<u8>>> =
        artifacts.iter().map(|a| Some(a.bytes.clone())).collect();
    let back = materialize(&ser, files).unwrap();
    assert_eq!(back.frames[0].pixels, st.frames[0].pixels);
    assert_eq!(back.frames[1].pixels, st.frames[1].pixels);
    assert_eq!(back.meta.name, st.meta.name);
    // a purged artifact is reported as missing
    let gone: Vec<Option<Vec<u8>>> = vec![Some(artifacts[0].bytes.clone()), None];
    assert!(matches!(materialize(&ser, gone), Err(CacheError::MissingArtifact)));
}

#[test]
fn identical_content_shares_a_key() {
    let a = blank(4, 4);
    let b = blank(4, 4);
    assert_eq!(frame_key(&a), frame_key(&b));
    let c = patterned_raster(4, 4, 9);
    assert_ne!(frame_key(&a), frame_key(&c));
}

#[test]
fn update_check_decision() {
    assert!(update_available(Some(VersionOrder::Older)));
    assert!(!update_available(Some(VersionOrder::Same)));
    assert!(!update_available(Some(VersionOrder::Newer)));
    assert!(!update_available(None));
}

#[test]
fn decode_rejects_missing_chunks() {
    let bytes = build_container(&vec![make_chunk(TAG_END, Vec::new())]);
    assert!(matches!(decode_container(&bytes), Err(FormatError::MissingChunk)));
}

#[test]
fn decode_rejects_short_raster() {
    // a container whose declared grid is smaller than the layout demands
    let doc = sample_doc();
    let bytes = encode_container(&doc).unwrap();
    let chunks = parse_container(&bytes).unwrap();
    let mut small = Vec::new();
    for c in chunks {
        if c.tag == TAG_HEADER {
            let mut p = Vec::new();
            p.extend_from_slice(&32u32.to_be_bytes());
            p.extend_from_slice(&32u32.to_be_bytes());
            small.push(make_chunk(TAG_HEADER, p));
        } else {
            small.push(c);
        }
    }
    let bytes2 = build_container(&small);
    assert!(matches!(decode_container(&bytes2), Err(FormatError::RasterTooSmall)));
}


#[test]
fn clipboard_envelope_round_trip() {
    // a copied state travels as a single-state container envelope
    let mut doc = new_document(32, 32).unwrap();
    doc.states.push(idle_state(32, 32, 2, 1));
    let bytes = encode_container(&doc).unwrap();
    let st = paste_state_from_envelope(&bytes, 32, 32).unwrap();
    assert_eq!(st.meta.name, b"idle".to_vec());
    assert_eq!(st.frames.len(), 2);
    assert_eq!(st.frames[0].pixels, doc.states[0].frames[0].pixels);
    // pasting onto a smaller canvas resamples the tiles
    let st2 = paste_state_from_envelope(&bytes, 16, 16).unwrap();
    assert_eq!(st2.frames[0].width, 16);
    assert_eq!(st2.frames[0].pixels.len(), 4 * 16 * 16);
}

#[test]
fn foreign_clipboard_content_is_invalid_envelope() {
    let junk = b"hello from some other application".to_vec();
    assert!(matches!(
        paste_state_from_envelope(&junk, 32, 32),
        Err(FormatError::InvalidEnvelope)
    ));
    // an envelope must hold exactly one state
    let empty_doc = new_document(32, 32).unwrap();
    let bytes = encode_container(&empty_doc).unwrap();
    assert!(matches!(
        paste_state_from_envelope(&bytes, 32, 32),
        Err(FormatError::InvalidEnvelope)
    ));
}
