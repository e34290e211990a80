//! The metadata grammar: a line-oriented `key = value` text carried in one
//! container chunk, holding a header (version, canvas width and height) and
//! an ordered list of state blocks. Serialization is the exact syntactic
//! inverse of parsing for every field the engine understands; unknown
//! directive lines inside a state block are kept verbatim.
use vstd::prelude::*;

use crate::bytes::{
    all_digits, bytes_eq, dec_bytes, dec_of_u32, dec_val, is_digit, join_on, join_on_exec,
    lemma_dec_bytes_digits, lemma_dec_round_trip, lemma_split_join, no_byte, parse_u32,
    split_on, split_on_exec, starts_with, starts_with_exec, subvec,
};
use crate::errors::FormatError;

verus! {

// ---------------------------------------------------------------------------
// Data model
// ---------------------------------------------------------------------------

/// One state's metadata: a named animation unit.
pub struct StateMeta {
    pub name: Vec<u8>,
    /// Direction count: 1, 4, or 8 compass directions.
    pub dirs: u32,
    /// Frame count per direction; at least 1.
    pub frame_count: u32,
    /// One delay token per frame, a non-negative decimal number.
    pub delays: Vec<Vec<u8>>,
    /// 0 means loop forever.
    pub loop_count: u32,
    pub rewind: bool,
    pub movement: bool,
    /// One hotspot token per frame; may be empty for "no hotspot".
    pub hotspots: Vec<Vec<u8>>,
    /// Unknown directive lines, round-tripped verbatim.
    pub extra: Vec<Vec<u8>>,
}

pub ghost struct StateMetaModel {
    pub name: Seq<u8>,
    pub dirs: u32,
    pub frame_count: u32,
    pub delays: Seq<Seq<u8>>,
    pub loop_count: u32,
    pub rewind: bool,
    pub movement: bool,
    pub hotspots: Seq<Seq<u8>>,
    pub extra: Seq<Seq<u8>>,
}

impl View for StateMeta {
    type V = StateMetaModel;

    open spec fn view(&self) -> StateMetaModel {
        StateMetaModel {
            name: self.name@,
            dirs: self.dirs,
            frame_count: self.frame_count,
            delays: self.delays.deep_view(),
            loop_count: self.loop_count,
            rewind: self.rewind,
            movement: self.movement,
            hotspots: self.hotspots.deep_view(),
            extra: self.extra.deep_view(),
        }
    }
}

/// The whole metadata document: header plus ordered state blocks.
pub struct Metadata {
    pub version: Vec<u8>,
    pub width: u32,
    pub height: u32,
    pub states: Vec<StateMeta>,
}

pub ghost struct MetadataModel {
    pub version: Seq<u8>,
    pub width: u32,
    pub height: u32,
    pub states: Seq<StateMetaModel>,
}

impl View for Metadata {
    type V = MetadataModel;

    open spec fn view(&self) -> MetadataModel {
        MetadataModel {
            version: self.version@,
            width: self.width,
            height: self.height,
            states: Seq::new(self.states@.len(), |i: int| self.states@[i]@),
        }
    }
}

// ---------------------------------------------------------------------------
// Keywords
// ---------------------------------------------------------------------------

pub open spec fn begin_line() -> Seq<u8> {
    seq![35u8, 32u8, 66u8, 69u8, 71u8, 73u8, 78u8, 32u8, 68u8, 77u8, 73u8]
}

pub open spec fn end_line() -> Seq<u8> {
    seq![35u8, 32u8, 69u8, 78u8, 68u8, 32u8, 68u8, 77u8, 73u8]
}

pub open spec fn kw_version() -> Seq<u8> {
    seq![118u8, 101u8, 114u8, 115u8, 105u8, 111u8, 110u8, 32u8, 61u8, 32u8]
}

pub open spec fn kw_width() -> Seq<u8> {
    seq![9u8, 119u8, 105u8, 100u8, 116u8, 104u8, 32u8, 61u8, 32u8]
}

pub open spec fn kw_height() -> Seq<u8> {
    seq![9u8, 104u8, 101u8, 105u8, 103u8, 104u8, 116u8, 32u8, 61u8, 32u8]
}

pub open spec fn kw_state() -> Seq<u8> {
    seq![115u8, 116u8, 97u8, 116u8, 101u8, 32u8, 61u8, 32u8, 34u8]
}

pub open spec fn kw_dirs() -> Seq<u8> {
    seq![9u8, 100u8, 105u8, 114u8, 115u8, 32u8, 61u8, 32u8]
}

pub open spec fn kw_frames() -> Seq<u8> {
    seq![9u8, 102u8, 114u8, 97u8, 109u8, 101u8, 115u8, 32u8, 61u8, 32u8]
}

pub open spec fn kw_delay() -> Seq<u8> {
    seq![9u8, 100u8, 101u8, 108u8, 97u8, 121u8, 32u8, 61u8, 32u8]
}

pub open spec fn kw_loop() -> Seq<u8> {
    seq![9u8, 108u8, 111u8, 111u8, 112u8, 32u8, 61u8, 32u8]
}

pub open spec fn kw_rewind() -> Seq<u8> {
    seq![9u8, 114u8, 101u8, 119u8, 105u8, 110u8, 100u8, 32u8, 61u8, 32u8]
}

pub open spec fn kw_movement() -> Seq<u8> {
    seq![9u8, 109u8, 111u8, 118u8, 101u8, 109u8, 101u8, 110u8, 116u8, 32u8, 61u8, 32u8]
}

pub open spec fn kw_hotspots() -> Seq<u8> {
    seq![9u8, 104u8, 111u8, 116u8, 115u8, 112u8, 111u8, 116u8, 115u8, 32u8, 61u8, 32u8]
}

// ---------------------------------------------------------------------------
// Well-formedness
// ---------------------------------------------------------------------------

/// A delay token: a non-negative decimal number, digits with at most one
/// point.
pub open spec fn is_delay_token(s: Seq<u8>) -> bool {
    &&& s.len() >= 1
    &&& forall|i: int| 0 <= i < s.len() ==> is_digit(#[trigger] s[i]) || s[i] == 46u8
    &&& forall|i: int, j: int| 0 <= i < j < s.len() && s[i] == 46u8 ==> s[j] != 46u8
}

/// A hotspot token: free text without separators.
pub open spec fn hotspot_clean(s: Seq<u8>) -> bool {
    no_byte(s, 44u8) && no_byte(s, 10u8)
}

/// An unknown directive line that can be round-tripped: it must not be
/// mistaken for a state start, the end marker, or a line break.
pub open spec fn extra_clean(s: Seq<u8>) -> bool {
    &&& no_byte(s, 10u8)
    &&& !starts_with(s, kw_state())
    &&& s != end_line()
}

pub open spec fn state_meta_wf(s: StateMetaModel) -> bool {
    &&& no_byte(s.name, 34u8)
    &&& no_byte(s.name, 10u8)
    &&& s.dirs == 1 || s.dirs == 4 || s.dirs == 8
    &&& s.frame_count >= 1
    &&& s.delays.len() == s.frame_count
    &&& forall|i: int| 0 <= i < s.delays.len() ==> is_delay_token(#[trigger] s.delays[i])
    &&& s.hotspots.len() == s.frame_count
    &&& forall|i: int| 0 <= i < s.hotspots.len() ==> hotspot_clean(#[trigger] s.hotspots[i])
    &&& forall|i: int| 0 <= i < s.extra.len() ==> extra_clean(#[trigger] s.extra[i])
}

pub open spec fn metadata_wf(m: MetadataModel) -> bool {
    &&& no_byte(m.version, 10u8)
    &&& forall|i: int| 0 <= i < m.states.len() ==> state_meta_wf(#[trigger] m.states[i])
}

// ---------------------------------------------------------------------------
// Serialization (spec)
// ---------------------------------------------------------------------------

pub open spec fn bool_byte(b: bool) -> Seq<u8> {
    if b {
        seq![49u8]
    } else {
        seq![48u8]
    }
}

/// The name directive line of a state block.
pub open spec fn state_name_line(name: Seq<u8>) -> Seq<u8> {
    kw_state() + name + seq![34u8]
}

/// The fixed directive lines of one state block, followed by its unknown
/// lines verbatim.
pub open spec fn state_lines(s: StateMetaModel) -> Seq<Seq<u8>> {
    seq![
        state_name_line(s.name),
        kw_dirs() + dec_bytes(s.dirs),
        kw_frames() + dec_bytes(s.frame_count),
        kw_delay() + join_on(s.delays, 44u8),
        kw_loop() + dec_bytes(s.loop_count),
        kw_rewind() + bool_byte(s.rewind),
        kw_movement() + bool_byte(s.movement),
        kw_hotspots() + join_on(s.hotspots, 44u8),
    ] + s.extra
}

/// The number of lines one state block occupies.
pub open spec fn state_block_len(s: StateMetaModel) -> int {
    8 + s.extra.len() as int
}

pub open spec fn states_lines(ss: Seq<StateMetaModel>) -> Seq<Seq<u8>>
    decreases ss.len(),
{
    if ss.len() == 0 {
        Seq::empty()
    } else {
        state_lines(ss[0]) + states_lines(ss.drop_first())
    }
}

/// Every line of the metadata text, in order.
pub open spec fn metadata_lines(m: MetadataModel) -> Seq<Seq<u8>> {
    seq![
        begin_line(),
        kw_version() + m.version,
        kw_width() + dec_bytes(m.width),
        kw_height() + dec_bytes(m.height),
    ] + states_lines(m.states) + seq![end_line()]
}

/// The serialized metadata text: all lines joined by line breaks.
pub open spec fn serialize_metadata_spec(m: MetadataModel) -> Seq<u8> {
    join_on(metadata_lines(m), 10u8)
}

// ---------------------------------------------------------------------------
// Parsing (spec)
// ---------------------------------------------------------------------------

/// The value of a `key = value` line, when the line carries that key.
pub open spec fn strip_prefix(line: Seq<u8>, kw: Seq<u8>) -> Option<Seq<u8>> {
    if starts_with(line, kw) {
        Some(line.subrange(kw.len() as int, line.len() as int))
    } else {
        None
    }
}

/// Parses a numeric directive: the key must be present (else the field is
/// missing) and the value must be a decimal number in range (else it is
/// invalid).
pub open spec fn parse_num(line: Seq<u8>, kw: Seq<u8>) -> Result<u32, FormatError> {
    match strip_prefix(line, kw) {
        Option::None => Err(FormatError::MissingField),
        Option::Some(v) => if v.len() >= 1 && all_digits(v) && dec_val(v) <= u32::MAX {
            Ok(dec_val(v) as u32)
        } else {
            Err(FormatError::InvalidValue)
        },
    }
}

/// Parses a flag directive: the value must be `1` or `0`.
pub open spec fn parse_flag(line: Seq<u8>, kw: Seq<u8>) -> Result<bool, FormatError> {
    match strip_prefix(line, kw) {
        Option::None => Err(FormatError::MissingField),
        Option::Some(v) => if v == seq![49u8] {
            Ok(true)
        } else if v == seq![48u8] {
            Ok(false)
        } else {
            Err(FormatError::InvalidValue)
        },
    }
}

/// Parses a state's name directive: `state = "<name>"`.
pub open spec fn parse_name(line: Seq<u8>) -> Option<Seq<u8>> {
    if starts_with(line, kw_state()) && line.len() > kw_state().len() && line.last() == 34u8 {
        Some(line.subrange(kw_state().len() as int, line.len() - 1))
    } else {
        None
    }
}

/// Collects unknown directive lines until a state start, the end marker, or
/// the end of input; returns them with the index of the first line not
/// collected.
pub open spec fn parse_extras(lines: Seq<Seq<u8>>, j: int) -> (Seq<Seq<u8>>, int)
    decreases lines.len() - j,
{
    if j < 0 || j >= lines.len() {
        (Seq::empty(), j)
    } else if lines[j] == end_line() || starts_with(lines[j], kw_state()) {
        (Seq::empty(), j)
    } else {
        let (rest, k) = parse_extras(lines, j + 1);
        (seq![lines[j]] + rest, k)
    }
}

/// Parses one state block starting at line `i`; on success returns the
/// state and the index of the first line after the block.
pub open spec fn parse_state_block(lines: Seq<Seq<u8>>, i: int) -> Result<
    (StateMetaModel, int),
    FormatError,
> {
    if i < 0 || i + 8 > lines.len() {
        Err(FormatError::MissingField)
    } else {
        match parse_name(lines[i]) {
            Option::None => Err(FormatError::MissingField),
            Option::Some(name) => match parse_num(lines[i + 1], kw_dirs()) {
                Err(e) => Err(e),
                Ok(dirs) => if !(dirs == 1 || dirs == 4 || dirs == 8) {
                    Err(FormatError::InvalidValue)
                } else {
                    match parse_num(lines[i + 2], kw_frames()) {
                        Err(e) => Err(e),
                        Ok(frames) => if frames < 1 {
                            Err(FormatError::InvalidValue)
                        } else {
                            match strip_prefix(lines[i + 3], kw_delay()) {
                                Option::None => Err(FormatError::MissingField),
                                Option::Some(dv) => {
                                    let delays = split_on(dv, 44u8);
                                    if delays.len() != frames || !(forall|q: int|
                                        0 <= q < delays.len() ==> is_delay_token(
                                            #[trigger] delays[q],
                                        )) {
                                        Err(FormatError::InvalidValue)
                                    } else {
                                        match parse_num(lines[i + 4], kw_loop()) {
                                            Err(e) => Err(e),
                                            Ok(loop_count) => match parse_flag(
                                                lines[i + 5],
                                                kw_rewind(),
                                            ) {
                                                Err(e) => Err(e),
                                                Ok(rewind) => match parse_flag(
                                                    lines[i + 6],
                                                    kw_movement(),
                                                ) {
                                                    Err(e) => Err(e),
                                                    Ok(movement) => match strip_prefix(
                                                        lines[i + 7],
                                                        kw_hotspots(),
                                                    ) {
                                                        Option::None => Err(
                                                            FormatError::MissingField,
                                                        ),
                                                        Option::Some(hv) => {
                                                            let hotspots = split_on(hv, 44u8);
                                                            if hotspots.len() != frames {
                                                                Err(FormatError::InvalidValue)
                                                            } else {
                                                                let (extra, j) = parse_extras(
                                                                    lines,
                                                                    i + 8,
                                                                );
                                                                Ok(
                                                                    (
                                                                        StateMetaModel {
                                                                            name,
                                                                            dirs,
                                                                            frame_count: frames,
                                                                            delays,
                                                                            loop_count,
                                                                            rewind,
                                                                            movement,
                                                                            hotspots,
                                                                            extra,
                                                                        },
                                                                        j,
                                                                    ),
                                                                )
                                                            }
                                                        },
                                                    },
                                                },
                                            },
                                        }
                                    }
                                },
                            }
                        },
                    }
                },
            },
        }
    }
}

/// Parses state blocks from line `i` up to the end marker, which must be
/// the last line.
pub open spec fn parse_states(lines: Seq<Seq<u8>>, i: int) -> Result<
    Seq<StateMetaModel>,
    FormatError,
>
    decreases lines.len() - i,
{
    if i < 0 || i >= lines.len() {
        Err(FormatError::MissingField)
    } else if lines[i] == end_line() {
        if i == lines.len() - 1 {
            Ok(Seq::empty())
        } else {
            Err(FormatError::InvalidValue)
        }
    } else {
        match parse_state_block(lines, i) {
            Err(e) => Err(e),
            Ok((s, j)) => if i < j <= lines.len() {
                match parse_states(lines, j) {
                    Err(e) => Err(e),
                    Ok(rest) => Ok(seq![s] + rest),
                }
            } else {
                Err(FormatError::InvalidValue)
            },
        }
    }
}

/// Parses the whole metadata text: header line, version, width, height,
/// then state blocks up to the end marker.
pub open spec fn parse_metadata_spec(text: Seq<u8>) -> Result<MetadataModel, FormatError> {
    let lines = split_on(text, 10u8);
    if lines.len() < 5 {
        Err(FormatError::MissingField)
    } else if lines[0] != begin_line() {
        Err(FormatError::InvalidValue)
    } else {
        match strip_prefix(lines[1], kw_version()) {
            Option::None => Err(FormatError::MissingField),
            Option::Some(version) => match parse_num(lines[2], kw_width()) {
                Err(e) => Err(e),
                Ok(width) => match parse_num(lines[3], kw_height()) {
                    Err(e) => Err(e),
                    Ok(height) => match parse_states(lines, 4) {
                        Err(e) => Err(e),
                        Ok(states) => Ok(MetadataModel { version, width, height, states }),
                    },
                },
            },
        }
    }
}

// ---------------------------------------------------------------------------
// Executable keyword builders
// ---------------------------------------------------------------------------

/// Builds the `begin_line` byte string.
fn lit_begin() -> (r: Vec<u8>)
    ensures
        r@ == begin_line(),
{
    let mut v: Vec<u8> = Vec::new();
    v.push(35);
    v.push(32);
    v.push(66);
    v.push(69);
    v.push(71);
    v.push(73);
    v.push(78);
    v.push(32);
    v.push(68);
    v.push(77);
    v.push(73);
    proof {
        assert(v@ =~= begin_line());
    }
    v
}

/// Builds the `end_line` byte string.
fn lit_end() -> (r: Vec<u8>)
    ensures
        r@ == end_line(),
{
    let mut v: Vec<u8> = Vec::new();
    v.push(35);
    v.push(32);
    v.push(69);
    v.push(78);
    v.push(68);
    v.push(32);
    v.push(68);
    v.push(77);
    v.push(73);
    proof {
        assert(v@ =~= end_line());
    }
    v
}

/// Builds the `kw_version` byte string.
fn lit_version() -> (r: Vec<u8>)
    ensures
        r@ == kw_version(),
{
    let mut v: Vec<u8> = Vec::new();
    v.push(118);
    v.push(101);
    v.push(114);
    v.push(115);
    v.push(105);
    v.push(111);
    v.push(110);
    v.push(32);
    v.push(61);
    v.push(32);
    proof {
        assert(v@ =~= kw_version());
    }
    v
}

/// Builds the `kw_width` byte string.
fn lit_width() -> (r: Vec<u8>)
    ensures
        r@ == kw_width(),
{
    let mut v: Vec<u8> = Vec::new();
    v.push(9);
    v.push(119);
    v.push(105);
    v.push(100);
    v.push(116);
    v.push(104);
    v.push(32);
    v.push(61);
    v.push(32);
    proof {
        assert(v@ =~= kw_width());
    }
    v
}

/// Builds the `kw_height` byte string.
fn lit_height() -> (r: Vec<u8>)
    ensures
        r@ == kw_height(),
{
    let mut v: Vec<u8> = Vec::new();
    v.push(9);
    v.push(104);
    v.push(101);
    v.push(105);
    v.push(103);
    v.push(104);
    v.push(116);
    v.push(32);
    v.push(61);
    v.push(32);
    proof {
        assert(v@ =~= kw_height());
    }
    v
}

/// Builds the `kw_state` byte string.
fn lit_state() -> (r: Vec<u8>)
    ensures
        r@ == kw_state(),
{
    let mut v: Vec<u8> = Vec::new();
    v.push(115);
    v.push(116);
    v.push(97);
    v.push(116);
    v.push(101);
    v.push(32);
    v.push(61);
    v.push(32);
    v.push(34);
    proof {
        assert(v@ =~= kw_state());
    }
    v
}

/// Builds the `kw_dirs` byte string.
fn lit_dirs() -> (r: Vec<u8>)
    ensures
        r@ == kw_dirs(),
{
    let mut v: Vec<u8> = Vec::new();
    v.push(9);
    v.push(100);
    v.push(105);
    v.push(114);
    v.push(115);
    v.push(32);
    v.push(61);
    v.push(32);
    proof {
        assert(v@ =~= kw_dirs());
    }
    v
}

/// Builds the `kw_frames` byte string.
fn lit_frames() -> (r: Vec<u8>)
    ensures
        r@ == kw_frames(),
{
    let mut v: Vec<u8> = Vec::new();
    v.push(9);
    v.push(102);
    v.push(114);
    v.push(97);
    v.push(109);
    v.push(101);
    v.push(115);
    v.push(32);
    v.push(61);
    v.push(32);
    proof {
        assert(v@ =~= kw_frames());
    }
    v
}

/// Builds the `kw_delay` byte string.
fn lit_delay() -> (r: Vec<u8>)
    ensures
        r@ == kw_delay(),
{
    let mut v: Vec<u8> = Vec::new();
    v.push(9);
    v.push(100);
    v.push(101);
    v.push(108);
    v.push(97);
    v.push(121);
    v.push(32);
    v.push(61);
    v.push(32);
    proof {
        assert(v@ =~= kw_delay());
    }
    v
}

/// Builds the `kw_loop` byte string.
fn lit_loopkw() -> (r: Vec<u8>)
    ensures
        r@ == kw_loop(),
{
    let mut v: Vec<u8> = Vec::new();
    v.push(9);
    v.push(108);
    v.push(111);
    v.push(111);
    v.push(112);
    v.push(32);
    v.push(61);
    v.push(32);
    proof {
        assert(v@ =~= kw_loop());
    }
    v
}

/// Builds the `kw_rewind` byte string.
fn lit_rewind() -> (r: Vec<u8>)
    ensures
        r@ == kw_rewind(),
{
    let mut v: Vec<u8> = Vec::new();
    v.push(9);
    v.push(114);
    v.push(101);
    v.push(119);
    v.push(105);
    v.push(110);
    v.push(100);
    v.push(32);
    v.push(61);
    v.push(32);
    proof {
        assert(v@ =~= kw_rewind());
    }
    v
}

/// Builds the `kw_movement` byte string.
fn lit_movement() -> (r: Vec<u8>)
    ensures
        r@ == kw_movement(),
{
    let mut v: Vec<u8> = Vec::new();
    v.push(9);
    v.push(109);
    v.push(111);
    v.push(118);
    v.push(101);
    v.push(109);
    v.push(101);
    v.push(110);
    v.push(116);
    v.push(32);
    v.push(61);
    v.push(32);
    proof {
        assert(v@ =~= kw_movement());
    }
    v
}

/// Builds the `kw_hotspots` byte string.
fn lit_hotspots() -> (r: Vec<u8>)
    ensures
        r@ == kw_hotspots(),
{
    let mut v: Vec<u8> = Vec::new();
    v.push(9);
    v.push(104);
    v.push(111);
    v.push(116);
    v.push(115);
    v.push(112);
    v.push(111);
    v.push(116);
    v.push(115);
    v.push(32);
    v.push(61);
    v.push(32);
    proof {
        assert(v@ =~= kw_hotspots());
    }
    v
}

// ---------------------------------------------------------------------------
// Executable serialization
// ---------------------------------------------------------------------------

/// Copies a byte vector.
pub fn clone_bytes(v: &Vec<u8>) -> (r: Vec<u8>)
    ensures
        r@ == v@,
{
    let r = subvec(v, 0, v.len());
    proof {
        assert(v@.subrange(0, v@.len() as int) =~= v@);
    }
    r
}

/// A directive line: keyword followed by the value.
fn directive(kw: Vec<u8>, value: &Vec<u8>) -> (r: Vec<u8>)
    ensures
        r@ == kw@ + value@,
{
    let mut l = kw;
    crate::bytes::extend_bytes(&mut l, value);
    l
}

fn bool_vec(b: bool) -> (r: Vec<u8>)
    ensures
        r@ == bool_byte(b),
{
    let mut v: Vec<u8> = Vec::new();
    if b {
        v.push(49);
        proof {
            assert(v@ =~= bool_byte(b));
        }
    } else {
        v.push(48);
        proof {
            assert(v@ =~= bool_byte(b));
        }
    }
    v
}

/// Serializes one state block into its lines.
#[verifier::loop_isolation(false)]
fn state_lines_exec(s: &StateMeta) -> (r: Vec<Vec<u8>>)
    ensures
        r.deep_view() == state_lines(s@),
{
    let mut out: Vec<Vec<u8>> = Vec::new();
    let mut name_line = lit_state();
    crate::bytes::extend_bytes(&mut name_line, &s.name);
    name_line.push(34);
    proof {
        assert(name_line@ =~= state_name_line(s@.name));
    }
    out.push(name_line);
    out.push(directive(lit_dirs(), &dec_of_u32(s.dirs)));
    out.push(directive(lit_frames(), &dec_of_u32(s.frame_count)));
    out.push(directive(lit_delay(), &join_on_exec(&s.delays, 44)));
    out.push(directive(lit_loopkw(), &dec_of_u32(s.loop_count)));
    out.push(directive(lit_rewind(), &bool_vec(s.rewind)));
    out.push(directive(lit_movement(), &bool_vec(s.movement)));
    out.push(directive(lit_hotspots(), &join_on_exec(&s.hotspots, 44)));
    let ghost first8 = out.deep_view();
    proof {
        assert(first8 =~~= state_lines(s@).subrange(0, 8));
    }
    let mut i: usize = 0;
    while i < s.extra.len()
        invariant
            i <= s.extra@.len(),
            out.deep_view() == first8 + s.extra.deep_view().subrange(0, i as int),
        decreases s.extra@.len() - i,
    {
        let ghost pre = out.deep_view();
        out.push(clone_bytes(&s.extra[i]));
        proof {
            assert(out.deep_view() =~~= pre + seq![s.extra@[i as int]@]);
            assert(out.deep_view() =~~= first8 + s.extra.deep_view().subrange(0, i + 1));
        }
        i = i + 1;
    }
    proof {
        assert(s.extra.deep_view().subrange(0, s.extra@.len() as int) =~= s.extra.deep_view());
        assert(out.deep_view() =~~= state_lines(s@));
    }
    out
}

/// Unfolds a state list's lines at its last state.
pub proof fn lemma_states_lines_snoc(ss: Seq<StateMetaModel>)
    requires
        ss.len() >= 1,
    ensures
        states_lines(ss) == states_lines(ss.drop_last()) + state_lines(ss.last()),
    decreases ss.len(),
{
    if ss.len() == 1 {
        assert(states_lines(ss.drop_first()) =~~= Seq::<Seq<u8>>::empty());
        assert(states_lines(ss.drop_last()) =~~= Seq::<Seq<u8>>::empty());
        assert(states_lines(ss) =~~= states_lines(ss.drop_last()) + state_lines(ss.last()));
    } else {
        lemma_states_lines_snoc(ss.drop_first());
        assert(ss.drop_first().drop_last() =~= ss.drop_last().drop_first());
        assert(ss.drop_first().last() == ss.last());
        assert(ss.drop_last()[0] == ss[0]);
        assert(states_lines(ss) =~~= states_lines(ss.drop_last()) + state_lines(ss.last()));
    }
}

/// Serializes the whole metadata document.
#[verifier::loop_isolation(false)]
pub fn serialize_metadata(m: &Metadata) -> (r: Vec<u8>)
    ensures
        r@ == serialize_metadata_spec(m@),
{
    let mut lines: Vec<Vec<u8>> = Vec::new();
    lines.push(lit_begin());
    lines.push(directive(lit_version(), &m.version));
    lines.push(directive(lit_width(), &dec_of_u32(m.width)));
    lines.push(directive(lit_height(), &dec_of_u32(m.height)));
    let ghost header = lines.deep_view();
    proof {
        assert(header =~~= metadata_lines(m@).subrange(0, 4));
        assert(states_lines(m@.states.subrange(0, 0)) =~~= Seq::<Seq<u8>>::empty());
        assert(lines.deep_view() =~~= header + states_lines(m@.states.subrange(0, 0)));
    }
    let mut i: usize = 0;
    while i < m.states.len()
        invariant
            i <= m.states@.len(),
            m@.states.len() == m.states@.len(),
            header.len() == 4,
            lines.deep_view() == header + states_lines(m@.states.subrange(0, i as int)),
            forall|q: int| 0 <= q < m.states@.len() ==> m@.states[q] == #[trigger] m.states@[q]@,
        decreases m.states@.len() - i,
    {
        let sl = state_lines_exec(&m.states[i]);
        let mut j: usize = 0;
        let ghost pre = lines.deep_view();
        while j < sl.len()
            invariant
                j <= sl@.len(),
                sl.deep_view() == state_lines(m.states@[i as int]@),
                i < m.states@.len(),
                lines.deep_view() == pre + sl.deep_view().subrange(0, j as int),
            decreases sl@.len() - j,
        {
            let ghost mid = lines.deep_view();
            lines.push(clone_bytes(&sl[j]));
            proof {
                assert(lines.deep_view() =~~= mid + seq![sl@[j as int]@]);
                assert(lines.deep_view() =~~= pre + sl.deep_view().subrange(0, j + 1));
            }
            j = j + 1;
        }
        proof {
            assert(sl.deep_view().subrange(0, sl@.len() as int) =~= sl.deep_view());
            lemma_states_lines_snoc(m@.states.subrange(0, i + 1));
            assert(m@.states.subrange(0, i + 1).drop_last() =~= m@.states.subrange(0, i as int));
            assert(m@.states.subrange(0, i + 1).last() == m@.states[i as int]);
            assert(m@.states[i as int] == m.states@[i as int]@);
            assert(lines.deep_view() =~~= header + states_lines(m@.states.subrange(0, i + 1)));
        }
        i = i + 1;
    }
    let ghost pre_end = lines.deep_view();
    lines.push(lit_end());
    proof {
        assert(lines.deep_view() =~~= pre_end + seq![end_line()]);
        assert(m@.states.subrange(0, m@.states.len() as int) =~= m@.states);
        assert(lines.deep_view() =~~= metadata_lines(m@));
    }
    join_on_exec(&lines, 10)
}

// ---------------------------------------------------------------------------
// Executable parsing
// ---------------------------------------------------------------------------

/// Strips a directive keyword off a line.
fn strip_prefix_exec(line: &Vec<u8>, kw: &Vec<u8>) -> (r: Option<Vec<u8>>)
    ensures
        match r {
            Option::Some(v) => strip_prefix(line@, kw@) == Option::Some(v@),
            Option::None => strip_prefix(line@, kw@) is None,
        },
{
    if starts_with_exec(line, kw) {
        Some(subvec(line, kw.len(), line.len()))
    } else {
        None
    }
}

/// Parses a numeric directive.
fn parse_num_exec(line: &Vec<u8>, kw: &Vec<u8>) -> (r: Result<u32, FormatError>)
    ensures
        r == parse_num(line@, kw@),
{
    match strip_prefix_exec(line, kw) {
        Option::None => Err(FormatError::MissingField),
        Option::Some(v) => match parse_u32(&v) {
            Option::Some(n) => Ok(n),
            Option::None => Err(FormatError::InvalidValue),
        },
    }
}

/// Parses a flag directive.
fn parse_flag_exec(line: &Vec<u8>, kw: &Vec<u8>) -> (r: Result<bool, FormatError>)
    ensures
        r == parse_flag(line@, kw@),
{
    match strip_prefix_exec(line, kw) {
        Option::None => Err(FormatError::MissingField),
        Option::Some(v) => {
            let one = bool_vec(true);
            let zero = bool_vec(false);
            if bytes_eq(&v, &one) {
                Ok(true)
            } else if bytes_eq(&v, &zero) {
                Ok(false)
            } else {
                Err(FormatError::InvalidValue)
            }
        },
    }
}

/// Parses a state's name directive.
fn parse_name_exec(line: &Vec<u8>) -> (r: Option<Vec<u8>>)
    ensures
        match r {
            Option::Some(v) => parse_name(line@) == Option::Some(v@),
            Option::None => parse_name(line@) is None,
        },
{
    let kw = lit_state();
    if starts_with_exec(line, &kw) && line.len() > kw.len() && line[line.len() - 1] == 34 {
        Some(subvec(line, kw.len(), line.len() - 1))
    } else {
        None
    }
}

/// Tests whether a delay token is a non-negative decimal number.
#[verifier::loop_isolation(false)]
fn is_delay_token_exec(s: &Vec<u8>) -> (r: bool)
    ensures
        r == is_delay_token(s@),
{
    if s.len() == 0 {
        return false;
    }
    let mut dots: u32 = 0;
    let mut i: usize = 0;
    while i < s.len()
        invariant
            i <= s@.len(),
            forall|q: int| 0 <= q < i ==> is_digit(#[trigger] s@[q]) || s@[q] == 46u8,
            (dots == 0) == (forall|q: int| 0 <= q < i ==> s@[q] != 46u8),
            forall|a: int, b2: int| 0 <= a < b2 < i && s@[a] == 46u8 ==> s@[b2] != 46u8,
        decreases s@.len() - i,
    {
        let b = s[i];
        if b == 46 {
            if dots > 0 {
                proof {
                    let w = choose|q: int| 0 <= q < i && s@[q] == 46u8;
                    assert(s@[w] == 46u8 && s@[i as int] == 46u8 && w < i as int);
                }
                return false;
            }
            dots = 1;
        } else if b < 48 || b > 57 {
            return false;
        }
        i = i + 1;
    }
    proof {
        assert forall|a: int, b2: int| 0 <= a < b2 < s@.len() && s@[a] == 46u8 implies s@[b2]
            != 46u8 by {
            if s@[b2] == 46u8 {
                assert(dots == 0 ==> s@[a] != 46u8);
            }
        }
    }
    true
}

/// Collects unknown directive lines up to the next state start or the end
/// marker.
#[verifier::loop_isolation(false)]
fn parse_extras_exec(lines: &Vec<Vec<u8>>, j: usize) -> (r: (Vec<Vec<u8>>, usize))
    requires
        j <= lines@.len(),
    ensures
        r.0.deep_view() == parse_extras(lines.deep_view(), j as int).0,
        r.1 as int == parse_extras(lines.deep_view(), j as int).1,
        j <= r.1 <= lines@.len(),
    decreases lines@.len() - j,
{
    let ghost dv = lines.deep_view();
    if j >= lines.len() {
        let out: Vec<Vec<u8>> = Vec::new();
        proof {
            assert(out.deep_view() =~~= parse_extras(dv, j as int).0);
        }
        return (out, j);
    }
    let endl = lit_end();
    let kw = lit_state();
    proof {
        assert(dv[j as int] == lines@[j as int]@);
    }
    if bytes_eq(&lines[j], &endl) || starts_with_exec(&lines[j], &kw) {
        let out: Vec<Vec<u8>> = Vec::new();
        proof {
            assert(out.deep_view() =~~= parse_extras(dv, j as int).0);
        }
        return (out, j);
    }
    let (rest, k) = parse_extras_exec(lines, j + 1);
    let mut out: Vec<Vec<u8>> = Vec::new();
    out.push(clone_bytes(&lines[j]));
    let mut q: usize = 0;
    while q < rest.len()
        invariant
            q <= rest@.len(),
            out.deep_view() == seq![dv[j as int]] + rest.deep_view().subrange(0, q as int),
        decreases rest@.len() - q,
    {
        let ghost pre = out.deep_view();
        out.push(clone_bytes(&rest[q]));
        proof {
            assert(out.deep_view() =~~= pre + seq![rest@[q as int]@]);
            assert(out.deep_view() =~~= seq![dv[j as int]] + rest.deep_view().subrange(
                0,
                q + 1,
            ));
        }
        q = q + 1;
    }
    proof {
        assert(rest.deep_view().subrange(0, rest@.len() as int) =~= rest.deep_view());
        assert(out.deep_view() =~~= parse_extras(dv, j as int).0);
    }
    (out, k)
}

/// Parses one state block starting at line `i`.
#[verifier::loop_isolation(false)]
pub fn parse_state_block_exec(lines: &Vec<Vec<u8>>, i: usize) -> (r: Result<
    (StateMeta, usize),
    FormatError,
>)
    requires
        i <= lines@.len(),
    ensures
        match r {
            Ok(p) => parse_state_block(lines.deep_view(), i as int) == Ok::<_, FormatError>(
                (p.0@, p.1 as int),
            ) && i < p.1 <= lines@.len(),
            Err(e) => parse_state_block(lines.deep_view(), i as int) == Err::<
                (StateMetaModel, int),
                _,
            >(e),
        },
{
    let ghost dv = lines.deep_view();
    if lines.len() - i < 8 {
        return Err(FormatError::MissingField);
    }
    proof {
        assert(dv[i as int] == lines@[i as int]@);
        assert(dv[i as int + 1] == lines@[i as int + 1]@);
        assert(dv[i as int + 2] == lines@[i as int + 2]@);
        assert(dv[i as int + 3] == lines@[i as int + 3]@);
        assert(dv[i as int + 4] == lines@[i as int + 4]@);
        assert(dv[i as int + 5] == lines@[i as int + 5]@);
        assert(dv[i as int + 6] == lines@[i as int + 6]@);
        assert(dv[i as int + 7] == lines@[i as int + 7]@);
    }
    let name = match parse_name_exec(&lines[i]) {
        Option::Some(n) => n,
        Option::None => {
            return Err(FormatError::MissingField);
        },
    };
    let dirs = match parse_num_exec(&lines[i + 1], &lit_dirs()) {
        Ok(d) => d,
        Err(e) => {
            return Err(e);
        },
    };
    if !(dirs == 1 || dirs == 4 || dirs == 8) {
        return Err(FormatError::InvalidValue);
    }
    let frames = match parse_num_exec(&lines[i + 2], &lit_frames()) {
        Ok(f) => f,
        Err(e) => {
            return Err(e);
        },
    };
    if frames < 1 {
        return Err(FormatError::InvalidValue);
    }
    let dv2 = match strip_prefix_exec(&lines[i + 3], &lit_delay()) {
        Option::Some(v) => v,
        Option::None => {
            return Err(FormatError::MissingField);
        },
    };
    let delays = split_on_exec(&dv2, 44);
    if delays.len() as u64 != frames as u64 {
        return Err(FormatError::InvalidValue);
    }
    let mut q: usize = 0;
    while q < delays.len()
        invariant
            q <= delays@.len(),
            forall|t: int| 0 <= t < q ==> is_delay_token(#[trigger] delays.deep_view()[t]),
        decreases delays@.len() - q,
    {
        if !is_delay_token_exec(&delays[q]) {
            proof {
                assert(delays.deep_view()[q as int] == delays@[q as int]@);
            }
            return Err(FormatError::InvalidValue);
        }
        proof {
            assert(delays.deep_view()[q as int] == delays@[q as int]@);
        }
        q = q + 1;
    }
    let loop_count = match parse_num_exec(&lines[i + 4], &lit_loopkw()) {
        Ok(n) => n,
        Err(e) => {
            return Err(e);
        },
    };
    let rewind = match parse_flag_exec(&lines[i + 5], &lit_rewind()) {
        Ok(b) => b,
        Err(e) => {
            return Err(e);
        },
    };
    let movement = match parse_flag_exec(&lines[i + 6], &lit_movement()) {
        Ok(b) => b,
        Err(e) => {
            return Err(e);
        },
    };
    let hv = match strip_prefix_exec(&lines[i + 7], &lit_hotspots()) {
        Option::Some(v) => v,
        Option::None => {
            return Err(FormatError::MissingField);
        },
    };
    let hotspots = split_on_exec(&hv, 44);
    if hotspots.len() as u64 != frames as u64 {
        return Err(FormatError::InvalidValue);
    }
    let (extra, j) = parse_extras_exec(lines, i + 8);
    let s = StateMeta {
        name,
        dirs,
        frame_count: frames,
        delays,
        loop_count,
        rewind,
        movement,
        hotspots,
        extra,
    };
    Ok((s, j))
}

/// The models of a vector of states.
pub open spec fn states_views(v: Seq<StateMeta>) -> Seq<StateMetaModel> {
    Seq::new(v.len(), |i: int| v[i]@)
}

/// Parses state blocks from line `i` up to the end marker.
#[verifier::loop_isolation(false)]
pub fn parse_states_exec(lines: &Vec<Vec<u8>>, i: usize) -> (r: Result<Vec<StateMeta>, FormatError>)
    requires
        i <= lines@.len(),
    ensures
        match r {
            Ok(ss) => parse_states(lines.deep_view(), i as int) == Ok::<_, FormatError>(
                states_views(ss@),
            ),
            Err(e) => parse_states(lines.deep_view(), i as int) == Err::<Seq<StateMetaModel>, _>(
                e,
            ),
        },
    decreases lines@.len() - i,
{
    let ghost dv = lines.deep_view();
    if i >= lines.len() {
        return Err(FormatError::MissingField);
    }
    proof {
        assert(dv[i as int] == lines@[i as int]@);
    }
    let endl = lit_end();
    if bytes_eq(&lines[i], &endl) {
        if i == lines.len() - 1 {
            let out: Vec<StateMeta> = Vec::new();
            proof {
                assert(states_views(out@) =~= Seq::<StateMetaModel>::empty());
            }
            return Ok(out);
        } else {
            return Err(FormatError::InvalidValue);
        }
    }
    match parse_state_block_exec(lines, i) {
        Err(e) => Err(e),
        Ok((s, j)) => match parse_states_exec(lines, j) {
            Err(e) => Err(e),
            Ok(rest) => {
                let ghost s_view = s@;
                let ghost rest_views = states_views(rest@);
                let mut out: Vec<StateMeta> = Vec::new();
                out.push(s);
                let mut rem = rest;
                while rem.len() > 0
                    invariant
                        states_views(out@) + states_views(rem@) =~= seq![s_view] + rest_views,
                    decreases rem@.len(),
                {
                    let ghost pre_out = out@;
                    let ghost pre_rem = rem@;
                    let x = rem.remove(0);
                    out.push(x);
                    proof {
                        assert(states_views(out@) =~= states_views(pre_out) + seq![
                            pre_rem[0]@,
                        ]);
                        assert(states_views(rem@) =~= states_views(pre_rem).drop_first());
                        assert(states_views(pre_rem) == seq![pre_rem[0]@] + states_views(
                            pre_rem,
                        ).drop_first()) by {
                            assert(states_views(pre_rem) =~= seq![pre_rem[0]@] + states_views(
                                pre_rem,
                            ).drop_first());
                        }
                        assert(states_views(out@) + states_views(rem@) =~= seq![s_view]
                            + rest_views);
                    }
                }
                proof {
                    assert(states_views(rem@) =~= Seq::<StateMetaModel>::empty());
                    assert(states_views(out@) =~= seq![s_view] + rest_views);
                }
                Ok(out)
            },
        },
    }
}

// ---------------------------------------------------------------------------
// Top-level parsing
// ---------------------------------------------------------------------------

/// Parses the whole metadata text.
#[verifier::loop_isolation(false)]
pub fn parse_metadata(text: &Vec<u8>) -> (r: Result<Metadata, FormatError>)
    ensures
        match r {
            Ok(m) => parse_metadata_spec(text@) == Ok::<_, FormatError>(m@),
            Err(e) => parse_metadata_spec(text@) == Err::<MetadataModel, _>(e),
        },
{
    let lines = split_on_exec(text, 10);
    let ghost dv = lines.deep_view();
    if lines.len() < 5 {
        return Err(FormatError::MissingField);
    }
    proof {
        assert(dv[0] == lines@[0]@);
        assert(dv[1] == lines@[1]@);
        assert(dv[2] == lines@[2]@);
        assert(dv[3] == lines@[3]@);
    }
    if !bytes_eq(&lines[0], &lit_begin()) {
        return Err(FormatError::InvalidValue);
    }
    let version = match strip_prefix_exec(&lines[1], &lit_version()) {
        Option::Some(v) => v,
        Option::None => {
            return Err(FormatError::MissingField);
        },
    };
    let width = match parse_num_exec(&lines[2], &lit_width()) {
        Ok(n) => n,
        Err(e) => {
            return Err(e);
        },
    };
    let height = match parse_num_exec(&lines[3], &lit_height()) {
        Ok(n) => n,
        Err(e) => {
            return Err(e);
        },
    };
    match parse_states_exec(&lines, 4) {
        Err(e) => Err(e),
        Ok(states) => {
            let m = Metadata { version, width, height, states };
            proof {
                assert(m@.states =~= states_views(states@));
            }
            Ok(m)
        },
    }
}

// ---------------------------------------------------------------------------
// The grammar round trip
// ---------------------------------------------------------------------------

/// Stripping a keyword off a line built from it gives the value back.
proof fn lemma_strip_concat(kw: Seq<u8>, v: Seq<u8>)
    ensures
        strip_prefix(kw + v, kw) == Option::Some(v),
{
    let line = kw + v;
    assert(line.subrange(0, kw.len() as int) =~= kw);
    assert(line.subrange(kw.len() as int, line.len() as int) =~= v);
}

/// A numeric directive line round-trips.
proof fn lemma_parse_num_rt(kw: Seq<u8>, n: u32)
    ensures
        parse_num(kw + dec_bytes(n), kw) == Ok::<_, FormatError>(n),
{
    lemma_strip_concat(kw, dec_bytes(n));
    lemma_dec_bytes_digits(n);
    lemma_dec_round_trip(n);
}

/// A flag directive line round-trips.
proof fn lemma_parse_flag_rt(kw: Seq<u8>, b: bool)
    ensures
        parse_flag(kw + bool_byte(b), kw) == Ok::<_, FormatError>(b),
{
    lemma_strip_concat(kw, bool_byte(b));
    assert(bool_byte(true)[0] == 49u8);
    assert(bool_byte(false)[0] == 48u8);
    if b {
        assert(bool_byte(b) == seq![49u8]);
    } else {
        assert(bool_byte(b) != seq![49u8]) by {
            assert(bool_byte(b)[0] != seq![49u8][0]);
        }
        assert(bool_byte(b) == seq![48u8]);
    }
}

/// A name directive line round-trips, for names free of quotes.
proof fn lemma_parse_name_rt(name: Seq<u8>)
    requires
        no_byte(name, 34u8),
    ensures
        parse_name(state_name_line(name)) == Option::Some(name),
{
    let line = state_name_line(name);
    assert(line.subrange(0, kw_state().len() as int) =~= kw_state());
    assert(line.len() == kw_state().len() + name.len() + 1);
    assert(line.last() == 34u8);
    assert(line.subrange(kw_state().len() as int, line.len() - 1) =~= name);
}

/// Joining tokens with one separator introduces no other byte.
proof fn lemma_join_no_byte(items: Seq<Seq<u8>>, sep: u8, b: u8)
    requires
        sep != b,
        forall|i: int| 0 <= i < items.len() ==> no_byte(#[trigger] items[i], b),
    ensures
        no_byte(join_on(items, sep), b),
    decreases items.len(),
{
    if items.len() <= 1 {
    } else {
        assert(forall|i: int| 0 <= i < items.drop_first().len() ==> no_byte(
            #[trigger] items.drop_first()[i], b));
        lemma_join_no_byte(items.drop_first(), sep, b);
        let s = join_on(items, sep);
        assert(s == items[0] + seq![sep] + join_on(items.drop_first(), sep));
        assert forall|i: int| 0 <= i < s.len() implies s[i] != b by {
            assert(no_byte(items[0], b));
        }
    }
}

/// A delay token holds no comma and no line break.
proof fn lemma_delay_token_clean(s: Seq<u8>)
    requires
        is_delay_token(s),
    ensures
        no_byte(s, 44u8),
        no_byte(s, 10u8),
{
    assert forall|i: int| 0 <= i < s.len() implies s[i] != 44u8 && s[i] != 10u8 by {
        assert(is_digit(s[i]) || s[i] == 46u8);
    }
}

/// Decimal digits hold no line break.
proof fn lemma_dec_clean(n: u32)
    ensures
        no_byte(dec_bytes(n), 10u8),
{
    lemma_dec_bytes_digits(n);
    assert forall|i: int| 0 <= i < dec_bytes(n).len() implies dec_bytes(n)[i] != 10u8 by {
        assert(is_digit(dec_bytes(n)[i]));
    }
}

/// Every line a well-formed state serializes to is free of line breaks.
proof fn lemma_state_lines_clean(s: StateMetaModel)
    requires
        state_meta_wf(s),
    ensures
        forall|i: int| 0 <= i < state_lines(s).len() ==> no_byte(
            #[trigger] state_lines(s)[i],
            10u8,
        ),
{
    let ls = state_lines(s);
    assert forall|q: int| 0 <= q < s.delays.len() implies no_byte(#[trigger] s.delays[q], 44u8)
        && no_byte(s.delays[q], 10u8) by {
        lemma_delay_token_clean(s.delays[q]);
    }
    lemma_join_no_byte(s.delays, 44u8, 10u8);
    lemma_join_no_byte(s.hotspots, 44u8, 10u8);
    lemma_dec_clean(s.dirs);
    lemma_dec_clean(s.frame_count);
    lemma_dec_clean(s.loop_count);
    assert forall|i: int| 0 <= i < ls.len() implies no_byte(#[trigger] ls[i], 10u8) by {
        if i < 8 {
            assert(no_byte(kw_state(), 10u8)) by {
                assert forall|t: int| 0 <= t < kw_state().len() implies kw_state()[t] != 10u8 by {
                }
            }
            assert(no_byte(ls[0], 10u8)) by {
                assert forall|t: int| 0 <= t < ls[0].len() implies ls[0][t] != 10u8 by {
                    assert(ls[0] == kw_state() + s.name + seq![34u8]);
                }
            }
            assert(no_byte(ls[1], 10u8)) by {
                assert forall|t: int| 0 <= t < ls[1].len() implies ls[1][t] != 10u8 by {}
            }
            assert(no_byte(ls[2], 10u8)) by {
                assert forall|t: int| 0 <= t < ls[2].len() implies ls[2][t] != 10u8 by {}
            }
            assert(no_byte(ls[3], 10u8)) by {
                assert forall|t: int| 0 <= t < ls[3].len() implies ls[3][t] != 10u8 by {}
            }
            assert(no_byte(ls[4], 10u8)) by {
                assert forall|t: int| 0 <= t < ls[4].len() implies ls[4][t] != 10u8 by {}
            }
            assert(no_byte(ls[5], 10u8)) by {
                assert forall|t: int| 0 <= t < ls[5].len() implies ls[5][t] != 10u8 by {}
            }
            assert(no_byte(ls[6], 10u8)) by {
                assert forall|t: int| 0 <= t < ls[6].len() implies ls[6][t] != 10u8 by {}
            }
            assert(no_byte(ls[7], 10u8)) by {
                assert forall|t: int| 0 <= t < ls[7].len() implies ls[7][t] != 10u8 by {}
            }
        } else {
            assert(ls[i] == s.extra[i - 8]);
            assert(extra_clean(s.extra[i - 8]));
        }
    }
}

/// Collecting unknown lines stops exactly at the block boundary.
proof fn lemma_parse_extras_rt(lines: Seq<Seq<u8>>, j: int, extra: Seq<Seq<u8>>)
    requires
        0 <= j,
        j + extra.len() < lines.len(),
        forall|t: int| 0 <= t < extra.len() ==> #[trigger] lines[j + t] == extra[t],
        forall|t: int| 0 <= t < extra.len() ==> extra_clean(#[trigger] extra[t]),
        lines[j + extra.len()] == end_line() || starts_with(lines[j + extra.len()], kw_state()),
    ensures
        parse_extras(lines, j) == (extra, j + extra.len() as int),
    decreases extra.len(),
{
    if extra.len() == 0 {
        assert(parse_extras(lines, j) == (Seq::<Seq<u8>>::empty(), j));
        assert(extra =~= Seq::<Seq<u8>>::empty());
    } else {
        assert(lines[j + 0] == extra[0]);
        assert(lines[j] == extra[0]);
        assert(extra_clean(extra[0]));
        assert(lines[j] != end_line() && !starts_with(lines[j], kw_state()));
        let rest = extra.drop_first();
        assert forall|t: int| 0 <= t < rest.len() implies #[trigger] lines[j + 1 + t]
            == rest[t] by {
            assert(lines[j + (t + 1)] == extra[t + 1]);
        }
        assert forall|t: int| 0 <= t < rest.len() implies extra_clean(#[trigger] rest[t]) by {
            assert(rest[t] == extra[t + 1]);
        }
        assert(lines[j + 1 + rest.len()] == lines[j + extra.len()]);
        lemma_parse_extras_rt(lines, j + 1, rest);
        assert(parse_extras(lines, j).0 =~= seq![lines[j]] + rest);
        assert(seq![lines[j]] + rest =~= extra);
    }
}

/// A serialized state block parses back to exactly the state it came from.
proof fn lemma_parse_state_block_rt(lines: Seq<Seq<u8>>, i: int, s: StateMetaModel)
    requires
        state_meta_wf(s),
        0 <= i,
        i + state_block_len(s) < lines.len(),
        forall|t: int| 0 <= t < state_block_len(s) ==> #[trigger] lines[i + t] == state_lines(
            s,
        )[t],
        lines[i + state_block_len(s)] == end_line() || starts_with(
            lines[i + state_block_len(s)],
            kw_state(),
        ),
    ensures
        parse_state_block(lines, i) == Ok::<_, FormatError>((s, i + state_block_len(s))),
{
    let ls = state_lines(s);
    assert(lines[i + 0] == ls[0]);
    assert(lines[i + 1] == ls[1]);
    assert(lines[i + 2] == ls[2]);
    assert(lines[i + 3] == ls[3]);
    assert(lines[i + 4] == ls[4]);
    assert(lines[i + 5] == ls[5]);
    assert(lines[i + 6] == ls[6]);
    assert(lines[i + 7] == ls[7]);
    lemma_parse_name_rt(s.name);
    lemma_parse_num_rt(kw_dirs(), s.dirs);
    lemma_parse_num_rt(kw_frames(), s.frame_count);
    lemma_parse_num_rt(kw_loop(), s.loop_count);
    lemma_parse_flag_rt(kw_rewind(), s.rewind);
    lemma_parse_flag_rt(kw_movement(), s.movement);
    lemma_strip_concat(kw_delay(), join_on(s.delays, 44u8));
    lemma_strip_concat(kw_hotspots(), join_on(s.hotspots, 44u8));
    assert forall|q: int| 0 <= q < s.delays.len() implies no_byte(
        #[trigger] s.delays[q], 44u8) by {
        lemma_delay_token_clean(s.delays[q]);
    }
    lemma_split_join(s.delays, 44u8);
    lemma_split_join(s.hotspots, 44u8);
    assert forall|t: int| 0 <= t < s.extra.len() implies #[trigger] lines[i + 8 + t]
        == s.extra[t] by {
        assert(lines[i + (8 + t)] == ls[8 + t]);
        assert(ls[8 + t] == s.extra[t]);
    }
    lemma_parse_extras_rt(lines, i + 8, s.extra);
    assert(parse_extras(lines, i + 8) == (s.extra, i + state_block_len(s)));
}

/// A serialized state list parses back to exactly the states it came from.
proof fn lemma_parse_states_rt(lines: Seq<Seq<u8>>, i: int, ss: Seq<StateMetaModel>)
    requires
        0 <= i <= lines.len(),
        forall|q: int| 0 <= q < ss.len() ==> state_meta_wf(#[trigger] ss[q]),
        lines.subrange(i, lines.len() as int) == states_lines(ss) + seq![end_line()],
    ensures
        parse_states(lines, i) == Ok::<_, FormatError>(ss),
    decreases ss.len(),
{
    let tail = lines.subrange(i, lines.len() as int);
    if ss.len() == 0 {
        assert(states_lines(ss) =~~= Seq::<Seq<u8>>::empty());
        assert(tail =~~= seq![end_line()]);
        assert(tail.len() == 1);
        assert(lines[i] == tail[0]);
        assert(lines[i] == end_line());
        assert(i == lines.len() - 1);
        assert(ss =~= Seq::<StateMetaModel>::empty());
    } else {
        let s0 = ss[0];
        assert(state_meta_wf(s0));
        let rest = ss.drop_first();
        let bl = state_block_len(s0);
        assert(states_lines(ss) == state_lines(s0) + states_lines(rest));
        assert(state_lines(s0).len() == bl);
        assert(tail.len() == states_lines(ss).len() + 1);
        assert(states_lines(ss).len() == bl + states_lines(rest).len());
        assert(states_lines(rest).len() >= 0);
        assert forall|t: int| 0 <= t < bl implies #[trigger] lines[i + t] == state_lines(
            s0,
        )[t] by {
            assert(0 <= t < tail.len());
            assert(tail[t] == lines[t + i]);
            assert(tail[t] == (state_lines(s0) + states_lines(rest) + seq![end_line()])[t]);
            assert(lines[i + t] == tail[t]);
        }
        let j = i + bl;
        assert(j < lines.len()) by {
            assert(tail.len() == states_lines(ss).len() + 1);
        }
        let boundary = lines[j];
        assert(boundary == tail[bl]);
        if rest.len() == 0 {
            assert(states_lines(rest) =~~= Seq::<Seq<u8>>::empty());
            assert(tail[bl] == (state_lines(s0) + states_lines(rest) + seq![end_line()])[bl]);
            assert(boundary == end_line());
        } else {
            assert(states_lines(rest) == state_lines(rest[0]) + states_lines(rest.drop_first()));
            assert(states_lines(rest)[0] == state_lines(rest[0])[0]);
            assert(tail[bl] == states_lines(rest)[0]);
            assert(boundary == state_name_line(rest[0].name));
            assert(starts_with(boundary, kw_state())) by {
                assert(boundary.subrange(0, kw_state().len() as int) =~= kw_state());
            }
        }
        lemma_parse_state_block_rt(lines, i, s0);
        assert(lines[i] == state_name_line(s0.name));
        assert(lines[i] != end_line()) by {
            assert(state_name_line(s0.name)[0] == 115u8);
            assert(end_line()[0] == 35u8);
        }
        assert forall|q: int| 0 <= q < rest.len() implies state_meta_wf(#[trigger] rest[q]) by {
            assert(rest[q] == ss[q + 1]);
        }
        assert(lines.subrange(j, lines.len() as int) =~~= states_lines(rest) + seq![
            end_line(),
        ]) by {
            assert forall|t: int| 0 <= t < lines.len() - j implies lines.subrange(
                j,
                lines.len() as int,
            )[t] == (states_lines(rest) + seq![end_line()])[t] by {
                assert(lines.subrange(j, lines.len() as int)[t] == lines[t + j]);
                assert(0 <= bl + t < tail.len());
                assert(tail[bl + t] == lines[bl + t + i]);
                assert(lines[j + t] == tail[bl + t]);
                assert(tail[bl + t] == ((state_lines(s0) + states_lines(rest)) + seq![
                    end_line(),
                ])[bl + t]);
                assert(tail[bl + t] == (states_lines(rest) + seq![end_line()])[t]);
            }
        }
        lemma_parse_states_rt(lines, j, rest);
        assert(parse_states(lines, i) == Ok::<_, FormatError>(seq![s0] + rest));
        assert(seq![s0] + rest =~= ss);
    }
}

/// The grammar round trip: parsing what `serialize_metadata` wrote gives
/// the document back unchanged, for any well-formed document.
pub proof fn lemma_metadata_round_trip(m: MetadataModel)
    requires
        metadata_wf(m),
    ensures
        parse_metadata_spec(serialize_metadata_spec(m)) == Ok::<_, FormatError>(m),
{
    let all = metadata_lines(m);
    assert forall|i: int| 0 <= i < all.len() implies no_byte(#[trigger] all[i], 10u8) by {
        if i == 0 {
            assert forall|t: int| 0 <= t < all[0].len() implies all[0][t] != 10u8 by {
                assert(all[0] == begin_line());
            }
        } else if i == 1 {
            assert(all[1] == kw_version() + m.version);
            assert forall|t: int| 0 <= t < all[1].len() implies all[1][t] != 10u8 by {}
        } else if i == 2 {
            assert(all[2] == kw_width() + dec_bytes(m.width));
            lemma_dec_clean(m.width);
            assert forall|t: int| 0 <= t < all[2].len() implies all[2][t] != 10u8 by {}
        } else if i == 3 {
            assert(all[3] == kw_height() + dec_bytes(m.height));
            lemma_dec_clean(m.height);
            assert forall|t: int| 0 <= t < all[3].len() implies all[3][t] != 10u8 by {}
        } else if i == all.len() - 1 {
            assert(all[i] == (seq![end_line()])[0]);
            assert forall|t: int| 0 <= t < all[i].len() implies all[i][t] != 10u8 by {
                assert(all[i] == end_line());
            }
        } else {
            lemma_states_lines_all_clean(m.states, all[i], i - 4);
        }
    }
    lemma_split_join(all, 10u8);
    let lines = split_on(serialize_metadata_spec(m), 10u8);
    assert(lines == all);
    assert(all.len() >= 5);
    assert(lines[0] == begin_line());
    assert(lines[1] == kw_version() + m.version);
    lemma_strip_concat(kw_version(), m.version);
    assert(lines[2] == kw_width() + dec_bytes(m.width));
    lemma_parse_num_rt(kw_width(), m.width);
    assert(lines[3] == kw_height() + dec_bytes(m.height));
    lemma_parse_num_rt(kw_height(), m.height);
    assert(lines.subrange(4, lines.len() as int) =~~= states_lines(m.states) + seq![
        end_line(),
    ]);
    lemma_parse_states_rt(lines, 4, m.states);
}

/// A line of a state list's serialization is a line of one of its states.
proof fn lemma_states_lines_all_clean(ss: Seq<StateMetaModel>, line: Seq<u8>, t: int)
    requires
        forall|q: int| 0 <= q < ss.len() ==> state_meta_wf(#[trigger] ss[q]),
        0 <= t < states_lines(ss).len(),
        line == states_lines(ss)[t],
    ensures
        no_byte(line, 10u8),
    decreases ss.len(),
{
    if ss.len() > 0 {
        let first = state_lines(ss[0]);
        if t < first.len() {
            lemma_state_lines_clean(ss[0]);
            assert(states_lines(ss)[t] == first[t]);
        } else {
            assert(states_lines(ss)[t] == states_lines(ss.drop_first())[t - first.len()]);
            assert forall|q: int| 0 <= q < ss.drop_first().len() implies state_meta_wf(
                #[trigger] ss.drop_first()[q]) by {
                assert(ss.drop_first()[q] == ss[q + 1]);
            }
            lemma_states_lines_all_clean(ss.drop_first(), line, t - first.len());
        }
    }
}

/// Every state a parse accepts carries one delay and one hotspot per frame;
/// a list whose length disagrees with the frame count is rejected as an
/// invalid value.
pub proof fn lemma_parsed_state_counts(lines: Seq<Seq<u8>>, i: int, s: StateMetaModel, j: int)
    requires
        parse_state_block(lines, i) == Ok::<_, FormatError>((s, j)),
    ensures
        s.delays.len() == s.frame_count,
        s.hotspots.len() == s.frame_count,
        s.frame_count >= 1,
{
}

} // verus!
