//! LIN Description File (LDF) parser for LIN 2.x files: protocol and
//! language versions, bus speed, nodes, signals, frames and schedule
//! tables.
//!
//! The parser works on the text of the file. The only numbers it does not
//! read itself are the decimal values of signal initial values and
//! schedule delays, which the format allows to be written as floating
//! point numbers: `decimal_tokens` lists those tokens in the order the
//! parser meets them, and `parse` takes their values in that order.

use vstd::prelude::*;
use vstd::arithmetic::power2::{pow2, lemma_pow2_pos, lemma_pow2_unfold};
use vstd::bits::{lemma_u64_pow2_no_overflow, lemma_u64_shl_is_mul};

use crate::chars::{
    lemma_find_char_range,
    contains, cut_comment, ends_with, eq_ignore_case, equals_ignore_case, find, find_char,
    has_prefix, has_suffix, parse_radix, parse_radix_chars, slice_of, split_at_char, split_char,
    split_whitespace, split_ws, splitn_at_char, splitn_char, starts_with, string_of,
    strip_comment, to_chars, trim, trim_chars, trim_end_char, trim_end_matches_char,
    trim_start_matches, trim_start_str,
};
use crate::frame::ScheduleEntry;
use crate::keyed::{Keyed, keyed_map, distinct_keys, lemma_keyed_same};
use std::collections::HashMap;

verus! {

broadcast use {vstd::string::group_string_axioms, vstd::std_specs::hash::group_hash_axioms};

// ---------------------------------------------------------------------------
// Public types
// ---------------------------------------------------------------------------

/// A signal placed in a frame at a bit offset.
#[derive(Debug)]
pub struct SignalRef {
    /// Signal name.
    pub name: String,
    /// Offset of the signal's least significant bit in the frame data.
    pub bit_offset: usize,
}

/// A frame as declared in the `Frames` section.
#[derive(Debug)]
pub struct Frame {
    /// Frame name.
    pub name: String,
    /// Frame identifier (0 to 0x3F).
    pub id: u8,
    /// Publisher node name.
    pub publisher: String,
    /// Declared data length in bytes.
    pub length: usize,
    /// Signals carried in the frame, in declaration order.
    pub signals: Vec<SignalRef>,
}

/// A signal as declared in the `Signals` section.
#[derive(Debug)]
pub struct Signal {
    /// Signal name.
    pub name: String,
    /// Width in bits.
    pub bit_width: usize,
    /// Initial value.
    pub init_value: u64,
    /// Publisher node name.
    pub publisher: String,
    /// Subscriber node names.
    pub subscribers: Vec<String>,
}

/// What a `SignalRef` holds.
#[verifier::ext_equal]
pub struct SignalRefView {
    pub name: Seq<char>,
    pub bit_offset: usize,
}

/// What an LDF `Frame` holds.
#[verifier::ext_equal]
pub struct FrameView {
    pub name: Seq<char>,
    pub id: u8,
    pub publisher: Seq<char>,
    pub length: usize,
    pub signals: Seq<SignalRefView>,
}

/// What a `Signal` holds.
#[verifier::ext_equal]
pub struct SignalView {
    pub name: Seq<char>,
    pub bit_width: usize,
    pub init_value: u64,
    pub publisher: Seq<char>,
    pub subscribers: Seq<Seq<char>>,
}

impl View for SignalRef {
    type V = SignalRefView;

    open spec fn view(&self) -> SignalRefView {
        SignalRefView { name: self.name@, bit_offset: self.bit_offset }
    }
}

impl View for Frame {
    type V = FrameView;

    open spec fn view(&self) -> FrameView {
        FrameView {
            name: self.name@,
            id: self.id,
            publisher: self.publisher@,
            length: self.length,
            signals: self.signals@.map_values(|r: SignalRef| r@),
        }
    }
}

impl View for Signal {
    type V = SignalView;

    open spec fn view(&self) -> SignalView {
        SignalView {
            name: self.name@,
            bit_width: self.bit_width,
            init_value: self.init_value,
            publisher: self.publisher@,
            subscribers: self.subscribers@.map_values(|s: String| s@),
        }
    }
}

impl Clone for SignalRef {
    fn clone(&self) -> (r: Self)
        ensures
            r@ == self@,
    {
        SignalRef { name: self.name.clone(), bit_offset: self.bit_offset }
    }
}

fn clone_refs(v: &Vec<SignalRef>) -> (r: Vec<SignalRef>)
    ensures
        r@.map_values(|x: SignalRef| x@) == v@.map_values(|x: SignalRef| x@),
{
    let mut out: Vec<SignalRef> = Vec::new();
    let mut i: usize = 0;
    while i < v.len()
        invariant
            i <= v@.len(),
            out@.len() == i,
            forall|j: int| 0 <= j < i ==> #[trigger] out@[j]@ == v@[j]@,
        decreases v.len() - i,
    {
        out.push(v[i].clone());
        i = i + 1;
    }
    assert(out@.map_values(|x: SignalRef| x@) =~= v@.map_values(|x: SignalRef| x@));
    out
}

fn clone_strings(v: &Vec<String>) -> (r: Vec<String>)
    ensures
        r@.map_values(|x: String| x@) == v@.map_values(|x: String| x@),
{
    let mut out: Vec<String> = Vec::new();
    let mut i: usize = 0;
    while i < v.len()
        invariant
            i <= v@.len(),
            out@.len() == i,
            forall|j: int| 0 <= j < i ==> #[trigger] out@[j]@ == v@[j]@,
        decreases v.len() - i,
    {
        out.push(v[i].clone());
        i = i + 1;
    }
    assert(out@.map_values(|x: String| x@) =~= v@.map_values(|x: String| x@));
    out
}

impl Clone for Frame {
    fn clone(&self) -> (r: Self)
        ensures
            r@ == self@,
    {
        Frame {
            name: self.name.clone(),
            id: self.id,
            publisher: self.publisher.clone(),
            length: self.length,
            signals: clone_refs(&self.signals),
        }
    }
}

impl Clone for Signal {
    fn clone(&self) -> (r: Self)
        ensures
            r@ == self@,
    {
        Signal {
            name: self.name.clone(),
            bit_width: self.bit_width,
            init_value: self.init_value,
            publisher: self.publisher.clone(),
            subscribers: clone_strings(&self.subscribers),
        }
    }
}

// ---------------------------------------------------------------------------
// Numbers
// ---------------------------------------------------------------------------

/// A number's text: without trailing `;` and surrounding white space.
pub open spec fn number_text(s: Seq<char>) -> Seq<char> {
    trim(trim_end_char(s, ';'))
}

/// Whether `t` starts with `0x` or `0X`.
pub open spec fn is_hex_text(t: Seq<char>) -> bool {
    starts_with(t, "0x"@) || starts_with(t, "0X"@)
}

/// A signed integer as the LDF reader takes it: `0x`/`0X` and hex
/// digits, or decimal digits, either with an optional sign, in the range
/// of `i64`.
pub open spec fn int_of(s: Seq<char>) -> Option<int> {
    let t = number_text(s);
    if is_hex_text(t) {
        parse_radix(t.skip(2), 16, true)
    } else {
        parse_radix(t, 10, true)
    }
}

/// The value of a `0x`/`0X` unsigned number, in the range of `u64`.
pub open spec fn hex_uint_of(t: Seq<char>) -> Option<u64> {
    match parse_radix(t.skip(2), 16, false) {
        Some(v) => Some(v as u64),
        None => None,
    }
}

fn hex_prefixed(t: &[char]) -> (r: bool)
    ensures
        r == is_hex_text(t@),
        r ==> t@.len() >= 2,
{
    let lower = to_chars("0x");
    let upper = to_chars("0X");
    proof {
        reveal_strlit("0x");
        reveal_strlit("0X");
    }
    has_prefix(t, lower.as_slice()) || has_prefix(t, upper.as_slice())
}

/// Reads a signed integer as `int_of` describes.
pub fn parse_int(s: &[char]) -> (r: Option<i64>)
    ensures
        match int_of(s@) {
            Some(v) => r == Some(v as i64),
            None => r is None,
        },
{
    let semi = trim_end_matches_char(s, ';');
    let t = trim_chars(semi.as_slice());
    let v = if hex_prefixed(t.as_slice()) {
        let body = slice_of(t.as_slice(), 2, t.len());
        proof {
            assert(body@ =~= t@.skip(2));
        }
        parse_radix_chars(body.as_slice(), 16, true)
    } else {
        parse_radix_chars(t.as_slice(), 10, true)
    };
    match v {
        Some(x) => Some(x as i64),
        None => None,
    }
}

/// The value of `int_of(s)` as the reader stores it when the text is not
/// a number: 0.
pub open spec fn int_or_zero(s: Seq<char>) -> int {
    match int_of(s) {
        Some(v) => v,
        None => 0,
    }
}

fn int_or_zero_exec(s: &[char]) -> (r: i64)
    ensures
        r == int_or_zero(s@),
{
    match parse_int(s) {
        Some(v) => v,
        None => 0,
    }
}

// ---------------------------------------------------------------------------
// The database
// ---------------------------------------------------------------------------

/// What a parsed database holds. `speed_line` is the last `LIN_speed`
/// line, from which the bus speed is read.
#[verifier::ext_equal]
pub struct DbView {
    pub protocol_version: Seq<char>,
    pub language_version: Seq<char>,
    pub speed_line: Seq<char>,
    pub master_node: Seq<char>,
    pub slave_nodes: Seq<Seq<char>>,
    pub frames: Map<u8, FrameView>,
    pub signals: Map<Seq<char>, SignalView>,
    pub schedules: Map<Seq<char>, Seq<ScheduleEntry>>,
}

/// A parsed LDF database.
#[derive(Debug)]
pub struct Db {
    protocol_version: String,
    language_version: String,
    speed_line: String,
    master_node: String,
    slave_nodes: Vec<String>,
    frames: HashMap<u8, Frame>,
    signals: Keyed<Signal>,
    schedules: Keyed<Vec<ScheduleEntry>>,
}

impl View for Db {
    type V = DbView;

    closed spec fn view(&self) -> DbView {
        DbView {
            protocol_version: self.protocol_version@,
            language_version: self.language_version@,
            speed_line: self.speed_line@,
            master_node: self.master_node@,
            slave_nodes: self.slave_nodes@.map_values(|s: String| s@),
            frames: self.frames@.map_values(|f: Frame| f@),
            signals: self.signals@,
            schedules: self.schedules@,
        }
    }
}

/// The database of an empty file.
pub open spec fn empty_db() -> DbView {
    DbView {
        protocol_version: Seq::empty(),
        language_version: Seq::empty(),
        speed_line: Seq::empty(),
        master_node: Seq::empty(),
        slave_nodes: Seq::empty(),
        frames: Map::empty(),
        signals: Map::empty(),
        schedules: Map::empty(),
    }
}

// ---------------------------------------------------------------------------
// What the parser reads from each line
// ---------------------------------------------------------------------------

/// Where in the file the parser is.
#[derive(Clone, Copy, Debug, PartialEq, Eq, Structural)]
pub enum Section {
    Top,
    Nodes,
    Signals,
    Frames,
    FrameBody,
    /// The body of a frame whose identifier is out of range: read past.
    SkippedBody,
    Schedules,
    ScheduleBody,
}

/// The parser's state: the database so far, the section, whether a line
/// opening the section with `{` may follow, the frame or schedule table
/// being read, and the decimal tokens met so far.
#[verifier::ext_equal]
pub struct ParseView {
    pub db: DbView,
    pub section: Section,
    pub opening: bool,
    pub frame: FrameView,
    pub table: Seq<char>,
    pub entries: Seq<ScheduleEntry>,
    pub tokens: Seq<Seq<char>>,
}

/// The value given for the decimal token at position `k`.
pub open spec fn dec_at(dec: Seq<Option<u64>>, k: int) -> Option<u64> {
    if 0 <= k < dec.len() {
        dec[k]
    } else {
        None
    }
}

/// Reads an unsigned number: a `0x`/`0X` number is read here; any other
/// text is a decimal token, whose value is the next one given in `dec`.
/// Gives the value and the decimal tokens met so far.
pub open spec fn uint_read(tokens: Seq<Seq<char>>, s: Seq<char>, dec: Seq<Option<u64>>) -> (
    Option<u64>,
    Seq<Seq<char>>,
) {
    let t = number_text(s);
    if is_hex_text(t) {
        (hex_uint_of(t), tokens)
    } else {
        (dec_at(dec, tokens.len() as int), tokens.push(t))
    }
}

/// The text between the first two double quotes of `l`, or nothing.
pub open spec fn quoted(l: Seq<char>) -> Seq<char> {
    match find_char(l, '"') {
        None => Seq::empty(),
        Some(s) => {
            let rest = l.skip(s + 1);
            match find_char(rest, '"') {
                None => Seq::empty(),
                Some(e) => rest.take(e),
            }
        },
    }
}

/// The pieces of `parts`, trimmed, that are not empty.
pub open spec fn nonempty_trimmed(parts: Seq<Seq<char>>) -> Seq<Seq<char>>
    decreases parts.len(),
{
    if parts.len() == 0 {
        Seq::empty()
    } else {
        let prev = nonempty_trimmed(parts.drop_last());
        let t = trim(parts.last());
        if t.len() > 0 {
            prev.push(t)
        } else {
            prev
        }
    }
}

/// The master node named on a `Master:` line.
pub open spec fn master_name(l: Seq<char>) -> Seq<char> {
    let rest = trim(trim_start_str(l, "Master:"@));
    trim(trim_end_char(trim(split_char(rest, ',')[0]), ';'))
}

/// The slave nodes named on a `Slaves:` line.
pub open spec fn slave_names(l: Seq<char>) -> Seq<Seq<char>> {
    let rest = trim_end_char(trim(trim_start_str(l, "Slaves:"@)), ';');
    nonempty_trimmed(split_char(rest, ','))
}

/// A line of the `Nodes` section.
pub open spec fn nodes_line(db: DbView, l: Seq<char>) -> DbView {
    if starts_with(l, "Master:"@) {
        DbView { master_node: master_name(l), ..db }
    } else if starts_with(l, "Slaves:"@) {
        DbView { slave_nodes: db.slave_nodes + slave_names(l), ..db }
    } else {
        db
    }
}

/// A line of the `Signals` section:
/// `name : width, init, publisher, subscriber, ...;`.
pub open spec fn signal_line(p: ParseView, l: Seq<char>, dec: Seq<Option<u64>>) -> ParseView {
    let l2 = trim(trim_end_char(l, ';'));
    match find_char(l2, ':') {
        None => p,
        Some(c) => {
            let name = trim(l2.take(c));
            let rest = trim(l2.skip(c + 1));
            let parts = splitn_char(rest, 4, ',');
            if parts.len() < 3 {
                p
            } else {
                let (init, tokens) = uint_read(p.tokens, trim(parts[1]), dec);
                let sig = SignalView {
                    name,
                    bit_width: int_or_zero(trim(parts[0])) as usize,
                    init_value: match init {
                        Some(v) => v,
                        None => 0,
                    },
                    publisher: trim(parts[2]),
                    subscribers: if parts.len() > 3 {
                        nonempty_trimmed(split_char(parts[3], ','))
                    } else {
                        Seq::empty()
                    },
                };
                ParseView {
                    db: DbView { signals: p.db.signals.insert(name, sig), ..p.db },
                    tokens,
                    ..p
                }
            }
        },
    }
}

/// The identifier a `name : id, publisher, length {` line gives, when the
/// line has that shape and its identifier is a number.
pub open spec fn header_id(l: Seq<char>) -> Option<int> {
    let l2 = trim(trim_end_char(l, '{'));
    match find_char(l2, ':') {
        None => None,
        Some(c) => {
            let parts = split_char(trim(l2.skip(c + 1)), ',');
            if parts.len() < 3 {
                None
            } else {
                int_of(trim(parts[0]))
            }
        },
    }
}

/// The frame a `name : id, publisher, length {` line opens, if its
/// identifier is a number from 0 to 0x3F.
pub open spec fn frame_header(l: Seq<char>) -> Option<FrameView> {
    let l2 = trim(trim_end_char(l, '{'));
    match find_char(l2, ':') {
        None => None,
        Some(c) => {
            let name = trim(l2.take(c));
            let rest = trim(l2.skip(c + 1));
            let parts = split_char(rest, ',');
            if parts.len() < 3 {
                None
            } else {
                match int_of(trim(parts[0])) {
                    Some(id) => if 0 <= id <= 0x3F {
                        Some(
                            FrameView {
                                name,
                                id: id as u8,
                                publisher: trim(parts[1]),
                                length: int_or_zero(trim(parts[2])) as usize,
                                signals: Seq::empty(),
                            },
                        )
                    } else {
                        None
                    },
                    None => None,
                }
            }
        },
    }
}

/// A `signal, offset;` line in a frame's body.
pub open spec fn frame_body_line(f: FrameView, l: Seq<char>) -> FrameView {
    let l2 = trim(trim_end_char(l, ';'));
    let parts = splitn_char(l2, 2, ',');
    if parts.len() == 2 {
        FrameView {
            signals: f.signals.push(
                SignalRefView {
                    name: trim(parts[0]),
                    bit_offset: int_or_zero(trim(parts[1])) as usize,
                },
            ),
            ..f
        }
    } else {
        f
    }
}

/// The lowest identifier, from `k` on, of a frame named `name`; `0xFF`
/// when there is none.
pub open spec fn first_id_named(frames: Map<u8, FrameView>, name: Seq<char>, k: int) -> u8
    decreases 256 - k,
{
    if k < 0 || k >= 256 {
        0xFF
    } else if frames.contains_key(k as u8) && frames[k as u8].name == name {
        k as u8
    } else {
        first_id_named(frames, name, k + 1)
    }
}

/// The identifier a schedule table uses for the frame named `name`.
pub open spec fn frame_id_by_name(frames: Map<u8, FrameView>, name: Seq<char>) -> u8 {
    first_id_named(frames, name, 0)
}

/// A `frame delay N ms;` line in a schedule table's body. Entries for
/// frames that are unknown or whose identifier is above 0x3F are left out.
pub open spec fn schedule_body_line(p: ParseView, l: Seq<char>, dec: Seq<Option<u64>>) -> ParseView {
    let l2 = trim(trim_end_char(l, ';'));
    if starts_with(l2, "AssignFrameId"@) {
        p
    } else {
        let parts = split_ws(l2);
        if parts.len() >= 3 && eq_ignore_case(parts[1], "delay"@) {
            let (delay, tokens) = uint_read(p.tokens, parts[2], dec);
            let id = frame_id_by_name(p.db.frames, parts[0]);
            let d = (match delay {
                Some(v) => v,
                None => 0,
            }) as u32;
            if id <= 0x3F {
                ParseView {
                    entries: p.entries.push(ScheduleEntry { id, delay_ms: d }),
                    tokens,
                    ..p
                }
            } else {
                ParseView { tokens, ..p }
            }
        } else {
            p
        }
    }
}

/// A line outside any section.
pub open spec fn top_line(p: ParseView, l: Seq<char>) -> ParseView {
    if starts_with(l, "LIN_protocol_version"@) {
        ParseView { db: DbView { protocol_version: quoted(l), ..p.db }, ..p }
    } else if starts_with(l, "LIN_language_version"@) {
        ParseView { db: DbView { language_version: quoted(l), ..p.db }, ..p }
    } else if starts_with(l, "LIN_speed"@) {
        ParseView { db: DbView { speed_line: l, ..p.db }, ..p }
    } else if starts_with(l, "Nodes"@) {
        ParseView { section: Section::Nodes, opening: true, ..p }
    } else if starts_with(l, "Signals"@) {
        ParseView { section: Section::Signals, opening: true, ..p }
    } else if starts_with(l, "Frames"@) {
        ParseView { section: Section::Frames, opening: true, ..p }
    } else if starts_with(l, "Schedule_tables"@) {
        ParseView { section: Section::Schedules, opening: true, ..p }
    } else {
        p
    }
}

/// A line in the `Nodes` section.
pub open spec fn nodes_step(p: ParseView, l: Seq<char>) -> ParseView {
    if l == "}"@ {
        ParseView { section: Section::Top, ..p }
    } else {
        ParseView { db: nodes_line(p.db, l), ..p }
    }
}

/// A line in the `Signals` section.
pub open spec fn signals_step(p: ParseView, l: Seq<char>, dec: Seq<Option<u64>>) -> ParseView {
    if l == "}"@ {
        ParseView { section: Section::Top, ..p }
    } else {
        signal_line(p, l, dec)
    }
}

/// A line in the `Frames` section, outside a frame's body. A frame header
/// whose identifier is out of range opens a body that is read past and
/// not stored; later frames are read as usual.
pub open spec fn frames_step(p: ParseView, l: Seq<char>) -> ParseView {
    if l == "}"@ {
        ParseView { section: Section::Top, ..p }
    } else if find_char(l, '{') is Some {
        match frame_header(l) {
            Some(f) => ParseView { section: Section::FrameBody, frame: f, ..p },
            None => if header_id(l) is Some {
                ParseView { section: Section::SkippedBody, ..p }
            } else {
                p
            },
        }
    } else {
        p
    }
}

/// A line in a frame's body; `}` stores the frame under its identifier.
pub open spec fn frame_body_step(p: ParseView, l: Seq<char>) -> ParseView {
    if l == "}"@ {
        ParseView {
            db: DbView { frames: p.db.frames.insert(p.frame.id, p.frame), ..p.db },
            section: Section::Frames,
            ..p
        }
    } else {
        ParseView { frame: frame_body_line(p.frame, l), ..p }
    }
}

/// A line in the `Schedule_tables` section, outside a table's body.
pub open spec fn schedules_step(p: ParseView, l: Seq<char>) -> ParseView {
    if l == "}"@ {
        ParseView { section: Section::Top, ..p }
    } else if ends_with(l, "{"@) {
        ParseView {
            section: Section::ScheduleBody,
            table: trim(trim_end_char(l, '{')),
            entries: Seq::empty(),
            ..p
        }
    } else {
        p
    }
}

/// A line in a schedule table's body; `}` stores the table under its name.
pub open spec fn schedule_body_step(p: ParseView, l: Seq<char>, dec: Seq<Option<u64>>) -> ParseView {
    if l == "}"@ {
        ParseView {
            db: DbView { schedules: p.db.schedules.insert(p.table, p.entries), ..p.db },
            section: Section::Schedules,
            ..p
        }
    } else {
        schedule_body_line(p, l, dec)
    }
}

/// A non-empty line, after comments and surrounding white space are taken
/// off. Right after a section's name, a line starting with `{` only opens
/// the section.
pub open spec fn clean_line_step(p: ParseView, l: Seq<char>, dec: Seq<Option<u64>>) -> ParseView {
    if p.opening && starts_with(l, "{"@) {
        ParseView { opening: false, ..p }
    } else {
        let q = ParseView { opening: false, ..p };
        match q.section {
            Section::Top => top_line(q, l),
            Section::Nodes => nodes_step(q, l),
            Section::Signals => signals_step(q, l, dec),
            Section::Frames => frames_step(q, l),
            Section::FrameBody => frame_body_step(q, l),
            Section::SkippedBody => if l == "}"@ {
                ParseView { section: Section::Frames, ..q }
            } else {
                q
            },
            Section::Schedules => schedules_step(q, l),
            Section::ScheduleBody => schedule_body_step(q, l, dec),
        }
    }
}

/// One line of the file: `//` comments and surrounding white space are
/// taken off, and a line left empty is skipped.
pub open spec fn line_step(p: ParseView, raw: Seq<char>, dec: Seq<Option<u64>>) -> ParseView {
    let l = trim(strip_comment(raw));
    if l.len() == 0 {
        p
    } else {
        clean_line_step(p, l, dec)
    }
}

/// A frame with nothing in it.
pub open spec fn empty_frame() -> FrameView {
    FrameView {
        name: Seq::empty(),
        id: 0,
        publisher: Seq::empty(),
        length: 0,
        signals: Seq::empty(),
    }
}

/// The state before the first line.
pub open spec fn initial_parse() -> ParseView {
    ParseView {
        db: empty_db(),
        section: Section::Top,
        opening: false,
        frame: empty_frame(),
        table: Seq::empty(),
        entries: Seq::empty(),
        tokens: Seq::empty(),
    }
}

/// The state after `lines`.
pub open spec fn run_lines(lines: Seq<Seq<char>>, dec: Seq<Option<u64>>) -> ParseView
    decreases lines.len(),
{
    if lines.len() == 0 {
        initial_parse()
    } else {
        line_step(run_lines(lines.drop_last(), dec), lines.last(), dec)
    }
}

/// The database at the end of the file: a frame or schedule table still
/// open is stored.
pub open spec fn finish(p: ParseView) -> DbView {
    match p.section {
        Section::FrameBody => DbView { frames: p.db.frames.insert(p.frame.id, p.frame), ..p.db },
        Section::ScheduleBody => DbView {
            schedules: p.db.schedules.insert(p.table, p.entries),
            ..p.db
        },
        _ => p.db,
    }
}

/// The lines of a text.
pub open spec fn text_lines(text: Seq<char>) -> Seq<Seq<char>> {
    split_char(text, '\n')
}

/// The database an LDF text describes, given the values of its decimal
/// tokens in order.
pub open spec fn ldf_db(text: Seq<char>, dec: Seq<Option<u64>>) -> DbView {
    finish(run_lines(text_lines(text), dec))
}

/// The decimal tokens of an LDF text, in the order the parser meets them.
pub open spec fn ldf_tokens(text: Seq<char>) -> Seq<Seq<char>> {
    run_lines(text_lines(text), Seq::empty()).tokens
}

// ---------------------------------------------------------------------------
// Reading lines
// ---------------------------------------------------------------------------

fn chars_eq(a: &[char], b: &[char]) -> (r: bool)
    ensures
        r == (a@ == b@),
{
    if a.len() != b.len() {
        return false;
    }
    let mut i: usize = 0;
    while i < a.len()
        invariant
            i <= a@.len(),
            a@.len() == b@.len(),
            forall|j: int| 0 <= j < i ==> a@[j] == b@[j],
        decreases a.len() - i,
    {
        if a[i] != b[i] {
            return false;
        }
        i = i + 1;
    }
    assert(a@ =~= b@);
    true
}

fn is_close(l: &[char]) -> (r: bool)
    ensures
        r == (l@ == "}"@),
{
    let close = to_chars("}");
    chars_eq(l, close.as_slice())
}

fn extract_quoted(l: &[char]) -> (r: String)
    ensures
        r@ == quoted(l@),
{
    proof {
        lemma_find_char_range(l@, '"');
    }
    let first = find(l, '"');
    match first {
        None => String::new(),
        Some(s) => {
            let n = l.len();
            let rest = slice_of(l, s + 1, n);
            proof {
                assert(rest@ =~= l@.skip(s + 1));
                lemma_find_char_range(rest@, '"');
            }
            let second = find(rest.as_slice(), '"');
            match second {
                None => String::new(),
                Some(e) => {
                    let inner = slice_of(rest.as_slice(), 0, e);
                    proof {
                        assert(inner@ =~= rest@.take(e as int));
                    }
                    string_of(inner.as_slice())
                },
            }
        },
    }
}

fn push_nonempty_trimmed(out: &mut Vec<String>, parts: &Vec<Vec<char>>)
    ensures
        final(out)@.map_values(|s: String| s@) == old(out)@.map_values(|s: String| s@)
            + nonempty_trimmed(parts@.map_values(|v: Vec<char>| v@)),
{
    let ghost pv = parts@.map_values(|v: Vec<char>| v@);
    let ghost start = out@.map_values(|s: String| s@);
    let mut i: usize = 0;
    while i < parts.len()
        invariant
            i <= parts@.len(),
            pv == parts@.map_values(|v: Vec<char>| v@),
            out@.map_values(|s: String| s@) == start + nonempty_trimmed(pv.take(i as int)),
        decreases parts.len() - i,
    {
        let t = trim_chars(parts[i].as_slice());
        proof {
            assert(pv.take(i + 1).drop_last() =~= pv.take(i as int));
            assert(pv.take(i + 1).last() == parts@[i as int]@);
        }
        if t.len() > 0 {
            let ghost before = out@.map_values(|s: String| s@);
            out.push(string_of(t.as_slice()));
            proof {
                assert(out@.map_values(|s: String| s@) =~= before.push(t@));
            }
        }
        i = i + 1;
    }
    proof {
        assert(pv.take(parts@.len() as int) =~= pv);
    }
}

/// Reads an unsigned number as `uint_read` describes, adding a decimal
/// token to `tokens`.
fn read_uint(tokens: &mut Vec<String>, s: &[char], dec: &[Option<u64>]) -> (r: Option<u64>)
    ensures
        r == uint_read(old(tokens)@.map_values(|t: String| t@), s@, dec@).0,
        final(tokens)@.map_values(|t: String| t@) == uint_read(
            old(tokens)@.map_values(|t: String| t@),
            s@,
            dec@,
        ).1,
{
    let semi = trim_end_matches_char(s, ';');
    let t = trim_chars(semi.as_slice());
    if hex_prefixed(t.as_slice()) {
        let body = slice_of(t.as_slice(), 2, t.len());
        proof {
            assert(body@ =~= t@.skip(2));
        }
        match parse_radix_chars(body.as_slice(), 16, false) {
            Some(v) => Some(v as u64),
            None => None,
        }
    } else {
        let k = tokens.len();
        let v = if k < dec.len() {
            dec[k]
        } else {
            None
        };
        let ghost before = tokens@.map_values(|t: String| t@);
        tokens.push(string_of(t.as_slice()));
        proof {
            assert(tokens@.map_values(|t: String| t@) =~= before.push(t@));
        }
        v
    }
}

fn empty_frame_exec() -> (r: Frame)
    ensures
        r@ == empty_frame(),
{
    let r = Frame {
        name: String::new(),
        id: 0,
        publisher: String::new(),
        length: 0,
        signals: Vec::new(),
    };
    assert(r@.signals =~= Seq::<SignalRefView>::empty());
    r
}

fn clone_entries(v: &Vec<ScheduleEntry>) -> (r: Vec<ScheduleEntry>)
    ensures
        r@ == v@,
{
    let mut out: Vec<ScheduleEntry> = Vec::new();
    let mut i: usize = 0;
    while i < v.len()
        invariant
            i <= v@.len(),
            out@ == v@.take(i as int),
        decreases v.len() - i,
    {
        out.push(v[i]);
        i = i + 1;
        proof {
            assert(out@ =~= v@.take(i as int));
        }
    }
    assert(v@.take(v@.len() as int) =~= v@);
    out
}

impl Db {
    /// The database of an empty file.
    fn empty() -> (r: Db)
        ensures
            r@ == empty_db(),
    {
        let r = Db {
            protocol_version: String::new(),
            language_version: String::new(),
            speed_line: String::new(),
            master_node: String::new(),
            slave_nodes: Vec::new(),
            frames: HashMap::new(),
            signals: Keyed::new(),
            schedules: Keyed::new(),
        };
        assert(r@.frames =~= Map::<u8, FrameView>::empty());
        assert(r@.slave_nodes =~= Seq::<Seq<char>>::empty());
        r
    }
}

fn nodes_line_exec(db: &mut Db, l: &[char])
    ensures
        final(db)@ == nodes_line(old(db)@, l@),
        final(db).frames@ == old(db).frames@,
{
    let master = to_chars("Master:");
    let slaves = to_chars("Slaves:");
    proof {
        reveal_strlit("Master:");
        reveal_strlit("Slaves:");
    }
    if has_prefix(l, master.as_slice()) {
        let rest0 = trim_start_matches(l, master.as_slice());
        let rest = trim_chars(rest0.as_slice());
        let parts = split_at_char(rest.as_slice(), ',');
        proof {
            assert(split_char(rest@, ',').len() >= 1);
            assert(parts@.len() >= 1);
        }
        let first = trim_chars(parts[0].as_slice());
        let first2 = trim_end_matches_char(first.as_slice(), ';');
        let name = trim_chars(first2.as_slice());
        db.master_node = string_of(name.as_slice());
    } else if has_prefix(l, slaves.as_slice()) {
        let rest0 = trim_start_matches(l, slaves.as_slice());
        let rest1 = trim_chars(rest0.as_slice());
        let rest = trim_end_matches_char(rest1.as_slice(), ';');
        let parts = split_at_char(rest.as_slice(), ',');
        push_nonempty_trimmed(&mut db.slave_nodes, &parts);
    }
}

fn frame_header_exec(l: &[char]) -> (r: (Option<Frame>, bool))
    ensures
        match frame_header(l@) {
            Some(f) => r.0 matches Some(x) && x@ == f,
            None => r.0 is None,
        },
        r.1 == (frame_header(l@) is None && header_id(l@) is Some),
{
    let t0 = trim_end_matches_char(l, '{');
    let l2 = trim_chars(t0.as_slice());
    let pos = find(l2.as_slice(), ':');
    match pos {
        None => (None, false),
        Some(c) => {
            let n = l2.len();
            let head = slice_of(l2.as_slice(), 0, c);
            let tail = slice_of(l2.as_slice(), c + 1, n);
            proof {
                assert(head@ =~= l2@.take(c as int));
                assert(tail@ =~= l2@.skip(c + 1));
            }
            let name = trim_chars(head.as_slice());
            let rest = trim_chars(tail.as_slice());
            let parts = split_at_char(rest.as_slice(), ',');
            if parts.len() < 3 {
                return (None, false);
            }
            let p0 = trim_chars(parts[0].as_slice());
            match parse_int(p0.as_slice()) {
                None => (None, false),
                Some(id) => {
                    if id < 0 || id > 0x3F {
                        return (None, true);
                    }
                    let p1 = trim_chars(parts[1].as_slice());
                    let p2 = trim_chars(parts[2].as_slice());
                    let length = int_or_zero_exec(p2.as_slice()) as usize;
                    let f = Frame {
                        name: string_of(name.as_slice()),
                        id: id as u8,
                        publisher: string_of(p1.as_slice()),
                        length,
                        signals: Vec::new(),
                    };
                    assert(f@.signals =~= Seq::<SignalRefView>::empty());
                    (Some(f), false)
                },
            }
        },
    }
}

fn frame_body_line_exec(f: &mut Frame, l: &[char])
    ensures
        final(f)@ == frame_body_line(old(f)@, l@),
{
    let semi = trim_end_matches_char(l, ';');
    let l2 = trim_chars(semi.as_slice());
    let parts = splitn_at_char(l2.as_slice(), 2, ',');
    if parts.len() == 2 {
        let name = trim_chars(parts[0].as_slice());
        let off_text = trim_chars(parts[1].as_slice());
        let off = int_or_zero_exec(off_text.as_slice()) as usize;
        let ghost before = f.signals@.map_values(|r: SignalRef| r@);
        let r = SignalRef { name: string_of(name.as_slice()), bit_offset: off };
        let ghost rv = r@;
        f.signals.push(r);
        proof {
            assert(f.signals@.map_values(|r: SignalRef| r@) =~= before.push(rv));
        }
    }
}

fn frame_id_by_name_exec(db: &Db, name: &[char]) -> (r: u8)
    ensures
        r == frame_id_by_name(db@.frames, name@),
{
    let target = string_of(name);
    let mut k: usize = 0;
    while k < 256
        invariant
            k <= 256,
            target@ == name@,
            first_id_named(db@.frames, name@, 0) == first_id_named(db@.frames, name@, k as int),
        decreases 256 - k,
    {
        let ghost m = db@.frames;
        proof {
            assert((k as u8) as int == k as int);
        }
        match db.frames.get(&(k as u8)) {
            Some(f) => {
                if f.name == target {
                    proof {
                        assert(m.contains_key(k as u8));
                        assert(m[k as u8].name == name@);
                    }
                    return k as u8;
                }
                proof {
                    assert(!(m.contains_key(k as u8) && m[k as u8].name == name@));
                }
            },
            None => {
                proof {
                    assert(!m.contains_key(k as u8));
                }
            },
        }
        k = k + 1;
    }
    0xFF
}

struct Parser {
    db: Db,
    section: Section,
    opening: bool,
    frame: Frame,
    table: String,
    entries: Vec<ScheduleEntry>,
    tokens: Vec<String>,
}

impl View for Parser {
    type V = ParseView;

    closed spec fn view(&self) -> ParseView {
        ParseView {
            db: self.db@,
            section: self.section,
            opening: self.opening,
            frame: self.frame@,
            table: self.table@,
            entries: self.entries@,
            tokens: self.tokens@.map_values(|t: String| t@),
        }
    }
}

impl Parser {
    fn new() -> (r: Parser)
        ensures
            r@ == initial_parse(),
    {
        let r = Parser {
            db: Db::empty(),
            section: Section::Top,
            opening: false,
            frame: empty_frame_exec(),
            table: String::new(),
            entries: Vec::new(),
            tokens: Vec::new(),
        };
        assert(r@.tokens =~= Seq::<Seq<char>>::empty());
        assert(r@.entries =~= Seq::<ScheduleEntry>::empty());
        r
    }

    fn top_line_exec(&mut self, l: &[char])
        ensures
            final(self)@ == top_line(old(self)@, l@),
            final(self).db.frames@ == old(self).db.frames@,
    {
        if has_prefix(l, to_chars("LIN_protocol_version").as_slice()) {
            self.db.protocol_version = extract_quoted(l);
        } else if has_prefix(l, to_chars("LIN_language_version").as_slice()) {
            self.db.language_version = extract_quoted(l);
        } else if has_prefix(l, to_chars("LIN_speed").as_slice()) {
            self.db.speed_line = string_of(l);
        } else if has_prefix(l, to_chars("Nodes").as_slice()) {
            self.section = Section::Nodes;
            self.opening = true;
        } else if has_prefix(l, to_chars("Signals").as_slice()) {
            self.section = Section::Signals;
            self.opening = true;
        } else if has_prefix(l, to_chars("Frames").as_slice()) {
            self.section = Section::Frames;
            self.opening = true;
        } else if has_prefix(l, to_chars("Schedule_tables").as_slice()) {
            self.section = Section::Schedules;
            self.opening = true;
        }
    }

    fn signal_line_exec(&mut self, l: &[char], dec: &[Option<u64>])
        ensures
            final(self)@ == signal_line(old(self)@, l@, dec@),
            final(self).db.frames@ == old(self).db.frames@,
    {
        let semi = trim_end_matches_char(l, ';');
        let l2 = trim_chars(semi.as_slice());
        let pos = find(l2.as_slice(), ':');
        match pos {
            None => {},
            Some(c) => {
                let n = l2.len();
                let head = slice_of(l2.as_slice(), 0, c);
                let tail = slice_of(l2.as_slice(), c + 1, n);
                proof {
                    assert(head@ =~= l2@.take(c as int));
                    assert(tail@ =~= l2@.skip(c + 1));
                }
                let name = trim_chars(head.as_slice());
                let rest = trim_chars(tail.as_slice());
                let parts = splitn_at_char(rest.as_slice(), 4, ',');
                if parts.len() < 3 {
                    return ;
                }
                let p0 = trim_chars(parts[0].as_slice());
                let p1 = trim_chars(parts[1].as_slice());
                let p2 = trim_chars(parts[2].as_slice());
                let width = int_or_zero_exec(p0.as_slice()) as usize;
                let init = match read_uint(&mut self.tokens, p1.as_slice(), dec) {
                    Some(v) => v,
                    None => 0,
                };
                let mut subscribers: Vec<String> = Vec::new();
                if parts.len() > 3 {
                    let subs = split_at_char(parts[3].as_slice(), ',');
                    push_nonempty_trimmed(&mut subscribers, &subs);
                }
                proof {
                    assert(subscribers@.map_values(|s: String| s@) =~= (if parts@.len() > 3 {
                        nonempty_trimmed(split_char(parts@[3]@, ','))
                    } else {
                        Seq::empty()
                    }));
                }
                let key = string_of(name.as_slice());
                let sig = Signal {
                    name: string_of(name.as_slice()),
                    bit_width: width,
                    init_value: init,
                    publisher: string_of(p2.as_slice()),
                    subscribers,
                };
                self.db.signals.insert(key, sig);
            },
        }
    }

    fn schedule_body_line_exec(&mut self, l: &[char], dec: &[Option<u64>])
        ensures
            final(self)@ == schedule_body_line(old(self)@, l@, dec@),
            final(self).db.frames@ == old(self).db.frames@,
    {
        let semi = trim_end_matches_char(l, ';');
        let l2 = trim_chars(semi.as_slice());
        if has_prefix(l2.as_slice(), to_chars("AssignFrameId").as_slice()) {
            return ;
        }
        let parts = split_whitespace(l2.as_slice());
        if parts.len() >= 3 && equals_ignore_case(parts[1].as_slice(), to_chars("delay").as_slice()) {
            let delay = read_uint(&mut self.tokens, parts[2].as_slice(), dec);
            let id = frame_id_by_name_exec(&self.db, parts[0].as_slice());
            let d = match delay {
                Some(v) => v,
                None => 0,
            } as u32;
            if id <= 0x3F {
                self.entries.push(ScheduleEntry { id, delay_ms: d });
            }
        }
    }

    fn frames_step_exec(&mut self, l: &[char])
        ensures
            final(self)@ == frames_step(old(self)@, l@),
            final(self).db.frames@ == old(self).db.frames@,
    {
        if is_close(l) {
            self.section = Section::Top;
        } else if contains(l, '{') {
            match frame_header_exec(l) {
                (Some(f), _) => {
                    self.section = Section::FrameBody;
                    self.frame = f;
                },
                (None, true) => {
                    self.section = Section::SkippedBody;
                },
                (None, false) => {},
            }
        }
    }

    fn frame_body_step_exec(&mut self, l: &[char])
        ensures
            final(self)@ == frame_body_step(old(self)@, l@),
    {
        if is_close(l) {
            self.store_frame();
            self.section = Section::Frames;
        } else {
            frame_body_line_exec(&mut self.frame, l);
        }
    }

    /// Stores the frame being read under its identifier.
    fn store_frame(&mut self)
        ensures
            final(self)@ == (ParseView {
                db: DbView {
                    frames: old(self)@.db.frames.insert(old(self)@.frame.id, old(self)@.frame),
                    ..old(self)@.db
                },
                ..old(self)@
            }),
    {
        let f = self.frame.clone();
        let id = f.id;
        let _ = self.db.frames.insert(id, f);
        proof {
            assert(self@.db.frames =~= old(self)@.db.frames.insert(id, self.frame@));
        }
    }

    fn schedules_step_exec(&mut self, l: &[char])
        ensures
            final(self)@ == schedules_step(old(self)@, l@),
            final(self).db.frames@ == old(self).db.frames@,
    {
        if is_close(l) {
            self.section = Section::Top;
        } else if has_suffix(l, to_chars("{").as_slice()) {
            let t0 = trim_end_matches_char(l, '{');
            let t = trim_chars(t0.as_slice());
            self.section = Section::ScheduleBody;
            self.table = string_of(t.as_slice());
            self.entries = Vec::new();
            assert(self.entries@ =~= Seq::<ScheduleEntry>::empty());
        }
    }

    /// Stores the schedule table being read under its name.
    fn store_table(&mut self)
        ensures
            final(self)@ == (ParseView {
                db: DbView {
                    schedules: old(self)@.db.schedules.insert(old(self)@.table, old(self)@.entries),
                    ..old(self)@.db
                },
                ..old(self)@
            }),
            final(self).db.frames@ == old(self).db.frames@,
    {
        let name = self.table.clone();
        let entries = clone_entries(&self.entries);
        self.db.schedules.insert(name, entries);
    }

    fn schedule_body_step_exec(&mut self, l: &[char], dec: &[Option<u64>])
        ensures
            final(self)@ == schedule_body_step(old(self)@, l@, dec@),
            final(self).db.frames@ == old(self).db.frames@,
    {
        if is_close(l) {
            self.store_table();
            self.section = Section::Schedules;
        } else {
            self.schedule_body_line_exec(l, dec);
        }
    }

    /// Takes one line of the file.
    fn step(&mut self, raw: &[char], dec: &[Option<u64>])
        ensures
            final(self)@ == line_step(old(self)@, raw@, dec@),
    {
        let cut = cut_comment(raw);
        let l = trim_chars(cut.as_slice());
        if l.len() == 0 {
            return ;
        }
        let l = l.as_slice();
        if self.opening && has_prefix(l, to_chars("{").as_slice()) {
            self.opening = false;
            return ;
        }
        self.opening = false;
        match self.section {
            Section::Top => self.top_line_exec(l),
            Section::Nodes => {
                if is_close(l) {
                    self.section = Section::Top;
                } else {
                    nodes_line_exec(&mut self.db, l);
                }
            },
            Section::Signals => {
                if is_close(l) {
                    self.section = Section::Top;
                } else {
                    self.signal_line_exec(l, dec);
                }
            },
            Section::Frames => self.frames_step_exec(l),
            Section::FrameBody => self.frame_body_step_exec(l),
            Section::SkippedBody => {
                if is_close(l) {
                    self.section = Section::Frames;
                }
            },
            Section::Schedules => self.schedules_step_exec(l),
            Section::ScheduleBody => self.schedule_body_step_exec(l, dec),
        }
    }

    /// The database at the end of the file.
    fn finish(self) -> (r: Db)
        ensures
            r@ == finish(self@),
    {
        let mut p = self;
        match p.section {
            Section::FrameBody => p.store_frame(),
            Section::ScheduleBody => p.store_table(),
            _ => {},
        }
        p.db
    }
}

/// Runs the parser over every line of `text`.
fn run(text: &str, dec: &[Option<u64>]) -> (r: Parser)
    ensures
        r@ == run_lines(text_lines(text@), dec@),
{
    let cs = to_chars(text);
    let lines = split_at_char(cs.as_slice(), '\n');
    let ghost lv = lines@.map_values(|v: Vec<char>| v@);
    let mut p = Parser::new();
    let mut i: usize = 0;
    while i < lines.len()
        invariant
            i <= lines@.len(),
            lv == lines@.map_values(|v: Vec<char>| v@),
            lv == text_lines(text@),
            p@ == run_lines(lv.take(i as int), dec@),
        decreases lines.len() - i,
    {
        proof {
            assert(lv.take(i + 1).drop_last() =~= lv.take(i as int));
            assert(lv.take(i + 1).last() == lines@[i as int]@);
        }
        p.step(lines[i].as_slice(), dec);
        i = i + 1;
    }
    proof {
        assert(lv.take(lines@.len() as int) =~= lv);
    }
    p
}

/// Parses the text of an LDF file. `decimals` holds the values of the
/// tokens that `decimal_tokens` lists, in the same order: the value a
/// floating point reading of the token gives, converted to an unsigned
/// integer, or `None` where the token is not a number.
///
/// Never fails: text that is not an LDF file gives a database with less
/// in it, or an empty one.
pub fn parse(text: &str, decimals: &[Option<u64>]) -> (r: Db)
    ensures
        r@ == ldf_db(text@, decimals@),
{
    let p = run(text, decimals);
    p.finish()
}

/// The decimal tokens of an LDF text that `parse` takes values for: the
/// initial values of signals and the delays of schedule table entries
/// written without `0x`, in the order the parser meets them.
pub fn decimal_tokens(text: &str) -> (r: Vec<String>)
    ensures
        r@.map_values(|t: String| t@) == ldf_tokens(text@),
{
    let none: Vec<Option<u64>> = Vec::new();
    let p = run(text, none.as_slice());
    assert(none@ =~= Seq::<Option<u64>>::empty());
    p.tokens
}

// ---------------------------------------------------------------------------
// Reading signals out of frame data
// ---------------------------------------------------------------------------

/// Bit `k` of `data`, counting from the least significant bit of the
/// first byte (bit `k % 8` of byte `k / 8`); bits past the end are 0.
pub open spec fn data_bit(data: Seq<u8>, k: int) -> bool {
    0 <= k && k / 8 < data.len() && (data[k / 8] & (1u8 << ((k % 8) as u8))) != 0
}

/// The number whose binary digit `i` is bit `off + i` of `data`, for
/// `i < n`.
pub open spec fn bits_value(data: Seq<u8>, off: int, n: nat) -> nat
    decreases n,
{
    if n == 0 {
        0
    } else {
        bits_value(data, off, (n - 1) as nat) + if data_bit(data, off + n - 1) {
            pow2((n - 1) as nat)
        } else {
            0
        }
    }
}

/// The value of the `width` bits of `data` starting at bit `off`, least
/// significant first; a value holds at most 64 bits.
pub open spec fn extract_value(data: Seq<u8>, off: int, width: int) -> nat {
    bits_value(data, off, if width < 64 { width as nat } else { 64 })
}

/// The inputs on which reading bits is defined: the bit positions fit in
/// `usize`, and no bit past the 64th of the value is set.
pub open spec fn extract_ok(data: Seq<u8>, off: int, width: int) -> bool {
    &&& (width == 0 || off + width - 1 <= usize::MAX)
    &&& forall|k: int| off + 64 <= k < off + width ==> !#[trigger] data_bit(data, k)
}

proof fn lemma_or_high_bit(v: u64, i: u64)
    by (bit_vector)
    requires
        i < 64,
        v < (1u64 << i),
    ensures
        v | (1u64 << i) == v + (1u64 << i),
{
}

/// Reads `bit_width` bits of `data` from bit `bit_offset` on, least
/// significant first (Intel byte order).
pub fn extract_bits(data: &[u8], bit_offset: usize, bit_width: usize) -> (r: u64)
    requires
        extract_ok(data@, bit_offset as int, bit_width as int),
    ensures
        r as int == extract_value(data@, bit_offset as int, bit_width as int),
{
    let mut val: u64 = 0;
    let mut i: usize = 0;
    proof {
        lemma_pow2_pos(0);
    }
    while i < bit_width
        invariant
            i <= bit_width,
            extract_ok(data@, bit_offset as int, bit_width as int),
            val as int == bits_value(data@, bit_offset as int, if i < 64 { i as nat } else { 64 }),
            i < 64 ==> val < pow2(i as nat),
        decreases bit_width - i,
    {
        let pos = bit_offset + i;
        let byte_idx = pos / 8;
        let bit_idx = pos % 8;
        let set = byte_idx < data.len() && (data[byte_idx as usize] & (1u8 << (bit_idx as u8))) != 0;
        assert(set == data_bit(data@, bit_offset + i));
        if set {
            assert(i < 64);
            proof {
                lemma_u64_pow2_no_overflow(i as nat);
                lemma_u64_shl_is_mul(1, i as u64);
                lemma_or_high_bit(val, i as u64);
                lemma_pow2_unfold((i + 1) as nat);
            }
            val = val | (1u64 << (i as u64));
        } else {
            proof {
                if i < 63 {
                    lemma_pow2_unfold((i + 1) as nat);
                }
            }
        }
        i = i + 1;
    }
    val
}

/// Whether `extract_bits` can read `bit_width` bits from `bit_offset` on:
/// the last bit position fits a `usize`, and no bit of `data` is set past
/// the first 64 of the field.
pub fn can_extract(data: &[u8], bit_offset: usize, bit_width: usize) -> (r: bool)
    ensures
        r == extract_ok(data@, bit_offset as int, bit_width as int),
{
    if bit_width == 0 {
        return true;
    }
    let last = match bit_offset.checked_add(bit_width - 1) {
        Some(v) => v,
        None => {
            return false;
        },
    };
    let mut k = match bit_offset.checked_add(64) {
        Some(v) => v,
        None => {
            return true;
        },
    };
    let start = k;
    while k <= last && k / 8 < data.len()
        invariant
            start == bit_offset + 64,
            start <= k,
            last == bit_offset + bit_width - 1,
            forall|j: int| start <= j < k ==> !#[trigger] data_bit(data@, j),
        decreases last - k,
    {
        if (data[k / 8] & (1u8 << ((k % 8) as u8))) != 0 {
            assert(data_bit(data@, k as int));
            return false;
        }
        if k == last {
            assert forall|j: int| start <= j < bit_offset + bit_width implies !#[trigger] data_bit(
                data@,
                j,
            ) by {}
            return true;
        }
        k = k + 1;
    }
    assert forall|j: int| bit_offset + 64 <= j < bit_offset + bit_width implies !#[trigger] data_bit(
        data@,
        j,
    ) by {
        if j >= k {
            assert(j / 8 >= k / 8);
        }
    }
    true
}

/// What `decode` gives for the signals `refs` of a frame: each signal the
/// database declares, by name, with the value of its bits in `data`; a
/// signal placed twice keeps its last placement.
pub open spec fn decode_refs(
    refs: Seq<SignalRefView>,
    signals: Map<Seq<char>, SignalView>,
    data: Seq<u8>,
) -> Map<Seq<char>, u64>
    decreases refs.len(),
{
    if refs.len() == 0 {
        Map::empty()
    } else {
        let prev = decode_refs(refs.drop_last(), signals, data);
        let r = refs.last();
        if signals.contains_key(r.name) {
            prev.insert(
                r.name,
                extract_value(data, r.bit_offset as int, signals[r.name].bit_width as int) as u64,
            )
        } else {
            prev
        }
    }
}

/// The inputs on which `decode` is defined: each declared signal of the
/// frame can be read from `data`.
pub open spec fn decode_ok(db: DbView, id: u8, data: Seq<u8>) -> bool {
    db.frames.contains_key(id) ==> forall|i: int|
        0 <= i < db.frames[id].signals.len() && db.signals.contains_key(
            #[trigger] db.frames[id].signals[i].name,
        ) ==> extract_ok(
            data,
            db.frames[id].signals[i].bit_offset as int,
            db.signals[db.frames[id].signals[i].name].bit_width as int,
        )
}

impl Default for Db {
    /// An empty database.
    fn default() -> (r: Db)
        ensures
            r@ == empty_db(),
    {
        Db::empty()
    }
}

impl Db {
    /// Protocol version from `LIN_protocol_version`.
    pub fn protocol_version(&self) -> (r: &str)
        ensures
            r@ == self@.protocol_version,
    {
        self.protocol_version.as_str()
    }

    /// Language version from `LIN_language_version`.
    pub fn language_version(&self) -> (r: &str)
        ensures
            r@ == self@.language_version,
    {
        self.language_version.as_str()
    }

    /// The `LIN_speed` line, from which the bus speed in kbps is read.
    pub fn speed_line(&self) -> (r: &str)
        ensures
            r@ == self@.speed_line,
    {
        self.speed_line.as_str()
    }

    /// Master node name.
    pub fn master_node(&self) -> (r: &str)
        ensures
            r@ == self@.master_node,
    {
        self.master_node.as_str()
    }

    /// Slave node names, in the order they are declared.
    pub fn slave_nodes(&self) -> (r: &[String])
        ensures
            r@.map_values(|s: String| s@) == self@.slave_nodes,
    {
        self.slave_nodes.as_slice()
    }

    /// A copy of all frames keyed by identifier.
    pub fn frames(&self) -> (r: HashMap<u8, Frame>)
        ensures
            r@.dom() == self@.frames.dom(),
            forall|k: u8| #[trigger] r@.contains_key(k) ==> r@[k]@ == self@.frames[k],
    {
        let mut m: HashMap<u8, Frame> = HashMap::new();
        let mut k: usize = 0;
        while k < 256
            invariant
                k <= 256,
                forall|j: u8| #[trigger]
                    m@.contains_key(j) <==> ((j as int) < k && self@.frames.contains_key(j)),
                forall|j: u8| #[trigger] m@.contains_key(j) ==> m@[j]@ == self@.frames[j],
            decreases 256 - k,
        {
            match self.frames.get(&(k as u8)) {
                Some(f) => {
                    m.insert(k as u8, f.clone());
                },
                None => {},
            }
            k = k + 1;
        }
        assert(m@.dom() =~= self@.frames.dom());
        m
    }

    /// The frame with identifier `id`, if the file declares one.
    pub fn frame(&self, id: u8) -> (r: Option<Frame>)
        ensures
            match r {
                Some(f) => self@.frames.contains_key(id) && f@ == self@.frames[id],
                None => !self@.frames.contains_key(id),
            },
    {
        match self.frames.get(&id) {
            Some(f) => Some(f.clone()),
            None => None,
        }
    }

    /// The signal named `name`, if the file declares one.
    pub fn signal(&self, name: &str) -> (r: Option<Signal>)
        ensures
            match r {
                Some(s) => self@.signals.contains_key(name@) && s@ == self@.signals[name@],
                None => !self@.signals.contains_key(name@),
            },
    {
        match self.signals.get(name) {
            Some(s) => Some(s.clone()),
            None => None,
        }
    }

    /// A copy of all signals, as (name, signal) entries with distinct
    /// names.
    pub fn signals(&self) -> (r: Vec<(String, Signal)>)
        ensures
            keyed_map(r@) == self@.signals,
            distinct_keys(r@),
    {
        let es = self.signals.entries();
        let mut out: Vec<(String, Signal)> = Vec::new();
        let mut i: usize = 0;
        while i < es.len()
            invariant
                i <= es@.len(),
                out@.len() == i,
                forall|j: int| 0 <= j < i ==> #[trigger] out@[j].0@ == es@[j].0@ && out@[j].1@
                    == es@[j].1@,
            decreases es.len() - i,
        {
            out.push((es[i].0.clone(), es[i].1.clone()));
            i = i + 1;
        }
        proof {
            lemma_keyed_same(out@, es@);
        }
        out
    }

    /// The schedule table named `name`, if the file declares one.
    pub fn schedule(&self, name: &str) -> (r: Option<Vec<ScheduleEntry>>)
        ensures
            match r {
                Some(s) => self@.schedules.contains_key(name@) && s@ == self@.schedules[name@],
                None => !self@.schedules.contains_key(name@),
            },
    {
        match self.schedules.get(name) {
            Some(s) => Some(clone_entries(s)),
            None => None,
        }
    }

    /// The values of the signals of frame `id` in the payload `data`, read
    /// least significant bit first; `None` when the file declares no frame
    /// `id`.
    /// Whether `decode` can read `data` for frame `id`: every declared
    /// signal of the frame can be read with `extract_bits`.
    pub fn can_decode(&self, id: u8, data: &[u8]) -> (r: bool)
        ensures
            r == decode_ok(self@, id, data@),
    {
        match self.frames.get(&id) {
            None => true,
            Some(f) => {
                assert(self@.frames.contains_key(id) && self@.frames[id] == f@);
                let mut i: usize = 0;
                while i < f.signals.len()
                    invariant
                        i <= f.signals@.len(),
                        self@.frames.contains_key(id),
                        self@.frames[id] == f@,
                        forall|j: int|
                            0 <= j < i && self@.signals.contains_key(
                                #[trigger] self@.frames[id].signals[j].name,
                            ) ==> extract_ok(
                                data@,
                                self@.frames[id].signals[j].bit_offset as int,
                                self@.signals[self@.frames[id].signals[j].name].bit_width as int,
                            ),
                    decreases f.signals.len() - i,
                {
                    let r = &f.signals[i];
                    proof {
                        assert(self@.frames[id].signals[i as int] == r@);
                    }
                    match self.signals.get(r.name.as_str()) {
                        Some(sig) => {
                            if !can_extract(data, r.bit_offset, sig.bit_width) {
                                proof {
                                    let n = self@.frames[id].signals[i as int].name;
                                    assert(n == r.name@);
                                    assert(self@.signals.contains_key(n));
                                    assert(self@.signals[n].bit_width == sig@.bit_width);
                                }
                                return false;
                            }
                        },
                        None => {},
                    }
                    i = i + 1;
                }
                true
            },
        }
    }

    pub fn decode(&self, id: u8, data: &[u8]) -> (r: Option<Keyed<u64>>)
        requires
            decode_ok(self@, id, data@),
        ensures
            match r {
                Some(m) => self@.frames.contains_key(id) && m@ == decode_refs(
                    self@.frames[id].signals,
                    self@.signals,
                    data@,
                ),
                None => !self@.frames.contains_key(id),
            },
    {
        match self.frames.get(&id) {
            None => None,
            Some(f) => {
                let ghost refs = f@.signals;
                assert(self@.frames.contains_key(id) && self@.frames[id] == f@);
                let mut out: Keyed<u64> = Keyed::new();
                let mut i: usize = 0;
                while i < f.signals.len()
                    invariant
                        i <= f.signals@.len(),
                        refs == f@.signals,
                        self@.frames.contains_key(id),
                        self@.frames[id] == f@,
                        decode_ok(self@, id, data@),
                        out@ == decode_refs(refs.take(i as int), self@.signals, data@),
                    decreases f.signals.len() - i,
                {
                    let r = &f.signals[i];
                    proof {
                        assert(refs.take(i + 1).drop_last() =~= refs.take(i as int));
                        assert(refs.take(i + 1).last() == r@);
                        assert(refs[i as int] == r@);
                    }
                    match self.signals.get(r.name.as_str()) {
                        Some(sig) => {
                            proof {
                                assert(self@.frames[id].signals[i as int].name == r.name@);
                            }
                            let v = extract_bits(data, r.bit_offset, sig.bit_width);
                            out.insert(r.name.clone(), v);
                        },
                        None => {},
                    }
                    i = i + 1;
                }
                proof {
                    assert(refs.take(f.signals@.len() as int) =~= refs);
                }
                Some(out)
            },
        }
    }
}

// ---------------------------------------------------------------------------
// Laws
// ---------------------------------------------------------------------------

/// The parts of the parser's state that decide which lines are read how.
pub open spec fn same_course(p: ParseView, q: ParseView) -> bool {
    &&& p.section == q.section
    &&& p.opening == q.opening
    &&& p.tokens == q.tokens
}

proof fn lemma_step_course(p: ParseView, q: ParseView, raw: Seq<char>, d1: Seq<Option<u64>>, d2: Seq<Option<u64>>)
    requires
        same_course(p, q),
    ensures
        same_course(line_step(p, raw, d1), line_step(q, raw, d2)),
{
}

proof fn lemma_run_course(lines: Seq<Seq<char>>, d1: Seq<Option<u64>>, d2: Seq<Option<u64>>)
    ensures
        same_course(run_lines(lines, d1), run_lines(lines, d2)),
    decreases lines.len(),
{
    if lines.len() > 0 {
        lemma_run_course(lines.drop_last(), d1, d2);
        lemma_step_course(
            run_lines(lines.drop_last(), d1),
            run_lines(lines.drop_last(), d2),
            lines.last(),
            d1,
            d2,
        );
    }
}

/// The decimal tokens the parser meets do not depend on the values given
/// for them: whatever values are given, `parse` reads exactly the tokens
/// that `decimal_tokens` lists, the `k`-th of them taking the `k`-th value.
pub proof fn lemma_tokens_independent(text: Seq<char>, dec: Seq<Option<u64>>)
    ensures
        run_lines(text_lines(text), dec).tokens == ldf_tokens(text),
{
    lemma_run_course(text_lines(text), dec, Seq::empty());
}

/// What every parser state keeps: each stored frame sits under its own
/// identifier, which is at most 0x3F, as is the identifier of a frame being
/// read; and every schedule entry, stored or being read, is the identifier
/// of a stored frame.
pub open spec fn parse_inv(p: ParseView) -> bool {
    &&& forall|k: u8| #[trigger] p.db.frames.contains_key(k) ==> p.db.frames[k].id == k && k <= 0x3F
    &&& p.section == Section::FrameBody ==> p.frame.id <= 0x3F
    &&& forall|n: Seq<char>, i: int|
        #![trigger p.db.schedules[n][i]]
        p.db.schedules.contains_key(n) && 0 <= i < p.db.schedules[n].len()
            ==> p.db.frames.contains_key(p.db.schedules[n][i].id)
    &&& forall|i: int| 0 <= i < p.entries.len() ==> p.db.frames.contains_key(#[trigger] p.entries[i].id)
}

/// The search for a frame by name finds a frame of that name, or gives 0xFF.
proof fn lemma_first_id_named(frames: Map<u8, FrameView>, name: Seq<char>, k: int)
    ensures
        first_id_named(frames, name, k) == 0xFF || (frames.contains_key(first_id_named(frames, name, k))
            && frames[first_id_named(frames, name, k)].name == name),
    decreases 256 - k,
{
    if 0 <= k < 256 && !(frames.contains_key(k as u8) && frames[k as u8].name == name) {
        lemma_first_id_named(frames, name, k + 1);
    }
}

/// A line of a schedule table's body only ever appends to the table: an
/// `AssignFrameId` line, or one whose second word is not `delay`, adds
/// nothing, and an added entry names a frame of the database by the
/// line's first word and carries that frame's identifier (at most 0x3F),
/// with the delay read from the third word (0 when it does not parse).
pub proof fn lemma_schedule_line_appends(p: ParseView, l: Seq<char>, dec: Seq<Option<u64>>)
    ensures
        ({
            let r = schedule_body_line(p, l, dec);
            let l2 = trim(trim_end_char(l, ';'));
            let parts = split_ws(l2);
            &&& r.db == p.db
            &&& r.table == p.table
            &&& (starts_with(l2, "AssignFrameId"@) || !(parts.len() >= 3 && eq_ignore_case(
                parts[1],
                "delay"@,
            ))) ==> r.entries == p.entries
            &&& r.entries == p.entries || (r.entries.len() == p.entries.len() + 1
                && r.entries.drop_last() == p.entries && p.db.frames.contains_key(
                r.entries.last().id,
            ) && p.db.frames[r.entries.last().id].name == parts[0] && r.entries.last().id
                <= 0x3F && r.entries.last().delay_ms == (match uint_read(p.tokens, parts[2], dec).0 {
                Some(v) => v,
                None => 0,
            }) as u32)
        }),
{
    let l2 = trim(trim_end_char(l, ';'));
    let parts = split_ws(l2);
    if !starts_with(l2, "AssignFrameId"@) && parts.len() >= 3 && eq_ignore_case(
        parts[1],
        "delay"@,
    ) {
        lemma_first_id_named(p.db.frames, parts[0], 0);
        let r = schedule_body_line(p, l, dec);
        if r.entries != p.entries {
            assert(r.entries.drop_last() =~= p.entries);
        }
    }
}

proof fn lemma_step_inv(p: ParseView, raw: Seq<char>, dec: Seq<Option<u64>>)
    requires
        parse_inv(p),
    ensures
        parse_inv(line_step(p, raw, dec)),
{
    let l = trim(strip_comment(raw));
    if l.len() > 0 && !(p.opening && starts_with(l, "{"@)) {
        let q = ParseView { opening: false, ..p };
        match q.section {
            Section::FrameBody => {
                if l == "}"@ {
                    let r = frame_body_step(q, l);
                    assert forall|k: u8| #[trigger] r.db.frames.contains_key(k) implies r.db.frames[k].id
                        == k && k <= 0x3F by {
                        if k != q.frame.id {
                            assert(q.db.frames.contains_key(k));
                        }
                    }
                    assert forall|n: Seq<char>, i: int|
                        r.db.schedules.contains_key(n) && 0 <= i < r.db.schedules[n].len() implies r.db.frames.contains_key(
                        #[trigger] r.db.schedules[n][i].id,
                    ) by {
                        assert(q.db.frames.contains_key(q.db.schedules[n][i].id));
                    }
                    assert forall|i: int| 0 <= i < r.entries.len() implies r.db.frames.contains_key(
                        #[trigger] r.entries[i].id,
                    ) by {
                        assert(q.db.frames.contains_key(q.entries[i].id));
                    }
                }
            },
            Section::Frames => {
                let r = frames_step(q, l);
                if l != "}"@ && find_char(l, '{') is Some {
                    match frame_header(l) {
                        Some(f) => {
                            assert(r.frame.id <= 0x3F);
                        },
                        None => {},
                    }
                }
            },
            Section::ScheduleBody => {
                if l == "}"@ {
                    let r = schedule_body_step(q, l, dec);
                    assert forall|n: Seq<char>, i: int|
                        r.db.schedules.contains_key(n) && 0 <= i < r.db.schedules[n].len() implies r.db.frames.contains_key(
                        #[trigger] r.db.schedules[n][i].id,
                    ) by {
                        if n != q.table {
                            assert(q.db.schedules.contains_key(n));
                            assert(q.db.schedules[n][i] == r.db.schedules[n][i]);
                        } else {
                            assert(q.entries[i] == r.db.schedules[n][i]);
                        }
                    }
                } else {
                    let r = schedule_body_line(q, l, dec);
                    let l2 = trim(trim_end_char(l, ';'));
                    let parts = split_ws(l2);
                    if !starts_with(l2, "AssignFrameId"@) && parts.len() >= 3 {
                        lemma_first_id_named(q.db.frames, parts[0], 0);
                        let id = frame_id_by_name(q.db.frames, parts[0]);
                        if id <= 0x3F {
                            assert(q.db.frames.contains_key(id)) by {
                                if !q.db.frames.contains_key(id) {
                                    assert(id == 0xFF);
                                }
                            }
                        }
                    }
                    assert forall|i: int| 0 <= i < r.entries.len() implies r.db.frames.contains_key(
                        #[trigger] r.entries[i].id,
                    ) by {
                        if i < q.entries.len() {
                            assert(r.entries[i] == q.entries[i]);
                        }
                    }
                }
            },
            _ => {},
        }
    }
}

proof fn lemma_run_inv(lines: Seq<Seq<char>>, dec: Seq<Option<u64>>)
    ensures
        parse_inv(run_lines(lines, dec)),
    decreases lines.len(),
{
    if lines.len() > 0 {
        lemma_run_inv(lines.drop_last(), dec);
        lemma_step_inv(run_lines(lines.drop_last(), dec), lines.last(), dec);
    }
}

/// Every frame of a parsed database is stored under its own identifier,
/// which is at most 0x3F, and every entry of every schedule table is the
/// identifier of a frame of the database (so it is at most 0x3F too).
pub proof fn lemma_db_well_formed(text: Seq<char>, dec: Seq<Option<u64>>)
    ensures
        forall|k: u8| #[trigger]
            ldf_db(text, dec).frames.contains_key(k) ==> ldf_db(text, dec).frames[k].id == k && k
                <= 0x3F,
        forall|n: Seq<char>, i: int|
            #![trigger ldf_db(text, dec).schedules[n][i]]
            ldf_db(text, dec).schedules.contains_key(n) && 0 <= i < ldf_db(
                text,
                dec,
            ).schedules[n].len() ==> ldf_db(text, dec).frames.contains_key(
                ldf_db(text, dec).schedules[n][i].id,
            ) && ldf_db(text, dec).schedules[n][i].id <= 0x3F,
{
    let p = run_lines(text_lines(text), dec);
    lemma_run_inv(text_lines(text), dec);
    let d = ldf_db(text, dec);
    assert forall|k: u8| #[trigger] d.frames.contains_key(k) implies d.frames[k].id == k && k <= 0x3F by {
        if p.section == Section::FrameBody && k != p.frame.id {
            assert(p.db.frames.contains_key(k));
        }
    }
    assert forall|n: Seq<char>, i: int|
        d.schedules.contains_key(n) && 0 <= i < d.schedules[n].len() implies d.frames.contains_key(
        #[trigger] d.schedules[n][i].id,
    ) && d.schedules[n][i].id <= 0x3F by {
        if p.section == Section::ScheduleBody {
            if n != p.table {
                assert(p.db.schedules.contains_key(n));
                assert(p.db.schedules[n][i] == d.schedules[n][i]);
                assert(p.db.frames.contains_key(d.schedules[n][i].id));
            } else {
                assert(p.entries[i] == d.schedules[n][i]);
                assert(p.db.frames.contains_key(d.schedules[n][i].id));
            }
        } else {
            assert(p.db.schedules[n][i] == d.schedules[n][i]);
            assert(p.db.frames.contains_key(d.schedules[n][i].id));
        }
        assert(d.frames.contains_key(d.schedules[n][i].id));
    }
}

/// The state after reading `lines` from state `p`.
pub open spec fn run_from(p: ParseView, lines: Seq<Seq<char>>, dec: Seq<Option<u64>>) -> ParseView
    decreases lines.len(),
{
    if lines.len() == 0 {
        p
    } else {
        line_step(run_from(p, lines.drop_last(), dec), lines.last(), dec)
    }
}

/// Two parser states that agree on everything the parser still reads:
/// the database, the section and the tokens, and the frame or schedule
/// table being read when inside its body. What is left over from an
/// earlier frame or table may differ.
pub open spec fn agree_but_leftovers(p: ParseView, q: ParseView) -> bool {
    &&& p.db == q.db
    &&& p.section == q.section
    &&& p.opening == q.opening
    &&& p.tokens == q.tokens
    &&& p.section == Section::FrameBody ==> p.frame == q.frame
    &&& p.section == Section::ScheduleBody ==> p.table == q.table && p.entries == q.entries
}

proof fn lemma_step_agree(p: ParseView, q: ParseView, raw: Seq<char>, dec: Seq<Option<u64>>)
    requires
        agree_but_leftovers(p, q),
    ensures
        agree_but_leftovers(line_step(p, raw, dec), line_step(q, raw, dec)),
{
}

proof fn lemma_run_agree(p: ParseView, q: ParseView, lines: Seq<Seq<char>>, dec: Seq<Option<u64>>)
    requires
        agree_but_leftovers(p, q),
    ensures
        agree_but_leftovers(run_from(p, lines, dec), run_from(q, lines, dec)),
    decreases lines.len(),
{
    if lines.len() > 0 {
        lemma_run_agree(p, q, lines.drop_last(), dec);
        lemma_step_agree(run_from(p, lines.drop_last(), dec), run_from(q, lines.drop_last(), dec), lines.last(), dec);
    }
}

/// A frame's signal placements and a schedule table's entries come only
/// from their own bodies: two parser states that differ only in the frame
/// or table left over from before end with the same database, whatever
/// lines follow. In particular a frame with an empty body has no signals,
/// and a table holds none of the entries of the tables before it.
pub proof fn lemma_leftovers_forgotten(
    p: ParseView,
    q: ParseView,
    lines: Seq<Seq<char>>,
    dec: Seq<Option<u64>>,
)
    requires
        agree_but_leftovers(p, q),
    ensures
        finish(run_from(p, lines, dec)) == finish(run_from(q, lines, dec)),
{
    lemma_run_agree(p, q, lines, dec);
}

proof fn lemma_run_lines_from(lines: Seq<Seq<char>>, dec: Seq<Option<u64>>)
    ensures
        run_lines(lines, dec) == run_from(initial_parse(), lines, dec),
    decreases lines.len(),
{
    if lines.len() > 0 {
        lemma_run_lines_from(lines.drop_last(), dec);
    }
}

#[verifier::spinoff_prover]
proof fn lemma_run_from_append(
    p: ParseView,
    a: Seq<Seq<char>>,
    b: Seq<Seq<char>>,
    dec: Seq<Option<u64>>,
)
    ensures
        run_from(p, a + b, dec) == run_from(run_from(p, a, dec), b, dec),
    decreases b.len(),
{
    if b.len() == 0 {
        assert(a + b =~= a);
    } else {
        lemma_run_from_append(p, a, b.drop_last(), dec);
        let ab = a + b;
        assert(ab.drop_last() =~= a + b.drop_last());
        assert(ab.last() == b.last());
        let mid = run_from(p, ab.drop_last(), dec);
        assert(mid == run_from(run_from(p, a, dec), b.drop_last(), dec));
        assert(run_from(p, ab, dec) == line_step(mid, b.last(), dec));
    }
}

/// A parser state with nothing left over: no frame, no table, no entries.
pub open spec fn without_leftovers(p: ParseView) -> ParseView {
    ParseView { frame: empty_frame(), table: Seq::empty(), entries: Seq::empty(), ..p }
}

/// Once the lines `a` have been read and the parser is outside any frame
/// or table body, the lines `b` after them are read as if nothing of an
/// earlier frame or table had been kept: the database of the whole file is
/// the one got by reading `b` from a state with no frame, table or entries.
pub proof fn lemma_later_lines_read_afresh(
    a: Seq<Seq<char>>,
    b: Seq<Seq<char>>,
    dec: Seq<Option<u64>>,
)
    requires
        run_lines(a, dec).section != Section::FrameBody,
        run_lines(a, dec).section != Section::ScheduleBody,
    ensures
        finish(run_lines(a + b, dec)) == finish(
            run_from(without_leftovers(run_lines(a, dec)), b, dec),
        ),
{
    lemma_run_lines_from(a + b, dec);
    lemma_run_lines_from(a, dec);
    lemma_run_from_append(initial_parse(), a, b, dec);
    lemma_leftovers_forgotten(run_lines(a, dec), without_leftovers(run_lines(a, dec)), b, dec);
}

} // verus!
