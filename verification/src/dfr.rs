//! The recorder dump (`.dfr`, read only): a Cyrillic text header followed, after a
//! `[Data]\r\n` marker, by a device identifier, an optional device-private header and the
//! sample frames.

use vstd::prelude::*;

use crate::cfg::{digits_count, extract_digits};
use crate::cfg::channel::uint_or_zero;
use crate::dat::binary::{
    bit, bit_at, le_u16, lemma_field_bounds, lemma_record_bounds, read_i16, read_u16,
    records_read, signed16, status_words, RawDat,
};
use crate::dmf::xml_writer::texts;
use crate::time::{day_micros, days_before_year, micros_limit, micros_of, valid, Timestamp};
use crate::error::{BinaryReason, Error, FileRole, ParseReason};
use crate::text::{
    chars_eq_str, chars_to_string, field_or_empty, field_copy, lines, lines_of, parse_uint,
    parse_uint_chars, split_trimmed, str_chars, trim, trim_chars, trimmed_fields, views,
};

verus! {

/// Size of the text header of a recorder dump without a data marker.
pub const WNDR_TEXT_SIZE: usize = 4088;

/// The size of the private header that a known device writes after its identifier.
pub open spec fn header_size_of(id: Seq<char>) -> Option<nat> {
    if id == seq!['2', '7', '0', '4', 'V', '0', '4', '2'] || id == seq![
        '2',
        '7',
        '0',
        '4',
        'V',
        '0',
        '7',
        '2',
    ] {
        Some(248)
    } else {
        None
    }
}

/// The private header size of a known device (`2704V042`, `2704V072`: 248 bytes).
pub fn device_header_size(device_id: &str) -> (r: Option<usize>)
    ensures
        match r {
            Some(v) => header_size_of(device_id@) == Some(v as nat),
            None => header_size_of(device_id@) is None,
        },
{
    let cs = str_chars(device_id);
    proof {
        reveal_strlit("2704V042");
        reveal_strlit("2704V072");
        assert("2704V042"@ =~= seq!['2', '7', '0', '4', 'V', '0', '4', '2']);
        assert("2704V072"@ =~= seq!['2', '7', '0', '4', 'V', '0', '7', '2']);
    }
    if chars_eq_str(cs.as_slice(), "2704V042") || chars_eq_str(cs.as_slice(), "2704V072") {
        Some(248)
    } else {
        None
    }
}

/// A byte of a device identifier: ASCII letter, digit or `_`.
pub open spec fn id_byte(x: u8) -> bool {
    (48u8 <= x <= 57u8) || (65u8 <= x <= 90u8) || (97u8 <= x <= 122u8) || x == 95u8
}

/// Length of the device identifier at the start of the binary area: its identifier bytes,
/// at most 32.
pub open spec fn id_len_from(b: Seq<u8>, i: int) -> int
    decreases b.len() - i,
{
    if 0 <= i < b.len() && i < 32 && id_byte(b[i]) {
        id_len_from(b, i + 1)
    } else {
        i
    }
}

/// The characters of identifier bytes.
pub open spec fn id_chars(b: Seq<u8>) -> Seq<char> {
    b.map_values(|x: u8| x as char)
}

/// The binary area of a recorder dump.
#[derive(Debug, Clone, Default)]
pub struct DfrBinary {
    /// Device identifier (at most 32 letters, digits or `_`).
    pub device_id: String,
    /// Device-private header.
    pub bin_header: Vec<u8>,
    /// Sample frames.
    pub frame_data: Vec<u8>,
}

proof fn lemma_id_len(b: Seq<u8>, i: int)
    requires
        0 <= i <= b.len(),
        i <= 32,
    ensures
        i <= id_len_from(b, i) <= b.len(),
        id_len_from(b, i) <= 32,
    decreases b.len() - i,
{
    if i < b.len() && i < 32 && id_byte(b[i]) {
        lemma_id_len(b, i + 1);
    }
}

impl DfrBinary {
    /// Splits the bytes after the data marker: the identifier, then the private header of
    /// a known device (when it fits), then the frames.
    pub fn from_raw(data: &[u8]) -> (r: DfrBinary)
        ensures
            ({
                let n = data@.len() as int;
                let pos = id_len_from(data@, 0);
                let hs: int = match header_size_of(id_chars(data@.take(pos))) {
                    Some(v) => v as int,
                    None => 0,
                };
                let end = pos + hs;
                &&& r.device_id@ == id_chars(data@.take(pos))
                &&& r.bin_header@ == if hs > 0 && end <= n {
                    data@.subrange(pos, end)
                } else {
                    Seq::<u8>::empty()
                }
                &&& r.frame_data@ == if end < n {
                    data@.subrange(end, n)
                } else {
                    Seq::<u8>::empty()
                }
            }),
    {
        let n = data.len();
        let mut id: Vec<char> = Vec::new();
        let mut pos: usize = 0;
        proof {
            lemma_id_len(data@, 0);
        }
        while pos < n && pos < 32 && (('0' as u8) <= data[pos] && data[pos] <= ('9' as u8) || ('A'
            as u8) <= data[pos] && data[pos] <= ('Z' as u8) || ('a' as u8) <= data[pos] && data[pos]
            <= ('z' as u8) || data[pos] == ('_' as u8))
            invariant
                n == data@.len(),
                pos <= n,
                pos <= 32,
                id_len_from(data@, pos as int) == id_len_from(data@, 0),
                id@ == id_chars(data@.take(pos as int)),
            decreases n - pos,
        {
            id.push(data[pos] as char);
            pos = pos + 1;
            assert(id@ =~= id_chars(data@.take(pos as int)));
        }
        let device_id = crate::text::chars_to_string(id.as_slice());
        let hs: usize = match device_header_size(device_id.as_str()) {
            Some(v) => v,
            None => 0,
        };
        let end = pos + hs;
        let bin_header = if hs > 0 && end <= n {
            copy_bytes(data, pos, end)
        } else {
            Vec::new()
        };
        let frame_data = if end < n {
            copy_bytes(data, end, n)
        } else {
            Vec::new()
        };
        DfrBinary { device_id, bin_header, frame_data }
    }
}

fn copy_bytes(b: &[u8], a: usize, e: usize) -> (r: Vec<u8>)
    requires
        a <= e <= b@.len(),
    ensures
        r@ == b@.subrange(a as int, e as int),
{
    let mut r: Vec<u8> = Vec::new();
    let mut k = a;
    while k < e
        invariant
            a <= k <= e,
            e <= b@.len(),
            r@ == b@.subrange(a as int, k as int),
        decreases e - k,
    {
        r.push(b[k]);
        k = k + 1;
        assert(r@ =~= b@.subrange(a as int, k as int));
    }
    r
}

/// The bytes `[Data]\r\n`.
pub open spec fn data_marker() -> Seq<u8> {
    seq![91u8, 68u8, 97u8, 116u8, 97u8, 93u8, 13u8, 10u8]
}

/// The data marker stands at `p`.
pub open spec fn data_marker_at(b: Seq<u8>, p: int) -> bool {
    0 <= p && p + 8 <= b.len() && b.subrange(p, p + 8) == data_marker()
}

/// Where the binary area starts: right after the first data marker.
pub open spec fn after_data_marker(b: Seq<u8>) -> Option<int> {
    if exists|p: int| data_marker_at(b, p) {
        let p = choose|p: int| data_marker_at(b, p) && forall|q: int| 0 <= q < p ==> !data_marker_at(b, q);
        Some(p + 8)
    } else {
        None
    }
}

fn marker_at(b: &[u8], p: usize) -> (r: bool)
    ensures
        r == data_marker_at(b@, p as int),
{
    let n = b.len();
    if p > n || n - p < 8 {
        return false;
    }
    let m: [u8; 8] = [91, 68, 97, 116, 97, 93, 13, 10];
    assert(m@ =~= data_marker());
    let mut k: usize = 0;
    while k < 8
        invariant
            n == b@.len(),
            p + 8 <= n,
            k <= 8,
            m@ == data_marker(),
            forall|j: int| 0 <= j < k ==> b@[p + j] == m@[j],
        decreases 8 - k,
    {
        if b[p + k] != m[k] {
            assert(b@.subrange(p as int, p as int + 8)[k as int] != data_marker()[k as int]);
            return false;
        }
        k = k + 1;
    }
    assert(b@.subrange(p as int, p as int + 8) =~= data_marker());
    true
}

/// Where the binary area starts: right after the first `[Data]\r\n`, if there is one.
pub fn find_data_marker(data: &[u8]) -> (r: Option<usize>)
    ensures
        match r {
            Some(o) => after_data_marker(data@) == Some(o as int),
            None => after_data_marker(data@) is None,
        },
{
    let n = data.len();
    let mut p: usize = 0;
    while p < n
        invariant
            n == data@.len(),
            p <= n,
            forall|q: int| 0 <= q < p ==> !data_marker_at(data@, q),
        decreases n - p,
    {
        if marker_at(data, p) {
            proof {
                let c = choose|c: int| data_marker_at(data@, c) && forall|q: int| 0 <= q < c ==> !data_marker_at(data@, q);
                assert(data_marker_at(data@, c) && forall|q: int| 0 <= q < c ==> !data_marker_at(data@, q));
                if c < p {
                    assert(!data_marker_at(data@, c));
                }
                if c > p {
                    assert(!data_marker_at(data@, p as int));
                }
            }
            return Some(p + 8);
        }
        p = p + 1;
    }
    proof {
        if exists|q: int| data_marker_at(data@, q) {
            let q = choose|q: int| data_marker_at(data@, q);
            assert(q + 8 <= n);
        }
    }
    None
}

/// Where the binary area of a recorder dump starts: after its data marker; without one,
/// after the fixed-size text header; a file shorter than that header and without a marker
/// is refused.
pub fn binary_offset(data: &[u8]) -> (r: Result<usize, Error>)
    ensures
        match after_data_marker(data@) {
            Some(o) => r == Ok::<usize, Error>(o as usize),
            None => if data@.len() >= WNDR_TEXT_SIZE {
                r == Ok::<usize, Error>(WNDR_TEXT_SIZE)
            } else {
                r == Err::<usize, Error>(
                    Error::Binary {
                        role: FileRole::Dfr,
                        offset: data@.len() as usize,
                        reason: BinaryReason::MissingDataMarker,
                    },
                )
            },
        },
{
    match find_data_marker(data) {
        Some(o) => Ok(o),
        None => if data.len() >= WNDR_TEXT_SIZE {
            Ok(WNDR_TEXT_SIZE)
        } else {
            Err(
                Error::Binary {
                    role: FileRole::Dfr,
                    offset: data.len(),
                    reason: BinaryReason::MissingDataMarker,
                },
            )
        },
    }
}

/// A status channel of the text header.
#[derive(Debug, Clone, Default)]
pub struct WndrStatusChannel {
    /// Channel number.
    pub idx: usize,
    /// Channel name.
    pub name: String,
}

/// The analog and status counts of the header's count line `total,xxA,yyD`: the digits of
/// the second and third fields, 0 where there are none or they do not fit.
pub open spec fn wndr_counts(line: Seq<char>) -> (nat, nat) {
    let fs = trimmed_fields(line, ',');
    let get = |i: int|
        if i < fs.len() {
            match digits_count(fs[i]) {
                Some(v) => v,
                None => 0,
            }
        } else {
            0
        };
    (get(1), get(2))
}

/// Reads the header's count line (see `wndr_counts`).
pub fn parse_channel_count(line: &str) -> (r: (usize, usize))
    ensures
        (r.0 as nat, r.1 as nat) == wndr_counts(line@),
{
    let cs = str_chars(line);
    let parts = split_trimmed(cs.as_slice(), ',');
    let a = if parts.len() > 1 {
        proof {
            assert(views(parts@)[1] == parts@[1]@);
        }
        match extract_digits(parts[1].as_slice()) {
            Some(v) => v,
            None => 0,
        }
    } else {
        0
    };
    let s = if parts.len() > 2 {
        proof {
            assert(views(parts@)[2] == parts@[2]@);
        }
        match extract_digits(parts[2].as_slice()) {
            Some(v) => v,
            None => 0,
        }
    } else {
        0
    };
    (a, s)
}


/// Full-scale value of the header when its line gives none.
pub const DEFAULT_FULL_SCALE: u32 = 32768;

/// Samples per cycle of the header when its line gives none.
pub const DEFAULT_SAMPLES_PER_CYCLE: u32 = 24;

/// The text header laid out in lines; the analog channel lines are kept as text.
#[derive(Debug, Clone, Default)]
pub struct WndrLayout {
    /// Station name (second line, trimmed).
    pub station_name: String,
    /// The analog channel lines, as many as the count line announces and the text holds.
    pub analog_lines: Vec<String>,
    /// The status channels, as many as the count line announces and the text holds.
    pub status_channels: Vec<WndrStatusChannel>,
    /// Full-scale value.
    pub full_scale: u32,
    /// Samples per cycle.
    pub samples_per_cycle: u32,
    /// Total number of samples.
    pub total_samples: usize,
}

/// Line `i`, empty past the end.
pub open spec fn at_line(ls: Seq<Seq<char>>, i: int) -> Seq<char> {
    if 0 <= i < ls.len() {
        ls[i]
    } else {
        seq![]
    }
}

/// How many of `count` lines announced from line `from` on the text holds.
pub open spec fn lines_taken(count: nat, from: int, len: int) -> int {
    if from < len {
        if count < len - from {
            count as int
        } else {
            len - from
        }
    } else {
        0
    }
}

/// A trimmed line read as a number no larger than `max`, `d` when it is none.
pub open spec fn number_or(t: Seq<char>, max: nat, d: nat) -> nat {
    match parse_uint(trim(t), max) {
        Some(v) => v,
        None => d,
    }
}

/// A status channel line: number (0 when none) and name, comma-separated and trimmed.
pub open spec fn wndr_status_of(line: Seq<char>) -> (nat, Seq<char>) {
    let fs = trimmed_fields(line, ',');
    (uint_or_zero(field_or_empty(fs, 0), usize::MAX as nat), field_or_empty(fs, 1))
}

/// The layout of the header lines `ls`: line 1 is the magic `[WNDR]` (not checked), line 2
/// the station, line 3 the counts, then the analog lines, the status lines, and full
/// scale, samples per cycle and total samples on one line each.
pub open spec fn wndr_layout_ok(ls: Seq<Seq<char>>, w: WndrLayout) -> bool {
    let counts = if 2 < ls.len() {
        wndr_counts(ls[2])
    } else {
        (0nat, 0nat)
    };
    let na = lines_taken(counts.0, 3, ls.len() as int);
    let c2 = 3 + na;
    let nd = lines_taken(counts.1, c2, ls.len() as int);
    let c3 = c2 + nd;
    &&& w.station_name@ == trim(at_line(ls, 1))
    &&& texts(w.analog_lines@) == Seq::new(na as nat, |i: int| ls[3 + i])
    &&& w.status_channels@.len() == nd
    &&& forall|i: int|
        0 <= i < nd ==> (#[trigger] w.status_channels@[i].idx as nat, w.status_channels@[i].name@)
            == wndr_status_of(ls[c2 + i])
    &&& w.full_scale == number_or(at_line(ls, c3), u32::MAX as nat, DEFAULT_FULL_SCALE as nat)
    &&& w.samples_per_cycle == number_or(
        at_line(ls, c3 + 1),
        u32::MAX as nat,
        DEFAULT_SAMPLES_PER_CYCLE as nat,
    )
    &&& w.total_samples == number_or(at_line(ls, c3 + 2), usize::MAX as nat, 0)
}

fn number_line(ls: &Vec<Vec<char>>, i: usize, max: u64, d: u64) -> (r: u64)
    requires
        d <= max,
    ensures
        r == number_or(at_line(views(ls@), i as int), max as nat, d as nat),
        r <= max,
{
    if i < ls.len() {
        proof {
            assert(views(ls@)[i as int] == ls@[i as int]@);
        }
        let t = trim_chars(ls[i].as_slice());
        match parse_uint_chars(t.as_slice(), max) {
            Some(v) => v,
            None => d,
        }
    } else {
        let t: Vec<char> = Vec::new();
        proof {
            assert(trim(Seq::<char>::empty()) =~= Seq::<char>::empty());
        }
        match parse_uint_chars(t.as_slice(), max) {
            Some(v) => v,
            None => d,
        }
    }
}

fn wndr_status_line(line: &[char]) -> (r: WndrStatusChannel)
    ensures
        (r.idx as nat, r.name@) == wndr_status_of(line@),
{
    let parts = split_trimmed(line, ',');
    let f0 = field_copy(&parts, 0);
    let f1 = field_copy(&parts, 1);
    let idx = match parse_uint_chars(f0.as_slice(), usize::MAX as u64) {
        Some(v) => v as usize,
        None => 0,
    };
    WndrStatusChannel { idx, name: chars_to_string(f1.as_slice()) }
}

/// Lays out the text header of a recorder dump (see `wndr_layout_ok`); an error when the
/// text has no line.
pub fn wndr_layout(text: &str) -> (r: Result<WndrLayout, Error>)
    ensures
        match r {
            Ok(w) => lines(text@).len() > 0 && wndr_layout_ok(lines(text@), w),
            Err(e) => lines(text@).len() == 0 && e == Error::Parse {
                role: FileRole::Dfr,
                line: 0,
                reason: ParseReason::EmptyWndr,
            },
        },
{
    let cs = str_chars(text);
    let ls = lines_of(cs.as_slice());
    let ghost v = views(ls@);
    let n = ls.len();
    if n == 0 {
        return Err(Error::Parse { role: FileRole::Dfr, line: 0, reason: ParseReason::EmptyWndr });
    }
    let station = if 1 < n {
        proof {
            assert(v[1] == ls@[1]@);
        }
        trim_chars(ls[1].as_slice())
    } else {
        proof {
            assert(trim(Seq::<char>::empty()) =~= Seq::<char>::empty());
        }
        Vec::new()
    };
    let (a, d) = if 2 < n {
        proof {
            assert(v[2] == ls@[2]@);
        }
        parse_channel_count(chars_to_string(ls[2].as_slice()).as_str())
    } else {
        (0, 0)
    };
    let na: usize = if 3 < n {
        if a < n - 3 { a } else { n - 3 }
    } else {
        0
    };
    let mut analog_lines: Vec<String> = Vec::new();
    let mut i: usize = 0;
    assert(texts(analog_lines@) =~= Seq::new(0, |j: int| v[3 + j]));
    while i < na
        invariant
            i <= na,
            3 + na <= n || na == 0,
            n == ls@.len(),
            v == views(ls@),
            texts(analog_lines@) == Seq::new(i as nat, |j: int| v[3 + j]),
        decreases na - i,
    {
        proof {
            assert(v[3 + i] == ls@[3 + i]@);
        }
        let ghost prev = texts(analog_lines@);
        analog_lines.push(chars_to_string(ls[3 + i].as_slice()));
        assert(texts(analog_lines@) =~= prev.push(v[3 + i]));
        i = i + 1;
        assert(texts(analog_lines@) =~= Seq::new(i as nat, |j: int| v[3 + j]));
    }
    let c2 = 3 + na;
    let nd: usize = if c2 < n {
        if d < n - c2 { d } else { n - c2 }
    } else {
        0
    };
    let mut status_channels: Vec<WndrStatusChannel> = Vec::new();
    let mut k: usize = 0;
    while k < nd
        invariant
            k <= nd,
            c2 + nd <= n || nd == 0,
            n == ls@.len(),
            v == views(ls@),
            status_channels@.len() == k,
            forall|j: int|
                0 <= j < k ==> (#[trigger] status_channels@[j].idx as nat, status_channels@[j].name@)
                    == wndr_status_of(v[c2 + j]),
        decreases nd - k,
    {
        proof {
            assert(v[c2 + k] == ls@[c2 + k]@);
        }
        status_channels.push(wndr_status_line(ls[c2 + k].as_slice()));
        k = k + 1;
    }
    let c3 = c2 + nd;
    let full_scale = number_line(&ls, c3, u32::MAX as u64, 32768) as u32;
    let samples_per_cycle = if c3 < usize::MAX {
        number_line(&ls, c3 + 1, u32::MAX as u64, 24) as u32
    } else {
        24
    };
    let total_samples = if c3 < usize::MAX - 1 {
        number_line(&ls, c3 + 2, usize::MAX as u64, 0) as usize
    } else {
        0
    };
    let w = WndrLayout {
        station_name: chars_to_string(station.as_slice()),
        analog_lines,
        status_channels,
        full_scale,
        samples_per_cycle,
        total_samples,
    };
    proof {
        if 2 < n {
            assert(v[2] == ls@[2]@);
        }
    }
    Ok(w)
}


/// The timestamp that the header falls back to: 2000-01-01 00:00:00.
pub open spec fn fallback_time() -> Timestamp {
    Timestamp { year: 2000, month: 1, day: 1, hour: 0, minute: 0, second: 0, micro: 0 }
}

/// The timestamp `secs` seconds and `micros` microseconds after 1970-01-01 00:00:00 (a
/// file's modification time as a duration since the Unix epoch); 2000-01-01 00:00:00 when
/// `micros` is a million or more. The date must fall before year 65536.
pub fn system_time_to_timestamp(secs: u64, micros: u32) -> (t: Timestamp)
    requires
        secs / 86400 < days_before_year(65536) - days_before_year(1970),
    ensures
        micros <= 999_999 ==> valid(t) && micros_of(t) == days_before_year(1970) * day_micros()
            + secs * 1_000_000 + micros,
        micros > 999_999 ==> t == fallback_time(),
{
    if micros > 999_999 {
        return Timestamp { year: 2000, month: 1, day: 1, hour: 0, minute: 0, second: 0, micro: 0 };
    }
    assert(days_before_year(1970) == 719162);
    assert(days_before_year(65536) == 23936166);
    assert(secs < 23936166 * 86400 - 719162 * 86400) by (nonlinear_arith)
        requires
            secs / 86400 < 23936166 - 719162,
    ;
    let epoch: i64 = 62_135_596_800_000_000;
    assert(epoch == days_before_year(1970) * day_micros());
    let total: i64 = epoch + (secs as i64) * 1_000_000 + micros as i64;
    assert(total < micros_limit()) by {
        assert(micros_limit() == 23936166 * 86_400_000_000);
    }
    match Timestamp::from_micros_since_epoch(total) {
        Some(t) => t,
        None => Timestamp { year: 2000, month: 1, day: 1, hour: 0, minute: 0, second: 0, micro: 0 },
    }
}


/// Bytes per sample frame: two per analog value and two per word of sixteen status bits.
pub open spec fn frame_size(ac: nat, sc: nat) -> int {
    (ac * 2 + status_words(sc) * 2) as int
}

/// What reading the sample frames in `b` gives: as many whole frames as the bytes hold,
/// no more than `end_point` when given; sample numbers 1, 2, ... (as `i32`); no
/// timestamps (frames carry none); the raw 16-bit analog values; the status bits.
pub open spec fn frames_ok(b: Seq<u8>, ac: nat, sc: nat, end_point: Option<usize>, r: RawDat) -> bool {
    let fs = frame_size(ac, sc);
    let n = records_read(b.len(), fs, end_point);
    &&& r.sample_index@.len() == n
    &&& forall|i: int| 0 <= i < n ==> #[trigger] r.sample_index@[i] == (i + 1) as i32
    &&& r.timestamps@.len() == 0
    &&& r.analogs@.len() == ac
    &&& r.statuses@.len() == sc
    &&& forall|ch: int| 0 <= ch < ac ==> (#[trigger] r.analogs@[ch])@.len() == n
    &&& forall|ch: int, i: int|
        0 <= ch < ac && 0 <= i < n ==> #[trigger] r.analogs@[ch]@[i] == signed16(
            le_u16(b, i * fs + ch * 2),
        )
    &&& forall|ch: int| 0 <= ch < sc ==> (#[trigger] r.statuses@[ch])@.len() == n
    &&& forall|ch: int, i: int|
        0 <= ch < sc && 0 <= i < n ==> #[trigger] r.statuses@[ch]@[i] == bit(
            le_u16(b, i * fs + ac * 2 + (ch / 16) * 2) as nat,
            (ch % 16) as nat,
        )
}

impl DfrBinary {
    /// Reads the sample frames for `ac` analog and `sc` status channels (see `frames_ok`);
    /// `None` when a frame has no bytes or there are no frame bytes at all.
    pub fn frames_raw(&self, ac: usize, sc: usize, end_point: Option<usize>) -> (r: Option<RawDat>)
        requires
            frame_size(ac as nat, sc as nat) <= usize::MAX,
        ensures
            r is None <==> (frame_size(ac as nat, sc as nat) == 0 || self.frame_data@.len() == 0),
            r matches Some(d) ==> frames_ok(self.frame_data@, ac as nat, sc as nat, end_point, d),
    {
        let data = self.frame_data.as_slice();
        let words: usize = sc / 16 + if sc % 16 != 0 {
            1
        } else {
            0
        };
        assert(words == status_words(sc as nat));
        let so: usize = ac * 2;
        let fs: usize = so + words * 2;
        assert(fs as int == frame_size(ac as nat, sc as nat));
        if fs == 0 || data.len() == 0 {
            return None;
        }
        let ghost b = data@;
        let dlen = data.len();
        assert(data@.len() <= usize::MAX);
        let avail = dlen / fs;
        let n: usize = match end_point {
            Some(e) => if e < avail {
                e
            } else {
                avail
            },
            None => avail,
        };
        assert(n as int == records_read(b.len(), fs as int, end_point));
        let mut sample_index: Vec<i32> = Vec::new();
        let mut i: usize = 0;
        while i < n
            invariant
                i <= n,
                sample_index@.len() == i,
                forall|j: int| 0 <= j < i ==> #[trigger] sample_index@[j] == (j + 1) as i32,
            decreases n - i,
        {
            let k: usize = i + 1;
            sample_index.push(#[verifier::truncate] (k as i32));
            i = i + 1;
        }
        let mut analogs: Vec<Vec<i32>> = Vec::new();
        let mut ch: usize = 0;
        while ch < ac
            invariant
                ch <= ac,
                n <= (data@.len() as int) / (fs as int),
                data@.len() <= usize::MAX,
                fs == so + words * 2,
                so == ac * 2,
                fs > 0,
                b == data@,
                analogs@.len() == ch,
                forall|c: int| 0 <= c < ch ==> (#[trigger] analogs@[c])@.len() == n,
                forall|c: int, j: int|
                    0 <= c < ch && 0 <= j < n ==> #[trigger] analogs@[c]@[j] == signed16(
                        le_u16(b, j * fs + c * 2),
                    ),
            decreases ac - ch,
        {
            proof {
                lemma_field_bounds(ch as int, ac as int, 2);
            }
            let fo = ch * 2;
            let mut col: Vec<i32> = Vec::new();
            let mut j: usize = 0;
            while j < n
                invariant
                    j <= n,
                    n <= (data@.len() as int) / (fs as int),
                    data@.len() <= usize::MAX,
                    fo + 2 <= so <= fs,
                    fo == ch * 2,
                    fs > 0,
                    b == data@,
                    col@.len() == j,
                    forall|k: int|
                        0 <= k < j ==> #[trigger] col@[k] == signed16(le_u16(b, k * fs + ch * 2)),
                decreases n - j,
            {
                proof {
                    lemma_record_bounds(j as int, n as int, fs as int, data@.len() as int);
                }
                let o = j * fs + fo;
                col.push(read_i16(data, o));
                j = j + 1;
            }
            analogs.push(col);
            ch = ch + 1;
        }
        let mut statuses: Vec<Vec<u8>> = Vec::new();
        let mut ch: usize = 0;
        while ch < sc
            invariant
                ch <= sc,
                n <= (data@.len() as int) / (fs as int),
                data@.len() <= usize::MAX,
                fs == so + words * 2,
                so == ac * 2,
                words == status_words(sc as nat),
                fs > 0,
                b == data@,
                statuses@.len() == ch,
                forall|c: int| 0 <= c < ch ==> (#[trigger] statuses@[c])@.len() == n,
                forall|c: int, j: int|
                    0 <= c < ch && 0 <= j < n ==> #[trigger] statuses@[c]@[j] == bit(
                        le_u16(b, j * fs + ac * 2 + (c / 16) * 2) as nat,
                        (c % 16) as nat,
                    ),
            decreases sc - ch,
        {
            let wo = so + (ch / 16) * 2;
            assert(wo + 2 <= fs);
            let mut col: Vec<u8> = Vec::new();
            let mut j: usize = 0;
            while j < n
                invariant
                    j <= n,
                    n <= (data@.len() as int) / (fs as int),
                    data@.len() <= usize::MAX,
                    wo + 2 <= fs,
                    wo as int == ac * 2 + (ch / 16) * 2,
                    ch < sc,
                    fs > 0,
                    b == data@,
                    col@.len() == j,
                    forall|k: int|
                        0 <= k < j ==> #[trigger] col@[k] == bit(
                            le_u16(b, k * fs + ac * 2 + (ch / 16) * 2) as nat,
                            (ch % 16) as nat,
                        ),
                decreases n - j,
            {
                proof {
                    lemma_record_bounds(j as int, n as int, fs as int, data@.len() as int);
                }
                let w = read_u16(data, j * fs + wo);
                col.push(bit_at(w, ch % 16));
                j = j + 1;
            }
            statuses.push(col);
            ch = ch + 1;
        }
        Some(RawDat { sample_index, timestamps: Vec::new(), analogs, statuses })
    }
}


/// The fields of an analog-channel line of a recorder dump's header
/// (`idx,name,phase code,monitored circuit,full scale,conversion,unit,phase,...,type,rated
/// primary`); the three scale fields are decimal floats, handed on as trimmed text.
#[derive(Debug, Clone)]
pub struct WndrAnalogFields {
    /// Channel number (0 when the field is no number).
    pub idx: usize,
    /// Name.
    pub name: String,
    /// Phase code.
    pub phase_code: String,
    /// Monitored circuit.
    pub monitor_loop: String,
    /// Full-scale value, as text.
    pub full_scale: String,
    /// Conversion factor, as text.
    pub conversion_factor: String,
    /// Unit.
    pub unit: String,
    /// Phase.
    pub phase: String,
    /// Channel type (0 when the field is missing or no number).
    pub ch_type: u32,
    /// Rated primary value, as text.
    pub rated_primary: String,
}

/// `a` holds the fields of analog line `line`, which has at least eight fields.
pub open spec fn wndr_analog_ok(line: Seq<char>, a: WndrAnalogFields) -> bool {
    let fs = trimmed_fields(line, ',');
    &&& a.idx as nat == uint_or_zero(fs[0], usize::MAX as nat)
    &&& a.name@ == fs[1]
    &&& a.phase_code@ == fs[2]
    &&& a.monitor_loop@ == fs[3]
    &&& a.full_scale@ == fs[4]
    &&& a.conversion_factor@ == fs[5]
    &&& a.unit@ == fs[6]
    &&& a.phase@ == fs[7]
    &&& a.ch_type as nat == uint_or_zero(field_or_empty(fs, 12), u32::MAX as nat)
    &&& a.rated_primary@ == field_or_empty(fs, 13)
}

/// Reads an analog line of a recorder dump's header; `None` when it has fewer than
/// eight fields.
pub fn wndr_analog_fields(line: &str) -> (r: Option<WndrAnalogFields>)
    ensures
        match r {
            Some(a) => trimmed_fields(line@, ',').len() >= 8 && wndr_analog_ok(line@, a),
            None => trimmed_fields(line@, ',').len() < 8,
        },
{
    let cs = str_chars(line);
    let parts = split_trimmed(cs.as_slice(), ',');
    let ghost fs = trimmed_fields(line@, ',');
    assert(views(parts@) == fs);
    if parts.len() < 8 {
        return None;
    }
    let f0 = field_copy(&parts, 0);
    let idx: usize = match parse_uint_chars(f0.as_slice(), usize::MAX as u64) {
        Some(v) => v as usize,
        None => 0,
    };
    let f12 = field_copy(&parts, 12);
    let ch_type: u32 = match parse_uint_chars(f12.as_slice(), u32::MAX as u64) {
        Some(v) => v as u32,
        None => 0,
    };
    Some(
        WndrAnalogFields {
            idx,
            name: field_string(&parts, 1),
            phase_code: field_string(&parts, 2),
            monitor_loop: field_string(&parts, 3),
            full_scale: field_string(&parts, 4),
            conversion_factor: field_string(&parts, 5),
            unit: field_string(&parts, 6),
            phase: field_string(&parts, 7),
            ch_type,
            rated_primary: field_string(&parts, 13),
        },
    )
}

fn field_string(parts: &Vec<Vec<char>>, k: usize) -> (t: String)
    ensures
        t@ == field_or_empty(views(parts@), k as int),
{
    chars_to_string(field_copy(parts, k).as_slice())
}

} // verus!
