//! The line layout of a configuration file: which line holds what. Everything but the
//! floating-point fields (frequency, sampling rates, time multiplier and the analog
//! channel lines, which are handed on as text) is read here.

use vstd::prelude::*;

use crate::cfg::channel::{
    ccbm_reference, data_type_of, iec61850_reference, is_iec61850_reference,
    is_reference_like_ccbm, status_of_line, uint_or_zero, DataType, StatusChannel, StatusExt,
};
use crate::cfg::{
    count_error, count_fields, header_of_line, header_view, ChannelCount, Header,
    SamplingTimeQuality, TimeInfo,
};
use crate::dfr::lines_taken;
use crate::dmf::xml_writer::texts;
use crate::error::{Error, FileRole, ParseReason, TimeError};
use crate::text::{
    chars_to_string, dec, field_copy, lines, lines_of, parse_uint_chars, split, split_trimmed,
    str_chars, trim, trim_chars, trimmed_fields, upper_case, views,
};
use crate::time::{parse, parse_outcome, prepared_time_text, try_formats, Timestamp};

verus! {

/// A line without its trailing carriage returns.
pub open spec fn strip_crs(l: Seq<char>) -> Seq<char>
    decreases l.len(),
{
    if l.len() > 0 && l.last() == '\r' {
        strip_crs(l.drop_last())
    } else {
        l
    }
}

/// A line without its trailing commas.
pub open spec fn strip_commas(l: Seq<char>) -> Seq<char>
    decreases l.len(),
{
    if l.len() > 0 && l.last() == ',' {
        strip_commas(l.drop_last())
    } else {
        l
    }
}

/// The lines of a configuration text: as `str::lines` gives them, trailing carriage
/// returns removed, empty lines kept.
pub open spec fn cfg_lines(text: Seq<char>) -> Seq<Seq<char>> {
    stripped(lines(text))
}

/// Lines without their trailing carriage returns.
pub open spec fn stripped(ls: Seq<Seq<char>>) -> Seq<Seq<char>> {
    ls.map_values(|l: Seq<char>| strip_crs(l))
}

/// The number of sampling segments that line `i` announces (0 when it is no number).
pub open spec fn segment_count(ls: Seq<Seq<char>>, i: int) -> nat {
    uint_or_zero(ls[i], usize::MAX as nat)
}

/// A sampling segment line read as its rate field (as text) and its end sample.
pub open spec fn segment_entry(l: Seq<char>) -> (Seq<char>, nat) {
    let fs = trimmed_fields(l, ',');
    (fs[0], uint_or_zero(fs[1], usize::MAX as nat))
}

/// The sampling line written for a segment, `rate,end` (the rate as text without a comma
/// or surrounding white space, the end sample in decimal), reads back as that rate and
/// that end sample.
pub proof fn lemma_segment_line_round_trip(rate: Seq<char>, end: nat)
    requires
        !rate.contains(','),
        trim(rate) == rate,
        end <= usize::MAX,
    ensures
        segment_entry(rate + seq![','] + dec(end)) == (rate, end),
{
    crate::text::lemma_dec_plain(end, ',');
    crate::text::lemma_split_join(rate, ',', dec(end));
    crate::text::lemma_split_no_sep(dec(end), ',');
    crate::text::lemma_trim_noop(dec(end));
    crate::text::lemma_parse_uint_dec(end, usize::MAX as nat);
    let fs = trimmed_fields(rate + seq![','] + dec(end), ',');
    assert(fs[0] == trim(rate));
    assert(fs[1] == trim(dec(end)));
}

/// A line that gives a sampling segment: not empty, at least two comma-separated fields.
pub open spec fn is_segment_line(l: Seq<char>) -> bool {
    l.len() > 0 && split(l, ',').len() >= 2
}

/// The segments given by the `k` lines from line `from` on, in order.
pub open spec fn segment_entries(ls: Seq<Seq<char>>, from: int, k: nat) -> Seq<(Seq<char>, nat)>
    decreases k,
{
    if k == 0 {
        seq![]
    } else {
        let prev = segment_entries(ls, from, (k - 1) as nat);
        let l = ls[from + k - 1];
        if is_segment_line(l) {
            prev.push(segment_entry(l))
        } else {
            prev
        }
    }
}

/// The text of the data-type line that is looked up.
pub open spec fn data_type_field(l: Seq<char>) -> Seq<char> {
    trim(strip_commas(l))
}

/// The data type named by a data-type line.
pub open spec fn data_type_in(l: Seq<char>) -> Option<DataType> {
    data_type_of(upper_case(trim(data_type_field(l))))
}

/// Where the sampling lines start, the segment count, and where the timestamps start.
pub open spec fn time_line(ls: Seq<Seq<char>>, total: nat) -> int {
    (total + 4 + segment_count(ls, total + 3 as int)) as int
}

/// The configuration text is read up to its channel lines without an error.
pub open spec fn reaches_channels(ls: Seq<Seq<char>>, total: nat) -> bool {
    let c = time_line(ls, total);
    &&& c + 2 < ls.len()
    &&& try_formats(prepared_time_text(ls[c]), 0) is Some
    &&& try_formats(prepared_time_text(ls[c + 1]), 0) is Some
    &&& data_type_in(ls[c + 2]) is Some
}

/// The lines on which reading does not run past a line that is not there or past the
/// largest `usize`: the segment count line exists when the frequency line does, the line
/// numbers after the segment lines fit, and so do the status line numbers.
pub open spec fn cfg_readable(ls: Seq<Seq<char>>) -> bool {
    ls.len() >= 10 ==> match count_fields(ls[1]) {
        None => true,
        Some((t, a, s)) => t + 2 <= usize::MAX && (t + 2 < ls.len() ==> {
            &&& t + 3 < ls.len()
            &&& time_line(ls, t) + 2 <= usize::MAX
            &&& reaches_channels(ls, t) ==> a + 2 <= usize::MAX && (s > 0 ==> a + 1 + s
                <= usize::MAX)
        }),
    }
}

/// The error of a timestamp line that cannot be read.
pub open spec fn time_error(l: Seq<char>, e: Error) -> bool {
    parse_outcome(l, Err(e))
}

/// A status channel read from line `l`, the `i`-th (from 0): numbered `i + 1` when its line
/// gives 0; an object reference written in place of the equipment moves to its extra
/// attributes.
pub open spec fn status_entry_ok(l: Seq<char>, i: nat, c: StatusChannel) -> bool {
    let (idx, name, phase, equip, contact) = status_of_line(l);
    &&& c.index == (if idx == 0 {
        i + 1
    } else {
        idx
    })
    &&& c.name@ == name
    &&& c.phase@ == phase
    &&& c.contact == contact
    &&& if ccbm_reference(equip) || iec61850_reference(equip) {
        &&& c.equipment@ == Seq::<char>::empty()
        &&& c.ext matches Some(x)
        &&& x.reference matches Some(r)
        &&& r@ == equip
        &&& x.idx_org is None && x.channel_type is None && x.flag is None && x.contact is None
            && x.equipment_no is None
    } else {
        c.equipment@ == equip && c.ext is None
    }
}

/// The segments as values.
pub open spec fn segments_view(v: Seq<(String, usize)>) -> Seq<(Seq<char>, nat)> {
    v.map_values(|p: (String, usize)| (p.0@, p.1 as nat))
}

/// The lines of a configuration file laid out.
#[derive(Debug, Clone)]
pub struct CfgLayout {
    /// First line.
    pub header: Header,
    /// Second line.
    pub channels: ChannelCount,
    /// The analog channel lines, as many as announced and present.
    pub analog_lines: Vec<String>,
    /// The status channels, as many as announced and present.
    pub statuses: Vec<StatusChannel>,
    /// The line frequency line, as text.
    pub freq_line: String,
    /// The sampling segments: rate field (as text) and end sample.
    pub segments: Vec<(String, usize)>,
    /// Time of the first sample.
    pub start_time: Timestamp,
    /// Time of the trigger.
    pub trigger_time: Timestamp,
    /// Layout of the data file.
    pub data_type: DataType,
    /// The time-multiplier line, as text, when there is one.
    pub timemult_line: Option<String>,
    /// Time codes (1999 and later), when their line has two fields.
    pub time_info: Option<TimeInfo>,
    /// Sampling-time quality (1999 and later).
    pub sampling_time_quality: Option<SamplingTimeQuality>,
}

/// The fields of a layout read from lines `ls` whose counts are `t`, `a`, `s`.
pub open spec fn layout_fields_ok(ls: Seq<Seq<char>>, t: nat, a: nat, s: nat, l: CfgLayout) -> bool {
    let n = ls.len() as int;
    let k = segment_count(ls, t + 3 as int);
    let c = time_line(ls, t);
    let na = lines_taken(a, 2, n);
    let ns = lines_taken(s, a + 2 as int, n);
    let m = lines_taken(k, t + 4 as int, n);
    let c4 = c + 3;
    let c5 = if c4 < n {
        c4 + 1
    } else {
        c4
    };
    let c6 = if c5 < n {
        c5 + 1
    } else {
        c5
    };
    &&& header_view(l.header) == header_of_line(ls[0])
    &&& l.channels == ChannelCount { total: t as usize, analog: a as usize, status: s as usize }
    &&& texts(l.analog_lines@) == Seq::new(na as nat, |i: int| ls[2 + i])
    &&& l.statuses@.len() == ns
    &&& forall|i: int|
        0 <= i < ns ==> status_entry_ok(ls[a + 2 + i], i as nat, #[trigger] l.statuses@[i])
    &&& l.freq_line@ == ls[t + 2 as int]
    &&& segments_view(l.segments@) == segment_entries(ls, t + 4 as int, m as nat)
    &&& Some(l.start_time) == try_formats(prepared_time_text(ls[c]), 0)
    &&& Some(l.trigger_time) == try_formats(prepared_time_text(ls[c + 1]), 0)
    &&& Some(l.data_type) == data_type_in(ls[c + 2])
    &&& match l.timemult_line {
        Some(x) => c4 < n && x@ == ls[c4],
        None => c4 >= n,
    }
    &&& match l.time_info {
        Some(ti) => c5 < n && trimmed_fields(ls[c5], ',').len() >= 2 && ti.time_code@
            == trimmed_fields(ls[c5], ',')[0] && ti.local_code@ == trimmed_fields(ls[c5], ',')[1],
        None => c5 >= n || trimmed_fields(ls[c5], ',').len() < 2,
    }
    &&& match l.sampling_time_quality {
        Some(q) => c6 < n && q.tmq_code@ == trim(ls[c6]),
        None => c6 >= n,
    }
}

/// What laying out the lines `ls` gives: an error for fewer than ten lines, for a count
/// line that cannot be read, when the lines end before the sampling lines or before the
/// two timestamps and data type, for a timestamp that cannot be read, or for an unknown
/// data type (its 1-based line); else the layout.
pub open spec fn cfg_layout_ok(ls: Seq<Seq<char>>, r: Result<CfgLayout, Error>) -> bool {
    let n = ls.len();
    if n < 10 {
        r == Err::<CfgLayout, Error>(
            Error::Parse { role: FileRole::Cfg, line: 0, reason: ParseReason::TooFewLines(n as usize) },
        )
    } else {
        match count_fields(ls[1]) {
            None => r matches Err(e) && count_error(ls[1], e),
            Some((t, a, s)) => {
                let c = time_line(ls, t);
                if t + 2 >= n {
                    r == Err::<CfgLayout, Error>(
                        Error::Parse { role: FileRole::Cfg, line: 0, reason: ParseReason::NoSamplingLines },
                    )
                } else if c + 2 >= n {
                    r == Err::<CfgLayout, Error>(
                        Error::Parse { role: FileRole::Cfg, line: 0, reason: ParseReason::NoTimeLines },
                    )
                } else if try_formats(prepared_time_text(ls[c]), 0) is None {
                    r matches Err(e) && time_error(ls[c], e)
                } else if try_formats(prepared_time_text(ls[c + 1]), 0) is None {
                    r matches Err(e) && time_error(ls[c + 1], e)
                } else if data_type_in(ls[c + 2]) is None {
                    r == Err::<CfgLayout, Error>(
                        Error::Parse {
                            role: FileRole::Cfg,
                            line: (c + 3) as usize,
                            reason: ParseReason::UnknownDataType,
                        },
                    )
                } else {
                    r matches Ok(l) && layout_fields_ok(ls, t, a, s, l)
                }
            },
        }
    }
}


fn strip_trailing(l: &[char], c: char) -> (r: Vec<char>)
    ensures
        c == '\r' ==> r@ == strip_crs(l@),
        c == ',' ==> r@ == strip_commas(l@),
{
    let mut k = l.len();
    assert(l@.take(k as int) =~= l@);
    while k > 0 && l[k - 1] == c
        invariant
            k <= l@.len(),
            c == '\r' ==> strip_crs(l@.take(k as int)) == strip_crs(l@),
            c == ',' ==> strip_commas(l@.take(k as int)) == strip_commas(l@),
        decreases k,
    {
        assert(l@.take(k as int).drop_last() =~= l@.take(k - 1));
        k = k - 1;
    }
    let r = crate::text::slice_chars(l, 0, k);
    assert(r@ =~= l@.take(k as int));
    r
}

fn cfg_lines_of(text: &str) -> (r: Vec<Vec<char>>)
    ensures
        views(r@) == cfg_lines(text@),
{
    let cs = str_chars(text);
    let raw = lines_of(cs.as_slice());
    let ghost rv = views(raw@);
    let mut out: Vec<Vec<char>> = Vec::new();
    let mut i: usize = 0;
    while i < raw.len()
        invariant
            i <= raw@.len(),
            rv == views(raw@),
            rv == lines(text@),
            views(out@) == stripped(rv.take(i as int)),
        decreases raw.len() - i,
    {
        assert(rv[i as int] == raw@[i as int]@);
        let ghost prev = views(out@);
        out.push(strip_trailing(raw[i].as_slice(), '\r'));
        assert(views(out@) =~= prev.push(strip_crs(rv[i as int])));
        assert(stripped(rv.take(i + 1)) =~= stripped(rv.take(i as int)).push(strip_crs(rv[i as int])));
        i = i + 1;
    }
    assert(rv.take(raw@.len() as int) =~= rv);
    out
}

fn line_string(ls: &Vec<Vec<char>>, i: usize) -> (r: String)
    requires
        i < ls@.len(),
    ensures
        r@ == views(ls@)[i as int],
{
    chars_to_string(ls[i].as_slice())
}

fn count_of_chars(t: &[char]) -> (r: usize)
    ensures
        r == uint_or_zero(t@, usize::MAX as nat),
{
    match parse_uint_chars(t, usize::MAX as u64) {
        Some(v) => v as usize,
        None => 0,
    }
}

fn status_entry(l: &[char], i: usize) -> (r: StatusChannel)
    requires
        i < usize::MAX,
    ensures
        status_entry_ok(l@, i as nat, r),
{
    let line = chars_to_string(l);
    let mut ch = StatusChannel::from_cfg_line(line.as_str());
    if ch.index == 0 {
        ch.index = i + 1;
    }
    if is_reference_like_ccbm(ch.equipment.as_str()) || is_iec61850_reference(
        ch.equipment.as_str(),
    ) {
        let mut reference = String::new();
        std::mem::swap(&mut reference, &mut ch.equipment);
        ch.ext = Some(
            StatusExt {
                idx_org: None,
                channel_type: None,
                flag: None,
                contact: None,
                reference: Some(reference),
                equipment_no: None,
            },
        );
    }
    ch
}

fn segment_lines(ls: &Vec<Vec<char>>, from: usize, m: usize) -> (r: Vec<(String, usize)>)
    requires
        from + m <= ls@.len(),
    ensures
        segments_view(r@) == segment_entries(views(ls@), from as int, m as nat),
{
    let ghost v = views(ls@);
    let n = ls.len();
    let mut out: Vec<(String, usize)> = Vec::new();
    let mut j: usize = 0;
    assert(segments_view(out@) =~= segment_entries(v, from as int, 0));
    while j < m
        invariant
            j <= m,
            n == ls@.len(),
            from + m <= ls@.len(),
            v == views(ls@),
            segments_view(out@) == segment_entries(v, from as int, j as nat),
        decreases m - j,
    {
        let l = ls[from + j].as_slice();
        assert(v[from + j] == l@);
        let parts = split_trimmed(l, ',');
        assert(parts@.len() == views(parts@).len());
        assert(trimmed_fields(l@, ',').len() == split(l@, ',').len());
        let ghost prev = segments_view(out@);
        if l.len() > 0 && parts.len() >= 2 {
            assert(views(parts@)[0] == parts@[0]@ && views(parts@)[1] == parts@[1]@);
            let rate = chars_to_string(parts[0].as_slice());
            let end = count_of_chars(parts[1].as_slice());
            out.push((rate, end));
            assert(segments_view(out@) =~= prev.push(segment_entry(l@)));
        }
        j = j + 1;
    }
    out
}

fn status_lines(ls: &Vec<Vec<char>>, start: usize, ns: usize) -> (r: Vec<StatusChannel>)
    requires
        ns > 0 ==> start + ns <= ls@.len(),
    ensures
        r@.len() == ns,
        forall|i: int|
            0 <= i < ns ==> status_entry_ok(views(ls@)[start + i], i as nat, #[trigger] r@[i]),
{
    let ghost v = views(ls@);
    let n = ls.len();
    let mut out: Vec<StatusChannel> = Vec::new();
    let mut i: usize = 0;
    while i < ns
        invariant
            i <= ns,
            n == ls@.len(),
            ns > 0 ==> start + ns <= ls@.len(),
            v == views(ls@),
            out@.len() == i,
            forall|j: int| 0 <= j < i ==> status_entry_ok(v[start + j], j as nat, #[trigger] out@[j]),
        decreases ns - i,
    {
        assert(v[start + i] == ls@[start + i]@);
        out.push(status_entry(ls[start + i].as_slice(), i));
        i = i + 1;
    }
    out
}


/// Lays out the lines of a configuration text (see `cfg_layout_ok`).
pub fn cfg_layout(text: &str) -> (r: Result<CfgLayout, Error>)
    requires
        cfg_readable(cfg_lines(text@)),
    ensures
        cfg_layout_ok(cfg_lines(text@), r),
{
    let ls = cfg_lines_of(text);
    let ghost v = views(ls@);
    let n = ls.len();
    if n < 10 {
        return Err(
            Error::Parse { role: FileRole::Cfg, line: 0, reason: ParseReason::TooFewLines(n) },
        );
    }
    let header = Header::from_line(line_string(&ls, 0).as_str());
    let channels = match ChannelCount::from_line(line_string(&ls, 1).as_str()) {
        Ok(c) => c,
        Err(e) => {
            return Err(e);
        },
    };
    let t = channels.total;
    let a = channels.analog;
    let s = channels.status;
    if t + 2 >= n {
        return Err(
            Error::Parse { role: FileRole::Cfg, line: 0, reason: ParseReason::NoSamplingLines },
        );
    }
    let freq_line = line_string(&ls, t + 2);
    assert(v[t + 3] == ls@[t + 3]@);
    let k = count_of_chars(ls[t + 3].as_slice());
    let from = t + 4;
    let m: usize = if from < n {
        if k < n - from {
            k
        } else {
            n - from
        }
    } else {
        0
    };
    let segments = segment_lines(&ls, from, m);
    let c = from + k;
    if c + 2 >= n {
        return Err(Error::Parse { role: FileRole::Cfg, line: 0, reason: ParseReason::NoTimeLines });
    }
    let start_line = line_string(&ls, c);
    let start_time = match parse(start_line.as_str()) {
        Ok(ts) => ts,
        Err(e) => {
            return Err(e);
        },
    };
    let trigger_line = line_string(&ls, c + 1);
    let trigger_time = match parse(trigger_line.as_str()) {
        Ok(ts) => ts,
        Err(e) => {
            return Err(e);
        },
    };
    assert(v[c + 2] == ls@[c + 2]@);
    let dt_line = strip_trailing(ls[c + 2].as_slice(), ',');
    let dt_text = trim_chars(dt_line.as_slice());
    let data_type = match DataType::parse(chars_to_string(dt_text.as_slice()).as_str()) {
        Some(d) => d,
        None => {
            return Err(
                Error::Parse {
                    role: FileRole::Cfg,
                    line: c + 3,
                    reason: ParseReason::UnknownDataType,
                },
            );
        },
    };
    let c4 = c + 3;
    let timemult_line = if c4 < n {
        Some(line_string(&ls, c4))
    } else {
        None
    };
    let c5 = if c4 < n {
        c4 + 1
    } else {
        c4
    };
    let time_info = if c5 < n {
        assert(v[c5 as int] == ls@[c5 as int]@);
        let parts = split_trimmed(ls[c5].as_slice(), ',');
        if parts.len() >= 2 {
            assert(views(parts@)[0] == parts@[0]@ && views(parts@)[1] == parts@[1]@);
            Some(
                TimeInfo {
                    time_code: chars_to_string(parts[0].as_slice()),
                    local_code: chars_to_string(parts[1].as_slice()),
                },
            )
        } else {
            None
        }
    } else {
        None
    };
    let c6 = if c5 < n {
        c5 + 1
    } else {
        c5
    };
    let sampling_time_quality = if c6 < n {
        assert(v[c6 as int] == ls@[c6 as int]@);
        let q = trim_chars(ls[c6].as_slice());
        Some(SamplingTimeQuality { tmq_code: chars_to_string(q.as_slice()) })
    } else {
        None
    };
    let na: usize = if a < n - 2 {
        a
    } else {
        n - 2
    };
    let mut analog_lines: Vec<String> = Vec::new();
    let mut i: usize = 0;
    assert(texts(analog_lines@) =~= Seq::new(0, |j: int| v[2 + j]));
    while i < na
        invariant
            i <= na,
            na + 2 <= n,
            n == ls@.len(),
            v == views(ls@),
            texts(analog_lines@) == Seq::new(i as nat, |j: int| v[2 + j]),
        decreases na - i,
    {
        let ghost prev = texts(analog_lines@);
        analog_lines.push(line_string(&ls, i + 2));
        assert(texts(analog_lines@) =~= prev.push(v[2 + i]));
        i = i + 1;
        assert(texts(analog_lines@) =~= Seq::new(i as nat, |j: int| v[2 + j]));
    }
    let start = a + 2;
    let ns: usize = if start < n {
        if s < n - start {
            s
        } else {
            n - start
        }
    } else {
        0
    };
    let statuses = status_lines(&ls, start, ns);
    Ok(
        CfgLayout {
            header,
            channels,
            analog_lines,
            statuses,
            freq_line,
            segments,
            start_time,
            trigger_time,
            data_type,
            timemult_line,
            time_info,
            sampling_time_quality,
        },
    )
}


/// Whether laying out a configuration text stays within its lines and the range of
/// `usize` (see `cfg_readable`); where it does not, reading the text panics.
pub fn cfg_text_readable(text: &str) -> (r: bool)
    ensures
        r == cfg_readable(cfg_lines(text@)),
{
    let ls = cfg_lines_of(text);
    let ghost v = views(ls@);
    let n = ls.len();
    if n < 10 {
        return true;
    }
    let channels = match ChannelCount::from_line(line_string(&ls, 1).as_str()) {
        Ok(c) => c,
        Err(_) => {
            return true;
        },
    };
    let t = channels.total;
    let a = channels.analog;
    let s = channels.status;
    if t > usize::MAX - 2 {
        return false;
    }
    if t + 2 >= n {
        return true;
    }
    if t + 3 >= n {
        return false;
    }
    assert(v[t + 3] == ls@[t + 3]@);
    let k = count_of_chars(ls[t + 3].as_slice());
    if t > usize::MAX - 6 || k > usize::MAX - 6 - t {
        return false;
    }
    let c = t + 4 + k;
    if c + 2 >= n {
        return true;
    }
    let start_line = line_string(&ls, c);
    let trigger_line = line_string(&ls, c + 1);
    assert(v[c + 2] == ls@[c + 2]@);
    let dt_line = strip_trailing(ls[c + 2].as_slice(), ',');
    let dt_text = trim_chars(dt_line.as_slice());
    let reaches = parse(start_line.as_str()).is_ok() && parse(trigger_line.as_str()).is_ok()
        && DataType::parse(chars_to_string(dt_text.as_slice()).as_str()).is_some();
    if !reaches {
        return true;
    }
    a <= usize::MAX - 2 && (s == 0 || a < usize::MAX - s)
}

} // verus!

verus! {

/// The `k` segments that the lines from `from` on give when each is written `rate,end`.
proof fn lemma_segment_entries_written(ls: Seq<Seq<char>>, from: int, segs: Seq<(Seq<char>, nat)>)
    requires
        0 <= from,
        from + segs.len() <= ls.len(),
        forall|i: int|
            0 <= i < segs.len() ==> ls[from + i] == (#[trigger] segs[i]).0 + seq![','] + dec(segs[i].1)
                && !segs[i].0.contains(',') && trim(segs[i].0) == segs[i].0 && segs[i].1
                <= usize::MAX,
    ensures
        segment_entries(ls, from, segs.len()) == segs,
    decreases segs.len(),
{
    if segs.len() > 0 {
        let k = segs.len() - 1;
        let prev = segs.drop_last();
        assert forall|i: int| 0 <= i < prev.len() implies ls[from + i] == (#[trigger] prev[i]).0 + seq![
            ',',
        ] + dec(prev[i].1) && !prev[i].0.contains(',') && trim(prev[i].0) == prev[i].0 && prev[i].1
            <= usize::MAX by {
            assert(prev[i] == segs[i]);
        }
        lemma_segment_entries_written(ls, from, prev);
        let e = segs[k];
        let l = ls[from + k];
        assert(l == e.0 + seq![','] + dec(e.1));
        crate::text::lemma_split_join(e.0, ',', dec(e.1));
        assert(split(l, ',').len() >= 2) by {
            crate::text::lemma_split_nonempty(dec(e.1), ',');
        }
        assert(l.len() > 0);
        lemma_segment_line_round_trip(e.0, e.1);
        assert(prev.len() as nat == (segs.len() - 1) as nat);
        assert(prev.push(e) =~= segs);
    }
}

/// A configuration whose lines are, in order: any header line, the channel-count line
/// of `c` (`total,analogA,statusD`, with `total = analog + status`), `total` channel
/// lines, the frequency line `freq`, the number of segments, one `rate,end` line per
/// segment of `segs`, the CFG times of `start` and `trigger`, and a line naming data
/// type `dt` (any lines may follow), is laid out with those counts, that frequency line,
/// those segments (rate text and end sample), first-sample time `start`, trigger time
/// `trigger` and data type `dt`.
pub proof fn lemma_layout_of_written_lines(
    ls: Seq<Seq<char>>,
    c: ChannelCount,
    freq: Seq<char>,
    segs: Seq<(Seq<char>, nat)>,
    start: Timestamp,
    trigger: Timestamp,
    dt: DataType,
    r: Result<CfgLayout, Error>,
)
    requires
        c.total == c.analog + c.status,
        ls.len() >= 10,
        ls.len() >= c.total + 7 + segs.len(),
        segs.len() <= usize::MAX,
        ls[1] == crate::cfg::count_line(c),
        ls[c.total + 2] == freq,
        ls[c.total + 3] == dec(segs.len()),
        forall|i: int|
            0 <= i < segs.len() ==> ls[c.total + 4 + i] == (#[trigger] segs[i]).0 + seq![','] + dec(
                segs[i].1,
            ) && !segs[i].0.contains(',') && trim(segs[i].0) == segs[i].0 && segs[i].1
                <= usize::MAX,
        crate::time::valid(start),
        start.year <= 9999,
        crate::time::valid(trigger),
        trigger.year <= 9999,
        ls[c.total + 4 + segs.len()] == crate::time::cfg_text(start),
        ls[c.total + 5 + segs.len()] == crate::time::cfg_text(trigger),
        data_type_in(ls[c.total + 6 + segs.len()]) == Some(dt),
        cfg_layout_ok(ls, r),
    ensures
        r matches Ok(l) && {
            &&& l.channels == c
            &&& l.freq_line@ == freq
            &&& segments_view(l.segments@) == segs
            &&& l.start_time == start
            &&& l.trigger_time == trigger
            &&& l.data_type == dt
        },
{
    let t = c.total as int;
    let k = segs.len();
    crate::cfg::lemma_count_round_trip(c);
    crate::text::lemma_parse_uint_dec(k, usize::MAX as nat);
    assert(segment_count(ls, t + 3) == k);
    assert(time_line(ls, c.total as nat) == t + 4 + k);
    crate::time::lemma_cfg_round_trip(start);
    crate::time::lemma_cfg_round_trip(trigger);
    let l = r->Ok_0;
    assert(lines_taken(k, t + 4, ls.len() as int) == k);
    lemma_segment_entries_written(ls, t + 4, segs);
    assert(l.channels == ChannelCount { total: c.total, analog: c.analog, status: c.status });
}

} // verus!
