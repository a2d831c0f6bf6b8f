//! The configuration file (`.cfg`): its header, channel counts and channel lines.

pub mod analog;
pub mod channel;
pub mod layout;

use vstd::prelude::*;

use crate::error::{Error, FileRole, ParseReason};
use crate::text::{
    all_digits, chars_to_string, dec, digits_value, field_copy, field_or_empty, is_digit,
    keep_digits, lemma_dec_digits, lemma_keep_all_digits, lemma_parse_uint_dec,
    lemma_split_join, lemma_split_no_sep, lemma_trim_noop, parse_uint, parse_uint_chars, push_dec,
    split, split_trimmed, str_chars, trim, trimmed_fields, views,
};
use self::channel::{
    lemma_dec_plain_field, lemma_version_round_trip, plain_field, push_str, version_of,
    version_text, Version,
};

verus! {

/// First line of the configuration file.
#[derive(Debug, Clone)]
pub struct Header {
    /// Name of the station the recorder sits in.
    pub station: String,
    /// Name of the recording device.
    pub recorder: String,
    /// Revision of the standard the file follows.
    pub version: Version,
}

/// The station, recorder and revision a header line gives: the first two comma-separated
/// fields, trimmed, and the revision named by the third, 1991 where it is missing or unknown.
pub open spec fn header_of_line(line: Seq<char>) -> (Seq<char>, Seq<char>, Version) {
    let fs = trimmed_fields(line, ',');
    (
        field_or_empty(fs, 0),
        field_or_empty(fs, 1),
        if fs.len() > 2 {
            match version_of(trim(fs[2])) {
                Some(v) => v,
                None => Version::V1991,
            }
        } else {
            Version::V1991
        },
    )
}

/// The values of a header.
pub open spec fn header_view(h: Header) -> (Seq<char>, Seq<char>, Version) {
    (h.station@, h.recorder@, h.version)
}

/// The header line that a header is written as.
pub open spec fn header_line(h: Header) -> Seq<char> {
    h.station@ + seq![','] + h.recorder@ + seq![','] + version_text(h.version)
}

impl Header {
    /// Reads the header line `station,recorder,revision`.
    pub fn from_line(line: &str) -> (r: Header)
        ensures
            header_view(r) == header_of_line(line@),
    {
        let cs = str_chars(line);
        let parts = split_trimmed(cs.as_slice(), ',');
        let station = chars_to_string(field_copy(&parts, 0).as_slice());
        let recorder = chars_to_string(field_copy(&parts, 1).as_slice());
        let version = if parts.len() > 2 {
            proof {
                assert(views(parts@)[2] == parts@[2]@);
            }
            let v = chars_to_string(parts[2].as_slice());
            match Version::parse(v.as_str()) {
                Some(v) => v,
                None => Version::V1991,
            }
        } else {
            Version::V1991
        };
        Header { station, recorder, version }
    }

    /// The header line of the file.
    pub fn to_line(&self) -> (r: String)
        ensures
            r@ == header_line(*self),
    {
        let mut out: Vec<char> = Vec::new();
        push_str(&mut out, self.station.as_str());
        out.push(',');
        push_str(&mut out, self.recorder.as_str());
        out.push(',');
        push_str(&mut out, self.version.as_str());
        assert(out@ =~= header_line(*self));
        chars_to_string(out.as_slice())
    }
}

/// Writing a header whose station and recorder are plain fields and reading the line back
/// gives the same station, recorder and revision.
pub proof fn lemma_header_round_trip(h: Header)
    requires
        plain_field(h.station@),
        plain_field(h.recorder@),
    ensures
        header_of_line(header_line(h)) == header_view(h),
{
    let vt = version_text(h.version);
    lemma_version_round_trip(h.version);
    let tail = h.recorder@ + seq![','] + vt;
    assert(header_line(h) =~= h.station@ + seq![','] + tail);
    lemma_split_join(h.station@, ',', tail);
    lemma_split_join(h.recorder@, ',', vt);
    lemma_split_no_sep(vt, ',');
    assert(split(header_line(h), ',') =~= seq![h.station@, h.recorder@, vt]);
    let fs = trimmed_fields(header_line(h), ',');
    assert(fs[0] == h.station@ && fs[1] == h.recorder@ && fs[2] == trim(vt));
}

/// Second line of the configuration file: how many channels of each kind.
#[derive(Debug, Clone, Copy, PartialEq, Eq, Structural)]
pub struct ChannelCount {
    /// All channels (analog and status).
    pub total: usize,
    /// Analog channels.
    pub analog: usize,
    /// Status channels.
    pub status: usize,
}

/// The number in a count field such as `96A`: the value of its digits, 0 when it has
/// none, `None` when it does not fit in `usize`.
pub open spec fn digits_count(t: Seq<char>) -> Option<nat> {
    let d = keep_digits(t);
    if d.len() == 0 {
        Some(0)
    } else if digits_value(d) <= usize::MAX {
        Some(digits_value(d))
    } else {
        None
    }
}

/// The three counts of a channel-count line `total,analogA,statusD`, when it has three
/// fields, the first a number and the other two fitting in `usize`.
pub open spec fn count_fields(line: Seq<char>) -> Option<(nat, nat, nat)> {
    let fs = trimmed_fields(line, ',');
    if fs.len() < 3 {
        None
    } else {
        match (parse_uint(fs[0], usize::MAX as nat), digits_count(fs[1]), digits_count(fs[2])) {
            (Some(t), Some(a), Some(s)) => Some((t, a, s)),
            _ => None,
        }
    }
}

/// The error of a channel-count line that cannot be read: too few fields, or the text of
/// the first field that is no number (or too large).
pub open spec fn count_error(line: Seq<char>, e: Error) -> bool {
    let fs = trimmed_fields(line, ',');
    if fs.len() < 3 {
        e == Error::Parse { role: FileRole::Cfg, line: 2, reason: ParseReason::ChannelCountLine }
    } else {
        let bad = if parse_uint(fs[0], usize::MAX as nat) is None {
            fs[0]
        } else if digits_count(fs[1]) is None {
            fs[1]
        } else {
            fs[2]
        };
        e matches Error::Number { role, text } && role == FileRole::Cfg && text@ == bad
    }
}

/// The channel-count line that counts are written as.
pub open spec fn count_line(c: ChannelCount) -> Seq<char> {
    dec(c.total as nat) + seq![','] + dec(c.analog as nat) + seq!['A', ','] + dec(c.status as nat)
        + seq!['D']
}

proof fn lemma_keep_digits_all(s: Seq<char>)
    ensures
        all_digits(keep_digits(s)),
    decreases s.len(),
{
    if s.len() > 0 {
        lemma_keep_digits_all(s.drop_last());
    }
}

/// The number in a count field such as `96A` (see `digits_count`).
pub(crate) fn extract_digits(s: &[char]) -> (r: Option<usize>)
    ensures
        match r {
            Some(v) => digits_count(s@) == Some(v as nat),
            None => digits_count(s@) is None,
        },
{
    let mut d: Vec<char> = Vec::new();
    let mut k: usize = 0;
    while k < s.len()
        invariant
            k <= s@.len(),
            d@ == keep_digits(s@.take(k as int)),
        decreases s.len() - k,
    {
        let c = s[k];
        assert(s@.take(k as int + 1).drop_last() =~= s@.take(k as int));
        if '0' <= c && c <= '9' {
            d.push(c);
        }
        k = k + 1;
    }
    assert(s@.take(k as int) =~= s@);
    proof {
        lemma_keep_digits_all(s@);
    }
    if d.len() == 0 {
        return Some(0);
    }
    proof {
        assert(is_digit(d@[0]));
    }
    match parse_uint_chars(d.as_slice(), usize::MAX as u64) {
        Some(v) => Some(v as usize),
        None => None,
    }
}

impl ChannelCount {
    /// Reads the channel-count line `total,analogA,statusD`.
    pub fn from_line(line: &str) -> (r: Result<ChannelCount, Error>)
        ensures
            match r {
                Ok(c) => count_fields(line@) == Some(
                    (c.total as nat, c.analog as nat, c.status as nat),
                ),
                Err(e) => count_fields(line@) is None && count_error(line@, e),
            },
    {
        let cs = str_chars(line);
        let parts = split_trimmed(cs.as_slice(), ',');
        if parts.len() < 3 {
            return Err(
                Error::Parse { role: FileRole::Cfg, line: 2, reason: ParseReason::ChannelCountLine },
            );
        }
        proof {
            assert(views(parts@)[0] == parts@[0]@);
            assert(views(parts@)[1] == parts@[1]@);
            assert(views(parts@)[2] == parts@[2]@);
        }
        let total = match parse_uint_chars(parts[0].as_slice(), usize::MAX as u64) {
            Some(v) => v as usize,
            None => {
                return Err(
                    Error::Number {
                        role: FileRole::Cfg,
                        text: chars_to_string(parts[0].as_slice()),
                    },
                );
            },
        };
        let analog = match extract_digits(parts[1].as_slice()) {
            Some(v) => v,
            None => {
                return Err(
                    Error::Number {
                        role: FileRole::Cfg,
                        text: chars_to_string(parts[1].as_slice()),
                    },
                );
            },
        };
        let status = match extract_digits(parts[2].as_slice()) {
            Some(v) => v,
            None => {
                return Err(
                    Error::Number {
                        role: FileRole::Cfg,
                        text: chars_to_string(parts[2].as_slice()),
                    },
                );
            },
        };
        Ok(ChannelCount { total, analog, status })
    }

    /// The channel-count line of the file (`12,6A,6D`).
    pub fn to_line(self) -> (r: String)
        ensures
            r@ == count_line(self),
    {
        let mut out: Vec<char> = Vec::new();
        push_dec(&mut out, self.total as u64);
        out.push(',');
        push_dec(&mut out, self.analog as u64);
        out.push('A');
        out.push(',');
        push_dec(&mut out, self.status as u64);
        out.push('D');
        assert(out@ =~= count_line(self));
        chars_to_string(out.as_slice())
    }
}

proof fn lemma_count_field(v: nat, tag: char)
    requires
        v <= usize::MAX,
        !is_digit(tag),
        tag != ',',
        tag == 'A' || tag == 'D',
    ensures
        digits_count(trim(dec(v).push(tag))) == Some(v),
        !dec(v).push(tag).contains(','),
{
    let f = dec(v).push(tag);
    lemma_dec_digits(v);
    lemma_dec_plain_field(v);
    assert(f[0] == dec(v)[0]);
    assert(!(f[0] == ' ')) by {
        assert(is_digit(dec(v)[0]));
    }
    lemma_trim_noop(f);
    lemma_keep_all_digits(dec(v));
    assert(f.drop_last() =~= dec(v));
    assert(keep_digits(f) == dec(v));
    assert(!f.contains(',')) by {
        if f.contains(',') {
            let i = choose|i: int| 0 <= i < f.len() && f[i] == ',';
            if i < dec(v).len() {
                assert(dec(v)[i] == ',');
                assert(dec(v).contains(','));
            }
        }
    }
}

/// Writing channel counts and reading the line back gives the same counts.
pub proof fn lemma_count_round_trip(c: ChannelCount)
    ensures
        count_fields(count_line(c)) == Some((c.total as nat, c.analog as nat, c.status as nat)),
{
    let d0 = dec(c.total as nat);
    let f1 = dec(c.analog as nat).push('A');
    let f2 = dec(c.status as nat).push('D');
    lemma_dec_plain_field(c.total as nat);
    lemma_count_field(c.analog as nat, 'A');
    lemma_count_field(c.status as nat, 'D');
    assert(count_line(c) =~= d0 + seq![','] + (f1 + seq![','] + f2));
    lemma_split_join(d0, ',', f1 + seq![','] + f2);
    lemma_split_join(f1, ',', f2);
    lemma_split_no_sep(f2, ',');
    assert(split(count_line(c), ',') =~= seq![d0, f1, f2]);
    let fs = trimmed_fields(count_line(c), ',');
    assert(fs[0] == d0 && fs[1] == trim(f1) && fs[2] == trim(f2));
    lemma_parse_uint_dec(c.total as nat, usize::MAX as nat);
}

/// Optional time-code line of the configuration file (1999 and later).
#[derive(Debug, Clone)]
pub struct TimeInfo {
    /// Time code of the recording.
    pub time_code: String,
    /// Local time code.
    pub local_code: String,
}

/// Optional sampling-time quality line of the configuration file (1999 and later).
#[derive(Debug, Clone)]
pub struct SamplingTimeQuality {
    /// Time-quality code.
    pub tmq_code: String,
}

} // verus!
