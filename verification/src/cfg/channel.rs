//! Channel-level records of the configuration file, and the small enumerations
//! (standard revision, sample format, transformer side) that its lines carry.

use vstd::prelude::*;

use crate::text::{
    ascii_upper, chars_eq_str, dec, field_copy, field_or_empty, is_ascii_text, is_digit, is_ws,
    lemma_dec_digits, lemma_dec_plain, lemma_parse_uint_dec, lemma_split_join, lemma_split_no_sep,
    lemma_trim_noop, parse_uint, parse_uint_chars, push_all, push_dec, split, split_chars,
    split_trimmed, str_chars, to_upper, trim, trim_chars, trimmed_fields, upper_case, views,
    chars_to_string,
};

verus! {

/// Revision of the standard that a file follows.
#[derive(Debug, Clone, Copy, PartialEq, Eq, Structural)]
pub enum Version {
    /// IEEE Std C37.111-1991
    V1991,
    /// IEEE Std C37.111-1999
    V1999,
    /// IEC 60255-24:2001
    V2001,
    /// GB/T 22386-2008
    V2008,
    /// IEC 60255-24:2013
    V2013,
    /// GB/T 14598.24-2017
    V2017,
}

impl Default for Version {
    /// The earliest revision, assumed when a file names none.
    fn default() -> (r: Self)
        ensures
            r == Version::V1991,
    {
        Version::V1991
    }
}

/// The year text of a revision (`"1999"`).
pub open spec fn version_text(v: Version) -> Seq<char> {
    match v {
        Version::V1991 => seq!['1', '9', '9', '1'],
        Version::V1999 => seq!['1', '9', '9', '9'],
        Version::V2001 => seq!['2', '0', '0', '1'],
        Version::V2008 => seq!['2', '0', '0', '8'],
        Version::V2013 => seq!['2', '0', '1', '3'],
        Version::V2017 => seq!['2', '0', '1', '7'],
    }
}

/// The name of the standard behind a revision.
pub open spec fn standard_text(v: Version) -> Seq<char> {
    match v {
        Version::V1991 => seq!['I', 'E', 'E', 'E', ' ', 'S', 't', 'd', ' ', 'C', '3', '7', '.', '1', '1', '1', '-', '1', '9', '9', '1'],
        Version::V1999 => seq!['I', 'E', 'E', 'E', ' ', 'S', 't', 'd', ' ', 'C', '3', '7', '.', '1', '1', '1', '-', '1', '9', '9', '9'],
        Version::V2001 => seq!['I', 'E', 'C', ' ', '6', '0', '2', '5', '5', '-', '2', '4', ':', '2', '0', '0', '1'],
        Version::V2008 => seq!['G', 'B', '/', 'T', ' ', '2', '2', '3', '8', '6', '-', '2', '0', '0', '8'],
        Version::V2013 => seq!['I', 'E', 'C', ' ', '6', '0', '2', '5', '5', '-', '2', '4', ':', '2', '0', '1', '3'],
        Version::V2017 => seq!['G', 'B', '/', 'T', ' ', '1', '4', '5', '9', '8', '.', '2', '4', '-', '2', '0', '1', '7'],
    }
}

/// The revision whose year text is exactly `t`.
pub open spec fn version_of(t: Seq<char>) -> Option<Version> {
    if t == version_text(Version::V1991) {
        Some(Version::V1991)
    } else if t == version_text(Version::V1999) {
        Some(Version::V1999)
    } else if t == version_text(Version::V2001) {
        Some(Version::V2001)
    } else if t == version_text(Version::V2008) {
        Some(Version::V2008)
    } else if t == version_text(Version::V2013) {
        Some(Version::V2013)
    } else if t == version_text(Version::V2017) {
        Some(Version::V2017)
    } else {
        None
    }
}

impl Version {
    /// The year text of the revision (`"1999"`).
    pub fn as_str(&self) -> (r: &'static str)
        ensures
            r@ == version_text(*self),
    {
        match self {
            Version::V1991 => {
                proof {
                    reveal_strlit("1991");
                }
                "1991"
            },
            Version::V1999 => {
                proof {
                    reveal_strlit("1999");
                }
                "1999"
            },
            Version::V2001 => {
                proof {
                    reveal_strlit("2001");
                }
                "2001"
            },
            Version::V2008 => {
                proof {
                    reveal_strlit("2008");
                }
                "2008"
            },
            Version::V2013 => {
                proof {
                    reveal_strlit("2013");
                }
                "2013"
            },
            Version::V2017 => {
                proof {
                    reveal_strlit("2017");
                }
                "2017"
            },
        }
    }

    /// The name of the standard behind the revision.
    pub fn standard(&self) -> (r: &'static str)
        ensures
            r@ == standard_text(*self),
    {
        match self {
            Version::V1991 => {
                proof {
                    reveal_strlit("IEEE Std C37.111-1991");
                }
                "IEEE Std C37.111-1991"
            },
            Version::V1999 => {
                proof {
                    reveal_strlit("IEEE Std C37.111-1999");
                }
                "IEEE Std C37.111-1999"
            },
            Version::V2001 => {
                proof {
                    reveal_strlit("IEC 60255-24:2001");
                }
                "IEC 60255-24:2001"
            },
            Version::V2008 => {
                proof {
                    reveal_strlit("GB/T 22386-2008");
                }
                "GB/T 22386-2008"
            },
            Version::V2013 => {
                proof {
                    reveal_strlit("IEC 60255-24:2013");
                }
                "IEC 60255-24:2013"
            },
            Version::V2017 => {
                proof {
                    reveal_strlit("GB/T 14598.24-2017");
                }
                "GB/T 14598.24-2017"
            },
        }
    }

    /// Reads a revision year; white space around it is ignored, an unknown year gives `None`.
    pub fn parse(s: &str) -> (r: Option<Version>)
        ensures
            r == version_of(trim(s@)),
    {
        let cs = str_chars(s);
        let t = trim_chars(cs.as_slice());
        proof {
            reveal_strlit("1991");
            assert("1991"@ =~= version_text(Version::V1991));
            reveal_strlit("1999");
            assert("1999"@ =~= version_text(Version::V1999));
            reveal_strlit("2001");
            assert("2001"@ =~= version_text(Version::V2001));
            reveal_strlit("2008");
            assert("2008"@ =~= version_text(Version::V2008));
            reveal_strlit("2013");
            assert("2013"@ =~= version_text(Version::V2013));
            reveal_strlit("2017");
            assert("2017"@ =~= version_text(Version::V2017));
            lemma_version_texts_distinct();
        }
        if chars_eq_str(t.as_slice(), "1991") {
            Some(Version::V1991)
        } else if chars_eq_str(t.as_slice(), "1999") {
            Some(Version::V1999)
        } else if chars_eq_str(t.as_slice(), "2001") {
            Some(Version::V2001)
        } else if chars_eq_str(t.as_slice(), "2008") {
            Some(Version::V2008)
        } else if chars_eq_str(t.as_slice(), "2013") {
            Some(Version::V2013)
        } else if chars_eq_str(t.as_slice(), "2017") {
            Some(Version::V2017)
        } else {
            None
        }
    }

    /// Whether the revision is 1999 or later: every revision but 1991 has the optional
    /// trailing lines of the configuration file.
    pub fn is_1999_or_later(&self) -> (r: bool)
        ensures
            r == (*self != Version::V1991),
    {
        !matches!(self, Version::V1991)
    }
}

/// The year texts of the revisions differ from each other.
proof fn lemma_version_texts_distinct()
    ensures
        forall|a: Version, b: Version| a != b ==> version_text(a) != version_text(b),
{
    assert(version_text(Version::V1991) != version_text(Version::V1999)) by {
        assert(version_text(Version::V1991)[3] != version_text(Version::V1999)[3]);
    }
    assert(version_text(Version::V1991) != version_text(Version::V2001)) by {
        assert(version_text(Version::V1991)[0] != version_text(Version::V2001)[0]);
    }
    assert(version_text(Version::V1991) != version_text(Version::V2008)) by {
        assert(version_text(Version::V1991)[0] != version_text(Version::V2008)[0]);
    }
    assert(version_text(Version::V1991) != version_text(Version::V2013)) by {
        assert(version_text(Version::V1991)[0] != version_text(Version::V2013)[0]);
    }
    assert(version_text(Version::V1991) != version_text(Version::V2017)) by {
        assert(version_text(Version::V1991)[0] != version_text(Version::V2017)[0]);
    }
    assert(version_text(Version::V1999) != version_text(Version::V2001)) by {
        assert(version_text(Version::V1999)[0] != version_text(Version::V2001)[0]);
    }
    assert(version_text(Version::V1999) != version_text(Version::V2008)) by {
        assert(version_text(Version::V1999)[0] != version_text(Version::V2008)[0]);
    }
    assert(version_text(Version::V1999) != version_text(Version::V2013)) by {
        assert(version_text(Version::V1999)[0] != version_text(Version::V2013)[0]);
    }
    assert(version_text(Version::V1999) != version_text(Version::V2017)) by {
        assert(version_text(Version::V1999)[0] != version_text(Version::V2017)[0]);
    }
    assert(version_text(Version::V2001) != version_text(Version::V2008)) by {
        assert(version_text(Version::V2001)[3] != version_text(Version::V2008)[3]);
    }
    assert(version_text(Version::V2001) != version_text(Version::V2013)) by {
        assert(version_text(Version::V2001)[2] != version_text(Version::V2013)[2]);
    }
    assert(version_text(Version::V2001) != version_text(Version::V2017)) by {
        assert(version_text(Version::V2001)[2] != version_text(Version::V2017)[2]);
    }
    assert(version_text(Version::V2008) != version_text(Version::V2013)) by {
        assert(version_text(Version::V2008)[2] != version_text(Version::V2013)[2]);
    }
    assert(version_text(Version::V2008) != version_text(Version::V2017)) by {
        assert(version_text(Version::V2008)[2] != version_text(Version::V2017)[2]);
    }
    assert(version_text(Version::V2013) != version_text(Version::V2017)) by {
        assert(version_text(Version::V2013)[3] != version_text(Version::V2017)[3]);
    }
}

/// Layout of the sample data file.
#[derive(Debug, Clone, Copy, PartialEq, Eq, Structural)]
pub enum DataType {
    /// Text, one sample per line.
    Ascii,
    /// Binary, 16-bit analog values.
    Binary,
    /// Binary, 32-bit analog values.
    Binary32,
    /// Binary, 32-bit IEEE floating-point analog values.
    Float32,
}

impl Default for DataType {
    /// Text layout.
    fn default() -> (r: Self)
        ensures
            r == DataType::Ascii,
    {
        DataType::Ascii
    }
}

/// Reading the year text of a revision gives the revision back.
pub proof fn lemma_version_round_trip(v: Version)
    ensures
        version_of(version_text(v)) == Some(v),
        version_of(trim(version_text(v))) == Some(v),
        !version_text(v).contains(','),
{
    let t = version_text(v);
    assert(t.len() == 4);
    lemma_trim_noop(t);
    assert(!t.contains(',')) by {
        if t.contains(',') {
            let i = choose|i: int| 0 <= i < t.len() && t[i] == ',';
        }
    }
    lemma_version_texts_distinct();
}

/// The name of a layout as the configuration file writes it (`"BINARY32"`).
pub open spec fn data_type_text(d: DataType) -> Seq<char> {
    match d {
        DataType::Ascii => seq!['A', 'S', 'C', 'I', 'I'],
        DataType::Binary => seq!['B', 'I', 'N', 'A', 'R', 'Y'],
        DataType::Binary32 => seq!['B', 'I', 'N', 'A', 'R', 'Y', '3', '2'],
        DataType::Float32 => seq!['F', 'L', 'O', 'A', 'T', '3', '2'],
    }
}

/// The layout whose name is exactly `t`.
pub open spec fn data_type_of(t: Seq<char>) -> Option<DataType> {
    if t == data_type_text(DataType::Ascii) {
        Some(DataType::Ascii)
    } else if t == data_type_text(DataType::Binary) {
        Some(DataType::Binary)
    } else if t == data_type_text(DataType::Binary32) {
        Some(DataType::Binary32)
    } else if t == data_type_text(DataType::Float32) {
        Some(DataType::Float32)
    } else {
        None
    }
}

impl DataType {
    /// The layout named by an upper-case name (`"BINARY"`), if any.
    pub fn from_name(u: &str) -> (r: Option<DataType>)
        ensures
            r == data_type_of(u@),
    {
        let cs = str_chars(u);
        proof {
            reveal_strlit("ASCII");
            assert("ASCII"@ =~= data_type_text(DataType::Ascii));
            reveal_strlit("BINARY");
            assert("BINARY"@ =~= data_type_text(DataType::Binary));
            reveal_strlit("BINARY32");
            assert("BINARY32"@ =~= data_type_text(DataType::Binary32));
            reveal_strlit("FLOAT32");
            assert("FLOAT32"@ =~= data_type_text(DataType::Float32));
            lemma_data_type_texts_distinct();
        }
        if chars_eq_str(cs.as_slice(), "ASCII") {
            Some(DataType::Ascii)
        } else if chars_eq_str(cs.as_slice(), "BINARY") {
            Some(DataType::Binary)
        } else if chars_eq_str(cs.as_slice(), "BINARY32") {
            Some(DataType::Binary32)
        } else if chars_eq_str(cs.as_slice(), "FLOAT32") {
            Some(DataType::Float32)
        } else {
            None
        }
    }

    /// Reads a layout name, ignoring surrounding white space and letter case.
    pub fn parse(s: &str) -> (r: Option<DataType>)
        ensures
            r == data_type_of(upper_case(trim(s@))),
            is_ascii_text(trim(s@)) ==> r == data_type_of(ascii_upper(trim(s@))),
    {
        let cs = str_chars(s);
        let t = trim_chars(cs.as_slice());
        let ts = chars_to_string(t.as_slice());
        let u = to_upper(ts.as_str());
        DataType::from_name(u.as_str())
    }

    /// The name of the layout as the configuration file writes it.
    pub fn as_str(&self) -> (r: &'static str)
        ensures
            r@ == data_type_text(*self),
    {
        match self {
            DataType::Ascii => {
                proof {
                    reveal_strlit("ASCII");
                }
                "ASCII"
            },
            DataType::Binary => {
                proof {
                    reveal_strlit("BINARY");
                }
                "BINARY"
            },
            DataType::Binary32 => {
                proof {
                    reveal_strlit("BINARY32");
                }
                "BINARY32"
            },
            DataType::Float32 => {
                proof {
                    reveal_strlit("FLOAT32");
                }
                "FLOAT32"
            },
        }
    }

    /// Whether analog values take 32 bits.
    pub fn is_32bit(&self) -> (r: bool)
        ensures
            r == (*self == DataType::Binary32 || *self == DataType::Float32),
    {
        matches!(self, DataType::Binary32 | DataType::Float32)
    }
}

/// The names of the layouts differ from each other.
proof fn lemma_data_type_texts_distinct()
    ensures
        forall|a: DataType, b: DataType| a != b ==> data_type_text(a) != data_type_text(b),
{
    assert(data_type_text(DataType::Ascii) != data_type_text(DataType::Binary)) by {
        assert(data_type_text(DataType::Ascii)[0] != data_type_text(DataType::Binary)[0]);
    }
    assert(data_type_text(DataType::Ascii) != data_type_text(DataType::Binary32)) by {
        assert(data_type_text(DataType::Ascii)[0] != data_type_text(DataType::Binary32)[0]);
    }
    assert(data_type_text(DataType::Ascii) != data_type_text(DataType::Float32)) by {
        assert(data_type_text(DataType::Ascii)[0] != data_type_text(DataType::Float32)[0]);
    }
    assert(data_type_text(DataType::Binary) != data_type_text(DataType::Binary32)) by {
        assert(data_type_text(DataType::Binary).len() != data_type_text(DataType::Binary32).len());
    }
    assert(data_type_text(DataType::Binary) != data_type_text(DataType::Float32)) by {
        assert(data_type_text(DataType::Binary)[0] != data_type_text(DataType::Float32)[0]);
    }
    assert(data_type_text(DataType::Binary32) != data_type_text(DataType::Float32)) by {
        assert(data_type_text(DataType::Binary32)[0] != data_type_text(DataType::Float32)[0]);
    }
}

/// Reading the name of a layout gives the layout back.
pub proof fn lemma_data_type_round_trip(d: DataType)
    ensures
        data_type_of(data_type_text(d)) == Some(d),
        is_ascii_text(trim(data_type_text(d))),
        ascii_upper(trim(data_type_text(d))) == data_type_text(d),
{
    let t = data_type_text(d);
    lemma_trim_noop(t);
    assert(ascii_upper(t) =~= t);
    lemma_data_type_texts_distinct();
}

/// Which side of an instrument transformer the channel values are scaled to.
#[derive(Debug, Clone, Copy, PartialEq, Eq, Structural)]
pub enum TranSide {
    /// Secondary side.
    S,
    /// Primary side.
    P,
}

impl Default for TranSide {
    /// Secondary side.
    fn default() -> (r: Self)
        ensures
            r == TranSide::S,
    {
        TranSide::S
    }
}

/// The letter of a side (`"P"` or `"S"`).
pub open spec fn tran_side_text(t: TranSide) -> Seq<char> {
    match t {
        TranSide::P => seq!['P'],
        TranSide::S => seq!['S'],
    }
}

impl TranSide {
    /// The primary side for exactly `"P"`, the secondary side for anything else.
    pub fn from_name(u: &str) -> (r: TranSide)
        ensures
            r == (if u@ == seq!['P'] { TranSide::P } else { TranSide::S }),
    {
        let cs = str_chars(u);
        proof {
            reveal_strlit("P");
            assert("P"@ =~= seq!['P']);
        }
        if chars_eq_str(cs.as_slice(), "P") {
            TranSide::P
        } else {
            TranSide::S
        }
    }

    /// Reads a side letter: `P` (any case, surrounding white space ignored) is the primary
    /// side, anything else the secondary.
    pub fn parse(s: &str) -> (r: TranSide)
        ensures
            r == (if upper_case(trim(s@)) == seq!['P'] { TranSide::P } else { TranSide::S }),
            is_ascii_text(trim(s@)) ==> r == (if ascii_upper(trim(s@)) == seq!['P'] {
                TranSide::P
            } else {
                TranSide::S
            }),
    {
        let cs = str_chars(s);
        let t = trim_chars(cs.as_slice());
        let ts = chars_to_string(t.as_slice());
        let u = to_upper(ts.as_str());
        TranSide::from_name(u.as_str())
    }

    /// The letter of the side.
    pub fn as_str(&self) -> (r: &'static str)
        ensures
            r@ == tran_side_text(*self),
    {
        match self {
            TranSide::P => {
                proof {
                    reveal_strlit("P");
                }
                "P"
            },
            TranSide::S => {
                proof {
                    reveal_strlit("S");
                }
                "S"
            },
        }
    }
}

/// Reading the letter of a side gives the side back.
pub proof fn lemma_tran_side_round_trip(t: TranSide)
    ensures
        is_ascii_text(trim(tran_side_text(t))),
        (if ascii_upper(trim(tran_side_text(t))) == seq!['P'] { TranSide::P } else { TranSide::S })
            == t,
{
    let x = tran_side_text(t);
    lemma_trim_noop(x);
    assert(ascii_upper(x) =~= x);
    if t == TranSide::S {
        assert(x[0] != 'P');
    }
}

/// Extra attributes of a status channel, merged in from the information or
/// device-model files.
#[derive(Debug, Clone, Default)]
pub struct StatusExt {
    /// Position of the channel on the terminal block.
    pub idx_org: Option<usize>,
    /// Channel type.
    pub channel_type: Option<String>,
    /// Channel flag.
    pub flag: Option<String>,
    /// Normal state (`0` open, `1` closed).
    pub contact: Option<u8>,
    /// IEC 61850 object reference.
    pub reference: Option<String>,
    /// Number of the protection, breaker or switch (`Relay_#1`).
    pub equipment_no: Option<String>,
}

/// A status (digital) channel of the configuration file.
#[derive(Debug, Clone, Default)]
pub struct StatusChannel {
    /// Channel number (1-based).
    pub index: usize,
    /// Channel name.
    pub name: String,
    /// Phase identifier.
    pub phase: String,
    /// Monitored circuit component.
    pub equipment: String,
    /// Normal state (`0` open, `1` closed).
    pub contact: u8,
    /// Extra attributes, `None` when none were supplied.
    pub ext: Option<StatusExt>,
}

/// A number field as channel lines read it: its value when it is an unsigned number no
/// larger than `max`, else 0.
pub open spec fn uint_or_zero(t: Seq<char>, max: nat) -> nat {
    match parse_uint(t, max) {
        Some(v) => v,
        None => 0,
    }
}

/// The values a status-channel line gives: number, name, phase, equipment, normal state.
pub open spec fn status_of_line(line: Seq<char>) -> (nat, Seq<char>, Seq<char>, Seq<char>, nat) {
    let fs = trimmed_fields(line, ',');
    (
        uint_or_zero(field_or_empty(fs, 0), usize::MAX as nat),
        field_or_empty(fs, 1),
        field_or_empty(fs, 2),
        field_or_empty(fs, 3),
        uint_or_zero(field_or_empty(fs, 4), 255),
    )
}

/// The line-level values of a status channel.
pub open spec fn status_view(c: StatusChannel) -> (nat, Seq<char>, Seq<char>, Seq<char>, nat) {
    (c.index as nat, c.name@, c.phase@, c.equipment@, c.contact as nat)
}

/// The configuration line of a status channel.
pub open spec fn status_line(c: StatusChannel) -> Seq<char> {
    dec(c.index as nat) + seq![','] + c.name@ + seq![','] + c.phase@ + seq![','] + c.equipment@
        + seq![','] + dec(c.contact as nat)
}

/// Text that stays one field of a line: no comma in it, nothing to trim.
pub open spec fn plain_field(s: Seq<char>) -> bool {
    !s.contains(',') && trim(s) == s
}

/// Appends the characters of `s`.
pub fn push_str(out: &mut Vec<char>, s: &str)
    ensures
        final(out)@ == old(out)@ + s@,
{
    let cs = str_chars(s);
    push_all(out, cs.as_slice());
}

impl StatusChannel {
    /// Reads a status-channel line (`index,name,phase,equipment,contact`); missing or
    /// unreadable numbers are 0, missing texts empty.
    pub fn from_cfg_line(line: &str) -> (r: StatusChannel)
        ensures
            status_view(r) == status_of_line(line@),
            r.ext is None,
    {
        let cs = str_chars(line);
        let parts = split_trimmed(cs.as_slice(), ',');
        let f0 = field_copy(&parts, 0);
        let index: usize = match parse_uint_chars(f0.as_slice(), usize::MAX as u64) {
            Some(v) => v as usize,
            None => 0,
        };
        let name = chars_to_string(field_copy(&parts, 1).as_slice());
        let phase = chars_to_string(field_copy(&parts, 2).as_slice());
        let equipment = chars_to_string(field_copy(&parts, 3).as_slice());
        let f4 = field_copy(&parts, 4);
        let contact: u8 = match parse_uint_chars(f4.as_slice(), 255) {
            Some(v) => v as u8,
            None => 0,
        };
        StatusChannel { index, name, phase, equipment, contact, ext: None }
    }

    /// The configuration line of the channel.
    pub fn to_cfg_line(&self) -> (r: String)
        ensures
            r@ == status_line(*self),
    {
        let mut out: Vec<char> = Vec::new();
        push_dec(&mut out, self.index as u64);
        out.push(',');
        push_str(&mut out, self.name.as_str());
        out.push(',');
        push_str(&mut out, self.phase.as_str());
        out.push(',');
        push_str(&mut out, self.equipment.as_str());
        out.push(',');
        push_dec(&mut out, self.contact as u64);
        assert(out@ =~= status_line(*self));
        chars_to_string(out.as_slice())
    }
}

/// A decimal number is a plain field.
pub proof fn lemma_dec_plain_field(v: nat)
    ensures
        plain_field(dec(v)),
        !dec(v).contains('$'),
{
    lemma_dec_plain(v, ',');
    lemma_dec_plain(v, '$');
    lemma_trim_noop(dec(v));
}

/// Writing a status channel whose texts are plain fields and reading the line back gives
/// the same number, name, phase, equipment and normal state.
pub proof fn lemma_status_line_round_trip(c: StatusChannel)
    requires
        plain_field(c.name@),
        plain_field(c.phase@),
        plain_field(c.equipment@),
    ensures
        status_of_line(status_line(c)) == status_view(c),
{
    let d0 = dec(c.index as nat);
    let d4 = dec(c.contact as nat);
    lemma_dec_plain_field(c.index as nat);
    lemma_dec_plain_field(c.contact as nat);
    let sep = seq![','];
    let t3 = c.equipment@ + sep + d4;
    let t2 = c.phase@ + sep + t3;
    let t1 = c.name@ + sep + t2;
    assert(status_line(c) =~= d0 + sep + t1);
    lemma_split_join(d0, ',', t1);
    lemma_split_join(c.name@, ',', t2);
    lemma_split_join(c.phase@, ',', t3);
    lemma_split_join(c.equipment@, ',', d4);
    lemma_split_no_sep(d4, ',');
    let parts = split(status_line(c), ',');
    assert(parts =~= seq![d0, c.name@, c.phase@, c.equipment@, d4]);
    let fs = trimmed_fields(status_line(c), ',');
    assert(fs[0] == d0 && fs[1] == c.name@ && fs[2] == c.phase@ && fs[3] == c.equipment@
        && fs[4] == d4);
    lemma_parse_uint_dec(c.index as nat, usize::MAX as nat);
    lemma_parse_uint_dec(c.contact as nat, 255);
}

/// ASCII letters, digits and `_`.
pub open spec fn is_name_char(c: char) -> bool {
    ('a' <= c && c <= 'z') || ('A' <= c && c <= 'Z') || is_digit(c) || c == '_'
}

/// Text made only of ASCII name characters and `$` separators.
pub open spec fn is_reference_text(s: Seq<char>) -> bool {
    forall|i: int| 0 <= i < s.len() ==> is_name_char(#[trigger] s[i]) || s[i] == '$'
}

/// An object reference as common-format files write it in place of equipment: at least
/// three `$`-separated parts of ASCII names, the first one non-empty.
pub open spec fn ccbm_reference(s: Seq<char>) -> bool {
    let ps = split(s, '$');
    is_reference_text(s) && ps.len() >= 3 && ps[0].len() > 0
}

/// An IEC 61850 data reference `LN$FC$...`: ASCII names separated by `$`, a non-empty
/// first part, and a functional constraint of two capital letters as the second part.
pub open spec fn iec61850_reference(s: Seq<char>) -> bool {
    let ps = split(s, '$');
    &&& is_reference_text(s)
    &&& ps.len() >= 3
    &&& ps[0].len() > 0
    &&& ps[1].len() == 2
    &&& 'A' <= ps[1][0] && ps[1][0] <= 'Z'
    &&& 'A' <= ps[1][1] && ps[1][1] <= 'Z'
}

fn reference_text(s: &[char]) -> (r: bool)
    ensures
        r == is_reference_text(s@),
{
    let mut k: usize = 0;
    while k < s.len()
        invariant
            k <= s@.len(),
            forall|i: int| 0 <= i < k ==> is_name_char(#[trigger] s@[i]) || s@[i] == '$',
        decreases s.len() - k,
    {
        let c = s[k];
        let ok = ('a' <= c && c <= 'z') || ('A' <= c && c <= 'Z') || ('0' <= c && c <= '9')
            || c == '_' || c == '$';
        if !ok {
            return false;
        }
        k = k + 1;
    }
    true
}

/// Whether an equipment field actually holds an object reference (`MUSV$TVTR1$MX$Vol`).
pub fn is_reference_like_ccbm(s: &str) -> (r: bool)
    ensures
        r == ccbm_reference(s@),
{
    let cs = str_chars(s);
    if !reference_text(cs.as_slice()) {
        return false;
    }
    let ps = split_chars(cs.as_slice(), '$');
    proof {
        assert(views(ps@).len() == ps@.len());
    }
    if ps.len() < 3 {
        return false;
    }
    proof {
        assert(views(ps@)[0] == ps@[0]@);
    }
    ps[0].len() > 0
}

/// Whether a field holds an IEC 61850 data reference (`PTRC$ST$Tr$general`).
pub fn is_iec61850_reference(s: &str) -> (r: bool)
    ensures
        r == iec61850_reference(s@),
{
    let cs = str_chars(s);
    if !reference_text(cs.as_slice()) {
        return false;
    }
    let ps = split_chars(cs.as_slice(), '$');
    proof {
        assert(views(ps@).len() == ps@.len());
    }
    if ps.len() < 3 {
        return false;
    }
    proof {
        assert(views(ps@)[0] == ps@[0]@);
        assert(views(ps@)[1] == ps@[1]@);
    }
    if ps[0].len() == 0 || ps[1].len() != 2 {
        return false;
    }
    let a = ps[1][0];
    let b = ps[1][1];
    'A' <= a && a <= 'Z' && 'A' <= b && b <= 'Z'
}

} // verus!
