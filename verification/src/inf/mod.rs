//! The information file (`.inf`): INI-style sections `[AREA Name_#n]` holding
//! `key=value` lines, read and written without loss of the modelled parts.

pub mod builder;
pub mod number;
pub mod reader;

use vstd::prelude::*;

use crate::cfg::channel::uint_or_zero;
use crate::text::{
    ascii_lower, ascii_lower_chars, ascii_upper, ascii_upper_chars, chars_eq_str,
    chars_to_string, clean_line, dec, find_char, first_index_of, is_ws, join_lines,
    lemma_dec_digits, lemma_dec_plain, lemma_first_index_of, lemma_join_lines_concat,
    lemma_lines_join_lines, lemma_parse_uint_dec, lemma_trim_noop, lemma_trimmed_ends, lines,
    lines_of, parse_uint,
    parse_uint_chars, push_all, push_dec, slice_chars, str_chars, trim, trim_chars, views,
};

verus! {

/// What a section describes, read from its name (letter case ignored).
#[derive(Debug, Clone, PartialEq, Eq)]
pub enum SectionKind {
    /// General description of the recording (`File_Description`).
    FileDescription,
    /// One analog channel (`Analog_Channel_#n`).
    AnalogChannel,
    /// One status channel (`Status_Channel_#n`).
    StatusChannel,
    /// Extra parameters of all analog channels.
    AnalogChannelsParameter,
    /// Extra parameters of all status channels.
    StatusChannelsParameter,
    /// A bus (`Bus_#n`).
    Bus,
    /// A line (`Line_#n`).
    Line,
    /// A transformer (`Transformer_#n`).
    Transformer,
    /// A generator (`Power_#n`).
    Generator,
    /// An exciter (`Excitation_#n`).
    Exciter,
    /// Any other section; its name is kept as written.
    Other(String),
}

/// The canonical name of a known kind (`tag` below 10).
pub open spec fn known_name(tag: nat) -> Seq<char> {
    if tag == 0 {
        seq!['F', 'i', 'l', 'e', '_', 'D', 'e', 's', 'c', 'r', 'i', 'p', 't', 'i', 'o', 'n']
    } else if tag == 1 {
        seq!['A', 'n', 'a', 'l', 'o', 'g', '_', 'C', 'h', 'a', 'n', 'n', 'e', 'l']
    } else if tag == 2 {
        seq!['S', 't', 'a', 't', 'u', 's', '_', 'C', 'h', 'a', 'n', 'n', 'e', 'l']
    } else if tag == 3 {
        seq!['A', 'n', 'a', 'l', 'o', 'g', '_', 'C', 'h', 'a', 'n', 'n', 'e', 'l', 's', '_', 'P', 'a', 'r', 'a', 'm', 'e', 't', 'e', 'r']
    } else if tag == 4 {
        seq!['S', 't', 'a', 't', 'u', 's', '_', 'C', 'h', 'a', 'n', 'n', 'e', 'l', 's', '_', 'P', 'a', 'r', 'a', 'm', 'e', 't', 'e', 'r']
    } else if tag == 5 {
        seq!['B', 'u', 's']
    } else if tag == 6 {
        seq!['L', 'i', 'n', 'e']
    } else if tag == 7 {
        seq!['T', 'r', 'a', 'n', 's', 'f', 'o', 'r', 'm', 'e', 'r']
    } else if tag == 8 {
        seq!['P', 'o', 'w', 'e', 'r']
    } else {
        seq!['E', 'x', 'c', 'i', 't', 'a', 't', 'i', 'o', 'n']
    }
}

/// The tag of the known kind whose upper-case name is `u`.
pub open spec fn known_tag(u: Seq<char>) -> Option<nat> {
    if u == seq!['F', 'I', 'L', 'E', '_', 'D', 'E', 'S', 'C', 'R', 'I', 'P', 'T', 'I', 'O', 'N'] {
        Some(0)
    } else if u == seq!['A', 'N', 'A', 'L', 'O', 'G', '_', 'C', 'H', 'A', 'N', 'N', 'E', 'L'] {
        Some(1)
    } else if u == seq!['S', 'T', 'A', 'T', 'U', 'S', '_', 'C', 'H', 'A', 'N', 'N', 'E', 'L'] {
        Some(2)
    } else if u == seq!['A', 'N', 'A', 'L', 'O', 'G', '_', 'C', 'H', 'A', 'N', 'N', 'E', 'L', 'S', '_', 'P', 'A', 'R', 'A', 'M', 'E', 'T', 'E', 'R'] {
        Some(3)
    } else if u == seq!['S', 'T', 'A', 'T', 'U', 'S', '_', 'C', 'H', 'A', 'N', 'N', 'E', 'L', 'S', '_', 'P', 'A', 'R', 'A', 'M', 'E', 'T', 'E', 'R'] {
        Some(4)
    } else if u == seq!['B', 'U', 'S'] {
        Some(5)
    } else if u == seq!['L', 'I', 'N', 'E'] {
        Some(6)
    } else if u == seq!['T', 'R', 'A', 'N', 'S', 'F', 'O', 'R', 'M', 'E', 'R'] {
        Some(7)
    } else if u == seq!['P', 'O', 'W', 'E', 'R'] {
        Some(8)
    } else if u == seq!['E', 'X', 'C', 'I', 'T', 'A', 'T', 'I', 'O', 'N'] {
        Some(9)
    } else {
        None
    }
}

/// A kind as a tag (0-9 for the known kinds, 10 for any other) and, for any other, its name.
pub open spec fn kind_view(k: SectionKind) -> (nat, Seq<char>) {
    match k {
        SectionKind::FileDescription => (0, Seq::<char>::empty()),
        SectionKind::AnalogChannel => (1, Seq::<char>::empty()),
        SectionKind::StatusChannel => (2, Seq::<char>::empty()),
        SectionKind::AnalogChannelsParameter => (3, Seq::<char>::empty()),
        SectionKind::StatusChannelsParameter => (4, Seq::<char>::empty()),
        SectionKind::Bus => (5, Seq::<char>::empty()),
        SectionKind::Line => (6, Seq::<char>::empty()),
        SectionKind::Transformer => (7, Seq::<char>::empty()),
        SectionKind::Generator => (8, Seq::<char>::empty()),
        SectionKind::Exciter => (9, Seq::<char>::empty()),
        SectionKind::Other(n) => (10, n@),
    }
}

/// The name a kind is written with.
pub open spec fn kind_text(k: SectionKind) -> Seq<char> {
    match k {
        SectionKind::Other(n) => n@,
        _ => known_name(kind_view(k).0),
    }
}

/// The kind a section name stands for: a known kind when its ASCII upper case is a known
/// name, else the name itself.
pub open spec fn kind_from_name(base: Seq<char>) -> (nat, Seq<char>) {
    match known_tag(ascii_upper(base)) {
        Some(t) => (t, Seq::<char>::empty()),
        None => (10, base),
    }
}

/// The known section kinds are written with their documented names (`Bus`, `Line`,
/// `Power` for a generator, `Excitation` for an exciter, …), and a section name that is
/// one of these names in any letter case reads as that kind.
pub proof fn lemma_known_kind_names(name: Seq<char>)
    ensures
        kind_text(SectionKind::FileDescription) == "File_Description"@,
        kind_text(SectionKind::AnalogChannel) == "Analog_Channel"@,
        kind_text(SectionKind::StatusChannel) == "Status_Channel"@,
        kind_text(SectionKind::AnalogChannelsParameter) == "Analog_Channels_Parameter"@,
        kind_text(SectionKind::StatusChannelsParameter) == "Status_Channels_Parameter"@,
        kind_text(SectionKind::Bus) == "Bus"@,
        kind_text(SectionKind::Line) == "Line"@,
        kind_text(SectionKind::Transformer) == "Transformer"@,
        kind_text(SectionKind::Generator) == "Power"@,
        kind_text(SectionKind::Exciter) == "Excitation"@,
        ascii_upper(name) == "FILE_DESCRIPTION"@ ==> kind_from_name(name) == kind_view(SectionKind::FileDescription),
        ascii_upper(name) == "ANALOG_CHANNEL"@ ==> kind_from_name(name) == kind_view(SectionKind::AnalogChannel),
        ascii_upper(name) == "STATUS_CHANNEL"@ ==> kind_from_name(name) == kind_view(SectionKind::StatusChannel),
        ascii_upper(name) == "ANALOG_CHANNELS_PARAMETER"@ ==> kind_from_name(name) == kind_view(SectionKind::AnalogChannelsParameter),
        ascii_upper(name) == "STATUS_CHANNELS_PARAMETER"@ ==> kind_from_name(name) == kind_view(SectionKind::StatusChannelsParameter),
        ascii_upper(name) == "BUS"@ ==> kind_from_name(name) == kind_view(SectionKind::Bus),
        ascii_upper(name) == "LINE"@ ==> kind_from_name(name) == kind_view(SectionKind::Line),
        ascii_upper(name) == "TRANSFORMER"@ ==> kind_from_name(name) == kind_view(SectionKind::Transformer),
        ascii_upper(name) == "POWER"@ ==> kind_from_name(name) == kind_view(SectionKind::Generator),
        ascii_upper(name) == "EXCITATION"@ ==> kind_from_name(name) == kind_view(SectionKind::Exciter),
{
    reveal_strlit("File_Description");
    reveal_strlit("FILE_DESCRIPTION");
    reveal_strlit("Analog_Channel");
    reveal_strlit("ANALOG_CHANNEL");
    reveal_strlit("Status_Channel");
    reveal_strlit("STATUS_CHANNEL");
    reveal_strlit("Analog_Channels_Parameter");
    reveal_strlit("ANALOG_CHANNELS_PARAMETER");
    reveal_strlit("Status_Channels_Parameter");
    reveal_strlit("STATUS_CHANNELS_PARAMETER");
    reveal_strlit("Bus");
    reveal_strlit("BUS");
    reveal_strlit("Line");
    reveal_strlit("LINE");
    reveal_strlit("Transformer");
    reveal_strlit("TRANSFORMER");
    reveal_strlit("Power");
    reveal_strlit("POWER");
    reveal_strlit("Excitation");
    reveal_strlit("EXCITATION");
    assert("File_Description"@ =~= seq!['F', 'i', 'l', 'e', '_', 'D', 'e', 's', 'c', 'r', 'i', 'p', 't', 'i', 'o', 'n']);
    assert("FILE_DESCRIPTION"@ =~= seq!['F', 'I', 'L', 'E', '_', 'D', 'E', 'S', 'C', 'R', 'I', 'P', 'T', 'I', 'O', 'N']);
    assert("Analog_Channel"@ =~= seq!['A', 'n', 'a', 'l', 'o', 'g', '_', 'C', 'h', 'a', 'n', 'n', 'e', 'l']);
    assert("ANALOG_CHANNEL"@ =~= seq!['A', 'N', 'A', 'L', 'O', 'G', '_', 'C', 'H', 'A', 'N', 'N', 'E', 'L']);
    assert("Status_Channel"@ =~= seq!['S', 't', 'a', 't', 'u', 's', '_', 'C', 'h', 'a', 'n', 'n', 'e', 'l']);
    assert("STATUS_CHANNEL"@ =~= seq!['S', 'T', 'A', 'T', 'U', 'S', '_', 'C', 'H', 'A', 'N', 'N', 'E', 'L']);
    assert("Analog_Channels_Parameter"@ =~= seq!['A', 'n', 'a', 'l', 'o', 'g', '_', 'C', 'h', 'a', 'n', 'n', 'e', 'l', 's', '_', 'P', 'a', 'r', 'a', 'm', 'e', 't', 'e', 'r']);
    assert("ANALOG_CHANNELS_PARAMETER"@ =~= seq!['A', 'N', 'A', 'L', 'O', 'G', '_', 'C', 'H', 'A', 'N', 'N', 'E', 'L', 'S', '_', 'P', 'A', 'R', 'A', 'M', 'E', 'T', 'E', 'R']);
    assert("Status_Channels_Parameter"@ =~= seq!['S', 't', 'a', 't', 'u', 's', '_', 'C', 'h', 'a', 'n', 'n', 'e', 'l', 's', '_', 'P', 'a', 'r', 'a', 'm', 'e', 't', 'e', 'r']);
    assert("STATUS_CHANNELS_PARAMETER"@ =~= seq!['S', 'T', 'A', 'T', 'U', 'S', '_', 'C', 'H', 'A', 'N', 'N', 'E', 'L', 'S', '_', 'P', 'A', 'R', 'A', 'M', 'E', 'T', 'E', 'R']);
    assert("Bus"@ =~= seq!['B', 'u', 's']);
    assert("BUS"@ =~= seq!['B', 'U', 'S']);
    assert("Line"@ =~= seq!['L', 'i', 'n', 'e']);
    assert("LINE"@ =~= seq!['L', 'I', 'N', 'E']);
    assert("Transformer"@ =~= seq!['T', 'r', 'a', 'n', 's', 'f', 'o', 'r', 'm', 'e', 'r']);
    assert("TRANSFORMER"@ =~= seq!['T', 'R', 'A', 'N', 'S', 'F', 'O', 'R', 'M', 'E', 'R']);
    assert("Power"@ =~= seq!['P', 'o', 'w', 'e', 'r']);
    assert("POWER"@ =~= seq!['P', 'O', 'W', 'E', 'R']);
    assert("Excitation"@ =~= seq!['E', 'x', 'c', 'i', 't', 'a', 't', 'i', 'o', 'n']);
    assert("EXCITATION"@ =~= seq!['E', 'X', 'C', 'I', 'T', 'A', 'T', 'I', 'O', 'N']);
}

/// Reading the name a kind is written with gives the kind back (for any other kind, when
/// its name is not a known name in disguise).
pub proof fn lemma_kind_name_round_trip(k: SectionKind)
    requires
        k matches SectionKind::Other(n) ==> known_tag(ascii_upper(n@)) is None,
    ensures
        kind_from_name(kind_text(k)) == kind_view(k),
{
    match k {
        SectionKind::Other(n) => {},
        _ => {
            let t = kind_view(k).0;
            let u = ascii_upper(known_name(t));
            lemma_known_names_distinct();
            if t == 0 {
                assert(u =~= seq!['F', 'I', 'L', 'E', '_', 'D', 'E', 'S', 'C', 'R', 'I', 'P', 'T', 'I', 'O', 'N']);
            } else if t == 1 {
                assert(u =~= seq!['A', 'N', 'A', 'L', 'O', 'G', '_', 'C', 'H', 'A', 'N', 'N', 'E', 'L']);
            } else if t == 2 {
                assert(u =~= seq!['S', 'T', 'A', 'T', 'U', 'S', '_', 'C', 'H', 'A', 'N', 'N', 'E', 'L']);
            } else if t == 3 {
                assert(u =~= seq!['A', 'N', 'A', 'L', 'O', 'G', '_', 'C', 'H', 'A', 'N', 'N', 'E', 'L', 'S', '_', 'P', 'A', 'R', 'A', 'M', 'E', 'T', 'E', 'R']);
            } else if t == 4 {
                assert(u =~= seq!['S', 'T', 'A', 'T', 'U', 'S', '_', 'C', 'H', 'A', 'N', 'N', 'E', 'L', 'S', '_', 'P', 'A', 'R', 'A', 'M', 'E', 'T', 'E', 'R']);
            } else if t == 5 {
                assert(u =~= seq!['B', 'U', 'S']);
            } else if t == 6 {
                assert(u =~= seq!['L', 'I', 'N', 'E']);
            } else if t == 7 {
                assert(u =~= seq!['T', 'R', 'A', 'N', 'S', 'F', 'O', 'R', 'M', 'E', 'R']);
            } else if t == 8 {
                assert(u =~= seq!['P', 'O', 'W', 'E', 'R']);
            } else if t == 9 {
                assert(u =~= seq!['E', 'X', 'C', 'I', 'T', 'A', 'T', 'I', 'O', 'N']);
            }
        },
    }
}

/// The upper-case known names differ from each other.
proof fn lemma_known_names_distinct()
    ensures
        seq!['A', 'N', 'A', 'L', 'O', 'G', '_', 'C', 'H', 'A', 'N', 'N', 'E', 'L'] != seq!['S', 'T', 'A', 'T', 'U', 'S', '_', 'C', 'H', 'A', 'N', 'N', 'E', 'L'],
        seq!['A', 'N', 'A', 'L', 'O', 'G', '_', 'C', 'H', 'A', 'N', 'N', 'E', 'L', 'S', '_', 'P', 'A', 'R', 'A', 'M', 'E', 'T', 'E', 'R'] != seq!['S', 'T', 'A', 'T', 'U', 'S', '_', 'C', 'H', 'A', 'N', 'N', 'E', 'L', 'S', '_', 'P', 'A', 'R', 'A', 'M', 'E', 'T', 'E', 'R'],
{
    assert(seq!['A', 'N', 'A', 'L', 'O', 'G', '_', 'C', 'H', 'A', 'N', 'N', 'E', 'L'][0] != seq!['S', 'T', 'A', 'T', 'U', 'S', '_', 'C', 'H', 'A', 'N', 'N', 'E', 'L'][0]);
    assert(seq!['A', 'N', 'A', 'L', 'O', 'G', '_', 'C', 'H', 'A', 'N', 'N', 'E', 'L', 'S', '_', 'P', 'A', 'R', 'A', 'M', 'E', 'T', 'E', 'R'][0] != seq!['S', 'T', 'A', 'T', 'U', 'S', '_', 'C', 'H', 'A', 'N', 'N', 'E', 'L', 'S', '_', 'P', 'A', 'R', 'A', 'M', 'E', 'T', 'E', 'R'][0]);
}

/// The name a kind is written with.
fn kind_chars(k: &SectionKind) -> (r: Vec<char>)
    ensures
        r@ == kind_text(*k),
{
    match k {
        SectionKind::FileDescription => {
            proof {
                reveal_strlit("File_Description");
            }
            str_chars("File_Description")
        },
        SectionKind::AnalogChannel => {
            proof {
                reveal_strlit("Analog_Channel");
            }
            str_chars("Analog_Channel")
        },
        SectionKind::StatusChannel => {
            proof {
                reveal_strlit("Status_Channel");
            }
            str_chars("Status_Channel")
        },
        SectionKind::AnalogChannelsParameter => {
            proof {
                reveal_strlit("Analog_Channels_Parameter");
            }
            str_chars("Analog_Channels_Parameter")
        },
        SectionKind::StatusChannelsParameter => {
            proof {
                reveal_strlit("Status_Channels_Parameter");
            }
            str_chars("Status_Channels_Parameter")
        },
        SectionKind::Bus => {
            proof {
                reveal_strlit("Bus");
            }
            str_chars("Bus")
        },
        SectionKind::Line => {
            proof {
                reveal_strlit("Line");
            }
            str_chars("Line")
        },
        SectionKind::Transformer => {
            proof {
                reveal_strlit("Transformer");
            }
            str_chars("Transformer")
        },
        SectionKind::Generator => {
            proof {
                reveal_strlit("Power");
            }
            str_chars("Power")
        },
        SectionKind::Exciter => {
            proof {
                reveal_strlit("Excitation");
            }
            str_chars("Excitation")
        },
        SectionKind::Other(n) => str_chars(n.as_str()),
    }
}

/// The kind a section name stands for (see `kind_from_name`).
fn kind_of_name(base: &[char]) -> (r: SectionKind)
    ensures
        kind_view(r) == kind_from_name(base@),
{
    let u = ascii_upper_chars(base);
    let us = u.as_slice();
    proof {
        reveal_strlit("FILE_DESCRIPTION");
        assert("FILE_DESCRIPTION"@ =~= seq!['F', 'I', 'L', 'E', '_', 'D', 'E', 'S', 'C', 'R', 'I', 'P', 'T', 'I', 'O', 'N']);
        reveal_strlit("ANALOG_CHANNEL");
        assert("ANALOG_CHANNEL"@ =~= seq!['A', 'N', 'A', 'L', 'O', 'G', '_', 'C', 'H', 'A', 'N', 'N', 'E', 'L']);
        reveal_strlit("STATUS_CHANNEL");
        assert("STATUS_CHANNEL"@ =~= seq!['S', 'T', 'A', 'T', 'U', 'S', '_', 'C', 'H', 'A', 'N', 'N', 'E', 'L']);
        reveal_strlit("ANALOG_CHANNELS_PARAMETER");
        assert("ANALOG_CHANNELS_PARAMETER"@ =~= seq!['A', 'N', 'A', 'L', 'O', 'G', '_', 'C', 'H', 'A', 'N', 'N', 'E', 'L', 'S', '_', 'P', 'A', 'R', 'A', 'M', 'E', 'T', 'E', 'R']);
        reveal_strlit("STATUS_CHANNELS_PARAMETER");
        assert("STATUS_CHANNELS_PARAMETER"@ =~= seq!['S', 'T', 'A', 'T', 'U', 'S', '_', 'C', 'H', 'A', 'N', 'N', 'E', 'L', 'S', '_', 'P', 'A', 'R', 'A', 'M', 'E', 'T', 'E', 'R']);
        reveal_strlit("BUS");
        assert("BUS"@ =~= seq!['B', 'U', 'S']);
        reveal_strlit("LINE");
        assert("LINE"@ =~= seq!['L', 'I', 'N', 'E']);
        reveal_strlit("TRANSFORMER");
        assert("TRANSFORMER"@ =~= seq!['T', 'R', 'A', 'N', 'S', 'F', 'O', 'R', 'M', 'E', 'R']);
        reveal_strlit("POWER");
        assert("POWER"@ =~= seq!['P', 'O', 'W', 'E', 'R']);
        reveal_strlit("EXCITATION");
        assert("EXCITATION"@ =~= seq!['E', 'X', 'C', 'I', 'T', 'A', 'T', 'I', 'O', 'N']);
    }
    if chars_eq_str(us, "FILE_DESCRIPTION") {
        SectionKind::FileDescription
    } else if chars_eq_str(us, "ANALOG_CHANNEL") {
        SectionKind::AnalogChannel
    } else if chars_eq_str(us, "STATUS_CHANNEL") {
        SectionKind::StatusChannel
    } else if chars_eq_str(us, "ANALOG_CHANNELS_PARAMETER") {
        SectionKind::AnalogChannelsParameter
    } else if chars_eq_str(us, "STATUS_CHANNELS_PARAMETER") {
        SectionKind::StatusChannelsParameter
    } else if chars_eq_str(us, "BUS") {
        SectionKind::Bus
    } else if chars_eq_str(us, "LINE") {
        SectionKind::Line
    } else if chars_eq_str(us, "TRANSFORMER") {
        SectionKind::Transformer
    } else if chars_eq_str(us, "POWER") {
        SectionKind::Generator
    } else if chars_eq_str(us, "EXCITATION") {
        SectionKind::Exciter
    } else {
        SectionKind::Other(chars_to_string(base))
    }
}

/// Whether two kinds are the same (for any other kind: the same name).
fn same_kind(a: &SectionKind, b: &SectionKind) -> (r: bool)
    ensures
        r == (kind_view(*a) == kind_view(*b)),
{
    match (a, b) {
        (SectionKind::FileDescription, SectionKind::FileDescription) => true,
        (SectionKind::AnalogChannel, SectionKind::AnalogChannel) => true,
        (SectionKind::StatusChannel, SectionKind::StatusChannel) => true,
        (SectionKind::AnalogChannelsParameter, SectionKind::AnalogChannelsParameter) => true,
        (SectionKind::StatusChannelsParameter, SectionKind::StatusChannelsParameter) => true,
        (SectionKind::Bus, SectionKind::Bus) => true,
        (SectionKind::Line, SectionKind::Line) => true,
        (SectionKind::Transformer, SectionKind::Transformer) => true,
        (SectionKind::Generator, SectionKind::Generator) => true,
        (SectionKind::Exciter, SectionKind::Exciter) => true,
        (SectionKind::Other(x), SectionKind::Other(y)) => {
            let xs = str_chars(x.as_str());
            chars_eq_str(xs.as_slice(), y.as_str())
        },
        _ => false,
    }
}

} // verus!

verus! {

/// One section of an information file.
#[derive(Debug, Clone)]
pub struct Section {
    /// Area named before the section name (`Public`, `ZYHD`); may be empty.
    pub area: String,
    /// What the section describes.
    pub kind: SectionKind,
    /// Number after `_#` in the name, 0 when there is none.
    pub index: usize,
    /// The `key=value` entries, in order.
    pub fields: Vec<(String, String)>,
    /// The section's body lines as read (trimmed, each ended by a newline); empty for a
    /// section that was built rather than read.
    pub raw: String,
}

/// A whole information file.
#[derive(Debug, Clone)]
pub struct InfFile {
    /// The sections, in file order.
    pub sections: Vec<Section>,
}

/// The text of the entries of a section.
pub open spec fn fields_view(fs: Seq<(String, String)>) -> Seq<(Seq<char>, Seq<char>)> {
    fs.map_values(|p: (String, String)| (p.0@, p.1@))
}

/// A section as values: area, kind, number, entries, body lines.
pub type SectionState = (Seq<char>, (nat, Seq<char>), nat, Seq<(Seq<char>, Seq<char>)>, Seq<char>);

/// The values of a section.
pub open spec fn sec_state(s: Section) -> SectionState {
    (s.area@, kind_view(s.kind), s.index as nat, fields_view(s.fields@), s.raw@)
}

/// The values of a run of sections.
pub open spec fn states(ss: Seq<Section>) -> Seq<SectionState> {
    ss.map_values(|s: Section| sec_state(s))
}

/// A section's values without its body lines: what the file says rather than how it was laid out.
pub open spec fn content(st: SectionState) -> (Seq<char>, (nat, Seq<char>), nat, Seq<(Seq<char>, Seq<char>)>) {
    (st.0, st.1, st.2, st.3)
}

// ---------------------------------------------------------------- reading

/// Position of the first `_#` in `s`.
pub open spec fn first_marker(s: Seq<char>) -> Option<int>
    decreases s.len(),
{
    if s.len() < 2 {
        None
    } else if s[0] == '_' && s[1] == '#' {
        Some(0)
    } else {
        match first_marker(s.drop_first()) {
            Some(i) => Some(i + 1),
            None => None,
        }
    }
}

/// A trimmed line that opens a section: `[` ... `]`.
pub open spec fn is_header(t: Seq<char>) -> bool {
    t.len() >= 2 && t[0] == '[' && t.last() == ']'
}

/// Area, kind and number that a section header gives. Inside the brackets (trimmed), the
/// area is what precedes the first space (none without a space); the name follows it. A
/// name `Base_#n` has number `n` (0 when `n` is not a number), a name without `_#` has 0.
pub open spec fn header_parts(t: Seq<char>) -> (Seq<char>, (nat, Seq<char>), nat) {
    let inner = trim(t.subrange(1, t.len() - 1));
    let area = match first_index_of(inner, ' ') {
        Some(p) => inner.take(p),
        None => Seq::<char>::empty(),
    };
    let rest = match first_index_of(inner, ' ') {
        Some(p) => trim(inner.skip(p + 1)),
        None => inner,
    };
    let base = match first_marker(rest) {
        Some(q) => trim(rest.take(q)),
        None => rest,
    };
    let idx = match first_marker(rest) {
        Some(q) => uint_or_zero(rest.skip(q + 2), usize::MAX as nat),
        None => 0,
    };
    (area, kind_from_name(base), idx)
}

/// Key and value of a body line: around the first `=`, trimmed; a line without `=` is a
/// key with an empty value.
pub open spec fn field_of_line(t: Seq<char>) -> (Seq<char>, Seq<char>) {
    match first_index_of(t, '=') {
        Some(p) => (trim(t.take(p)), trim(t.skip(p + 1))),
        None => (t, Seq::<char>::empty()),
    }
}

/// Reading one more line: a header opens a new section; any other non-empty line, once a
/// section is open, adds an entry to it; everything else is skipped.
pub open spec fn step(st: Seq<SectionState>, l: Seq<char>) -> Seq<SectionState> {
    let t = trim(l);
    if is_header(t) {
        let h = header_parts(t);
        st.push((h.0, h.1, h.2, Seq::empty(), Seq::empty()))
    } else if st.len() == 0 || t.len() == 0 {
        st
    } else {
        let c = st.last();
        st.update(st.len() - 1, (c.0, c.1, c.2, c.3.push(field_of_line(t)), c.4 + t + seq!['\n']))
    }
}

/// The sections read from lines `ls`, starting from sections `st`.
pub open spec fn parse_from(st: Seq<SectionState>, ls: Seq<Seq<char>>) -> Seq<SectionState>
    decreases ls.len(),
{
    if ls.len() == 0 {
        st
    } else {
        step(parse_from(st, ls.drop_last()), ls.last())
    }
}

/// The sections read from a text.
pub open spec fn parse_text(text: Seq<char>) -> Seq<SectionState> {
    parse_from(Seq::empty(), lines(text))
}

// ---------------------------------------------------------------- writing

/// `_#n` for a number above 0, nothing for 0.
pub open spec fn index_suffix(i: nat) -> Seq<char> {
    if i > 0 {
        seq!['_', '#'] + dec(i)
    } else {
        Seq::<char>::empty()
    }
}

/// The header line of a section: `[AREA Name_#n]`, without the area and its space when
/// the area is empty.
pub open spec fn header_text(s: Section) -> Seq<char> {
    seq!['['] + (if s.area@.len() > 0 {
        s.area@ + seq![' ']
    } else {
        Seq::<char>::empty()
    }) + kind_text(s.kind) + index_suffix(s.index as nat) + seq![']']
}

/// An entry line `key=value`.
pub open spec fn field_line(p: (Seq<char>, Seq<char>)) -> Seq<char> {
    p.0 + seq!['='] + p.1
}

/// The entry lines of a section.
pub open spec fn field_lines(fs: Seq<(Seq<char>, Seq<char>)>) -> Seq<Seq<char>> {
    fs.map_values(|p: (Seq<char>, Seq<char>)| field_line(p))
}

/// The lines of a section: its header, then its entries.
pub open spec fn section_lines(s: Section) -> Seq<Seq<char>> {
    seq![header_text(s)] + field_lines(fields_view(s.fields@))
}

/// The lines of a file: its sections, an empty line between two of them.
pub open spec fn file_lines(ss: Seq<Section>) -> Seq<Seq<char>>
    decreases ss.len(),
{
    if ss.len() == 0 {
        Seq::empty()
    } else {
        let pre = file_lines(ss.drop_last());
        (if ss.len() > 1 {
            pre.push(Seq::<char>::empty())
        } else {
            pre
        }) + section_lines(ss.last())
    }
}

/// The text of a file: its lines, each ended by a newline.
pub open spec fn file_text(ss: Seq<Section>) -> Seq<char> {
    join_lines(file_lines(ss))
}

// ---------------------------------------------------------------- lookups

/// Position of the first entry whose key equals `key` up to ASCII letter case.
pub open spec fn key_index(fs: Seq<(Seq<char>, Seq<char>)>, key: Seq<char>) -> Option<int>
    decreases fs.len(),
{
    if fs.len() == 0 {
        None
    } else if ascii_lower(fs[0].0) == ascii_lower(key) {
        Some(0)
    } else {
        match key_index(fs.drop_first(), key) {
            Some(i) => Some(i + 1),
            None => None,
        }
    }
}

/// Position of the first section of kind `kv`.
pub open spec fn kind_index(ss: Seq<Section>, kv: (nat, Seq<char>)) -> Option<int>
    decreases ss.len(),
{
    if ss.len() == 0 {
        None
    } else if kind_view(ss[0].kind) == kv {
        Some(0)
    } else {
        match kind_index(ss.drop_first(), kv) {
            Some(i) => Some(i + 1),
            None => None,
        }
    }
}

/// The sections of kind `kv`, in order.
pub open spec fn sections_with(ss: Seq<Section>, kv: (nat, Seq<char>)) -> Seq<Section>
    decreases ss.len(),
{
    if ss.len() == 0 {
        Seq::empty()
    } else if kind_view(ss.last().kind) == kv {
        sections_with(ss.drop_last(), kv).push(ss.last())
    } else {
        sections_with(ss.drop_last(), kv)
    }
}

} // verus!

verus! {

/// `_#` stands at position `j` of `s`.
pub open spec fn marker_at(s: Seq<char>, j: int) -> bool {
    0 <= j && j + 1 < s.len() && s[j] == '_' && s[j + 1] == '#'
}

/// What `first_marker` gives: the first `_#`, or `None` when there is none.
pub proof fn lemma_first_marker(s: Seq<char>)
    ensures
        match first_marker(s) {
            Some(i) => marker_at(s, i) && forall|j: int| 0 <= j < i ==> !#[trigger] marker_at(s, j),
            None => forall|j: int| !#[trigger] marker_at(s, j),
        },
    decreases s.len(),
{
    if s.len() >= 2 && !(s[0] == '_' && s[1] == '#') {
        let d = s.drop_first();
        lemma_first_marker(d);
        assert forall|j: int| j >= 1 implies #[trigger] marker_at(s, j) == marker_at(d, j - 1) by {}
    }
}

fn find_marker(s: &[char]) -> (r: Option<usize>)
    ensures
        r matches Some(i) ==> first_marker(s@) == Some(i as int),
        r is None ==> first_marker(s@) is None,
{
    proof {
        lemma_first_marker(s@);
    }
    let n = s.len();
    if n < 2 {
        return None;
    }
    let mut k: usize = 0;
    while k + 1 < n
        invariant
            n == s@.len(),
            n >= 2,
            k + 1 <= n,
            forall|j: int| 0 <= j < k ==> !#[trigger] marker_at(s@, j),
        decreases n - k,
    {
        if s[k] == '_' && s[k + 1] == '#' {
            proof {
                lemma_first_marker(s@);
                match first_marker(s@) {
                    Some(i) => {
                        if i < k {
                            assert(!marker_at(s@, i));
                        }
                        if i > k {
                            assert(!marker_at(s@, k as int));
                        }
                    },
                    None => {
                        assert(!marker_at(s@, k as int));
                    },
                }
            }
            return Some(k);
        }
        k = k + 1;
    }
    proof {
        lemma_first_marker(s@);
        match first_marker(s@) {
            Some(i) => {
                assert(!marker_at(s@, i));
            },
            None => {},
        }
    }
    None
}

fn uint_or_zero_chars(s: &[char]) -> (r: usize)
    ensures
        r as nat == uint_or_zero(s@, usize::MAX as nat),
{
    match parse_uint_chars(s, usize::MAX as u64) {
        Some(v) => v as usize,
        None => 0,
    }
}

/// Area, kind and number of a header line (see `header_parts`).
fn parse_header(t: &[char]) -> (r: (Vec<char>, SectionKind, usize))
    requires
        is_header(t@),
    ensures
        (r.0@, kind_view(r.1), r.2 as nat) == header_parts(t@),
{
    let n = t.len();
    let mid = slice_chars(t, 1, n - 1);
    let inner = trim_chars(mid.as_slice());
    let is = inner.as_slice();
    let (area, rest) = match find_char(is, ' ') {
        Some(p) => {
            proof {
                lemma_first_index_of(inner@, ' ');
            }
            let a = slice_chars(is, 0, p);
            let m = is.len();
            assert(p < m);
            let after = slice_chars(is, p + 1, m);
            assert(a@ =~= inner@.take(p as int));
            assert(after@ =~= inner@.skip(p as int + 1));
            (a, trim_chars(after.as_slice()))
        },
        None => {
            let all = slice_chars(is, 0, is.len());
            assert(all@ =~= inner@);
            (Vec::new(), all)
        },
    };
    let rs = rest.as_slice();
    let (base, idx) = match find_marker(rs) {
        Some(q) => {
            proof {
                lemma_first_marker(rest@);
            }
            let b = slice_chars(rs, 0, q);
            let num = slice_chars(rs, q + 2, rs.len());
            assert(b@ =~= rest@.take(q as int));
            assert(num@ =~= rest@.skip(q as int + 2));
            (trim_chars(b.as_slice()), uint_or_zero_chars(num.as_slice()))
        },
        None => {
            let all = slice_chars(rs, 0, rs.len());
            assert(all@ =~= rest@);
            (all, 0)
        },
    };
    let kind = kind_of_name(base.as_slice());
    (area, kind, idx)
}

/// Key and value of a body line (see `field_of_line`).
fn parse_field(t: &[char]) -> (r: (Vec<char>, Vec<char>))
    ensures
        (r.0@, r.1@) == field_of_line(t@),
{
    match find_char(t, '=') {
        Some(p) => {
            proof {
                lemma_first_index_of(t@, '=');
            }
            let k = slice_chars(t, 0, p);
            let m = t.len();
            assert(p < m);
            let v = slice_chars(t, p + 1, m);
            assert(k@ =~= t@.take(p as int));
            assert(v@ =~= t@.skip(p as int + 1));
            (trim_chars(k.as_slice()), trim_chars(v.as_slice()))
        },
        None => (slice_chars(t, 0, t.len()), Vec::new()),
    }
}

} // verus!

verus! {

fn is_header_chars(t: &[char]) -> (r: bool)
    ensures
        r == is_header(t@),
{
    let n = t.len();
    n >= 2 && t[0] == '[' && t[n - 1] == ']'
}

fn make_section(
    area: &Vec<char>,
    kind: SectionKind,
    index: usize,
    fields: Vec<(String, String)>,
    raw: &Vec<char>,
) -> (r: Section)
    ensures
        sec_state(r) == (area@, kind_view(kind), index as nat, fields_view(fields@), raw@),
{
    Section {
        area: chars_to_string(area.as_slice()),
        kind,
        index,
        fields,
        raw: chars_to_string(raw.as_slice()),
    }
}

/// Appends the lines of a section, each ended by a newline.
fn push_section_lines(out: &mut Vec<char>, s: &Section)
    ensures
        final(out)@ == old(out)@ + join_lines(section_lines(*s)),
{
    let ghost base = out@;
    out.push('[');
    let ac = str_chars(s.area.as_str());
    if ac.len() > 0 {
        push_all(out, ac.as_slice());
        out.push(' ');
    }
    let kc = kind_chars(&s.kind);
    push_all(out, kc.as_slice());
    if s.index > 0 {
        out.push('_');
        out.push('#');
        push_dec(out, s.index as u64);
    }
    out.push(']');
    assert(out@ =~= base + header_text(*s));
    out.push('\n');
    let ghost fl = field_lines(fields_view(s.fields@));
    assert(join_lines(seq![header_text(*s)]) =~= header_text(*s).push('\n')) by {
        let one = seq![header_text(*s)];
        assert(one.drop_last() =~= Seq::<Seq<char>>::empty());
        assert(join_lines(one.drop_last()) == Seq::<char>::empty());
        assert(one.last() == header_text(*s));
    }
    let ghost head = out@;
    assert(head == base + join_lines(seq![header_text(*s)]));
    let mut i: usize = 0;
    while i < s.fields.len()
        invariant
            i <= s.fields@.len(),
            fl == field_lines(fields_view(s.fields@)),
            out@ == head + join_lines(fl.take(i as int)),
        decreases s.fields.len() - i,
    {
        let ghost before = out@;
        let kk = str_chars(s.fields[i].0.as_str());
        let vv = str_chars(s.fields[i].1.as_str());
        push_all(out, kk.as_slice());
        out.push('=');
        push_all(out, vv.as_slice());
        out.push('\n');
        proof {
            assert(fl[i as int] == field_line((s.fields@[i as int].0@, s.fields@[i as int].1@)));
            assert(fl.take(i as int + 1).drop_last() =~= fl.take(i as int));
            assert(out@ =~= before + fl[i as int] + seq!['\n']);
        }
        i = i + 1;
    }
    proof {
        assert(fl.take(i as int) =~= fl);
        lemma_join_lines_concat(seq![header_text(*s)], fl);
        assert(out@ =~= base + join_lines(section_lines(*s)));
    }
}

impl Section {
    /// The text of the section: header line, then one `key=value` line per entry, joined
    /// by newlines.
    pub fn to_text(&self) -> (r: String)
        ensures
            r@ == join_lines(section_lines(*self)).drop_last(),
    {
        let mut out: Vec<char> = Vec::new();
        push_section_lines(&mut out, self);
        assert(out@.len() > 0) by {
            let ls = section_lines(*self);
            assert(ls.len() > 0);
            assert(join_lines(ls) == join_lines(ls.drop_last()) + ls.last() + seq!['\n']);
        }
        out.pop();
        chars_to_string(out.as_slice())
    }

    /// The value of the first entry whose key equals `key` up to ASCII letter case.
    pub fn get(&self, key: &str) -> (r: Option<&str>)
        ensures
            match r {
                Some(v) => key_index(fields_view(self.fields@), key@) matches Some(i) && v@
                    == self.fields@[i].1@,
                None => key_index(fields_view(self.fields@), key@) is None,
            },
    {
        let kc = str_chars(key);
        let kl = ascii_lower_chars(kc.as_slice());
        let ghost fv = fields_view(self.fields@);
        assert(fv.skip(0) =~= fv);
        let mut i: usize = 0;
        while i < self.fields.len()
            invariant
                i <= self.fields@.len(),
                fv == fields_view(self.fields@),
                kl@ == ascii_lower(key@),
                key_index(fv, key@) == shifted(key_index(fv.skip(i as int), key@), i as int),
            decreases self.fields.len() - i,
        {
            let fc = str_chars(self.fields[i].0.as_str());
            let fl = ascii_lower_chars(fc.as_slice());
            let ghost rest = fv.skip(i as int);
            assert(rest[0] == fv[i as int]);
            if chars_eq_str_chars(fl.as_slice(), kl.as_slice()) {
                return Some(self.fields[i].1.as_str());
            }
            assert(rest.drop_first() =~= fv.skip(i as int + 1));
            i = i + 1;
        }
        assert(fv.skip(i as int).len() == 0);
        None
    }
}

/// A position moved on by `d`.
pub open spec fn shifted(o: Option<int>, d: int) -> Option<int> {
    match o {
        Some(j) => Some(j + d),
        None => None,
    }
}

/// Whether two character runs are equal.
fn chars_eq_str_chars(a: &[char], b: &[char]) -> (r: bool)
    ensures
        r == (a@ == b@),
{
    if a.len() != b.len() {
        return false;
    }
    let mut k: usize = 0;
    while k < a.len()
        invariant
            k <= a@.len(),
            a@.len() == b@.len(),
            forall|j: int| 0 <= j < k ==> a@[j] == b@[j],
        decreases a.len() - k,
    {
        if a[k] != b[k] {
            return false;
        }
        k = k + 1;
    }
    assert(a@ =~= b@);
    true
}

} // verus!

verus! {

impl InfFile {
    /// Reads an information file from its text (see `parse_text`).
    pub fn from_str(text: &str) -> (r: InfFile)
        ensures
            states(r.sections@) == parse_text(text@),
    {
        let cs = str_chars(text);
        let ls = lines_of(cs.as_slice());
        let mut done: Vec<Section> = Vec::new();
        let mut have: bool = false;
        let mut area: Vec<char> = Vec::new();
        let mut kind: SectionKind = SectionKind::FileDescription;
        let mut index: usize = 0;
        let mut fields: Vec<(String, String)> = Vec::new();
        let mut raw: Vec<char> = Vec::new();
        let mut k: usize = 0;
        assert(views(ls@).take(0) =~= Seq::<Seq<char>>::empty());
        assert(states(done@) =~= Seq::<SectionState>::empty());
        while k < ls.len()
            invariant
                k <= ls@.len(),
                views(ls@) == lines(text@),
                !have ==> done@.len() == 0,
                (if have {
                    states(done@).push(
                        (area@, kind_view(kind), index as nat, fields_view(fields@), raw@),
                    )
                } else {
                    states(done@)
                }) == parse_from(Seq::empty(), views(ls@).take(k as int)),
            decreases ls.len() - k,
        {
            let ghost prev = parse_from(Seq::empty(), views(ls@).take(k as int));
            let ghost l = views(ls@)[k as int];
            assert(views(ls@).take(k as int + 1).drop_last() =~= views(ls@).take(k as int));
            assert(views(ls@).take(k as int + 1).last() == l);
            assert(ls@[k as int]@ == l);
            let t = trim_chars(ls[k].as_slice());
            if is_header_chars(t.as_slice()) {
                let (a, kd, ix) = parse_header(t.as_slice());
                if have {
                    let ghost old_done = states(done@);
                    let sec = make_section(&area, kind, index, fields, &raw);
                    done.push(sec);
                    assert(states(done@) =~= old_done.push(sec_state(sec)));
                }
                area = a;
                kind = kd;
                index = ix;
                fields = Vec::new();
                raw = Vec::new();
                have = true;
                assert(fields_view(fields@) =~= Seq::<(Seq<char>, Seq<char>)>::empty());
                assert(states(done@).push(
                    (area@, kind_view(kind), index as nat, fields_view(fields@), raw@),
                ) =~= step(prev, l));
            } else if have && t.len() > 0 {
                let (key, val) = parse_field(t.as_slice());
                let ghost old_fields = fields_view(fields@);
                let ghost old_raw = raw@;
                fields.push((chars_to_string(key.as_slice()), chars_to_string(val.as_slice())));
                push_all(&mut raw, t.as_slice());
                raw.push('\n');
                assert(fields_view(fields@) =~= old_fields.push(field_of_line(t@)));
                assert(raw@ =~= old_raw + t@ + seq!['\n']);
                assert(states(done@).push(
                    (area@, kind_view(kind), index as nat, fields_view(fields@), raw@),
                ) =~= step(prev, l));
            } else {
                assert(step(prev, l) == prev);
            }
            k = k + 1;
        }
        assert(views(ls@).take(k as int) =~= views(ls@));
        if have {
            let ghost old_done = states(done@);
            let sec = make_section(&area, kind, index, fields, &raw);
            done.push(sec);
            assert(states(done@) =~= old_done.push(sec_state(sec)));
        }
        InfFile { sections: done }
    }

    /// The text of the file: each section's lines, an empty line between sections, every
    /// line ended by a newline (see `file_text`).
    pub fn to_string(&self) -> (r: String)
        ensures
            r@ == file_text(self.sections@),
    {
        let mut out: Vec<char> = Vec::new();
        let mut i: usize = 0;
        let ghost ss = self.sections@;
        assert(ss.take(0) =~= Seq::<Section>::empty());
        while i < self.sections.len()
            invariant
                i <= ss.len(),
                ss == self.sections@,
                out@ == join_lines(file_lines(ss.take(i as int))),
            decreases self.sections.len() - i,
        {
            let ghost pre = file_lines(ss.take(i as int));
            let ghost before = out@;
            assert(ss.take(i as int + 1).drop_last() =~= ss.take(i as int));
            assert(ss.take(i as int + 1).last() == ss[i as int]);
            if i > 0 {
                out.push('\n');
                proof {
                    let e = Seq::<char>::empty();
                    assert(pre.push(e).drop_last() =~= pre);
                    assert(join_lines(pre.push(e)) =~= before + seq!['\n']);
                }
            }
            push_section_lines(&mut out, &self.sections[i]);
            proof {
                let lead = if i > 0 {
                    pre.push(Seq::<char>::empty())
                } else {
                    pre
                };
                lemma_join_lines_concat(lead, section_lines(ss[i as int]));
                assert(file_lines(ss.take(i as int + 1)) == lead + section_lines(ss[i as int]));
            }
            i = i + 1;
        }
        assert(ss.take(i as int) =~= ss);
        chars_to_string(out.as_slice())
    }

    /// The first `File_Description` section, if any.
    pub fn file_description(&self) -> (r: Option<&Section>)
        ensures
            match r {
                Some(s) => kind_index(self.sections@, (0, Seq::<char>::empty())) matches Some(i)
                    && *s == self.sections@[i],
                None => kind_index(self.sections@, (0, Seq::<char>::empty())) is None,
            },
    {
        let ghost ss = self.sections@;
        let ghost kv = (0nat, Seq::<char>::empty());
        assert(ss.skip(0) =~= ss);
        let mut i: usize = 0;
        while i < self.sections.len()
            invariant
                i <= ss.len(),
                ss == self.sections@,
                kv == (0nat, Seq::<char>::empty()),
                kind_index(ss, kv) == shifted(kind_index(ss.skip(i as int), kv), i as int),
            decreases self.sections.len() - i,
        {
            let ghost rest = ss.skip(i as int);
            assert(rest[0] == ss[i as int]);
            assert(rest.drop_first() =~= ss.skip(i as int + 1));
            assert(kind_index(rest, kv) == if kind_view(rest[0].kind) == kv {
                Some(0)
            } else {
                shifted(kind_index(rest.drop_first(), kv), 1)
            });
            let is_fd = same_kind(&self.sections[i].kind, &SectionKind::FileDescription);
            if is_fd {
                return Some(&self.sections[i]);
            }
            i = i + 1;
        }
        assert(ss.skip(i as int).len() == 0);
        None
    }

    /// The sections of one kind, in file order.
    pub fn sections_of(&self, kind: &SectionKind) -> (r: Vec<&Section>)
        ensures
            r@.map_values(|s: &Section| *s) == sections_with(self.sections@, kind_view(*kind)),
    {
        let ghost ss = self.sections@;
        let mut out: Vec<&Section> = Vec::new();
        let mut i: usize = 0;
        assert(out@.map_values(|s: &Section| *s) =~= sections_with(ss.take(0), kind_view(*kind)));
        while i < self.sections.len()
            invariant
                i <= ss.len(),
                ss == self.sections@,
                out@.map_values(|s: &Section| *s) == sections_with(ss.take(i as int), kind_view(*kind)),
            decreases self.sections.len() - i,
        {
            assert(ss.take(i as int + 1).drop_last() =~= ss.take(i as int));
            assert(ss.take(i as int + 1).last() == ss[i as int]);
            let ghost before = out@.map_values(|s: &Section| *s);
            if same_kind(&self.sections[i].kind, kind) {
                out.push(&self.sections[i]);
                assert(out@.map_values(|s: &Section| *s) =~= before.push(ss[i as int]));
            }
            i = i + 1;
        }
        assert(ss.take(i as int) =~= ss);
        out
    }
}

} // verus!


verus! {

// ---------------------------------------------------------------- the round trip

/// An area that is written and read back unchanged: trimmed, without spaces or newlines.
pub open spec fn area_ok(a: Seq<char>) -> bool {
    trim(a) == a && !a.contains(' ') && !a.contains('\n')
}

/// A section name that is written and read back unchanged: non-empty, trimmed, without
/// spaces, newlines or `#`.
pub open spec fn name_ok(n: Seq<char>) -> bool {
    n.len() > 0 && trim(n) == n && !n.contains(' ') && !n.contains('\n') && !n.contains('#')
}

/// A kind that is written and read back unchanged; any known kind is, another one when its
/// name is a plain name and not a known one in another letter case.
pub open spec fn kind_ok(k: SectionKind) -> bool {
    match k {
        SectionKind::Other(n) => name_ok(n@) && known_tag(ascii_upper(n@)) is None,
        _ => true,
    }
}

/// An entry that is written as `key=value` and read back unchanged: key and value trimmed
/// and without newlines, no `=` in the key, and the key not starting with `[`.
pub open spec fn entry_ok(p: (Seq<char>, Seq<char>)) -> bool {
    &&& !p.0.contains('=')
    &&& !p.0.contains('\n')
    &&& trim(p.0) == p.0
    &&& (p.0.len() == 0 || p.0[0] != '[')
    &&& !p.1.contains('\n')
    &&& trim(p.1) == p.1
}

/// A section that is written and read back unchanged.
pub open spec fn section_ok(s: Section) -> bool {
    &&& area_ok(s.area@)
    &&& kind_ok(s.kind)
    &&& forall|i: int| 0 <= i < s.fields@.len() ==> #[trigger] entry_ok(fields_view(s.fields@)[i])
}

/// What reading back a written section gives: its values, with the entry lines as its
/// body lines.
pub open spec fn written_state(s: Section) -> SectionState {
    (
        s.area@,
        kind_view(s.kind),
        s.index as nat,
        fields_view(s.fields@),
        join_lines(field_lines(fields_view(s.fields@))),
    )
}

proof fn lemma_parse_from_concat(st: Seq<SectionState>, a: Seq<Seq<char>>, b: Seq<Seq<char>>)
    ensures
        parse_from(st, a + b) == parse_from(parse_from(st, a), b),
    decreases b.len(),
{
    if b.len() == 0 {
        assert(a + b =~= a);
    } else {
        lemma_parse_from_concat(st, a, b.drop_last());
        assert((a + b).drop_last() =~= a + b.drop_last());
        assert((a + b).last() == b.last());
    }
}

proof fn lemma_first_index_of_after(a: Seq<char>, c: char, b: Seq<char>)
    requires
        !a.contains(c),
    ensures
        first_index_of(a + seq![c] + b, c) == Some(a.len() as int),
{
    let s = a + seq![c] + b;
    lemma_first_index_of(s, c);
    assert(s[a.len() as int] == c);
    match first_index_of(s, c) {
        Some(i) => {
            if i < a.len() {
                assert(s[i] == a[i]);
                assert(a.contains(c));
            }
        },
        None => {
            assert(s.contains(c));
        },
    }
}

proof fn lemma_first_index_of_absent(s: Seq<char>, c: char)
    requires
        !s.contains(c),
    ensures
        first_index_of(s, c) is None,
{
    lemma_first_index_of(s, c);
    match first_index_of(s, c) {
        Some(i) => {
            assert(s.contains(c));
        },
        None => {},
    }
}

proof fn lemma_no_marker(s: Seq<char>)
    requires
        !s.contains('#'),
    ensures
        first_marker(s) is None,
{
    lemma_first_marker(s);
    match first_marker(s) {
        Some(i) => {
            assert(s[i + 1] == '#');
            assert(s.contains('#'));
        },
        None => {},
    }
}

/// The first `_#` of `name + "_#" + digits`, for a name without `#`.
proof fn lemma_marker_after_name(n: Seq<char>, d: Seq<char>)
    requires
        !n.contains('#'),
    ensures
        first_marker(n + seq!['_', '#'] + d) == Some(n.len() as int),
{
    let s = n + seq!['_', '#'] + d;
    lemma_first_marker(s);
    assert(marker_at(s, n.len() as int));
    match first_marker(s) {
        Some(i) => {
            if i < n.len() {
                assert(marker_at(s, i));
                if i + 1 < n.len() {
                    assert(s[i + 1] == n[i + 1]);
                    assert(n.contains('#'));
                } else {
                    assert(s[i + 1] == '_');
                }
            }
            if i > n.len() {
                assert(!marker_at(s, n.len() as int));
            }
        },
        None => {
            assert(!marker_at(s, n.len() as int));
        },
    }
}

/// Facts about the names of the known kinds.
proof fn lemma_known_name_ok(t: nat)
    requires
        t < 10,
    ensures
        name_ok(known_name(t)),
{
    let s = known_name(t);
    assert(forall|i: int| 0 <= i < s.len() ==> s[i] != '#' && s[i] != ' ' && s[i] != '\n');
    assert(!s.contains('#'));
    assert(!s.contains(' '));
    assert(!s.contains('\n'));
    assert(s.len() > 0);
    assert(!is_ws(s[0]) && !is_ws(s.last()));
    lemma_trim_noop(s);
}

proof fn lemma_dec_index_plain(v: nat)
    ensures
        !dec(v).contains(' '),
        !dec(v).contains('\n'),
        !dec(v).contains('#'),
        !is_ws(dec(v).last()),
{
    lemma_dec_plain(v, ' ');
    lemma_dec_plain(v, '\n');
    lemma_dec_plain(v, '#');
}

/// The name part `Name_#n` of a written header reads back as the name and the number.
proof fn lemma_name_part(k: Seq<char>, i: nat)
    requires
        name_ok(k),
        i <= usize::MAX,
    ensures
        ({
            let rest = k + index_suffix(i);
            &&& rest.len() > 0
            &&& trim(rest) == rest
            &&& !is_ws(rest[0])
            &&& !is_ws(rest.last())
            &&& !rest.contains(' ')
            &&& !rest.contains('\n')
            &&& (match first_marker(rest) {
                Some(q) => trim(rest.take(q)),
                None => rest,
            }) == k
            &&& (match first_marker(rest) {
                Some(q) => uint_or_zero(rest.skip(q + 2), usize::MAX as nat),
                None => 0,
            }) == i
        }),
{
    let rest = k + index_suffix(i);
    lemma_trimmed_ends(k);
    assert(rest[0] == k[0]);
    if i > 0 {
        let d = dec(i);
        lemma_dec_index_plain(i);
        lemma_dec_digits(i);
        assert(rest =~= k + seq!['_', '#'] + d);
        assert(rest.last() == d.last());
        lemma_marker_after_name(k, d);
        assert(rest.take(k.len() as int) =~= k);
        assert(rest.skip(k.len() as int + 2) =~= d);
        lemma_parse_uint_dec(i, usize::MAX as nat);
        assert(!rest.contains(' ')) by {
            if rest.contains(' ') {
                let j = choose|j: int| 0 <= j < rest.len() && rest[j] == ' ';
                if j < k.len() {
                    assert(k[j] == ' ');
                    assert(k.contains(' '));
                } else if j >= k.len() + 2 {
                    assert(d[j - k.len() - 2] == ' ');
                    assert(d.contains(' '));
                }
            }
        }
        assert(!rest.contains('\n')) by {
            if rest.contains('\n') {
                let j = choose|j: int| 0 <= j < rest.len() && rest[j] == '\n';
                if j < k.len() {
                    assert(k[j] == '\n');
                    assert(k.contains('\n'));
                } else if j >= k.len() + 2 {
                    assert(d[j - k.len() - 2] == '\n');
                    assert(d.contains('\n'));
                }
            }
        }
    } else {
        assert(rest =~= k);
        lemma_no_marker(k);
    }
    lemma_trim_noop(rest);
}

/// The inside of a written header splits back into the area and the name part.
proof fn lemma_inner_part(a: Seq<char>, rest: Seq<char>)
    requires
        area_ok(a),
        rest.len() > 0,
        !is_ws(rest[0]),
        !is_ws(rest.last()),
        !rest.contains(' '),
        trim(rest) == rest,
    ensures
        ({
            let inner = (if a.len() > 0 {
                a + seq![' ']
            } else {
                Seq::<char>::empty()
            }) + rest;
            &&& trim(inner) == inner
            &&& (match first_index_of(inner, ' ') {
                Some(p) => inner.take(p),
                None => Seq::<char>::empty(),
            }) == a
            &&& (match first_index_of(inner, ' ') {
                Some(p) => trim(inner.skip(p + 1)),
                None => inner,
            }) == rest
        }),
{
    if a.len() > 0 {
        let inner = a + seq![' '] + rest;
        lemma_trimmed_ends(a);
        assert(inner[0] == a[0]);
        assert(inner.last() == rest.last());
        lemma_trim_noop(inner);
        lemma_first_index_of_after(a, ' ', rest);
        assert(inner.take(a.len() as int) =~= a);
        assert(inner.skip(a.len() as int + 1) =~= rest);
    } else {
        let inner = Seq::<char>::empty() + rest;
        assert(inner =~= rest);
        lemma_first_index_of_absent(rest, ' ');
        assert(a =~= Seq::<char>::empty());
    }
}

/// A written header is read back as the section's area, kind and number.
proof fn lemma_header_round_trip(s: Section)
    requires
        section_ok(s),
    ensures
        is_header(header_text(s)),
        trim(header_text(s)) == header_text(s),
        header_parts(header_text(s)) == (s.area@, kind_view(s.kind), s.index as nat),
        clean_line(header_text(s)),
{
    let h = header_text(s);
    let a = s.area@;
    let k = kind_text(s.kind);
    match s.kind {
        SectionKind::Other(n) => {},
        _ => {
            lemma_known_name_ok(kind_view(s.kind).0);
        },
    }
    lemma_name_part(k, s.index as nat);
    let rest = k + index_suffix(s.index as nat);
    lemma_inner_part(a, rest);
    let ap = if a.len() > 0 {
        a + seq![' ']
    } else {
        Seq::<char>::empty()
    };
    let inner = ap + rest;
    assert(h =~= seq!['['] + inner + seq![']']);
    assert(h.subrange(1, h.len() - 1) =~= inner);
    assert(h.last() == ']');
    lemma_trim_noop(h);
    lemma_kind_name_round_trip(s.kind);
    assert(!h.contains('\n')) by {
        if h.contains('\n') {
            let i = choose|i: int| 0 <= i < h.len() && h[i] == '\n';
            assert(inner[i - 1] == '\n');
            if a.len() > 0 && i - 1 < a.len() {
                assert(a[i - 1] == '\n');
                assert(a.contains('\n'));
            } else {
                assert(rest[i - 1 - ap.len()] == '\n');
                assert(rest.contains('\n'));
            }
        }
    }
}

} // verus!

verus! {

/// A written entry line is read back as the entry.
proof fn lemma_entry_round_trip(p: (Seq<char>, Seq<char>))
    requires
        entry_ok(p),
    ensures
        trim(field_line(p)) == field_line(p),
        !is_header(field_line(p)),
        field_line(p).len() > 0,
        field_of_line(field_line(p)) == p,
        clean_line(field_line(p)),
{
    let l = field_line(p);
    let k = p.0;
    let v = p.1;
    assert(l =~= k + seq!['='] + v);
    if k.len() > 0 {
        lemma_trimmed_ends(k);
        assert(l[0] == k[0]);
    } else {
        assert(l[0] == '=');
    }
    if v.len() > 0 {
        lemma_trimmed_ends(v);
        assert(l.last() == v.last());
    } else {
        assert(l.last() == '=');
    }
    lemma_trim_noop(l);
    lemma_first_index_of_after(k, '=', v);
    assert(l.take(k.len() as int) =~= k);
    assert(l.skip(k.len() as int + 1) =~= v);
    assert(!l.contains('\n')) by {
        if l.contains('\n') {
            let i = choose|i: int| 0 <= i < l.len() && l[i] == '\n';
            if i < k.len() {
                assert(k[i] == '\n');
                assert(k.contains('\n'));
            } else if i > k.len() {
                assert(v[i - k.len() - 1] == '\n');
                assert(v.contains('\n'));
            }
        }
    }
}

/// Reading written entry lines into an open section adds the entries to it.
proof fn lemma_parse_entries(st: Seq<SectionState>, fs: Seq<(Seq<char>, Seq<char>)>)
    requires
        st.len() > 0,
        forall|i: int| 0 <= i < fs.len() ==> #[trigger] entry_ok(fs[i]),
    ensures
        parse_from(st, field_lines(fs)) == st.update(
            st.len() - 1,
            (st.last().0, st.last().1, st.last().2, st.last().3 + fs, st.last().4 + join_lines(
                field_lines(fs),
            )),
        ),
    decreases fs.len(),
{
    let c = st.last();
    if fs.len() == 0 {
        assert(field_lines(fs) =~= Seq::<Seq<char>>::empty());
        assert(c.3 + fs =~= c.3);
        assert(c.4 + join_lines(field_lines(fs)) =~= c.4);
        assert(st.update(st.len() - 1, (c.0, c.1, c.2, c.3 + fs, c.4 + join_lines(field_lines(fs))))
            =~= st);
    } else {
        let pre = fs.drop_last();
        assert forall|i: int| 0 <= i < pre.len() implies #[trigger] entry_ok(pre[i]) by {
            assert(entry_ok(fs[i]));
        }
        lemma_parse_entries(st, pre);
        assert(field_lines(fs).drop_last() =~= field_lines(pre));
        assert(field_lines(fs).last() == field_line(fs.last()));
        assert(entry_ok(fs[fs.len() - 1]));
        lemma_entry_round_trip(fs.last());
        let mid = parse_from(st, field_lines(pre));
        assert(mid.len() == st.len());
        assert(mid.last() == (c.0, c.1, c.2, c.3 + pre, c.4 + join_lines(field_lines(pre))));
        assert(c.3 + pre.push(fs.last()) =~= c.3 + fs) by {
            assert(pre.push(fs.last()) =~= fs);
        }
        assert(c.4 + join_lines(field_lines(pre)) + field_line(fs.last()) + seq!['\n'] =~= c.4
            + join_lines(field_lines(fs)));
        assert(parse_from(st, field_lines(fs)) =~= st.update(
            st.len() - 1,
            (c.0, c.1, c.2, c.3 + fs, c.4 + join_lines(field_lines(fs))),
        ));
    }
}

/// Reading the written lines of a section adds the section.
proof fn lemma_parse_section(st: Seq<SectionState>, s: Section)
    requires
        section_ok(s),
    ensures
        parse_from(st, section_lines(s)) == st.push(written_state(s)),
{
    let h = header_text(s);
    let fs = fields_view(s.fields@);
    lemma_header_round_trip(s);
    lemma_parse_from_concat(st, seq![h], field_lines(fs));
    assert(seq![h].drop_last() =~= Seq::<Seq<char>>::empty());
    assert(parse_from(st, Seq::<Seq<char>>::empty()) == st);
    assert(seq![h].last() == h);
    assert(parse_from(st, seq![h]) == step(st, h));
    let st1 = st.push((s.area@, kind_view(s.kind), s.index as nat, Seq::empty(), Seq::empty()));
    assert(step(st, h) == st1);
    assert forall|i: int| 0 <= i < fs.len() implies #[trigger] entry_ok(fs[i]) by {
        assert(entry_ok(fields_view(s.fields@)[i]));
    }
    lemma_parse_entries(st1, fs);
    assert(Seq::<(Seq<char>, Seq<char>)>::empty() + fs =~= fs);
    assert(Seq::<char>::empty() + join_lines(field_lines(fs)) =~= join_lines(field_lines(fs)));
    assert(st1.update(st1.len() - 1, written_state(s)) =~= st.push(written_state(s)));
}

/// Every line of a well-formed file is read back by `lines` unchanged.
proof fn lemma_file_lines_clean(ss: Seq<Section>)
    requires
        forall|i: int| 0 <= i < ss.len() ==> #[trigger] section_ok(ss[i]),
    ensures
        forall|i: int| 0 <= i < file_lines(ss).len() ==> clean_line(#[trigger] file_lines(ss)[i]),
    decreases ss.len(),
{
    if ss.len() > 0 {
        let pre = ss.drop_last();
        assert forall|i: int| 0 <= i < pre.len() implies #[trigger] section_ok(pre[i]) by {
            assert(section_ok(ss[i]));
        }
        lemma_file_lines_clean(pre);
        let s = ss.last();
        assert(section_ok(ss[ss.len() - 1]));
        lemma_header_round_trip(s);
        let fs = fields_view(s.fields@);
        let lead = if ss.len() > 1 {
            file_lines(pre).push(Seq::<char>::empty())
        } else {
            file_lines(pre)
        };
        let sl = section_lines(s);
        assert(file_lines(ss) == lead + sl);
        assert forall|i: int| 0 <= i < file_lines(ss).len() implies clean_line(
            #[trigger] file_lines(ss)[i],
        ) by {
            if i < lead.len() {
                if i < file_lines(pre).len() {
                    assert(lead[i] == file_lines(pre)[i]);
                } else {
                    assert(lead[i] == Seq::<char>::empty());
                }
            } else {
                let j = i - lead.len();
                assert(file_lines(ss)[i] == sl[j]);
                if j > 0 {
                    assert(sl[j] == field_line(fs[j - 1]));
                    assert(entry_ok(fields_view(s.fields@)[j - 1]));
                    lemma_entry_round_trip(fs[j - 1]);
                }
            }
        }
    }
}

/// Reading the written lines of well-formed sections gives them back.
proof fn lemma_parse_file(ss: Seq<Section>)
    requires
        forall|i: int| 0 <= i < ss.len() ==> #[trigger] section_ok(ss[i]),
    ensures
        parse_from(Seq::empty(), file_lines(ss)) == ss.map_values(|s: Section| written_state(s)),
    decreases ss.len(),
{
    if ss.len() == 0 {
        assert(ss.map_values(|s: Section| written_state(s)) =~= Seq::<SectionState>::empty());
    } else {
        let pre = ss.drop_last();
        assert forall|i: int| 0 <= i < pre.len() implies #[trigger] section_ok(pre[i]) by {
            assert(section_ok(ss[i]));
        }
        lemma_parse_file(pre);
        let st0 = parse_from(Seq::empty(), file_lines(pre));
        let lead = if ss.len() > 1 {
            file_lines(pre).push(Seq::<char>::empty())
        } else {
            file_lines(pre)
        };
        if ss.len() > 1 {
            assert(lead.drop_last() =~= file_lines(pre));
            assert(parse_from(Seq::empty(), lead) == step(st0, Seq::<char>::empty()));
            assert(trim(Seq::<char>::empty()) =~= Seq::<char>::empty());
            assert(step(st0, Seq::<char>::empty()) == st0);
        }
        assert(parse_from(Seq::empty(), lead) == st0);
        lemma_parse_from_concat(Seq::empty(), lead, section_lines(ss.last()));
        assert(section_ok(ss[ss.len() - 1]));
        lemma_parse_section(st0, ss.last());
        assert(ss.map_values(|s: Section| written_state(s)) =~= pre.map_values(
            |s: Section| written_state(s),
        ).push(written_state(ss.last())));
    }
}

/// Reading back the text of a file whose sections are well formed gives its sections:
/// the same areas, kinds, numbers and entries, in the same order; each section's body
/// lines are then its entry lines.
pub proof fn lemma_inf_round_trip(f: InfFile)
    requires
        forall|i: int| 0 <= i < f.sections@.len() ==> #[trigger] section_ok(f.sections@[i]),
    ensures
        parse_text(file_text(f.sections@)) == f.sections@.map_values(|s: Section| written_state(s)),
        parse_text(file_text(f.sections@)).map_values(|st: SectionState| content(st))
            == states(f.sections@).map_values(|st: SectionState| content(st)),
{
    let ss = f.sections@;
    lemma_file_lines_clean(ss);
    lemma_lines_join_lines(file_lines(ss));
    lemma_parse_file(ss);
    assert(parse_text(file_text(ss)).map_values(|st: SectionState| content(st)) =~= states(
        ss,
    ).map_values(|st: SectionState| content(st)));
}

/// A section read as `st` that is written and read back unchanged: the conditions of
/// `section_ok` on its values.
pub open spec fn state_ok(st: SectionState) -> bool {
    &&& area_ok(st.0)
    &&& st.1.0 == 10 ==> name_ok(st.1.1) && known_tag(ascii_upper(st.1.1)) is None
    &&& forall|i: int| 0 <= i < st.3.len() ==> #[trigger] entry_ok(st.3[i])
}

/// Reading a text (`InfFile::from_str`), writing the file read and reading the written
/// text again gives the same sections, in the same order, with the same areas, kinds (an
/// unknown section name kept with its letter case), numbers and entries, when every
/// section read is one that `state_ok` admits.
pub proof fn lemma_read_file_round_trip(text: Seq<char>, f: InfFile)
    requires
        states(f.sections@) == parse_text(text),
        forall|i: int| 0 <= i < parse_text(text).len() ==> #[trigger] state_ok(parse_text(text)[i]),
    ensures
        parse_text(file_text(f.sections@)).map_values(|st: SectionState| content(st))
            == parse_text(text).map_values(|st: SectionState| content(st)),
{
    assert forall|i: int| 0 <= i < f.sections@.len() implies #[trigger] section_ok(f.sections@[i]) by {
        let s = f.sections@[i];
        let st = parse_text(text)[i];
        assert(states(f.sections@)[i] == sec_state(s));
        assert(st == sec_state(s));
        assert(state_ok(st));
        assert(area_ok(s.area@));
        assert forall|j: int| 0 <= j < fields_view(s.fields@).len() implies #[trigger] entry_ok(
            fields_view(s.fields@)[j],
        ) by {
            assert(st.3[j] == fields_view(s.fields@)[j]);
        }
        match s.kind {
            SectionKind::Other(n) => {
                assert(kind_view(s.kind) == (10nat, n@));
            },
            _ => {},
        }
    }
    lemma_inf_round_trip(f);
}

} // verus!
