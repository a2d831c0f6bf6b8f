//! Reading status channels out of the sections of an information file.

use vstd::prelude::*;

use super::builder::{
    dir_value, field_number, field_opt, fields_number, number_list, parse_acv, parse_num_list,
    parse_transformer_ta, at_or_zero,
    build_status_section, monitored_component, opt_view, status_parameter_text, status_section_fields,
};
use super::{fields_view, key_index, kind_view, sec_state, sections_with, InfFile, Section, SectionKind};
use crate::cfg::channel::{
    data_type_of, iec61850_reference, is_iec61850_reference, uint_or_zero, version_of, DataType,
    StatusChannel, StatusExt, TranSide, Version,
};
use crate::cfg::analog::side_of;
use crate::cfg::{ChannelCount, Header};
use crate::cfg::channel::push_str;
use crate::equipment::{location_prefix, location_ta_ids, AccBran, AcvChn, WindingLocation};
use crate::time::{parse, prepared_time_text, try_formats, Timestamp};
use crate::text::{
    chars_to_string, dec, field_copy, field_or_empty, push_dec, parse_uint_chars, split, split_trimmed, str_chars, string_of,
    trim, trim_chars, trimmed_fields, upper_case, views, lemma_split_join, lemma_split_no_sep,
};

verus! {

/// The value of the first entry named `key` (letter case ignored), empty when there is none.
pub open spec fn entry(fs: Seq<(Seq<char>, Seq<char>)>, key: Seq<char>) -> Seq<char> {
    match key_index(fs, key) {
        Some(i) => fs[i].1,
        None => Seq::empty(),
    }
}

/// `c` is the status channel that section `s` describes: its number is the section's,
/// name and phase are the `Channel_ID` and `Phase_ID` entries, the trimmed
/// `Monitored_Component` entry is an object reference when it reads as an IEC 61850 one
/// and the equipment otherwise, and the normal state is the `Normal_State` entry read as
/// a number (0 when it is not one).
pub open spec fn status_section_ok(s: Section, c: StatusChannel) -> bool {
    let fs = fields_view(s.fields@);
    let mc = trim(entry(fs, "Monitored_Component"@));
    &&& c.index == s.index
    &&& c.name@ == entry(fs, "Channel_ID"@)
    &&& c.phase@ == entry(fs, "Phase_ID"@)
    &&& c.contact as nat == uint_or_zero(entry(fs, "Normal_State"@), 255)
    &&& if iec61850_reference(mc) {
        &&& c.equipment@ == Seq::<char>::empty()
        &&& c.ext matches Some(x)
        &&& x.reference matches Some(r)
        &&& r@ == mc
        &&& x.idx_org is None && x.channel_type is None && x.flag is None && x.contact is None
            && x.equipment_no is None
    } else {
        c.equipment@ == mc && c.ext is None
    }
}

proof fn lemma_key_index_bounds(fs: Seq<(Seq<char>, Seq<char>)>, key: Seq<char>)
    ensures
        key_index(fs, key) matches Some(i) ==> 0 <= i < fs.len(),
    decreases fs.len(),
{
    if fs.len() > 0 {
        lemma_key_index_bounds(fs.drop_first(), key);
    }
}

fn entry_string(s: &Section, key: &str) -> (r: String)
    ensures
        r@ == entry(fields_view(s.fields@), key@),
{
    proof {
        lemma_key_index_bounds(fields_view(s.fields@), key@);
    }
    match s.get(key) {
        Some(v) => string_of(v),
        None => String::new(),
    }
}

/// Reads the status channel of a `Status_Channel_#n` section (see `status_section_ok`).
pub fn status_channel_of_section(s: &Section) -> (r: StatusChannel)
    ensures
        status_section_ok(*s, r),
{
    let name = entry_string(s, "Channel_ID");
    let phase = entry_string(s, "Phase_ID");
    let mc_raw = entry_string(s, "Monitored_Component");
    let mc_chars = str_chars(mc_raw.as_str());
    let mc_trim = trim_chars(mc_chars.as_slice());
    let mc = chars_to_string(mc_trim.as_slice());
    let state = entry_string(s, "Normal_State");
    let state_chars = str_chars(state.as_str());
    let contact: u8 = match parse_uint_chars(state_chars.as_slice(), 255) {
        Some(v) => v as u8,
        None => 0,
    };
    if is_iec61850_reference(mc.as_str()) {
        StatusChannel {
            index: s.index,
            name,
            phase,
            equipment: String::new(),
            contact,
            ext: Some(
                StatusExt {
                    idx_org: None,
                    channel_type: None,
                    flag: None,
                    contact: None,
                    reference: Some(mc),
                    equipment_no: None,
                },
            ),
        }
    } else {
        StatusChannel { index: s.index, name, phase, equipment: mc, contact, ext: None }
    }
}

/// The status channels of an information file: one per `Status_Channel_#n` section, in
/// file order (see `status_section_ok`).
pub fn status_channels_of(inf: &InfFile) -> (r: Vec<StatusChannel>)
    ensures
        r@.len() == sections_with(inf.sections@, kind_view(SectionKind::StatusChannel)).len(),
        forall|i: int|
            0 <= i < r@.len() ==> status_section_ok(
                sections_with(inf.sections@, kind_view(SectionKind::StatusChannel))[i],
                #[trigger] r@[i],
            ),
{
    let secs = inf.sections_of(&SectionKind::StatusChannel);
    let ghost ss = sections_with(inf.sections@, kind_view(SectionKind::StatusChannel));
    assert(secs@.map_values(|s: &Section| *s) == ss);
    let mut out: Vec<StatusChannel> = Vec::new();
    let mut i: usize = 0;
    while i < secs.len()
        invariant
            i <= secs@.len(),
            secs@.map_values(|s: &Section| *s) == ss,
            out@.len() == i,
            forall|j: int| 0 <= j < i ==> status_section_ok(ss[j], #[trigger] out@[j]),
        decreases secs.len() - i,
    {
        assert(ss[i as int] == *secs@[i as int]);
        out.push(status_channel_of_section(secs[i]));
        i = i + 1;
    }
    out
}


/// A status channel whose section reads back as the same channel: either its equipment
/// has no surrounding white space, is not an object reference and it has no extra fields,
/// or it has no equipment and its only extra is a trimmed IEC 61850 reference.
pub open spec fn status_reads_back(ch: StatusChannel) -> bool {
    ||| trim(ch.equipment@) == ch.equipment@ && !iec61850_reference(ch.equipment@) && ch.ext is None
    ||| {
        &&& ch.equipment@.len() == 0
        &&& ch.ext matches Some(x)
        &&& x.reference matches Some(r)
        &&& trim(r@) == r@
        &&& iec61850_reference(r@)
        &&& x.idx_org is None && x.channel_type is None && x.flag is None && x.contact is None
            && x.equipment_no is None
    }
}

/// The section written for a status channel (`build_status_section`) is read back
/// (`status_channel_of_section`) as the same channel: number, name, phase, equipment,
/// normal state and object reference, for every channel of `status_reads_back`.
pub proof fn lemma_status_section_round_trip(ch: StatusChannel, s: Section, back: StatusChannel)
    requires
        sec_state(s) == (
            seq!['P', 'u', 'b', 'l', 'i', 'c'],
            kind_view(SectionKind::StatusChannel),
            ch.index as nat,
            status_section_fields(ch),
            Seq::<char>::empty(),
        ),
        status_section_ok(s, back),
        status_reads_back(ch),
    ensures
        back.index == ch.index,
        back.name@ == ch.name@,
        back.phase@ == ch.phase@,
        back.equipment@ == ch.equipment@,
        back.contact == ch.contact,
        back.ext is None <==> ch.ext is None,
        ch.ext matches Some(x) ==> back.ext matches Some(y) && (y.reference matches Some(b) && x.reference
            matches Some(a) && b@ == a@) && y.idx_org is None && y.channel_type is None && y.flag
            is None && y.contact is None && y.equipment_no is None,
{
    reveal_strlit("Channel_ID");
    reveal_strlit("Phase_ID");
    reveal_strlit("Monitored_Component");
    reveal_strlit("Normal_State");
    let fs = fields_view(s.fields@);
    assert(fs == status_section_fields(ch));
    let k0 = fs[0].0;
    let k1 = fs[1].0;
    let k2 = fs[2].0;
    let k3 = fs[3].0;
    assert(k0 =~= "Channel_ID"@);
    assert(k1 =~= "Phase_ID"@);
    assert(k2 =~= "Monitored_Component"@);
    assert(k3 =~= "Normal_State"@);
    assert(crate::text::ascii_lower(k0).len() == 10);
    assert(crate::text::ascii_lower(k1).len() == 8);
    assert(crate::text::ascii_lower(k2).len() == 19);
    assert(crate::text::ascii_lower(k3).len() == 12);
    assert(key_index(fs, "Channel_ID"@) == Some(0int));
    assert(key_index(fs.drop_first(), "Phase_ID"@) == Some(0int));
    assert(key_index(fs, "Phase_ID"@) == Some(1int));
    assert(fs.drop_first().drop_first()[0] == fs[2]);
    assert(key_index(fs.drop_first().drop_first(), "Monitored_Component"@) == Some(0int));
    assert(key_index(fs.drop_first(), "Monitored_Component"@) == Some(1int));
    assert(key_index(fs, "Monitored_Component"@) == Some(2int));
    assert(fs.drop_first().drop_first().drop_first()[0] == fs[3]);
    assert(key_index(fs.drop_first().drop_first().drop_first(), "Normal_State"@) == Some(0int));
    assert(key_index(fs.drop_first().drop_first(), "Normal_State"@) == Some(1int));
    assert(key_index(fs.drop_first(), "Normal_State"@) == Some(2int));
    assert(key_index(fs, "Normal_State"@) == Some(3int));
    crate::text::lemma_parse_uint_dec(ch.contact as nat, 255);
    assert(split(Seq::<char>::empty(), '$') == seq![Seq::<char>::empty()]);
    assert(!iec61850_reference(Seq::<char>::empty()));
    assert(trim(Seq::<char>::empty()) =~= Seq::<char>::empty()) by {
        crate::text::lemma_trim_noop(Seq::<char>::empty());
    }
}


/// What the `File_Description` section of an information file says of a recording,
/// besides its rates and multiplier: header, channel counts, times and data layout.
#[derive(Debug, Clone)]
pub struct InfDescription {
    /// Station, recorder and revision.
    pub header: Header,
    /// Channel counts.
    pub channels: ChannelCount,
    /// Time of the first sample.
    pub start_time: Timestamp,
    /// Trigger time.
    pub trigger_time: Timestamp,
    /// Layout of the data file.
    pub data_type: DataType,
}

/// 2000-01-01 00:00:00, the start time of a description that gives none.
pub open spec fn default_start() -> Timestamp {
    Timestamp { year: 2000, month: 1, day: 1, hour: 0, minute: 0, second: 0, micro: 0 }
}

/// The time an entry gives, when the entry is there and reads as a time.
pub open spec fn time_entry(fs: Seq<(Seq<char>, Seq<char>)>, key: Seq<char>) -> Option<Timestamp> {
    if key_index(fs, key) is Some {
        try_formats(prepared_time_text(entry(fs, key)), 0)
    } else {
        None
    }
}

/// `d` is what section `fd` describes: the `Station_Name` and `Recording_Device_ID`
/// entries; the revision of `Revision_Year` (1991 when missing or unknown); the counts of
/// `Total_Channel_Count`, `Analog_Channel_Count`, `Status_Channel_Count` (0 when not a
/// number); the start time of `File_Start_Time` (2000-01-01 when missing or unreadable);
/// the trigger time of `Trigger_Time` (the start time when missing or unreadable); the
/// layout of `File_Type` (ASCII when missing or unknown).
pub open spec fn description_ok(fd: Section, d: InfDescription) -> bool {
    let fs = fields_view(fd.fields@);
    &&& d.header.station@ == entry(fs, "Station_Name"@)
    &&& d.header.recorder@ == entry(fs, "Recording_Device_ID"@)
    &&& d.header.version == if key_index(fs, "Revision_Year"@) is Some {
        match version_of(trim(entry(fs, "Revision_Year"@))) {
            Some(v) => v,
            None => Version::V1991,
        }
    } else {
        Version::V1991
    }
    &&& d.channels.total as nat == uint_or_zero(entry(fs, "Total_Channel_Count"@), usize::MAX as nat)
    &&& d.channels.analog as nat == uint_or_zero(entry(fs, "Analog_Channel_Count"@), usize::MAX as nat)
    &&& d.channels.status as nat == uint_or_zero(entry(fs, "Status_Channel_Count"@), usize::MAX as nat)
    &&& d.start_time == match time_entry(fs, "File_Start_Time"@) {
        Some(t) => t,
        None => default_start(),
    }
    &&& d.trigger_time == match time_entry(fs, "Trigger_Time"@) {
        Some(t) => t,
        None => d.start_time,
    }
    &&& d.data_type == if key_index(fs, "File_Type"@) is Some {
        match data_type_of(upper_case(trim(entry(fs, "File_Type"@)))) {
            Some(t) => t,
            None => DataType::Ascii,
        }
    } else {
        DataType::Ascii
    }
}

fn get_entry<'a>(s: &'a Section, key: &str) -> (r: Option<&'a str>)
    ensures
        match r {
            Some(v) => key_index(fields_view(s.fields@), key@) is Some && v@ == entry(
                fields_view(s.fields@),
                key@,
            ),
            None => key_index(fields_view(s.fields@), key@) is None,
        },
{
    proof {
        lemma_key_index_bounds(fields_view(s.fields@), key@);
    }
    s.get(key)
}

fn count_entry(s: &Section, key: &str) -> (r: usize)
    ensures
        r as nat == uint_or_zero(entry(fields_view(s.fields@), key@), usize::MAX as nat),
{
    let v = entry_string(s, key);
    let cs = str_chars(v.as_str());
    match parse_uint_chars(cs.as_slice(), usize::MAX as u64) {
        Some(n) => n as usize,
        None => 0,
    }
}

fn time_of_entry(s: &Section, key: &str, fallback: Timestamp) -> (r: Timestamp)
    ensures
        r == match time_entry(fields_view(s.fields@), key@) {
            Some(t) => t,
            None => fallback,
        },
{
    match get_entry(s, key) {
        Some(t) => match parse(t) {
            Ok(ts) => ts,
            Err(_) => fallback,
        },
        None => fallback,
    }
}

/// Reads what a `File_Description` section describes (see `description_ok`).
pub fn inf_description(fd: &Section) -> (r: InfDescription)
    ensures
        description_ok(*fd, r),
{
    let station = entry_string(fd, "Station_Name");
    let recorder = entry_string(fd, "Recording_Device_ID");
    let version = match get_entry(fd, "Revision_Year") {
        Some(y) => match Version::parse(y) {
            Some(v) => v,
            None => Version::V1991,
        },
        None => Version::V1991,
    };
    let total = count_entry(fd, "Total_Channel_Count");
    let analog = count_entry(fd, "Analog_Channel_Count");
    let status = count_entry(fd, "Status_Channel_Count");
    let start_time = time_of_entry(
        fd,
        "File_Start_Time",
        Timestamp { year: 2000, month: 1, day: 1, hour: 0, minute: 0, second: 0, micro: 0 },
    );
    let trigger_time = time_of_entry(fd, "Trigger_Time", start_time);
    let data_type = match get_entry(fd, "File_Type") {
        Some(t) => match DataType::parse(t) {
            Some(d) => d,
            None => DataType::Ascii,
        },
        None => DataType::Ascii,
    };
    InfDescription {
        header: Header { station, recorder, version },
        channels: ChannelCount { total, analog, status },
        start_time,
        trigger_time,
        data_type,
    }
}


/// The values of some entries, in order.
pub open spec fn field_values(fs: Seq<(Seq<char>, Seq<char>)>) -> Seq<Seq<char>>
    decreases fs.len(),
{
    if fs.len() == 0 {
        Seq::empty()
    } else {
        field_values(fs.drop_last()).push(fs.last().1)
    }
}

/// The values of the entries of some sections, section after section.
pub open spec fn param_values(ss: Seq<Section>) -> Seq<Seq<char>>
    decreases ss.len(),
{
    if ss.len() == 0 {
        Seq::empty()
    } else {
        param_values(ss.drop_last()) + field_values(fields_view(ss.last().fields@))
    }
}

/// The position of the first channel numbered `idx`.
pub open spec fn first_numbered(cs: Seq<StatusChannel>, idx: nat) -> Option<int>
    decreases cs.len(),
{
    if cs.len() == 0 {
        None
    } else if cs[0].index == idx {
        Some(0)
    } else {
        match first_numbered(cs.drop_first(), idx) {
            Some(i) => Some(i + 1),
            None => None,
        }
    }
}

/// Whether parameter entry `e` is for the channel at position `k`: it has six fields or
/// more and `k` is the first channel numbered by its first field.
pub open spec fn targets(cs: Seq<StatusChannel>, e: Seq<char>, k: int) -> bool {
    let fs = trimmed_fields(e, ',');
    fs.len() >= 6 && first_numbered(cs, uint_or_zero(fs[0], usize::MAX as nat)) == Some(k)
}

/// The last of the entries `es` for the channel at position `k`.
pub open spec fn last_target(cs: Seq<StatusChannel>, es: Seq<Seq<char>>, k: int) -> Option<int>
    decreases es.len(),
{
    if es.len() == 0 {
        None
    } else if targets(cs, es.last(), k) {
        Some(es.len() - 1)
    } else {
        last_target(cs, es.drop_last(), k)
    }
}

/// An optional text as values.
pub open spec fn text_opt(o: Option<String>) -> Option<Seq<char>> {
    match o {
        Some(t) => Some(t@),
        None => None,
    }
}

/// A text, `None` when it is empty.
pub open spec fn non_empty_text(t: Seq<char>) -> Option<Seq<char>> {
    if t.len() == 0 {
        None
    } else {
        Some(t)
    }
}

/// The object reference of a channel, if any.
pub open spec fn reference_of(c: StatusChannel) -> Option<String> {
    match c.ext {
        Some(e) => e.reference,
        None => None,
    }
}

/// `n` is channel `c` with the extras of parameter entry `e`
/// (`index, terminal, name, type, flag, equipment number`): the terminal position read
/// as a number (0 when it is none), type, flag and equipment number when not empty, the
/// reference kept.
pub open spec fn with_params(c: StatusChannel, e: Seq<char>, n: StatusChannel) -> bool {
    let fs = trimmed_fields(e, ',');
    &&& n.index == c.index
    &&& n.name == c.name
    &&& n.phase == c.phase
    &&& n.equipment == c.equipment
    &&& n.contact == c.contact
    &&& n.ext matches Some(x)
    &&& x.idx_org == Some(uint_or_zero(fs[1], usize::MAX as nat) as usize)
    &&& text_opt(x.channel_type) == non_empty_text(fs[3])
    &&& text_opt(x.flag) == non_empty_text(fs[4])
    &&& x.contact is None
    &&& x.reference == reference_of(c)
    &&& text_opt(x.equipment_no) == non_empty_text(fs[5])
}

/// `new` is `old` after the parameter entries `es`: each channel has the extras of the
/// last entry for it, and is unchanged when there is none.
pub open spec fn params_applied(old: Seq<StatusChannel>, es: Seq<Seq<char>>, new: Seq<StatusChannel>) -> bool {
    &&& new.len() == old.len()
    &&& forall|k: int|
        0 <= k < old.len() ==> match last_target(old, es, k) {
            None => #[trigger] new[k] == old[k],
            Some(j) => with_params(old[k], es[j], new[k]),
        }
}

proof fn lemma_first_numbered(cs: Seq<StatusChannel>, idx: nat)
    ensures
        match first_numbered(cs, idx) {
            Some(k) => 0 <= k < cs.len() && cs[k].index == idx && forall|j: int|
                0 <= j < k ==> cs[j].index != idx,
            None => forall|j: int| 0 <= j < cs.len() ==> cs[j].index != idx,
        },
    decreases cs.len(),
{
    if cs.len() > 0 && cs[0].index != idx {
        lemma_first_numbered(cs.drop_first(), idx);
        assert forall|j: int| 1 <= j < cs.len() implies cs[j] == cs.drop_first()[j - 1] by {}
    }
}

proof fn lemma_first_numbered_same(a: Seq<StatusChannel>, b: Seq<StatusChannel>, idx: nat)
    requires
        a.len() == b.len(),
        forall|k: int| 0 <= k < a.len() ==> a[k].index == b[k].index,
    ensures
        first_numbered(a, idx) == first_numbered(b, idx),
    decreases a.len(),
{
    if a.len() > 0 {
        lemma_first_numbered_same(a.drop_first(), b.drop_first(), idx);
    }
}

fn first_numbered_exec(cs: &Vec<StatusChannel>, idx: usize) -> (r: Option<usize>)
    ensures
        match r {
            Some(k) => first_numbered(cs@, idx as nat) == Some(k as int),
            None => first_numbered(cs@, idx as nat) is None,
        },
{
    proof {
        lemma_first_numbered(cs@, idx as nat);
    }
    let mut k: usize = 0;
    while k < cs.len()
        invariant
            k <= cs@.len(),
            forall|j: int| 0 <= j < k ==> cs@[j].index != idx,
        decreases cs.len() - k,
    {
        if cs[k].index == idx {
            proof {
                lemma_first_numbered(cs@, idx as nat);
                match first_numbered(cs@, idx as nat) {
                    Some(f) => {
                        assert(f == k) by {
                            if f < k {
                                assert(cs@[f].index != idx);
                            }
                            if f > k {
                                assert(cs@[k as int].index != idx);
                            }
                        }
                    },
                    None => {
                        assert(cs@[k as int].index != idx);
                    },
                }
            }
            return Some(k);
        }
        k = k + 1;
    }
    proof {
        lemma_first_numbered(cs@, idx as nat);
        match first_numbered(cs@, idx as nat) {
            Some(f) => {
                assert(cs@[f].index != idx);
            },
            None => {},
        }
    }
    None
}

proof fn lemma_last_target_bounds(cs: Seq<StatusChannel>, es: Seq<Seq<char>>, k: int)
    ensures
        last_target(cs, es, k) matches Some(j) ==> 0 <= j < es.len(),
    decreases es.len(),
{
    if es.len() > 0 && !targets(cs, es.last(), k) {
        lemma_last_target_bounds(cs, es.drop_last(), k);
    }
}

/// An entry for no channel changes nothing.
proof fn lemma_untargeted(base: Seq<StatusChannel>, es: Seq<Seq<char>>, e: Seq<char>, cs: Seq<StatusChannel>)
    requires
        params_applied(base, es, cs),
        forall|k: int| 0 <= k < base.len() ==> !targets(base, e, k),
    ensures
        params_applied(base, es.push(e), cs),
{
    let es2 = es.push(e);
    assert(es2.drop_last() =~= es);
    assert forall|q: int| 0 <= q < base.len() implies match last_target(base, es2, q) {
        None => #[trigger] cs[q] == base[q],
        Some(j) => with_params(base[q], es2[j], cs[q]),
    } by {
        assert(last_target(base, es2, q) == last_target(base, es, q));
        lemma_last_target_bounds(base, es, q);
        match last_target(base, es, q) {
            Some(j) => {
                assert(es2[j] == es[j]);
            },
            None => {},
        }
    }
}

fn non_empty_string(t: &Vec<char>) -> (r: Option<String>)
    ensures
        text_opt(r) == non_empty_text(t@),
{
    if t.len() == 0 {
        None
    } else {
        Some(chars_to_string(t.as_slice()))
    }
}

fn copy_reference(c: &StatusChannel) -> (r: Option<String>)
    ensures
        r == reference_of(*c),
{
    match &c.ext {
        Some(x) => match &x.reference {
            Some(t) => Some(t.clone()),
            None => None,
        },
        None => None,
    }
}

/// Applies one parameter entry.
fn apply_entry(cs: &mut Vec<StatusChannel>, e: &[char], Ghost(base): Ghost<Seq<StatusChannel>>, Ghost(es): Ghost<Seq<Seq<char>>>)
    requires
        params_applied(base, es, old(cs)@),
    ensures
        params_applied(base, es.push(e@), final(cs)@),
{
    let ghost before = cs@;
    proof {
        assert forall|k: int| 0 <= k < base.len() implies before[k].index == base[k].index by {
            lemma_last_target_bounds(base, es, k);
            match last_target(base, es, k) {
                None => { assert(before[k] == base[k]); },
                Some(j) => { assert(with_params(base[k], es[j], before[k])); },
            }
        }
        lemma_first_numbered_same(base, before, 0);
    }
    let fs = split_trimmed(e, ',');
    let ghost fv = trimmed_fields(e@, ',');
    assert(views(fs@) == fv);
    let ghost es2 = es.push(e@);
    assert(es2.drop_last() =~= es);
    assert(es2.last() == e@);
    if fs.len() < 6 {
        proof {
            lemma_untargeted(base, es, e@, before);
        }
        return;
    }
    let f0 = field_copy(&fs, 0);
    let idx = match parse_uint_chars(f0.as_slice(), usize::MAX as u64) {
        Some(v) => v as usize,
        None => 0,
    };
    assert(idx as nat == uint_or_zero(fv[0], usize::MAX as nat));
    proof {
        lemma_first_numbered_same(base, before, idx as nat);
        lemma_first_numbered(base, idx as nat);
    }
    match first_numbered_exec(cs, idx) {
        None => {
            proof {
                lemma_untargeted(base, es, e@, before);
            }
        },
        Some(k) => {
            let f1 = field_copy(&fs, 1);
            let org = match parse_uint_chars(f1.as_slice(), usize::MAX as u64) {
                Some(v) => v as usize,
                None => 0,
            };
            let f3 = field_copy(&fs, 3);
            let f4 = field_copy(&fs, 4);
            let f5 = field_copy(&fs, 5);
            let c = &cs[k];
            let ext = StatusExt {
                idx_org: Some(org),
                channel_type: non_empty_string(&f3),
                flag: non_empty_string(&f4),
                contact: None,
                reference: copy_reference(c),
                equipment_no: non_empty_string(&f5),
            };
            let n = StatusChannel {
                index: c.index,
                name: c.name.clone(),
                phase: c.phase.clone(),
                equipment: c.equipment.clone(),
                contact: c.contact,
                ext: Some(ext),
            };
            proof {
                let kk = k as int;
                lemma_last_target_bounds(base, es, kk);
                match last_target(base, es, kk) {
                    None => { assert(before[kk] == base[kk]); },
                    Some(j) => { assert(with_params(base[kk], es[j], before[kk])); },
                }
                assert(targets(base, e@, kk));
                assert(with_params(base[kk], e@, n));
            }
            cs.set(k, n);
            proof {
                assert forall|q: int| 0 <= q < base.len() && q != k implies !targets(base, e@, q) by {}
                assert forall|q: int| 0 <= q < base.len() implies match last_target(base, es2, q) {
                    None => #[trigger] cs@[q] == base[q],
                    Some(j) => with_params(base[q], es2[j], cs@[q]),
                } by {
                    lemma_last_target_bounds(base, es, q);
                    if q != k {
                        assert(last_target(base, es2, q) == last_target(base, es, q));
                        assert(cs@[q] == before[q]);
                        match last_target(base, es, q) {
                            Some(j) => { assert(es2[j] == es[j]); },
                            None => {},
                        }
                    } else {
                        assert(last_target(base, es2, q) == Some(es.len() as int));
                    }
                }
            }
        },
    }
}

/// Adds the extras of the status-channel parameter entries of an information file to
/// the channels (see `params_applied`): each entry with six fields or more names a
/// channel by number, and that channel takes its terminal position, type, flag and
/// equipment number; a later entry for the same channel wins.
pub fn apply_status_parameters(inf: &InfFile, statuses: &mut Vec<StatusChannel>)
    ensures
        params_applied(
            old(statuses)@,
            param_values(sections_with(inf.sections@, kind_view(SectionKind::StatusChannelsParameter))),
            final(statuses)@,
        ),
{
    let ghost base = statuses@;
    let secs = inf.sections_of(&SectionKind::StatusChannelsParameter);
    let ghost ss = sections_with(inf.sections@, kind_view(SectionKind::StatusChannelsParameter));
    assert(secs@.map_values(|s: &Section| *s) == ss);
    assert forall|k: int| 0 <= k < base.len() implies last_target(base, Seq::<Seq<char>>::empty(), k) is None by {}
    assert(ss.take(0) =~= Seq::<Section>::empty());
    let mut i: usize = 0;
    while i < secs.len()
        invariant
            i <= secs@.len(),
            secs@.map_values(|s: &Section| *s) == ss,
            params_applied(base, param_values(ss.take(i as int)), statuses@),
        decreases secs.len() - i,
    {
        let sec = secs[i];
        assert(*sec == ss[i as int]);
        let ghost fv = fields_view(sec.fields@);
        let ghost done = param_values(ss.take(i as int));
        let mut j: usize = 0;
        assert(fv.take(0) =~= Seq::<(Seq<char>, Seq<char>)>::empty());
        assert(done + field_values(fv.take(0)) =~= done);
        while j < sec.fields.len()
            invariant
                j <= sec.fields@.len(),
                fv == fields_view(sec.fields@),
                params_applied(base, done + field_values(fv.take(j as int)), statuses@),
            decreases sec.fields.len() - j,
        {
            let value = str_chars(sec.fields[j].1.as_str());
            let ghost before_es = done + field_values(fv.take(j as int));
            apply_entry(statuses, value.as_slice(), Ghost(base), Ghost(before_es));
            proof {
                assert(fv.take(j + 1).drop_last() =~= fv.take(j as int));
                assert(fv.take(j + 1).last() == fv[j as int]);
                assert(fv[j as int].1 == value@);
                assert(done + field_values(fv.take(j + 1)) =~= before_es.push(value@));
            }
            j = j + 1;
        }
        proof {
            assert(fv.take(fv.len() as int) =~= fv);
            assert(ss.take(i + 1).drop_last() =~= ss.take(i as int));
            assert(ss.take(i + 1).last() == ss[i as int]);
        }
        i = i + 1;
    }
    assert(ss.take(ss.len() as int) =~= ss);
}


/// A text written as a parameter field and read back unchanged: no comma, no white space
/// around it.
pub open spec fn plain_param(t: Seq<char>) -> bool {
    !t.contains(',') && trim(t) == t
}

/// An optional text that reads back as itself: absent, or a non-empty plain field.
pub open spec fn plain_opt(o: Option<String>) -> bool {
    match o {
        Some(t) => t@.len() > 0 && plain_param(t@),
        None => true,
    }
}

/// A status channel whose parameter line carries all its extras: a terminal position,
/// and a name, type, flag and equipment number that are plain fields.
pub open spec fn params_read_back(ch: StatusChannel) -> bool {
    &&& plain_param(ch.name@)
    &&& ch.ext matches Some(x)
    &&& x.idx_org is Some
    &&& plain_opt(x.channel_type)
    &&& plain_opt(x.flag)
    &&& plain_opt(x.equipment_no)
}

proof fn lemma_trim_after_space(t: Seq<char>)
    requires
        trim(t) == t,
    ensures
        trim(seq![' '] + t) == t,
{
    let s = seq![' '] + t;
    assert(s.drop_first() =~= t);
    if t.len() > 0 {
        crate::text::lemma_trimmed_ends(t);
        assert(crate::text::trim_start(t) == t);
    } else {
        assert(crate::text::trim_start(t) =~= t);
    }
}

proof fn lemma_plain_opt_view(o: Option<String>)
    requires
        plain_opt(o),
    ensures
        plain_param(opt_view(o)),
        non_empty_text(opt_view(o)) == text_opt(o),
{
    match o {
        Some(t) => {},
        None => {
            assert(!Seq::<char>::empty().contains(','));
            assert(trim(Seq::<char>::empty()) =~= Seq::<char>::empty()) by {
                crate::text::lemma_trim_noop(Seq::<char>::empty());
            }
        },
    }
}

proof fn lemma_plain_dec(v: nat)
    ensures
        plain_param(dec(v)),
{
    crate::text::lemma_dec_plain(v, ',');
    crate::text::lemma_dec_plain(v, ' ');
    crate::text::lemma_trim_noop(dec(v));
}

/// The fields of `x0, x1, ..., x5` written with `", "` between them, for plain fields.
proof fn lemma_param_fields(x: Seq<Seq<char>>)
    requires
        x.len() == 6,
        forall|i: int| 0 <= i < 6 ==> plain_param(#[trigger] x[i]),
    ensures
        trimmed_fields(
            x[0] + seq![',', ' '] + x[1] + seq![',', ' '] + x[2] + seq![',', ' '] + x[3] + seq![',', ' ']
                + x[4] + seq![',', ' '] + x[5],
            ',',
        ) == x,
{
    let p5 = seq![' '] + x[5];
    let p4 = seq![' '] + x[4];
    let p3 = seq![' '] + x[3];
    let p2 = seq![' '] + x[2];
    let p1 = seq![' '] + x[1];
    assert forall|i: int| 1 <= i < 6 implies !(seq![' '] + #[trigger] x[i]).contains(',') by {
        let q = seq![' '] + x[i];
        if q.contains(',') {
            let j = choose|j: int| 0 <= j < q.len() && q[j] == ',';
            assert(x[i][j - 1] == ',');
        }
    }
    assert(!p1.contains(',') && !p2.contains(',') && !p3.contains(',') && !p4.contains(','));
    assert(!p5.contains(','));
    lemma_split_no_sep(p5, ',');
    let t4 = p4 + seq![','] + p5;
    lemma_split_join(p4, ',', p5);
    let t3 = p3 + seq![','] + t4;
    lemma_split_join(p3, ',', t4);
    let t2 = p2 + seq![','] + t3;
    lemma_split_join(p2, ',', t3);
    let t1 = p1 + seq![','] + t2;
    lemma_split_join(p1, ',', t2);
    let t0 = x[0] + seq![','] + t1;
    lemma_split_join(x[0], ',', t1);
    let whole = x[0] + seq![',', ' '] + x[1] + seq![',', ' '] + x[2] + seq![',', ' '] + x[3] + seq![',', ' ']
        + x[4] + seq![',', ' '] + x[5];
    assert(whole =~= t0);
    let sp = split(whole, ',');
    assert(sp =~= seq![x[0], p1, p2, p3, p4, p5]);
    lemma_trim_after_space(x[1]);
    lemma_trim_after_space(x[2]);
    lemma_trim_after_space(x[3]);
    lemma_trim_after_space(x[4]);
    lemma_trim_after_space(x[5]);
    assert(trimmed_fields(whole, ',') =~= x);
}

/// A status channel's parameter line (`build_status_parameter`), applied to the channel
/// of the same number (`apply_status_parameters`), gives back the channel's terminal
/// position, type, flag and equipment number, for every channel of `params_read_back`:
/// the line has six fields and names that number.
pub proof fn lemma_status_parameter_round_trip(ch: StatusChannel, target: StatusChannel, n: StatusChannel)
    requires
        params_read_back(ch),
        with_params(target, status_parameter_text(ch), n),
    ensures
        trimmed_fields(status_parameter_text(ch), ',').len() >= 6,
        uint_or_zero(trimmed_fields(status_parameter_text(ch), ',')[0], usize::MAX as nat) == ch.index,
        ch.ext matches Some(x) && n.ext matches Some(y) && y.idx_org == x.idx_org && text_opt(
            y.channel_type,
        ) == text_opt(x.channel_type) && text_opt(y.flag) == text_opt(x.flag) && text_opt(
            y.equipment_no,
        ) == text_opt(x.equipment_no),
{
    let x = ch.ext.unwrap();
    let org = x.idx_org.unwrap();
    let f = seq![
        dec(ch.index as nat),
        dec(org as nat),
        ch.name@,
        opt_view(x.channel_type),
        opt_view(x.flag),
        opt_view(x.equipment_no),
    ];
    lemma_plain_dec(ch.index as nat);
    lemma_plain_dec(org as nat);
    lemma_plain_opt_view(x.channel_type);
    lemma_plain_opt_view(x.flag);
    lemma_plain_opt_view(x.equipment_no);
    assert forall|i: int| 0 <= i < 6 implies plain_param(#[trigger] f[i]) by {}
    lemma_param_fields(f);
    let sep = seq![',', ' '];
    assert(status_parameter_text(ch) =~= f[0] + sep + f[1] + sep + f[2] + sep + f[3] + sep + f[4]
        + sep + f[5]);
    crate::text::lemma_parse_uint_dec(ch.index as nat, usize::MAX as nat);
    crate::text::lemma_parse_uint_dec(org as nat, usize::MAX as nat);
}


/// The keys of an analog channel's scale entries, in the order `numbers` holds them.
pub open spec fn scale_key(j: int) -> Seq<char> {
    if j == 0 {
        "Channel_Multiplier"@
    } else if j == 1 {
        "Channel_Offset"@
    } else if j == 2 {
        "Channel_Skew"@
    } else if j == 3 {
        "Range_Minimum_Limit_Value"@
    } else if j == 4 {
        "Range_Maximum_Limit_Value"@
    } else if j == 5 {
        "Channel_Ratio_Primary"@
    } else {
        "Channel_Ratio_Secondary"@
    }
}

/// The entries of an `Analog_Channel_#n` section. Its seven scale entries (gain, offset,
/// skew, range, transformer ratio) are decimal floats, handed on as text.
#[derive(Debug, Clone)]
pub struct AnalogSectionFields {
    /// Channel number (the section's).
    pub index: usize,
    /// `Channel_ID`.
    pub name: String,
    /// `Phase_ID`.
    pub phase: String,
    /// Monitored component, empty when it is an IEC 61850 reference.
    pub equipment: String,
    /// The monitored component when it is an IEC 61850 reference.
    pub reference: Option<String>,
    /// `Channel_Units`.
    pub unit: String,
    /// The scale entries as text (empty when missing).
    pub numbers: Vec<String>,
    /// `Data_Primary_Secondary` as a side (secondary when missing).
    pub tran_side: TranSide,
}

/// `a` holds the entries of analog-channel section `s`.
pub open spec fn analog_section_ok(s: Section, a: AnalogSectionFields) -> bool {
    let fs = fields_view(s.fields@);
    let mc = trim(entry(fs, "Monitored_Component"@));
    &&& a.index == s.index
    &&& a.name@ == entry(fs, "Channel_ID"@)
    &&& a.phase@ == entry(fs, "Phase_ID"@)
    &&& a.unit@ == entry(fs, "Channel_Units"@)
    &&& if iec61850_reference(mc) {
        &&& a.equipment@ == Seq::<char>::empty()
        &&& a.reference matches Some(r)
        &&& r@ == mc
    } else {
        &&& a.equipment@ == mc
        &&& a.reference is None
    }
    &&& a.numbers@.len() == 7
    &&& forall|j: int| 0 <= j < 7 ==> (#[trigger] a.numbers@[j])@ == entry(fs, scale_key(j))
    &&& a.tran_side == if key_index(fs, "Data_Primary_Secondary"@) is Some {
        side_of(entry(fs, "Data_Primary_Secondary"@))
    } else {
        TranSide::S
    }
}

/// Reads the entries of an `Analog_Channel_#n` section (see `analog_section_ok`).
pub fn analog_section_fields(s: &Section) -> (r: AnalogSectionFields)
    ensures
        analog_section_ok(*s, r),
{
    let name = entry_string(s, "Channel_ID");
    let phase = entry_string(s, "Phase_ID");
    let unit = entry_string(s, "Channel_Units");
    let mc_raw = entry_string(s, "Monitored_Component");
    let mc_chars = str_chars(mc_raw.as_str());
    let mc_trim = trim_chars(mc_chars.as_slice());
    let mc = chars_to_string(mc_trim.as_slice());
    let (equipment, reference) = if is_iec61850_reference(mc.as_str()) {
        (String::new(), Some(mc))
    } else {
        (mc, None)
    };
    let mut numbers: Vec<String> = Vec::new();
    numbers.push(entry_string(s, "Channel_Multiplier"));
    numbers.push(entry_string(s, "Channel_Offset"));
    numbers.push(entry_string(s, "Channel_Skew"));
    numbers.push(entry_string(s, "Range_Minimum_Limit_Value"));
    numbers.push(entry_string(s, "Range_Maximum_Limit_Value"));
    numbers.push(entry_string(s, "Channel_Ratio_Primary"));
    numbers.push(entry_string(s, "Channel_Ratio_Secondary"));
    let tran_side = match get_entry(s, "Data_Primary_Secondary") {
        Some(t) => TranSide::parse(t),
        None => TranSide::S,
    };
    AnalogSectionFields { index: s.index, name, phase, equipment, reference, unit, numbers, tran_side }
}

/// Key `prefix + suffix` of a transformer winding side (`H_PARAM`, `M_TV_CHNS`, …).
pub open spec fn side_key(loc: WindingLocation, suffix: Seq<char>) -> Seq<char> {
    location_prefix(loc) + suffix
}

/// Key `TA_Id_#n` of a transformer current branch.
pub open spec fn ta_key(n: nat) -> Seq<char> {
    "TA_Id_#"@ + dec(n)
}

fn side_key_string(loc: WindingLocation, suffix: &str) -> (r: String)
    ensures
        r@ == side_key(loc, suffix@),
{
    let mut out: Vec<char> = Vec::new();
    push_str(&mut out, loc.inf_prefix());
    push_str(&mut out, suffix);
    chars_to_string(out.as_slice())
}

fn ta_key_string(n: usize) -> (r: String)
    ensures
        r@ == ta_key(n as nat),
{
    let mut out: Vec<char> = Vec::new();
    push_str(&mut out, "TA_Id_#");
    push_dec(&mut out, n as u64);
    chars_to_string(out.as_slice())
}

/// `b` is the branch that entry text `t` describes as branch number `n` (see
/// `parse_transformer_ta`).
pub open spec fn transformer_ta_ok(t: Seq<char>, n: nat, b: AccBran) -> bool {
    let fs = trimmed_fields(t, ',');
    &&& b.bran_idx == n
    &&& b.ia_idx == field_number(fs, 0)
    &&& b.ib_idx == field_number(fs, 1)
    &&& b.ic_idx == field_number(fs, 2)
    &&& b.in_idx == 0
    &&& b.dir == dir_value(field_opt(fs, 3))
    &&& b.dir_raw@ == field_or_empty(fs, 3)
}

/// Entry text `t` names no current channel.
pub open spec fn ta_text_empty(t: Seq<char>) -> bool {
    let fs = trimmed_fields(t, ',');
    field_number(fs, 0) == 0 && field_number(fs, 1) == 0 && field_number(fs, 2) == 0
}

/// The entry `TA_Id_#n` is present and names a current channel.
pub open spec fn ta_present(fs: Seq<(Seq<char>, Seq<char>)>, n: nat) -> bool {
    key_index(fs, ta_key(n)) is Some && !ta_text_empty(entry(fs, ta_key(n)))
}

/// `out` are the current branches of the `TA_Id_#n` entries for the numbers `ids`, in
/// order: one for each present entry that names a channel, numbered by its place in `ids`
/// (from 1).
pub open spec fn currents_ok(fs: Seq<(Seq<char>, Seq<char>)>, ids: Seq<usize>, out: Seq<AccBran>) -> bool
    decreases ids.len(),
{
    if ids.len() == 0 {
        out.len() == 0
    } else if ta_present(fs, ids.last() as nat) {
        &&& out.len() > 0
        &&& transformer_ta_ok(entry(fs, ta_key(ids.last() as nat)), ids.len(), out.last())
        &&& currents_ok(fs, ids.drop_last(), out.drop_last())
    } else {
        currents_ok(fs, ids.drop_last(), out)
    }
}

/// How many of the `TA_Id_#n` entries for the numbers `ids` are present and name a channel.
pub open spec fn currents_count(fs: Seq<(Seq<char>, Seq<char>)>, ids: Seq<usize>) -> nat
    decreases ids.len(),
{
    if ids.len() == 0 {
        0
    } else if ta_present(fs, ids.last() as nat) {
        currents_count(fs, ids.drop_last()) + 1
    } else {
        currents_count(fs, ids.drop_last())
    }
}

proof fn lemma_currents_len(fs: Seq<(Seq<char>, Seq<char>)>, ids: Seq<usize>, out: Seq<AccBran>)
    requires
        currents_ok(fs, ids, out),
    ensures
        out.len() == currents_count(fs, ids),
    decreases ids.len(),
{
    if ids.len() > 0 {
        if ta_present(fs, ids.last() as nat) {
            lemma_currents_len(fs, ids.drop_last(), out.drop_last());
        } else {
            lemma_currents_len(fs, ids.drop_last(), out);
        }
    }
}

/// What an information file says of one side of a transformer, the rated voltage kept as
/// text (it is a decimal float).
#[derive(Debug, Clone)]
pub struct WindingFields {
    /// Vector group: first field of `{H,M,L}_PARAM`.
    pub wg: String,
    /// Rated voltage (kV): second field of `{H,M,L}_PARAM`, as text.
    pub v_rtg: String,
    /// Number of current branches: third field of `{H,M,L}_PARAM` when it is a positive
    /// number, else the number of branches read.
    pub bran_num: usize,
    /// Voltage channels (`{H,M,L}_TV_CHNS`).
    pub acv: AcvChn,
    /// Current branches (`TA_Id_#n`).
    pub currents: Vec<AccBran>,
    /// Zero-sequence current channel (`{H,M,L}_TA_ZS`).
    pub ta_zs: usize,
    /// Gap zero-sequence current channel (`{H,M,L}_TA_ZS_GAP`).
    pub ta_zs_gap: usize,
    /// Status channels (`{H,M,L}_STATUS_CHNS`).
    pub sta_chns: Vec<usize>,
}

/// The number that entry `key` holds (`number_index`), 0 when it is missing or holds none.
pub open spec fn entry_number(fs: Seq<(Seq<char>, Seq<char>)>, key: Seq<char>) -> usize {
    if key_index(fs, key) is Some {
        match crate::inf::number::number_index(entry(fs, key)) {
            Some(v) => v as usize,
            None => 0,
        }
    } else {
        0
    }
}

/// `r` is what section `s` says of winding side `loc`: nothing when it has neither a
/// `_PARAM` entry nor a current branch, else the fields described at `WindingFields`.
pub open spec fn winding_ok(s: Section, loc: WindingLocation, r: Option<WindingFields>) -> bool {
    let fs = fields_view(s.fields@);
    let ids = location_ta_ids(loc);
    let has_param = key_index(fs, side_key(loc, "_PARAM"@)) is Some;
    let pf = trimmed_fields(entry(fs, side_key(loc, "_PARAM"@)), ',');
    let tv = side_key(loc, "_TV_CHNS"@);
    let st = side_key(loc, "_STATUS_CHNS"@);
    match r {
        None => !has_param && currents_count(fs, ids) == 0,
        Some(w) => {
            &&& has_param || currents_count(fs, ids) > 0
            &&& currents_ok(fs, ids, w.currents@)
            &&& w.wg@ == (if has_param { field_or_empty(pf, 0) } else { Seq::<char>::empty() })
            &&& w.v_rtg@ == (if has_param { field_or_empty(pf, 1) } else { Seq::<char>::empty() })
            &&& w.bran_num == if has_param && field_number(pf, 2) > 0 {
                field_number(pf, 2) as int
            } else {
                w.currents@.len() as int
            }
            &&& key_index(fs, tv) is Some ==> {
                let v = number_list(entry(fs, tv));
                &&& w.acv.ua_idx == at_or_zero(v, 0)
                &&& w.acv.ub_idx == at_or_zero(v, 1)
                &&& w.acv.uc_idx == at_or_zero(v, 2)
                &&& w.acv.un_idx == at_or_zero(v, 3)
                &&& w.acv.ul_idx == at_or_zero(v, 4)
            }
            &&& key_index(fs, tv) is None ==> w.acv == AcvChn {
                ua_idx: 0,
                ub_idx: 0,
                uc_idx: 0,
                un_idx: 0,
                ul_idx: 0,
            }
            &&& w.ta_zs == entry_number(fs, side_key(loc, "_TA_ZS"@))
            &&& w.ta_zs_gap == entry_number(fs, side_key(loc, "_TA_ZS_GAP"@))
            &&& w.sta_chns@ == (if key_index(fs, st) is Some {
                number_list(entry(fs, st))
            } else {
                Seq::<usize>::empty()
            })
        },
    }
}

fn entry_number_of(s: &Section, key: &str) -> (r: usize)
    ensures
        r == entry_number(fields_view(s.fields@), key@),
{
    match get_entry(s, key) {
        Some(t) => {
            let cs = str_chars(t);
            match crate::inf::number::number_index_chars(cs.as_slice()) {
                Some(v) => v,
                None => 0,
            }
        },
        None => 0,
    }
}

/// Reads one side of a transformer (see `winding_ok`).
pub fn winding_fields(s: &Section, loc: WindingLocation) -> (r: Option<WindingFields>)
    ensures
        winding_ok(*s, loc, r),
{
    let ghost fs = fields_view(s.fields@);
    let ids = loc.ta_id_indices();
    let mut currents: Vec<AccBran> = Vec::new();
    let mut j: usize = 0;
    assert(ids@.take(0) =~= Seq::<usize>::empty());
    while j < ids.len()
        invariant
            j <= ids@.len(),
            ids@ == location_ta_ids(loc),
            fs == fields_view(s.fields@),
            currents_ok(fs, ids@.take(j as int), currents@),
        decreases ids.len() - j,
    {
        let key = ta_key_string(ids[j]);
        let ghost before = currents@;
        let ghost t = ids@.take(j + 1);
        assert(t.drop_last() =~= ids@.take(j as int));
        assert(t.last() == ids@[j as int]);
        match get_entry(s, key.as_str()) {
            Some(raw) => {
                let b = parse_transformer_ta(raw, j + 1);
                if !b.is_empty() {
                    currents.push(b);
                    assert(currents@.drop_last() =~= before);
                }
            },
            None => {},
        }
        j = j + 1;
    }
    assert(ids@.take(ids@.len() as int) =~= ids@);
    proof {
        lemma_currents_len(fs, ids@, currents@);
    }
    let pkey = side_key_string(loc, "_PARAM");
    let param = get_entry(s, pkey.as_str());
    if param.is_none() && currents.len() == 0 {
        return None;
    }
    let (wg, v_rtg, b) = match param {
        Some(t) => {
            let cs = str_chars(t);
            let parts = split_trimmed(cs.as_slice(), ',');
            let wg = field_copy(&parts, 0);
            let v = field_copy(&parts, 1);
            (chars_to_string(wg.as_slice()), chars_to_string(v.as_slice()), fields_number(&parts, 2))
        },
        None => (String::new(), String::new(), 0),
    };
    let bran_num = if b > 0 {
        b
    } else {
        currents.len()
    };
    let tv = side_key_string(loc, "_TV_CHNS");
    let acv = match get_entry(s, tv.as_str()) {
        Some(t) => parse_acv(t),
        None => AcvChn { ua_idx: 0, ub_idx: 0, uc_idx: 0, un_idx: 0, ul_idx: 0 },
    };
    let st = side_key_string(loc, "_STATUS_CHNS");
    let sta_chns = match get_entry(s, st.as_str()) {
        Some(t) => parse_num_list(t),
        None => Vec::new(),
    };
    let zs = side_key_string(loc, "_TA_ZS");
    let zsg = side_key_string(loc, "_TA_ZS_GAP");
    let ta_zs = entry_number_of(s, zs.as_str());
    let ta_zs_gap = entry_number_of(s, zsg.as_str());
    Some(WindingFields { wg, v_rtg, bran_num, acv, currents, ta_zs, ta_zs_gap, sta_chns })
}

} // verus!
