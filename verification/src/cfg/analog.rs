//! The text fields of an analog-channel line. Its seven scale fields (gain, offset, skew,
//! range, transformer ratio) are decimal floats; they are handed on as trimmed text.

use vstd::prelude::*;

use crate::cfg::channel::{uint_or_zero, TranSide};
use crate::text::{
    chars_to_string, field_copy, field_or_empty, parse_uint_chars, split_trimmed, str_chars, trim,
    trimmed_fields, upper_case, views,
};

verus! {

/// The fields of an analog-channel line
/// (`index,name,phase,equipment,unit,a,b,skew,min,max,primary,secondary,PS`).
#[derive(Debug, Clone)]
pub struct AnalogLine {
    /// Channel number (0 when the field is no number).
    pub index: usize,
    /// Name.
    pub name: String,
    /// Phase.
    pub phase: String,
    /// Monitored component.
    pub equipment: String,
    /// Unit.
    pub unit: String,
    /// The seven scale fields, trimmed (empty where the line has none).
    pub numbers: Vec<String>,
    /// Primary or secondary values (secondary when the field is missing).
    pub tran_side: TranSide,
}

/// The side a side field names: primary for `P` in any case, else secondary.
pub open spec fn side_of(t: Seq<char>) -> TranSide {
    if upper_case(trim(t)) == seq!['P'] {
        TranSide::P
    } else {
        TranSide::S
    }
}

/// `a` holds the fields of analog-channel line `line`: the trimmed comma-separated
/// fields in order, the number read as such, the side letter read as a side.
pub open spec fn analog_line_ok(line: Seq<char>, a: AnalogLine) -> bool {
    let fs = trimmed_fields(line, ',');
    &&& a.index as nat == uint_or_zero(field_or_empty(fs, 0), usize::MAX as nat)
    &&& a.name@ == field_or_empty(fs, 1)
    &&& a.phase@ == field_or_empty(fs, 2)
    &&& a.equipment@ == field_or_empty(fs, 3)
    &&& a.unit@ == field_or_empty(fs, 4)
    &&& a.numbers@.len() == 7
    &&& forall|j: int| 0 <= j < 7 ==> (#[trigger] a.numbers@[j])@ == field_or_empty(fs, 5 + j)
    &&& a.tran_side == (if fs.len() > 12 {
        side_of(fs[12])
    } else {
        TranSide::S
    })
}

/// Reads the fields of an analog-channel line (see `analog_line_ok`).
pub fn analog_line(line: &str) -> (r: AnalogLine)
    ensures
        analog_line_ok(line@, r),
{
    let cs = str_chars(line);
    let parts = split_trimmed(cs.as_slice(), ',');
    let ghost fs = trimmed_fields(line@, ',');
    assert(views(parts@) == fs);
    let f0 = field_copy(&parts, 0);
    let idx: usize = match parse_uint_chars(f0.as_slice(), usize::MAX as u64) {
        Some(v) => v as usize,
        None => 0,
    };
    let name = chars_to_string(field_copy(&parts, 1).as_slice());
    let phase = chars_to_string(field_copy(&parts, 2).as_slice());
    let equipment = chars_to_string(field_copy(&parts, 3).as_slice());
    let unit = chars_to_string(field_copy(&parts, 4).as_slice());
    let mut numbers: Vec<String> = Vec::new();
    let mut j: usize = 0;
    while j < 7
        invariant
            j <= 7,
            views(parts@) == fs,
            numbers@.len() == j,
            forall|k: int| 0 <= k < j ==> (#[trigger] numbers@[k])@ == field_or_empty(fs, 5 + k),
        decreases 7 - j,
    {
        numbers.push(chars_to_string(field_copy(&parts, 5 + j).as_slice()));
        j = j + 1;
    }
    let tran_side = if parts.len() > 12 {
        assert(parts@[12]@ == fs[12]);
        TranSide::parse(chars_to_string(parts[12].as_slice()).as_str())
    } else {
        TranSide::S
    };
    AnalogLine { index: idx, name, phase, equipment, unit, numbers, tran_side }
}

} // verus!
