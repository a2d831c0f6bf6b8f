//! The device model file (`.dmf`): its XML reader, the attribute records of channels and
//! channel groups, the spelling of branch directions, and the lines it writes for them.

pub mod xml_reader;
pub mod xml_writer;
pub mod read_back;
pub mod tree;

use vstd::prelude::*;

use crate::cfg::channel::uint_or_zero;
use crate::equipment::{AccBran, AcvChn, Igap};
use crate::inf::fields_view;
use crate::text::{
    all_digits, ascii_lower, ascii_lower_chars, chars_eq_str, digits_value, is_digit,
    parse_uint, parse_uint_chars, slice_chars, str_chars, string_of, trim, trim_chars,
};

verus! {

/// A status channel of the device model file.
#[derive(Debug, Clone, Default)]
pub struct DmfStatusChannel {
    /// Channel number in the configuration file.
    pub idx_cfg: usize,
    /// Position of the channel on the terminal block.
    pub idx_org: usize,
    /// Channel type.
    pub ch_type: String,
    /// Channel flag.
    pub flag: String,
    /// Normal state, as written.
    pub contact: String,
    /// Object reference.
    pub src_ref: String,
}

/// The value of a text read as an `i32`: optional sign, then one or more digits, within
/// the range of `i32`.
pub open spec fn i32_value(t: Seq<char>) -> Option<int> {
    let neg = t.len() > 0 && t[0] == '-';
    let body = if t.len() > 0 && (t[0] == '-' || t[0] == '+') {
        t.drop_first()
    } else {
        t
    };
    if body.len() == 0 || !all_digits(body) {
        None
    } else {
        let v: int = if neg {
            -(digits_value(body) as int)
        } else {
            digits_value(body) as int
        };
        if i32::MIN <= v <= i32::MAX {
            Some(v)
        } else {
            None
        }
    }
}

/// A branch direction: `-1` for a negative number or for `neg`, `negative` or `-` (any
/// ASCII case); `1` for anything else, the empty text included.
pub open spec fn dir_of_text(s: Seq<char>) -> i32 {
    let t = trim(s);
    if t.len() == 0 {
        1i32
    } else {
        match i32_value(t) {
            Some(v) => if v < 0 {
                -1i32
            } else {
                1i32
            },
            None => {
                let l = ascii_lower(t);
                if l == seq!['n', 'e', 'g'] || l == seq!['n', 'e', 'g', 'a', 't', 'i', 'v', 'e'] || l
                    == seq!['-'] {
                    -1i32
                } else {
                    1i32
                }
            },
        }
    }
}

fn i32_of(t: &[char]) -> (r: Option<i64>)
    ensures
        match r {
            Some(v) => i32_value(t@) == Some(v as int),
            None => i32_value(t@) is None,
        },
{
    let n = t.len();
    let neg = n > 0 && t[0] == '-';
    let start: usize = if n > 0 && (t[0] == '-' || t[0] == '+') { 1 } else { 0 };
    let body = slice_chars(t, start, n);
    assert(body@ =~= (if t@.len() > 0 && (t@[0] == '-' || t@[0] == '+') {
        t@.drop_first()
    } else {
        t@
    }));
    if body.len() == 0 {
        return None;
    }
    let mut k: usize = 0;
    while k < body.len()
        invariant
            k <= body@.len(),
            forall|j: int| 0 <= j < k ==> is_digit(#[trigger] body@[j]),
            body@ == (if t@.len() > 0 && (t@[0] == '-' || t@[0] == '+') {
                t@.drop_first()
            } else {
                t@
            }),
        decreases body.len() - k,
    {
        if !('0' <= body[k] && body[k] <= '9') {
            return None;
        }
        k = k + 1;
    }
    assert(is_digit(body@[0]));
    match parse_uint_chars(body.as_slice(), 2147483648) {
        Some(v) => {
            let x: i64 = if neg { -(v as i64) } else { v as i64 };
            if x > 2147483647 {
                None
            } else {
                Some(x)
            }
        },
        None => None,
    }
}

/// Reads a branch direction (see `dir_of_text`).
pub fn parse_dir(s: &str) -> (r: i32)
    ensures
        r == dir_of_text(s@),
{
    let cs = str_chars(s);
    let t = trim_chars(cs.as_slice());
    if t.len() == 0 {
        return 1;
    }
    match i32_of(t.as_slice()) {
        Some(v) => if v < 0 {
            -1
        } else {
            1
        },
        None => {
            let l = ascii_lower_chars(t.as_slice());
            proof {
                reveal_strlit("neg");
                reveal_strlit("negative");
                reveal_strlit("-");
                assert("neg"@ =~= seq!['n', 'e', 'g']);
                assert("negative"@ =~= seq!['n', 'e', 'g', 'a', 't', 'i', 'v', 'e']);
                assert("-"@ =~= seq!['-']);
            }
            if chars_eq_str(l.as_slice(), "neg") || chars_eq_str(l.as_slice(), "negative")
                || chars_eq_str(l.as_slice(), "-") {
                -1
            } else {
                1
            }
        },
    }
}


/// The value of the first attribute named `key` (names compare exactly).
pub open spec fn attr_value(fs: Seq<(Seq<char>, Seq<char>)>, key: Seq<char>) -> Option<Seq<char>>
    decreases fs.len(),
{
    if fs.len() == 0 {
        None
    } else if fs[0].0 == key {
        Some(fs[0].1)
    } else {
        attr_value(fs.drop_first(), key)
    }
}

/// An attribute read as a count: its trimmed value as a `usize`, 0 when it is missing or
/// not a number.
pub open spec fn attr_count(fs: Seq<(Seq<char>, Seq<char>)>, key: Seq<char>) -> nat {
    match attr_value(fs, key) {
        Some(v) => uint_or_zero(trim(v), usize::MAX as nat),
        None => 0,
    }
}

/// An attribute's text, empty when it is missing.
pub open spec fn attr_text(fs: Seq<(Seq<char>, Seq<char>)>, key: Seq<char>) -> Seq<char> {
    match attr_value(fs, key) {
        Some(v) => v,
        None => seq![],
    }
}

/// The value of the first attribute named `name`.
pub fn attr<'a>(attrs: &'a [(String, String)], name: &str) -> (r: Option<&'a str>)
    ensures
        match attr_value(fields_view(attrs@), name@) {
            Some(v) => r matches Some(t) && t@ == v,
            None => r is None,
        },
{
    let ghost fs = fields_view(attrs@);
    let mut i: usize = 0;
    assert(fs.skip(0) =~= fs);
    while i < attrs.len()
        invariant
            i <= attrs@.len(),
            fs == fields_view(attrs@),
            attr_value(fs, name@) == attr_value(fs.skip(i as int), name@),
        decreases attrs.len() - i,
    {
        let k = str_chars(attrs[i].0.as_str());
        assert(fs.skip(i as int)[0] == fs[i as int]);
        if chars_eq_str(k.as_slice(), name) {
            return Some(attrs[i].1.as_str());
        }
        assert(fs.skip(i as int).drop_first() =~= fs.skip(i + 1));
        i = i + 1;
    }
    None
}

/// An attribute read as a count (see `attr_count`).
pub fn attr_usize(attrs: &[(String, String)], name: &str) -> (r: usize)
    ensures
        r == attr_count(fields_view(attrs@), name@),
{
    match attr(attrs, name) {
        Some(v) => {
            let cs = str_chars(v);
            let t = trim_chars(cs.as_slice());
            match parse_uint_chars(t.as_slice(), usize::MAX as u64) {
                Some(x) => x as usize,
                None => 0,
            }
        },
        None => 0,
    }
}

/// An attribute's text, empty when it is missing.
pub fn attr_str(attrs: &[(String, String)], name: &str) -> (r: String)
    ensures
        r@ == attr_text(fields_view(attrs@), name@),
{
    match attr(attrs, name) {
        Some(v) => string_of(v),
        None => String::new(),
    }
}

/// The voltage channels that the attributes of an `ACVChn` element name.
pub open spec fn acv_of_attrs(fs: Seq<(Seq<char>, Seq<char>)>) -> AcvChn {
    AcvChn {
        ua_idx: attr_count(fs, "ua_idx"@) as usize,
        ub_idx: attr_count(fs, "ub_idx"@) as usize,
        uc_idx: attr_count(fs, "uc_idx"@) as usize,
        un_idx: attr_count(fs, "un_idx"@) as usize,
        ul_idx: attr_count(fs, "ul_idx"@) as usize,
    }
}

/// Reads the voltage channels of an `ACVChn` element.
pub fn parse_acv_attrs(attrs: &[(String, String)]) -> (r: AcvChn)
    ensures
        r == acv_of_attrs(fields_view(attrs@)),
{
    AcvChn {
        ua_idx: attr_usize(attrs, "ua_idx"),
        ub_idx: attr_usize(attrs, "ub_idx"),
        uc_idx: attr_usize(attrs, "uc_idx"),
        un_idx: attr_usize(attrs, "un_idx"),
        ul_idx: attr_usize(attrs, "ul_idx"),
    }
}

/// Reads a current branch of an `ACC_Bran` element: channels by name, the direction both
/// normalised and as written.
pub fn parse_acc_attrs(attrs: &[(String, String)]) -> (r: AccBran)
    ensures
        ({
            let fs = fields_view(attrs@);
            &&& r.bran_idx == attr_count(fs, "bran_idx"@)
            &&& r.ia_idx == attr_count(fs, "ia_idx"@)
            &&& r.ib_idx == attr_count(fs, "ib_idx"@)
            &&& r.ic_idx == attr_count(fs, "ic_idx"@)
            &&& r.in_idx == attr_count(fs, "in_idx"@)
            &&& r.dir_raw@ == attr_text(fs, "dir"@)
            &&& r.dir == dir_of_text(attr_text(fs, "dir"@))
        }),
{
    let dir_raw = attr_str(attrs, "dir");
    AccBran {
        bran_idx: attr_usize(attrs, "bran_idx"),
        ia_idx: attr_usize(attrs, "ia_idx"),
        ib_idx: attr_usize(attrs, "ib_idx"),
        ic_idx: attr_usize(attrs, "ic_idx"),
        in_idx: attr_usize(attrs, "in_idx"),
        dir: parse_dir(dir_raw.as_str()),
        dir_raw,
    }
}

/// A count read from the first of two attribute names that is present.
pub open spec fn count_either(fs: Seq<(Seq<char>, Seq<char>)>, a: Seq<char>, b: Seq<char>) -> nat {
    match attr_value(fs, a) {
        Some(v) => uint_or_zero(trim(v), usize::MAX as nat),
        None => attr_count(fs, b),
    }
}

/// The gap channels that the attributes of an `Igap` element name; the spellings
/// `zgap_idx`/`zsgap_idx` come before `zGap_idx`/`zSGap_idx`.
pub open spec fn igap_of_attrs(fs: Seq<(Seq<char>, Seq<char>)>) -> Igap {
    Igap {
        zgap_idx: count_either(fs, "zgap_idx"@, "zGap_idx"@) as usize,
        zsgap_idx: count_either(fs, "zsgap_idx"@, "zSGap_idx"@) as usize,
    }
}

fn attr_usize_either(attrs: &[(String, String)], a: &str, b: &str) -> (r: usize)
    ensures
        r == count_either(fields_view(attrs@), a@, b@),
{
    match attr(attrs, a) {
        Some(_) => attr_usize(attrs, a),
        None => attr_usize(attrs, b),
    }
}

/// Reads the gap channels of an `Igap` element.
pub fn parse_igap_attrs(attrs: &[(String, String)]) -> (r: Igap)
    ensures
        r == igap_of_attrs(fields_view(attrs@)),
{
    Igap {
        zgap_idx: attr_usize_either(attrs, "zgap_idx", "zGap_idx"),
        zsgap_idx: attr_usize_either(attrs, "zsgap_idx", "zSGap_idx"),
    }
}


/// The value of the last attribute named `key`.
pub open spec fn last_attr_value(fs: Seq<(Seq<char>, Seq<char>)>, key: Seq<char>) -> Option<
    Seq<char>,
>
    decreases fs.len(),
{
    if fs.len() == 0 {
        None
    } else if fs.last().0 == key {
        Some(fs.last().1)
    } else {
        last_attr_value(fs.drop_last(), key)
    }
}

/// The last attribute named `key` read as a count (its value untrimmed), 0 when missing or
/// not a number.
pub open spec fn last_count(fs: Seq<(Seq<char>, Seq<char>)>, key: Seq<char>) -> nat {
    match last_attr_value(fs, key) {
        Some(v) => uint_or_zero(v, usize::MAX as nat),
        None => 0,
    }
}

/// The last attribute named `key` as text, empty when missing.
pub open spec fn last_text(fs: Seq<(Seq<char>, Seq<char>)>, key: Seq<char>) -> Seq<char> {
    match last_attr_value(fs, key) {
        Some(v) => v,
        None => seq![],
    }
}

/// What the attributes of a `StatusChannel` element give, each field from the last
/// attribute of its name.
pub open spec fn status_attrs_ok(fs: Seq<(Seq<char>, Seq<char>)>, c: DmfStatusChannel) -> bool {
    &&& c.idx_cfg == last_count(fs, "idx_cfg"@)
    &&& c.idx_org == last_count(fs, "idx_org"@)
    &&& c.ch_type@ == last_text(fs, "type"@)
    &&& c.flag@ == last_text(fs, "flag"@)
    &&& c.contact@ == last_text(fs, "contact"@)
    &&& c.src_ref@ == last_text(fs, "srcRef"@)
}

pub proof fn lemma_status_keys_distinct()
    ensures
        "idx_cfg"@ != "idx_org"@,
        "idx_cfg"@ != "type"@,
        "idx_cfg"@ != "flag"@,
        "idx_cfg"@ != "contact"@,
        "idx_cfg"@ != "srcRef"@,
        "idx_org"@ != "type"@,
        "idx_org"@ != "flag"@,
        "idx_org"@ != "contact"@,
        "idx_org"@ != "srcRef"@,
        "type"@ != "flag"@,
        "type"@ != "contact"@,
        "type"@ != "srcRef"@,
        "flag"@ != "contact"@,
        "flag"@ != "srcRef"@,
        "contact"@ != "srcRef"@,
{
    reveal_strlit("idx_cfg");
    reveal_strlit("idx_org");
    reveal_strlit("type");
    reveal_strlit("flag");
    reveal_strlit("contact");
    reveal_strlit("srcRef");
    assert("idx_cfg"@[4] != "idx_org"@[4]);
    assert("type"@[0] != "flag"@[0]);
    assert("contact"@.len() != "srcRef"@.len());
    assert("type"@[0] != "srcRef"@[0]);
    assert("flag"@[0] != "srcRef"@[0]);
    assert("type"@[0] != "contact"@[0]);
    assert("flag"@[0] != "contact"@[0]);
}

fn count_of(v: &str) -> (r: usize)
    ensures
        r == uint_or_zero(v@, usize::MAX as nat),
{
    let cs = str_chars(v);
    match parse_uint_chars(cs.as_slice(), usize::MAX as u64) {
        Some(x) => x as usize,
        None => 0,
    }
}

/// Reads a status channel from the attributes of a `StatusChannel` element: `idx_cfg`,
/// `idx_org` (numbers, 0 when not one), `type`, `flag`, `contact`, `srcRef`; other names
/// are ignored.
pub fn parse_status_attrs(attrs: &[(String, String)]) -> (r: DmfStatusChannel)
    ensures
        status_attrs_ok(fields_view(attrs@), r),
{
    let ghost fs = fields_view(attrs@);
    let mut ch = DmfStatusChannel {
        idx_cfg: 0,
        idx_org: 0,
        ch_type: String::new(),
        flag: String::new(),
        contact: String::new(),
        src_ref: String::new(),
    };
    let mut i: usize = 0;
    while i < attrs.len()
        invariant
            i <= attrs@.len(),
            fs == fields_view(attrs@),
            status_attrs_ok(fs.take(i as int), ch),
        decreases attrs.len() - i,
    {
        let k = str_chars(attrs[i].0.as_str());
        let value = attrs[i].1.as_str();
        assert(fs.take(i + 1).drop_last() =~= fs.take(i as int));
        assert(fs.take(i + 1).last() == fs[i as int]);
        proof {
            lemma_status_keys_distinct();
        }
        if chars_eq_str(k.as_slice(), "idx_cfg") {
            ch.idx_cfg = count_of(value);
        } else if chars_eq_str(k.as_slice(), "idx_org") {
            ch.idx_org = count_of(value);
        } else if chars_eq_str(k.as_slice(), "type") {
            ch.ch_type = string_of(value);
        } else if chars_eq_str(k.as_slice(), "flag") {
            ch.flag = string_of(value);
        } else if chars_eq_str(k.as_slice(), "contact") {
            ch.contact = string_of(value);
        } else if chars_eq_str(k.as_slice(), "srcRef") {
            ch.src_ref = string_of(value);
        }
        i = i + 1;
    }
    assert(fs.take(attrs@.len() as int) =~= fs);
    ch
}

/// The channel that a reference element (`AnaChn`, `StaChn`, …) names: its `idx_cfg`,
/// none when that is 0 or missing.
pub fn channel_ref(e: &crate::dmf::tree::Element) -> (r: Option<usize>)
    ensures
        ({
            let n = attr_count(e@.1, "idx_cfg"@);
            &&& n > 0 ==> r == Some(n as usize)
            &&& n == 0 ==> r is None
        }),
{
    let idx = attr_usize(&e.attrs, "idx_cfg");
    if idx > 0 {
        Some(idx)
    } else {
        None
    }
}

/// The current branches of a generator, by the `bran_idx` of their `ACC_Bran` element.
#[derive(Debug, Clone, Copy, PartialEq, Eq, Structural)]
pub enum GeneratorBranch {
    /// Terminal branch (`bran_idx` 0 or 1).
    Terminal,
    /// First neutral branch (2).
    Neutral1,
    /// Second neutral branch (3).
    Neutral2,
    /// Third neutral branch (4).
    Neutral3,
}

/// Which generator branch an `ACC_Bran` with `bran_idx` fills; none above 4.
pub fn generator_branch(bran_idx: usize) -> (r: Option<GeneratorBranch>)
    ensures
        r == if bran_idx <= 1 {
            Some(GeneratorBranch::Terminal)
        } else if bran_idx == 2 {
            Some(GeneratorBranch::Neutral1)
        } else if bran_idx == 3 {
            Some(GeneratorBranch::Neutral2)
        } else if bran_idx == 4 {
            Some(GeneratorBranch::Neutral3)
        } else {
            None::<GeneratorBranch>
        },
{
    match bran_idx {
        0 | 1 => Some(GeneratorBranch::Terminal),
        2 => Some(GeneratorBranch::Neutral1),
        3 => Some(GeneratorBranch::Neutral2),
        4 => Some(GeneratorBranch::Neutral3),
        _ => None,
    }
}

/// The current branches of an exciter, by the `bran_idx` of their `ACC_Bran` element.
#[derive(Debug, Clone, Copy, PartialEq, Eq, Structural)]
pub enum ExciterBranch {
    /// Terminal branch (`bran_idx` 0 or 1).
    Terminal,
    /// Neutral branch (2).
    Neutral,
}

/// Which exciter branch an `ACC_Bran` with `bran_idx` fills; none above 2.
pub fn exciter_branch(bran_idx: usize) -> (r: Option<ExciterBranch>)
    ensures
        r == if bran_idx <= 1 {
            Some(ExciterBranch::Terminal)
        } else if bran_idx == 2 {
            Some(ExciterBranch::Neutral)
        } else {
            None::<ExciterBranch>
        },
{
    match bran_idx {
        0 | 1 => Some(ExciterBranch::Terminal),
        2 => Some(ExciterBranch::Neutral),
        _ => None,
    }
}

} // verus!

