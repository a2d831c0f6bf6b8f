//! Reading channel groups out of information-file values, and writing them back; building
//! the status-channel section and parameter line.

use vstd::prelude::*;

use super::number::{
    lemma_number_index_dec, number_index, number_index_chars, number_is_negative_chars,
    number_negative, number_text,
};
use super::{fields_view, kind_view, sec_state, Section, SectionKind};
use crate::cfg::channel::{lemma_dec_plain_field, plain_field, push_str, StatusChannel};
use crate::equipment::{AccBran, AcvChn, BranchNum, UfeChns, UnChns, WindingLocation};
use crate::text::{
    chars_to_string, dec, field_copy, field_or_empty, find_char, first_index_of, is_ws,
    lemma_first_index_of, parse_uint, parse_uint_chars, push_dec, slice_chars, split,
    split_chars, split_trimmed, str_chars, string_of, trim, trim_chars, trimmed_fields, views,
};

verus! {

/// The channel numbers of comma-separated fields `fs` (already trimmed): empty fields and
/// fields that are no number are skipped.
pub open spec fn num_list(fs: Seq<Seq<char>>) -> Seq<usize>
    decreases fs.len(),
{
    if fs.len() == 0 {
        Seq::empty()
    } else {
        let pre = num_list(fs.drop_last());
        let t = fs.last();
        if t.len() == 0 {
            pre
        } else {
            match number_index(t) {
                Some(v) => pre.push(v as usize),
                None => pre,
            }
        }
    }
}

/// The channel numbers of a list such as `41, 42, 43, 0, 1`, in order.
pub open spec fn number_list(s: Seq<char>) -> Seq<usize> {
    num_list(trimmed_fields(s, ','))
}

/// The `i`-th number, or 0 where there is none.
pub open spec fn at_or_zero(v: Seq<usize>, i: int) -> usize {
    if 0 <= i < v.len() {
        v[i]
    } else {
        0
    }
}

/// The channel number of field `i` of `fs`, 0 where it is missing or no number.
pub open spec fn field_number(fs: Seq<Seq<char>>, i: int) -> usize {
    if 0 <= i < fs.len() {
        match number_index(fs[i]) {
            Some(v) => v as usize,
            None => 0,
        }
    } else {
        0
    }
}

/// A direction or polarity field: `-1` for a negative number, `1` for anything else or
/// for no field at all.
pub open spec fn dir_value(o: Option<Seq<char>>) -> i32 {
    match o {
        Some(t) => if trim(t).len() > 0 && number_negative(number_text(t)) {
            -1i32
        } else {
            1i32
        },
        None => 1i32,
    }
}

/// Field `i` of `fs`, if there is one.
pub open spec fn field_opt(fs: Seq<Seq<char>>, i: int) -> Option<Seq<char>> {
    if 0 <= i < fs.len() {
        Some(fs[i])
    } else {
        None
    }
}

/// Reads a list of channel numbers, keeping zeros and order (see `number_list`).
pub fn parse_num_list(s: &str) -> (r: Vec<usize>)
    ensures
        r@ == number_list(s@),
{
    let cs = str_chars(s);
    let parts = split_trimmed(cs.as_slice(), ',');
    let ghost fs = views(parts@);
    let mut out: Vec<usize> = Vec::new();
    let mut k: usize = 0;
    assert(fs.take(0) =~= Seq::<Seq<char>>::empty());
    while k < parts.len()
        invariant
            k <= parts@.len(),
            fs == views(parts@),
            fs == trimmed_fields(s@, ','),
            out@ == num_list(fs.take(k as int)),
        decreases parts.len() - k,
    {
        assert(fs.take(k as int + 1).drop_last() =~= fs.take(k as int));
        assert(fs.take(k as int + 1).last() == parts@[k as int]@);
        let p = parts[k].as_slice();
        if p.len() > 0 {
            match number_index_chars(p) {
                Some(v) => {
                    out.push(v);
                },
                None => {},
            }
        }
        k = k + 1;
    }
    assert(fs.take(k as int) =~= fs);
    out
}

/// Reads a voltage channel group `Ua,Ub,Uc,Un[,Ul]`; missing channels are 0.
pub fn parse_acv(s: &str) -> (r: AcvChn)
    ensures
        r.ua_idx == at_or_zero(number_list(s@), 0),
        r.ub_idx == at_or_zero(number_list(s@), 1),
        r.uc_idx == at_or_zero(number_list(s@), 2),
        r.un_idx == at_or_zero(number_list(s@), 3),
        r.ul_idx == at_or_zero(number_list(s@), 4),
{
    let v = parse_num_list(s);
    AcvChn {
        ua_idx: vec_at_or_zero(&v, 0),
        ub_idx: vec_at_or_zero(&v, 1),
        uc_idx: vec_at_or_zero(&v, 2),
        un_idx: vec_at_or_zero(&v, 3),
        ul_idx: vec_at_or_zero(&v, 4),
    }
}

fn vec_at_or_zero(v: &Vec<usize>, i: usize) -> (r: usize)
    ensures
        r == at_or_zero(v@, i as int),
{
    if i < v.len() {
        v[i]
    } else {
        0
    }
}

pub(crate) fn fields_number(parts: &Vec<Vec<char>>, i: usize) -> (r: usize)
    ensures
        r == field_number(views(parts@), i as int),
{
    if i < parts.len() {
        proof {
            assert(views(parts@)[i as int] == parts@[i as int]@);
        }
        match number_index_chars(parts[i].as_slice()) {
            Some(v) => v,
            None => 0,
        }
    } else {
        0
    }
}

/// Reads a direction or polarity field (see `dir_value`).
pub fn parse_dir_field(raw: Option<&str>) -> (r: i32)
    ensures
        r == dir_value(
            match raw {
                Some(s) => Some(s@),
                None => None,
            },
        ),
{
    match raw {
        Some(s) => {
            let cs = str_chars(s);
            let t = trim_chars(cs.as_slice());
            if t.len() > 0 && number_is_negative_chars(cs.as_slice()) {
                -1
            } else {
                1
            }
        },
        None => 1,
    }
}

fn fields_dir(parts: &Vec<Vec<char>>, i: usize) -> (r: (i32, String))
    ensures
        r.0 == dir_value(field_opt(views(parts@), i as int)),
        r.1@ == field_or_empty(views(parts@), i as int),
{
    if i < parts.len() {
        proof {
            assert(views(parts@)[i as int] == parts@[i as int]@);
        }
        let s = chars_to_string(parts[i].as_slice());
        let d = parse_dir_field(Some(s.as_str()));
        (d, s)
    } else {
        (1, String::new())
    }
}

/// Reads a line branch `Ia,Ib,Ic,Io[,DIR]`: four current channels, then an optional
/// direction (`-1` backwards, anything else forwards).
pub fn parse_line_ta(s: &str, bran_idx: usize) -> (r: AccBran)
    ensures
        ({
            let fs = trimmed_fields(s@, ',');
            &&& r.bran_idx == bran_idx
            &&& r.ia_idx == field_number(fs, 0)
            &&& r.ib_idx == field_number(fs, 1)
            &&& r.ic_idx == field_number(fs, 2)
            &&& r.in_idx == field_number(fs, 3)
            &&& r.dir == dir_value(field_opt(fs, 4))
            &&& r.dir_raw@ == field_or_empty(fs, 4)
        }),
{
    let cs = str_chars(s);
    let parts = split_trimmed(cs.as_slice(), ',');
    let (dir, dir_raw) = fields_dir(&parts, 4);
    AccBran {
        bran_idx,
        ia_idx: fields_number(&parts, 0),
        ib_idx: fields_number(&parts, 1),
        ic_idx: fields_number(&parts, 2),
        in_idx: fields_number(&parts, 3),
        dir,
        dir_raw,
    }
}

/// Reads a transformer branch `Ia,Ib,Ic,polarity`: three current channels, no neutral
/// channel, then the polarity (`-1` out of the transformer, anything else into it).
pub fn parse_transformer_ta(s: &str, bran_idx: usize) -> (r: AccBran)
    ensures
        ({
            let fs = trimmed_fields(s@, ',');
            &&& r.bran_idx == bran_idx
            &&& r.ia_idx == field_number(fs, 0)
            &&& r.ib_idx == field_number(fs, 1)
            &&& r.ic_idx == field_number(fs, 2)
            &&& r.in_idx == 0
            &&& r.dir == dir_value(field_opt(fs, 3))
            &&& r.dir_raw@ == field_or_empty(fs, 3)
        }),
{
    let cs = str_chars(s);
    let parts = split_trimmed(cs.as_slice(), ',');
    let (dir, dir_raw) = fields_dir(&parts, 3);
    AccBran {
        bran_idx,
        ia_idx: fields_number(&parts, 0),
        ib_idx: fields_number(&parts, 1),
        ic_idx: fields_number(&parts, 2),
        in_idx: 0,
        dir,
        dir_raw,
    }
}

/// Number and name of a `DEV_ID=idx,name` value. The value is cut at its first comma; the
/// number falls back to `fallback` when it is missing, not a number, or 0. Without a comma
/// the whole trimmed value is the number when it is a positive number, else the name.
pub open spec fn dev_id_of(raw: Seq<char>, fallback: nat) -> (nat, Seq<char>) {
    match first_index_of(raw, ',') {
        Some(p) => (
            match parse_uint(trim(raw.take(p)), usize::MAX as nat) {
                Some(v) => if v > 0 {
                    v
                } else {
                    fallback
                },
                None => fallback,
            },
            trim(raw.skip(p + 1)),
        ),
        None => match parse_uint(trim(raw), usize::MAX as nat) {
            Some(v) => if v > 0 {
                (v, Seq::<char>::empty())
            } else {
                (fallback, trim(raw))
            },
            None => (fallback, trim(raw)),
        },
    }
}

/// Reads a `DEV_ID=idx,name` value (see `dev_id_of`).
pub fn split_dev_id(raw: &str, fallback_idx: usize) -> (r: (usize, String))
    ensures
        (r.0 as nat, r.1@) == dev_id_of(raw@, fallback_idx as nat),
{
    let cs = str_chars(raw);
    let n = cs.len();
    match find_char(cs.as_slice(), ',') {
        Some(p) => {
            proof {
                lemma_first_index_of(cs@, ',');
            }
            let a = slice_chars(cs.as_slice(), 0, p);
            let b = slice_chars(cs.as_slice(), p + 1, n);
            assert(a@ =~= raw@.take(p as int));
            assert(b@ =~= raw@.skip(p as int + 1));
            let at = trim_chars(a.as_slice());
            let idx = match parse_uint_chars(at.as_slice(), usize::MAX as u64) {
                Some(v) => if v > 0 {
                    v as usize
                } else {
                    fallback_idx
                },
                None => fallback_idx,
            };
            let bt = trim_chars(b.as_slice());
            (idx, chars_to_string(bt.as_slice()))
        },
        None => {
            let t = trim_chars(cs.as_slice());
            match parse_uint_chars(t.as_slice(), usize::MAX as u64) {
                Some(v) => if v > 0 {
                    (v as usize, String::new())
                } else {
                    (fallback_idx, chars_to_string(t.as_slice()))
                },
                None => (fallback_idx, chars_to_string(t.as_slice())),
            }
        },
    }
}

/// The winding sides a transformer with `winding_num` windings has: high, medium and low
/// for three; high and low otherwise (two windings, and autotransformers for now).
pub open spec fn layout_of(winding_num: nat) -> Seq<WindingLocation> {
    if winding_num == 3 {
        seq![WindingLocation::High, WindingLocation::Medium, WindingLocation::Low]
    } else {
        seq![WindingLocation::High, WindingLocation::Low]
    }
}

/// The winding sides of a transformer (see `layout_of`).
pub fn winding_layout(winding_num: usize) -> (r: &'static [WindingLocation])
    ensures
        r@ == layout_of(winding_num as nat),
{
    if winding_num == 3 {
        let a: &'static [WindingLocation; 3] = &[
            WindingLocation::High,
            WindingLocation::Medium,
            WindingLocation::Low,
        ];
        assert(a@ =~= seq![WindingLocation::High, WindingLocation::Medium, WindingLocation::Low]);
        a
    } else {
        let a: &'static [WindingLocation; 2] = &[WindingLocation::High, WindingLocation::Low];
        assert(a@ =~= seq![WindingLocation::High, WindingLocation::Low]);
        a
    }
}

/// The first `n` channel numbers of a comma-separated value, each field read on its own
/// (0 where a field is missing or no number); all 0 without a value.
pub open spec fn tuple_values(o: Option<Seq<char>>, n: nat) -> Seq<usize> {
    Seq::new(
        n,
        |i: int|
            match o {
                Some(t) => field_number(split(t, ','), i),
                None => 0,
            },
    )
}

/// Reads the first `n` channel numbers of a value (see `tuple_values`).
pub fn parse_tuple_usize(s: Option<&str>, n: usize) -> (r: Vec<usize>)
    ensures
        r@ == tuple_values(
            match s {
                Some(t) => Some(t@),
                None => None,
            },
            n as nat,
        ),
{
    let ghost o: Option<Seq<char>> = match s {
        Some(t) => Some(t@),
        None => None,
    };
    let parts: Vec<Vec<char>> = match s {
        Some(t) => {
            let cs = str_chars(t);
            split_chars(cs.as_slice(), ',')
        },
        None => Vec::new(),
    };
    let mut out: Vec<usize> = Vec::new();
    let mut i: usize = 0;
    while i < n
        invariant
            i <= n,
            o is Some ==> views(parts@) == split(o->0, ','),
            o is None ==> parts@.len() == 0,
            s.is_some() == (o is Some),
            out@.len() == i,
            forall|j: int| 0 <= j < i ==> out@[j] == tuple_values(o, n as nat)[j],
        decreases n - i,
    {
        let v = if s.is_some() {
            fields_number(&parts, i)
        } else {
            0
        };
        assert(v == tuple_values(o, n as nat)[i as int]);
        out.push(v);
        i = i + 1;
    }
    assert(out@ =~= tuple_values(o, n as nat));
    out
}

/// Reads `BRANCH_NUM=z1, z2, z3`.
pub fn parse_branch_num(s: Option<&str>) -> (r: BranchNum)
    ensures
        ({
            let v = tuple_values(
                match s {
                    Some(t) => Some(t@),
                    None => None,
                },
                3,
            );
            r.z1 == v[0] && r.z2 == v[1] && r.z3 == v[2]
        }),
{
    let v = parse_tuple_usize(s, 3);
    BranchNum { z1: v[0], z2: v[1], z3: v[2] }
}

/// Reads `Ufe_CHNS=Ufe, +Ufe, -Ufe`.
pub fn parse_ufe_chns(s: Option<&str>) -> (r: UfeChns)
    ensures
        ({
            let v = tuple_values(
                match s {
                    Some(t) => Some(t@),
                    None => None,
                },
                3,
            );
            r.ufe == v[0] && r.pos == v[1] && r.neg == v[2]
        }),
{
    let v = parse_tuple_usize(s, 3);
    UfeChns { ufe: v[0], pos: v[1], neg: v[2] }
}

/// Reads `UN_CHNS=terminal, neutral, longitudinal`.
pub fn parse_un_chns(s: Option<&str>) -> (r: UnChns)
    ensures
        ({
            let v = tuple_values(
                match s {
                    Some(t) => Some(t@),
                    None => None,
                },
                3,
            );
            r.terminal == v[0] && r.neutral == v[1] && r.longitudinal == v[2]
        }),
{
    let v = parse_tuple_usize(s, 3);
    UnChns { terminal: v[0], neutral: v[1], longitudinal: v[2] }
}

} // verus!

verus! {

/// Channel numbers joined by `", "`.
pub open spec fn list_text(v: Seq<usize>) -> Seq<char>
    decreases v.len(),
{
    if v.len() == 0 {
        Seq::empty()
    } else if v.len() == 1 {
        dec(v[0] as nat)
    } else {
        list_text(v.drop_last()) + seq![',', ' '] + dec(v.last() as nat)
    }
}

/// Decimal form of a signed number.
pub open spec fn idec(x: int) -> Seq<char> {
    if x < 0 {
        seq!['-'] + dec((-x) as nat)
    } else {
        dec(x as nat)
    }
}

fn push_idec(out: &mut Vec<char>, x: i32)
    ensures
        final(out)@ == old(out)@ + idec(x as int),
{
    if x < 0 {
        out.push('-');
        let m: i64 = -(x as i64);
        push_dec(out, m as u64);
        assert(final(out)@ =~= old(out)@ + idec(x as int));
    } else {
        push_dec(out, x as u64);
    }
}

/// Writes channel numbers joined by `", "` (see `list_text`).
pub fn fmt_num_list(idxs: &[usize]) -> (r: String)
    ensures
        r@ == list_text(idxs@),
{
    let mut out: Vec<char> = Vec::new();
    let mut i: usize = 0;
    assert(idxs@.take(0) =~= Seq::<usize>::empty());
    while i < idxs.len()
        invariant
            i <= idxs@.len(),
            out@ == list_text(idxs@.take(i as int)),
        decreases idxs.len() - i,
    {
        let ghost pre = idxs@.take(i as int);
        assert(idxs@.take(i as int + 1).drop_last() =~= pre);
        assert(idxs@.take(i as int + 1).last() == idxs@[i as int]);
        if i > 0 {
            out.push(',');
            out.push(' ');
        }
        push_dec(&mut out, idxs[i] as u64);
        proof {
            if i == 0 {
                assert(out@ =~= dec(idxs@[0] as nat));
            } else {
                assert(out@ =~= list_text(pre) + seq![',', ' '] + dec(idxs@[i as int] as nat));
            }
        }
        i = i + 1;
    }
    assert(idxs@.take(i as int) =~= idxs@);
    chars_to_string(out.as_slice())
}

/// Writes `DEV_ID=idx,name`'s value.
pub fn fmt_dev_id(idx: usize, name: &str) -> (r: String)
    ensures
        r@ == dec(idx as nat) + seq![','] + name@,
{
    let mut out: Vec<char> = Vec::new();
    push_dec(&mut out, idx as u64);
    out.push(',');
    push_str(&mut out, name);
    assert(out@ =~= dec(idx as nat) + seq![','] + name@);
    chars_to_string(out.as_slice())
}

/// Writes a voltage group as `Ua, Ub, Uc, Un` (the line-voltage channel is not written).
pub fn fmt_acv(acv: &AcvChn) -> (r: String)
    ensures
        r@ == list_text(seq![acv.ua_idx, acv.ub_idx, acv.uc_idx, acv.un_idx]),
{
    let v: Vec<usize> = vec![acv.ua_idx, acv.ub_idx, acv.uc_idx, acv.un_idx];
    assert(v@ =~= seq![acv.ua_idx, acv.ub_idx, acv.uc_idx, acv.un_idx]);
    fmt_num_list(v.as_slice())
}

/// Writes a generator terminal voltage group as `Ua, Ub, Uc`.
pub fn fmt_acv3(acv: &AcvChn) -> (r: String)
    ensures
        r@ == list_text(seq![acv.ua_idx, acv.ub_idx, acv.uc_idx]),
{
    let v: Vec<usize> = vec![acv.ua_idx, acv.ub_idx, acv.uc_idx];
    assert(v@ =~= seq![acv.ua_idx, acv.ub_idx, acv.uc_idx]);
    fmt_num_list(v.as_slice())
}

/// The text of a polarity branch: `Ia, Ib, Ic, polarity`.
pub open spec fn polarity_text(b: AccBran) -> Seq<char> {
    list_text(seq![b.ia_idx, b.ib_idx, b.ic_idx]) + seq![',', ' '] + idec(b.dir as int)
}

/// Writes a branch as `Ia, Ib, Ic, polarity` (transformer sides, generators, exciters).
pub fn fmt_acc_polarity(bran: &AccBran) -> (r: String)
    ensures
        r@ == polarity_text(*bran),
{
    let v: Vec<usize> = vec![bran.ia_idx, bran.ib_idx, bran.ic_idx];
    assert(v@ =~= seq![bran.ia_idx, bran.ib_idx, bran.ic_idx]);
    let head = fmt_num_list(v.as_slice());
    let mut out: Vec<char> = Vec::new();
    push_str(&mut out, head.as_str());
    out.push(',');
    out.push(' ');
    push_idec(&mut out, bran.dir);
    assert(out@ =~= polarity_text(*bran));
    chars_to_string(out.as_slice())
}

/// Writes `BRANCH_NUM=z1, z2, z3`'s value.
pub fn fmt_branch_num(b: &BranchNum) -> (r: String)
    ensures
        r@ == list_text(seq![b.z1, b.z2, b.z3]),
{
    let v: Vec<usize> = vec![b.z1, b.z2, b.z3];
    assert(v@ =~= seq![b.z1, b.z2, b.z3]);
    fmt_num_list(v.as_slice())
}

/// Writes `Ufe_CHNS=Ufe, +Ufe, -Ufe`'s value.
pub fn fmt_ufe_chns(u: &UfeChns) -> (r: String)
    ensures
        r@ == list_text(seq![u.ufe, u.pos, u.neg]),
{
    let v: Vec<usize> = vec![u.ufe, u.pos, u.neg];
    assert(v@ =~= seq![u.ufe, u.pos, u.neg]);
    fmt_num_list(v.as_slice())
}

/// Writes `UN_CHNS=terminal, neutral, longitudinal`'s value.
pub fn fmt_un_chns(u: &UnChns) -> (r: String)
    ensures
        r@ == list_text(seq![u.terminal, u.neutral, u.longitudinal]),
{
    let v: Vec<usize> = vec![u.terminal, u.neutral, u.longitudinal];
    assert(v@ =~= seq![u.terminal, u.neutral, u.longitudinal]);
    fmt_num_list(v.as_slice())
}

} // verus!

verus! {

/// The pieces that splitting a written list at its commas gives: the first number, then
/// each further number after a space.
pub open spec fn list_pieces(v: Seq<usize>) -> Seq<Seq<char>> {
    Seq::new(
        v.len(),
        |i: int|
            if i == 0 {
                dec(v[0] as nat)
            } else {
                seq![' '] + dec(v[i] as nat)
            },
    )
}

proof fn lemma_piece_plain(v: nat, lead: bool)
    ensures
        !(if lead {
            seq![' '] + dec(v)
        } else {
            dec(v)
        }).contains(','),
        trim(
            if lead {
                seq![' '] + dec(v)
            } else {
                dec(v)
            },
        ) == dec(v),
{
    lemma_dec_plain_field(v);
    let d = dec(v);
    if lead {
        let p = seq![' '] + d;
        assert(!p.contains(',')) by {
            if p.contains(',') {
                let i = choose|i: int| 0 <= i < p.len() && p[i] == ',';
                assert(d[i - 1] == ',');
                assert(d.contains(','));
            }
        }
        assert(p.drop_first() =~= d);
        crate::text::lemma_trimmed_ends(d);
        assert(crate::text::trim_start(p) == crate::text::trim_start(d));
    }
}

/// Splitting a written list at its commas gives its pieces.
proof fn lemma_split_list_text(v: Seq<usize>)
    requires
        v.len() > 0,
    ensures
        split(list_text(v), ',') == list_pieces(v),
    decreases v.len(),
{
    if v.len() == 1 {
        lemma_piece_plain(v[0] as nat, false);
        crate::text::lemma_split_no_sep(dec(v[0] as nat), ',');
        assert(list_pieces(v) =~= seq![dec(v[0] as nat)]);
    } else {
        let dl = v.drop_last();
        lemma_split_list_text(dl);
        let last = seq![' '] + dec(v.last() as nat);
        lemma_piece_plain(v.last() as nat, true);
        assert(list_text(v) =~= list_text(dl) + seq![','] + last);
        crate::text::lemma_split_push_piece(list_text(dl), ',', last);
        assert(list_pieces(v) =~= list_pieces(dl).push(last));
    }
}

proof fn lemma_num_list_decs(fs: Seq<Seq<char>>, v: Seq<usize>)
    requires
        fs.len() == v.len(),
        forall|i: int| 0 <= i < v.len() ==> #[trigger] fs[i] == dec(v[i] as nat),
    ensures
        num_list(fs) == v,
    decreases v.len(),
{
    if v.len() > 0 {
        lemma_num_list_decs(fs.drop_last(), v.drop_last());
        let x = v.last() as nat;
        assert(fs.last() == dec(x));
        lemma_number_index_dec(x);
        crate::text::lemma_dec_digits(x);
        assert(v.drop_last().push(v.last()) =~= v);
    } else {
        assert(v =~= Seq::<usize>::empty());
    }
}

/// Reading back a written list of channel numbers gives the same numbers, zeros and order
/// kept.
pub proof fn lemma_num_list_round_trip(v: Seq<usize>)
    ensures
        number_list(list_text(v)) == v,
{
    if v.len() == 0 {
        assert(list_text(v) =~= Seq::<char>::empty());
        let fs = trimmed_fields(list_text(v), ',');
        assert(split(Seq::<char>::empty(), ',') =~= seq![Seq::<char>::empty()]);
        assert(fs =~= seq![trim(Seq::<char>::empty())]);
        assert(trim(Seq::<char>::empty()) =~= Seq::<char>::empty());
        assert(fs.drop_last() =~= Seq::<Seq<char>>::empty());
        assert(num_list(fs.drop_last()) =~= Seq::<usize>::empty());
        assert(fs.last().len() == 0);
        assert(v =~= Seq::<usize>::empty());
    } else {
        lemma_split_list_text(v);
        let fs = trimmed_fields(list_text(v), ',');
        assert(fs.len() == v.len());
        assert forall|i: int| 0 <= i < v.len() implies #[trigger] fs[i] == dec(v[i] as nat) by {
            lemma_piece_plain(v[i] as nat, i > 0);
            assert(fs[i] == trim(list_pieces(v)[i]));
        }
        lemma_num_list_decs(fs, v);
    }
}

/// Reading back a written voltage group gives it, when it has no line-voltage channel
/// (that channel is not written).
pub proof fn lemma_acv_round_trip(a: AcvChn)
    requires
        a.ul_idx == 0,
    ensures
        ({
            let l = number_list(list_text(seq![a.ua_idx, a.ub_idx, a.uc_idx, a.un_idx]));
            &&& at_or_zero(l, 0) == a.ua_idx
            &&& at_or_zero(l, 1) == a.ub_idx
            &&& at_or_zero(l, 2) == a.uc_idx
            &&& at_or_zero(l, 3) == a.un_idx
            &&& at_or_zero(l, 4) == a.ul_idx
        }),
{
    lemma_num_list_round_trip(seq![a.ua_idx, a.ub_idx, a.uc_idx, a.un_idx]);
}

/// Reading back the first numbers of a written list gives them.
pub proof fn lemma_tuple_round_trip(v: Seq<usize>)
    requires
        v.len() > 0,
    ensures
        tuple_values(Some(list_text(v)), v.len()) == v,
{
    lemma_split_list_text(v);
    let ps = split(list_text(v), ',');
    assert forall|i: int| 0 <= i < v.len() implies #[trigger] tuple_values(
        Some(list_text(v)),
        v.len(),
    )[i] == v[i] by {
        lemma_piece_plain(v[i] as nat, i > 0);
        lemma_number_index_dec(v[i] as nat);
        lemma_dec_plain_field(v[i] as nat);
        assert(ps[i] == list_pieces(v)[i]);
        assert(trim(ps[i]) == trim(dec(v[i] as nat)));
        assert(number_text(ps[i]) == number_text(dec(v[i] as nat)));
        assert(field_number(ps, i) == v[i]);
    }
    assert(tuple_values(Some(list_text(v)), v.len()) =~= v);
}

proof fn lemma_minus_one_negative()
    ensures
        trim(idec(-1)).len() > 0,
        number_negative(number_text(idec(-1))),
{
    let s = idec(-1);
    crate::text::lemma_dec_digits(1);
    assert(dec(1) =~= seq!['1']) by {
        crate::text::lemma_digit_char(1);
    }
    assert(s =~= seq!['-', '1']);
    assert(trim(s) == s) by {
        crate::text::lemma_trim_noop(s);
    }
    assert(super::number::scan_from(s, 2, false, false) == 2);
    assert(super::number::scan_from(s, 1, false, false) == 2);
    assert(super::number::scan_from(s, 0, false, false) == 2);
    assert(number_text(s) =~= s);
    let b = super::number::unsigned_part(s);
    assert(b =~= seq!['1']);
    assert(super::number::first_exp(b.drop_first()) is None);
    assert(super::number::first_exp(b) is None);
    assert(first_index_of(b.drop_first(), '.') is None);
    assert(first_index_of(b, '.') is None);
    assert(super::number::int_digits(s) =~= seq!['1']);
    assert(super::number::frac_digits(s) =~= Seq::<char>::empty());
    let g = super::number::int_digits(s) + super::number::frac_digits(s);
    assert(g =~= seq!['1']);
    assert(g.drop_last() =~= Seq::<char>::empty());
    assert(crate::text::digits_value(g) == 1);
}

/// Reading back a written polarity branch gives its channels and its polarity, when the
/// polarity is `1` or `-1`.
pub proof fn lemma_polarity_round_trip(b: AccBran)
    requires
        b.dir == 1 || b.dir == -1,
    ensures
        ({
            let fs = trimmed_fields(polarity_text(b), ',');
            &&& field_number(fs, 0) == b.ia_idx
            &&& field_number(fs, 1) == b.ib_idx
            &&& field_number(fs, 2) == b.ic_idx
            &&& dir_value(field_opt(fs, 3)) == b.dir
        }),
{
    let v = seq![b.ia_idx, b.ib_idx, b.ic_idx];
    let last = seq![' '] + idec(b.dir as int);
    lemma_split_list_text(v);
    assert(!last.contains(',')) by {
        if last.contains(',') {
            let i = choose|i: int| 0 <= i < last.len() && last[i] == ',';
            if b.dir == 1 {
                lemma_piece_plain(1, true);
                assert(last == seq![' '] + dec(1));
            } else {
                assert(last =~= seq![' ', '-', '1']) by {
                    crate::text::lemma_digit_char(1);
                }
            }
        }
    }
    assert(polarity_text(b) =~= list_text(v) + seq![','] + last);
    crate::text::lemma_split_push_piece(list_text(v), ',', last);
    let ps = split(polarity_text(b), ',');
    assert(ps =~= list_pieces(v).push(last));
    let fs = trimmed_fields(polarity_text(b), ',');
    assert forall|i: int| 0 <= i < 3 implies #[trigger] fs[i] == dec(v[i] as nat) by {
        lemma_piece_plain(v[i] as nat, i > 0);
    }
    lemma_number_index_dec(b.ia_idx as nat);
    lemma_number_index_dec(b.ib_idx as nat);
    lemma_number_index_dec(b.ic_idx as nat);
    assert(fs[0] == dec(v[0] as nat));
    assert(fs[1] == dec(v[1] as nat));
    assert(fs[2] == dec(v[2] as nat));
    if b.dir == 1 {
        lemma_piece_plain(1, true);
        assert(fs[3] == dec(1));
        lemma_number_index_dec(1);
        crate::text::lemma_dec_digits(1);
    } else {
        lemma_minus_one_negative();
        let m = idec(-1);
        assert(m =~= seq!['-', '1']) by {
            crate::text::lemma_digit_char(1);
        }
        assert(last.drop_first() =~= m);
        assert(crate::text::trim_start(last) == crate::text::trim_start(m));
        assert(trim(m) == m);
        assert(fs[3] == m);
    }
}

/// Reading back a written `DEV_ID` value gives its number and name, when the number is
/// positive and the name trimmed.
pub proof fn lemma_dev_id_round_trip(idx: nat, name: Seq<char>, fallback: nat)
    requires
        0 < idx <= usize::MAX,
        trim(name) == name,
    ensures
        dev_id_of(dec(idx) + seq![','] + name, fallback) == (idx, name),
{
    let d = dec(idx);
    lemma_dec_plain_field(idx);
    let s = d + seq![','] + name;
    lemma_first_index_of(s, ',');
    assert(s[d.len() as int] == ',');
    match first_index_of(s, ',') {
        Some(p) => {
            if p < d.len() {
                assert(d[p] == ',');
                assert(d.contains(','));
            }
            assert(p == d.len());
        },
        None => {
            assert(s.contains(','));
        },
    }
    assert(s.take(d.len() as int) =~= d);
    assert(s.skip(d.len() as int + 1) =~= name);
    crate::text::lemma_parse_uint_dec(idx, usize::MAX as nat);
}

} // verus!

verus! {

/// What a status channel's section names as its monitored component: its equipment, or,
/// when that is blank, its object reference (empty when it has none).
pub open spec fn monitored_component(ch: StatusChannel) -> Seq<char> {
    if trim(ch.equipment@).len() == 0 {
        match ch.ext {
            Some(e) => match e.reference {
                Some(r) => r@,
                None => Seq::<char>::empty(),
            },
            None => Seq::<char>::empty(),
        }
    } else {
        ch.equipment@
    }
}

/// The entries of a status channel's section.
pub open spec fn status_section_fields(ch: StatusChannel) -> Seq<(Seq<char>, Seq<char>)> {
    seq![
        (seq!['C', 'h', 'a', 'n', 'n', 'e', 'l', '_', 'I', 'D'], ch.name@),
        (seq!['P', 'h', 'a', 's', 'e', '_', 'I', 'D'], ch.phase@),
        (
            seq!['M', 'o', 'n', 'i', 't', 'o', 'r', 'e', 'd', '_', 'C', 'o', 'm', 'p', 'o', 'n', 'e', 'n', 't'],
            monitored_component(ch),
        ),
        (seq!['N', 'o', 'r', 'm', 'a', 'l', '_', 'S', 't', 'a', 't', 'e'], dec(ch.contact as nat)),
    ]
}

fn monitored_of(ch: &StatusChannel) -> (r: String)
    ensures
        r@ == monitored_component(*ch),
{
    let ec = str_chars(ch.equipment.as_str());
    let et = trim_chars(ec.as_slice());
    if et.len() == 0 {
        match &ch.ext {
            Some(e) => match &e.reference {
                Some(r) => r.clone(),
                None => String::new(),
            },
            None => String::new(),
        }
    } else {
        ch.equipment.clone()
    }
}

/// The section `[Public Status_Channel_#n]` of a status channel: its name, phase,
/// monitored component and normal state.
pub fn build_status_section(ch: &StatusChannel) -> (r: Section)
    ensures
        sec_state(r) == (
            seq!['P', 'u', 'b', 'l', 'i', 'c'],
            kind_view(SectionKind::StatusChannel),
            ch.index as nat,
            status_section_fields(*ch),
            Seq::<char>::empty(),
        ),
{
    proof {
        reveal_strlit("Public");
        reveal_strlit("Channel_ID");
        reveal_strlit("Phase_ID");
        reveal_strlit("Monitored_Component");
        reveal_strlit("Normal_State");
        assert("Public"@ =~= seq!['P', 'u', 'b', 'l', 'i', 'c']);
        assert("Channel_ID"@ =~= seq!['C', 'h', 'a', 'n', 'n', 'e', 'l', '_', 'I', 'D']);
        assert("Phase_ID"@ =~= seq!['P', 'h', 'a', 's', 'e', '_', 'I', 'D']);
        assert("Monitored_Component"@ =~= seq!['M', 'o', 'n', 'i', 't', 'o', 'r', 'e', 'd', '_', 'C', 'o', 'm', 'p', 'o', 'n', 'e', 'n', 't']);
        assert("Normal_State"@ =~= seq!['N', 'o', 'r', 'm', 'a', 'l', '_', 'S', 't', 'a', 't', 'e']);
    }
    let mut fields: Vec<(String, String)> = Vec::new();
    fields.push((string_of("Channel_ID"), ch.name.clone()));
    fields.push((string_of("Phase_ID"), ch.phase.clone()));
    fields.push((string_of("Monitored_Component"), monitored_of(ch)));
    let mut c: Vec<char> = Vec::new();
    push_dec(&mut c, ch.contact as u64);
    fields.push((string_of("Normal_State"), chars_to_string(c.as_slice())));
    assert(fields_view(fields@) =~= status_section_fields(*ch));
    let r = Section {
        area: string_of("Public"),
        kind: SectionKind::StatusChannel,
        index: ch.index,
        fields,
        raw: String::new(),
    };
    assert(r.area@ =~= seq!['P', 'u', 'b', 'l', 'i', 'c']);
    r
}

/// The text of an optional string, empty when absent.
pub open spec fn opt_view(o: Option<String>) -> Seq<char> {
    match o {
        Some(t) => t@,
        None => Seq::<char>::empty(),
    }
}

/// The parameter line of a status channel:
/// `index, idx_org, name, type, flag, equipment_no`, absent extras written as 0 or empty.
pub open spec fn status_parameter_text(ch: StatusChannel) -> Seq<char> {
    let sep = seq![',', ' '];
    let idx_org: nat = match ch.ext {
        Some(e) => match e.idx_org {
            Some(v) => v as nat,
            None => 0,
        },
        None => 0,
    };
    let (ty, flag, eq) = match ch.ext {
        Some(e) => (opt_view(e.channel_type), opt_view(e.flag), opt_view(e.equipment_no)),
        None => (Seq::<char>::empty(), Seq::<char>::empty(), Seq::<char>::empty()),
    };
    dec(ch.index as nat) + sep + dec(idx_org) + sep + ch.name@ + sep + ty + sep + flag + sep + eq
}

fn opt_text(o: &Option<String>) -> (r: Vec<char>)
    ensures
        r@ == opt_view(*o),
{
    match o {
        Some(t) => str_chars(t.as_str()),
        None => Vec::new(),
    }
}

/// Writes the parameter line of a status channel (see `status_parameter_text`).
pub fn build_status_parameter(ch: &StatusChannel) -> (r: String)
    ensures
        r@ == status_parameter_text(*ch),
{
    let (idx_org, ty, flag, eq) = match &ch.ext {
        Some(e) => (
            match e.idx_org {
                Some(v) => v,
                None => 0,
            },
            opt_text(&e.channel_type),
            opt_text(&e.flag),
            opt_text(&e.equipment_no),
        ),
        None => (0, Vec::new(), Vec::new(), Vec::new()),
    };
    let mut out: Vec<char> = Vec::new();
    push_dec(&mut out, ch.index as u64);
    out.push(',');
    out.push(' ');
    push_dec(&mut out, idx_org as u64);
    out.push(',');
    out.push(' ');
    push_str(&mut out, ch.name.as_str());
    out.push(',');
    out.push(' ');
    crate::text::push_all(&mut out, ty.as_slice());
    out.push(',');
    out.push(' ');
    crate::text::push_all(&mut out, flag.as_slice());
    out.push(',');
    out.push(' ');
    crate::text::push_all(&mut out, eq.as_slice());
    assert(out@ =~= status_parameter_text(*ch));
    chars_to_string(out.as_slice())
}

} // verus!
