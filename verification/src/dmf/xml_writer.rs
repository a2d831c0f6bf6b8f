//! The lines that the device model file writes for its channel groups, channel
//! references and status channels: self-closing elements with quoted attributes,
//! indented with tabs, text attributes escaped.

use vstd::prelude::*;

use crate::dmf::DmfStatusChannel;
use crate::equipment::{AccBran, AcvChn, Igap};
use crate::inf::fields_view;
use crate::text::{chars_to_string, dec, dec_chars, repeat_char, str_chars, string_of};

verus! {

/// `n` tabs.
pub open spec fn tabs(n: nat) -> Seq<char> {
    repeat_char('\t', n)
}

/// The attributes of an element as written: ` name="value"` for each pair, in order.
pub open spec fn attrs_text(pairs: Seq<(Seq<char>, Seq<char>)>) -> Seq<char>
    decreases pairs.len(),
{
    if pairs.len() == 0 {
        seq![]
    } else {
        seq![' '] + pairs[0].0 + seq!['=', '"'] + pairs[0].1 + seq!['"'] + attrs_text(
            pairs.drop_first(),
        )
    }
}

/// A self-closing element `<name a="v" .../>` after `level` tabs.
pub open spec fn element_text(level: nat, name: Seq<char>, pairs: Seq<(Seq<char>, Seq<char>)>) -> Seq<
    char,
> {
    tabs(level) + seq!['<'] + name + attrs_text(pairs) + seq!['/', '>']
}

/// The text written for character `c`: an entity for `&`, `<`, `>` and `"`, else `c`.
pub open spec fn escape_char(c: char) -> Seq<char> {
    if c == '&' {
        seq!['&', 'a', 'm', 'p', ';']
    } else if c == '<' {
        seq!['&', 'l', 't', ';']
    } else if c == '>' {
        seq!['&', 'g', 't', ';']
    } else if c == '"' {
        seq!['&', 'q', 'u', 'o', 't', ';']
    } else {
        seq![c]
    }
}

/// Text with `&`, `<`, `>` and `"` written as entities.
pub open spec fn escaped(s: Seq<char>) -> Seq<char>
    decreases s.len(),
{
    if s.len() == 0 {
        s
    } else {
        escape_char(s[0]) + escaped(s.skip(1))
    }
}

/// The texts of some strings.
pub open spec fn texts(v: Seq<String>) -> Seq<Seq<char>> {
    v.map_values(|s: String| s@)
}

proof fn lemma_attrs_text_push(pairs: Seq<(Seq<char>, Seq<char>)>, p: (Seq<char>, Seq<char>))
    ensures
        attrs_text(pairs.push(p)) == attrs_text(pairs) + seq![' '] + p.0 + seq!['=', '"'] + p.1
            + seq!['"'],
    decreases pairs.len(),
{
    if pairs.len() == 0 {
        assert(pairs.push(p).drop_first() =~= Seq::<(Seq<char>, Seq<char>)>::empty());
        assert(pairs.push(p)[0] == p);
        assert(attrs_text(pairs.push(p).drop_first()) == Seq::<char>::empty());
        assert(attrs_text(pairs) == Seq::<char>::empty());
        assert(attrs_text(pairs.push(p)) =~= seq![' '] + p.0 + seq!['=', '"'] + p.1 + seq!['"']);
    } else {
        assert(pairs.push(p).drop_first() =~= pairs.drop_first().push(p));
        lemma_attrs_text_push(pairs.drop_first(), p);
        assert(attrs_text(pairs.push(p)) =~= attrs_text(pairs) + seq![' '] + p.0 + seq!['=', '"']
            + p.1 + seq!['"']);
    }
}

fn push_text(out: &mut Vec<char>, s: &str)
    ensures
        final(out)@ == old(out)@ + s@,
{
    let cs = str_chars(s);
    let mut i: usize = 0;
    while i < cs.len()
        invariant
            i <= cs@.len(),
            cs@ == s@,
            out@ == old(out)@ + cs@.take(i as int),
        decreases cs.len() - i,
    {
        out.push(cs[i]);
        i = i + 1;
        assert(out@ =~= old(out)@ + cs@.take(i as int));
    }
    assert(cs@.take(cs@.len() as int) =~= cs@);
}

/// The line of a self-closing element (see `element_text`).
pub fn element_line(level: usize, name: &str, pairs: &Vec<(String, String)>) -> (r: String)
    ensures
        r@ == element_text(level as nat, name@, fields_view(pairs@)),
{
    let mut out: Vec<char> = Vec::new();
    let mut i: usize = 0;
    while i < level
        invariant
            i <= level,
            out@ == tabs(i as nat),
        decreases level - i,
    {
        out.push('\t');
        i = i + 1;
        assert(out@ =~= tabs(i as nat));
    }
    out.push('<');
    push_text(&mut out, name);
    let ghost fs = fields_view(pairs@);
    let mut k: usize = 0;
    assert(fs.take(0) =~= Seq::<(Seq<char>, Seq<char>)>::empty());
    while k < pairs.len()
        invariant
            k <= pairs@.len(),
            fs == fields_view(pairs@),
            out@ == tabs(level as nat) + seq!['<'] + name@ + attrs_text(fs.take(k as int)),
        decreases pairs.len() - k,
    {
        proof {
            lemma_attrs_text_push(fs.take(k as int), fs[k as int]);
            assert(fs.take(k + 1) =~= fs.take(k as int).push(fs[k as int]));
        }
        out.push(' ');
        push_text(&mut out, pairs[k].0.as_str());
        out.push('=');
        out.push('"');
        push_text(&mut out, pairs[k].1.as_str());
        out.push('"');
        k = k + 1;
        assert(out@ =~= tabs(level as nat) + seq!['<'] + name@ + attrs_text(fs.take(k as int)));
    }
    assert(fs.take(pairs@.len() as int) =~= fs);
    out.push('/');
    out.push('>');
    assert(out@ =~= element_text(level as nat, name@, fs));
    chars_to_string(out.as_slice())
}

/// Escapes `&`, `<`, `>` and `"` (see `escaped`).
pub fn escape(s: &str) -> (r: String)
    ensures
        r@ == escaped(s@),
{
    let cs = str_chars(s);
    let mut out: Vec<char> = Vec::new();
    let mut i: usize = 0;
    assert(cs@.skip(0) =~= cs@);
    while i < cs.len()
        invariant
            i <= cs@.len(),
            escaped(cs@) == out@ + escaped(cs@.skip(i as int)),
        decreases cs.len() - i,
    {
        let c = cs[i];
        let ghost before = out@;
        assert(cs@.skip(i as int).skip(1) =~= cs@.skip(i + 1));
        assert(cs@.skip(i as int)[0] == c);
        if c == '&' {
            out.push('&');
            out.push('a');
            out.push('m');
            out.push('p');
            out.push(';');
        } else if c == '<' {
            out.push('&');
            out.push('l');
            out.push('t');
            out.push(';');
        } else if c == '>' {
            out.push('&');
            out.push('g');
            out.push('t');
            out.push(';');
        } else if c == '"' {
            out.push('&');
            out.push('q');
            out.push('u');
            out.push('o');
            out.push('t');
            out.push(';');
        } else {
            out.push(c);
        }
        assert(out@ =~= before + escape_char(c));
        i = i + 1;
    }
    assert(cs@.skip(i as int) =~= Seq::<char>::empty());
    assert(out@ =~= escaped(cs@));
    chars_to_string(out.as_slice())
}

/// The decimal text of a number.
pub fn dec_string(v: usize) -> (r: String)
    ensures
        r@ == dec(v as nat),
{
    let d = dec_chars(v as u64);
    chars_to_string(d.as_slice())
}

/// The attributes written for voltage channels.
pub open spec fn acv_pairs(a: AcvChn) -> Seq<(Seq<char>, Seq<char>)> {
    seq![
        ("ua_idx"@, dec(a.ua_idx as nat)),
        ("ub_idx"@, dec(a.ub_idx as nat)),
        ("uc_idx"@, dec(a.uc_idx as nat)),
        ("un_idx"@, dec(a.un_idx as nat)),
        ("ul_idx"@, dec(a.ul_idx as nat)),
    ]
}

/// No voltage channel is configured.
pub open spec fn acv_empty(a: AcvChn) -> bool {
    a.ua_idx == 0 && a.ub_idx == 0 && a.uc_idx == 0 && a.un_idx == 0 && a.ul_idx == 0
}

/// Appends the `ACVChn` element of some voltage channels, unless none is configured.
pub fn push_acv(lines: &mut Vec<String>, level: usize, acv: &AcvChn)
    ensures
        texts(final(lines)@) == texts(old(lines)@) + (if acv_empty(*acv) {
            Seq::<Seq<char>>::empty()
        } else {
            seq![element_text(level as nat, "scl:ACVChn"@, acv_pairs(*acv))]
        }),
{
    if acv.is_empty() {
        assert(texts(lines@) =~= texts(lines@) + Seq::<Seq<char>>::empty());
        return;
    }
    let mut pairs: Vec<(String, String)> = Vec::new();
    pairs.push((string_of("ua_idx"), dec_string(acv.ua_idx)));
    pairs.push((string_of("ub_idx"), dec_string(acv.ub_idx)));
    pairs.push((string_of("uc_idx"), dec_string(acv.uc_idx)));
    pairs.push((string_of("un_idx"), dec_string(acv.un_idx)));
    pairs.push((string_of("ul_idx"), dec_string(acv.ul_idx)));
    assert(fields_view(pairs@) =~= acv_pairs(*acv));
    let line = element_line(level, "scl:ACVChn", &pairs);
    lines.push(line);
    assert(texts(lines@) =~= texts(old(lines)@) + seq![line@]);
}


/// The direction written for a branch: its spelling as read, escaped, when there is one;
/// else `NEG` for a negative direction and `POS` otherwise.
pub open spec fn dir_text(b: AccBran) -> Seq<char> {
    if b.dir_raw@.len() > 0 {
        escaped(b.dir_raw@)
    } else if b.dir < 0 {
        "NEG"@
    } else {
        "POS"@
    }
}

/// The written direction of a branch (see `dir_text`).
pub fn dir_string(bran: &AccBran) -> (r: String)
    ensures
        r@ == dir_text(*bran),
{
    if !bran.dir_raw.as_str().is_empty() {
        escape(bran.dir_raw.as_str())
    } else if bran.dir < 0 {
        string_of("NEG")
    } else {
        string_of("POS")
    }
}

/// The attributes written for a current branch.
pub open spec fn acc_pairs(b: AccBran) -> Seq<(Seq<char>, Seq<char>)> {
    seq![
        ("bran_idx"@, dec(b.bran_idx as nat)),
        ("ia_idx"@, dec(b.ia_idx as nat)),
        ("ib_idx"@, dec(b.ib_idx as nat)),
        ("ic_idx"@, dec(b.ic_idx as nat)),
        ("in_idx"@, dec(b.in_idx as nat)),
        ("dir"@, dir_text(b)),
    ]
}

/// Appends the `ACC_Bran` element of a current branch.
pub fn push_acc(lines: &mut Vec<String>, level: usize, bran: &AccBran)
    ensures
        texts(final(lines)@) == texts(old(lines)@).push(
            element_text(level as nat, "scl:ACC_Bran"@, acc_pairs(*bran)),
        ),
{
    let mut pairs: Vec<(String, String)> = Vec::new();
    pairs.push((string_of("bran_idx"), dec_string(bran.bran_idx)));
    pairs.push((string_of("ia_idx"), dec_string(bran.ia_idx)));
    pairs.push((string_of("ib_idx"), dec_string(bran.ib_idx)));
    pairs.push((string_of("ic_idx"), dec_string(bran.ic_idx)));
    pairs.push((string_of("in_idx"), dec_string(bran.in_idx)));
    pairs.push((string_of("dir"), dir_string(bran)));
    assert(fields_view(pairs@) =~= acc_pairs(*bran));
    let line = element_line(level, "scl:ACC_Bran", &pairs);
    lines.push(line);
    assert(texts(lines@) =~= texts(old(lines)@).push(line@));
}

/// `scl:` and a tag.
pub open spec fn scl(tag: Seq<char>) -> Seq<char> {
    "scl:"@ + tag
}

fn scl_name(tag: &str) -> (r: String)
    ensures
        r@ == scl(tag@),
{
    let mut out = str_chars("scl:");
    let t = str_chars(tag);
    let mut i: usize = 0;
    let ghost start = out@;
    while i < t.len()
        invariant
            i <= t@.len(),
            t@ == tag@,
            start == "scl:"@,
            out@ == start + t@.take(i as int),
        decreases t.len() - i,
    {
        out.push(t[i]);
        i = i + 1;
        assert(out@ =~= start + t@.take(i as int));
    }
    assert(t@.take(t@.len() as int) =~= t@);
    chars_to_string(out.as_slice())
}

/// The attributes written for the three phase currents of a branch.
pub open spec fn phase_pairs(b: AccBran) -> Seq<(Seq<char>, Seq<char>)> {
    seq![
        ("ia_idx"@, dec(b.ia_idx as nat)),
        ("ib_idx"@, dec(b.ib_idx as nat)),
        ("ic_idx"@, dec(b.ic_idx as nat)),
        ("dir"@, dir_text(b)),
    ]
}

/// No current channel of a branch is configured.
pub open spec fn acc_empty(b: AccBran) -> bool {
    b.ia_idx == 0 && b.ib_idx == 0 && b.ic_idx == 0 && b.in_idx == 0
}

/// Appends the element `tag` with the phase currents of a branch, unless none of its
/// current channels is configured.
pub fn push_phase_acc(lines: &mut Vec<String>, level: usize, tag: &str, bran: &AccBran)
    ensures
        texts(final(lines)@) == texts(old(lines)@) + (if acc_empty(*bran) {
            Seq::<Seq<char>>::empty()
        } else {
            seq![element_text(level as nat, scl(tag@), phase_pairs(*bran))]
        }),
{
    if bran.is_empty() {
        assert(texts(lines@) =~= texts(lines@) + Seq::<Seq<char>>::empty());
        return;
    }
    let mut pairs: Vec<(String, String)> = Vec::new();
    pairs.push((string_of("ia_idx"), dec_string(bran.ia_idx)));
    pairs.push((string_of("ib_idx"), dec_string(bran.ib_idx)));
    pairs.push((string_of("ic_idx"), dec_string(bran.ic_idx)));
    pairs.push((string_of("dir"), dir_string(bran)));
    assert(fields_view(pairs@) =~= phase_pairs(*bran));
    let name = scl_name(tag);
    let line = element_line(level, name.as_str(), &pairs);
    lines.push(line);
    assert(texts(lines@) =~= texts(old(lines)@) + seq![line@]);
}

/// The attributes written for a neutral-current group.
pub open spec fn neutral_pairs(group_idx: usize, bran_num: usize, b: AccBran) -> Seq<
    (Seq<char>, Seq<char>),
> {
    seq![
        ("group_idx"@, dec(group_idx as nat)),
        ("bran_num"@, dec(bran_num as nat)),
        ("bran_idx"@, dec(b.bran_idx as nat)),
        ("ia_idx"@, dec(b.ia_idx as nat)),
        ("ib_idx"@, dec(b.ib_idx as nat)),
        ("ic_idx"@, dec(b.ic_idx as nat)),
        ("dir"@, dir_text(b)),
    ]
}

/// Appends the `NeutGroup` element of a neutral-current group, unless it has no branch and
/// no configured current channel.
pub fn push_neutral_group(
    lines: &mut Vec<String>,
    level: usize,
    group_idx: usize,
    bran_num: usize,
    bran: &AccBran,
)
    ensures
        texts(final(lines)@) == texts(old(lines)@) + (if bran_num == 0 && acc_empty(*bran) {
            Seq::<Seq<char>>::empty()
        } else {
            seq![
                element_text(
                    level as nat,
                    "scl:NeutGroup"@,
                    neutral_pairs(group_idx, bran_num, *bran),
                ),
            ]
        }),
{
    if bran_num == 0 && bran.is_empty() {
        assert(texts(lines@) =~= texts(lines@) + Seq::<Seq<char>>::empty());
        return;
    }
    let mut pairs: Vec<(String, String)> = Vec::new();
    pairs.push((string_of("group_idx"), dec_string(group_idx)));
    pairs.push((string_of("bran_num"), dec_string(bran_num)));
    pairs.push((string_of("bran_idx"), dec_string(bran.bran_idx)));
    pairs.push((string_of("ia_idx"), dec_string(bran.ia_idx)));
    pairs.push((string_of("ib_idx"), dec_string(bran.ib_idx)));
    pairs.push((string_of("ic_idx"), dec_string(bran.ic_idx)));
    pairs.push((string_of("dir"), dir_string(bran)));
    assert(fields_view(pairs@) =~= neutral_pairs(group_idx, bran_num, *bran));
    let line = element_line(level, "scl:NeutGroup", &pairs);
    lines.push(line);
    assert(texts(lines@) =~= texts(old(lines)@) + seq![line@]);
}

/// The attributes written for gap channels.
pub open spec fn igap_pairs(g: Igap) -> Seq<(Seq<char>, Seq<char>)> {
    seq![("zgap_idx"@, dec(g.zgap_idx as nat)), ("zsgap_idx"@, dec(g.zsgap_idx as nat))]
}

/// Appends the `Igap` element of gap channels, unless both are 0.
pub fn push_igap(lines: &mut Vec<String>, level: usize, igap: &Igap)
    ensures
        texts(final(lines)@) == texts(old(lines)@) + (if igap.zgap_idx == 0 && igap.zsgap_idx
            == 0 {
            Seq::<Seq<char>>::empty()
        } else {
            seq![element_text(level as nat, "scl:Igap"@, igap_pairs(*igap))]
        }),
{
    if igap.zgap_idx == 0 && igap.zsgap_idx == 0 {
        assert(texts(lines@) =~= texts(lines@) + Seq::<Seq<char>>::empty());
        return;
    }
    let mut pairs: Vec<(String, String)> = Vec::new();
    pairs.push((string_of("zgap_idx"), dec_string(igap.zgap_idx)));
    pairs.push((string_of("zsgap_idx"), dec_string(igap.zsgap_idx)));
    assert(fields_view(pairs@) =~= igap_pairs(*igap));
    let line = element_line(level, "scl:Igap", &pairs);
    lines.push(line);
    assert(texts(lines@) =~= texts(old(lines)@) + seq![line@]);
}

/// The attribute written for a channel reference.
pub open spec fn ref_pairs(idx: usize) -> Seq<(Seq<char>, Seq<char>)> {
    seq![("idx_cfg"@, dec(idx as nat))]
}

/// The lines of channel references `tag`, one per channel number.
pub open spec fn ref_lines(level: nat, tag: Seq<char>, idxs: Seq<usize>) -> Seq<Seq<char>> {
    idxs.map_values(|i: usize| element_text(level, scl(tag), ref_pairs(i)))
}

/// Appends one `tag` element (`AnaChn`, `StaChn`) per channel number.
pub fn push_chn_refs(lines: &mut Vec<String>, level: usize, tag: &str, idxs: &[usize])
    ensures
        texts(final(lines)@) == texts(old(lines)@) + ref_lines(level as nat, tag@, idxs@),
{
    let name = scl_name(tag);
    let mut i: usize = 0;
    while i < idxs.len()
        invariant
            i <= idxs@.len(),
            name@ == scl(tag@),
            texts(lines@) == texts(old(lines)@) + ref_lines(level as nat, tag@, idxs@.take(
                i as int,
            )),
        decreases idxs.len() - i,
    {
        let mut pairs: Vec<(String, String)> = Vec::new();
        pairs.push((string_of("idx_cfg"), dec_string(idxs[i])));
        assert(fields_view(pairs@) =~= ref_pairs(idxs[i as int]));
        let line = element_line(level, name.as_str(), &pairs);
        let ghost prev = texts(lines@);
        lines.push(line);
        assert(texts(lines@) =~= prev.push(line@));
        i = i + 1;
        assert(ref_lines(level as nat, tag@, idxs@.take(i as int)) =~= ref_lines(
            level as nat,
            tag@,
            idxs@.take(i - 1),
        ).push(line@));
        assert(texts(lines@) =~= texts(old(lines)@) + ref_lines(level as nat, tag@, idxs@.take(
            i as int,
        )));
    }
    assert(idxs@.take(idxs@.len() as int) =~= idxs@);
}

/// The attributes written for a status channel.
pub open spec fn status_pairs(c: DmfStatusChannel) -> Seq<(Seq<char>, Seq<char>)> {
    seq![
        ("idx_cfg"@, dec(c.idx_cfg as nat)),
        ("idx_org"@, dec(c.idx_org as nat)),
        ("type"@, escaped(c.ch_type@)),
        ("flag"@, escaped(c.flag@)),
        ("contact"@, escaped(c.contact@)),
        ("srcRef"@, escaped(c.src_ref@)),
    ]
}

/// The `StatusChannel` line of a status channel, indented by one tab.
pub fn status_channel_line(c: &DmfStatusChannel) -> (r: String)
    ensures
        r@ == element_text(1, "scl:StatusChannel"@, status_pairs(*c)),
{
    let mut pairs: Vec<(String, String)> = Vec::new();
    pairs.push((string_of("idx_cfg"), dec_string(c.idx_cfg)));
    pairs.push((string_of("idx_org"), dec_string(c.idx_org)));
    pairs.push((string_of("type"), escape(c.ch_type.as_str())));
    pairs.push((string_of("flag"), escape(c.flag.as_str())));
    pairs.push((string_of("contact"), escape(c.contact.as_str())));
    pairs.push((string_of("srcRef"), escape(c.src_ref.as_str())));
    assert(fields_view(pairs@) =~= status_pairs(*c));
    element_line(1, "scl:StatusChannel", &pairs)
}

} // verus!
