//! Character-level helpers shared by the text formats.

use vstd::prelude::*;

verus! {

/// The characters of a string slice, in order.
pub fn str_chars(s: &str) -> (r: Vec<char>)
    ensures
        r@ == s@,
{
    let mut out: Vec<char> = Vec::new();
    for c in it: s.chars()
        invariant
            out@ == it.seq().take(it.index() as int),
            it.seq() == s@,
    {
        out.push(c);
    }
    out
}

} // verus!

verus! {

/// Decimal digits `'0'..='9'`.
pub open spec fn is_digit(c: char) -> bool {
    '0' <= c && c <= '9'
}

/// Value of a decimal digit character.
pub open spec fn digit_val(c: char) -> nat {
    (c as int - '0' as int) as nat
}

/// The character of a digit value below ten.
pub open spec fn digit_char(d: nat) -> char {
    (d + 48) as char
}

fn digit_of(d: u64) -> (c: char)
    requires
        d < 10,
    ensures
        c == digit_char(d as nat),
        is_digit(c),
        digit_val(c) == d,
{
    let b: u8 = 48u8 + (d as u8);
    b as char
}


/// Decimal representation of `v`, without leading zeros (`"0"` for zero).
pub open spec fn dec(v: nat) -> Seq<char>
    decreases v,
{
    if v < 10 {
        seq![digit_char(v)]
    } else {
        dec(v / 10).push(digit_char(v % 10))
    }
}

/// `n` copies of the character `c`.
pub open spec fn repeat_char(c: char, n: nat) -> Seq<char> {
    Seq::new(n, |i: int| c)
}

/// Decimal representation of `v`, padded on the left with zeros to at least `w` characters.
pub open spec fn dec_padded(v: nat, w: nat) -> Seq<char> {
    let d = dec(v);
    if d.len() < w {
        repeat_char('0', (w - d.len()) as nat) + d
    } else {
        d
    }
}

/// Every character of `s` is a decimal digit.
pub open spec fn all_digits(s: Seq<char>) -> bool {
    forall|i: int| 0 <= i < s.len() ==> is_digit(#[trigger] s[i])
}

/// The value of a string of decimal digits (leading zeros allowed; 0 for the empty string).
pub open spec fn digits_value(s: Seq<char>) -> nat
    decreases s.len(),
{
    if s.len() == 0 {
        0
    } else {
        digits_value(s.drop_last()) * 10 + digit_val(s.last())
    }
}

pub proof fn lemma_dec_digits(v: nat)
    ensures
        all_digits(dec(v)),
        digits_value(dec(v)) == v,
        dec(v).len() >= 1,
        v < 10 ==> dec(v).len() == 1,
        v >= 10 ==> dec(v).len() == dec(v / 10).len() + 1,
    decreases v,
{
    if v >= 10 {
        lemma_dec_digits(v / 10);
        let d = dec(v);
        assert(d.drop_last() =~= dec(v / 10));
        lemma_digit_char(v % 10);
        assert(d.last() == digit_char(v % 10));
        assert(digits_value(d) == digits_value(d.drop_last()) * 10 + digit_val(d.last()));
        assert((v / 10) * 10 + v % 10 == v) by (nonlinear_arith);
    } else {
        lemma_digit_char(v);
        let d = dec(v);
        assert(d.drop_last() =~= Seq::<char>::empty());
        assert(digits_value(d) == digits_value(d.drop_last()) * 10 + digit_val(d.last()));
    }
}

pub proof fn lemma_digit_char(d: nat)
    requires
        d < 10,
    ensures
        is_digit(digit_char(d)),
        digit_val(digit_char(d)) == d,
{
    assert((d + 48) as char as int == d + 48);
}

pub proof fn lemma_digits_value_zeros_prefix(z: nat, s: Seq<char>)
    ensures
        digits_value(repeat_char('0', z) + s) == digits_value(s),
    decreases s.len(),
{
    if s.len() == 0 {
        lemma_digits_value_zeros(z);
        assert(repeat_char('0', z) + s =~= repeat_char('0', z));
    } else {
        lemma_digits_value_zeros_prefix(z, s.drop_last());
        assert((repeat_char('0', z) + s).drop_last() =~= repeat_char('0', z) + s.drop_last());
    }
}

pub proof fn lemma_digits_value_zeros(z: nat)
    ensures
        digits_value(repeat_char('0', z)) == 0,
    decreases z,
{
    if z > 0 {
        lemma_digits_value_zeros((z - 1) as nat);
        assert(repeat_char('0', z).drop_last() =~= repeat_char('0', (z - 1) as nat));
    }
}

/// Facts about the padded decimal form used by the formatters.
pub proof fn lemma_dec_padded(v: nat, w: nat)
    ensures
        all_digits(dec_padded(v, w)),
        digits_value(dec_padded(v, w)) == v,
        dec_padded(v, w).len() >= w,
        v < 10 && w >= 1 ==> dec_padded(v, w).len() == w,
        v < 100 && w >= 2 ==> dec_padded(v, w).len() == w,
        v < 10000 && w >= 4 ==> dec_padded(v, w).len() == w,
        v < 1000000 && w >= 6 ==> dec_padded(v, w).len() == w,
{
    lemma_dec_digits(v);
    let d = dec(v);
    if d.len() < w {
        lemma_digits_value_zeros_prefix((w - d.len()) as nat, d);
    }
    lemma_dec_len_bound(v);
}

pub proof fn lemma_dec_len_bound(v: nat)
    ensures
        v < 10 ==> dec(v).len() == 1,
        v < 100 ==> dec(v).len() <= 2,
        v < 1000 ==> dec(v).len() <= 3,
        v < 10000 ==> dec(v).len() <= 4,
        v < 100000 ==> dec(v).len() <= 5,
        v < 1000000 ==> dec(v).len() <= 6,
    decreases v,
{
    lemma_dec_digits(v);
    if v >= 10 {
        lemma_dec_len_bound(v / 10);
    }
}

/// The decimal digits of `v`.
pub fn dec_chars(v: u64) -> (r: Vec<char>)
    ensures
        r@ == dec(v as nat),
    decreases v,
{
    if v < 10 {
        let mut r: Vec<char> = Vec::new();
        r.push(digit_of(v));
        r
    } else {
        let mut r = dec_chars(v / 10);
        r.push(digit_of(v % 10));
        r
    }
}

/// Appends the decimal digits of `v`, zero-padded on the left to at least `w` characters.
pub fn push_dec_padded(out: &mut Vec<char>, v: u64, w: usize)
    ensures
        final(out)@ == old(out)@ + dec_padded(v as nat, w as nat),
{
    let d = dec_chars(v);
    if d.len() < w {
        let pad = w - d.len();
        let mut i: usize = 0;
        while i < pad
            invariant
                i <= pad,
                out@ == old(out)@ + repeat_char('0', i as nat),
            decreases pad - i,
        {
            out.push('0');
            i = i + 1;
            assert(out@ =~= old(out)@ + repeat_char('0', i as nat));
        }
    }
    let mut j: usize = 0;
    let ghost base = out@;
    while j < d.len()
        invariant
            j <= d.len(),
            out@ == base + d@.take(j as int),
        decreases d.len() - j,
    {
        out.push(d[j]);
        j = j + 1;
        assert(out@ =~= base + d@.take(j as int));
    }
    assert(d@.take(d.len() as int) =~= d@);
    assert(out@ =~= old(out)@ + dec_padded(v as nat, w as nat));
}

/// Copies a character sequence into a `String`.
#[verifier::external_body]
pub fn chars_to_string(v: &[char]) -> (s: String)
    ensures
        s@ == v@,
{
    v.iter().collect()
}


/// Unicode `White_Space`, the set that `str::trim` removes.
pub open spec fn is_ws(c: char) -> bool {
    c == ' ' || ('\t' <= c && c <= '\r') || c == '\u{85}' || c == '\u{a0}' || c == '\u{1680}'
        || ('\u{2000}' <= c && c <= '\u{200a}') || c == '\u{2028}' || c == '\u{2029}'
        || c == '\u{202f}' || c == '\u{205f}' || c == '\u{3000}'
}

/// Whether `c` is Unicode white space.
pub fn is_ws_char(c: char) -> (r: bool)
    ensures
        r == is_ws(c),
{
    c == ' ' || ('\t' <= c && c <= '\r') || c == '\u{85}' || c == '\u{a0}' || c == '\u{1680}'
        || ('\u{2000}' <= c && c <= '\u{200a}') || c == '\u{2028}' || c == '\u{2029}'
        || c == '\u{202f}' || c == '\u{205f}' || c == '\u{3000}'
}

/// `s` without its leading white space.
pub open spec fn trim_start(s: Seq<char>) -> Seq<char>
    decreases s.len(),
{
    if s.len() > 0 && is_ws(s[0]) {
        trim_start(s.drop_first())
    } else {
        s
    }
}

/// `s` without its trailing white space.
pub open spec fn trim_end(s: Seq<char>) -> Seq<char>
    decreases s.len(),
{
    if s.len() > 0 && is_ws(s.last()) {
        trim_end(s.drop_last())
    } else {
        s
    }
}

/// `s` without leading and trailing white space.
pub open spec fn trim(s: Seq<char>) -> Seq<char> {
    trim_end(trim_start(s))
}

proof fn lemma_trim_start_skip(s: Seq<char>, i: int)
    requires
        0 <= i < s.len(),
        is_ws(s[i]),
        trim_start(s) == trim_start(s.skip(i)),
    ensures
        trim_start(s) == trim_start(s.skip(i + 1)),
{
    assert(s.skip(i).drop_first() =~= s.skip(i + 1));
}

proof fn lemma_trim_end_take(s: Seq<char>, j: int)
    requires
        0 < j <= s.len(),
        is_ws(s[j - 1]),
        trim_end(s) == trim_end(s.take(j)),
    ensures
        trim_end(s) == trim_end(s.take(j - 1)),
{
    assert(s.take(j).drop_last() =~= s.take(j - 1));
}

/// The bounds `[a, b)` of `s` once leading and trailing white space are removed.
pub fn trim_bounds(s: &[char]) -> (r: (usize, usize))
    ensures
        r.0 <= r.1 <= s@.len(),
        s@.subrange(r.0 as int, r.1 as int) == trim(s@),
{
    let mut i: usize = 0;
    assert(s@.skip(0) =~= s@);
    while i < s.len() && is_ws_char(s[i])
        invariant
            i <= s@.len(),
            trim_start(s@) == trim_start(s@.skip(i as int)),
        decreases s.len() - i,
    {
        proof {
            lemma_trim_start_skip(s@, i as int);
        }
        i = i + 1;
    }
    let ghost rest = s@.skip(i as int);
    assert(trim_start(rest) == rest);
    let mut j: usize = s.len();
    assert(rest.take(rest.len() as int) =~= rest);
    while j > i && is_ws_char(s[j - 1])
        invariant
            i <= j <= s@.len(),
            rest == s@.skip(i as int),
            trim_end(rest) == trim_end(rest.take(j - i)),
        decreases j,
    {
        proof {
            lemma_trim_end_take(rest, (j - i) as int);
        }
        j = j - 1;
    }
    assert(rest.take(j - i) =~= s@.subrange(i as int, j as int));
    (i, j)
}

/// A copy of `s` without leading and trailing white space.
pub fn trim_chars(s: &[char]) -> (r: Vec<char>)
    ensures
        r@ == trim(s@),
{
    let (a, b) = trim_bounds(s);
    slice_chars(s, a, b)
}

/// A copy of `s[a..b]`.
pub fn slice_chars(s: &[char], a: usize, b: usize) -> (r: Vec<char>)
    requires
        a <= b <= s@.len(),
    ensures
        r@ == s@.subrange(a as int, b as int),
{
    let mut r: Vec<char> = Vec::new();
    let mut k = a;
    while k < b
        invariant
            a <= k <= b,
            b <= s@.len(),
            r@ == s@.subrange(a as int, k as int),
        decreases b - k,
    {
        r.push(s[k]);
        k = k + 1;
        assert(r@ =~= s@.subrange(a as int, k as int));
    }
    r
}

/// The pieces of `s` between occurrences of `sep` (one empty piece for the empty string).
pub open spec fn split(s: Seq<char>, sep: char) -> Seq<Seq<char>>
    decreases s.len(),
{
    if s.len() == 0 {
        seq![Seq::<char>::empty()]
    } else {
        let rest = split(s.drop_last(), sep);
        if s.last() == sep {
            rest.push(Seq::<char>::empty())
        } else {
            rest.update(rest.len() - 1, rest.last().push(s.last()))
        }
    }
}

pub proof fn lemma_split_nonempty(s: Seq<char>, sep: char)
    ensures
        split(s, sep).len() >= 1,
    decreases s.len(),
{
    if s.len() > 0 {
        lemma_split_nonempty(s.drop_last(), sep);
    }
}

/// Splits `s` at every `sep`, as `str::split` does.
pub fn split_chars(s: &[char], sep: char) -> (r: Vec<Vec<char>>)
    ensures
        views(r@) == split(s@, sep),
{
    let mut out: Vec<Vec<char>> = Vec::new();
    let mut cur: Vec<char> = Vec::new();
    let mut k: usize = 0;
    while k < s.len()
        invariant
            k <= s@.len(),
            views(out@).push(cur@) == split(s@.take(k as int), sep),
        decreases s.len() - k,
    {
        let ghost pre = s@.take(k as int);
        assert(s@.take(k as int + 1).drop_last() =~= pre);
        let c = s[k];
        let ghost old_out = views(out@);
        let ghost old_cur = cur@;
        if c == sep {
            let done = cur;
            out.push(done);
            cur = Vec::new();
            assert(views(out@) =~= old_out.push(old_cur));
        } else {
            cur.push(c);
        }
        k = k + 1;
        proof {
            lemma_split_nonempty(pre, sep);
            assert(views(out@).push(cur@) =~= split(s@.take(k as int), sep));
        }
    }
    let ghost old_out = views(out@);
    let ghost old_cur = cur@;
    out.push(cur);
    assert(views(out@) =~= old_out.push(old_cur));
    assert(s@.take(s.len() as int) =~= s@);
    out
}

/// The character sequences held by a sequence of vectors.
pub open spec fn views(v: Seq<Vec<char>>) -> Seq<Seq<char>> {
    v.map_values(|x: Vec<char>| x@)
}

/// `l` without one trailing carriage return.
pub open spec fn strip_cr(l: Seq<char>) -> Seq<char> {
    if l.len() > 0 && l.last() == '\r' {
        l.drop_last()
    } else {
        l
    }
}

/// The lines of `s` as `str::lines` yields them: split at `\n`, a `\r` before the `\n`
/// removed, and no final empty line after a trailing `\n`.
pub open spec fn lines(s: Seq<char>) -> Seq<Seq<char>> {
    if s.len() == 0 {
        Seq::<Seq<char>>::empty()
    } else {
        let parts = split(s, '\n');
        let body = parts.take(parts.len() - 1).map_values(|l: Seq<char>| strip_cr(l));
        if parts.last().len() == 0 {
            body
        } else {
            body.push(parts.last())
        }
    }
}

/// The lines of `s`, as `str::lines` yields them.
pub fn lines_of(s: &[char]) -> (r: Vec<Vec<char>>)
    ensures
        views(r@) == lines(s@),
{
    let mut out: Vec<Vec<char>> = Vec::new();
    if s.len() == 0 {
        assert(views(out@) =~= lines(s@));
        return out;
    }
    let parts = split_chars(s, '\n');
    proof {
        lemma_split_nonempty(s@, '\n');
    }
    let n = parts.len();
    let ghost pv = views(parts@);
    let mut k: usize = 0;
    while k + 1 < n
        invariant
            n == parts@.len(),
            n >= 1,
            k < n,
            pv == views(parts@),
            views(out@) == pv.take(k as int).map_values(|l: Seq<char>| strip_cr(l)),
        decreases n - k,
    {
        let p = &parts[k];
        let mut line: Vec<char> = Vec::new();
        let len = p.len();
        let stop = if len > 0 && p[len - 1] == '\r' { len - 1 } else { len };
        let mut t: usize = 0;
        while t < stop
            invariant
                stop <= p@.len(),
                line@ == p@.take(t as int),
                t <= stop,
            decreases stop - t,
        {
            line.push(p[t]);
            t = t + 1;
            assert(line@ =~= p@.take(t as int));
        }
        assert(line@ =~= strip_cr(pv[k as int]));
        let ghost old_out = views(out@);
        let ghost lv = line@;
        out.push(line);
        assert(views(out@) =~= old_out.push(lv));
        k = k + 1;
        assert(views(out@) =~= pv.take(k as int).map_values(|l: Seq<char>| strip_cr(l)));
    }
    let last = &parts[n - 1];
    if last.len() > 0 {
        let mut line: Vec<char> = Vec::new();
        let mut t: usize = 0;
        while t < last.len()
            invariant
                line@ == last@.take(t as int),
                t <= last@.len(),
            decreases last.len() - t,
        {
            line.push(last[t]);
            t = t + 1;
            assert(line@ =~= last@.take(t as int));
        }
        assert(line@ =~= last@);
        let ghost old_out = views(out@);
        let ghost lv = line@;
        out.push(line);
        assert(views(out@) =~= old_out.push(lv));
    }
    assert(views(out@) =~= lines(s@));
    out
}


/// What `str::parse` gives for an unsigned integer type whose largest value is `max`:
/// an optional `+`, then one or more decimal digits, the value at most `max`.
pub open spec fn parse_uint(s: Seq<char>, max: nat) -> Option<nat> {
    let body = if s.len() > 0 && s[0] == '+' {
        s.drop_first()
    } else {
        s
    };
    if body.len() == 0 || !all_digits(body) || digits_value(body) > max {
        None
    } else {
        Some(digits_value(body))
    }
}

pub proof fn lemma_digits_value_step(s: Seq<char>, k: int)
    requires
        0 <= k < s.len(),
    ensures
        digits_value(s.take(k + 1)) == digits_value(s.take(k)) * 10 + digit_val(s[k]),
{
    assert(s.take(k + 1).drop_last() =~= s.take(k));
}

proof fn lemma_digits_value_mono(s: Seq<char>, k: int)
    requires
        0 <= k <= s.len(),
        all_digits(s),
    ensures
        digits_value(s.take(k)) <= digits_value(s),
    decreases s.len() - k,
{
    if k < s.len() {
        lemma_digits_value_step(s, k);
        lemma_digits_value_mono(s, k + 1);
    } else {
        assert(s.take(k) =~= s);
    }
}

/// Parses an unsigned decimal integer no larger than `max`, as `str::parse` does.
pub fn parse_uint_chars(s: &[char], max: u64) -> (r: Option<u64>)
    ensures
        r matches Some(v) ==> parse_uint(s@, max as nat) == Some(v as nat),
        r is None ==> parse_uint(s@, max as nat) is None,
{
    let start: usize = if s.len() > 0 && s[0] == '+' { 1 } else { 0 };
    let ghost body = s@.skip(start as int);
    assert(body =~= (if s@.len() > 0 && s@[0] == '+' { s@.drop_first() } else { s@ }));
    if start == s.len() {
        return None;
    }
    let mut v: u64 = 0;
    let mut k: usize = start;
    while k < s.len()
        invariant
            start <= k <= s@.len(),
            body == s@.skip(start as int),
            body == (if s@.len() > 0 && s@[0] == '+' { s@.drop_first() } else { s@ }),
            start < s@.len(),
            all_digits(body.take(k - start)),
            v as nat == digits_value(body.take(k - start)),
            v <= max,
        decreases s.len() - k,
    {
        let c = s[k];
        assert(body[k - start] == s@[k as int]);
        if !('0' <= c && c <= '9') {
            assert(!is_digit(body[k - start]));
            assert(!all_digits(body));
            return None;
        }
        let d: u64 = (c as u32 - '0' as u32) as u64;
        proof {
            lemma_digits_value_step(body, (k - start) as int);
            assert(all_digits(body.take(k - start + 1)));
        }
        let nv: u128 = (v as u128) * 10 + (d as u128);
        if nv > max as u128 {
            proof {
                if all_digits(body) {
                    lemma_digits_value_mono(body, (k - start + 1) as int);
                }
            }
            return None;
        }
        v = nv as u64;
        k = k + 1;
    }
    assert(body.take(k - start) =~= body);
    Some(v)
}


/// `p` occurs in `s` at position `i`.
pub open spec fn occurs_at(s: Seq<char>, p: Seq<char>, i: int) -> bool {
    0 <= i && i + p.len() <= s.len() && s.subrange(i, i + p.len()) == p
}

/// `p` occurs somewhere in `s`.
pub open spec fn contains(s: Seq<char>, p: Seq<char>) -> bool {
    exists|i: int| occurs_at(s, p, i)
}

/// `s` with every non-overlapping occurrence of `p` (scanning from the left)
/// replaced by `r`, as `str::replace` does for a non-empty pattern.
pub open spec fn replace(s: Seq<char>, p: Seq<char>, r: Seq<char>) -> Seq<char>
    recommends
        p.len() > 0,
    decreases s.len(),
{
    if s.len() == 0 || p.len() == 0 {
        s
    } else if p.len() <= s.len() && s.take(p.len() as int) == p {
        r + replace(s.skip(p.len() as int), p, r)
    } else {
        seq![s[0]] + replace(s.skip(1), p, r)
    }
}

/// Whether `p` occurs in `s` at position `i`.
pub fn occurs_at_chars(s: &[char], p: &[char], i: usize) -> (r: bool)
    ensures
        r == occurs_at(s@, p@, i as int),
{
    if i > s.len() || p.len() > s.len() - i {
        return false;
    }
    let mut k: usize = 0;
    while k < p.len()
        invariant
            k <= p@.len(),
            i <= s@.len(),
            i + p@.len() <= s@.len(),
            forall|j: int| 0 <= j < k ==> s@[i + j] == p@[j],
        decreases p.len() - k,
    {
        let n = s.len();
        assert(i + k < n);
        if s[i + k] != p[k] {
            assert(s@.subrange(i as int, i + p@.len())[k as int] != p@[k as int]);
            return false;
        }
        k = k + 1;
    }
    assert(s@.subrange(i as int, i + p@.len()) =~= p@);
    true
}

/// Whether `p` occurs in `s`.
pub fn contains_chars(s: &[char], p: &[char]) -> (r: bool)
    ensures
        r == contains(s@, p@),
{
    let mut i: usize = 0;
    loop
        invariant
            i <= s@.len(),
            forall|j: int| 0 <= j < i ==> !occurs_at(s@, p@, j),
        ensures
            i == s@.len(),
            forall|j: int| 0 <= j <= i ==> !occurs_at(s@, p@, j),
        decreases s.len() - i,
    {
        if occurs_at_chars(s, p, i) {
            return true;
        }
        if i == s.len() {
            break;
        }
        i = i + 1;
    }
    assert forall|j: int| !occurs_at(s@, p@, j) by {
        if 0 <= j <= i {
        }
    }
    false
}

proof fn lemma_replace_step_match(s: Seq<char>, p: Seq<char>, r: Seq<char>, i: int)
    requires
        p.len() > 0,
        0 <= i,
        occurs_at(s, p, i),
    ensures
        replace(s.skip(i), p, r) == r + replace(s.skip(i + p.len()), p, r),
{
    assert(s.skip(i).take(p.len() as int) =~= s.subrange(i, i + p.len()));
    assert(s.skip(i).skip(p.len() as int) =~= s.skip(i + p.len()));
}

proof fn lemma_replace_step_other(s: Seq<char>, p: Seq<char>, r: Seq<char>, i: int)
    requires
        p.len() > 0,
        0 <= i < s.len(),
        !occurs_at(s, p, i),
    ensures
        replace(s.skip(i), p, r) == seq![s[i]] + replace(s.skip(i + 1), p, r),
{
    if p.len() <= s.len() - i {
        assert(s.skip(i).take(p.len() as int) =~= s.subrange(i, i + p.len()));
    }
    assert(s.skip(i).skip(1) =~= s.skip(i + 1));
}

/// `s` with every occurrence of `p` replaced by `r`.
pub fn replace_chars(s: &[char], p: &[char], r: &[char]) -> (out: Vec<char>)
    requires
        p@.len() > 0,
    ensures
        out@ == replace(s@, p@, r@),
{
    let mut out: Vec<char> = Vec::new();
    let mut i: usize = 0;
    assert(s@.skip(0) =~= s@);
    while i < s.len()
        invariant
            i <= s@.len(),
            p@.len() > 0,
            replace(s@, p@, r@) == out@ + replace(s@.skip(i as int), p@, r@),
        decreases s.len() - i,
    {
        if occurs_at_chars(s, p, i) {
            proof {
                lemma_replace_step_match(s@, p@, r@, i as int);
            }
            let mut k: usize = 0;
            let ghost base = out@;
            while k < r.len()
                invariant
                    k <= r@.len(),
                    out@ == base + r@.take(k as int),
                decreases r.len() - k,
            {
                out.push(r[k]);
                k = k + 1;
                assert(out@ =~= base + r@.take(k as int));
            }
            assert(r@.take(r@.len() as int) =~= r@);
            assert(out@ + replace(s@.skip(i + p@.len()), p@, r@) =~= base + (r@ + replace(
                s@.skip(i + p@.len()),
                p@,
                r@,
            )));
            i = i + p.len();
        } else {
            proof {
                lemma_replace_step_other(s@, p@, r@, i as int);
            }
            let ghost base = out@;
            out.push(s[i]);
            assert(out@ + replace(s@.skip(i + 1), p@, r@) =~= base + (seq![s@[i as int]] + replace(
                s@.skip(i + 1),
                p@,
                r@,
            )));
            i = i + 1;
        }
    }
    assert(s@.skip(i as int) =~= Seq::<char>::empty());
    assert(out@ + Seq::<char>::empty() =~= out@);
    out
}

/// Position of the last occurrence of `c` in `s`.
pub open spec fn last_index_of(s: Seq<char>, c: char) -> Option<int>
    decreases s.len(),
{
    if s.len() == 0 {
        None
    } else if s.last() == c {
        Some(s.len() - 1)
    } else {
        last_index_of(s.drop_last(), c)
    }
}

pub proof fn lemma_last_index_of(s: Seq<char>, c: char)
    ensures
        last_index_of(s, c) matches Some(i) ==> 0 <= i < s.len() && s[i] == c && forall|j: int|
            i < j < s.len() ==> s[j] != c,
        last_index_of(s, c) is None ==> forall|j: int| 0 <= j < s.len() ==> s[j] != c,
    decreases s.len(),
{
    if s.len() > 0 {
        lemma_last_index_of(s.drop_last(), c);
        if s.last() != c {
            assert forall|j: int| 0 <= j < s.len() - 1 implies s[j] == s.drop_last()[j] by {}
        }
    }
}

/// Position of the last `c` in `s`, as `str::rfind` finds it.
pub fn rfind_char(s: &[char], c: char) -> (r: Option<usize>)
    ensures
        r matches Some(i) ==> last_index_of(s@, c) == Some(i as int),
        r is None ==> last_index_of(s@, c) is None,
{
    let mut k: usize = s.len();
    assert(s@.take(k as int) =~= s@);
    while k > 0
        invariant
            k <= s@.len(),
            last_index_of(s@, c) == last_index_of(s@.take(k as int), c),
        decreases k,
    {
        assert(s@.take(k as int).drop_last() =~= s@.take(k - 1));
        if s[k - 1] == c {
            return Some(k - 1);
        }
        k = k - 1;
    }
    None
}

/// Length of the longest prefix of `s` made of decimal digits.
pub open spec fn digit_prefix_len(s: Seq<char>) -> nat
    decreases s.len(),
{
    if s.len() > 0 && is_digit(s[0]) {
        1 + digit_prefix_len(s.drop_first())
    } else {
        0
    }
}

pub proof fn lemma_digit_prefix_len(s: Seq<char>)
    ensures
        digit_prefix_len(s) <= s.len(),
        all_digits(s.take(digit_prefix_len(s) as int)),
        digit_prefix_len(s) < s.len() ==> !is_digit(s[digit_prefix_len(s) as int]),
    decreases s.len(),
{
    if s.len() > 0 && is_digit(s[0]) {
        lemma_digit_prefix_len(s.drop_first());
        let k = digit_prefix_len(s.drop_first()) as int;
        assert forall|i: int| 0 <= i < k + 1 implies is_digit(#[trigger] s.take(k + 1 as int)[i]) by {
            if i > 0 {
                assert(s.take(k + 1 as int)[i] == s.drop_first().take(k as int)[i - 1]);
            }
        }
    }
}

/// Length of the run of decimal digits at the start of `s[from..]`.
pub fn digit_run(s: &[char], from: usize) -> (r: usize)
    requires
        from <= s@.len(),
    ensures
        r == digit_prefix_len(s@.skip(from as int)),
        from + r <= s@.len(),
{
    let mut k = from;
    while k < s.len() && '0' <= s[k] && s[k] <= '9'
        invariant
            from <= k <= s@.len(),
            digit_prefix_len(s@.skip(from as int)) == (k - from) + digit_prefix_len(
                s@.skip(k as int),
            ),
        decreases s.len() - k,
    {
        assert(s@.skip(k as int).drop_first() =~= s@.skip(k + 1));
        k = k + 1;
    }
    k - from
}

} // verus!

verus! {

/// Splitting text that holds no separator gives the text itself as the one piece.
pub proof fn lemma_split_no_sep(a: Seq<char>, sep: char)
    requires
        !a.contains(sep),
    ensures
        split(a, sep) == seq![a],
    decreases a.len(),
{
    if a.len() > 0 {
        assert(!a.drop_last().contains(sep)) by {
            if a.drop_last().contains(sep) {
                let i = choose|i: int| 0 <= i < a.drop_last().len() && a.drop_last()[i] == sep;
                assert(a[i] == sep);
            }
        }
        lemma_split_no_sep(a.drop_last(), sep);
        assert(a.last() != sep) by {
            assert(a[a.len() - 1] == a.last());
        }
        assert(a.drop_last().push(a.last()) =~= a);
        assert(split(a, sep) =~= seq![a]);
    } else {
        assert(a =~= Seq::<char>::empty());
    }
}

/// Text `a` without separators, a separator, then `b`: the pieces are `a` followed by
/// the pieces of `b`.
pub proof fn lemma_split_join(a: Seq<char>, sep: char, b: Seq<char>)
    requires
        !a.contains(sep),
    ensures
        split(a + seq![sep] + b, sep) == seq![a] + split(b, sep),
    decreases b.len(),
{
    let s = a + seq![sep] + b;
    if b.len() == 0 {
        lemma_split_no_sep(a, sep);
        assert(s.drop_last() =~= a);
        assert(split(s, sep) =~= seq![a] + split(b, sep));
    } else {
        lemma_split_join(a, sep, b.drop_last());
        assert(s.drop_last() =~= a + seq![sep] + b.drop_last());
        lemma_split_nonempty(b.drop_last(), sep);
        let rest = split(b.drop_last(), sep);
        if b.last() == sep {
            assert(split(s, sep) =~= seq![a] + split(b, sep));
        } else {
            let whole = seq![a] + rest;
            assert(whole.last() == rest.last());
            assert(whole.update(whole.len() - 1, whole.last().push(b.last())) =~= seq![a]
                + rest.update(rest.len() - 1, rest.last().push(b.last())));
            assert(split(s, sep) =~= seq![a] + split(b, sep));
        }
    }
}

/// Text that neither starts nor ends with white space is its own trim.
pub proof fn lemma_trim_noop(s: Seq<char>)
    requires
        s.len() > 0 ==> !is_ws(s[0]) && !is_ws(s.last()),
    ensures
        trim(s) == s,
{
}

/// The pieces of `s` between `sep`, each without surrounding white space.
pub open spec fn trimmed_fields(s: Seq<char>, sep: char) -> Seq<Seq<char>> {
    split(s, sep).map_values(|p: Seq<char>| trim(p))
}

/// The `i`-th of `fs`, or the empty text where there is none.
pub open spec fn field_or_empty(fs: Seq<Seq<char>>, i: int) -> Seq<char> {
    if 0 <= i < fs.len() {
        fs[i]
    } else {
        Seq::<char>::empty()
    }
}

/// Splits `s` at every `sep` and trims each piece.
pub fn split_trimmed(s: &[char], sep: char) -> (r: Vec<Vec<char>>)
    ensures
        views(r@) == trimmed_fields(s@, sep),
{
    let parts = split_chars(s, sep);
    let mut out: Vec<Vec<char>> = Vec::new();
    let mut k: usize = 0;
    while k < parts.len()
        invariant
            k <= parts@.len(),
            views(parts@) == split(s@, sep),
            views(out@) == views(parts@).take(k as int).map_values(|p: Seq<char>| trim(p)),
        decreases parts.len() - k,
    {
        let t = trim_chars(parts[k].as_slice());
        let ghost before = views(out@);
        assert(views(parts@)[k as int] == parts@[k as int]@);
        out.push(t);
        assert(views(out@) =~= before.push(t@));
        k = k + 1;
        assert(views(out@) =~= views(parts@).take(k as int).map_values(|p: Seq<char>| trim(p)));
    }
    assert(views(parts@).take(k as int) =~= views(parts@));
    out
}

/// A copy of the `i`-th piece of `fs`, or an empty vector where there is none.
pub fn field_copy(fs: &Vec<Vec<char>>, i: usize) -> (r: Vec<char>)
    ensures
        r@ == field_or_empty(views(fs@), i as int),
{
    if i < fs.len() {
        let f = fs[i].as_slice();
        slice_chars(f, 0, f.len())
    } else {
        Vec::new()
    }
}

/// Appends the characters of `s`.
pub fn push_all(out: &mut Vec<char>, s: &[char])
    ensures
        final(out)@ == old(out)@ + s@,
{
    let ghost base = out@;
    let mut j: usize = 0;
    while j < s.len()
        invariant
            j <= s@.len(),
            out@ == base + s@.take(j as int),
            base == old(out)@,
        decreases s.len() - j,
    {
        out.push(s[j]);
        j = j + 1;
        assert(out@ =~= base + s@.take(j as int));
    }
    assert(s@.take(s@.len() as int) =~= s@);
}

/// Appends the decimal digits of `v`.
pub fn push_dec(out: &mut Vec<char>, v: u64)
    ensures
        final(out)@ == old(out)@ + dec(v as nat),
{
    let d = dec_chars(v);
    push_all(out, d.as_slice());
}

/// The decimal form of a number parses back to it.
pub proof fn lemma_parse_uint_dec(v: nat, max: nat)
    requires
        v <= max,
    ensures
        parse_uint(dec(v), max) == Some(v),
{
    lemma_dec_digits(v);
    assert(is_digit(dec(v)[0]));
}

/// The decimal form of a number holds neither white space nor any non-digit.
pub proof fn lemma_dec_plain(v: nat, c: char)
    requires
        !is_digit(c),
    ensures
        !dec(v).contains(c),
        !is_ws(dec(v)[0]),
        !is_ws(dec(v).last()),
{
    lemma_dec_digits(v);
    let d = dec(v);
    assert(is_digit(d[0]));
    assert(is_digit(d[d.len() - 1]));
    if d.contains(c) {
        let i = choose|i: int| 0 <= i < d.len() && d[i] == c;
        assert(is_digit(d[i]));
    }
}

} // verus!

verus! {

/// Whether the characters of `a` are those of `b`.
pub fn chars_eq_str(a: &[char], b: &str) -> (r: bool)
    ensures
        r == (a@ == b@),
{
    let bc = str_chars(b);
    if a.len() != bc.len() {
        return false;
    }
    let mut k: usize = 0;
    while k < a.len()
        invariant
            k <= a@.len(),
            a@.len() == bc@.len(),
            bc@ == b@,
            forall|j: int| 0 <= j < k ==> a@[j] == bc@[j],
        decreases a.len() - k,
    {
        if a[k] != bc[k] {
            return false;
        }
        k = k + 1;
    }
    assert(a@ =~= bc@);
    true
}

/// Every character is ASCII.
pub open spec fn is_ascii_text(s: Seq<char>) -> bool {
    forall|i: int| 0 <= i < s.len() ==> #[trigger] s[i] <= '\u{7f}'
}

/// ASCII upper case of one character; other characters unchanged.
pub open spec fn ascii_upper_char(c: char) -> char {
    if 'a' <= c && c <= 'z' {
        ((c as int) - 32) as char
    } else {
        c
    }
}

/// ASCII lower case of one character; other characters unchanged.
pub open spec fn ascii_lower_char(c: char) -> char {
    if 'A' <= c && c <= 'Z' {
        ((c as int) + 32) as char
    } else {
        c
    }
}

/// ASCII upper case of a text.
pub open spec fn ascii_upper(s: Seq<char>) -> Seq<char> {
    s.map_values(|c: char| ascii_upper_char(c))
}

/// ASCII lower case of a text, as `str::to_ascii_lowercase` gives it.
pub open spec fn ascii_lower(s: Seq<char>) -> Seq<char> {
    s.map_values(|c: char| ascii_lower_char(c))
}

/// What `str::to_uppercase` returns for a text: its Unicode upper-case form.
pub uninterp spec fn upper_case(s: Seq<char>) -> Seq<char>;

/// Calls `str::to_uppercase`. The result is named by `upper_case`; for ASCII text it is
/// the ASCII upper case, since every ASCII letter's Unicode upper case is its ASCII one.
#[verifier::external_body]
pub(crate) fn to_upper(s: &str) -> (r: String)
    ensures
        r@ == upper_case(s@),
        is_ascii_text(s@) ==> r@ == ascii_upper(s@),
{
    s.to_uppercase()
}

/// Text with every ASCII capital letter made small, as `str::to_ascii_lowercase` does.
pub fn ascii_lower_chars(s: &[char]) -> (r: Vec<char>)
    ensures
        r@ == ascii_lower(s@),
{
    let mut out: Vec<char> = Vec::new();
    let mut k: usize = 0;
    while k < s.len()
        invariant
            k <= s@.len(),
            out@ == ascii_lower(s@.take(k as int)),
        decreases s.len() - k,
    {
        let c = s[k];
        let d = if 'A' <= c && c <= 'Z' {
            let b: u32 = c as u32;
            let x: u8 = (b + 32) as u8;
            x as char
        } else {
            c
        };
        out.push(d);
        k = k + 1;
        assert(out@ =~= ascii_lower(s@.take(k as int)));
    }
    assert(s@.take(k as int) =~= s@);
    out
}

/// The decimal digits of `s`, in order, all other characters dropped.
pub open spec fn keep_digits(s: Seq<char>) -> Seq<char>
    decreases s.len(),
{
    if s.len() == 0 {
        Seq::<char>::empty()
    } else if is_digit(s.last()) {
        keep_digits(s.drop_last()).push(s.last())
    } else {
        keep_digits(s.drop_last())
    }
}

/// Text made only of digits keeps all of them.
pub proof fn lemma_keep_all_digits(s: Seq<char>)
    requires
        all_digits(s),
    ensures
        keep_digits(s) == s,
    decreases s.len(),
{
    if s.len() > 0 {
        assert(is_digit(s[s.len() - 1]));
        lemma_keep_all_digits(s.drop_last());
        assert(s.drop_last().push(s.last()) =~= s);
    }
}

} // verus!

verus! {

/// The lines `ls`, each followed by a newline.
pub open spec fn join_lines(ls: Seq<Seq<char>>) -> Seq<char>
    decreases ls.len(),
{
    if ls.len() == 0 {
        Seq::<char>::empty()
    } else {
        join_lines(ls.drop_last()) + ls.last() + seq!['\n']
    }
}

/// Joining two runs of lines joins their texts.
pub proof fn lemma_join_lines_concat(a: Seq<Seq<char>>, b: Seq<Seq<char>>)
    ensures
        join_lines(a + b) == join_lines(a) + join_lines(b),
    decreases b.len(),
{
    if b.len() == 0 {
        assert(a + b =~= a);
        assert(join_lines(a) + join_lines(b) =~= join_lines(a));
    } else {
        lemma_join_lines_concat(a, b.drop_last());
        assert((a + b).drop_last() =~= a + b.drop_last());
        assert((a + b).last() == b.last());
        assert(join_lines(a + b) =~= join_lines(a) + join_lines(b));
    }
}

/// Appending text without separators to the last piece.
pub proof fn lemma_split_append(x: Seq<char>, l: Seq<char>, sep: char)
    requires
        !l.contains(sep),
    ensures
        split(x + l, sep) == split(x, sep).update(
            split(x, sep).len() - 1,
            split(x, sep).last() + l,
        ),
    decreases l.len(),
{
    lemma_split_nonempty(x, sep);
    if l.len() == 0 {
        assert(x + l =~= x);
        assert(split(x, sep).last() + l =~= split(x, sep).last());
        assert(split(x, sep).update(split(x, sep).len() - 1, split(x, sep).last())
            =~= split(x, sep));
    } else {
        assert(!l.drop_last().contains(sep)) by {
            if l.drop_last().contains(sep) {
                let i = choose|i: int| 0 <= i < l.drop_last().len() && l.drop_last()[i] == sep;
                assert(l[i] == sep);
            }
        }
        lemma_split_append(x, l.drop_last(), sep);
        assert((x + l).drop_last() =~= x + l.drop_last());
        assert(l.last() != sep) by {
            assert(l[l.len() - 1] == l.last());
        }
        let p = split(x, sep);
        let q = p.update(p.len() - 1, p.last() + l.drop_last());
        assert(q.last() == p.last() + l.drop_last());
        assert((p.last() + l.drop_last()).push(l.last()) =~= p.last() + l);
        assert(split(x + l, sep) =~= p.update(p.len() - 1, p.last() + l));
    }
}

/// A line that `lines` gives back unchanged: no newline in it, no carriage return at its end.
pub open spec fn clean_line(l: Seq<char>) -> bool {
    !l.contains('\n') && (l.len() == 0 || l.last() != '\r')
}

proof fn lemma_split_join_lines(ls: Seq<Seq<char>>)
    requires
        forall|i: int| 0 <= i < ls.len() ==> clean_line(#[trigger] ls[i]),
    ensures
        split(join_lines(ls), '\n') == ls.push(Seq::<char>::empty()),
    decreases ls.len(),
{
    if ls.len() == 0 {
        assert(split(join_lines(ls), '\n') =~= ls.push(Seq::<char>::empty()));
    } else {
        let pre = ls.drop_last();
        assert forall|i: int| 0 <= i < pre.len() implies clean_line(#[trigger] pre[i]) by {
            assert(pre[i] == ls[i]);
        }
        lemma_split_join_lines(pre);
        let l = ls.last();
        assert(clean_line(ls[ls.len() - 1]));
        lemma_split_append(join_lines(pre), l, '\n');
        let j = join_lines(pre) + l;
        assert(join_lines(ls) =~= j.push('\n'));
        assert(j.push('\n').drop_last() =~= j);
        assert(split(join_lines(ls), '\n') =~= ls.push(Seq::<char>::empty()));
    }
}

/// `lines` gives back the lines that `join_lines` joined.
pub proof fn lemma_lines_join_lines(ls: Seq<Seq<char>>)
    requires
        forall|i: int| 0 <= i < ls.len() ==> clean_line(#[trigger] ls[i]),
    ensures
        lines(join_lines(ls)) == ls,
{
    lemma_split_join_lines(ls);
    if ls.len() > 0 {
        let parts = ls.push(Seq::<char>::empty());
        assert(parts.take(parts.len() - 1) =~= ls);
        assert forall|i: int| 0 <= i < ls.len() implies strip_cr(ls[i]) == ls[i] by {
            assert(clean_line(ls[i]));
        }
        assert(ls.map_values(|l: Seq<char>| strip_cr(l)) =~= ls);
        assert(join_lines(ls).len() > 0);
    } else {
        assert(join_lines(ls).len() == 0);
    }
}

/// Position of the first `c` in `s`.
pub open spec fn first_index_of(s: Seq<char>, c: char) -> Option<int>
    decreases s.len(),
{
    if s.len() == 0 {
        None
    } else if s[0] == c {
        Some(0)
    } else {
        match first_index_of(s.drop_first(), c) {
            Some(i) => Some(i + 1),
            None => None,
        }
    }
}

/// What `first_index_of` gives: `Some(i)` for the first occurrence, `None` when there is none.
pub proof fn lemma_first_index_of(s: Seq<char>, c: char)
    ensures
        match first_index_of(s, c) {
            Some(i) => 0 <= i < s.len() && s[i] == c && forall|j: int| 0 <= j < i ==> s[j] != c,
            None => !s.contains(c),
        },
    decreases s.len(),
{
    if s.len() > 0 && s[0] != c {
        lemma_first_index_of(s.drop_first(), c);
        match first_index_of(s.drop_first(), c) {
            Some(i) => {
                assert forall|j: int| 0 <= j < i + 1 implies s[j] != c by {
                    if j > 0 {
                        assert(s[j] == s.drop_first()[j - 1]);
                    }
                }
            },
            None => {
                if s.contains(c) {
                    let j = choose|j: int| 0 <= j < s.len() && s[j] == c;
                    assert(s.drop_first()[j - 1] == c);
                }
            },
        }
    }
}

/// The first position of `c` in `s`, if any.
pub fn find_char(s: &[char], c: char) -> (r: Option<usize>)
    ensures
        r matches Some(i) ==> first_index_of(s@, c) == Some(i as int),
        r is None ==> first_index_of(s@, c) is None,
{
    proof {
        lemma_first_index_of(s@, c);
    }
    let mut k: usize = 0;
    while k < s.len()
        invariant
            k <= s@.len(),
            forall|j: int| 0 <= j < k ==> s@[j] != c,
        decreases s.len() - k,
    {
        if s[k] == c {
            proof {
                lemma_first_index_of(s@, c);
                match first_index_of(s@, c) {
                    Some(i) => {
                        assert(i == k) by {
                            if i < k {
                                assert(s@[i] != c);
                            }
                            if i > k {
                                assert(s@[k as int] == c);
                            }
                        }
                    },
                    None => {
                        assert(s@.contains(c)) by {
                            assert(s@[k as int] == c);
                        }
                    },
                }
            }
            return Some(k);
        }
        k = k + 1;
    }
    proof {
        match first_index_of(s@, c) {
            Some(i) => {
                assert(s@[i] != c);
            },
            None => {},
        }
    }
    None
}

} // verus!

verus! {

/// Text with every ASCII small letter made capital.
pub fn ascii_upper_chars(s: &[char]) -> (r: Vec<char>)
    ensures
        r@ == ascii_upper(s@),
{
    let mut out: Vec<char> = Vec::new();
    let mut k: usize = 0;
    while k < s.len()
        invariant
            k <= s@.len(),
            out@ == ascii_upper(s@.take(k as int)),
        decreases s.len() - k,
    {
        let c = s[k];
        let d = if 'a' <= c && c <= 'z' {
            let b: u32 = c as u32;
            let x: u8 = (b - 32) as u8;
            x as char
        } else {
            c
        };
        out.push(d);
        k = k + 1;
        assert(out@ =~= ascii_upper(s@.take(k as int)));
    }
    assert(s@.take(k as int) =~= s@);
    out
}

} // verus!

verus! {

proof fn lemma_trim_start_len(s: Seq<char>)
    ensures
        trim_start(s).len() <= s.len(),
        s.len() > 0 && is_ws(s[0]) ==> trim_start(s).len() < s.len(),
    decreases s.len(),
{
    if s.len() > 0 && is_ws(s[0]) {
        lemma_trim_start_len(s.drop_first());
    }
}

proof fn lemma_trim_end_len(s: Seq<char>)
    ensures
        trim_end(s).len() <= s.len(),
        s.len() > 0 && is_ws(s.last()) ==> trim_end(s).len() < s.len(),
    decreases s.len(),
{
    if s.len() > 0 && is_ws(s.last()) {
        lemma_trim_end_len(s.drop_last());
    }
}

/// Trimmed non-empty text neither starts nor ends with white space.
pub proof fn lemma_trimmed_ends(s: Seq<char>)
    requires
        trim(s) == s,
        s.len() > 0,
    ensures
        !is_ws(s[0]),
        !is_ws(s.last()),
{
    lemma_trim_start_len(s);
    lemma_trim_end_len(trim_start(s));
    if !is_ws(s[0]) {
        assert(trim_start(s) == s);
        lemma_trim_end_len(s);
    }
}

} // verus!

verus! {

/// A `String` holding the characters of `s`.
pub fn string_of(s: &str) -> (r: String)
    ensures
        r@ == s@,
{
    let cs = str_chars(s);
    chars_to_string(cs.as_slice())
}

/// Splitting text, a separator, and a last piece without separators: the pieces of the
/// text, then that last piece.
pub proof fn lemma_split_push_piece(x: Seq<char>, sep: char, l: Seq<char>)
    requires
        !l.contains(sep),
    ensures
        split(x + seq![sep] + l, sep) == split(x, sep).push(l),
{
    let xs = x + seq![sep];
    assert(xs.drop_last() =~= x);
    assert(xs.last() == sep);
    lemma_split_nonempty(x, sep);
    assert(split(xs, sep) == split(x, sep).push(Seq::<char>::empty()));
    lemma_split_append(xs, l, sep);
    assert(x + seq![sep] + l =~= xs + l);
    assert(Seq::<char>::empty() + l =~= l);
    assert(split(x, sep).push(Seq::<char>::empty()).update(split(x, sep).len() as int, l)
        =~= split(x, sep).push(l));
}

} // verus!

verus! {

/// Replacing a pattern that does not occur leaves the text unchanged.
pub proof fn lemma_replace_absent(s: Seq<char>, p: Seq<char>, r: Seq<char>)
    requires
        p.len() > 0,
        !contains(s, p),
    ensures
        replace(s, p, r) == s,
    decreases s.len(),
{
    if s.len() > 0 {
        let t = s.skip(1);
        assert(!contains(t, p)) by {
            if contains(t, p) {
                let i = choose|i: int| occurs_at(t, p, i);
                assert(s.subrange(i + 1, i + 1 + p.len()) =~= t.subrange(i, i + p.len()));
                assert(occurs_at(s, p, i + 1));
            }
        }
        lemma_replace_absent(t, p, r);
        if p.len() <= s.len() && s.take(p.len() as int) == p {
            assert(s.subrange(0, p.len() as int) =~= s.take(p.len() as int));
            assert(occurs_at(s, p, 0));
        }
        assert(seq![s[0]] + t =~= s);
    }
}

} // verus!
