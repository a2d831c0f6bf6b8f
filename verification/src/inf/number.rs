//! Numbers written with a unit after them (`22.45(km)`, `220000V`, `-1(Ω)`), read as
//! channel numbers or as signs.
//!
//! The reader takes the longest prefix made of digits, one decimal point before any
//! exponent, one exponent mark `e`/`E` (not first) and signs (first, or right after the
//! exponent mark). That prefix is a number when it has the shape
//! `[sign] digits [. digits] [e [sign] digits]` with at least one mantissa digit. Its
//! value is computed exactly: a channel number is the value's integer part, 0 for a
//! negative value, at most `usize::MAX`.

use vstd::prelude::*;

use crate::cfg::channel::lemma_dec_plain_field;
use crate::text::{
    all_digits, dec, digits_value, find_char, first_index_of, is_digit, lemma_dec_digits,
    lemma_digits_value_step, lemma_first_index_of, slice_chars, trim, trim_chars,
};
use crate::time::pow10;

verus! {

/// End of the prefix accepted by the number reader, scanning `s` from `i` on.
pub open spec fn scan_from(s: Seq<char>, i: int, dot: bool, exp: bool) -> int
    decreases s.len() - i,
{
    if i < 0 || i >= s.len() {
        i
    } else if is_digit(s[i]) {
        scan_from(s, i + 1, dot, exp)
    } else if (s[i] == '-' || s[i] == '+') && (i == 0 || s[i - 1] == 'e' || s[i - 1] == 'E') {
        scan_from(s, i + 1, dot, exp)
    } else if s[i] == '.' && !dot && !exp {
        scan_from(s, i + 1, true, exp)
    } else if (s[i] == 'e' || s[i] == 'E') && !exp && i > 0 {
        scan_from(s, i + 1, dot, true)
    } else {
        i
    }
}

proof fn lemma_scan_bounds(s: Seq<char>, i: int, dot: bool, exp: bool)
    requires
        0 <= i <= s.len(),
    ensures
        i <= scan_from(s, i, dot, exp) <= s.len(),
    decreases s.len() - i,
{
    if i < s.len() {
        lemma_scan_bounds(s, i + 1, dot, exp);
        lemma_scan_bounds(s, i + 1, true, exp);
        lemma_scan_bounds(s, i + 1, dot, true);
    }
}

/// The numeric prefix of `s` once trimmed.
pub open spec fn number_text(s: Seq<char>) -> Seq<char> {
    trim(s).take(scan_from(trim(s), 0, false, false))
}

/// Position of the first exponent mark `e` or `E`.
pub open spec fn first_exp(s: Seq<char>) -> Option<int>
    decreases s.len(),
{
    if s.len() == 0 {
        None
    } else if s[0] == 'e' || s[0] == 'E' {
        Some(0)
    } else {
        match first_exp(s.drop_first()) {
            Some(i) => Some(i + 1),
            None => None,
        }
    }
}

proof fn lemma_first_exp(s: Seq<char>)
    ensures
        match first_exp(s) {
            Some(i) => 0 <= i < s.len() && (s[i] == 'e' || s[i] == 'E') && forall|j: int|
                0 <= j < i ==> !(#[trigger] s[j] == 'e' || s[j] == 'E'),
            None => forall|j: int| 0 <= j < s.len() ==> !(#[trigger] s[j] == 'e' || s[j] == 'E'),
        },
    decreases s.len(),
{
    if s.len() > 0 && !(s[0] == 'e' || s[0] == 'E') {
        lemma_first_exp(s.drop_first());
        assert forall|j: int| 1 <= j < s.len() implies #[trigger] s[j] == s.drop_first()[j - 1] by {}
    }
}

/// Length of a leading sign.
pub open spec fn sign_len(p: Seq<char>) -> int {
    if p.len() > 0 && (p[0] == '+' || p[0] == '-') {
        1
    } else {
        0
    }
}

/// The number starts with a minus sign.
pub open spec fn is_neg(p: Seq<char>) -> bool {
    p.len() > 0 && p[0] == '-'
}

/// The number without its sign.
pub open spec fn unsigned_part(p: Seq<char>) -> Seq<char> {
    p.skip(sign_len(p))
}

/// The part before the exponent mark.
pub open spec fn mantissa(p: Seq<char>) -> Seq<char> {
    match first_exp(unsigned_part(p)) {
        Some(e) => unsigned_part(p).take(e),
        None => unsigned_part(p),
    }
}

/// Whether there is an exponent mark.
pub open spec fn has_exp(p: Seq<char>) -> bool {
    first_exp(unsigned_part(p)) is Some
}

/// The part after the exponent mark (empty without one).
pub open spec fn exponent_text(p: Seq<char>) -> Seq<char> {
    match first_exp(unsigned_part(p)) {
        Some(e) => unsigned_part(p).skip(e + 1),
        None => Seq::<char>::empty(),
    }
}

/// Digits before the decimal point.
pub open spec fn int_digits(p: Seq<char>) -> Seq<char> {
    match first_index_of(mantissa(p), '.') {
        Some(d) => mantissa(p).take(d),
        None => mantissa(p),
    }
}

/// Digits after the decimal point.
pub open spec fn frac_digits(p: Seq<char>) -> Seq<char> {
    match first_index_of(mantissa(p), '.') {
        Some(d) => mantissa(p).skip(d + 1),
        None => Seq::<char>::empty(),
    }
}

/// The exponent is negative.
pub open spec fn exp_neg(p: Seq<char>) -> bool {
    exponent_text(p).len() > 0 && exponent_text(p)[0] == '-'
}

/// The digits of the exponent.
pub open spec fn exp_digits(p: Seq<char>) -> Seq<char> {
    let x = exponent_text(p);
    if x.len() > 0 && (x[0] == '+' || x[0] == '-') {
        x.skip(1)
    } else {
        x
    }
}

/// `p` has the shape `[sign] digits [. digits] [e [sign] digits]` with at least one
/// mantissa digit: the texts that `str::parse::<f64>` reads as a decimal number.
pub open spec fn number_ok(p: Seq<char>) -> bool {
    &&& all_digits(int_digits(p))
    &&& all_digits(frac_digits(p))
    &&& int_digits(p).len() + frac_digits(p).len() > 0
    &&& has_exp(p) ==> exp_digits(p).len() > 0 && all_digits(exp_digits(p))
}

/// Where the decimal point falls among all mantissa digits once the exponent is applied.
pub open spec fn point_position(p: Seq<char>) -> int {
    int_digits(p).len() + if has_exp(p) {
        if exp_neg(p) {
            -(digits_value(exp_digits(p)) as int)
        } else {
            digits_value(exp_digits(p)) as int
        }
    } else {
        0
    }
}

/// Integer part of the number whose digits are `g` with the decimal point after `pp` of them.
pub open spec fn floor_value(g: Seq<char>, pp: int) -> nat {
    if pp <= 0 {
        0
    } else if pp <= g.len() {
        digits_value(g.take(pp))
    } else {
        digits_value(g) * pow10((pp - g.len()) as nat)
    }
}

/// The channel number a numeric prefix stands for: `None` when it is no number, 0 for a
/// negative number, else its integer part, at most `usize::MAX`.
pub open spec fn number_index_of(p: Seq<char>) -> Option<nat> {
    if !number_ok(p) {
        None
    } else if is_neg(p) {
        Some(0)
    } else {
        let v = floor_value(int_digits(p) + frac_digits(p), point_position(p));
        Some(if v > usize::MAX { usize::MAX as nat } else { v })
    }
}

/// The numeric prefix is a number below zero.
pub open spec fn number_negative(p: Seq<char>) -> bool {
    number_ok(p) && is_neg(p) && digits_value(int_digits(p) + frac_digits(p)) > 0
}

/// The channel number written at the start of `s` (see `number_index_of`).
pub open spec fn number_index(s: Seq<char>) -> Option<nat> {
    number_index_of(number_text(s))
}

// ---------------------------------------------------------------- computing

fn scan_number(t: &[char]) -> (end: usize)
    ensures
        end as int == scan_from(t@, 0, false, false),
        end <= t@.len(),
{
    let n = t.len();
    let mut i: usize = 0;
    let mut dot = false;
    let mut exp = false;
    while i < n
        invariant
            n == t@.len(),
            i <= n,
            scan_from(t@, i as int, dot, exp) == scan_from(t@, 0, false, false),
        decreases n - i,
    {
        let c = t[i];
        if '0' <= c && c <= '9' {
        } else if (c == '-' || c == '+') && (i == 0 || t[i - 1] == 'e' || t[i - 1] == 'E') {
        } else if c == '.' && !dot && !exp {
            dot = true;
        } else if (c == 'e' || c == 'E') && !exp && i > 0 {
            exp = true;
        } else {
            return i;
        }
        i = i + 1;
    }
    i
}

fn find_exp(s: &[char]) -> (r: Option<usize>)
    ensures
        r matches Some(i) ==> first_exp(s@) == Some(i as int),
        r is None ==> first_exp(s@) is None,
{
    proof {
        lemma_first_exp(s@);
    }
    let n = s.len();
    let mut k: usize = 0;
    while k < n
        invariant
            n == s@.len(),
            k <= n,
            forall|j: int| 0 <= j < k ==> !(#[trigger] s@[j] == 'e' || s@[j] == 'E'),
        decreases n - k,
    {
        if s[k] == 'e' || s[k] == 'E' {
            proof {
                lemma_first_exp(s@);
                match first_exp(s@) {
                    Some(i) => {
                        if i < k {
                            assert(!(s@[i] == 'e' || s@[i] == 'E'));
                        }
                        if i > k {
                            assert(!(s@[k as int] == 'e' || s@[k as int] == 'E'));
                        }
                    },
                    None => {
                        assert(!(s@[k as int] == 'e' || s@[k as int] == 'E'));
                    },
                }
            }
            return Some(k);
        }
        k = k + 1;
    }
    proof {
        lemma_first_exp(s@);
        match first_exp(s@) {
            Some(i) => {
                assert(!(s@[i] == 'e' || s@[i] == 'E'));
            },
            None => {},
        }
    }
    None
}

fn digits_only(s: &[char]) -> (r: bool)
    ensures
        r == all_digits(s@),
{
    let n = s.len();
    let mut k: usize = 0;
    while k < n
        invariant
            n == s@.len(),
            k <= n,
            forall|j: int| 0 <= j < k ==> is_digit(#[trigger] s@[j]),
        decreases n - k,
    {
        if !('0' <= s[k] && s[k] <= '9') {
            return false;
        }
        k = k + 1;
    }
    true
}

/// The smaller of two numbers.
pub open spec fn min_nat(a: nat, b: nat) -> nat {
    if a < b {
        a
    } else {
        b
    }
}

proof fn lemma_sat_step(a: nat, d: nat, l: nat)
    ensures
        min_nat(min_nat(a, l) * 10 + d, l) == min_nat(a * 10 + d, l),
{
}

/// The value of a digit string, or `lim` when that is smaller.
fn sat_value(ds: &[char], lim: u128) -> (r: u128)
    requires
        all_digits(ds@),
        lim < u128::MAX / 16,
    ensures
        r as nat == min_nat(digits_value(ds@), lim as nat),
{
    let n = ds.len();
    let mut acc: u128 = 0;
    let mut k: usize = 0;
    assert(ds@.take(0) =~= Seq::<char>::empty());
    while k < n
        invariant
            n == ds@.len(),
            k <= n,
            all_digits(ds@),
            lim < u128::MAX / 16,
            acc as nat == min_nat(digits_value(ds@.take(k as int)), lim as nat),
        decreases n - k,
    {
        let d = (ds[k] as u32 - '0' as u32) as u128;
        proof {
            assert(is_digit(ds@[k as int]));
            lemma_digits_value_step(ds@, k as int);
            lemma_sat_step(digits_value(ds@.take(k as int)), d as nat, lim as nat);
        }
        let next = acc * 10 + d;
        acc = if next < lim { next } else { lim };
        k = k + 1;
    }
    assert(ds@.take(n as int) =~= ds@);
    acc
}

proof fn lemma_pow10_big(k: nat)
    requires
        k >= 21,
    ensures
        pow10(k) > usize::MAX,
    decreases k,
{
    if k > 21 {
        lemma_pow10_big((k - 1) as nat);
    } else {
        reveal_with_fuel(pow10, 22);
        assert(pow10(21) == 1000000000000000000000nat);
    }
}

proof fn lemma_pow10_pos(k: nat)
    ensures
        pow10(k) >= 1,
    decreases k,
{
    if k > 0 {
        lemma_pow10_pos((k - 1) as nat);
    }
}

/// The channel number written at the start of `s` (see `number_index`).
pub fn number_index_chars(s: &[char]) -> (r: Option<usize>)
    ensures
        match r {
            Some(v) => number_index(s@) == Some(v as nat),
            None => number_index(s@) is None,
        },
{
    let t = trim_chars(s);
    let end = scan_number(t.as_slice());
    let p = slice_chars(t.as_slice(), 0, end);
    assert(p@ =~= number_text(s@));
    number_value(p.as_slice())
}

/// The numeric prefix of `s` once trimmed (see `number_text`); empty when `s` does not
/// start with a number character.
pub fn number_text_of(s: &str) -> (r: String)
    ensures
        r@ == number_text(s@),
{
    let cs = crate::text::str_chars(s);
    let t = trim_chars(cs.as_slice());
    let end = scan_number(t.as_slice());
    let p = slice_chars(t.as_slice(), 0, end);
    assert(p@ =~= number_text(s@));
    crate::text::chars_to_string(p.as_slice())
}

/// The parts of a numeric prefix: negative sign, integer digits, fraction digits,
/// exponent present, exponent negative, exponent digits.
fn number_parts(p: &[char]) -> (r: (bool, Vec<char>, Vec<char>, bool, bool, Vec<char>))
    ensures
        r.0 == is_neg(p@),
        r.1@ == int_digits(p@),
        r.2@ == frac_digits(p@),
        r.3 == has_exp(p@),
        r.4 == exp_neg(p@),
        r.5@ == exp_digits(p@),
        !r.3 ==> !r.4,
{
    let pn = p.len();
    let sl: usize = if pn > 0 && (p[0] == '+' || p[0] == '-') { 1 } else { 0 };
    let neg = pn > 0 && p[0] == '-';
    let b = slice_chars(p, sl, pn);
    assert(b@ =~= unsigned_part(p@));
    let bn = b.len();
    let (m, x, hx) = match find_exp(b.as_slice()) {
        Some(e) => {
            proof {
                lemma_first_exp(b@);
            }
            let m = slice_chars(b.as_slice(), 0, e);
            let x = slice_chars(b.as_slice(), e + 1, bn);
            assert(m@ =~= mantissa(p@));
            assert(x@ =~= exponent_text(p@));
            (m, x, true)
        },
        None => {
            let m = slice_chars(b.as_slice(), 0, bn);
            assert(m@ =~= mantissa(p@));
            assert(exponent_text(p@) =~= Seq::<char>::empty());
            (m, Vec::new(), false)
        },
    };
    let mn = m.len();
    let (d1, d2) = match find_char(m.as_slice(), '.') {
        Some(d) => {
            proof {
                lemma_first_index_of(m@, '.');
            }
            let d1 = slice_chars(m.as_slice(), 0, d);
            let d2 = slice_chars(m.as_slice(), d + 1, mn);
            assert(d1@ =~= int_digits(p@));
            assert(d2@ =~= frac_digits(p@));
            (d1, d2)
        },
        None => {
            let d1 = slice_chars(m.as_slice(), 0, mn);
            assert(d1@ =~= int_digits(p@));
            assert(frac_digits(p@) =~= Seq::<char>::empty());
            (d1, Vec::new())
        },
    };
    let xn = x.len();
    let (eneg, ed) = if xn > 0 && (x[0] == '+' || x[0] == '-') {
        (x[0] == '-', slice_chars(x.as_slice(), 1, xn))
    } else {
        (false, slice_chars(x.as_slice(), 0, xn))
    };
    assert(ed@ =~= exp_digits(p@));
    (neg, d1, d2, hx, eneg, ed)
}

/// The integer part of the digits `gs` with the point after `pp` of them, or `lim` when
/// that is smaller.
fn floor_sat(gs: &[char], pp: i128, lim: u128) -> (v: u128)
    requires
        all_digits(gs@),
        lim < u128::MAX / 16,
    ensures
        v as nat == min_nat(floor_value(gs@, pp as int), lim as nat),
{
    let gl = gs.len();
    if pp <= 0 {
        0
    } else if pp <= gl as i128 {
        let head = slice_chars(gs, 0, pp as usize);
        assert(head@ =~= gs@.take(pp as int));
        sat_value(head.as_slice(), lim)
    } else {
        let mut acc = sat_value(gs, lim);
        assert(pow10(0) == 1);
        assert(digits_value(gs@) * pow10(0) == digits_value(gs@));
        let k: u128 = (pp - gl as i128) as u128;
        let mut i: u128 = 0;
        while i < k
            invariant
                i <= k,
                lim < u128::MAX / 16,
                acc as nat == min_nat(digits_value(gs@) * pow10(i as nat), lim as nat),
            decreases k - i,
        {
            proof {
                assert(pow10((i + 1) as nat) == 10 * pow10(i as nat));
                lemma_sat_step(digits_value(gs@) * pow10(i as nat), 0, lim as nat);
                assert(digits_value(gs@) * pow10((i + 1) as nat) == (digits_value(gs@) * pow10(
                    i as nat,
                )) * 10) by (nonlinear_arith)
                    requires
                        pow10((i + 1) as nat) == 10 * pow10(i as nat),
                ;
            }
            let next = acc * 10;
            acc = if next < lim { next } else { lim };
            i = i + 1;
        }
        assert(floor_value(gs@, pp as int) == digits_value(gs@) * pow10(k as nat));
        acc
    }
}

/// The channel number a numeric prefix stands for (see `number_index_of`).
fn number_value(p: &[char]) -> (r: Option<usize>)
    ensures
        match r {
            Some(v) => number_index_of(p@) == Some(v as nat),
            None => number_index_of(p@) is None,
        },
{
    let (neg, d1, d2, hx, eneg, ed) = number_parts(p);
    if !digits_only(d1.as_slice()) || !digits_only(d2.as_slice()) || (d1.len() == 0 && d2.len()
        == 0) {
        return None;
    }
    if hx && (ed.len() == 0 || !digits_only(ed.as_slice())) {
        return None;
    }
    assert(number_ok(p@));
    if neg {
        return Some(0);
    }
    let mut g = slice_chars(d1.as_slice(), 0, d1.len());
    crate::text::push_all(&mut g, d2.as_slice());
    let ghost gs = int_digits(p@) + frac_digits(p@);
    assert(g@ =~= gs);
    let gl = g.len();
    let d1n = d1.len();
    let cap: u128 = gl as u128 + 21;
    let ev: u128 = if hx { sat_value(ed.as_slice(), cap) } else { 0 };
    let pp: i128 = if eneg { d1n as i128 - ev as i128 } else { d1n as i128 + ev as i128 };
    let lim: u128 = usize::MAX as u128 + 1;
    let v = floor_sat(g.as_slice(), pp, lim);
    proof {
        if hx && digits_value(exp_digits(p@)) >= cap {
            lemma_saturated_exp(gs, d1n as nat, digits_value(exp_digits(p@)), cap as nat, eneg);
        } else {
            assert(pp as int == point_position(p@));
        }
    }
    if v > usize::MAX as u128 {
        Some(usize::MAX)
    } else {
        Some(v as usize)
    }
}

/// A number capped at `usize::MAX`.
pub open spec fn clamp_usize(v: nat) -> nat {
    if v > usize::MAX {
        usize::MAX as nat
    } else {
        v
    }
}

/// An exponent too large to matter: capping it leaves the capped integer part unchanged.
proof fn lemma_saturated_exp(gs: Seq<char>, d1n: nat, e: nat, cap: nat, eneg: bool)
    requires
        cap == gs.len() + 21,
        e >= cap,
        d1n <= gs.len(),
    ensures
        clamp_usize(floor_value(gs, if eneg { d1n - e } else { (d1n + e) as int })) == clamp_usize(
            floor_value(gs, if eneg { d1n - cap } else { (d1n + cap) as int }),
        ),
{
    if !eneg {
        let dv = digits_value(gs);
        let k1 = (d1n + e - gs.len()) as nat;
        let k2 = (d1n + cap - gs.len()) as nat;
        assert(floor_value(gs, (d1n + e) as int) == dv * pow10(k1));
        assert(floor_value(gs, (d1n + cap) as int) == dv * pow10(k2));
        if dv == 0 {
            assert(dv * pow10(k1) == 0) by (nonlinear_arith)
                requires
                    dv == 0,
            ;
            assert(dv * pow10(k2) == 0) by (nonlinear_arith)
                requires
                    dv == 0,
            ;
        } else {
            lemma_pow10_big(k1);
            lemma_pow10_big(k2);
            let p1 = pow10(k1);
            let p2 = pow10(k2);
            assert(dv * p1 >= p1) by (nonlinear_arith)
                requires
                    dv >= 1,
            ;
            assert(dv * p2 >= p2) by (nonlinear_arith)
                requires
                    dv >= 1,
            ;
        }
    }
}

/// Whether the number written at the start of `s` is below zero (see `number_negative`).
pub fn number_is_negative_chars(s: &[char]) -> (r: bool)
    ensures
        r == number_negative(number_text(s@)),
{
    let t = trim_chars(s);
    let end = scan_number(t.as_slice());
    let p = slice_chars(t.as_slice(), 0, end);
    assert(p@ =~= number_text(s@));
    let (neg, d1, d2, hx, eneg, ed) = number_parts(p.as_slice());
    if !digits_only(d1.as_slice()) || !digits_only(d2.as_slice()) || (d1.len() == 0 && d2.len()
        == 0) {
        return false;
    }
    if hx && (ed.len() == 0 || !digits_only(ed.as_slice())) {
        return false;
    }
    if !neg {
        return false;
    }
    let mut g = slice_chars(d1.as_slice(), 0, d1.len());
    crate::text::push_all(&mut g, d2.as_slice());
    let ghost gs = int_digits(p@) + frac_digits(p@);
    assert(g@ =~= gs);
    let v = sat_value(g.as_slice(), 1);
    v > 0
}

proof fn lemma_scan_digits(s: Seq<char>, i: int, dot: bool, exp: bool)
    requires
        all_digits(s),
        0 <= i <= s.len(),
    ensures
        scan_from(s, i, dot, exp) == s.len(),
    decreases s.len() - i,
{
    if i < s.len() {
        assert(is_digit(s[i]));
        lemma_scan_digits(s, i + 1, dot, exp);
    }
}

/// A decimal number is read back as itself, and not as a negative number.
pub proof fn lemma_number_index_dec(v: nat)
    requires
        v <= usize::MAX,
    ensures
        number_index(dec(v)) == Some(v),
        !number_negative(number_text(dec(v))),
{
    let d = dec(v);
    lemma_dec_digits(v);
    lemma_dec_plain_field(v);
    lemma_scan_digits(d, 0, false, false);
    assert(number_text(d) =~= d);
    assert(is_digit(d[0]));
    assert(sign_len(d) == 0);
    assert(unsigned_part(d) =~= d);
    lemma_first_exp(d);
    if first_exp(d) is Some {
        let i = first_exp(d)->0;
        assert(is_digit(d[i]));
    }
    lemma_first_index_of(d, '.');
    if first_index_of(d, '.') is Some {
        let i = first_index_of(d, '.')->0;
        assert(is_digit(d[i]));
    }
    assert(int_digits(d) == d);
    assert(frac_digits(d) =~= Seq::<char>::empty());
    assert(d + Seq::<char>::empty() =~= d);
    assert(d.take(d.len() as int) =~= d);
}

} // verus!
