//! Binary data files (`BINARY`, `BINARY32`, `FLOAT32`): fixed-size little-endian
//! records of sample number, timestamp, one raw value per analog channel (16 or 32 bits;
//! for `FLOAT32` the bits of the float) and the status channels packed sixteen to a word.
//! Values stay raw here: scaling by the channel factors is the caller's.

use vstd::prelude::*;

use crate::cfg::channel::DataType;
use crate::error::{Error, FileRole, ParseReason};

verus! {

/// Raw contents of a data file, by column: sample numbers, timestamps, raw analog values
/// (one column per channel), status values (one column per channel).
#[derive(Debug, Clone, PartialEq, Eq)]
pub struct RawDat {
    /// Sample numbers.
    pub sample_index: Vec<i32>,
    /// Timestamps in the file's time unit.
    pub timestamps: Vec<i32>,
    /// Raw analog values (the bits of the float for `FLOAT32`).
    pub analogs: Vec<Vec<i32>>,
    /// Status values.
    pub statuses: Vec<Vec<u8>>,
}

/// Bytes per analog value: 4 for the 32-bit layouts, else 2.
pub open spec fn analog_size(dt: DataType) -> int {
    if dt == DataType::Binary32 || dt == DataType::Float32 {
        4
    } else {
        2
    }
}

/// Words of sixteen status bits for `sc` status channels.
pub open spec fn status_words(sc: nat) -> nat {
    (sc + 15) / 16
}

/// Bytes per record.
pub open spec fn record_size(ac: nat, sc: nat, dt: DataType) -> int {
    8 + ac * analog_size(dt) + status_words(sc) * 2
}

/// The unsigned 16-bit little-endian value at `o`.
pub open spec fn le_u16(b: Seq<u8>, o: int) -> int {
    b[o] + 256 * b[o + 1]
}

/// The unsigned 32-bit little-endian value at `o`.
pub open spec fn le_u32(b: Seq<u8>, o: int) -> int {
    b[o] + 256 * b[o + 1] + 65536 * b[o + 2] + 16777216 * b[o + 3]
}

/// A 32-bit pattern read as a signed value.
pub open spec fn signed32(u: int) -> int {
    if u < 0x8000_0000 {
        u
    } else {
        u - 0x1_0000_0000
    }
}

/// A 16-bit pattern read as a signed value.
pub open spec fn signed16(u: int) -> int {
    if u < 0x8000 {
        u
    } else {
        u - 0x10000
    }
}

/// `w` shifted right by `k` bits.
pub open spec fn shr(w: nat, k: nat) -> nat
    decreases k,
{
    if k == 0 {
        w
    } else {
        shr(w, (k - 1) as nat) / 2
    }
}

/// Bit `k` of `w`.
pub open spec fn bit(w: nat, k: nat) -> nat {
    shr(w, k) % 2
}

/// The raw analog value at `o`.
pub open spec fn raw_analog(b: Seq<u8>, o: int, dt: DataType) -> int {
    if analog_size(dt) == 4 {
        signed32(le_u32(b, o))
    } else {
        signed16(le_u16(b, o))
    }
}

/// How many records are read: the whole records the bytes hold, no more than `expected`
/// when it is given.
pub open spec fn records_read(len: nat, rs: int, expected: Option<usize>) -> int {
    let avail = len as int / rs;
    match expected {
        Some(e) => if e < avail {
            e as int
        } else {
            avail
        },
        None => avail,
    }
}

/// Where record `i` starts.
pub open spec fn record_start(i: int, rs: int) -> int {
    i * rs
}

/// Where the status words of a record start, from the record's start.
pub open spec fn status_offset(ac: nat, dt: DataType) -> int {
    8 + ac * analog_size(dt)
}

/// What reading the records of `b` gives (see `records_read` for how many).
pub open spec fn decoded_ok(
    b: Seq<u8>,
    ac: nat,
    sc: nat,
    dt: DataType,
    expected: Option<usize>,
    r: RawDat,
) -> bool {
    let rs = record_size(ac, sc, dt);
    let n = records_read(b.len(), rs, expected);
    let sz = analog_size(dt);
    &&& r.sample_index@.len() == n
    &&& r.timestamps@.len() == n
    &&& r.analogs@.len() == ac
    &&& r.statuses@.len() == sc
    &&& forall|i: int|
        0 <= i < n ==> #[trigger] r.sample_index@[i] == signed32(le_u32(b, record_start(i, rs)))
            && r.timestamps@[i] == signed32(le_u32(b, record_start(i, rs) + 4))
    &&& forall|ch: int| 0 <= ch < ac ==> (#[trigger] r.analogs@[ch])@.len() == n
    &&& forall|ch: int, i: int|
        0 <= ch < ac && 0 <= i < n ==> #[trigger] r.analogs@[ch]@[i] == raw_analog(
            b,
            record_start(i, rs) + 8 + ch * sz,
            dt,
        )
    &&& forall|ch: int| 0 <= ch < sc ==> (#[trigger] r.statuses@[ch])@.len() == n
    &&& forall|ch: int, i: int|
        0 <= ch < sc && 0 <= i < n ==> #[trigger] r.statuses@[ch]@[i] == bit(
            le_u16(b, record_start(i, rs) + status_offset(ac, dt) + (ch / 16) * 2) as nat,
            (ch % 16) as nat,
        )
}


pub(crate) fn read_u16(b: &[u8], o: usize) -> (r: u16)
    requires
        o + 2 <= b@.len(),
    ensures
        r as int == le_u16(b@, o as int),
{
    b[o] as u16 + 256 * (b[o + 1] as u16)
}

fn read_i32(b: &[u8], o: usize) -> (r: i32)
    requires
        o + 4 <= b@.len(),
    ensures
        r as int == signed32(le_u32(b@, o as int)),
{
    let u: u64 = b[o] as u64 + 256 * (b[o + 1] as u64) + 65536 * (b[o + 2] as u64) + 16777216 * (
    b[o + 3] as u64);
    if u < 0x8000_0000 {
        u as i32
    } else {
        (u as i64 - 0x1_0000_0000i64) as i32
    }
}

pub(crate) fn read_i16(b: &[u8], o: usize) -> (r: i32)
    requires
        o + 2 <= b@.len(),
    ensures
        r as int == signed16(le_u16(b@, o as int)),
{
    let u = read_u16(b, o);
    if u < 0x8000 {
        u as i32
    } else {
        u as i32 - 0x10000
    }
}

pub(crate) fn bit_at(w: u16, k: usize) -> (r: u8)
    requires
        k < 16,
    ensures
        r as nat == bit(w as nat, k as nat),
        r <= 1,
{
    let mut cur = w;
    let mut j: usize = 0;
    while j < k
        invariant
            j <= k,
            cur as nat == shr(w as nat, j as nat),
        decreases k - j,
    {
        cur = cur / 2;
        j = j + 1;
    }
    (cur % 2) as u8
}

pub(crate) proof fn lemma_record_bounds(i: int, n: int, rs: int, len: int)
    requires
        0 <= i < n,
        rs > 0,
        n <= len / rs,
    ensures
        i * rs + rs <= len,
        0 <= i * rs,
{
    assert(i * rs + rs <= n * rs) by (nonlinear_arith)
        requires
            0 <= i < n,
            rs > 0,
    ;
    assert(n * rs <= (len / rs) * rs) by (nonlinear_arith)
        requires
            n <= len / rs,
            rs > 0,
    ;
    assert((len / rs) * rs <= len) by (nonlinear_arith)
        requires
            rs > 0,
    ;
    assert(0 <= i * rs) by (nonlinear_arith)
        requires
            0 <= i,
            rs > 0,
    ;
}

pub(crate) proof fn lemma_field_bounds(ch: int, ac: int, sz: int)
    requires
        0 <= ch < ac,
        sz > 0,
    ensures
        ch * sz + sz <= ac * sz,
        0 <= ch * sz,
{
    assert(ch * sz + sz <= ac * sz) by (nonlinear_arith)
        requires
            0 <= ch < ac,
            sz > 0,
    ;
    assert(0 <= ch * sz) by (nonlinear_arith)
        requires
            0 <= ch,
            sz > 0,
    ;
}

/// Reads the raw records of a binary data file with `ac` analog and `sc` status channels
/// in layout `dt` (not `ASCII`): as many whole records as the bytes hold, no more than
/// `expected` when given; a partial record at the end is ignored (`read_binary_records`
/// refuses both).
pub fn parse_binary_raw(
    data: &[u8],
    ac: usize,
    sc: usize,
    dt: DataType,
    expected: Option<usize>,
) -> (r: RawDat)
    requires
        dt != DataType::Ascii,
        record_size(ac as nat, sc as nat, dt) <= usize::MAX,
    ensures
        decoded_ok(data@, ac as nat, sc as nat, dt, expected, r),
{
    let sz: usize = if dt.is_32bit() { 4 } else { 2 };
    let words: usize = sc / 16 + if sc % 16 != 0 { 1 } else { 0 };
    assert(words == status_words(sc as nat));
    assert(ac * sz <= usize::MAX) by {
        assert(ac * sz <= record_size(ac as nat, sc as nat, dt));
    }
    let so: usize = 8 + ac * sz;
    let rs: usize = so + words * 2;
    let ghost b = data@;
    assert(rs as int == record_size(ac as nat, sc as nat, dt));
    let dlen = data.len();
    assert(data@.len() <= usize::MAX);
    let avail = dlen / rs;
    let n: usize = match expected {
        Some(e) => if e < avail {
            e
        } else {
            avail
        },
        None => avail,
    };
    assert(n as int == records_read(b.len(), rs as int, expected));
    let mut sample_index: Vec<i32> = Vec::new();
    let mut timestamps: Vec<i32> = Vec::new();
    let mut i: usize = 0;
    while i < n
        invariant
            i <= n,
            n <= (data@.len() as int) / (rs as int),
            data@.len() <= usize::MAX,
            rs as int == record_size(ac as nat, sc as nat, dt),
            rs >= 8,
            b == data@,
            sample_index@.len() == i,
            timestamps@.len() == i,
            forall|j: int|
                0 <= j < i ==> #[trigger] sample_index@[j] == signed32(
                    le_u32(b, record_start(j, rs as int)),
                ) && timestamps@[j] == signed32(le_u32(b, record_start(j, rs as int) + 4)),
        decreases n - i,
    {
        proof {
            lemma_record_bounds(i as int, n as int, rs as int, data@.len() as int);
        }
        let o = i * rs;
        sample_index.push(read_i32(data, o));
        timestamps.push(read_i32(data, o + 4));
        i = i + 1;
    }
    let mut analogs: Vec<Vec<i32>> = Vec::new();
    let mut ch: usize = 0;
    while ch < ac
        invariant
            ch <= ac,
            n <= (data@.len() as int) / (rs as int),
            data@.len() <= usize::MAX,
            rs as int == record_size(ac as nat, sc as nat, dt),
            so == 8 + ac * sz,
            sz as int == analog_size(dt),
            rs == so + words * 2,
            b == data@,
            analogs@.len() == ch,
            forall|c: int| 0 <= c < ch ==> (#[trigger] analogs@[c])@.len() == n,
            forall|c: int, j: int|
                0 <= c < ch && 0 <= j < n ==> #[trigger] analogs@[c]@[j] == raw_analog(
                    b,
                    record_start(j, rs as int) + 8 + c * sz,
                    dt,
                ),
        decreases ac - ch,
    {
        proof {
            lemma_field_bounds(ch as int, ac as int, sz as int);
        }
        let fo = 8 + ch * sz;
        let mut col: Vec<i32> = Vec::new();
        let mut j: usize = 0;
        while j < n
            invariant
                j <= n,
                n <= (data@.len() as int) / (rs as int),
                data@.len() <= usize::MAX,
            data@.len() <= usize::MAX,
                rs as int == record_size(ac as nat, sc as nat, dt),
                fo + sz <= so <= rs,
                fo == 8 + ch * sz,
                sz as int == analog_size(dt),
                b == data@,
                col@.len() == j,
                forall|k: int|
                    0 <= k < j ==> #[trigger] col@[k] == raw_analog(
                        b,
                        record_start(k, rs as int) + 8 + ch * sz,
                        dt,
                    ),
            decreases n - j,
        {
            proof {
                lemma_record_bounds(j as int, n as int, rs as int, data@.len() as int);
            }
            let o = j * rs + fo;
            let v = if sz == 4 {
                read_i32(data, o)
            } else {
                read_i16(data, o)
            };
            col.push(v);
            j = j + 1;
        }
        analogs.push(col);
        ch = ch + 1;
    }
    let mut statuses: Vec<Vec<u8>> = Vec::new();
    let mut ch: usize = 0;
    while ch < sc
        invariant
            ch <= sc,
            n <= (data@.len() as int) / (rs as int),
            data@.len() <= usize::MAX,
            rs as int == record_size(ac as nat, sc as nat, dt),
            so as int == status_offset(ac as nat, dt),
            rs == so + words * 2,
            words == status_words(sc as nat),
            b == data@,
            statuses@.len() == ch,
            forall|c: int| 0 <= c < ch ==> (#[trigger] statuses@[c])@.len() == n,
            forall|c: int, j: int|
                0 <= c < ch && 0 <= j < n ==> #[trigger] statuses@[c]@[j] == bit(
                    le_u16(b, record_start(j, rs as int) + status_offset(ac as nat, dt) + (c / 16) * 2)
                        as nat,
                    (c % 16) as nat,
                ),
        decreases sc - ch,
    {
        let wo = so + (ch / 16) * 2;
        assert(wo + 2 <= rs);
        let mut col: Vec<u8> = Vec::new();
        let mut j: usize = 0;
        while j < n
            invariant
                j <= n,
                n <= (data@.len() as int) / (rs as int),
                data@.len() <= usize::MAX,
            data@.len() <= usize::MAX,
                rs as int == record_size(ac as nat, sc as nat, dt),
                wo + 2 <= rs,
                wo as int == status_offset(ac as nat, dt) + (ch / 16) * 2,
                ch < sc,
                b == data@,
                col@.len() == j,
                forall|k: int|
                    0 <= k < j ==> #[trigger] col@[k] == bit(
                        le_u16(b, record_start(k, rs as int) + status_offset(ac as nat, dt) + (ch
                            / 16) * 2) as nat,
                        (ch % 16) as nat,
                    ),
            decreases n - j,
        {
            proof {
                lemma_record_bounds(j as int, n as int, rs as int, data@.len() as int);
            }
            let w = read_u16(data, j * rs + wo);
            col.push(bit_at(w, ch % 16));
            j = j + 1;
        }
        statuses.push(col);
        ch = ch + 1;
    }
    RawDat { sample_index, timestamps, analogs, statuses }
}


/// Reads a binary data file with `ac` analog and `sc` status channels in layout `dt`
/// (not `ASCII`). Refused: a length that is not a whole number of records, then a
/// number of records other than the `expected` number of samples, when one is given.
pub fn read_binary_records(
    data: &[u8],
    ac: usize,
    sc: usize,
    dt: DataType,
    expected: Option<usize>,
) -> (r: Result<RawDat, Error>)
    requires
        dt != DataType::Ascii,
        record_size(ac as nat, sc as nat, dt) <= usize::MAX,
    ensures
        ({
            let rs = record_size(ac as nat, sc as nat, dt);
            let len = data@.len() as int;
            match r {
                Err(err) => if len % rs != 0 {
                    err == Error::Parse {
                        role: FileRole::Dat,
                        line: 0,
                        reason: ParseReason::PartialRecord(len as usize, rs as usize),
                    }
                } else {
                    &&& expected matches Some(x) && x != len / rs
                    &&& err == Error::Parse {
                        role: FileRole::Dat,
                        line: 0,
                        reason: ParseReason::SampleCount(expected->0, (len / rs) as usize),
                    }
                },
                Ok(raw) => {
                    &&& len % rs == 0
                    &&& expected matches Some(x) ==> x == len / rs
                    &&& records_read(data@.len(), rs, expected) == len / rs
                    &&& decoded_ok(data@, ac as nat, sc as nat, dt, expected, raw)
                },
            }
        }),
{
    let sz: usize = if dt.is_32bit() { 4 } else { 2 };
    let words: usize = sc / 16 + if sc % 16 != 0 { 1 } else { 0 };
    assert(words == status_words(sc as nat));
    assert(ac * sz <= usize::MAX) by {
        assert(ac * sz <= record_size(ac as nat, sc as nat, dt));
    }
    let rs: usize = 8 + ac * sz + words * 2;
    assert(rs as int == record_size(ac as nat, sc as nat, dt));
    let len = data.len();
    if len % rs != 0 {
        return Err(
            Error::Parse { role: FileRole::Dat, line: 0, reason: ParseReason::PartialRecord(len, rs) },
        );
    }
    let count = len / rs;
    if let Some(x) = expected {
        if x != count {
            return Err(
                Error::Parse {
                    role: FileRole::Dat,
                    line: 0,
                    reason: ParseReason::SampleCount(x, count),
                },
            );
        }
    }
    Ok(parse_binary_raw(data, ac, sc, dt, expected))
}

/// A signed value's bytes in 32-bit two's complement, little-endian.
pub open spec fn le32_bytes(x: int) -> Seq<u8> {
    let u = if x < 0 {
        x + 0x1_0000_0000
    } else {
        x
    };
    seq![
        (u % 256) as u8,
        ((u / 256) % 256) as u8,
        ((u / 65536) % 256) as u8,
        ((u / 16777216) % 256) as u8,
    ]
}

/// A signed value's bytes in 16-bit two's complement, little-endian.
pub open spec fn le16_bytes(x: int) -> Seq<u8> {
    let u = if x < 0 {
        x + 0x10000
    } else {
        x
    };
    seq![(u % 256) as u8, ((u / 256) % 256) as u8]
}

/// A value clamped to the range of `i16`.
pub open spec fn clamp16(v: int) -> int {
    if v < -32768 {
        -32768
    } else if v > 32767 {
        32767
    } else {
        v
    }
}

/// Status channel `ch` is set at row `row`: the value is there and not 0.
pub open spec fn status_flag(st: Seq<Vec<u8>>, ch: int, row: int) -> bool {
    0 <= ch < st.len() && 0 <= row < st[ch]@.len() && st[ch]@[row] != 0
}

/// Bits `k` to 15 of status word `w` of row `row`: bit `j` is set when status channel
/// `16 w + j` exists and is set.
pub open spec fn word_from(st: Seq<Vec<u8>>, sc: nat, row: int, w: int, k: int) -> nat
    decreases 16 - k,
{
    if k >= 16 || k < 0 {
        0
    } else {
        2 * word_from(st, sc, row, w, k + 1) + (if 16 * w + k < sc && status_flag(
            st,
            16 * w + k,
            row,
        ) {
            1nat
        } else {
            0nat
        })
    }
}

/// Status word `w` of row `row`.
pub open spec fn status_word(st: Seq<Vec<u8>>, sc: nat, row: int, w: int) -> nat {
    word_from(st, sc, row, w, 0)
}

/// Byte `j` of the record of row `row`.
pub open spec fn record_byte(r: RawDat, ac: nat, sc: nat, dt: DataType, row: int, j: int) -> u8 {
    let sz = analog_size(dt);
    let so = status_offset(ac, dt);
    if j < 4 {
        le32_bytes(r.sample_index@[row] as int)[j]
    } else if j < 8 {
        le32_bytes(r.timestamps@[row] as int)[j - 4]
    } else if j < so {
        let v = r.analogs@[(j - 8) / sz]@[row] as int;
        if sz == 4 {
            le32_bytes(v)[(j - 8) % sz]
        } else {
            le16_bytes(clamp16(v))[(j - 8) % sz]
        }
    } else {
        le16_bytes(status_word(r.statuses@, sc, row, (j - so) / 2) as int)[(j - so) % 2]
    }
}

/// The bytes written for raw contents: the record of each row in turn.
pub open spec fn encoded(r: RawDat, ac: nat, sc: nat, dt: DataType) -> Seq<u8> {
    let rs = record_size(ac, sc, dt);
    Seq::new(
        (r.sample_index@.len() * rs) as nat,
        |p: int| record_byte(r, ac, sc, dt, p / rs, p % rs),
    )
}

/// Raw contents that can be written with `ac` analog and `sc` status channels: a timestamp
/// per sample, and at least that many analog columns, each with a value per sample, and
/// status columns.
pub open spec fn writable(r: RawDat, ac: nat, sc: nat) -> bool {
    let n = r.sample_index@.len();
    &&& r.timestamps@.len() >= n
    &&& r.analogs@.len() >= ac
    &&& forall|ch: int| 0 <= ch < ac ==> (#[trigger] r.analogs@[ch])@.len() >= n
    &&& r.statuses@.len() >= sc
}

fn push_le32(out: &mut Vec<u8>, x: i32)
    ensures
        final(out)@ == old(out)@ + le32_bytes(x as int),
{
    let u: u64 = if x < 0 {
        (x as i64 + 0x1_0000_0000i64) as u64
    } else {
        x as u64
    };
    out.push((u % 256) as u8);
    out.push(((u / 256) % 256) as u8);
    out.push(((u / 65536) % 256) as u8);
    out.push(((u / 16777216) % 256) as u8);
    assert(out@ =~= old(out)@ + le32_bytes(x as int));
}

fn push_le16(out: &mut Vec<u8>, x: i32)
    requires
        -32768 <= x < 65536,
    ensures
        final(out)@ == old(out)@ + le16_bytes(x as int),
{
    let u: u32 = if x < 0 {
        (x + 0x10000) as u32
    } else {
        x as u32
    };
    out.push((u % 256) as u8);
    out.push(((u / 256) % 256) as u8);
    assert(out@ =~= old(out)@ + le16_bytes(x as int));
}

proof fn lemma_word_bound(st: Seq<Vec<u8>>, sc: nat, row: int, w: int, k: int)
    requires
        0 <= k <= 16,
    ensures
        word_from(st, sc, row, w, k) < pow2_16_from(k),
    decreases 16 - k,
{
    if k < 16 {
        lemma_word_bound(st, sc, row, w, k + 1);
    }
}

/// `2` to the power `16 - k`.
pub open spec fn pow2_16_from(k: int) -> nat
    decreases 16 - k,
{
    if k >= 16 {
        1
    } else {
        2 * pow2_16_from(k + 1)
    }
}

fn status_word_of(r: &RawDat, sc: usize, row: usize, w: usize) -> (word: i32)
    requires
        r.statuses@.len() >= sc,
        16 * w < sc,
    ensures
        word as int == status_word(r.statuses@, sc as nat, row as int, w as int),
        0 <= word < 65536,
{
    let mut word: u32 = 0;
    let mut k: usize = 16;
    assert(pow2_16_from(16) == 1);
    while k > 0
        invariant
            k <= 16,
            16 * w < sc,
            r.statuses@.len() >= sc,
            word as int == word_from(r.statuses@, sc as nat, row as int, w as int, k as int),
            word < pow2_16_from(k as int),
        decreases k,
    {
        let kk = k - 1;
        let flag = kk < sc - 16 * w && row < r.statuses[16 * w + kk].len() && r.statuses[16 * w
            + kk][row] != 0;
        proof {
            lemma_word_bound(r.statuses@, sc as nat, row as int, w as int, k as int);
            assert(pow2_16_from(kk as int) == 2 * pow2_16_from(k as int));
            assert(pow2_16_from(0) == 65536) by {
                reveal_with_fuel(pow2_16_from, 17);
            }
            assert(pow2_16_from(k as int) <= 65536) by {
                lemma_pow2_16_mono(k as int);
            }
        }
        word = 2 * word + if flag {
            1
        } else {
            0
        };
        k = kk;
    }
    proof {
        assert(pow2_16_from(0) == 65536) by {
            reveal_with_fuel(pow2_16_from, 17);
        }
    }
    word as i32
}

proof fn lemma_pow2_16_mono(k: int)
    requires
        0 <= k <= 16,
    ensures
        pow2_16_from(k) <= 65536,
        pow2_16_from(k) >= 1,
    decreases k,
{
    reveal_with_fuel(pow2_16_from, 17);
    if k > 0 {
        lemma_pow2_16_mono(k - 1);
    }
}


/// The bytes of record `row`.
pub open spec fn record_bytes(r: RawDat, ac: nat, sc: nat, dt: DataType, row: int) -> Seq<u8> {
    Seq::new(record_size(ac, sc, dt) as nat, |j: int| record_byte(r, ac, sc, dt, row, j))
}

fn clamp_i16(v: i32) -> (r: i32)
    ensures
        r as int == clamp16(v as int),
{
    if v < -32768 {
        -32768
    } else if v > 32767 {
        32767
    } else {
        v
    }
}

fn push_record(out: &mut Vec<u8>, r: &RawDat, ac: usize, sc: usize, dt: DataType, row: usize)
    requires
        dt != DataType::Ascii,
        record_size(ac as nat, sc as nat, dt) <= usize::MAX,
        writable(*r, ac as nat, sc as nat),
        row < r.sample_index@.len(),
    ensures
        final(out)@ == old(out)@ + record_bytes(*r, ac as nat, sc as nat, dt, row as int),
{
    let ghost start = old(out)@;
    let ghost rr = *r;
    let sz: usize = if dt.is_32bit() { 4 } else { 2 };
    let words: usize = sc / 16 + if sc % 16 != 0 { 1 } else { 0 };
    assert(words == status_words(sc as nat));
    assert(ac * sz <= usize::MAX) by {
        assert(ac * sz <= record_size(ac as nat, sc as nat, dt));
    }
    let so: usize = 8 + ac * sz;
    let rs: usize = so + words * 2;
    assert(rs as int == record_size(ac as nat, sc as nat, dt));
    push_le32(out, r.sample_index[row]);
    push_le32(out, r.timestamps[row]);
    assert(out@ =~= start + Seq::new(8, |j: int| record_byte(rr, ac as nat, sc as nat, dt, row as int, j)));
    let mut ch: usize = 0;
    while ch < ac
        invariant
            ch <= ac,
            rr == *r,
            writable(rr, ac as nat, sc as nat),
            row < rr.sample_index@.len(),
            sz as int == analog_size(dt),
            so == 8 + ac * sz,
            so as int == status_offset(ac as nat, dt),
            out@ == start + Seq::new(
                (8 + ch * sz) as nat,
                |j: int| record_byte(rr, ac as nat, sc as nat, dt, row as int, j),
            ),
        decreases ac - ch,
    {
        proof {
            lemma_field_bounds(ch as int, ac as int, sz as int);
        }
        let ghost before = out@;
        let v = r.analogs[ch][row];
        if sz == 4 {
            push_le32(out, v);
        } else {
            push_le16(out, clamp_i16(v));
        }
        proof {
            let base = 8 + ch * sz;
            assert(out@ =~= start + Seq::new(
                (8 + (ch + 1) * sz) as nat,
                |j: int| record_byte(rr, ac as nat, sc as nat, dt, row as int, j),
            )) by {
                assert((ch + 1) * sz == ch * sz + sz) by (nonlinear_arith);
                assert forall|j: int| 0 <= j < 8 + (ch + 1) * sz implies out@[start.len() + j]
                    == record_byte(rr, ac as nat, sc as nat, dt, row as int, j) by {
                    if j >= base {
                        vstd::arithmetic::div_mod::lemma_fundamental_div_mod_converse(
                            j - 8,
                            sz as int,
                            ch as int,
                            j - base,
                        );
                        assert(out@[start.len() + j] == out@[before.len() + (j - base)]);
                    }
                }
            }
        }
        ch = ch + 1;
    }
    let mut w: usize = 0;
    while w < words
        invariant
            w <= words,
            rr == *r,
            writable(rr, ac as nat, sc as nat),
            row < rr.sample_index@.len(),
            words == status_words(sc as nat),
            so as int == status_offset(ac as nat, dt),
            rs == so + words * 2,
            rs as int == record_size(ac as nat, sc as nat, dt),
            out@ == start + Seq::new(
                (so + 2 * w) as nat,
                |j: int| record_byte(rr, ac as nat, sc as nat, dt, row as int, j),
            ),
        decreases words - w,
    {
        let ghost before = out@;
        assert(16 * w < sc);
        let word = status_word_of(r, sc, row, w);
        push_le16(out, word);
        proof {
            let base = so + 2 * w;
            assert(out@ =~= start + Seq::new(
                (so + 2 * (w + 1)) as nat,
                |j: int| record_byte(rr, ac as nat, sc as nat, dt, row as int, j),
            )) by {
                assert forall|j: int| 0 <= j < so + 2 * (w + 1) implies out@[start.len() + j]
                    == record_byte(rr, ac as nat, sc as nat, dt, row as int, j) by {
                    if j >= base {
                        assert(out@[start.len() + j] == out@[before.len() + (j - base)]);
                        assert((j - so) / 2 == w);
                    }
                }
            }
        }
        w = w + 1;
    }
    assert(out@ =~= start + record_bytes(rr, ac as nat, sc as nat, dt, row as int));
}

/// Writes raw contents as a binary data file with `ac` analog and `sc` status channels in
/// layout `dt` (not `ASCII`): one record per sample (see `record_byte`); in `BINARY`
/// analog values are clamped to 16 bits, and a status value is written as a set bit when
/// it is present and not 0.
pub fn write_binary_raw(r: &RawDat, ac: usize, sc: usize, dt: DataType) -> (out: Vec<u8>)
    requires
        dt != DataType::Ascii,
        record_size(ac as nat, sc as nat, dt) <= usize::MAX,
        writable(*r, ac as nat, sc as nat),
        r.sample_index@.len() * record_size(ac as nat, sc as nat, dt) <= usize::MAX,
    ensures
        out@ == encoded(*r, ac as nat, sc as nat, dt),
{
    let ghost rs = record_size(ac as nat, sc as nat, dt);
    let n = r.sample_index.len();
    let mut out: Vec<u8> = Vec::new();
    let mut row: usize = 0;
    assert(out@ =~= Seq::new(0, |p: int| record_byte(*r, ac as nat, sc as nat, dt, p / rs, p % rs)));
    while row < n
        invariant
            row <= n,
            n == r.sample_index@.len(),
            rs == record_size(ac as nat, sc as nat, dt),
            rs <= usize::MAX,
            n * rs <= usize::MAX,
            writable(*r, ac as nat, sc as nat),
            dt != DataType::Ascii,
            out@ == Seq::new(
                (row * rs) as nat,
                |p: int| record_byte(*r, ac as nat, sc as nat, dt, p / rs, p % rs),
            ),
        decreases n - row,
    {
        let ghost before = out@;
        push_record(&mut out, r, ac, sc, dt, row);
        proof {
            assert(rs >= 8);
            assert((row + 1) * rs == row * rs + rs) by (nonlinear_arith);
            assert(out@ =~= Seq::new(
                ((row + 1) * rs) as nat,
                |p: int| record_byte(*r, ac as nat, sc as nat, dt, p / rs, p % rs),
            )) by {
                assert forall|p: int| 0 <= p < (row + 1) * rs implies out@[p] == record_byte(
                    *r,
                    ac as nat,
                    sc as nat,
                    dt,
                    p / rs,
                    p % rs,
                ) by {
                    if p >= row * rs {
                        vstd::arithmetic::div_mod::lemma_fundamental_div_mod_converse(
                            p,
                            rs,
                            row as int,
                            p - row * rs,
                        );
                        assert(out@[p] == record_bytes(*r, ac as nat, sc as nat, dt, row as int)[p
                            - row * rs]);
                    }
                }
            }
        }
        row = row + 1;
    }
    out
}


/// What reading back written raw contents must give: the same sample numbers and
/// timestamps, the analog values (clamped to 16 bits in `BINARY`), and each status as 1
/// when it was set, else 0.
pub open spec fn read_back_ok(r: RawDat, ac: nat, sc: nat, dt: DataType, back: RawDat) -> bool {
    let n = r.sample_index@.len();
    &&& back.sample_index@ == r.sample_index@
    &&& back.timestamps@ == r.timestamps@.take(n as int)
    &&& back.analogs@.len() == ac
    &&& forall|ch: int| 0 <= ch < ac ==> (#[trigger] back.analogs@[ch])@.len() == n
    &&& forall|ch: int, i: int|
        0 <= ch < ac && 0 <= i < n ==> #[trigger] back.analogs@[ch]@[i] == (if analog_size(dt)
            == 4 {
            r.analogs@[ch]@[i] as int
        } else {
            clamp16(r.analogs@[ch]@[i] as int)
        })
    &&& back.statuses@.len() == sc
    &&& forall|ch: int| 0 <= ch < sc ==> (#[trigger] back.statuses@[ch])@.len() == n
    &&& forall|ch: int, i: int|
        0 <= ch < sc && 0 <= i < n ==> #[trigger] back.statuses@[ch]@[i] == (if status_flag(
            r.statuses@,
            ch,
            i,
        ) {
            1u8
        } else {
            0u8
        })
}

proof fn lemma_le32_read(x: int, b: Seq<u8>, o: int)
    requires
        -0x8000_0000 <= x < 0x8000_0000,
        0 <= o,
        o + 4 <= b.len(),
        b[o] == le32_bytes(x)[0],
        b[o + 1] == le32_bytes(x)[1],
        b[o + 2] == le32_bytes(x)[2],
        b[o + 3] == le32_bytes(x)[3],
    ensures
        signed32(le_u32(b, o)) == x,
{
    let u = if x < 0 {
        x + 0x1_0000_0000
    } else {
        x
    };
    let v = u as u32;
    assert(v as int == u);
    assert((v % 256) + 256 * ((v / 256) % 256) + 65536 * ((v / 65536) % 256) + 16777216 * ((v
        / 16777216) % 256) == v) by (bit_vector);
    assert(le_u32(b, o) == u);
}

proof fn lemma_le16_read(x: int, b: Seq<u8>, o: int)
    requires
        -0x8000 <= x < 0x10000,
        0 <= o,
        o + 2 <= b.len(),
        b[o] == le16_bytes(x)[0],
        b[o + 1] == le16_bytes(x)[1],
    ensures
        le_u16(b, o) == (if x < 0 {
            x + 0x10000
        } else {
            x
        }),
        x < 0x8000 ==> signed16(le_u16(b, o)) == x,
{
    let u = if x < 0 {
        x + 0x10000
    } else {
        x
    };
    let v = u as u16;
    assert(v as int == u);
    assert((v % 256) + 256 * ((v / 256) % 256) == v) by (bit_vector);
}

proof fn lemma_word_bits(st: Seq<Vec<u8>>, sc: nat, row: int, w: int, k: int)
    requires
        0 <= k <= 16,
    ensures
        shr(status_word(st, sc, row, w), k as nat) == word_from(st, sc, row, w, k),
    decreases k,
{
    if k > 0 {
        lemma_word_bits(st, sc, row, w, k - 1);
    }
}

proof fn lemma_status_bit(st: Seq<Vec<u8>>, sc: nat, row: int, ch: int)
    requires
        0 <= ch < sc,
    ensures
        bit(status_word(st, sc, row, ch / 16), (ch % 16) as nat) == (if status_flag(st, ch, row) {
            1nat
        } else {
            0nat
        }),
{
    let w = ch / 16;
    let k = ch % 16;
    lemma_word_bits(st, sc, row, w, k);
    assert(16 * w + k == ch);
}

proof fn lemma_encoded_byte(r: RawDat, ac: nat, sc: nat, dt: DataType, i: int, o: int)
    requires
        dt != DataType::Ascii,
        0 <= i < r.sample_index@.len(),
        0 <= o < record_size(ac, sc, dt),
    ensures
        0 <= i * record_size(ac, sc, dt) + o < encoded(r, ac, sc, dt).len(),
        encoded(r, ac, sc, dt)[i * record_size(ac, sc, dt) + o] == record_byte(r, ac, sc, dt, i, o),
{
    let rs = record_size(ac, sc, dt);
    let n = r.sample_index@.len() as int;
    assert(i * rs + o < n * rs) by (nonlinear_arith)
        requires
            0 <= i < n,
            0 <= o < rs,
    ;
    assert(0 <= i * rs) by (nonlinear_arith)
        requires
            0 <= i,
            rs > 0,
    ;
    vstd::arithmetic::div_mod::lemma_fundamental_div_mod_converse(i * rs + o, rs, i, o);
}

/// Writing raw contents as a binary data file and reading the bytes back gives the same
/// sample numbers and timestamps, the analog values (clamped to 16 bits in `BINARY`) and
/// the status values as 0 or 1.
pub proof fn lemma_binary_round_trip(r: RawDat, ac: nat, sc: nat, dt: DataType, back: RawDat)
    requires
        dt != DataType::Ascii,
        writable(r, ac, sc),
        decoded_ok(encoded(r, ac, sc, dt), ac, sc, dt, None, back),
    ensures
        read_back_ok(r, ac, sc, dt, back),
{
    let n = r.sample_index@.len() as int;
    let sz = analog_size(dt);
    lemma_read_count(r, ac, sc, dt);
    assert forall|i: int| 0 <= i < n implies #[trigger] back.sample_index@[i] == r.sample_index@[i] by {
        lemma_index_fields(r, ac, sc, dt, back, i);
    }
    assert forall|i: int| 0 <= i < n implies #[trigger] back.timestamps@[i] == r.timestamps@[i] by {
        lemma_index_fields(r, ac, sc, dt, back, i);
    }
    assert(back.sample_index@ =~= r.sample_index@);
    assert(back.timestamps@ =~= r.timestamps@.take(n));
    assert forall|ch: int, i: int| 0 <= ch < ac && 0 <= i < n implies #[trigger] back.analogs@[ch]@[i]
        == (if sz == 4 {
        r.analogs@[ch]@[i] as int
    } else {
        clamp16(r.analogs@[ch]@[i] as int)
    }) by {
        lemma_analog_field(r, ac, sc, dt, back, ch, i);
    }
    assert forall|ch: int, i: int| 0 <= ch < sc && 0 <= i < n implies #[trigger] back.statuses@[ch]@[i]
        == (if status_flag(r.statuses@, ch, i) {
        1u8
    } else {
        0u8
    }) by {
        lemma_status_field(r, ac, sc, dt, back, ch, i);
    }
}

proof fn lemma_read_count(r: RawDat, ac: nat, sc: nat, dt: DataType)
    requires
        dt != DataType::Ascii,
    ensures
        record_size(ac, sc, dt) >= 8,
        encoded(r, ac, sc, dt).len() == r.sample_index@.len() * record_size(ac, sc, dt),
        records_read(encoded(r, ac, sc, dt).len(), record_size(ac, sc, dt), None)
            == r.sample_index@.len(),
{
    let rs = record_size(ac, sc, dt);
    let n = r.sample_index@.len() as int;
    let sz = analog_size(dt);
    assert(ac * sz >= 0) by (nonlinear_arith)
        requires
            sz > 0,
    ;
    assert(n * rs >= 0) by (nonlinear_arith)
        requires
            n >= 0,
            rs > 0,
    ;
    vstd::arithmetic::div_mod::lemma_fundamental_div_mod_converse(n * rs, rs, n, 0);
}

proof fn lemma_index_fields(r: RawDat, ac: nat, sc: nat, dt: DataType, back: RawDat, i: int)
    requires
        dt != DataType::Ascii,
        writable(r, ac, sc),
        decoded_ok(encoded(r, ac, sc, dt), ac, sc, dt, None, back),
        0 <= i < r.sample_index@.len(),
    ensures
        back.sample_index@[i] == r.sample_index@[i],
        back.timestamps@[i] == r.timestamps@[i],
{
    let rs = record_size(ac, sc, dt);
    let b = encoded(r, ac, sc, dt);
    lemma_read_count(r, ac, sc, dt);
    let base = record_start(i, rs);
    lemma_encoded_byte(r, ac, sc, dt, i, 0);
    lemma_encoded_byte(r, ac, sc, dt, i, 1);
    lemma_encoded_byte(r, ac, sc, dt, i, 2);
    lemma_encoded_byte(r, ac, sc, dt, i, 3);
    lemma_encoded_byte(r, ac, sc, dt, i, 4);
    lemma_encoded_byte(r, ac, sc, dt, i, 5);
    lemma_encoded_byte(r, ac, sc, dt, i, 6);
    lemma_encoded_byte(r, ac, sc, dt, i, 7);
    lemma_le32_read(r.sample_index@[i] as int, b, base);
    lemma_le32_read(r.timestamps@[i] as int, b, base + 4);
}

proof fn lemma_analog_field(
    r: RawDat,
    ac: nat,
    sc: nat,
    dt: DataType,
    back: RawDat,
    ch: int,
    i: int,
)
    requires
        dt != DataType::Ascii,
        writable(r, ac, sc),
        decoded_ok(encoded(r, ac, sc, dt), ac, sc, dt, None, back),
        0 <= ch < ac,
        0 <= i < r.sample_index@.len(),
    ensures
        back.analogs@[ch]@[i] == (if analog_size(dt) == 4 {
            r.analogs@[ch]@[i] as int
        } else {
            clamp16(r.analogs@[ch]@[i] as int)
        }),
{
    let rs = record_size(ac, sc, dt);
    let b = encoded(r, ac, sc, dt);
    let sz = analog_size(dt);
    lemma_read_count(r, ac, sc, dt);
    let base = record_start(i, rs);
    let fo = 8 + ch * sz;
    lemma_field_bounds(ch, ac as int, sz);
    let v = r.analogs@[ch]@[i] as int;
    assert forall|k: int| 0 <= k < sz implies #[trigger] b[base + fo + k] == (if sz == 4 {
        le32_bytes(v)[k]
    } else {
        le16_bytes(clamp16(v))[k]
    }) by {
        lemma_encoded_byte(r, ac, sc, dt, i, fo + k);
        vstd::arithmetic::div_mod::lemma_fundamental_div_mod_converse(fo + k - 8, sz, ch, k);
    }
    lemma_encoded_byte(r, ac, sc, dt, i, fo + sz - 1);
    if sz == 4 {
        assert(b[base + fo + 0] == le32_bytes(v)[0]);
        assert(b[base + fo + 1] == le32_bytes(v)[1]);
        assert(b[base + fo + 2] == le32_bytes(v)[2]);
        assert(b[base + fo + 3] == le32_bytes(v)[3]);
        lemma_le32_read(v, b, base + fo);
    } else {
        assert(b[base + fo + 0] == le16_bytes(clamp16(v))[0]);
        assert(b[base + fo + 1] == le16_bytes(clamp16(v))[1]);
        lemma_le16_read(clamp16(v), b, base + fo);
    }
}

proof fn lemma_status_field(
    r: RawDat,
    ac: nat,
    sc: nat,
    dt: DataType,
    back: RawDat,
    ch: int,
    i: int,
)
    requires
        dt != DataType::Ascii,
        writable(r, ac, sc),
        decoded_ok(encoded(r, ac, sc, dt), ac, sc, dt, None, back),
        0 <= ch < sc,
        0 <= i < r.sample_index@.len(),
    ensures
        back.statuses@[ch]@[i] == (if status_flag(r.statuses@, ch, i) {
            1u8
        } else {
            0u8
        }),
{
    let rs = record_size(ac, sc, dt);
    let b = encoded(r, ac, sc, dt);
    lemma_read_count(r, ac, sc, dt);
    let base = record_start(i, rs);
    let so = status_offset(ac, dt);
    let w = ch / 16;
    let wo = so + w * 2;
    assert(w < status_words(sc));
    assert(wo + 2 <= rs);
    lemma_encoded_byte(r, ac, sc, dt, i, wo);
    lemma_encoded_byte(r, ac, sc, dt, i, wo + 1);
    let word = status_word(r.statuses@, sc, i, w);
    lemma_word_bound(r.statuses@, sc, i, w, 0);
    assert(pow2_16_from(0) == 65536) by {
        reveal_with_fuel(pow2_16_from, 17);
    }
    assert(b[base + wo] == le16_bytes(word as int)[0]);
    assert(b[base + wo + 1] == le16_bytes(word as int)[1]);
    lemma_le16_read(word as int, b, base + wo);
    lemma_status_bit(r.statuses@, sc, i, ch);
}

} // verus!
