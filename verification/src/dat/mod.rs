//! The data file (`.dat`): its binary layouts, read to and written from raw integers, and
//! the changes of its status channels.

pub mod binary;
pub mod columns;

use vstd::prelude::*;

use crate::model::StatusChange;
use crate::time::{micros_limit, micros_of, valid, Timestamp};

verus! {

/// The sample positions (from 1 on) where a status column differs from the sample before.
pub open spec fn change_points(col: Seq<u8>) -> Seq<int>
    decreases col.len(),
{
    if col.len() <= 1 {
        seq![]
    } else {
        let prev = change_points(col.drop_last());
        let i = col.len() - 1;
        if col[i] != col[i - 1] {
            prev.push(i)
        } else {
            prev
        }
    }
}

/// The offset of sample `i` from the start of the recording, 0 where none is given.
pub open spec fn offset_at(offs: Seq<i64>, i: int) -> int {
    if 0 <= i < offs.len() {
        offs[i] as int
    } else {
        0
    }
}

/// The time of a sample `us` microseconds after the start: none without a start time or
/// before year 1; else the valid timestamp of that instant.
pub open spec fn shifted_time(start: Option<Timestamp>, us: int, t: Option<Timestamp>) -> bool {
    match start {
        None => t is None,
        Some(st) => if micros_of(st) + us < 0 {
            t is None
        } else {
            t matches Some(x) && valid(x) && x.year >= 1 && micros_of(x) == micros_of(st) + us
        },
    }
}

/// The records of one status column: the initial state at sample 1 (at the start time),
/// then each change with its sample number, time and new state.
pub open spec fn records_ok(
    col: Seq<u8>,
    offs: Seq<i64>,
    start: Option<Timestamp>,
    rs: Seq<StatusChange>,
) -> bool {
    let ps = change_points(col);
    &&& rs.len() == ps.len() + 1
    &&& rs[0].sample_point == 1 && rs[0].timestamp == start && rs[0].state == col[0]
    &&& forall|j: int|
        0 <= j < ps.len() ==> {
            let p = ps[j];
            &&& (#[trigger] rs[j + 1]).sample_point == p + 1
            &&& rs[j + 1].state == col[p]
            &&& shifted_time(start, offset_at(offs, p), rs[j + 1].timestamp)
        }
}

/// The status channels (from 0) that change at least once, in order.
pub open spec fn changed_channels(cols: Seq<Seq<u8>>) -> Seq<int>
    decreases cols.len(),
{
    if cols.len() == 0 {
        seq![]
    } else {
        let prev = changed_channels(cols.drop_last());
        if cols.last().len() > 0 && change_points(cols.last()).len() > 0 {
            prev.push(cols.len() - 1)
        } else {
            prev
        }
    }
}

/// The columns as values.
pub open spec fn columns(v: Seq<Vec<u8>>) -> Seq<Seq<u8>> {
    v.map_values(|c: Vec<u8>| c@)
}

/// Every change of a column can be given a time: the start has a day, and its time plus
/// the offset of each changing sample stays within the range of timestamps.
pub open spec fn column_times_defined(col: Seq<u8>, offs: Seq<i64>, start: Option<Timestamp>) -> bool {
    start matches Some(st) ==> {
        &&& st.day >= 1
        &&& forall|j: int|
            0 <= j < change_points(col).len() ==> i64::MIN <= micros_of(st) + offset_at(
                offs,
                #[trigger] change_points(col)[j],
            ) < micros_limit()
    }
}

/// Every change of every column can be given a time.
pub open spec fn change_times_defined(
    cols: Seq<Seq<u8>>,
    offs: Seq<i64>,
    start: Option<Timestamp>,
) -> bool {
    forall|c: int| 0 <= c < cols.len() ==> column_times_defined(#[trigger] cols[c], offs, start)
}

proof fn lemma_change_points(col: Seq<u8>)
    ensures
        forall|j: int|
            0 <= j < change_points(col).len() ==> 1 <= #[trigger] change_points(col)[j] < col.len(),
        forall|j: int, k: int|
            0 <= j < k < change_points(col).len() ==> change_points(col)[j] < change_points(col)[k],
    decreases col.len(),
{
    if col.len() > 1 {
        let prev = change_points(col.drop_last());
        lemma_change_points(col.drop_last());
        let i = col.len() - 1;
        if col[i] != col[i - 1] {
            assert(change_points(col) == prev.push(i));
        } else {
            assert(change_points(col) == prev);
        }
    }
}

fn column_changes(col: &Vec<u8>, offs: &Vec<i64>, start: Option<Timestamp>) -> (rs: Vec<
    StatusChange,
>)
    requires
        col@.len() > 0,
        column_times_defined(col@, offs@, start),
    ensures
        records_ok(col@, offs@, start, rs@),
{
    let mut rs: Vec<StatusChange> = Vec::new();
    rs.push(StatusChange { sample_point: 1, timestamp: start, state: col[0] });
    let mut i: usize = 1;
    assert(change_points(col@.take(1)) =~= Seq::<int>::empty());
    while i < col.len()
        invariant
            1 <= i <= col@.len(),
            column_times_defined(col@, offs@, start),
            records_ok(col@.take(i as int), offs@, start, rs@),
        decreases col.len() - i,
    {
        let ghost prev_ps = change_points(col@.take(i as int));
        let ghost prev_rs = rs@;
        assert(col@.take(i + 1).drop_last() =~= col@.take(i as int));
        if col[i] != col[i - 1] {
            assert(change_points(col@.take(i + 1)) == prev_ps.push(i as int));
            proof {
                lemma_change_points(col@);
                lemma_take_points(col@, i as int + 1);
                assert(change_points(col@.take(i + 1))[prev_ps.len() as int] == i as int);
                assert(change_points(col@)[prev_ps.len() as int] == i);
            }
            let us: i64 = if i < offs.len() {
                offs[i]
            } else {
                0
            };
            let ts = match start {
                Some(st) => st.add_micros(us),
                None => None,
            };
            rs.push(StatusChange { sample_point: i + 1, timestamp: ts, state: col[i] });
        } else {
            assert(change_points(col@.take(i + 1)) == prev_ps);
        }
        proof {
            let t1 = col@.take(i + 1);
            let cp1 = change_points(t1);
            assert(rs@[0] == prev_rs[0]);
            assert(t1[0] == col@.take(i as int)[0]);
            assert forall|j: int| 0 <= j < cp1.len() implies {
                let p = cp1[j];
                &&& (#[trigger] rs@[j + 1]).sample_point == p + 1
                &&& rs@[j + 1].state == t1[p]
                &&& shifted_time(start, offset_at(offs@, p), rs@[j + 1].timestamp)
            } by {
                if j < prev_ps.len() {
                    assert(cp1[j] == prev_ps[j]);
                    assert(rs@[j + 1] == prev_rs[j + 1]);
                    lemma_change_points(col@.take(i as int));
                    assert(t1[prev_ps[j]] == col@.take(i as int)[prev_ps[j]]);
                }
            }
        }
        i = i + 1;
    }
    assert(col@.take(col@.len() as int) =~= col@);
    rs
}

proof fn lemma_take_points(col: Seq<u8>, k: int)
    requires
        1 <= k <= col.len(),
    ensures
        change_points(col.take(k)).len() <= change_points(col).len(),
        forall|j: int|
            0 <= j < change_points(col.take(k)).len() ==> #[trigger] change_points(col.take(k))[j]
                == change_points(col)[j],
    decreases col.len() - k,
{
    if k < col.len() {
        lemma_take_points(col, k + 1);
        assert(col.take(k + 1).drop_last() =~= col.take(k));
        let a = change_points(col.take(k));
        let b = change_points(col.take(k + 1));
        let t = col.take(k + 1);
        if t[k] != t[k - 1] {
            assert(b == a.push(k));
        } else {
            assert(b == a);
        }
        assert forall|j: int| 0 <= j < a.len() implies #[trigger] a[j] == change_points(col)[j] by {
            assert(a[j] == b[j]);
        }
    } else {
        assert(col.take(k) =~= col);
    }
}

/// The status channels that change, each with its records: its number (from 1), the
/// initial state at sample 1 and every change (see `records_ok`). `offsets_us` gives the
/// offset of each sample from the start in microseconds (0 where missing).
pub fn changed_statuses(
    statuses: &Vec<Vec<u8>>,
    offsets_us: &Vec<i64>,
    start_time: Option<Timestamp>,
) -> (r: Vec<(usize, Vec<StatusChange>)>)
    requires
        change_times_defined(columns(statuses@), offsets_us@, start_time),
    ensures
        r@.len() == changed_channels(columns(statuses@)).len(),
        forall|k: int|
            0 <= k < r@.len() ==> {
                let c = changed_channels(columns(statuses@))[k];
                &&& (#[trigger] r@[k]).0 == c + 1
                &&& records_ok(statuses@[c]@, offsets_us@, start_time, r@[k].1@)
            },
{
    let ghost cols = columns(statuses@);
    let mut out: Vec<(usize, Vec<StatusChange>)> = Vec::new();
    let mut ch: usize = 0;
    assert(changed_channels(cols.take(0)) =~= Seq::<int>::empty());
    while ch < statuses.len()
        invariant
            ch <= statuses@.len(),
            cols == columns(statuses@),
            change_times_defined(cols, offsets_us@, start_time),
            out@.len() == changed_channels(cols.take(ch as int)).len(),
            forall|k: int|
                0 <= k < out@.len() ==> {
                    let c = changed_channels(cols.take(ch as int))[k];
                    &&& (#[trigger] out@[k]).0 == c + 1
                    &&& records_ok(statuses@[c]@, offsets_us@, start_time, out@[k].1@)
                },
        decreases statuses.len() - ch,
    {
        let col = &statuses[ch];
        let ghost before = changed_channels(cols.take(ch as int));
        let ghost old_out = out@;
        assert(cols.take(ch + 1).drop_last() =~= cols.take(ch as int));
        assert(cols.take(ch + 1).last() == col@);
        assert(cols[ch as int] == col@);
        let mut pushed = false;
        if col.len() > 0 {
            let records = column_changes(col, offsets_us, start_time);
            if records.len() > 1 {
                let ghost rv = records@;
                out.push((ch + 1, records));
                pushed = true;
                assert(changed_channels(cols.take(ch + 1)) == before.push(ch as int));
                assert forall|k: int| 0 <= k < out@.len() implies {
                    let c = changed_channels(cols.take(ch + 1))[k];
                    &&& (#[trigger] out@[k]).0 == c + 1
                    &&& records_ok(statuses@[c]@, offsets_us@, start_time, out@[k].1@)
                } by {
                    if k < old_out.len() {
                        assert(out@[k] == old_out[k]);
                        assert(changed_channels(cols.take(ch + 1))[k] == before[k]);
                    } else {
                        assert(changed_channels(cols.take(ch + 1))[k] == ch);
                        assert(out@[k].1@ == rv);
                    }
                }
            }
        }
        if !pushed {
            assert(changed_channels(cols.take(ch + 1)) == before);
            assert forall|k: int| 0 <= k < out@.len() implies {
                let c = changed_channels(cols.take(ch + 1))[k];
                &&& (#[trigger] out@[k]).0 == c + 1
                &&& records_ok(statuses@[c]@, offsets_us@, start_time, out@[k].1@)
            } by {
                assert(out@[k] == old_out[k]);
                assert(changed_channels(cols.take(ch + 1))[k] == before[k]);
            }
        }
        ch = ch + 1;
    }
    assert(cols.take(statuses@.len() as int) =~= cols);
    out
}

} // verus!
