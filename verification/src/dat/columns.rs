//! Sample data by column, generic over the type of the timestamps and analog values
//! (the caller picks the number type of engineering values): fitting the columns to a
//! configuration, keeping a range of rows, and replacing a column.

use vstd::prelude::*;

use crate::error::{Error, FileRole, ParseReason};

verus! {

/// Sample data by column: sample numbers, timestamps, one column per analog channel and
/// one per status channel (values 0 or 1).
#[derive(Debug, Clone, Default)]
pub struct DatFile<T> {
    /// Sample numbers.
    pub sample_index: Vec<i32>,
    /// Timestamps (µs).
    pub timestamp_us: Vec<T>,
    /// Analog values, one column per channel.
    pub analogs: Vec<Vec<T>>,
    /// Status values, one column per channel.
    pub statuses: Vec<Vec<u8>>,
}

/// `c` cut to its first `n` items when it is longer.
pub open spec fn cut<T>(c: Seq<T>, n: nat) -> Seq<T> {
    if c.len() > n {
        c.take(n as int)
    } else {
        c
    }
}

/// `n` copies of `v`.
pub open spec fn filled<T>(n: nat, v: T) -> Seq<T> {
    Seq::new(n, |_j: int| v)
}

/// The sample numbers 1, 2, ..., `n` (as `i32`).
pub open spec fn numbered(n: nat) -> Seq<i32> {
    Seq::new(n, |i: int| (i + 1) as i32)
}

/// The rows `[start, start + keep)` of a column, as far as it has them.
pub open spec fn window<T>(c: Seq<T>, start: nat, keep: nat) -> Seq<T> {
    cut(c.skip(start as int), keep)
}

/// Every column but the sample numbers has at least `start` rows.
pub open spec fn reaches<T>(d: DatFile<T>, start: nat) -> bool {
    &&& start <= d.timestamp_us@.len()
    &&& forall|i: int| 0 <= i < d.analogs@.len() ==> start <= (#[trigger] d.analogs@[i])@.len()
    &&& forall|i: int| 0 <= i < d.statuses@.len() ==> start <= (#[trigger] d.statuses@[i])@.len()
}

fn copy_prefix<U: Copy>(c: &Vec<U>, k: usize) -> (r: Vec<U>)
    requires
        k <= c@.len(),
    ensures
        r@ == c@.take(k as int),
{
    let mut out: Vec<U> = Vec::new();
    let mut i: usize = 0;
    while i < k
        invariant
            i <= k,
            k <= c@.len(),
            out@ == c@.take(i as int),
        decreases k - i,
    {
        out.push(c[i]);
        i = i + 1;
        assert(out@ =~= c@.take(i as int));
    }
    out
}

fn copy_range<U: Copy>(c: &Vec<U>, a: usize, b: usize) -> (r: Vec<U>)
    requires
        a <= b <= c@.len(),
    ensures
        r@ == c@.subrange(a as int, b as int),
{
    let mut out: Vec<U> = Vec::new();
    let mut i: usize = a;
    while i < b
        invariant
            a <= i <= b,
            b <= c@.len(),
            out@ == c@.subrange(a as int, i as int),
        decreases b - i,
    {
        out.push(c[i]);
        i = i + 1;
        assert(out@ =~= c@.subrange(a as int, i as int));
    }
    out
}

fn copy_col<U: Copy>(c: &Vec<U>) -> (r: Vec<U>)
    ensures
        r@ == c@,
{
    let r = copy_prefix(c, c.len());
    assert(c@.take(c@.len() as int) =~= c@);
    r
}

fn window_col<U: Copy>(c: &Vec<U>, start: usize, keep: usize) -> (r: Vec<U>)
    requires
        start <= c@.len(),
    ensures
        r@ == window(c@, start as nat, keep as nat),
{
    let rest = c.len() - start;
    let k = if rest > keep {
        keep
    } else {
        rest
    };
    let r = copy_range(c, start, start + k);
    assert(c@.skip(start as int).take(k as int) =~= c@.subrange(start as int, start + k));
    assert(c@.skip(start as int) =~= c@.subrange(start as int, c@.len() as int));
    r
}

fn filled_vec<U: Copy>(n: usize, v: U) -> (r: Vec<U>)
    ensures
        r@ == filled(n as nat, v),
{
    let mut out: Vec<U> = Vec::new();
    let mut i: usize = 0;
    while i < n
        invariant
            i <= n,
            out@ == filled(i as nat, v),
        decreases n - i,
    {
        out.push(v);
        i = i + 1;
        assert(out@ =~= filled(i as nat, v));
    }
    out
}

impl<T: Copy> DatFile<T> {
    /// Number of samples.
    pub fn len(&self) -> (r: usize)
        ensures
            r == self.sample_index@.len(),
    {
        self.sample_index.len()
    }

    /// Whether there are no samples.
    pub fn is_empty(&self) -> (r: bool)
        ensures
            r == (self.sample_index@.len() == 0),
    {
        self.sample_index.len() == 0
    }

    /// Number of analog columns.
    pub fn analog_count(&self) -> (r: usize)
        ensures
            r == self.analogs@.len(),
    {
        self.analogs.len()
    }

    /// Number of status columns.
    pub fn status_count(&self) -> (r: usize)
        ensures
            r == self.statuses@.len(),
    {
        self.statuses.len()
    }

    /// The values of analog column `channel_index` (0-based).
    pub fn analog_samples(&self, channel_index: usize) -> (r: Option<&[T]>)
        ensures
            match r {
                Some(s) => channel_index < self.analogs@.len() && s@ == self.analogs@[channel_index as int]@,
                None => channel_index >= self.analogs@.len(),
            },
    {
        if channel_index < self.analogs.len() {
            Some(self.analogs[channel_index].as_slice())
        } else {
            None
        }
    }

    /// The values of status column `channel_index` (0-based).
    pub fn status_samples(&self, channel_index: usize) -> (r: Option<&[u8]>)
        ensures
            match r {
                Some(s) => channel_index < self.statuses@.len() && s@ == self.statuses@[channel_index as int]@,
                None => channel_index >= self.statuses@.len(),
            },
    {
        if channel_index < self.statuses.len() {
            Some(self.statuses[channel_index].as_slice())
        } else {
            None
        }
    }

    /// Fits the data to a configuration with `analog` and `status` channels and
    /// `expected_rows` samples (0 when it states none): missing channels get columns of
    /// `zero` (status: 0), extra channels are dropped. Refused: more samples than the
    /// configuration states, then a data file without any analog column when the
    /// configuration has some.
    pub fn fit_to_config(&self, expected_rows: usize, analog: usize, status: usize, zero: T) -> (r: Result<DatFile<T>, Error>)
        ensures
            ({
                let n = self.sample_index@.len();
                match r {
                    Err(err) => if n > expected_rows && expected_rows > 0 {
                        err == Error::Parse {
                            role: FileRole::Dat,
                            line: 0,
                            reason: ParseReason::ExtraRows(n as usize, expected_rows),
                        }
                    } else {
                        self.analogs@.len() == 0 && analog > 0 && err == Error::Parse {
                            role: FileRole::Dat,
                            line: 0,
                            reason: ParseReason::NoAnalogColumns,
                        }
                    },
                    Ok(d) => {
                        &&& !(n > expected_rows && expected_rows > 0)
                        &&& !(self.analogs@.len() == 0 && analog > 0)
                        &&& d.sample_index@ == self.sample_index@
                        &&& d.timestamp_us@ == self.timestamp_us@
                        &&& d.analogs@.len() == analog
                        &&& forall|i: int|
                            0 <= i < analog ==> (#[trigger] d.analogs@[i])@ == if i
                                < self.analogs@.len() {
                                self.analogs@[i]@
                            } else {
                                filled(n, zero)
                            }
                        &&& d.statuses@.len() == status
                        &&& forall|i: int|
                            0 <= i < status ==> (#[trigger] d.statuses@[i])@ == if i
                                < self.statuses@.len() {
                                self.statuses@[i]@
                            } else {
                                filled(n, 0u8)
                            }
                    },
                }
            }),
    {
        let n = self.sample_index.len();
        if n > expected_rows && expected_rows > 0 {
            return Err(
                Error::Parse {
                    role: FileRole::Dat,
                    line: 0,
                    reason: ParseReason::ExtraRows(n, expected_rows),
                },
            );
        }
        if self.analogs.len() == 0 && analog > 0 {
            return Err(
                Error::Parse { role: FileRole::Dat, line: 0, reason: ParseReason::NoAnalogColumns },
            );
        }
        let sample_index = copy_col(&self.sample_index);
        let timestamp_us = copy_col(&self.timestamp_us);
        let mut analogs: Vec<Vec<T>> = Vec::new();
        let mut i: usize = 0;
        while i < analog
            invariant
                i <= analog,
                n == self.sample_index@.len(),
                analogs@.len() == i,
                forall|j: int|
                    0 <= j < i ==> (#[trigger] analogs@[j])@ == if j < self.analogs@.len() {
                        self.analogs@[j]@
                    } else {
                        filled(n as nat, zero)
                    },
            decreases analog - i,
        {
            if i < self.analogs.len() {
                analogs.push(copy_col(&self.analogs[i]));
            } else {
                analogs.push(filled_vec(n, zero));
            }
            i = i + 1;
        }
        let mut statuses: Vec<Vec<u8>> = Vec::new();
        let mut i: usize = 0;
        while i < status
            invariant
                i <= status,
                n == self.sample_index@.len(),
                statuses@.len() == i,
                forall|j: int|
                    0 <= j < i ==> (#[trigger] statuses@[j])@ == if j < self.statuses@.len() {
                        self.statuses@[j]@
                    } else {
                        filled(n as nat, 0u8)
                    },
            decreases status - i,
        {
            if i < self.statuses.len() {
                statuses.push(copy_col(&self.statuses[i]));
            } else {
                statuses.push(filled_vec(n, 0u8));
            }
            i = i + 1;
        }
        Ok(DatFile { sample_index, timestamp_us, analogs, statuses })
    }

    /// Keeps the rows `[start, end)` of every column and numbers the samples again from
    /// 1; an empty range or one beyond the samples is refused and nothing changes.
    pub fn crop_rows(&mut self, start: usize, end: usize) -> (r: Result<(), Error>)
        requires
            start < end <= old(self).sample_index@.len() ==> reaches(*old(self), start as nat),
        ensures
            ({
                let n = old(self).sample_index@.len();
                let keep = (end - start) as nat;
                match r {
                    Err(err) => !(start < end <= n) && *final(self) == *old(self) && err
                        == Error::Parse {
                        role: FileRole::Dat,
                        line: 0,
                        reason: ParseReason::RowRange(start, end, n as usize),
                    },
                    Ok(()) => {
                        &&& start < end <= n
                        &&& final(self).sample_index@ == numbered(keep)
                        &&& final(self).timestamp_us@ == window(old(self).timestamp_us@, start as nat, keep)
                        &&& final(self).analogs@.len() == old(self).analogs@.len()
                        &&& forall|i: int|
                            0 <= i < old(self).analogs@.len() ==> (#[trigger] final(self).analogs@[i])@
                                == window(old(self).analogs@[i]@, start as nat, keep)
                        &&& final(self).statuses@.len() == old(self).statuses@.len()
                        &&& forall|i: int|
                            0 <= i < old(self).statuses@.len() ==> (#[trigger] final(self).statuses@[i])@
                                == window(old(self).statuses@[i]@, start as nat, keep)
                    },
                }
            }),
    {
        let n = self.sample_index.len();
        if start >= end || end > n {
            return Err(
                Error::Parse {
                    role: FileRole::Dat,
                    line: 0,
                    reason: ParseReason::RowRange(start, end, n),
                },
            );
        }
        let keep = end - start;
        let mut sample_index: Vec<i32> = Vec::new();
        let mut i: usize = 0;
        while i < keep
            invariant
                i <= keep,
                sample_index@ == numbered(i as nat),
            decreases keep - i,
        {
            let k: usize = i + 1;
            sample_index.push(#[verifier::truncate] (k as i32));
            i = i + 1;
            assert(sample_index@ =~= numbered(i as nat));
        }
        let timestamp_us = window_col(&self.timestamp_us, start, keep);
        let mut analogs: Vec<Vec<T>> = Vec::new();
        let mut c: usize = 0;
        while c < self.analogs.len()
            invariant
                c <= self.analogs@.len(),
                reaches(*self, start as nat),
                analogs@.len() == c,
                forall|j: int|
                    0 <= j < c ==> (#[trigger] analogs@[j])@ == window(
                        self.analogs@[j]@,
                        start as nat,
                        keep as nat,
                    ),
            decreases self.analogs.len() - c,
        {
            assert(start <= self.analogs@[c as int]@.len());
            analogs.push(window_col(&self.analogs[c], start, keep));
            c = c + 1;
        }
        let mut statuses: Vec<Vec<u8>> = Vec::new();
        let mut c: usize = 0;
        while c < self.statuses.len()
            invariant
                c <= self.statuses@.len(),
                reaches(*self, start as nat),
                statuses@.len() == c,
                forall|j: int|
                    0 <= j < c ==> (#[trigger] statuses@[j])@ == window(
                        self.statuses@[j]@,
                        start as nat,
                        keep as nat,
                    ),
            decreases self.statuses.len() - c,
        {
            assert(start <= self.statuses@[c as int]@.len());
            statuses.push(window_col(&self.statuses[c], start, keep));
            c = c + 1;
        }
        self.sample_index = sample_index;
        self.timestamp_us = timestamp_us;
        self.analogs = analogs;
        self.statuses = statuses;
        Ok(())
    }

    /// Replaces analog column `channel` (0-based) by `values`, which must have as many
    /// values as the column; otherwise nothing changes.
    pub fn set_analog_column(&mut self, channel: usize, values: Vec<T>) -> (r: Result<(), Error>)
        ensures
            match r {
                Err(err) => *final(self) == *old(self) && if channel >= old(self).analogs@.len() {
                    err == Error::Parse {
                        role: FileRole::Dat,
                        line: 0,
                        reason: ParseReason::ColumnOutOfRange(channel),
                    }
                } else {
                    values@.len() != old(self).analogs@[channel as int]@.len() && err
                        == Error::Parse {
                        role: FileRole::Dat,
                        line: 0,
                        reason: ParseReason::ColumnLength(
                            values@.len() as usize,
                            old(self).analogs@[channel as int]@.len() as usize,
                        ),
                    }
                },
                Ok(()) => {
                    &&& channel < old(self).analogs@.len()
                    &&& values@.len() == old(self).analogs@[channel as int]@.len()
                    &&& final(self).analogs@ == old(self).analogs@.update(channel as int, values)
                    &&& final(self).sample_index == old(self).sample_index
                    &&& final(self).timestamp_us == old(self).timestamp_us
                    &&& final(self).statuses == old(self).statuses
                },
            },
    {
        if channel >= self.analogs.len() {
            return Err(
                Error::Parse {
                    role: FileRole::Dat,
                    line: 0,
                    reason: ParseReason::ColumnOutOfRange(channel),
                },
            );
        }
        let len = self.analogs[channel].len();
        if values.len() != len {
            return Err(
                Error::Parse {
                    role: FileRole::Dat,
                    line: 0,
                    reason: ParseReason::ColumnLength(values.len(), len),
                },
            );
        }
        self.analogs.set(channel, values);
        Ok(())
    }

    /// Replaces status column `channel` (0-based) by `values`, which must have as many
    /// values as the column, each 0 or 1; otherwise nothing changes.
    pub fn set_status_column(&mut self, channel: usize, values: Vec<u8>) -> (r: Result<(), Error>)
        ensures
            match r {
                Err(err) => *final(self) == *old(self) && if channel >= old(self).statuses@.len() {
                    err == Error::Parse {
                        role: FileRole::Dat,
                        line: 0,
                        reason: ParseReason::ColumnOutOfRange(channel),
                    }
                } else if values@.len() != old(self).statuses@[channel as int]@.len() {
                    err == Error::Parse {
                        role: FileRole::Dat,
                        line: 0,
                        reason: ParseReason::ColumnLength(
                            values@.len() as usize,
                            old(self).statuses@[channel as int]@.len() as usize,
                        ),
                    }
                } else {
                    (exists|k: int| 0 <= k < values@.len() && values@[k] > 1) && err
                        == Error::Parse { role: FileRole::Dat, line: 0, reason: ParseReason::StatusValue }
                },
                Ok(()) => {
                    &&& channel < old(self).statuses@.len()
                    &&& values@.len() == old(self).statuses@[channel as int]@.len()
                    &&& forall|k: int| 0 <= k < values@.len() ==> values@[k] <= 1
                    &&& final(self).statuses@ == old(self).statuses@.update(channel as int, values)
                    &&& final(self).sample_index == old(self).sample_index
                    &&& final(self).timestamp_us == old(self).timestamp_us
                    &&& final(self).analogs == old(self).analogs
                },
            },
    {
        if channel >= self.statuses.len() {
            return Err(
                Error::Parse {
                    role: FileRole::Dat,
                    line: 0,
                    reason: ParseReason::ColumnOutOfRange(channel),
                },
            );
        }
        let len = self.statuses[channel].len();
        if values.len() != len {
            return Err(
                Error::Parse {
                    role: FileRole::Dat,
                    line: 0,
                    reason: ParseReason::ColumnLength(values.len(), len),
                },
            );
        }
        let mut k: usize = 0;
        while k < values.len()
            invariant
                k <= values@.len(),
                *self == *old(self),
                channel < self.statuses@.len(),
                values@.len() == self.statuses@[channel as int]@.len(),
                forall|j: int| 0 <= j < k ==> values@[j] <= 1,
            decreases values.len() - k,
        {
            if values[k] > 1 {
                assert(values@[k as int] > 1);
                return Err(
                    Error::Parse { role: FileRole::Dat, line: 0, reason: ParseReason::StatusValue },
                );
            }
            k = k + 1;
        }
        self.statuses.set(channel, values);
        Ok(())
    }

    /// Removes analog column `index` (0-based); the other columns keep their order.
    pub fn remove_analog_column(&mut self, index: usize)
        requires
            index < old(self).analogs@.len(),
        ensures
            final(self).analogs@ == old(self).analogs@.remove(index as int),
            final(self).sample_index == old(self).sample_index,
            final(self).timestamp_us == old(self).timestamp_us,
            final(self).statuses == old(self).statuses,
    {
        self.analogs.remove(index);
    }

    /// Removes status column `index` (0-based); the other columns keep their order.
    pub fn remove_status_column(&mut self, index: usize)
        requires
            index < old(self).statuses@.len(),
        ensures
            final(self).statuses@ == old(self).statuses@.remove(index as int),
            final(self).sample_index == old(self).sample_index,
            final(self).timestamp_us == old(self).timestamp_us,
            final(self).analogs == old(self).analogs,
    {
        self.statuses.remove(index);
    }

    /// Inserts analog column `values` at position `at` (0-based); it must have one value
    /// per sample, otherwise nothing changes.
    pub fn insert_analog_column(&mut self, at: usize, values: Vec<T>) -> (r: Result<(), Error>)
        requires
            at <= old(self).analogs@.len(),
        ensures
            match r {
                Err(err) => *final(self) == *old(self) && values@.len() != old(self).sample_index@.len()
                    && err == Error::Parse {
                    role: FileRole::Dat,
                    line: 0,
                    reason: ParseReason::ColumnLength(
                        values@.len() as usize,
                        old(self).sample_index@.len() as usize,
                    ),
                },
                Ok(()) => {
                    &&& values@.len() == old(self).sample_index@.len()
                    &&& final(self).analogs@ == old(self).analogs@.insert(at as int, values)
                    &&& final(self).sample_index == old(self).sample_index
                    &&& final(self).timestamp_us == old(self).timestamp_us
                    &&& final(self).statuses == old(self).statuses
                },
            },
    {
        let n = self.sample_index.len();
        if values.len() != n {
            return Err(
                Error::Parse {
                    role: FileRole::Dat,
                    line: 0,
                    reason: ParseReason::ColumnLength(values.len(), n),
                },
            );
        }
        self.analogs.insert(at, values);
        Ok(())
    }

    /// Inserts status column `values` at position `at` (0-based); it must have one value
    /// per sample, each 0 or 1, otherwise nothing changes.
    pub fn insert_status_column(&mut self, at: usize, values: Vec<u8>) -> (r: Result<(), Error>)
        requires
            at <= old(self).statuses@.len(),
        ensures
            match r {
                Err(err) => *final(self) == *old(self) && if values@.len()
                    != old(self).sample_index@.len() {
                    err == Error::Parse {
                        role: FileRole::Dat,
                        line: 0,
                        reason: ParseReason::ColumnLength(
                            values@.len() as usize,
                            old(self).sample_index@.len() as usize,
                        ),
                    }
                } else {
                    (exists|k: int| 0 <= k < values@.len() && values@[k] > 1) && err
                        == Error::Parse { role: FileRole::Dat, line: 0, reason: ParseReason::StatusValue }
                },
                Ok(()) => {
                    &&& values@.len() == old(self).sample_index@.len()
                    &&& forall|k: int| 0 <= k < values@.len() ==> values@[k] <= 1
                    &&& final(self).statuses@ == old(self).statuses@.insert(at as int, values)
                    &&& final(self).sample_index == old(self).sample_index
                    &&& final(self).timestamp_us == old(self).timestamp_us
                    &&& final(self).analogs == old(self).analogs
                },
            },
    {
        let n = self.sample_index.len();
        if values.len() != n {
            return Err(
                Error::Parse {
                    role: FileRole::Dat,
                    line: 0,
                    reason: ParseReason::ColumnLength(values.len(), n),
                },
            );
        }
        let mut k: usize = 0;
        while k < values.len()
            invariant
                k <= values@.len(),
                *self == *old(self),
                values@.len() == self.sample_index@.len(),
                forall|j: int| 0 <= j < k ==> values@[j] <= 1,
            decreases values.len() - k,
        {
            if values[k] > 1 {
                assert(values@[k as int] > 1);
                return Err(
                    Error::Parse { role: FileRole::Dat, line: 0, reason: ParseReason::StatusValue },
                );
            }
            k = k + 1;
        }
        self.statuses.insert(at, values);
        Ok(())
    }
}

} // verus!
