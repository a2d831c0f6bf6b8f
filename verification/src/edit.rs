//! Edits of a recording's channels that keep the configuration's channel lines, its
//! channel counts and the sample columns in step. Status channel lines are edited here
//! whole; of an analog channel edit, the library checks the request and edits the counts
//! and the sample columns, and the caller moves the channel line (whose gains are floats)
//! and numbers the lines again.

use vstd::prelude::*;

use crate::cfg::channel::StatusChannel;
use crate::cfg::ChannelCount;
use crate::dat::columns::DatFile;
use crate::error::{Error, FileRole, ParseReason};

verus! {

/// The channels of `s`, numbered 1, 2, … in list order.
pub open spec fn renumbered(s: Seq<StatusChannel>) -> Seq<StatusChannel> {
    Seq::new(s.len(), |i: int| StatusChannel { index: (i + 1) as usize, ..s[i] })
}

/// The counts once the status channels number `status`: the analog count stays, the
/// total is the sum.
pub open spec fn counts_with_status(c: ChannelCount, status: nat) -> ChannelCount {
    ChannelCount { total: (c.analog + status) as usize, analog: c.analog, status: status as usize }
}

/// The counts once the analog channels number `analog`: the status count stays, the
/// total is the sum.
pub open spec fn counts_with_analog(c: ChannelCount, analog: nat) -> ChannelCount {
    ChannelCount { total: (analog + c.status) as usize, analog: analog as usize, status: c.status }
}

/// Numbers the channels 1, 2, … in list order.
fn renumber(chs: &mut Vec<StatusChannel>)
    ensures
        final(chs)@ == renumbered(old(chs)@),
{
    let n = chs.len();
    let mut i: usize = 0;
    while i < n
        invariant
            n == chs@.len(),
            n == old(chs)@.len(),
            i <= n,
            forall|j: int| 0 <= j < i ==> #[trigger] chs@[j] == renumbered(old(chs)@)[j],
            forall|j: int| i <= j < n ==> #[trigger] chs@[j] == old(chs)@[j],
        decreases n - i,
    {
        chs[i].index = i + 1;
        i = i + 1;
    }
    assert(chs@ =~= renumbered(old(chs)@));
}

/// Removes status channel `index` (0-based): its channel line and its sample column. The
/// remaining channels are numbered 1, 2, … again and the counts follow. An index past
/// the channel lines is refused, and nothing changes.
pub fn remove_status_channel<T: Copy>(
    statuses: &mut Vec<StatusChannel>,
    counts: &mut ChannelCount,
    data: &mut DatFile<T>,
    index: usize,
) -> (r: Result<(), Error>)
    requires
        index < old(statuses)@.len() ==> index < old(data).statuses@.len(),
        index < old(statuses)@.len() ==> old(counts).analog + old(statuses)@.len() - 1
            <= usize::MAX,
    ensures
        match r {
            Err(err) => {
                &&& index >= old(statuses)@.len()
                &&& err == Error::Parse {
                    role: FileRole::Cfg,
                    line: 0,
                    reason: ParseReason::ColumnOutOfRange(index),
                }
                &&& *final(statuses) == *old(statuses)
                &&& *final(counts) == *old(counts)
                &&& *final(data) == *old(data)
            },
            Ok(()) => {
                &&& index < old(statuses)@.len()
                &&& final(statuses)@ == renumbered(old(statuses)@.remove(index as int))
                &&& *final(counts) == counts_with_status(*old(counts), final(statuses)@.len())
                &&& final(data).statuses@ == old(data).statuses@.remove(index as int)
                &&& final(data).analogs == old(data).analogs
                &&& final(data).sample_index == old(data).sample_index
                &&& final(data).timestamp_us == old(data).timestamp_us
            },
        },
{
    if index >= statuses.len() {
        return Err(
            Error::Parse { role: FileRole::Cfg, line: 0, reason: ParseReason::ColumnOutOfRange(index) },
        );
    }
    statuses.remove(index);
    data.remove_status_column(index);
    renumber(statuses);
    let status = statuses.len();
    *counts = ChannelCount { total: counts.analog + status, analog: counts.analog, status };
    Ok(())
}

/// Inserts status channel `ch` after channel `after` (0-based), with its sample column
/// `values`. All status channels are numbered 1, 2, … again and the counts follow.
/// Refused, with nothing changed: a position past the channel lines, then a column
/// without one value per sample, then a value other than 0 or 1.
pub fn insert_status_channel<T: Copy>(
    statuses: &mut Vec<StatusChannel>,
    counts: &mut ChannelCount,
    data: &mut DatFile<T>,
    after: usize,
    ch: StatusChannel,
    values: Vec<u8>,
) -> (r: Result<(), Error>)
    requires
        after < old(statuses)@.len() ==> after < old(data).statuses@.len(),
        after < old(statuses)@.len() ==> old(counts).analog + old(statuses)@.len() + 1
            <= usize::MAX,
    ensures
        match r {
            Err(err) => {
                &&& *final(statuses) == *old(statuses)
                &&& *final(counts) == *old(counts)
                &&& *final(data) == *old(data)
                &&& if after >= old(statuses)@.len() {
                    err == Error::Parse {
                        role: FileRole::Cfg,
                        line: 0,
                        reason: ParseReason::ColumnOutOfRange(after),
                    }
                } else if values@.len() != old(data).sample_index@.len() {
                    err == Error::Parse {
                        role: FileRole::Dat,
                        line: 0,
                        reason: ParseReason::ColumnLength(
                            values@.len() as usize,
                            old(data).sample_index@.len() as usize,
                        ),
                    }
                } else {
                    &&& exists|k: int| 0 <= k < values@.len() && values@[k] > 1
                    &&& err == Error::Parse {
                        role: FileRole::Dat,
                        line: 0,
                        reason: ParseReason::StatusValue,
                    }
                }
            },
            Ok(()) => {
                &&& after < old(statuses)@.len()
                &&& values@.len() == old(data).sample_index@.len()
                &&& forall|k: int| 0 <= k < values@.len() ==> values@[k] <= 1
                &&& final(statuses)@ == renumbered(old(statuses)@.insert(after + 1, ch))
                &&& *final(counts) == counts_with_status(*old(counts), final(statuses)@.len())
                &&& final(data).statuses@ == old(data).statuses@.insert(after + 1, values)
                &&& final(data).analogs == old(data).analogs
                &&& final(data).sample_index == old(data).sample_index
                &&& final(data).timestamp_us == old(data).timestamp_us
            },
        },
{
    if after >= statuses.len() {
        return Err(
            Error::Parse { role: FileRole::Cfg, line: 0, reason: ParseReason::ColumnOutOfRange(after) },
        );
    }
    let r = data.insert_status_column(after + 1, values);
    if let Err(e) = r {
        return Err(e);
    }
    statuses.insert(after + 1, ch);
    renumber(statuses);
    let status = statuses.len();
    *counts = ChannelCount { total: counts.analog + status, analog: counts.analog, status };
    Ok(())
}

/// Removes the sample column of analog channel `index` (0-based) of a configuration with
/// `channels` analog channel lines, and sets the counts to one channel fewer. An index
/// past the channel lines is refused, and nothing changes.
pub fn remove_analog_channel_data<T: Copy>(
    counts: &mut ChannelCount,
    data: &mut DatFile<T>,
    channels: usize,
    index: usize,
) -> (r: Result<(), Error>)
    requires
        index < channels ==> index < old(data).analogs@.len(),
        index < channels ==> channels - 1 + old(counts).status <= usize::MAX,
    ensures
        match r {
            Err(err) => {
                &&& index >= channels
                &&& err == Error::Parse {
                    role: FileRole::Cfg,
                    line: 0,
                    reason: ParseReason::ColumnOutOfRange(index),
                }
                &&& *final(counts) == *old(counts)
                &&& *final(data) == *old(data)
            },
            Ok(()) => {
                &&& index < channels
                &&& *final(counts) == counts_with_analog(*old(counts), (channels - 1) as nat)
                &&& final(data).analogs@ == old(data).analogs@.remove(index as int)
                &&& final(data).statuses == old(data).statuses
                &&& final(data).sample_index == old(data).sample_index
                &&& final(data).timestamp_us == old(data).timestamp_us
            },
        },
{
    if index >= channels {
        return Err(
            Error::Parse { role: FileRole::Cfg, line: 0, reason: ParseReason::ColumnOutOfRange(index) },
        );
    }
    data.remove_analog_column(index);
    let analog = channels - 1;
    *counts = ChannelCount { total: analog + counts.status, analog, status: counts.status };
    Ok(())
}

/// Inserts the sample column `values` of a new analog channel after channel `after`
/// (0-based) of a configuration with `channels` analog channel lines, and sets the counts
/// to one channel more. Refused, with nothing changed: a position past the channel lines,
/// then a column without one value per sample.
pub fn insert_analog_channel_data<T: Copy>(
    counts: &mut ChannelCount,
    data: &mut DatFile<T>,
    channels: usize,
    after: usize,
    values: Vec<T>,
) -> (r: Result<(), Error>)
    requires
        after < channels ==> after < old(data).analogs@.len(),
        after < channels ==> channels + 1 + old(counts).status <= usize::MAX,
    ensures
        match r {
            Err(err) => {
                &&& *final(counts) == *old(counts)
                &&& *final(data) == *old(data)
                &&& if after >= channels {
                    err == Error::Parse {
                        role: FileRole::Cfg,
                        line: 0,
                        reason: ParseReason::ColumnOutOfRange(after),
                    }
                } else {
                    &&& values@.len() != old(data).sample_index@.len()
                    &&& err == Error::Parse {
                        role: FileRole::Dat,
                        line: 0,
                        reason: ParseReason::ColumnLength(
                            values@.len() as usize,
                            old(data).sample_index@.len() as usize,
                        ),
                    }
                }
            },
            Ok(()) => {
                &&& after < channels
                &&& values@.len() == old(data).sample_index@.len()
                &&& *final(counts) == counts_with_analog(*old(counts), (channels + 1) as nat)
                &&& final(data).analogs@ == old(data).analogs@.insert(after + 1, values)
                &&& final(data).statuses == old(data).statuses
                &&& final(data).sample_index == old(data).sample_index
                &&& final(data).timestamp_us == old(data).timestamp_us
            },
        },
{
    if after >= channels {
        return Err(
            Error::Parse { role: FileRole::Cfg, line: 0, reason: ParseReason::ColumnOutOfRange(after) },
        );
    }
    let r = data.insert_analog_column(after + 1, values);
    if let Err(e) = r {
        return Err(e);
    }
    let analog = channels + 1;
    *counts = ChannelCount { total: analog + counts.status, analog, status: counts.status };
    Ok(())
}

} // verus!
