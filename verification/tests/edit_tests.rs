use comtrade_io::cfg::channel::StatusChannel;
use comtrade_io::cfg::ChannelCount;
use comtrade_io::dat::columns::DatFile;
use comtrade_io::edit::{
    insert_analog_channel_data, insert_status_channel, remove_analog_channel_data,
    remove_status_channel,
};
use comtrade_io::error::{Error, FileRole, ParseReason};

fn data() -> DatFile<f64> {
    DatFile {
        sample_index: vec![1, 2],
        timestamp_us: vec![0.0, 1000.0],
        analogs: vec![vec![1.0, 2.0], vec![3.0, 4.0]],
        statuses: vec![vec![0, 1], vec![1, 1], vec![0, 0]],
    }
}

fn channel(index: usize, name: &str) -> StatusChannel {
    StatusChannel { index, name: name.into(), ..Default::default() }
}

#[test]
fn removing_a_status_channel_renumbers_and_counts() {
    let mut chs = vec![channel(1, "a"), channel(2, "b"), channel(3, "c")];
    let mut counts = ChannelCount { total: 5, analog: 2, status: 3 };
    let mut d = data();
    remove_status_channel(&mut chs, &mut counts, &mut d, 0).unwrap();
    assert_eq!(chs.iter().map(|c| (c.index, c.name.as_str())).collect::<Vec<_>>(), vec![(1, "b"), (2, "c")]);
    assert_eq!(counts, ChannelCount { total: 4, analog: 2, status: 2 });
    assert_eq!(d.statuses, vec![vec![1, 1], vec![0, 0]]);
    let err = remove_status_channel(&mut chs, &mut counts, &mut d, 5).unwrap_err();
    assert_eq!(err, Error::Parse { role: FileRole::Cfg, line: 0, reason: ParseReason::ColumnOutOfRange(5) });
    assert_eq!(chs.len(), 2);
}

#[test]
fn inserting_a_status_channel_checks_position_length_and_values() {
    let mut chs = vec![channel(1, "a"), channel(2, "b"), channel(3, "c")];
    let mut counts = ChannelCount { total: 5, analog: 2, status: 3 };
    let mut d = data();
    insert_status_channel(&mut chs, &mut counts, &mut d, 0, channel(9, "new"), vec![1, 0]).unwrap();
    assert_eq!(chs.iter().map(|c| (c.index, c.name.as_str())).collect::<Vec<_>>(), vec![(1, "a"), (2, "new"), (3, "b"), (4, "c")]);
    assert_eq!(counts, ChannelCount { total: 6, analog: 2, status: 4 });
    assert_eq!(d.statuses[1], vec![1, 0]);
    let err = insert_status_channel(&mut chs, &mut counts, &mut d, 9, channel(1, "x"), vec![0, 0]).unwrap_err();
    assert_eq!(err, Error::Parse { role: FileRole::Cfg, line: 0, reason: ParseReason::ColumnOutOfRange(9) });
    let err = insert_status_channel(&mut chs, &mut counts, &mut d, 0, channel(1, "x"), vec![0]).unwrap_err();
    assert_eq!(err, Error::Parse { role: FileRole::Dat, line: 0, reason: ParseReason::ColumnLength(1, 2) });
    let err = insert_status_channel(&mut chs, &mut counts, &mut d, 0, channel(1, "x"), vec![0, 2]).unwrap_err();
    assert_eq!(err, Error::Parse { role: FileRole::Dat, line: 0, reason: ParseReason::StatusValue });
    assert_eq!(chs.len(), 4);
}

#[test]
fn analog_channel_edits_keep_columns_and_counts() {
    let mut counts = ChannelCount { total: 5, analog: 2, status: 3 };
    let mut d = data();
    insert_analog_channel_data(&mut counts, &mut d, 2, 1, vec![5.0, 6.0]).unwrap();
    assert_eq!(d.analogs, vec![vec![1.0, 2.0], vec![3.0, 4.0], vec![5.0, 6.0]]);
    assert_eq!(counts, ChannelCount { total: 6, analog: 3, status: 3 });
    let err = insert_analog_channel_data(&mut counts, &mut d, 3, 0, vec![1.0]).unwrap_err();
    assert_eq!(err, Error::Parse { role: FileRole::Dat, line: 0, reason: ParseReason::ColumnLength(1, 2) });
    remove_analog_channel_data(&mut counts, &mut d, 3, 0).unwrap();
    assert_eq!(d.analogs, vec![vec![3.0, 4.0], vec![5.0, 6.0]]);
    assert_eq!(counts, ChannelCount { total: 5, analog: 2, status: 3 });
    let err = remove_analog_channel_data(&mut counts, &mut d, 2, 2).unwrap_err();
    assert_eq!(err, Error::Parse { role: FileRole::Cfg, line: 0, reason: ParseReason::ColumnOutOfRange(2) });
}
