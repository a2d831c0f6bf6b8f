use comtrade_io::dat::columns::DatFile;
use comtrade_io::error::{Error, FileRole, ParseReason};
use comtrade_io::cfg::channel::DataType;
use comtrade_io::dat::binary::{parse_binary_raw, read_binary_records, write_binary_raw, RawDat};
use comtrade_io::dat::changed_statuses;
use comtrade_io::time::Timestamp;

fn sample() -> RawDat {
    RawDat {
        sample_index: vec![1, 2, 3],
        timestamps: vec![0, 1000, -5],
        analogs: vec![vec![100, -200, 40000], vec![-1, 0, i32::MIN]],
        statuses: vec![vec![0, 1, 1], vec![1, 0, 7], vec![0, 0]],
    }
}

#[test]
fn binary_records_are_little_endian() {
    let r = RawDat {
        sample_index: vec![1],
        timestamps: vec![258],
        analogs: vec![vec![-2]],
        statuses: vec![vec![1], vec![0], vec![1]],
    };
    let b = write_binary_raw(&r, 1, 3, DataType::Binary);
    assert_eq!(b, vec![1, 0, 0, 0, 2, 1, 0, 0, 0xfe, 0xff, 0b101, 0]);
    let b32 = write_binary_raw(&r, 1, 3, DataType::Binary32);
    assert_eq!(b32.len(), 14);
    assert_eq!(&b32[8..12], &[0xfe, 0xff, 0xff, 0xff]);
}

#[test]
fn binary_round_trip_and_clamping() {
    let r = sample();
    let b = write_binary_raw(&r, 2, 3, DataType::Binary);
    assert_eq!(b.len(), 3 * (8 + 4 + 2));
    let back = parse_binary_raw(&b, 2, 3, DataType::Binary, None);
    assert_eq!(back.sample_index, r.sample_index);
    assert_eq!(back.timestamps, r.timestamps);
    assert_eq!(back.analogs, vec![vec![100, -200, 32767], vec![-1, 0, -32768]]);
    assert_eq!(back.statuses, vec![vec![0, 1, 1], vec![1, 0, 1], vec![0, 0, 0]]);

    let b = write_binary_raw(&r, 2, 3, DataType::Float32);
    let back = parse_binary_raw(&b, 2, 3, DataType::Float32, None);
    assert_eq!(back.analogs, r.analogs);
}

#[test]
fn binary_reads_whole_records_up_to_the_expected_count() {
    let r = sample();
    let mut b = write_binary_raw(&r, 2, 3, DataType::Binary32);
    b.extend_from_slice(&[9, 9, 9]);
    let back = parse_binary_raw(&b, 2, 3, DataType::Binary32, None);
    assert_eq!(back.sample_index.len(), 3);
    let back = parse_binary_raw(&b, 2, 3, DataType::Binary32, Some(2));
    assert_eq!(back.sample_index, vec![1, 2]);
    assert_eq!(back.analogs[0], vec![100, -200]);
    let back = parse_binary_raw(&b, 2, 3, DataType::Binary32, Some(10));
    assert_eq!(back.timestamps.len(), 3);
    // Seventeen status channels take two words.
    let many = RawDat {
        sample_index: vec![5],
        timestamps: vec![0],
        analogs: vec![],
        statuses: (0..17).map(|i| vec![(i % 2) as u8]).collect(),
    };
    let b = write_binary_raw(&many, 0, 17, DataType::Binary);
    assert_eq!(b.len(), 8 + 4);
    let back = parse_binary_raw(&b, 0, 17, DataType::Binary, None);
    assert_eq!(back.statuses, many.statuses);
}

#[test]
fn status_changes_with_times() {
    let start = Timestamp::new(2023, 1, 15, 10, 30, 45, 0).unwrap();
    let statuses = vec![vec![0, 0, 1, 1, 0], vec![1, 1, 1], vec![]];
    let offsets = vec![0, 1000, 2000, 3000];
    let r = changed_statuses(&statuses, &offsets, Some(start));
    assert_eq!(r.len(), 1);
    let (ch, recs) = &r[0];
    assert_eq!(*ch, 1);
    assert_eq!(recs.len(), 3);
    assert_eq!((recs[0].sample_point, recs[0].state, recs[0].timestamp), (1, 0, Some(start)));
    assert_eq!((recs[1].sample_point, recs[1].state), (3, 1));
    assert_eq!(recs[1].timestamp, Some(Timestamp::new(2023, 1, 15, 10, 30, 45, 2000).unwrap()));
    // The fifth sample has no offset: it is taken as 0.
    assert_eq!((recs[2].sample_point, recs[2].timestamp), (5, Some(start)));
    let r = changed_statuses(&statuses, &offsets, None);
    assert_eq!(r[0].1[1].timestamp, None);
    let early = Timestamp::new(1, 1, 1, 0, 0, 0, 0).unwrap();
    let r = changed_statuses(&vec![vec![0, 1]], &vec![0, -1], Some(early));
    assert_eq!(r[0].1[1].timestamp, None);
}

fn sample_columns() -> DatFile<f64> {
    DatFile {
        sample_index: vec![1, 2, 3, 4],
        timestamp_us: vec![0.0, 100.0, 200.0, 300.0],
        analogs: vec![vec![1.0, 2.0, 3.0, 4.0]],
        statuses: vec![vec![0, 1, 1, 0], vec![1, 1, 1, 1]],
    }
}

#[test]
fn fitting_adjusts_channels_and_refuses_extra_rows() {
    let dat = sample_columns();
    let fitted = dat.fit_to_config(4, 2, 1, 0.0).unwrap();
    assert_eq!(fitted.sample_index, vec![1, 2, 3, 4]);
    assert_eq!(fitted.timestamp_us, vec![0.0, 100.0, 200.0, 300.0]);
    assert_eq!(fitted.analogs, vec![vec![1.0, 2.0, 3.0, 4.0], vec![0.0, 0.0, 0.0, 0.0]]);
    assert_eq!(fitted.statuses, vec![vec![0, 1, 1, 0]]);
    let err = dat.fit_to_config(3, 2, 1, 0.0).unwrap_err();
    assert_eq!(err, Error::Parse { role: FileRole::Dat, line: 0, reason: ParseReason::ExtraRows(4, 3) });
    assert!(err.message().contains("超过 CFG"));
}

#[test]
fn fitting_without_expected_rows_keeps_them() {
    let fitted = sample_columns().fit_to_config(0, 1, 3, 0.0).unwrap();
    assert_eq!(fitted.len(), 4);
    assert_eq!(fitted.statuses[2], vec![0, 0, 0, 0]);
}

#[test]
fn fitting_refuses_data_without_analog_columns() {
    let dat = DatFile::<f64> { sample_index: vec![1], timestamp_us: vec![0.0], analogs: vec![], statuses: vec![] };
    let err = dat.fit_to_config(1, 1, 0, 0.0).unwrap_err();
    assert_eq!(err, Error::Parse { role: FileRole::Dat, line: 0, reason: ParseReason::NoAnalogColumns });
}

#[test]
fn cropping_keeps_a_row_range() {
    let mut dat = sample_columns();
    dat.crop_rows(1, 3).unwrap();
    assert_eq!(dat.sample_index, vec![1, 2]);
    assert_eq!(dat.timestamp_us, vec![100.0, 200.0]);
    assert_eq!(dat.analogs, vec![vec![2.0, 3.0]]);
    assert_eq!(dat.statuses, vec![vec![1, 1], vec![1, 1]]);
}

#[test]
fn cropping_refuses_bad_ranges() {
    let mut dat = sample_columns();
    let err = dat.crop_rows(2, 2).unwrap_err();
    assert_eq!(err, Error::Parse { role: FileRole::Dat, line: 0, reason: ParseReason::RowRange(2, 2, 4) });
    assert!(dat.crop_rows(0, 5).is_err());
    assert_eq!(dat.len(), 4);
}

#[test]
fn replacing_columns_checks_index_length_and_values() {
    let mut dat = sample_columns();
    dat.set_analog_column(0, vec![9.0, 8.0, 7.0, 6.0]).unwrap();
    assert_eq!(dat.analog_samples(0), Some(&[9.0, 8.0, 7.0, 6.0][..]));
    assert_eq!(
        dat.set_analog_column(1, vec![0.0; 4]).unwrap_err(),
        Error::Parse { role: FileRole::Dat, line: 0, reason: ParseReason::ColumnOutOfRange(1) }
    );
    assert_eq!(
        dat.set_analog_column(0, vec![0.0; 3]).unwrap_err(),
        Error::Parse { role: FileRole::Dat, line: 0, reason: ParseReason::ColumnLength(3, 4) }
    );
    assert_eq!(
        dat.set_status_column(1, vec![0, 2, 0, 0]).unwrap_err(),
        Error::Parse { role: FileRole::Dat, line: 0, reason: ParseReason::StatusValue }
    );
    dat.set_status_column(1, vec![0, 0, 1, 0]).unwrap();
    assert_eq!(dat.status_samples(1), Some(&[0u8, 0, 1, 0][..]));
    assert_eq!(dat.status_samples(2), None);
}

#[test]
fn binary_files_must_hold_whole_records_and_the_stated_count() {
    // One analog channel, no status: a record is 4 + 4 + 2 = 10 bytes.
    let err = read_binary_records(&[0u8; 9], 1, 0, DataType::Binary, Some(1)).unwrap_err();
    assert_eq!(err, Error::Parse { role: FileRole::Dat, line: 0, reason: ParseReason::PartialRecord(9, 10) });
    assert!(err.message().contains("整数倍"));
    let err = read_binary_records(&[0u8; 10], 1, 0, DataType::Binary, Some(2)).unwrap_err();
    assert_eq!(err, Error::Parse { role: FileRole::Dat, line: 0, reason: ParseReason::SampleCount(2, 1) });
    assert!(err.message().contains("采样点数"));
    let r = sample();
    let b = write_binary_raw(&r, 2, 3, DataType::Binary);
    let back = read_binary_records(&b, 2, 3, DataType::Binary, Some(3)).unwrap();
    assert_eq!(back.sample_index, r.sample_index);
    assert_eq!(read_binary_records(&b, 2, 3, DataType::Binary, None).unwrap().timestamps, r.timestamps);
}
