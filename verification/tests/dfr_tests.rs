use comtrade_io::dfr::{
    binary_offset, device_header_size, find_data_marker, parse_channel_count, wndr_analog_fields,
    DfrBinary,
    WNDR_TEXT_SIZE,
};
use comtrade_io::error::{BinaryReason, Error, FileRole};

#[test]
fn known_devices_have_private_headers() {
    assert_eq!(device_header_size("2704V042"), Some(248));
    assert_eq!(device_header_size("2704V072"), Some(248));
    assert_eq!(device_header_size("2704V043"), None);
    assert_eq!(device_header_size(""), None);
}

#[test]
fn binary_area_is_split_into_id_header_and_frames() {
    let mut data = b"2704V042".to_vec();
    data.extend(std::iter::repeat(7u8).take(248));
    data.extend_from_slice(&[1, 2, 3]);
    let b = DfrBinary::from_raw(&data);
    assert_eq!(b.device_id, "2704V042");
    assert_eq!(b.bin_header.len(), 248);
    assert_eq!(b.frame_data, vec![1, 2, 3]);

    let b = DfrBinary::from_raw(b"DEV_1\x00\x05\x06");
    assert_eq!(b.device_id, "DEV_1");
    assert!(b.bin_header.is_empty());
    assert_eq!(b.frame_data, vec![0, 5, 6]);

    // A known device whose header does not fit leaves no header and no frames.
    let b = DfrBinary::from_raw(b"2704V072\x01\x02");
    assert!(b.bin_header.is_empty() && b.frame_data.is_empty());

    // The identifier stops after 32 characters.
    let long = [b'A'; 40];
    let b = DfrBinary::from_raw(&long);
    assert_eq!(b.device_id.len(), 32);
    assert_eq!(b.frame_data.len(), 8);
}

#[test]
fn data_marker_and_binary_offset() {
    let data = b"[WNDR]\r\nX\r\n[Data]\r\nABC";
    assert_eq!(find_data_marker(data), Some(19));
    assert_eq!(binary_offset(data), Ok(19));
    let short = b"[WNDR]\r\nSTATION\r\n0,0A,0D\r\n32768\r\n24\r\n0\r\n";
    assert_eq!(find_data_marker(short), None);
    assert_eq!(
        binary_offset(short),
        Err(Error::Binary { role: FileRole::Dfr, offset: short.len(), reason: BinaryReason::MissingDataMarker })
    );
    let long = vec![b' '; WNDR_TEXT_SIZE + 5];
    assert_eq!(binary_offset(&long), Ok(WNDR_TEXT_SIZE));
}

#[test]
fn header_count_line() {
    assert_eq!(parse_channel_count("40,32A,8D"), (32, 8));
    assert_eq!(parse_channel_count("40, A , D"), (0, 0));
    assert_eq!(parse_channel_count("40"), (0, 0));
}

use comtrade_io::dfr::{system_time_to_timestamp, wndr_layout};
use comtrade_io::error::ParseReason;
use comtrade_io::time::Timestamp;

#[test]
fn wndr_header_layout() {
    let text = "[WNDR]\r\n  Station A \r\n3,2A,1D\r\n1,Ua,A,L1,100,1.5,kV,A\r\n2,Ub,B\r\n7, Breaker , x\r\n16384\r\n20\r\n1200\r\n";
    let w = wndr_layout(text).unwrap();
    assert_eq!(w.station_name, "Station A");
    assert_eq!(w.analog_lines, vec!["1,Ua,A,L1,100,1.5,kV,A", "2,Ub,B"]);
    assert_eq!(w.status_channels.len(), 1);
    assert_eq!((w.status_channels[0].idx, w.status_channels[0].name.as_str()), (7, "Breaker"));
    assert_eq!((w.full_scale, w.samples_per_cycle, w.total_samples), (16384, 20, 1200));
}

#[test]
fn wndr_header_defaults_and_short_text() {
    let w = wndr_layout("[WNDR]\nS\n0,5A,0D\nx\n").unwrap();
    // Five analog lines announced, one present: it is taken, the tail is missing.
    assert_eq!(w.analog_lines, vec!["x"]);
    assert!(w.status_channels.is_empty());
    assert_eq!((w.full_scale, w.samples_per_cycle, w.total_samples), (32768, 24, 0));
    let w = wndr_layout("[WNDR]").unwrap();
    assert_eq!(w.station_name, "");
    assert_eq!(
        wndr_layout("").unwrap_err(),
        Error::Parse { role: FileRole::Dfr, line: 0, reason: ParseReason::EmptyWndr }
    );
}

#[test]
fn test_short_dfr_without_data_marker_returns_error() {
    let data = b"[WNDR]\r\nSTATION\r\n0,0A,0D\r\n32768\r\n24\r\n0\r\n";
    assert_eq!(
        binary_offset(data).unwrap_err(),
        Error::Binary { role: FileRole::Dfr, offset: data.len(), reason: BinaryReason::MissingDataMarker }
    );
    assert!(binary_offset(data).unwrap_err().message().contains("缺少 [Data]"));
}

#[test]
fn file_times_from_unix_durations() {
    let t = system_time_to_timestamp(0, 0);
    assert_eq!(t, Timestamp::new(1970, 1, 1, 0, 0, 0, 0).unwrap());
    // 2024-02-29 12:34:56.789012 UTC
    let t = system_time_to_timestamp(1_709_210_096, 789_012);
    assert_eq!(t, Timestamp::new(2024, 2, 29, 12, 34, 56, 789_012).unwrap());
    let t = system_time_to_timestamp(5, 1_000_000);
    assert_eq!(t, Timestamp::new(2000, 1, 1, 0, 0, 0, 0).unwrap());
}

#[test]
fn frames_are_decoded_raw() {
    let bin = DfrBinary {
        device_id: String::new(),
        bin_header: Vec::new(),
        frame_data: vec![1, 0, 0xFF, 0xFF, 0b101, 0, 2, 0, 0x00, 0x80, 0b010, 0, 9],
    };
    let raw = bin.frames_raw(2, 3, None).unwrap();
    assert_eq!(raw.sample_index, vec![1, 2]);
    assert!(raw.timestamps.is_empty());
    assert_eq!(raw.analogs, vec![vec![1, 2], vec![-1, -32768]]);
    assert_eq!(raw.statuses, vec![vec![1, 0], vec![0, 1], vec![1, 0]]);
}

#[test]
fn frames_stop_at_the_end_point() {
    let bin = DfrBinary {
        device_id: String::new(),
        bin_header: Vec::new(),
        frame_data: vec![1, 0, 2, 0, 3, 0],
    };
    let raw = bin.frames_raw(1, 0, Some(2)).unwrap();
    assert_eq!(raw.sample_index, vec![1, 2]);
    assert_eq!(raw.analogs, vec![vec![1, 2]]);
    assert!(raw.statuses.is_empty());
}

#[test]
fn no_frames_without_frame_bytes() {
    let empty = DfrBinary::default();
    assert!(empty.frames_raw(2, 1, None).is_none());
    let bin = DfrBinary { device_id: String::new(), bin_header: Vec::new(), frame_data: vec![1, 2] };
    assert!(bin.frames_raw(0, 0, None).is_none());
}

#[test]
fn wndr_analog_line_fields() {
    let f = wndr_analog_fields(" 2, Ua, A, Bus, 100.5, 0.01, kV, A, x, x, x, x, 7, 220").unwrap();
    assert_eq!(f.idx, 2);
    assert_eq!(f.name, "Ua");
    assert_eq!(f.phase_code, "A");
    assert_eq!(f.monitor_loop, "Bus");
    assert_eq!(f.full_scale, "100.5");
    assert_eq!(f.conversion_factor, "0.01");
    assert_eq!(f.unit, "kV");
    assert_eq!(f.phase, "A");
    assert_eq!(f.ch_type, 7);
    assert_eq!(f.rated_primary, "220");
    assert!(wndr_analog_fields("1,a,b,c,d,e,f").is_none());
    let short = wndr_analog_fields("1,a,b,c,d,e,f,g").unwrap();
    assert_eq!(short.ch_type, 0);
    assert_eq!(short.rated_primary, "");
}
