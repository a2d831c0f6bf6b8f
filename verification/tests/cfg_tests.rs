use comtrade_io::cfg::analog::analog_line;
use comtrade_io::cfg::channel::{
    is_iec61850_reference, is_reference_like_ccbm, DataType, StatusChannel, TranSide, Version,
};
use comtrade_io::cfg::{ChannelCount, Header};
use comtrade_io::error::{Error, FileRole, ParseReason};

#[test]
fn ccbm_reference_detection_does_not_match_normal_equipment() {
    assert!(is_reference_like_ccbm("MUSV$TVTR1$MX$Vol"));
    assert!(is_reference_like_ccbm("svoutmusv$tctr1$mx$ampr"));
    assert!(!is_reference_like_ccbm("线路1"));
    assert!(!is_reference_like_ccbm("MUSV设备"));
}

#[test]
fn iec61850_reference_detection() {
    assert!(is_iec61850_reference("PTRC$ST$Tr$general"));
    assert!(is_iec61850_reference("TCTR$MX$Amp$"));
    assert!(!is_iec61850_reference("线路$1"));
    assert!(!is_iec61850_reference("MUSV$TVTR1$MX$Vol"));
    assert!(is_reference_like_ccbm("SVOUTMUSV$TCTR1$MX$AmpR"));
}

#[test]
fn test_version_parse_all_six() {
    for (s, v) in [
        ("1991", Version::V1991),
        ("1999", Version::V1999),
        ("2001", Version::V2001),
        ("2008", Version::V2008),
        ("2013", Version::V2013),
        ("2017", Version::V2017),
    ] {
        assert_eq!(Version::parse(s), Some(v), "version {}", s);
        assert_eq!(v.as_str(), s, "as_str round trip");
        assert!(!v.standard().is_empty());
    }
    assert_eq!(Version::parse(" 2013 "), Some(Version::V2013));
    assert_eq!(Version::parse("2020"), None);
    assert_eq!(Version::parse("abc"), None);
    assert_eq!(Version::parse(""), None);
}

#[test]
fn test_version_is_1999_or_later() {
    assert!(!Version::V1991.is_1999_or_later());
    for v in [
        Version::V1999,
        Version::V2001,
        Version::V2008,
        Version::V2013,
        Version::V2017,
    ] {
        assert!(v.is_1999_or_later(), "{} counts as 1999 or later", v.as_str());
    }
    assert_eq!(Version::default(), Version::V1991);
}

#[test]
fn version_standard_names() {
    assert_eq!(Version::V1991.standard(), "IEEE Std C37.111-1991");
    assert_eq!(Version::V2001.standard(), "IEC 60255-24:2001");
    assert_eq!(Version::V2017.standard(), "GB/T 14598.24-2017");
}

#[test]
fn test_header_parses_all_versions() {
    for s in ["1991", "1999", "2001", "2008", "2013", "2017"] {
        let h = Header::from_line(&format!("ST,REC,{}", s));
        assert_eq!(h.station, "ST");
        assert_eq!(h.recorder, "REC");
        assert_eq!(h.version.as_str(), s, "header version {} recognised", s);
        assert_eq!(h.to_line(), format!("ST,REC,{}", s));
    }
}

#[test]
fn test_header_defaults_to_1991_when_version_absent() {
    assert_eq!(Header::from_line("").version, Version::V1991);
    assert_eq!(Header::from_line("ST").version, Version::V1991);
    assert_eq!(Header::from_line("ST,REC").version, Version::V1991);
    assert_eq!(Header::from_line("ST,REC,").version, Version::V1991);
    assert_eq!(Header::from_line("ST,REC,2020").version, Version::V1991);
    assert_eq!(Header::from_line("ST,REC,abc").version, Version::V1991);
    let h = Header::from_line("ST,REC,2020");
    assert_eq!((h.station.as_str(), h.recorder.as_str()), ("ST", "REC"));
}

#[test]
fn header_fields_are_trimmed() {
    let h = Header::from_line("  GHBZ , 220kV线路故障 , 2013 ");
    assert_eq!(h.station, "GHBZ");
    assert_eq!(h.recorder, "220kV线路故障");
    assert_eq!(h.version, Version::V2013);
    assert_eq!(h.to_line(), "GHBZ,220kV线路故障,2013");
}

#[test]
fn channel_count_reads_and_writes() {
    let c = ChannelCount::from_line("12,6A,6D").unwrap();
    assert_eq!((c.total, c.analog, c.status), (12, 6, 6));
    assert_eq!(c.to_line(), "12,6A,6D");
    let c = ChannelCount::from_line(" 3 , 2A , 1D ").unwrap();
    assert_eq!((c.total, c.analog, c.status), (3, 2, 1));
    // A field without digits counts as 0.
    let c = ChannelCount::from_line("0,A,D").unwrap();
    assert_eq!((c.analog, c.status), (0, 0));
    let back = ChannelCount::from_line(&ChannelCount { total: 400, analog: 96, status: 304 }.to_line())
        .unwrap();
    assert_eq!((back.total, back.analog, back.status), (400, 96, 304));
}

#[test]
fn channel_count_errors() {
    assert_eq!(
        ChannelCount::from_line("12,6A"),
        Err(Error::Parse { role: FileRole::Cfg, line: 2, reason: ParseReason::ChannelCountLine })
    );
    match ChannelCount::from_line("x,6A,6D") {
        Err(Error::Number { role, text }) => {
            assert_eq!(role, FileRole::Cfg);
            assert_eq!(text, "x");
        },
        other => panic!("unexpected {:?}", other),
    }
    match ChannelCount::from_line("1,99999999999999999999999A,0D") {
        Err(Error::Number { text, .. }) => assert_eq!(text, "99999999999999999999999A"),
        other => panic!("unexpected {:?}", other),
    }
}

#[test]
fn status_channel_line_round_trip() {
    let c = StatusChannel::from_cfg_line("1,D1, , ,0");
    assert_eq!((c.index, c.name.as_str(), c.phase.as_str(), c.equipment.as_str(), c.contact), (1, "D1", "", "", 0));
    assert_eq!(c.to_cfg_line(), "1,D1,,,0");
    let c = StatusChannel::from_cfg_line("7,Trip,A,Line 1,1");
    assert_eq!(c.to_cfg_line(), "7,Trip,A,Line 1,1");
    let back = StatusChannel::from_cfg_line(&c.to_cfg_line());
    assert_eq!((back.index, back.name, back.contact), (7, "Trip".to_string(), 1));
    // Missing or unreadable numbers read as 0.
    let c = StatusChannel::from_cfg_line("x,Name");
    assert_eq!((c.index, c.contact), (0, 0));
    assert!(c.ext.is_none());
    let c = StatusChannel::from_cfg_line("3,N,,,300");
    assert_eq!(c.contact, 0);
}

#[test]
fn data_type_names() {
    assert_eq!(DataType::parse("ascii"), Some(DataType::Ascii));
    assert_eq!(DataType::parse(" Binary32 "), Some(DataType::Binary32));
    assert_eq!(DataType::parse("FLOAT32"), Some(DataType::Float32));
    assert_eq!(DataType::parse("binary"), Some(DataType::Binary));
    assert_eq!(DataType::parse("text"), None);
    for d in [DataType::Ascii, DataType::Binary, DataType::Binary32, DataType::Float32] {
        assert_eq!(DataType::parse(d.as_str()), Some(d));
    }
    assert!(DataType::Binary32.is_32bit());
    assert!(DataType::Float32.is_32bit());
    assert!(!DataType::Binary.is_32bit());
    assert_eq!(DataType::default(), DataType::Ascii);
    assert_eq!(DataType::from_name("BINARY"), Some(DataType::Binary));
    assert_eq!(DataType::from_name("binary"), None);
}

#[test]
fn tran_side_letters() {
    assert_eq!(TranSide::parse("p"), TranSide::P);
    assert_eq!(TranSide::parse(" P "), TranSide::P);
    assert_eq!(TranSide::parse("S"), TranSide::S);
    assert_eq!(TranSide::parse(""), TranSide::S);
    assert_eq!(TranSide::parse("x"), TranSide::S);
    assert_eq!(TranSide::P.as_str(), "P");
    assert_eq!(TranSide::S.as_str(), "S");
    assert_eq!(TranSide::default(), TranSide::S);
}

use comtrade_io::cfg::layout::{cfg_layout, cfg_text_readable};

const BASIC_CFG: &str = "\
    STATION,RECORDER,1999\n\
    12,6A,6D\n\
    1,IA, A, ,A,1.0,0.0,0.0,-32767,32767,1.0,1.0,S\n\
    2,IB, B, ,A,1.0,0.0,0.0,-32767,32767,1.0,1.0,S\n\
    3,IC, C, ,A,1.0,0.0,0.0,-32767,32767,1.0,1.0,S\n\
    4,UA, A, ,V,1.0,0.0,0.0,-32767,32767,1.0,1.0,S\n\
    5,UB, B, ,V,1.0,0.0,0.0,-32767,32767,1.0,1.0,S\n\
    6,UC, C, ,V,1.0,0.0,0.0,-32767,32767,1.0,1.0,S\n\
    1,D1, , ,0\n\
    2,D2, , ,0\n\
    3,D3, , ,0\n\
    4,D4, , ,0\n\
    5,D5, , ,0\n\
    6,D6, , ,0\n\
    50.0\n\
    1\n\
    1200,1200\n\
    01/15/2023,10:30:45.123456\n\
    01/15/2023,10:30:45.123456\n\
    ASCII\n\
    1.0";

#[test]
fn layout_of_a_basic_configuration() {
    assert!(cfg_text_readable(BASIC_CFG));
    let l = cfg_layout(BASIC_CFG).unwrap();
    assert_eq!(l.header.station, "STATION");
    assert_eq!((l.channels.total, l.channels.analog, l.channels.status), (12, 6, 6));
    assert_eq!(l.analog_lines.len(), 6);
    assert_eq!(l.analog_lines[5], "6,UC, C, ,V,1.0,0.0,0.0,-32767,32767,1.0,1.0,S");
    assert_eq!(l.statuses.len(), 6);
    assert_eq!((l.statuses[2].index, l.statuses[2].name.as_str()), (3, "D3"));
    assert_eq!(l.freq_line, "50.0");
    assert_eq!(l.segments, vec![("1200".to_string(), 1200)]);
    assert_eq!((l.start_time.year, l.start_time.micro), (2023, 123456));
    assert_eq!(l.data_type, DataType::Ascii);
    assert_eq!(l.timemult_line.as_deref(), Some("1.0"));
    assert!(l.time_info.is_none() && l.sampling_time_quality.is_none());
}

#[test]
fn layout_keeps_an_empty_first_line() {
    let text = "\
        \n\
        2,1A,1D\n\
        1,Ia,a,0,A,1.0,0.0,0.0,-16384,16384\n\
        1,D1, , ,0\r\n\
        50\n\
        1\n\
        1000,317\n\
        01/15/2016,10:30:45.123456\n\
        01/15/2016,10:30:45.123456\n\
        BINARY,,\n\
        1.0\n\
        a, b ,c\n\
        tq ";
    let l = cfg_layout(text).unwrap();
    assert_eq!(l.header.station, "");
    assert_eq!((l.channels.analog, l.channels.status), (1, 1));
    assert_eq!(l.statuses[0].name, "D1");
    assert_eq!(l.start_time.year, 2016);
    assert_eq!(l.data_type, DataType::Binary);
    let ti = l.time_info.unwrap();
    assert_eq!((ti.time_code.as_str(), ti.local_code.as_str()), ("a", "b"));
    assert_eq!(l.sampling_time_quality.unwrap().tmq_code, "tq");
}

#[test]
fn layout_moves_references_and_numbers_channels() {
    let text = "\
        STATION,RECORDER,1999\n\
        3,1A,2D\n\
        1,Ua,A,MUSV$TVTR1$MX$Vol,V,1,0,0,-1,1,1,1,S\n\
        0,Trip,,SVOUTMUSV$TCTR1$MX$AmpR,0\n\
        0,Close,,Breaker 1,1\n\
        50\n\
        1\n\
        100,100\n\
        01/01/2020,00:00:00.000000\n\
        01/01/2020,00:00:00.000000\n\
        ASCII\n\
        1";
    let l = cfg_layout(text).unwrap();
    let s0 = &l.statuses[0];
    assert_eq!(s0.index, 1);
    assert!(s0.equipment.is_empty());
    assert_eq!(s0.ext.as_ref().and_then(|e| e.reference.as_deref()), Some("SVOUTMUSV$TCTR1$MX$AmpR"));
    let s1 = &l.statuses[1];
    assert_eq!((s1.index, s1.equipment.as_str(), s1.contact), (2, "Breaker 1", 1));
    assert!(s1.ext.is_none());
}

#[test]
fn layout_errors() {
    assert_eq!(
        cfg_layout("a\nb\nc").unwrap_err(),
        Error::Parse { role: FileRole::Cfg, line: 0, reason: ParseReason::TooFewLines(3) }
    );
    let bad_type = BASIC_CFG.replace("ASCII", "TEXT");
    assert_eq!(
        cfg_layout(&bad_type).unwrap_err(),
        Error::Parse { role: FileRole::Cfg, line: 20, reason: ParseReason::UnknownDataType }
    );
    let many = BASIC_CFG.replace("12,6A,6D", "40,6A,6D");
    assert_eq!(
        cfg_layout(&many).unwrap_err(),
        Error::Parse { role: FileRole::Cfg, line: 0, reason: ParseReason::NoSamplingLines }
    );
    let segs = BASIC_CFG.replace("50.0\n1\n", "50.0\n9\n");
    assert_eq!(
        cfg_layout(&segs).unwrap_err(),
        Error::Parse { role: FileRole::Cfg, line: 0, reason: ParseReason::NoTimeLines }
    );
    let bad_time = BASIC_CFG.replacen("01/15/2023,10:30:45.123456", "yesterday", 1);
    assert!(matches!(cfg_layout(&bad_time).unwrap_err(), Error::Time(_)));
    // The line after the frequency line must exist: without it the text is not readable.
    let short = "H\n7,1A,1D\na\nb\nc\nd\ne\nf\ng\n50";
    assert!(!cfg_text_readable(short));
}

#[test]
fn analog_line_fields_are_split_and_trimmed() {
    let a = analog_line("3, Ua ,A,Bus 1,kV,0.01,0,0,-100,100,110,0.1, p ");
    assert_eq!(a.index, 3);
    assert_eq!(a.name, "Ua");
    assert_eq!(a.phase, "A");
    assert_eq!(a.equipment, "Bus 1");
    assert_eq!(a.unit, "kV");
    assert_eq!(a.numbers, vec!["0.01", "0", "0", "-100", "100", "110", "0.1"]);
    assert_eq!(a.tran_side, TranSide::P);
}

#[test]
fn analog_line_missing_fields() {
    let a = analog_line("x,Ib");
    assert_eq!(a.index, 0);
    assert_eq!(a.name, "Ib");
    assert_eq!(a.unit, "");
    assert_eq!(a.numbers, vec![""; 7]);
    assert_eq!(a.tran_side, TranSide::S);
}
