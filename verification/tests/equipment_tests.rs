use comtrade_io::equipment::{AccBran, AcvChn, Igap, WindingLocation};
use comtrade_io::model::{ChannelKind, HdrFile};
use comtrade_io::error::{Error, FileRole};

#[test]
fn empty_channel_groups() {
    assert!(AcvChn::default().is_empty());
    assert!(!AcvChn { ul_idx: 3, ..Default::default() }.is_empty());
    let b = AccBran::default();
    assert!(b.is_empty());
    assert_eq!(b.dir, 1);
    assert!(!AccBran { in_idx: 1, ..AccBran::default() }.is_empty());
    assert_eq!(Igap::default(), Igap { zgap_idx: 0, zsgap_idx: 0 });
}

#[test]
fn winding_sides() {
    for w in [WindingLocation::High, WindingLocation::Medium, WindingLocation::Low] {
        assert_eq!(WindingLocation::parse(w.as_str()), Some(w));
    }
    assert_eq!(WindingLocation::parse(" middle "), Some(WindingLocation::Medium));
    assert_eq!(WindingLocation::parse("H"), Some(WindingLocation::High));
    assert_eq!(WindingLocation::parse("l"), Some(WindingLocation::Low));
    assert_eq!(WindingLocation::parse("top"), None);
    assert_eq!((WindingLocation::High.inf_prefix(), WindingLocation::Medium.inf_prefix(), WindingLocation::Low.inf_prefix()), ("H", "M", "L"));
}

#[test]
fn header_files_are_not_supported() {
    let path = std::path::Path::new("x.hdr");
    assert_eq!(HdrFile::from_file(path).unwrap_err(), Error::UnsupportedFormat(FileRole::Hdr));
    assert_eq!(HdrFile::default().write_file(path), Err(Error::UnsupportedFormat(FileRole::Hdr)));
    assert_ne!(ChannelKind::Analog, ChannelKind::Status);
}
