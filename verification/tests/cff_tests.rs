use comtrade_io::cff::CffFile;

#[test]
fn combined_file_is_split_at_its_markers() {
    let mut bytes = Vec::new();
    bytes.extend_from_slice(b"--- file type CFG ---\nST,REC,2013\n2,1A,1D\n");
    bytes.extend_from_slice(b"--- file type INF ---\n[Public File_Description]\nStation_Name=ST\n");
    bytes.extend_from_slice(b"--- file type DAT ---\n");
    bytes.extend_from_slice(&[1, 0, 0, 0, 10, b'\n', b'-', b'-', b'-']);
    let cff = CffFile::from_bytes(&bytes);
    assert_eq!(cff.sections.cfg.as_deref(), Some("ST,REC,2013\n2,1A,1D\n"));
    assert_eq!(
        cff.sections.inf.as_deref(),
        Some("[Public File_Description]\nStation_Name=ST\n")
    );
    assert_eq!(cff.sections.dat_bytes.as_deref(), Some(&[1u8, 0, 0, 0, 10, b'\n', b'-', b'-', b'-'][..]));
    assert!(cff.sections.hdr.is_none());
    let inf = cff.to_inf().unwrap();
    assert_eq!(inf.file_description().unwrap().get("station_name"), Some("ST"));
}

#[test]
fn markers_of_the_2013_layout_and_letter_case() {
    let text = "prefix ignored\n--- file type: cfg ---\r\nA\n--- file type: HDR ---\nfree text\n--- file type: DAT ASCII ---\n1,0,5\n";
    let cff = CffFile::from_bytes(text.as_bytes());
    assert_eq!(cff.sections.cfg.as_deref(), Some("A\n"));
    assert_eq!(cff.sections.hdr.as_deref(), Some("free text\n"));
    assert_eq!(cff.sections.dat.as_deref(), Some("1,0,5\n"));
    assert!(cff.to_inf().is_none());
}

#[test]
fn first_part_of_a_name_is_kept_and_gbk_text_is_decoded() {
    let mut bytes = b"--- file type CFG ---\nfirst\n--- file type CFG ---\nsecond\n--- file type XYZ ---\nskip\n--- file type INF ---\n".to_vec();
    bytes.extend_from_slice(&[0xC4, 0xB8, 0xCF, 0xDF]);
    let cff = CffFile::from_bytes(&bytes);
    assert_eq!(cff.sections.cfg.as_deref(), Some("first\n"));
    assert_eq!(cff.sections.inf.as_deref(), Some("母线"));
    assert!(cff.sections.dat.is_none());
}

#[test]
fn no_marker_no_parts() {
    let cff = CffFile::from_bytes(b"just text\n");
    assert!(cff.sections.cfg.is_none() && cff.sections.dat_bytes.is_none());
    assert!(CffFile::default().sections.cfg.is_none());
}

#[test]
fn encoded_parts_split_back() {
    let bytes = CffFile::encode_parts("ST,REC,1999\n1,1A,0D", Some("[Public File_Description]\nStation_Name=ST"), &[0, 1, 2, 10, 255]);
    let text_end = b"--- file type DAT ---\n";
    assert!(bytes.starts_with(b"--- file type CFG ---\nST,REC,1999\n1,1A,0D\n--- file type INF ---\n"));
    assert!(bytes.ends_with(&[text_end.as_slice(), &[0, 1, 2, 10, 255]].concat()));
    let f = CffFile::from_bytes(&bytes);
    assert_eq!(f.sections.cfg.as_deref(), Some("ST,REC,1999\n1,1A,0D\n"));
    assert_eq!(f.sections.inf.as_deref(), Some("[Public File_Description]\nStation_Name=ST\n"));
    assert_eq!(f.sections.hdr, None);
    assert_eq!(f.sections.dat_bytes, Some(vec![0, 1, 2, 10, 255]));
    let without_inf = CffFile::encode_parts("C", None, b"D");
    assert_eq!(without_inf, b"--- file type CFG ---\nC\n--- file type DAT ---\nD".to_vec());
}
