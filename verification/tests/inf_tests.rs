use comtrade_io::cfg::channel::{DataType, StatusChannel, StatusExt, TranSide, Version};
use comtrade_io::equipment::{AccBran, AcvChn, BranchNum, UfeChns, UnChns, WindingLocation};
use comtrade_io::inf::builder::{
    build_status_parameter, build_status_section, fmt_acc_polarity, fmt_acv, fmt_acv3,
    fmt_branch_num, fmt_dev_id, fmt_num_list, fmt_ufe_chns, fmt_un_chns, parse_acv,
    parse_branch_num, parse_dir_field, parse_line_ta, parse_num_list, parse_transformer_ta,
    parse_tuple_usize, parse_ufe_chns, parse_un_chns, split_dev_id, winding_layout,
};
use comtrade_io::inf::number::number_text_of;
use comtrade_io::inf::reader::{
    analog_section_fields, apply_status_parameters, winding_fields, inf_description, status_channel_of_section, status_channels_of,
};
use comtrade_io::inf::{InfFile, Section, SectionKind};

#[test]
fn test_parse_num_list_keeps_zeros_and_order() {
    assert_eq!(parse_num_list("41, 42, 43, 0, 1"), vec![41, 42, 43, 0, 1]);
    assert_eq!(parse_num_list("136, 138, 140, 0"), vec![136, 138, 140, 0]);
    assert_eq!(parse_num_list("33, 38, 34, 39"), vec![33, 38, 34, 39]);
    assert_eq!(parse_num_list(""), Vec::<usize>::new());
}

#[test]
fn num_list_reads_units_signs_fractions_and_exponents() {
    assert_eq!(parse_num_list("22.45(km), 220000V, -1(Ω), 1.5e3Hz, NO, , 7"), vec![22, 220000, 0, 1500, 7]);
    assert_eq!(parse_num_list("+5, .5, 5., 1e, 2e-1, 99999999999999999999999"), vec![5, 0, 5, 0, usize::MAX]);
}

#[test]
fn test_parse_line_ta_five_fields() {
    let b = parse_line_ta("41, 42, 43, 0, 1", 1);
    assert_eq!((b.ia_idx, b.ib_idx, b.ic_idx, b.in_idx), (41, 42, 43, 0));
    assert_eq!(b.dir, 1);
    assert_eq!(b.bran_idx, 1);

    let b = parse_line_ta("41, 42, 43, 44", 2);
    assert_eq!(b.in_idx, 44, "the fourth field is the neutral channel, not the direction");
    assert_eq!(b.dir, 1);
    assert_eq!(b.bran_idx, 2);

    let b = parse_line_ta("41, 42, 43, 0, -1", 1);
    assert_eq!(b.dir, -1);
}

#[test]
fn test_parse_transformer_ta_four_fields() {
    let b = parse_transformer_ta("1, 2, 3, 1", 1);
    assert_eq!((b.ia_idx, b.ib_idx, b.ic_idx), (1, 2, 3));
    assert_eq!(b.in_idx, 0, "transformer sides have no neutral channel");
    assert_eq!(b.dir, 1);

    let b = parse_transformer_ta("29, 30, 31, -1", 1);
    assert_eq!(b.dir, -1, "polarity -1: current leaves the transformer");
    assert_eq!(b.in_idx, 0);
    assert_eq!(b.dir_raw, "-1");
}

#[test]
fn test_split_dev_id() {
    assert_eq!(split_dev_id("7,220kV 母线A", 1), (7, "220kV 母线A".into()));
    assert_eq!(split_dev_id("20,主变A,备用", 1), (20, "主变A,备用".into()));
    assert_eq!(split_dev_id(",线路名", 5), (5, "线路名".into()));
    assert_eq!(split_dev_id("", 3), (3, String::new()));
    assert_eq!(split_dev_id("仅名字", 3), (3, "仅名字".into()));
    assert_eq!(split_dev_id("0,零号", 4), (4, "零号".into()), "idx 0 falls back");
    assert_eq!(split_dev_id(" 12 ", 4), (12, String::new()));
}

#[test]
fn test_winding_layout_and_ta_slots() {
    assert_eq!(winding_layout(3), &[WindingLocation::High, WindingLocation::Medium, WindingLocation::Low]);
    assert_eq!(winding_layout(2), &[WindingLocation::High, WindingLocation::Low]);
    assert_eq!(winding_layout(1), &[WindingLocation::High, WindingLocation::Low]);

    assert_eq!(WindingLocation::High.ta_id_indices(), &[1, 2]);
    assert_eq!(WindingLocation::Medium.ta_id_indices(), &[3, 4]);
    assert_eq!(WindingLocation::Low.ta_id_indices(), &[5, 6, 7]);
}

#[test]
fn dir_field_reads_negative_numbers_only() {
    assert_eq!(parse_dir_field(Some("-1")), -1);
    assert_eq!(parse_dir_field(Some(" -2(x) ")), -1);
    assert_eq!(parse_dir_field(Some("1")), 1);
    assert_eq!(parse_dir_field(Some("-0")), 1);
    assert_eq!(parse_dir_field(Some("")), 1);
    assert_eq!(parse_dir_field(Some("NEG")), 1);
    assert_eq!(parse_dir_field(None), 1);
}

#[test]
fn channel_groups_round_trip_through_text() {
    let acv = AcvChn { ua_idx: 46, ub_idx: 47, uc_idx: 48, un_idx: 0, ul_idx: 0 };
    assert_eq!(fmt_acv(&acv), "46, 47, 48, 0");
    assert_eq!(parse_acv(&fmt_acv(&acv)), acv);
    assert_eq!(fmt_acv3(&acv), "46, 47, 48");
    let acv5 = parse_acv("1,2,3,4,5");
    assert_eq!(acv5.ul_idx, 5);

    let b = BranchNum { z1: 2, z2: 2, z3: 0 };
    assert_eq!(fmt_branch_num(&b), "2, 2, 0");
    assert_eq!(parse_branch_num(Some(&fmt_branch_num(&b))), b);
    let u = UfeChns { ufe: 49, pos: 50, neg: 51 };
    assert_eq!(parse_ufe_chns(Some(&fmt_ufe_chns(&u))), u);
    let n = UnChns { terminal: 53, neutral: 54, longitudinal: 55 };
    assert_eq!(parse_un_chns(Some(&fmt_un_chns(&n))), n);
    assert_eq!(parse_branch_num(None), BranchNum::default());

    let ta = AccBran { bran_idx: 1, ia_idx: 46, ib_idx: 47, ic_idx: 48, in_idx: 0, dir: -1, dir_raw: String::new() };
    assert_eq!(fmt_acc_polarity(&ta), "46, 47, 48, -1");
    let back = parse_transformer_ta(&fmt_acc_polarity(&ta), 1);
    assert_eq!((back.ia_idx, back.ib_idx, back.ic_idx, back.dir), (46, 47, 48, -1));

    assert_eq!(fmt_num_list(&[100, 101]), "100, 101");
    assert_eq!(parse_num_list(&fmt_num_list(&[5, 0, 3])), vec![5, 0, 3]);
    assert_eq!(fmt_num_list(&[]), "");
    assert_eq!(fmt_dev_id(5, "1号发电机"), "5,1号发电机");
    assert_eq!(split_dev_id(&fmt_dev_id(5, "1号发电机"), 1), (5, "1号发电机".to_string()));
}

#[test]
fn tuple_reads_at_most_n_fields() {
    assert_eq!(parse_tuple_usize(Some("1, 2, 3, 4"), 3), vec![1, 2, 3]);
    assert_eq!(parse_tuple_usize(Some("1"), 3), vec![1, 0, 0]);
    assert_eq!(parse_tuple_usize(Some("x, 2"), 2), vec![0, 2]);
    assert_eq!(parse_tuple_usize(None, 2), vec![0, 0]);
}

const SAMPLE: &str = "[Public File_Description]
Station_Name=中文站
Recording_Device_ID=录波器
Revision_Year=2013

[ZYHD Power_#1]
DEV_ID=5,1号发电机
BRANCH_NUM=2, 2, 0
note without value

[ZYHD ZprdInfo]
Key = Value

[Public Status_Channel_#3]
Channel_ID=Trip
";

#[test]
fn sections_are_read_with_area_kind_and_number() {
    let inf = InfFile::from_str(SAMPLE);
    assert_eq!(inf.sections.len(), 4);
    let s0 = &inf.sections[0];
    assert_eq!(s0.area, "Public");
    assert_eq!(s0.kind, SectionKind::FileDescription);
    assert_eq!(s0.index, 0);
    assert_eq!(s0.fields.len(), 3);
    let s1 = &inf.sections[1];
    assert_eq!((s1.area.as_str(), s1.index), ("ZYHD", 1));
    assert_eq!(s1.kind, SectionKind::Generator);
    assert_eq!(s1.fields[2], ("note without value".to_string(), String::new()));
    assert_eq!(s1.get("branch_num"), Some("2, 2, 0"));
    assert_eq!(inf.sections[2].kind, SectionKind::Other("ZprdInfo".into()));
    assert_eq!(inf.sections[2].get("KEY"), Some("Value"));
    assert_eq!(inf.sections[3].kind, SectionKind::StatusChannel);
    assert_eq!(inf.sections[3].index, 3);
}

#[test]
fn test_section_get_case_insensitive() {
    let inf = InfFile::from_str(SAMPLE);
    let fd = inf.file_description().unwrap();
    assert_eq!(fd.get("STATION_NAME"), fd.get("station_name"));
    assert_eq!(fd.get("Station_Name"), Some("中文站"));
    assert_eq!(fd.get("Missing"), None);
}

#[test]
fn sections_of_one_kind() {
    let inf = InfFile::from_str(SAMPLE);
    assert_eq!(inf.sections_of(&SectionKind::Generator).len(), 1);
    assert_eq!(inf.sections_of(&SectionKind::Other("ZprdInfo".into())).len(), 1);
    assert_eq!(inf.sections_of(&SectionKind::Other("ZPRDINFO".into())).len(), 0);
    assert!(inf.sections_of(&SectionKind::Bus).is_empty());
    assert!(InfFile::from_str("Key=1\n").file_description().is_none());
}

#[test]
fn written_file_reads_back_the_same_sections() {
    let inf = InfFile::from_str(SAMPLE);
    let text = inf.to_string();
    let back = InfFile::from_str(&text);
    assert_eq!(back.sections.len(), inf.sections.len());
    for (a, b) in inf.sections.iter().zip(&back.sections) {
        assert_eq!(a.area, b.area);
        assert_eq!(a.kind, b.kind);
        assert_eq!(a.index, b.index);
        assert_eq!(a.fields, b.fields);
    }
    assert!(text.starts_with("[Public File_Description]\nStation_Name=中文站\n"));
    assert!(text.contains("\n\n[ZYHD Power_#1]\n"));
    assert!(text.contains("[ZYHD ZprdInfo]\nKey=Value\n"));
    assert_eq!(inf.sections[1].to_text(), "[ZYHD Power_#1]\nDEV_ID=5,1号发电机\nBRANCH_NUM=2, 2, 0\nnote without value=");
}

#[test]
fn status_section_and_parameter() {
    let ch = StatusChannel {
        index: 3,
        name: "Trip".into(),
        phase: "A".into(),
        equipment: " ".into(),
        contact: 1,
        ext: Some(StatusExt {
            idx_org: Some(9),
            channel_type: Some("Relay".into()),
            flag: Some("F".into()),
            contact: None,
            reference: Some("PTRC$ST$Tr$general".into()),
            equipment_no: Some("Relay_#1".into()),
        }),
    };
    let s: Section = build_status_section(&ch);
    assert_eq!(s.area, "Public");
    assert_eq!(s.kind, SectionKind::StatusChannel);
    assert_eq!(s.index, 3);
    assert_eq!(s.get("Monitored_Component"), Some("PTRC$ST$Tr$general"));
    assert_eq!(s.get("Normal_State"), Some("1"));
    assert_eq!(build_status_parameter(&ch), "3, 9, Trip, Relay, F, Relay_#1");
    let plain = StatusChannel { index: 1, name: "D1".into(), ..Default::default() };
    assert_eq!(build_status_parameter(&plain), "1, 0, D1, , , ");
    assert_eq!(s.to_text(), "[Public Status_Channel_#3]\nChannel_ID=Trip\nPhase_ID=A\nMonitored_Component=PTRC$ST$Tr$general\nNormal_State=1");
}

#[test]
fn status_sections_read_as_channels() {
    let text = "[Public Status_Channel_#2]\nChannel_ID=Trip\nphase_id=A\nMonitored_Component=  Breaker 1 \nNormal_State=1\n\n[Public Status_Channel_#3]\nChannel_ID=Ref\nMonitored_Component=LD0$ST$Pos\nNormal_State=x\n";
    let inf = InfFile::from_str(text);
    let chs = status_channels_of(&inf);
    assert_eq!(chs.len(), 2);
    assert_eq!(chs[0].index, 2);
    assert_eq!(chs[0].name, "Trip");
    assert_eq!(chs[0].phase, "A");
    assert_eq!(chs[0].equipment, "Breaker 1");
    assert_eq!(chs[0].contact, 1);
    assert!(chs[0].ext.is_none());
    assert_eq!(chs[1].equipment, "");
    assert_eq!(chs[1].contact, 0);
    assert_eq!(chs[1].ext.as_ref().and_then(|e| e.reference.clone()), Some("LD0$ST$Pos".to_string()));
}

#[test]
fn status_section_reads_back() {
    let ch = StatusChannel {
        index: 4,
        name: "CB".to_string(),
        phase: "B".to_string(),
        equipment: "Line 2".to_string(),
        contact: 1,
        ext: None,
    };
    let back = status_channel_of_section(&build_status_section(&ch));
    assert_eq!(back.index, 4);
    assert_eq!(back.name, "CB");
    assert_eq!(back.phase, "B");
    assert_eq!(back.equipment, "Line 2");
    assert_eq!(back.contact, 1);
    assert!(back.ext.is_none());
}

#[test]
fn file_description_gives_header_counts_times_and_layout() {
    let text = "[Public File_Description]\nStation_Name=Sub A\nRecording_Device_ID=R1\nRevision_Year=2013\nTotal_Channel_Count=12\nAnalog_Channel_Count=8\nStatus_Channel_Count=x\nFile_Start_Time=01/02/2020,03:04:05.000006\nFile_Type=binary\n";
    let inf = InfFile::from_str(text);
    let d = inf_description(inf.file_description().unwrap());
    assert_eq!(d.header.station, "Sub A");
    assert_eq!(d.header.recorder, "R1");
    assert_eq!(d.header.version, Version::V2013);
    assert_eq!((d.channels.total, d.channels.analog, d.channels.status), (12, 8, 0));
    assert_eq!((d.start_time.year, d.start_time.month, d.start_time.day), (2020, 1, 2));
    assert_eq!(d.trigger_time, d.start_time);
    assert_eq!(d.data_type, DataType::Binary);
}

#[test]
fn file_description_defaults() {
    let inf = InfFile::from_str("[Public File_Description]\nRevision_Year=1800\n");
    let d = inf_description(inf.file_description().unwrap());
    assert_eq!(d.header.version, Version::V1991);
    assert_eq!(d.header.station, "");
    assert_eq!((d.start_time.year, d.start_time.month, d.start_time.day), (2000, 1, 1));
    assert_eq!(d.data_type, DataType::Ascii);
}

#[test]
fn status_parameters_fill_the_extras() {
    let text = "[ZYHD Status_Channels_Parameter]\nCHNL_INFO_#1=2, 17, Trip, T1, F1, Relay_#1\nCHNL_INFO_#2=9, 1, X, a, b, c\nCHNL_INFO_#3=2, 18, Trip, , F2, \nCHNL_INFO_#4=1, 5, short\n";
    let inf = InfFile::from_str(text);
    let mk = |index: usize| StatusChannel { index, name: String::new(), phase: String::new(), equipment: String::new(), contact: 0, ext: None };
    let mut chs = vec![mk(1), mk(2)];
    apply_status_parameters(&inf, &mut chs);
    assert!(chs[0].ext.is_none());
    let x = chs[1].ext.as_ref().unwrap();
    assert_eq!(x.idx_org, Some(18));
    assert_eq!(x.channel_type, None);
    assert_eq!(x.flag, Some("F2".to_string()));
    assert_eq!(x.equipment_no, None);
    assert_eq!(x.contact, None);
}

#[test]
fn status_parameter_line_reads_back() {
    let ch = StatusChannel {
        index: 3,
        name: "Trip".to_string(),
        phase: String::new(),
        equipment: String::new(),
        contact: 0,
        ext: Some(StatusExt {
            idx_org: Some(12),
            channel_type: Some("T".to_string()),
            flag: None,
            contact: None,
            reference: None,
            equipment_no: Some("Relay_#1".to_string()),
        }),
    };
    let line = build_status_parameter(&ch);
    let inf = InfFile::from_str(&format!("[ZYHD Status_Channels_Parameter]\nCHNL_INFO_#3={}\n", line));
    let mut chs = vec![StatusChannel { index: 3, ..Default::default() }];
    apply_status_parameters(&inf, &mut chs);
    let x = chs[0].ext.as_ref().unwrap();
    assert_eq!(x.idx_org, Some(12));
    assert_eq!(x.channel_type, Some("T".to_string()));
    assert_eq!(x.flag, None);
    assert_eq!(x.equipment_no, Some("Relay_#1".to_string()));
}

#[test]
fn analog_sections_read_names_component_and_scale_texts() {
    let text = "[Public Analog_Channel_#4]\nChannel_ID=Ia\nPhase_ID=A\nMonitored_Component= Line 1 \nChannel_Units=A\nChannel_Multiplier=0.5\nChannel_Skew=2\nChannel_Ratio_Primary=600\nData_Primary_Secondary=P\n\n[Public Analog_Channel_#5]\nChannel_ID=U\nMonitored_Component=LD0$MX$Vol\n";
    let inf = InfFile::from_str(text);
    let secs = inf.sections_of(&SectionKind::AnalogChannel);
    let a = analog_section_fields(secs[0]);
    assert_eq!(a.index, 4);
    assert_eq!(a.name, "Ia");
    assert_eq!(a.phase, "A");
    assert_eq!(a.unit, "A");
    assert_eq!(a.equipment, "Line 1");
    assert!(a.reference.is_none());
    assert_eq!(a.numbers, vec!["0.5", "", "2", "", "", "600", ""]);
    assert_eq!(a.tran_side, TranSide::P);
    let b = analog_section_fields(secs[1]);
    assert_eq!(b.index, 5);
    assert_eq!(b.equipment, "");
    assert_eq!(b.reference, Some("LD0$MX$Vol".to_string()));
    assert_eq!(b.phase, "");
    assert_eq!(b.tran_side, TranSide::S);
}

#[test]
fn number_text_takes_the_numeric_prefix() {
    assert_eq!(number_text_of(" 22.45(km)"), "22.45");
    assert_eq!(number_text_of("220000V"), "220000");
    assert_eq!(number_text_of("-1.5e-3x"), "-1.5e-3");
    assert_eq!(number_text_of("1.2.3"), "1.2");
    assert_eq!(number_text_of("e5"), "");
    assert_eq!(number_text_of("kV"), "");
}

#[test]
fn transformer_sides_read_parameters_branches_and_channels() {
    let text = "[Public Transformer_#1]\nH_PARAM=YN0, 220kV, 0\nTA_Id_#1=1,2,3,-1\nTA_Id_#2=0,0,0\nH_TV_CHNS=4,5,6\nH_TA_ZS=9\nH_STATUS_CHNS=2,3\nTA_Id_#5=7,8,9\n";
    let inf = InfFile::from_str(text);
    let sec = &inf.sections[0];
    let h = winding_fields(sec, WindingLocation::High).unwrap();
    assert_eq!(h.wg, "YN0");
    assert_eq!(h.v_rtg, "220kV");
    assert_eq!(h.currents.len(), 1);
    assert_eq!((h.currents[0].bran_idx, h.currents[0].ia_idx, h.currents[0].ic_idx, h.currents[0].dir), (1, 1, 3, -1));
    // A branch count of 0 falls back to the branches read.
    assert_eq!(h.bran_num, 1);
    assert_eq!((h.acv.ua_idx, h.acv.uc_idx, h.acv.ul_idx), (4, 6, 0));
    assert_eq!((h.ta_zs, h.ta_zs_gap), (9, 0));
    assert_eq!(h.sta_chns, vec![2, 3]);
    // The low side has a branch but no parameters; the medium side has neither.
    let l = winding_fields(sec, WindingLocation::Low).unwrap();
    assert_eq!(l.wg, "");
    assert_eq!(l.currents[0].bran_idx, 1);
    assert_eq!(l.bran_num, 1);
    assert!(winding_fields(sec, WindingLocation::Medium).is_none());
}
