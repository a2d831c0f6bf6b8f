use comtrade_io::dmf::tree::Element;
use comtrade_io::dmf::{channel_ref, exciter_branch, generator_branch, ExciterBranch, GeneratorBranch};
use comtrade_io::dmf::tree::read_tree;
use comtrade_io::dmf::{parse_dir, DmfStatusChannel};

#[test]
fn test_parse_dir_normalization() {
    assert_eq!(parse_dir("POS"), 1);
    assert_eq!(parse_dir("pos"), 1);
    assert_eq!(parse_dir("NEG"), -1);
    assert_eq!(parse_dir("neg"), -1);
    assert_eq!(parse_dir("1"), 1);
    assert_eq!(parse_dir("-1"), -1);
    assert_eq!(parse_dir(""), 1);
    assert_eq!(parse_dir("???"), 1);
}

#[test]
fn dir_spellings() {
    assert_eq!(parse_dir(" Negative "), -1);
    assert_eq!(parse_dir("-"), -1);
    assert_eq!(parse_dir("-0"), 1);
    assert_eq!(parse_dir("+3"), 1);
    // Out of the i32 range the text is no number, and no known word either.
    assert_eq!(parse_dir("-99999999999"), 1);
    let s = DmfStatusChannel { idx_cfg: 1, contact: "0".into(), ..Default::default() };
    assert_eq!((s.idx_cfg, s.contact.as_str()), (1, "0"));
}

use comtrade_io::dmf::xml_reader::{unescape, XmlEvent, XmlReader};
use comtrade_io::dmf::xml_writer::{
    dir_string, element_line, escape, push_acc, push_acv, push_chn_refs, push_igap,
    push_neutral_group, push_phase_acc, status_channel_line,
};
use comtrade_io::dmf::{
    attr, attr_str, attr_usize, parse_acc_attrs, parse_acv_attrs, parse_igap_attrs,
    parse_status_attrs,
};
use comtrade_io::equipment::{AccBran, AcvChn, Igap};
use comtrade_io::error::{Error, XmlReason};

fn start(name: &str, attrs: &[(&str, &str)], empty: bool) -> XmlEvent {
    XmlEvent::Start {
        name: name.into(),
        attrs: attrs.iter().map(|(k, v)| (k.to_string(), v.to_string())).collect(),
        empty,
    }
}

fn all_events(xml: &str) -> Result<Vec<XmlEvent>, Error> {
    let mut r = XmlReader::new(xml.as_bytes());
    let mut out = Vec::new();
    loop {
        let e = r.next_event()?;
        if e == XmlEvent::Eof {
            return Ok(out);
        }
        out.push(e);
    }
}

#[test]
fn reader_gives_tags_attributes_and_text() {
    let xml = "<?xml version=\"1.0\"?>\n<!-- note --><scl:Model a=\"1\" b='x y'>\n  hello <![CDATA[<raw>]]>\n\t<scl:Leaf idx=\"3\"/></scl:Model>";
    let ev = all_events(xml).unwrap();
    assert_eq!(
        ev,
        vec![
            start("Model", &[("a", "1"), ("b", "x y")], false),
            XmlEvent::Text("hello".into()),
            XmlEvent::Text("<raw>".into()),
            start("Leaf", &[("idx", "3")], true),
            XmlEvent::End { name: "Model".into() },
        ]
    );
}

#[test]
fn reader_errors_carry_positions() {
    assert_eq!(
        all_events("<").unwrap_err(),
        Error::Xml { position: 1, reason: XmlReason::UnexpectedEnd }
    );
    assert_eq!(
        all_events("<!-- open").unwrap_err(),
        Error::Xml { position: 7, reason: XmlReason::UnclosedComment }
    );
    assert_eq!(
        all_events("<![CDATA[abc").unwrap_err(),
        Error::Xml { position: 9, reason: XmlReason::UnclosedCdata }
    );
    let bad = [b'<', b'a', b' ', b'k', b'=', b'"', 0xff, b'"', b'/', b'>'];
    let mut r = XmlReader::new(&bad);
    assert_eq!(
        r.next_event().unwrap_err(),
        Error::Xml { position: 6, reason: XmlReason::InvalidAttrUtf8 }
    );
    let bad_text = [b' ', 0xfe, b'<'];
    let mut r = XmlReader::new(&bad_text);
    assert_eq!(
        r.next_event().unwrap_err(),
        Error::Xml { position: 1, reason: XmlReason::InvalidTextUtf8 }
    );
}

#[test]
fn reader_decodes_entities_in_utf8_values() {
    let ev = all_events("<a n=\"主变&amp;1\">  \n </a>").unwrap();
    assert_eq!(ev, vec![start("a", &[("n", "主变&1")], false), XmlEvent::End { name: "a".into() }]);
}

#[test]
fn attribute_lookups() {
    let attrs = vec![
        ("idx".to_string(), " 12 ".to_string()),
        ("idx".to_string(), "99".to_string()),
        ("name".to_string(), "B1".to_string()),
        ("bad".to_string(), "x".to_string()),
    ];
    assert_eq!(attr(&attrs, "idx"), Some(" 12 "));
    assert_eq!(attr(&attrs, "IDX"), None);
    assert_eq!(attr_usize(&attrs, "idx"), 12);
    assert_eq!(attr_usize(&attrs, "bad"), 0);
    assert_eq!(attr_usize(&attrs, "missing"), 0);
    assert_eq!(attr_str(&attrs, "name"), "B1");
    assert_eq!(attr_str(&attrs, "missing"), "");
}

fn attrs_of(line: &str) -> Vec<(String, String)> {
    match XmlReader::new(line.as_bytes()).next_event().unwrap() {
        XmlEvent::Start { attrs, empty: true, .. } => attrs,
        other => panic!("not a self-closing tag: {:?}", other),
    }
}

#[test]
fn written_channel_groups_read_back() {
    let acv = AcvChn { ua_idx: 1, ub_idx: 2, uc_idx: 3, un_idx: 4, ul_idx: 0 };
    let mut lines = Vec::new();
    push_acv(&mut lines, 2, &acv);
    push_acv(&mut lines, 2, &AcvChn::default());
    assert_eq!(lines, vec!["\t\t<scl:ACVChn ua_idx=\"1\" ub_idx=\"2\" uc_idx=\"3\" un_idx=\"4\" ul_idx=\"0\"/>"]);
    assert_eq!(parse_acv_attrs(&attrs_of(&lines[0])), acv);

    let b = AccBran { bran_idx: 2, ia_idx: 11, ib_idx: 12, ic_idx: 13, in_idx: 0, dir: -1, dir_raw: String::new() };
    push_acc(&mut lines, 1, &b);
    assert_eq!(lines[1], "\t<scl:ACC_Bran bran_idx=\"2\" ia_idx=\"11\" ib_idx=\"12\" ic_idx=\"13\" in_idx=\"0\" dir=\"NEG\"/>");
    let back = parse_acc_attrs(&attrs_of(&lines[1]));
    assert_eq!((back.bran_idx, back.ia_idx, back.ic_idx, back.dir), (2, 11, 13, -1));
    assert_eq!(back.dir_raw, "NEG");

    let g = Igap { zgap_idx: 41, zsgap_idx: 42 };
    push_igap(&mut lines, 0, &g);
    push_igap(&mut lines, 0, &Igap::default());
    assert_eq!(lines.len(), 3);
    assert_eq!(parse_igap_attrs(&attrs_of(&lines[2])), g);

    push_chn_refs(&mut lines, 1, "AnaChn", &[5, 7]);
    assert_eq!(lines[3], "\t<scl:AnaChn idx_cfg=\"5\"/>");
    assert_eq!(attr_usize(&attrs_of(&lines[4]), "idx_cfg"), 7);
}

#[test]
fn phase_and_neutral_groups() {
    let b = AccBran { bran_idx: 1, ia_idx: 7, ib_idx: 8, ic_idx: 9, in_idx: 0, dir: 1, dir_raw: "pos".into() };
    let mut lines = Vec::new();
    push_phase_acc(&mut lines, 0, "TA_Zs", &b);
    push_phase_acc(&mut lines, 0, "TA_Zs", &AccBran::default());
    push_neutral_group(&mut lines, 1, 2, 0, &AccBran::default());
    push_neutral_group(&mut lines, 1, 2, 3, &b);
    assert_eq!(
        lines,
        vec![
            "<scl:TA_Zs ia_idx=\"7\" ib_idx=\"8\" ic_idx=\"9\" dir=\"pos\"/>".to_string(),
            "\t<scl:NeutGroup group_idx=\"2\" bran_num=\"3\" bran_idx=\"1\" ia_idx=\"7\" ib_idx=\"8\" ic_idx=\"9\" dir=\"pos\"/>".to_string(),
        ]
    );
}

#[test]
fn escaping_and_status_lines() {
    assert_eq!(escape("a&b<c>\"d\""), "a&amp;b&lt;c&gt;&quot;d&quot;");
    assert_eq!(escape("plain"), "plain");
    let b = AccBran { dir_raw: "<x>".into(), ..AccBran::default() };
    assert_eq!(dir_string(&b), "&lt;x&gt;");
    let c = DmfStatusChannel {
        idx_cfg: 3,
        idx_org: 9,
        ch_type: "Relay".into(),
        flag: "trip".into(),
        contact: "NO".into(),
        src_ref: "P1/GGIO1".into(),
    };
    let line = status_channel_line(&c);
    assert_eq!(line, "\t<scl:StatusChannel idx_cfg=\"3\" idx_org=\"9\" type=\"Relay\" flag=\"trip\" contact=\"NO\" srcRef=\"P1/GGIO1\"/>");
    let back = parse_status_attrs(&attrs_of(&line));
    assert_eq!((back.idx_cfg, back.idx_org), (3, 9));
    assert_eq!((back.ch_type.as_str(), back.flag.as_str(), back.contact.as_str(), back.src_ref.as_str()), ("Relay", "trip", "NO", "P1/GGIO1"));
    // A text that needs escaping is written with entities and reads back as it was.
    let d = DmfStatusChannel { ch_type: "a&b".into(), ..c };
    assert!(status_channel_line(&d).contains("type=\"a&amp;b\""));
    assert_eq!(parse_status_attrs(&attrs_of(&status_channel_line(&d))).ch_type, "a&b");
    let pairs = vec![("k".to_string(), "v".to_string())];
    assert_eq!(element_line(0, "x:y", &pairs), "<x:y k=\"v\"/>");
}

#[test]
fn status_attributes_take_the_last_of_a_name() {
    let attrs = vec![
        ("idx_cfg".to_string(), "4".to_string()),
        ("idx_cfg".to_string(), "x".to_string()),
        ("idx_org".to_string(), " 5".to_string()),
        ("type".to_string(), "T".to_string()),
    ];
    let c = parse_status_attrs(&attrs);
    assert_eq!((c.idx_cfg, c.idx_org, c.ch_type.as_str(), c.flag.as_str()), (0, 0, "T", ""));
}

fn attr_pairs(pairs: &[(&str, &str)]) -> Vec<(String, String)> {
    pairs.iter().map(|(k, v)| (k.to_string(), v.to_string())).collect()
}

#[test]
fn tree_attaches_children_to_the_innermost_device() {
    let xml = br#"<?xml version="1.0"?>
<scl:ComtradeModel station_name="S1">
  <scl:AnalogChannel idx_cfg="1"/>
  <scl:StatusChannel idx_cfg="2"><scl:SDL_X a="1"/></scl:StatusChannel>
  <scl:Bus idx="1"><scl:ACVChn ua_idx="1"/><scl:AnaChn idx_cfg="3"/></scl:Bus>
  <scl:Line idx="2">
    <scl:RX r1="0.1"/>
    <scl:SDL_SysConfig><scl:ACVChn ua_idx="9"/></scl:SDL_SysConfig>
    <scl:ACC_Bran bran_idx="1"/>
  </scl:Line>
  <scl:Transformer idx="3">
    <scl:TransformerWinding location="High"/>
    <scl:TransformerWinding location="Low"><scl:Igap zgap_idx="5"/></scl:TransformerWinding>
    <scl:StaChn idx_cfg="4"/>
  </scl:Transformer>
  <scl:Generator idx="4"/>
</scl:ComtradeModel>"#;
    let tree = read_tree(xml).unwrap();
    assert_eq!(tree.model, Some(attr_pairs(&[("station_name", "S1")])));
    assert_eq!(tree.analogs, vec![attr_pairs(&[("idx_cfg", "1")])]);
    assert_eq!(tree.statuses, vec![attr_pairs(&[("idx_cfg", "2")])]);
    assert_eq!(tree.buses.len(), 1);
    let bus_children: Vec<&str> = tree.buses[0].children.iter().map(|e| e.name.as_str()).collect();
    assert_eq!(bus_children, vec!["ACVChn", "AnaChn"]);
    let line_children: Vec<&str> = tree.lines[0].children.iter().map(|e| e.name.as_str()).collect();
    assert_eq!(line_children, vec!["RX", "ACC_Bran"]);
    let tr = &tree.transformers[0];
    assert_eq!(tr.windings.len(), 2);
    assert_eq!(tr.windings[0].attrs, attr_pairs(&[("location", "High")]));
    assert!(tr.windings[0].children.is_empty());
    assert_eq!(tr.windings[1].children[0].name, "Igap");
    assert_eq!(tr.children[0].name, "StaChn");
    assert_eq!(tree.generators.len(), 1);
    assert!(tree.exciters.is_empty());
}

#[test]
fn tree_reports_malformed_xml() {
    assert!(read_tree(b"<scl:Bus idx=\"1\"><!-- open").is_err());
}

#[test]
fn attribute_entities_are_decoded() {
    let xml = r#"<scl:ComtradeModel station_name="A&amp;B &lt;1&gt;" version="1.0" reference="0" rec_dev_name="R"/>"#;
    let tree = read_tree(xml.as_bytes()).unwrap();
    let model = tree.model.unwrap();
    assert_eq!(model[0], ("station_name".to_string(), "A&B <1>".to_string()));
    assert_eq!(model[3].1, "R");
    let mut r = XmlReader::new(br#"<a v="&quot;x&apos; &amp;amp; &unknown;"/>"#);
    match r.next_event().unwrap() {
        XmlEvent::Start { attrs, .. } => assert_eq!(attrs[0].1, "\"x' &amp; &unknown;"),
        _ => panic!("expected a start tag"),
    }
}

#[test]
fn escaped_text_reads_back() {
    let text = "a<b> & \"c\" 'd'";
    assert_eq!(escape(text), "a&lt;b&gt; &amp; &quot;c&quot; 'd'");
    assert_eq!(unescape(&escape(text)), text);
}

#[test]
fn reference_elements_and_branch_slots() {
    let e = Element { name: "AnaChn".into(), attrs: vec![("idx_cfg".into(), "7".into())] };
    assert_eq!(channel_ref(&e), Some(7));
    let z = Element { name: "AnaChn".into(), attrs: vec![("idx_cfg".into(), "0".into())] };
    assert_eq!(channel_ref(&z), None);
    assert_eq!(generator_branch(0), Some(GeneratorBranch::Terminal));
    assert_eq!(generator_branch(1), Some(GeneratorBranch::Terminal));
    assert_eq!(generator_branch(3), Some(GeneratorBranch::Neutral2));
    assert_eq!(generator_branch(5), None);
    assert_eq!(exciter_branch(2), Some(ExciterBranch::Neutral));
    assert_eq!(exciter_branch(3), None);
}
