use std::io::{Cursor, Read};

use rhwp::ooxml_chart::OoxmlChartType;
use rhwp::serializer::chart_ole::build_chart_ole;
use rhwp::serializer::chart_xml::{build_chart_xml, ChartSeries, ChartSpec};
use rhwp::serializer::wmf_writer::{ole_presentation_stream, wmf_from_rgba};

fn spec() -> ChartSpec {
    ChartSpec {
        chart_type: OoxmlChartType::Column,
        title: Some("분기 실적".into()),
        categories: vec!["1분기".into(), "2분기".into()],
        series: vec![ChartSeries {
            name: "매출액".into(),
            values: vec![format!("{}", 184.0f64), format!("{}", 210.0f64)],
        }],
    }
}

fn rgba(w: u32, h: u32) -> Vec<u8> {
    vec![200u8; (w * h * 4) as usize]
}

fn read_stream(cfb_bytes: &[u8], name: &str) -> Vec<u8> {
    let mut file = cfb::CompoundFile::open_strict(Cursor::new(cfb_bytes.to_vec())).unwrap();
    let mut stream = file.open_stream(name).unwrap();
    let mut out = Vec::new();
    stream.read_to_end(&mut out).unwrap();
    out
}

#[test]
fn produces_bare_cfb_for_serializer_contract() {
    let ole = build_chart_ole(&spec(), &rgba(32, 24), 32, 24, 20000, 12000).unwrap();
    assert_eq!(
        &ole.cfb[..8],
        &[0xD0, 0xCF, 0x11, 0xE0, 0xA1, 0xB1, 0x1A, 0xE1],
        "a bare compound file, so the BinData writer recognises the storage"
    );
}

#[test]
fn cfb_carries_both_streams() {
    let ole = build_chart_ole(&spec(), &rgba(16, 16), 16, 16, 20000, 12000).unwrap();
    let s = String::from_utf8_lossy(&ole.cfb);
    assert!(s.contains("c:chartSpace"), "the XML must be inside");
    assert!(s.contains("1분기"), "category");
    assert!(s.contains("매출액"), "series name");
}

#[test]
fn rejects_short_pixel_buffer() {
    let err = match build_chart_ole(&spec(), &[0u8; 10], 32, 24, 20000, 12000) {
        Ok(_) => panic!("a short buffer must be refused"),
        Err(e) => e,
    };
    assert!(err.contains("픽셀 부족"), "{}", err);
    assert_eq!(err, "미리보기 픽셀 부족: 10B < 32x24x4");
}

#[test]
fn compound_file_reader_finds_both_streams() {
    let (w, h) = (64u32, 40u32);
    let px = rgba(w, h);
    let ole = build_chart_ole(&spec(), &px, w, h, 20000, 12000).unwrap();
    let pres = ole_presentation_stream(&wmf_from_rgba(&px, w, h), 20000, 12000);
    let xml = build_chart_xml(&spec());
    assert!(pres.len() >= 4096, "the preview goes into regular sectors");
    assert!(xml.len() < 4096, "the XML goes into the mini stream");
    assert_eq!(read_stream(&ole.cfb, "/\u{2}OlePres000"), pres);
    assert_eq!(read_stream(&ole.cfb, "/OOXMLChartContents"), xml);
}

#[test]
fn compound_file_reader_finds_small_preview() {
    let (w, h) = (2u32, 2u32);
    let px = rgba(w, h);
    let ole = build_chart_ole(&spec(), &px, w, h, 432, 252).unwrap();
    let pres = ole_presentation_stream(&wmf_from_rgba(&px, w, h), 432, 252);
    assert!(pres.len() < 4096);
    assert_eq!(read_stream(&ole.cfb, "/\u{2}OlePres000"), pres);
    assert_eq!(read_stream(&ole.cfb, "/OOXMLChartContents"), build_chart_xml(&spec()));
}

#[test]
fn short_buffer_is_refused_at_any_size() {
    let err = match build_chart_ole(&spec(), &[0u8; 7], 40000, 40000, 20000, 12000) {
        Ok(_) => panic!("a short buffer must be refused"),
        Err(e) => e,
    };
    assert_eq!(err, "미리보기 픽셀 부족: 7B < 40000x40000x4");
}
