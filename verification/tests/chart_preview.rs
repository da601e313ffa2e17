use resvg::usvg;
use rhwp::serializer::chart_preview::{preview_svg, render_chart_preview};

const DRAWING: &str = r##"<rect x="20" y="20" width="200" height="120" fill="#3366cc"/>"##;

#[test]
fn renders_non_blank_pixels() {
    let options = usvg::Options::default();
    let p = match render_chart_preview(DRAWING, 432, 252, &options) {
        Ok(p) => p,
        Err(e) => panic!("{}", e),
    };
    assert_eq!(p.rgba.len(), 432 * 252 * 4);
    assert_eq!((p.width, p.height), (432, 252));
    let non_white = p
        .rgba
        .chunks(4)
        .filter(|px| px[0] < 250 || px[1] < 250 || px[2] < 250)
        .count();
    assert!(non_white > 500, "the drawing must show ({} non-white pixels)", non_white);
}

#[test]
fn rejects_zero_size() {
    let options = usvg::Options::default();
    assert!(render_chart_preview(DRAWING, 0, 100, &options).is_err());
    match render_chart_preview(DRAWING, 100, 0, &options) {
        Ok(_) => panic!("a zero height must be refused"),
        Err(e) => assert_eq!(e, "미리보기 크기가 0 이다"),
    }
}

#[test]
fn background_is_white() {
    let options = usvg::Options::default();
    let p = render_chart_preview("", 4, 3, &options).unwrap();
    assert!(p.rgba.iter().all(|&b| b == 255));
}

#[test]
fn broken_drawing_reports_the_parser() {
    let options = usvg::Options::default();
    match render_chart_preview("<rect", 10, 10, &options) {
        Ok(_) => panic!("a broken document must be refused"),
        Err(e) => assert!(e.starts_with("SVG 파싱 실패: "), "{}", e),
    }
}

#[test]
fn preview_document_wraps_the_drawing() {
    let svg = preview_svg("<g/>", 432, 252);
    assert_eq!(
        svg,
        "<svg xmlns=\"http://www.w3.org/2000/svg\" width=\"432\" height=\"252\" viewBox=\"0 0 432 252\"><rect width=\"100%\" height=\"100%\" fill=\"#ffffff\"/><g/></svg>"
    );
}
