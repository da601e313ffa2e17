use rhwp::ooxml_chart::OoxmlChartType;
use rhwp::serializer::chart_xml::{build_chart_xml, col_letter, num_cache, ChartSeries, ChartSpec};

fn num(v: f64) -> String {
    format!("{}", v)
}

fn sample() -> ChartSpec {
    ChartSpec {
        chart_type: OoxmlChartType::Column,
        title: Some("분기 실적".to_string()),
        categories: vec!["1분기".into(), "2분기".into(), "3분기".into(), "4분기".into()],
        series: vec![
            ChartSeries {
                name: "매출액".into(),
                values: vec![num(184.0), num(210.0), num(175.0), num(243.0)],
            },
            ChartSeries {
                name: "영업이익".into(),
                values: vec![num(21.0), num(33.0), num(18.0), num(41.0)],
            },
        ],
    }
}

#[test]
fn bar_and_column_differ_in_bar_dir() {
    let mut spec = sample();
    spec.chart_type = OoxmlChartType::Bar;
    let xml = String::from_utf8(build_chart_xml(&spec)).unwrap();
    assert!(xml.contains(r#"<c:barDir val="bar"/>"#));

    spec.chart_type = OoxmlChartType::Column;
    let xml = String::from_utf8(build_chart_xml(&spec)).unwrap();
    assert!(xml.contains(r#"<c:barDir val="col"/>"#));
}

#[test]
fn pie_omits_axes() {
    let mut spec = sample();
    spec.chart_type = OoxmlChartType::Pie;
    let xml = String::from_utf8(build_chart_xml(&spec)).unwrap();
    assert!(xml.contains("<c:pieChart>"));
    assert!(!xml.contains("<c:catAx>"), "a pie chart has no axes");
}

#[test]
fn escapes_xml_metacharacters() {
    let spec = ChartSpec {
        chart_type: OoxmlChartType::Column,
        title: Some("A & B <test>".to_string()),
        categories: vec!["<1분기>".into()],
        series: vec![ChartSeries { name: "R&D".into(), values: vec![num(1.0)] }],
    };
    let xml = String::from_utf8(build_chart_xml(&spec)).unwrap();
    assert!(xml.contains("A &amp; B &lt;test&gt;"));
    assert!(xml.contains("R&amp;D"));
    assert!(!xml.contains("<test>"), "an unescaped metacharacter would break the XML");
}

#[test]
fn column_letters_go_past_z() {
    assert_eq!(col_letter(0), "A");
    assert_eq!(col_letter(25), "Z");
    assert_eq!(col_letter(26), "AA");
}

#[test]
fn column_letters_read_back() {
    for (i, name) in [(1usize, "B"), (27, "AB"), (51, "AZ"), (52, "BA"), (701, "ZZ"), (702, "AAA")] {
        assert_eq!(col_letter(i), name);
    }
}

#[test]
fn series_references_follow_the_sheet_layout() {
    let xml = String::from_utf8(build_chart_xml(&sample())).unwrap();
    assert!(xml.contains("<c:f>Sheet1!$B$1</c:f>"));
    assert!(xml.contains("<c:f>Sheet1!$C$1</c:f>"));
    assert!(xml.contains("<c:f>Sheet1!$A$2:$A$5</c:f>"));
    assert!(xml.contains("<c:f>Sheet1!$B$2:$B$5</c:f>"));
    assert!(xml.contains("<c:ptCount val=\"4\"/><c:pt idx=\"0\"><c:v>184</c:v></c:pt>"));
    assert!(xml.contains("<c:ser><c:idx val=\"1\"/><c:order val=\"1\"/>"));
}

#[test]
fn title_absent_gives_automatic_title() {
    let mut spec = sample();
    spec.title = None;
    let xml = String::from_utf8(build_chart_xml(&spec)).unwrap();
    assert!(xml.contains("<c:title><c:layout/><c:overlay val=\"0\"/></c:title>"));
}

#[test]
fn line_chart_has_axes_but_no_bar_settings() {
    let mut spec = sample();
    spec.chart_type = OoxmlChartType::Line;
    let xml = String::from_utf8(build_chart_xml(&spec)).unwrap();
    assert!(xml.contains("<c:lineChart><c:varyColors val=\"0\"/>"));
    assert!(!xml.contains("barDir"));
    assert!(!xml.contains("invertIfNegative"));
    assert!(xml.contains("</c:lineChart><c:catAx>"));
}

#[test]
fn pie_plot_is_followed_by_the_legend() {
    let mut spec = sample();
    spec.chart_type = OoxmlChartType::Pie;
    let xml = String::from_utf8(build_chart_xml(&spec)).unwrap();
    assert!(xml.ends_with("</c:pieChart></c:plotArea><c:legend><c:legendPos val=\"r\"/><c:overlay val=\"0\"/></c:legend><c:plotVisOnly val=\"1\"/></c:chart></c:chartSpace>"));
}

#[test]
fn document_starts_with_the_declaration() {
    let xml = String::from_utf8(build_chart_xml(&sample())).unwrap();
    assert!(xml.starts_with("<?xml version=\"1.0\" encoding=\"UTF-8\" standalone=\"yes\" ?><c:chartSpace"));
    assert!(xml.contains("<c:barChart><c:barDir val=\"col\"/><c:grouping val=\"clustered\"/><c:varyColors val=\"0\"/>"));
}

#[test]
fn number_cache_escapes_its_values() {
    let plain = num_cache("Sheet1!$B$2:$B$3", &[num(184.0), num(-2.5)]);
    assert!(plain.contains("<c:v>184</c:v>"), "{}", plain);
    assert!(plain.contains("<c:v>-2.5</c:v>"), "{}", plain);
    let odd = num_cache("Sheet1!$B$2:$B$2", &["1<2&3".to_string()]);
    assert!(odd.contains("<c:v>1&lt;2&amp;3</c:v>"), "{}", odd);
}
