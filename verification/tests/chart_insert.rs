use rhwp::document_core::commands::object_ops::chart::{
    check_chart_insert, insert_result, paper_offset, CHART_BIN_DATA_ATTR, CHART_COMMON_ATTR,
};
use rhwp::ooxml_chart::OoxmlChartType;
use rhwp::serializer::chart_xml::{ChartSeries, ChartSpec};

fn spec() -> ChartSpec {
    ChartSpec {
        chart_type: OoxmlChartType::Column,
        title: Some("분기 실적".into()),
        categories: vec!["1분기".into(), "2분기".into()],
        series: vec![ChartSeries { name: "매출액".into(), values: vec!["184".into(), "210".into()] }],
    }
}

#[test]
fn rejects_mismatched_series_length() {
    let bad = ChartSpec {
        chart_type: OoxmlChartType::Column,
        title: None,
        categories: vec!["A".into(), "B".into()],
        series: vec![ChartSeries { name: "X".into(), values: vec!["1".into()] }],
    };
    let err = check_chart_insert(&[1], 0, 0, &bad).unwrap_err();
    assert!(err.contains("카테고리 수"), "{}", err);
    assert_eq!(err, "계열 'X' 의 값 개수(1)가 카테고리 수(2)와 다르다");
}

#[test]
fn rejects_empty_series() {
    let empty = ChartSpec {
        chart_type: OoxmlChartType::Column,
        title: None,
        categories: vec!["A".into()],
        series: vec![],
    };
    let err = check_chart_insert(&[1], 0, 0, &empty).unwrap_err();
    assert!(err.contains("계열이 비었다"), "{}", err);
}

#[test]
fn rejects_missing_section_and_paragraph() {
    assert_eq!(check_chart_insert(&[3], 1, 0, &spec()).unwrap_err(), "구역 1 범위 초과");
    assert_eq!(check_chart_insert(&[3, 2], 1, 2, &spec()).unwrap_err(), "문단 2 범위 초과");
    assert!(check_chart_insert(&[3, 2], 1, 1, &spec()).is_ok());
}

#[test]
fn first_mismatching_series_is_named() {
    let mut s = spec();
    s.series.push(ChartSeries { name: "둘".into(), values: vec![] });
    s.series.push(ChartSeries { name: "셋".into(), values: vec!["1".into()] });
    assert_eq!(
        check_chart_insert(&[1], 0, 0, &s).unwrap_err(),
        "계열 '둘' 의 값 개수(0)가 카테고리 수(2)와 다르다"
    );
}

#[test]
fn paper_offsets_are_never_negative() {
    assert_eq!(paper_offset(None), 0);
    assert_eq!(paper_offset(Some(-5)), 0);
    assert_eq!(paper_offset(Some(5000)), 5000);
}

#[test]
fn insert_answer_is_json() {
    assert_eq!(
        insert_result(0, 3, 1, 12345),
        "{\"ok\":true,\"paraIdx\":0,\"controlIdx\":3,\"binDataId\":1,\"oleBytes\":12345}"
    );
}

#[test]
fn chart_attributes_match_hancom_charts() {
    assert_eq!(CHART_BIN_DATA_ATTR, 0x0002);
    assert_eq!(CHART_COMMON_ATTR, (4 << 15) | (2 << 18));
}
