//! Chart data to the `OOXMLChartContents` stream: a DrawingML `c:chartSpace`
//! document in UTF-8, with the elements in the order Hancom writes them.

use vstd::prelude::*;
use vstd::string::*;
use crate::ooxml_chart::OoxmlChartType;
use crate::text::{
    contains_text, decimal, esc_spec, lemma_contains_concat, lemma_contains_self,
    lemma_contains_trans, push_decimal,
    push_escaped, string_push,
};

verus! {

/// One data series of a chart.
#[derive(Debug, Clone)]
pub struct ChartSeries {
    /// The series name, shown in the legend.
    pub name: String,
    /// The values, one per category, each as the decimal text that is
    /// written into the number cache.
    pub values: Vec<String>,
}

/// What a chart is made from.
#[derive(Debug, Clone)]
pub struct ChartSpec {
    pub chart_type: OoxmlChartType,
    /// The title. With `None` an empty `c:title` is written, and Hancom shows
    /// its automatic title.
    pub title: Option<String>,
    pub categories: Vec<String>,
    pub series: Vec<ChartSeries>,
}

/// The texts of a list of strings.
pub open spec fn texts(v: Seq<String>) -> Seq<Seq<char>> {
    v.map_values(|s: String| s@)
}

/// XML text escaping: `&`, `<`, `>`, `"` and `'` become entities. Hancom's
/// XML uses no single-quoted attributes, so the first three would do; the
/// quotes are escaped too, to be safe.
pub fn esc(s: &str) -> (r: String)
    ensures
        r@ == esc_spec(s@),
{
    let mut out = String::new();
    push_escaped(&mut out, s);
    assert(out@ =~= esc_spec(s@));
    out
}

/// The letter for `k` (0 = `A`, ..., 25 = `Z`).
pub open spec fn letter(k: int) -> char {
    (65 + k) as char
}

/// The spreadsheet column name of index `i`: `A` .. `Z`, then `AA`, `AB`, ...
pub open spec fn col_letter_spec(i: nat) -> Seq<char>
    decreases i,
{
    if i < 26 {
        seq![letter(i as int)]
    } else {
        col_letter_spec((i / 26 - 1) as nat).push(letter((i % 26) as int))
    }
}

fn push_col_letter(out: &mut String, i: usize)
    ensures
        final(out)@ == old(out)@ + col_letter_spec(i as nat),
    decreases i,
{
    if i >= 26 {
        push_col_letter(out, i / 26 - 1);
    }
    let k: u8 = (i % 26) as u8;
    string_push(out, (65u8 + k) as char);
    proof {
        if i < 26 {
            assert(old(out)@ + col_letter_spec(i as nat) =~= old(out)@.push(letter(k as int)));
        } else {
            assert(old(out)@ + col_letter_spec(i as nat) =~= (old(out)@ + col_letter_spec(
                (i / 26 - 1) as nat,
            )).push(letter(k as int)));
        }
    }
}

/// The spreadsheet column name of index `i` (0 = `A`); past `Z` it goes on
/// with `AA`, `AB`, ...
pub fn col_letter(i: usize) -> (s: String)
    ensures
        s@ == col_letter_spec(i as nat),
{
    let mut s = String::new();
    push_col_letter(&mut s, i);
    assert(s@ =~= col_letter_spec(i as nat));
    s
}

/// The plot element a chart kind is drawn with. Scatter and unknown kinds
/// have another schema and are written as a clustered column chart.
pub open spec fn plot_name(t: OoxmlChartType) -> Seq<char> {
    match t {
        OoxmlChartType::Line => "lineChart"@,
        OoxmlChartType::Pie => "pieChart"@,
        _ => "barChart"@,
    }
}

/// The `c:barDir` value, for the kinds that have one.
pub open spec fn bar_dir(t: OoxmlChartType) -> Option<Seq<char>> {
    match t {
        OoxmlChartType::Bar => Some("bar"@),
        OoxmlChartType::Line => None,
        OoxmlChartType::Pie => None,
        _ => Some("col"@),
    }
}

/// Column and bar charts, which carry grouping, `invertIfNegative`, gap
/// width and axis ids.
pub open spec fn is_bar_kind(t: OoxmlChartType) -> bool {
    t == OoxmlChartType::Column || t == OoxmlChartType::Bar
}

/// The plot element and bar direction of a chart kind.
pub fn plot_element(t: OoxmlChartType) -> (r: (&'static str, Option<&'static str>))
    ensures
        r.0@ == plot_name(t),
        match bar_dir(t) {
            Some(d) => r.1 is Some && r.1->0@ == d,
            None => r.1 is None,
        },
{
    match t {
        OoxmlChartType::Column => ("barChart", Some("col")),
        OoxmlChartType::Bar => ("barChart", Some("bar")),
        OoxmlChartType::Line => ("lineChart", None),
        OoxmlChartType::Pie => ("pieChart", None),
        _ => ("barChart", Some("col")),
    }
}

/// The points of a string cache, for the first `n` values.
pub open spec fn str_points(values: Seq<Seq<char>>, n: nat) -> Seq<char>
    decreases n,
{
    if n == 0 {
        Seq::empty()
    } else {
        str_points(values, (n - 1) as nat) + "<c:pt idx=\""@ + decimal((n - 1) as nat)
            + "\"><c:v>"@ + esc_spec(values[n - 1]) + "</c:v></c:pt>"@
    }
}

/// A string cache (`c:strRef`): the escaped reference, the point count,
/// then one point per value, escaped.
pub open spec fn str_cache_spec(f_ref: Seq<char>, values: Seq<Seq<char>>) -> Seq<char> {
    "<c:strRef><c:f>"@ + esc_spec(f_ref) + "</c:f><c:strCache><c:ptCount val=\""@ + decimal(
        values.len(),
    ) + "\"/>"@ + str_points(values, values.len()) + "</c:strCache></c:strRef>"@
}

/// The points of a number cache, for the first `n` values.
pub open spec fn num_points(values: Seq<Seq<char>>, n: nat) -> Seq<char>
    decreases n,
{
    if n == 0 {
        Seq::empty()
    } else {
        num_points(values, (n - 1) as nat) + "<c:pt idx=\""@ + decimal((n - 1) as nat)
            + "\"><c:v>"@ + esc_spec(values[n - 1]) + "</c:v></c:pt>"@
    }
}

/// A number cache (`c:numRef`): the escaped reference, the General format,
/// the point count, then one point per value, escaped like all text (a
/// numeral holds no metacharacter and is written as it is).
pub open spec fn num_cache_spec(f_ref: Seq<char>, values: Seq<Seq<char>>) -> Seq<char> {
    "<c:numRef><c:f>"@ + esc_spec(f_ref)
        + "</c:f><c:numCache><c:formatCode>General</c:formatCode><c:ptCount val=\""@ + decimal(
        values.len(),
    ) + "\"/>"@ + num_points(values, values.len()) + "</c:numCache></c:numRef>"@
}

/// A string cache for `values`.
pub fn str_cache(f_ref: &str, values: &[String]) -> (s: String)
    requires
        values@.len() < usize::MAX,
    ensures
        s@ == str_cache_spec(f_ref@, texts(values@)),
{
    let ghost vs = texts(values@);
    let mut s = String::new();
    s.append("<c:strRef><c:f>");
    assert(s@ =~= "<c:strRef><c:f>"@);
    push_escaped(&mut s, f_ref);
    s.append("</c:f><c:strCache><c:ptCount val=\"");
    push_decimal(&mut s, values.len());
    s.append("\"/>");
    let ghost head = s@;
    let mut i: usize = 0;
    while i < values.len()
        invariant
            i <= values@.len(),
            vs == texts(values@),
            s@ == head + str_points(vs, i as nat),
        decreases values@.len() - i,
    {
        s.append("<c:pt idx=\"");
        push_decimal(&mut s, i);
        s.append("\"><c:v>");
        push_escaped(&mut s, values[i].as_str());
        s.append("</c:v></c:pt>");
        i = i + 1;
        proof {
            assert(s@ =~= head + str_points(vs, i as nat));
        }
    }
    s.append("</c:strCache></c:strRef>");
    assert(s@ =~= str_cache_spec(f_ref@, vs));
    s
}

/// A number cache for `values`.
pub fn num_cache(f_ref: &str, values: &[String]) -> (s: String)
    requires
        values@.len() < usize::MAX,
    ensures
        s@ == num_cache_spec(f_ref@, texts(values@)),
{
    let ghost vs = texts(values@);
    let mut s = String::new();
    s.append("<c:numRef><c:f>");
    assert(s@ =~= "<c:numRef><c:f>"@);
    push_escaped(&mut s, f_ref);
    s.append("</c:f><c:numCache><c:formatCode>General</c:formatCode><c:ptCount val=\"");
    push_decimal(&mut s, values.len());
    s.append("\"/>");
    let ghost head = s@;
    let mut i: usize = 0;
    while i < values.len()
        invariant
            i <= values@.len(),
            vs == texts(values@),
            s@ == head + num_points(vs, i as nat),
        decreases values@.len() - i,
    {
        s.append("<c:pt idx=\"");
        push_decimal(&mut s, i);
        s.append("\"><c:v>");
        push_escaped(&mut s, values[i].as_str());
        s.append("</c:v></c:pt>");
        i = i + 1;
        proof {
            assert(s@ =~= head + num_points(vs, i as nat));
        }
    }
    s.append("</c:numCache></c:numRef>");
    assert(s@ =~= num_cache_spec(f_ref@, vs));
    s
}

/// The reference of a series name: row 1 of the series' column.
pub open spec fn name_ref(col: Seq<char>) -> Seq<char> {
    "Sheet1!$"@ + col + "$1"@
}

/// The reference of the categories: column A, rows 2 to `n + 1`.
pub open spec fn cat_ref(n: nat) -> Seq<char> {
    "Sheet1!$A$2:$A$"@ + decimal(n + 1)
}

/// The reference of a series' values: its column, rows 2 to `n + 1`.
pub open spec fn val_ref(col: Seq<char>, n: nat) -> Seq<char> {
    "Sheet1!$"@ + col + "$2:$"@ + col + "$"@ + decimal(n + 1)
}

/// `invertIfNegative`, written for column and bar charts only.
pub open spec fn invert_xml(t: OoxmlChartType) -> Seq<char> {
    if is_bar_kind(t) {
        "<c:invertIfNegative val=\"0\"/>"@
    } else {
        Seq::empty()
    }
}

/// The `c:ser` element of series `i`. Series `i` sits in spreadsheet column
/// `i + 1` (`B`, `C`, ...), the categories in column `A`.
pub open spec fn series_xml(spec: ChartSpec, i: nat) -> Seq<char> {
    let ser = spec.series@[i as int];
    let col = col_letter_spec(i + 1);
    let n = spec.categories@.len();
    "<c:ser><c:idx val=\""@ + decimal(i) + "\"/><c:order val=\""@ + decimal(i) + "\"/>"@
        + "<c:tx>"@ + str_cache_spec(name_ref(col), seq![ser.name@]) + "</c:tx>"@ + invert_xml(
        spec.chart_type,
    ) + "<c:cat>"@ + str_cache_spec(cat_ref(n), texts(spec.categories@)) + "</c:cat>"@
        + "<c:val>"@ + num_cache_spec(val_ref(col, n), texts(ser.values@)) + "</c:val>"@
        + "</c:ser>"@
}

/// The series elements of the first `n` series.
pub open spec fn series_list_xml(spec: ChartSpec, n: nat) -> Seq<char>
    decreases n,
{
    if n == 0 {
        Seq::empty()
    } else {
        series_list_xml(spec, (n - 1) as nat) + series_xml(spec, (n - 1) as nat)
    }
}

/// The title: the escaped text in a rich text body, or, without a title, an
/// empty `c:title` (Hancom's automatic title).
pub open spec fn title_xml(title: Option<String>) -> Seq<char> {
    match title {
        Some(t) => "<c:title><c:tx><c:rich><a:bodyPr/><a:p><a:r><a:t>"@ + esc_spec(t@)
            + "</a:t></a:r></a:p></c:rich></c:tx><c:overlay val=\"0\"/></c:title>"@,
        None => "<c:title><c:layout/><c:overlay val=\"0\"/></c:title>"@,
    }
}

/// `c:barDir`, for the kinds that have a bar direction.
pub open spec fn bar_dir_xml(t: OoxmlChartType) -> Seq<char> {
    match bar_dir(t) {
        Some(d) => "<c:barDir val=\""@ + d + "\"/>"@,
        None => Seq::empty(),
    }
}

/// The clustered grouping of column and bar charts.
pub open spec fn grouping_xml(t: OoxmlChartType) -> Seq<char> {
    if is_bar_kind(t) {
        "<c:grouping val=\"clustered\"/>"@
    } else {
        Seq::empty()
    }
}

/// The opening of the plot element: its name, the bar direction, the
/// grouping, and `varyColors`.
pub open spec fn plot_open_xml(t: OoxmlChartType) -> Seq<char> {
    "<c:"@ + plot_name(t) + ">"@ + bar_dir_xml(t) + grouping_xml(t) + "<c:varyColors val=\"0\"/>"@
}

/// The gap width and axis ids of column and bar charts.
pub open spec fn gap_xml(t: OoxmlChartType) -> Seq<char> {
    if is_bar_kind(t) {
        "<c:gapWidth val=\"150\"/><c:axId val=\"1\"/><c:axId val=\"2\"/>"@
    } else {
        Seq::empty()
    }
}

/// The close of the plot element.
pub open spec fn plot_close_xml(t: OoxmlChartType) -> Seq<char> {
    gap_xml(t) + "</c:"@ + plot_name(t) + ">"@
}

/// The category and value axes; a pie chart has none.
pub open spec fn axes_xml(t: OoxmlChartType) -> Seq<char> {
    if t == OoxmlChartType::Pie {
        Seq::empty()
    } else {
        CAT_AX@ + VAL_AX@
    }
}

pub const XML_DECL: &'static str = "<?xml version=\"1.0\" encoding=\"UTF-8\" standalone=\"yes\" ?>";

pub const CHART_SPACE_OPEN: &'static str = "<c:chartSpace xmlns:r=\"http://schemas.openxmlformats.org/officeDocument/2006/relationships\" xmlns:a=\"http://schemas.openxmlformats.org/drawingml/2006/main\" xmlns:c=\"http://schemas.openxmlformats.org/drawingml/2006/chart\">";

pub const CHART_OPEN: &'static str = "<c:date1904 val=\"0\"/><c:roundedCorners val=\"0\"/><c:chart>";

pub const PLOT_AREA_OPEN: &'static str = "<c:autoTitleDeleted val=\"0\"/><c:plotArea><c:layout/>";

pub const CAT_AX: &'static str = "<c:catAx><c:axId val=\"1\"/><c:scaling><c:orientation val=\"minMax\"/></c:scaling><c:delete val=\"0\"/><c:axPos val=\"b\"/><c:crossAx val=\"2\"/></c:catAx>";

pub const VAL_AX: &'static str = "<c:valAx><c:axId val=\"2\"/><c:scaling><c:orientation val=\"minMax\"/></c:scaling><c:delete val=\"0\"/><c:axPos val=\"l\"/><c:crossAx val=\"1\"/></c:valAx>";

pub const PLOT_AREA_CLOSE: &'static str = "</c:plotArea><c:legend><c:legendPos val=\"r\"/><c:overlay val=\"0\"/></c:legend>";

pub const CHART_CLOSE: &'static str = "<c:plotVisOnly val=\"1\"/></c:chart></c:chartSpace>";

/// The whole chart document, as characters.
pub open spec fn chart_xml_chars(spec: ChartSpec) -> Seq<char> {
    XML_DECL@ + CHART_SPACE_OPEN@ + CHART_OPEN@ + title_xml(spec.title) + PLOT_AREA_OPEN@
        + plot_open_xml(spec.chart_type) + series_list_xml(spec, spec.series@.len())
        + plot_close_xml(spec.chart_type) + axes_xml(spec.chart_type) + PLOT_AREA_CLOSE@
        + CHART_CLOSE@
}

/// The sizes for which the spreadsheet row and column numbers stay within
/// `usize`.
pub open spec fn spec_fits(spec: ChartSpec) -> bool {
    &&& spec.categories@.len() + 1 < usize::MAX
    &&& spec.series@.len() + 1 < usize::MAX
    &&& forall|i: int|
        0 <= i < spec.series@.len() ==> #[trigger] spec.series@[i].values@.len() < usize::MAX
}

/// A string made of one piece.
fn string_of(piece: &str) -> (s: String)
    ensures
        s@ == piece@,
{
    let mut s = String::new();
    s.append(piece);
    assert(s@ =~= piece@);
    s
}

fn invert_text(t: OoxmlChartType) -> (r: &'static str)
    ensures
        r@ == invert_xml(t),
{
    proof {
        reveal_strlit("");
    }
    match t {
        OoxmlChartType::Column | OoxmlChartType::Bar => "<c:invertIfNegative val=\"0\"/>",
        _ => "",
    }
}

fn grouping_text(t: OoxmlChartType) -> (r: &'static str)
    ensures
        r@ == grouping_xml(t),
{
    proof {
        reveal_strlit("");
    }
    match t {
        OoxmlChartType::Column | OoxmlChartType::Bar => "<c:grouping val=\"clustered\"/>",
        _ => "",
    }
}

fn gap_text(t: OoxmlChartType) -> (r: &'static str)
    ensures
        r@ == gap_xml(t),
{
    proof {
        reveal_strlit("");
    }
    match t {
        OoxmlChartType::Column | OoxmlChartType::Bar => "<c:gapWidth val=\"150\"/><c:axId val=\"1\"/><c:axId val=\"2\"/>",
        _ => "",
    }
}

fn axes_text(t: OoxmlChartType) -> (s: String)
    ensures
        s@ == axes_xml(t),
{
    match t {
        OoxmlChartType::Pie => String::new(),
        _ => {
            let mut s = string_of(CAT_AX);
            s.append(VAL_AX);
            s
        },
    }
}

fn title_text(title: &Option<String>) -> (s: String)
    ensures
        s@ == title_xml(*title),
{
    match title {
        Some(t) => {
            let mut s = string_of("<c:title><c:tx><c:rich><a:bodyPr/><a:p><a:r><a:t>");
            s.append(esc(t.as_str()).as_str());
            s.append("</a:t></a:r></a:p></c:rich></c:tx><c:overlay val=\"0\"/></c:title>");
            s
        },
        None => string_of("<c:title><c:layout/><c:overlay val=\"0\"/></c:title>"),
    }
}

fn plot_open_text(t: OoxmlChartType) -> (s: String)
    ensures
        s@ == plot_open_xml(t),
{
    let (plot, dir) = plot_element(t);
    let mut bar_dir_part = String::new();
    if let Some(d) = dir {
        bar_dir_part.append("<c:barDir val=\"");
        assert(bar_dir_part@ =~= "<c:barDir val=\""@);
        bar_dir_part.append(d);
        bar_dir_part.append("\"/>");
    }
    let mut s = string_of("<c:");
    s.append(plot);
    s.append(">");
    s.append(bar_dir_part.as_str());
    s.append(grouping_text(t));
    s.append("<c:varyColors val=\"0\"/>");
    s
}

fn plot_close_text(t: OoxmlChartType) -> (s: String)
    ensures
        s@ == plot_close_xml(t),
{
    let (plot, _) = plot_element(t);
    let mut s = string_of(gap_text(t));
    s.append("</c:");
    s.append(plot);
    s.append(">");
    s
}

/// The `c:ser` element of series `i`.
fn series_text(spec: &ChartSpec, i: usize) -> (s: String)
    requires
        spec_fits(*spec),
        i < spec.series@.len(),
    ensures
        s@ == series_xml(*spec, i as nat),
{
    let ser = &spec.series[i];
    let n_cat = spec.categories.len();
    let col = col_letter(i + 1);

    let mut nref = string_of("Sheet1!$");
    nref.append(col.as_str());
    nref.append("$1");
    let names: Vec<String> = vec![ser.name.clone()];
    assert(texts(names@) =~= seq![ser.name@]);
    let name_cache = str_cache(nref.as_str(), names.as_slice());

    let mut cref = string_of("Sheet1!$A$2:$A$");
    push_decimal(&mut cref, n_cat + 1);
    let cat_cache = str_cache(cref.as_str(), spec.categories.as_slice());

    let mut vref = string_of("Sheet1!$");
    vref.append(col.as_str());
    vref.append("$2:$");
    vref.append(col.as_str());
    vref.append("$");
    push_decimal(&mut vref, n_cat + 1);
    let val_cache = num_cache(vref.as_str(), ser.values.as_slice());

    let mut s = string_of("<c:ser><c:idx val=\"");
    push_decimal(&mut s, i);
    s.append("\"/><c:order val=\"");
    push_decimal(&mut s, i);
    s.append("\"/>");
    s.append("<c:tx>");
    s.append(name_cache.as_str());
    s.append("</c:tx>");
    s.append(invert_text(spec.chart_type));
    s.append("<c:cat>");
    s.append(cat_cache.as_str());
    s.append("</c:cat>");
    s.append("<c:val>");
    s.append(val_cache.as_str());
    s.append("</c:val>");
    s.append("</c:ser>");
    s
}

/// The chart document as characters.
pub fn build_chart_xml_text(spec: &ChartSpec) -> (s: String)
    requires
        spec_fits(*spec),
    ensures
        s@ == chart_xml_chars(*spec),
{
    let mut list = String::new();
    let mut i: usize = 0;
    while i < spec.series.len()
        invariant
            spec_fits(*spec),
            i <= spec.series@.len(),
            list@ == series_list_xml(*spec, i as nat),
        decreases spec.series@.len() - i,
    {
        let one = series_text(spec, i);
        list.append(one.as_str());
        i = i + 1;
    }
    let mut s = string_of(XML_DECL);
    s.append(CHART_SPACE_OPEN);
    s.append(CHART_OPEN);
    s.append(title_text(&spec.title).as_str());
    s.append(PLOT_AREA_OPEN);
    s.append(plot_open_text(spec.chart_type).as_str());
    s.append(list.as_str());
    s.append(plot_close_text(spec.chart_type).as_str());
    s.append(axes_text(spec.chart_type).as_str());
    s.append(PLOT_AREA_CLOSE);
    s.append(CHART_CLOSE);
    s
}

/// The chart document: `OOXMLChartContents` bytes, the UTF-8 encoding of
/// the characters.
pub fn build_chart_xml(spec: &ChartSpec) -> (xml: Vec<u8>)
    requires
        spec_fits(*spec),
    ensures
        xml@ == vstd::utf8::encode_utf8(chart_xml_chars(*spec)),
{
    let s = build_chart_xml_text(spec);
    let bytes = s.as_str().as_bytes();
    vstd::slice::slice_to_vec(bytes)
}

} // verus!

verus! {

/// The bijective base-26 value of a column name (`A` = 1, ..., `Z` = 26,
/// `AA` = 27, ...).
pub open spec fn col_value(s: Seq<char>) -> int
    decreases s.len(),
{
    if s.len() == 0 {
        0
    } else {
        col_value(s.drop_last()) * 26 + (s.last() as int - 64)
    }
}

/// Column names are made of the letters `A` to `Z`, and every index has its
/// own name: reading a name back gives the index it was made from.
pub proof fn lemma_col_letter_roundtrip(i: nat)
    ensures
        col_value(col_letter_spec(i)) - 1 == i,
        forall|k: int|
            0 <= k < col_letter_spec(i).len() ==> 'A' <= #[trigger] col_letter_spec(i)[k] <= 'Z',
    decreases i,
{
    let k = (i % 26) as int;
    assert(letter(k) as int == 65 + k);
    if i >= 26 {
        let j = (i / 26 - 1) as nat;
        lemma_col_letter_roundtrip(j);
        let s = col_letter_spec(i);
        assert(s.drop_last() =~= col_letter_spec(j));
        assert(s.last() == letter(k));
        assert(s.len() > 0);
        assert(col_value(s) == col_value(s.drop_last()) * 26 + (s.last() as int - 64));
        assert(col_value(s.drop_last()) == j + 1);
        assert((i / 26) * 26 + i % 26 == i);
    } else {
        let s = col_letter_spec(i);
        assert(s.drop_last() =~= Seq::<char>::empty());
        assert(s.len() == 1);
        assert(col_value(s) == col_value(s.drop_last()) * 26 + (s.last() as int - 64));
        assert(col_value(Seq::<char>::empty()) == 0);
    }
}

/// A pie chart has no axes: its plot element is followed directly by the
/// end of the plot area, the legend and the end of the chart.
pub proof fn lemma_pie_has_no_axes(spec: ChartSpec)
    requires
        spec.chart_type == OoxmlChartType::Pie,
    ensures
        crate::text::ends_with(
            chart_xml_chars(spec),
            "</c:pieChart>"@ + PLOT_AREA_CLOSE@ + CHART_CLOSE@,
        ),
{
    reveal_strlit("</c:pieChart>");
    reveal_strlit("</c:");
    reveal_strlit("pieChart");
    reveal_strlit(">");
    let tail = "</c:pieChart>"@ + PLOT_AREA_CLOSE@ + CHART_CLOSE@;
    let head = XML_DECL@ + CHART_SPACE_OPEN@ + CHART_OPEN@ + title_xml(spec.title) + PLOT_AREA_OPEN@
        + plot_open_xml(spec.chart_type) + series_list_xml(spec, spec.series@.len());
    assert(gap_xml(spec.chart_type) =~= Seq::<char>::empty());
    assert(plot_close_xml(spec.chart_type) =~= "</c:pieChart>"@);
    let xml = chart_xml_chars(spec);
    assert(xml =~= head + tail);
    assert(xml.subrange(xml.len() - tail.len(), xml.len() as int) =~= tail);
}

} // verus!

verus! {

/// The point of a cache at index `k` holding the text `v`.
pub open spec fn point_xml(k: nat, v: Seq<char>) -> Seq<char> {
    "<c:pt idx=\""@ + decimal(k) + "\"><c:v>"@ + v + "</c:v></c:pt>"@
}

proof fn lemma_str_points_has(values: Seq<Seq<char>>, n: nat, k: nat)
    requires
        k < n <= values.len(),
    ensures
        contains_text(str_points(values, n), point_xml(k, esc_spec(values[k as int]))),
    decreases n,
{
    let last = point_xml((n - 1) as nat, esc_spec(values[n - 1]));
    assert(str_points(values, n) =~= str_points(values, (n - 1) as nat) + last);
    if k == n - 1 {
        lemma_contains_self(last);
    } else {
        lemma_str_points_has(values, (n - 1) as nat, k);
    }
    lemma_contains_concat(str_points(values, (n - 1) as nat), last, point_xml(k, esc_spec(values[k as int])));
}

proof fn lemma_num_points_has(values: Seq<Seq<char>>, n: nat, k: nat)
    requires
        k < n <= values.len(),
    ensures
        contains_text(num_points(values, n), point_xml(k, esc_spec(values[k as int]))),
    decreases n,
{
    let last = point_xml((n - 1) as nat, esc_spec(values[n - 1]));
    assert(num_points(values, n) =~= num_points(values, (n - 1) as nat) + last);
    if k == n - 1 {
        lemma_contains_self(last);
    } else {
        lemma_num_points_has(values, (n - 1) as nat, k);
    }
    lemma_contains_concat(num_points(values, (n - 1) as nat), last, point_xml(k, esc_spec(values[k as int])));
}

/// Every value of a string cache stands at its own index: for each `k`, the
/// cache holds `<c:pt idx="k"><c:v>` with the `k`-th value, escaped, then
/// `</c:v></c:pt>`.
pub proof fn lemma_str_cache_points(f_ref: Seq<char>, values: Seq<Seq<char>>, k: nat)
    requires
        k < values.len(),
    ensures
        contains_text(
            str_cache_spec(f_ref, values),
            "<c:pt idx=\""@ + decimal(k) + "\"><c:v>"@ + esc_spec(values[k as int])
                + "</c:v></c:pt>"@,
        ),
{
    let head = "<c:strRef><c:f>"@ + esc_spec(f_ref) + "</c:f><c:strCache><c:ptCount val=\""@
        + decimal(values.len()) + "\"/>"@;
    let pts = str_points(values, values.len());
    let tail = "</c:strCache></c:strRef>"@;
    let pt = point_xml(k, esc_spec(values[k as int]));
    lemma_str_points_has(values, values.len(), k);
    lemma_contains_concat(head, pts, pt);
    lemma_contains_concat(head + pts, tail, pt);
}

/// Every value of a number cache stands at its own index: for each `k`, the
/// cache holds `<c:pt idx="k"><c:v>` with the `k`-th value (escaped, which
/// leaves a numeral as it is), then `</c:v></c:pt>`.
pub proof fn lemma_num_cache_points(f_ref: Seq<char>, values: Seq<Seq<char>>, k: nat)
    requires
        k < values.len(),
    ensures
        contains_text(
            num_cache_spec(f_ref, values),
            "<c:pt idx=\""@ + decimal(k) + "\"><c:v>"@ + esc_spec(values[k as int])
                + "</c:v></c:pt>"@,
        ),
{
    let head = "<c:numRef><c:f>"@ + esc_spec(f_ref)
        + "</c:f><c:numCache><c:formatCode>General</c:formatCode><c:ptCount val=\""@ + decimal(
        values.len(),
    ) + "\"/>"@;
    let pts = num_points(values, values.len());
    let tail = "</c:numCache></c:numRef>"@;
    let pt = point_xml(k, esc_spec(values[k as int]));
    lemma_num_points_has(values, values.len(), k);
    lemma_contains_concat(head, pts, pt);
    lemma_contains_concat(head + pts, tail, pt);
}

proof fn lemma_series_list_has(spec: ChartSpec, n: nat, i: nat)
    requires
        i < n,
    ensures
        contains_text(series_list_xml(spec, n), series_xml(spec, i)),
    decreases n,
{
    let prev = series_list_xml(spec, (n - 1) as nat);
    let last = series_xml(spec, (n - 1) as nat);
    if i == n - 1 {
        lemma_contains_self(last);
    } else {
        lemma_series_list_has(spec, (n - 1) as nat, i);
    }
    lemma_contains_concat(prev, last, series_xml(spec, i));
}

/// Each series carries its own data: for every series `i`, the chart
/// document holds `<c:val>`, then the number cache over series `i`'s
/// column (`B` for the first series, `C` for the next, ...) and the
/// categories' rows, with exactly that series' values in order, then
/// `</c:val>`; and it holds the category cache over column `A` with the
/// categories in order.
pub proof fn lemma_chart_series_data(spec: ChartSpec, i: nat)
    requires
        i < spec.series@.len(),
    ensures
        contains_text(
            chart_xml_chars(spec),
            "<c:val>"@ + num_cache_spec(
                val_ref(col_letter_spec(i + 1), spec.categories@.len()),
                texts(spec.series@[i as int].values@),
            ) + "</c:val>"@,
        ),
        contains_text(
            chart_xml_chars(spec),
            "<c:cat>"@ + str_cache_spec(cat_ref(spec.categories@.len()), texts(spec.categories@))
                + "</c:cat>"@,
        ),
{
    let ser = spec.series@[i as int];
    let col = col_letter_spec(i + 1);
    let n = spec.categories@.len();
    let vb = "<c:val>"@ + num_cache_spec(val_ref(col, n), texts(ser.values@)) + "</c:val>"@;
    let cb = "<c:cat>"@ + str_cache_spec(cat_ref(n), texts(spec.categories@)) + "</c:cat>"@;
    let p1 = "<c:ser><c:idx val=\""@ + decimal(i) + "\"/><c:order val=\""@ + decimal(i) + "\"/>"@
        + "<c:tx>"@ + str_cache_spec(name_ref(col), seq![ser.name@]) + "</c:tx>"@ + invert_xml(
        spec.chart_type,
    );
    let sx = series_xml(spec, i);
    assert(sx =~= p1 + cb + vb + "</c:ser>"@);
    lemma_contains_self(vb);
    lemma_contains_self(cb);
    lemma_contains_concat(p1 + cb, vb, vb);
    lemma_contains_concat(p1 + cb + vb, "</c:ser>"@, vb);
    lemma_contains_concat(p1, cb, cb);
    lemma_contains_concat(p1 + cb, vb, cb);
    lemma_contains_concat(p1 + cb + vb, "</c:ser>"@, cb);
    lemma_series_list_has(spec, spec.series@.len(), i);
    let sl = series_list_xml(spec, spec.series@.len());
    lemma_contains_trans(sl, sx, vb);
    lemma_contains_trans(sl, sx, cb);
    let a = XML_DECL@ + CHART_SPACE_OPEN@ + CHART_OPEN@ + title_xml(spec.title) + PLOT_AREA_OPEN@
        + plot_open_xml(spec.chart_type);
    let b1 = plot_close_xml(spec.chart_type);
    let b2 = axes_xml(spec.chart_type);
    let b3 = PLOT_AREA_CLOSE@;
    let b4 = CHART_CLOSE@;
    lemma_contains_concat(a, sl, vb);
    lemma_contains_concat(a + sl, b1, vb);
    lemma_contains_concat(a + sl + b1, b2, vb);
    lemma_contains_concat(a + sl + b1 + b2, b3, vb);
    lemma_contains_concat(a + sl + b1 + b2 + b3, b4, vb);
    lemma_contains_concat(a, sl, cb);
    lemma_contains_concat(a + sl, b1, cb);
    lemma_contains_concat(a + sl + b1, b2, cb);
    lemma_contains_concat(a + sl + b1 + b2, b3, cb);
    lemma_contains_concat(a + sl + b1 + b2 + b3, b4, cb);
}

} // verus!
