//! Inserting a chart: the checks made before a chart goes into a paragraph,
//! and the values the inserted OLE object and its BinData entry are given.
//!
//! A chart is registered like a real Hancom chart: as BinData of type
//! Storage with extension `OLE` (attribute 0x0002), where a picture is an
//! Embedding with `png`.

use vstd::prelude::*;
use vstd::string::*;
use crate::serializer::chart_ole::{build_chart_ole, chart_ole_streams, short_pixels_error, ChartOle};
use crate::serializer::chart_xml::{spec_fits, ChartSpec};
use crate::serializer::mini_cfb::{cfb_error, cfb_image};
use crate::serializer::wmf_writer::image_fits;
use crate::text::{decimal, push_decimal};

verus! {

/// The BinData attribute of a chart: Storage (bits 0-3 = 2), default
/// compression, not yet accessed.
pub const CHART_BIN_DATA_ATTR: u16 = 0x0002;

/// The object attribute of a chart: absolute width (bits 15-17 = 4) and
/// absolute height (bits 18-20 = 2).
pub const CHART_COMMON_ATTR: u32 = (4u32 << 15) | (2u32 << 18);

/// The control id of a drawing object, `"gso "`.
pub const GSO_CTRL_ID: u32 = 0x6773_6F20;

/// The first series whose value count differs from the category count, at
/// or after `from`.
pub open spec fn first_mismatch(spec: ChartSpec, from: int) -> Option<int>
    decreases spec.series@.len() - from,
{
    if from < 0 || from >= spec.series@.len() {
        None
    } else if spec.series@[from].values@.len() != spec.categories@.len() {
        Some(from)
    } else {
        first_mismatch(spec, from + 1)
    }
}

pub open spec fn section_error(section_idx: nat) -> Seq<char> {
    "구역 "@ + decimal(section_idx) + " 범위 초과"@
}

pub open spec fn paragraph_error(para_idx: nat) -> Seq<char> {
    "문단 "@ + decimal(para_idx) + " 범위 초과"@
}

pub const EMPTY_SERIES_ERROR: &'static str = "계열이 비었다";

pub open spec fn mismatch_error(name: Seq<char>, values: nat, categories: nat) -> Seq<char> {
    "계열 '"@ + name + "' 의 값 개수("@ + decimal(values) + ")가 카테고리 수("@ + decimal(
        categories,
    ) + ")와 다르다"@
}

/// Why a chart cannot be inserted at paragraph `para_idx` of section
/// `section_idx` of a document whose sections hold `paragraph_counts`
/// paragraphs: the section or the paragraph does not exist, there is no
/// series, or a series has not one value per category (the first such
/// series is named). `None` when the chart can go in.
pub open spec fn chart_insert_error(
    paragraph_counts: Seq<usize>,
    section_idx: nat,
    para_idx: nat,
    spec: ChartSpec,
) -> Option<Seq<char>> {
    if section_idx >= paragraph_counts.len() {
        Some(section_error(section_idx))
    } else if para_idx >= paragraph_counts[section_idx as int] {
        Some(paragraph_error(para_idx))
    } else if spec.series@.len() == 0 {
        Some(EMPTY_SERIES_ERROR@)
    } else {
        match first_mismatch(spec, 0) {
            Some(i) => Some(
                mismatch_error(
                    spec.series@[i].name@,
                    spec.series@[i].values@.len(),
                    spec.categories@.len(),
                ),
            ),
            None => None,
        }
    }
}

fn text_of(piece: &str) -> (s: String)
    ensures
        s@ == piece@,
{
    let mut s = String::new();
    s.append(piece);
    assert(s@ =~= piece@);
    s
}

/// Checks a chart insertion before anything is changed; the error is the
/// message the insertion fails with.
pub fn check_chart_insert(
    paragraph_counts: &[usize],
    section_idx: usize,
    para_idx: usize,
    spec: &ChartSpec,
) -> (r: Result<(), String>)
    ensures
        match chart_insert_error(paragraph_counts@, section_idx as nat, para_idx as nat, *spec) {
            Some(m) => r matches Err(e) && e@ == m,
            None => r is Ok,
        },
{
    if section_idx >= paragraph_counts.len() {
        let mut m = text_of("구역 ");
        push_decimal(&mut m, section_idx);
        m.append(" 범위 초과");
        return Err(m);
    }
    if para_idx >= paragraph_counts[section_idx] {
        let mut m = text_of("문단 ");
        push_decimal(&mut m, para_idx);
        m.append(" 범위 초과");
        return Err(m);
    }
    if spec.series.len() == 0 {
        return Err(text_of(EMPTY_SERIES_ERROR));
    }
    let n_cat = spec.categories.len();
    let mut i: usize = 0;
    while i < spec.series.len()
        invariant
            i <= spec.series@.len(),
            n_cat == spec.categories@.len(),
            first_mismatch(*spec, 0) == first_mismatch(*spec, i as int),
            section_idx < paragraph_counts@.len(),
            para_idx < paragraph_counts@[section_idx as int],
            spec.series@.len() > 0,
        decreases spec.series@.len() - i,
    {
        let s = &spec.series[i];
        if s.values.len() != n_cat {
            assert(first_mismatch(*spec, i as int) == Some(i as int));
            let mut m = text_of("계열 '");
            m.append(s.name.as_str());
            m.append("' 의 값 개수(");
            push_decimal(&mut m, s.values.len());
            m.append(")가 카테고리 수(");
            push_decimal(&mut m, n_cat);
            m.append(")와 다르다");
            return Err(m);
        }
        i = i + 1;
    }
    Ok(())
}

/// A paper offset as stored: an absent or negative offset becomes 0.
pub open spec fn paper_offset_spec(offset: Option<i32>) -> int {
    match offset {
        Some(v) => if v > 0 {
            v as int
        } else {
            0
        },
        None => 0,
    }
}

/// A paper offset as stored: an absent or negative offset becomes 0.
pub fn paper_offset(offset: Option<i32>) -> (r: u32)
    ensures
        r == paper_offset_spec(offset),
{
    match offset {
        Some(v) => if v > 0 {
            v as u32
        } else {
            0
        },
        None => 0,
    }
}

/// The JSON answer of a successful insertion.
pub open spec fn insert_result_json(
    para_idx: nat,
    control_idx: nat,
    bin_data_id: nat,
    ole_bytes: nat,
) -> Seq<char> {
    "{\"ok\":true,\"paraIdx\":"@ + decimal(para_idx) + ",\"controlIdx\":"@ + decimal(control_idx)
        + ",\"binDataId\":"@ + decimal(bin_data_id) + ",\"oleBytes\":"@ + decimal(ole_bytes)
        + "}"@
}

/// The JSON answer of a successful insertion: the paragraph, the index of
/// the new control in it, the BinData id, and the size of the OLE data.
pub fn insert_result(para_idx: usize, control_idx: usize, bin_data_id: usize, ole_bytes: usize) -> (s:
    String)
    ensures
        s@ == insert_result_json(
            para_idx as nat,
            control_idx as nat,
            bin_data_id as nat,
            ole_bytes as nat,
        ),
{
    let mut s = text_of("{\"ok\":true,\"paraIdx\":");
    push_decimal(&mut s, para_idx);
    s.append(",\"controlIdx\":");
    push_decimal(&mut s, control_idx);
    s.append(",\"binDataId\":");
    push_decimal(&mut s, bin_data_id);
    s.append(",\"oleBytes\":");
    push_decimal(&mut s, ole_bytes);
    s.append("}");
    s
}

/// The OLE object of a chart insertion, made before the document is
/// touched: the insertion's checks first (`chart_insert_error`), then the
/// object from the chart and its preview pixels, with the object's size in
/// HWPUNIT as the preview's extent.
pub fn prepare_chart_insert(
    paragraph_counts: &[usize],
    section_idx: usize,
    para_idx: usize,
    spec: &ChartSpec,
    rgba: &[u8],
    px_width: u32,
    px_height: u32,
    width_hu: u32,
    height_hu: u32,
) -> (r: Result<ChartOle, String>)
    requires
        chart_insert_error(paragraph_counts@, section_idx as nat, para_idx as nat, *spec) is None
            ==> 4 * px_width * px_height <= usize::MAX,
        chart_insert_error(paragraph_counts@, section_idx as nat, para_idx as nat, *spec) is None
            && rgba@.len() >= 4 * px_width * px_height ==> spec_fits(*spec) && image_fits(
            px_width as int,
            px_height as int,
        ),
    ensures
        match chart_insert_error(paragraph_counts@, section_idx as nat, para_idx as nat, *spec) {
            Some(m) => r matches Err(e) && e@ == m,
            None => if rgba@.len() < 4 * px_width * px_height {
                r matches Err(e) && e@ == short_pixels_error(
                    rgba@.len(),
                    px_width as nat,
                    px_height as nat,
                )
            } else {
                match cfb_error(
                    chart_ole_streams(
                        *spec,
                        rgba@,
                        px_width as int,
                        px_height as int,
                        width_hu as int,
                        height_hu as int,
                    ),
                ) {
                    Some(m) => r matches Err(e) && e@ == m,
                    None => r matches Ok(ole) && ole.cfb@ == cfb_image(
                        chart_ole_streams(
                            *spec,
                            rgba@,
                            px_width as int,
                            px_height as int,
                            width_hu as int,
                            height_hu as int,
                        ),
                    ),
                }
            },
        },
{
    match check_chart_insert(paragraph_counts, section_idx, para_idx, spec) {
        Err(e) => Err(e),
        Ok(()) => build_chart_ole(spec, rgba, px_width, px_height, width_hu, height_hu),
    }
}

/// Where and how large the chart's OLE shape is.
pub struct ChartShapeGeometry {
    /// Offsets from the paper's top-left corner, in HWPUNIT.
    pub horizontal_offset: u32,
    pub vertical_offset: u32,
    /// The object's size, also its original and current drawing size.
    pub width: u32,
    pub height: u32,
    /// The OLE extent, the size again as a signed number.
    pub extent_x: i32,
    pub extent_y: i32,
}

/// The geometry of an inserted chart of `width_hu` by `height_hu`
/// HWPUNIT at the given paper offsets (absent or negative ones become 0).
pub fn chart_shape_geometry(
    width_hu: u32,
    height_hu: u32,
    paper_offset_x_hu: Option<i32>,
    paper_offset_y_hu: Option<i32>,
) -> (g: ChartShapeGeometry)
    ensures
        g.horizontal_offset == paper_offset_spec(paper_offset_x_hu),
        g.vertical_offset == paper_offset_spec(paper_offset_y_hu),
        g.width == width_hu,
        g.height == height_hu,
        g.extent_x == width_hu as i32,
        g.extent_y == height_hu as i32,
{
    ChartShapeGeometry {
        horizontal_offset: paper_offset(paper_offset_x_hu),
        vertical_offset: paper_offset(paper_offset_y_hu),
        width: width_hu,
        height: height_hu,
        extent_x: width_hu as i32,
        extent_y: height_hu as i32,
    }
}

} // verus!

verus! {

proof fn lemma_first_mismatch(spec: ChartSpec, from: int)
    requires
        0 <= from,
    ensures
        first_mismatch(spec, from) is None <==> forall|k: int|
            from <= k < spec.series@.len() ==> #[trigger] spec.series@[k].values@.len()
                == spec.categories@.len(),
        first_mismatch(spec, from) matches Some(j) ==> {
            &&& from <= j < spec.series@.len()
            &&& spec.series@[j].values@.len() != spec.categories@.len()
            &&& forall|k: int|
                from <= k < j ==> #[trigger] spec.series@[k].values@.len()
                    == spec.categories@.len()
        },
    decreases spec.series@.len() - from,
{
    if from < spec.series@.len() {
        lemma_first_mismatch(spec, from + 1);
    }
}

/// What the insertion checks refuse. A chart goes in exactly when the
/// section and the paragraph exist, there is at least one series, and every
/// series has exactly one value per category. A missing section is reported
/// first, then a missing paragraph, then an empty series list; otherwise a
/// series with fewer or more values than there are categories is refused
/// with a message that names the first such series and gives its value
/// count and the category count.
pub proof fn lemma_chart_insert_checks(
    paragraph_counts: Seq<usize>,
    section_idx: nat,
    para_idx: nat,
    spec: ChartSpec,
)
    ensures
        ({
            let err = chart_insert_error(paragraph_counts, section_idx, para_idx, spec);
            let n = spec.categories@.len();
            let place_ok = section_idx < paragraph_counts.len() && para_idx
                < paragraph_counts[section_idx as int];
            &&& err is None <==> (place_ok && spec.series@.len() > 0 && forall|k: int|
                0 <= k < spec.series@.len() ==> #[trigger] spec.series@[k].values@.len() == n)
            &&& section_idx >= paragraph_counts.len() ==> err == Some(section_error(section_idx))
            &&& section_idx < paragraph_counts.len() && para_idx >= paragraph_counts[section_idx as int]
                ==> err == Some(paragraph_error(para_idx))
            &&& place_ok && spec.series@.len() == 0 ==> err == Some(EMPTY_SERIES_ERROR@)
            &&& (place_ok && exists|k: int|
                0 <= k < spec.series@.len() && #[trigger] spec.series@[k].values@.len() != n) ==> exists|j: int|
                {
                    &&& 0 <= j < spec.series@.len()
                    &&& spec.series@[j].values@.len() != n
                    &&& (forall|k: int| 0 <= k < j ==> #[trigger] spec.series@[k].values@.len() == n)
                    &&& err == Some(
                        mismatch_error(spec.series@[j].name@, spec.series@[j].values@.len(), n),
                    )
                }
        }),
{
    lemma_first_mismatch(spec, 0);
    let n = spec.categories@.len();
    if let Some(j) = first_mismatch(spec, 0) {
        assert(spec.series@[j].values@.len() != n);
    }
}

} // verus!
