//! The chart OLE object: the chart XML and its preview, stored as a bare
//! compound file for `BinData/BINxxxx.OLE`.
//!
//! Hancom and the viewer draw only the `\x02OlePres000` preview; this
//! library reads only the `OOXMLChartContents` XML. Both are made from the
//! same data so the two screens agree. The compound file is left bare:
//! compression and the 4-byte length prefix are added where BinData is
//! written, which recognises the storage by its signature. The legacy
//! `Contents` stream is not written.

use vstd::prelude::*;
use vstd::string::*;
use crate::serializer::chart_xml::{build_chart_xml, chart_xml_chars, spec_fits, ChartSpec};
use crate::serializer::mini_cfb::{
    build_cfb, cfb_error, cfb_image, lemma_cfb_signature, lemma_cfb_stream_data, magic,
    stream_offset, streams_view,
};
use crate::serializer::wmf_writer::{
    image_fits, ole_presentation_stream, presentation_bytes, wmf_bytes, wmf_from_rgba,
};
use crate::text::{decimal, push_decimal};

verus! {

/// An assembled chart OLE object.
#[derive(Debug)]
pub struct ChartOle {
    /// The bare compound file for `BinDataContent.data` (no compression, no
    /// length prefix).
    pub cfb: Vec<u8>,
}

pub open spec fn pres_stream_name() -> Seq<char> {
    seq!['\u{2}', 'O', 'l', 'e', 'P', 'r', 'e', 's', '0', '0', '0']
}

pub open spec fn xml_stream_name() -> Seq<char> {
    seq!['O', 'O', 'X', 'M', 'L', 'C', 'h', 'a', 'r', 't', 'C', 'o', 'n', 't', 'e', 'n', 't', 's']
}

/// The preview stream of a chart object: the presentation stream around
/// the preview metafile.
#[verifier::opaque]
pub open spec fn preview_stream_bytes(
    rgba: Seq<u8>,
    px_width: int,
    px_height: int,
    extent_x_hu: int,
    extent_y_hu: int,
) -> Seq<u8> {
    presentation_bytes(wmf_bytes(rgba, px_width, px_height), extent_x_hu, extent_y_hu)
}

/// The chart XML stream of a chart object: the document in UTF-8.
#[verifier::opaque]
pub open spec fn xml_stream_bytes(spec: ChartSpec) -> Seq<u8> {
    vstd::utf8::encode_utf8(chart_xml_chars(spec))
}

/// The two streams of a chart object, in the order of Hancom's own charts:
/// the preview, then the chart XML.
pub open spec fn chart_ole_streams(
    spec: ChartSpec,
    rgba: Seq<u8>,
    px_width: int,
    px_height: int,
    extent_x_hu: int,
    extent_y_hu: int,
) -> Seq<(Seq<char>, Seq<u8>)> {
    seq![
        (pres_stream_name(), preview_stream_bytes(rgba, px_width, px_height, extent_x_hu, extent_y_hu)),
        (xml_stream_name(), xml_stream_bytes(spec)),
    ]
}

/// The message for a preview with fewer bytes than its size needs.
pub open spec fn short_pixels_error(len: nat, w: nat, h: nat) -> Seq<char> {
    "미리보기 픽셀 부족: "@ + decimal(len) + "B < "@ + decimal(w) + seq!['x'] + decimal(h)
        + "x4"@
}

fn short_pixels_message(len: usize, px_width: u32, px_height: u32) -> (m: String)
    ensures
        m@ == short_pixels_error(len as nat, px_width as nat, px_height as nat),
{
    let mut m = String::new();
    m.append("미리보기 픽셀 부족: ");
    assert(m@ =~= "미리보기 픽셀 부족: "@);
    push_decimal(&mut m, len);
    m.append("B < ");
    push_decimal(&mut m, px_width as usize);
    crate::text::string_push(&mut m, 'x');
    push_decimal(&mut m, px_height as usize);
    m.append("x4");
    m
}

proof fn lemma_stream_view(
    s: Seq<(&str, &[u8])>,
    n1: Seq<char>,
    d1: Seq<u8>,
    n2: Seq<char>,
    d2: Seq<u8>,
)
    requires
        s.len() == 2,
        s[0].0@ == n1,
        s[0].1@ == d1,
        s[1].0@ == n2,
        s[1].1@ == d2,
    ensures
        streams_view(s) == seq![(n1, d1), (n2, d2)],
{
    assert(streams_view(s) =~= seq![(n1, d1), (n2, d2)]);
}

fn stream_data(
    spec: &ChartSpec,
    rgba: &[u8],
    px_width: u32,
    px_height: u32,
    extent_x_hu: u32,
    extent_y_hu: u32,
) -> (r: (Vec<u8>, Vec<u8>))
    requires
        spec_fits(*spec),
        image_fits(px_width as int, px_height as int),
        rgba@.len() >= 4 * px_width * px_height,
    ensures
        r.0@ == preview_stream_bytes(
            rgba@,
            px_width as int,
            px_height as int,
            extent_x_hu as int,
            extent_y_hu as int,
        ),
        r.1@ == xml_stream_bytes(*spec),
{
    reveal(preview_stream_bytes);
    reveal(xml_stream_bytes);
    let xml = build_chart_xml(spec);
    let wmf = wmf_from_rgba(rgba, px_width, px_height);
    let pres = ole_presentation_stream(wmf.as_slice(), extent_x_hu, extent_y_hu);
    (pres, xml)
}

/// Builds the chart object from the chart and its preview pixels (`rgba`,
/// top row first, four bytes a pixel); the extent, in HWPUNIT, goes into
/// the preview stream's header.
pub fn build_chart_ole(
    spec: &ChartSpec,
    rgba: &[u8],
    px_width: u32,
    px_height: u32,
    extent_x_hu: u32,
    extent_y_hu: u32,
) -> (r: Result<ChartOle, String>)
    requires
        4 * px_width * px_height <= usize::MAX,
        rgba@.len() >= 4 * px_width * px_height ==> spec_fits(*spec) && image_fits(
            px_width as int,
            px_height as int,
        ),
    ensures
        rgba@.len() < 4 * px_width * px_height ==> (r matches Err(m) && m@ == short_pixels_error(
            rgba@.len(),
            px_width as nat,
            px_height as nat,
        )),
        rgba@.len() >= 4 * px_width * px_height ==> match cfb_error(
            chart_ole_streams(
                *spec,
                rgba@,
                px_width as int,
                px_height as int,
                extent_x_hu as int,
                extent_y_hu as int,
            ),
        ) {
            Some(m) => r matches Err(e) && e@ == m,
            None => r matches Ok(ole) && ole.cfb@ == cfb_image(
                chart_ole_streams(
                    *spec,
                    rgba@,
                    px_width as int,
                    px_height as int,
                    extent_x_hu as int,
                    extent_y_hu as int,
                ),
            ),
        },
{
    assert((px_width as int) * (px_height as int) * 4 == 4 * (px_width as int) * (px_height as int)
        && (px_width as int) * (px_height as int) <= 4 * (px_width as int) * (px_height as int))
        by (nonlinear_arith);
    let need: usize = (px_width as usize) * (px_height as usize) * 4;
    if rgba.len() < need {
        return Err(short_pixels_message(rgba.len(), px_width, px_height));
    }
    let (pres, xml) = stream_data(spec, rgba, px_width, px_height, extent_x_hu, extent_y_hu);
    let pres_name = "\u{2}OlePres000";
    let xml_name = "OOXMLChartContents";
    let streams = [(pres_name, pres.as_slice()), (xml_name, xml.as_slice())];
    proof {
        reveal_strlit("\u{2}OlePres000");
        reveal_strlit("OOXMLChartContents");
        assert(pres_name@ =~= pres_stream_name());
        assert(xml_name@ =~= xml_stream_name());
        lemma_stream_view(streams@, pres_name@, pres@, xml_name@, xml@);
        assert(streams_view(streams@) == chart_ole_streams(
            *spec,
            rgba@,
            px_width as int,
            px_height as int,
            extent_x_hu as int,
            extent_y_hu as int,
        ));
    }
    match build_cfb(&streams) {
        Ok(cfb) => Ok(ChartOle { cfb }),
        Err(e) => Err(e),
    }
}

/// A chart object is a bare compound file, starting with the compound file
/// signature, that carries the preview stream and the chart XML unchanged.
pub proof fn lemma_chart_ole_contents(
    spec: ChartSpec,
    rgba: Seq<u8>,
    px_width: int,
    px_height: int,
    extent_x_hu: int,
    extent_y_hu: int,
)
    requires
        cfb_error(
            chart_ole_streams(spec, rgba, px_width, px_height, extent_x_hu, extent_y_hu),
        ) is None,
    ensures
        ({
            let sv = chart_ole_streams(spec, rgba, px_width, px_height, extent_x_hu, extent_y_hu);
            let image = cfb_image(sv);
            let pres = preview_stream_bytes(rgba, px_width, px_height, extent_x_hu, extent_y_hu);
            let xml = xml_stream_bytes(spec);
            &&& image.subrange(0, 8) == magic()
            &&& image.subrange(stream_offset(sv, 0), stream_offset(sv, 0) + pres.len()) == pres
            &&& image.subrange(stream_offset(sv, 1), stream_offset(sv, 1) + xml.len()) == xml
        }),
{
    let sv = chart_ole_streams(spec, rgba, px_width, px_height, extent_x_hu, extent_y_hu);
    lemma_cfb_signature(sv);
    lemma_cfb_stream_data(sv, 0);
    lemma_cfb_stream_data(sv, 1);
}

} // verus!
