//! The chart preview picture: the chart's SVG drawing, set on a white page of
//! the preview's size, rasterized with resvg.
//!
//! Hancom and the viewer draw only the preview stored in the OLE object, so a
//! new chart needs a picture. The drawing comes from the chart renderer; the
//! fonts come with the `usvg::Options` that the caller loads.

use resvg::{tiny_skia, usvg};
use vstd::prelude::*;
use vstd::string::*;
use crate::text::{decimal, push_decimal};

verus! {

#[verifier::external_type_specification]
#[verifier::external_body]
pub struct ExSvgOptions<'a>(usvg::Options<'a>);

#[verifier::external_type_specification]
#[verifier::external_body]
pub struct ExSvgTree(usvg::Tree);

#[verifier::external_type_specification]
#[verifier::external_body]
pub struct ExSvgError(usvg::Error);

#[verifier::external_type_specification]
#[verifier::external_body]
pub struct ExPixmap(tiny_skia::Pixmap);

/// The bytes a pixmap holds: premultiplied RGBA, top row first.
pub uninterp spec fn pixmap_data(p: tiny_skia::Pixmap) -> Seq<u8>;

/// The sizes `tiny_skia::Pixmap::new` accepts: both sides positive, a row
/// of at most `i32::MAX` bytes, and the whole buffer within `usize`.
pub open spec fn pixmap_fits(width: int, height: int) -> bool {
    &&& width > 0
    &&& height > 0
    &&& 4 * width <= i32::MAX
    &&& 4 * width * height <= usize::MAX
}

/// `tiny_skia::Pixmap::new`: a pixmap of the given size, every byte zero
/// (transparent black), or `None` where the size is zero or too large.
#[verifier::external_body]
fn new_pixmap(width: u32, height: u32) -> (r: Option<tiny_skia::Pixmap>)
    ensures
        r is Some <==> pixmap_fits(width as int, height as int),
        r matches Some(p) ==> pixmap_data(p) == Seq::new(
            (4 * width * height) as nat,
            |i: int| 0u8,
        ),
{
    tiny_skia::Pixmap::new(width, height)
}

/// `usvg::Tree::from_str`: parses an SVG document with the given options
/// (fonts among them). Whether it succeeds, and the tree, are not stated.
#[verifier::external_body]
fn parse_svg(text: &str, options: &usvg::Options) -> (r: Result<usvg::Tree, usvg::Error>) {
    usvg::Tree::from_str(text, options)
}

/// `usvg::Error`'s `Display` text. What it says is not stated.
#[verifier::external_body]
fn svg_error_text(e: &usvg::Error) -> String {
    e.to_string()
}

/// `resvg::render` with the identity transform onto the whole pixmap. It
/// paints pixels and keeps the size; the pixel values are not stated.
#[verifier::external_body]
fn render_tree(tree: &usvg::Tree, pixmap: &mut tiny_skia::Pixmap)
    ensures
        pixmap_data(*final(pixmap)).len() == pixmap_data(*old(pixmap)).len(),
{
    resvg::render(tree, tiny_skia::Transform::default(), &mut pixmap.as_mut());
}

/// `tiny_skia::Pixmap::take`: the pixmap's bytes.
#[verifier::external_body]
fn pixmap_take(p: tiny_skia::Pixmap) -> (r: Vec<u8>)
    ensures
        r@ == pixmap_data(p),
{
    p.take()
}

/// A rasterized preview.
pub struct ChartPreview {
    /// RGBA pixels, top row first, four bytes a pixel.
    pub rgba: Vec<u8>,
    pub width: u32,
    pub height: u32,
}

/// The standalone SVG document of a preview: an `svg` element of the
/// preview's size with a matching view box, a white background, then the
/// chart drawing.
pub open spec fn preview_svg_spec(body: Seq<char>, width: nat, height: nat) -> Seq<char> {
    "<svg xmlns=\"http://www.w3.org/2000/svg\" width=\""@ + decimal(width) + "\" height=\""@
        + decimal(height) + "\" viewBox=\"0 0 "@ + decimal(width) + seq![' '] + decimal(height)
        + "\"><rect width=\"100%\" height=\"100%\" fill=\"#ffffff\"/>"@ + body + "</svg>"@
}

/// The SVG document that is rasterized for a preview.
pub fn preview_svg(body: &str, px_width: u32, px_height: u32) -> (svg: String)
    ensures
        svg@ == preview_svg_spec(body@, px_width as nat, px_height as nat),
{
    let mut svg = String::new();
    svg.append("<svg xmlns=\"http://www.w3.org/2000/svg\" width=\"");
    assert(svg@ =~= "<svg xmlns=\"http://www.w3.org/2000/svg\" width=\""@);
    push_decimal(&mut svg, px_width as usize);
    svg.append("\" height=\"");
    push_decimal(&mut svg, px_height as usize);
    svg.append("\" viewBox=\"0 0 ");
    push_decimal(&mut svg, px_width as usize);
    crate::text::string_push(&mut svg, ' ');
    let ghost before = svg@;
    push_decimal(&mut svg, px_height as usize);
    svg.append("\"><rect width=\"100%\" height=\"100%\" fill=\"#ffffff\"/>");
    svg.append(body);
    svg.append("</svg>");
    proof {
        let w = decimal(px_width as nat);
        assert(before =~= "<svg xmlns=\"http://www.w3.org/2000/svg\" width=\""@ + w
            + "\" height=\""@ + decimal(px_height as nat) + "\" viewBox=\"0 0 "@ + w + seq![' ']);
    }
    svg
}

pub const ZERO_SIZE_MESSAGE: &'static str = "미리보기 크기가 0 이다";

pub const SVG_PARSE_PREFIX: &'static str = "SVG 파싱 실패: ";

pub const PIXMAP_MESSAGE: &'static str = "픽스맵 생성 실패";

/// The rest of a preview once its SVG document has been parsed: a parse
/// failure is reported with the parser's message after `SVG_PARSE_PREFIX`;
/// otherwise a pixmap of the preview's size is made (refused where the size
/// does not fit) and the drawing is rendered onto it.
pub fn rasterize_preview(
    parsed: Result<usvg::Tree, usvg::Error>,
    px_width: u32,
    px_height: u32,
) -> (r: Result<ChartPreview, String>)
    ensures
        r is Ok <==> (parsed is Ok && pixmap_fits(px_width as int, px_height as int)),
        parsed is Err ==> (r matches Err(m) && SVG_PARSE_PREFIX@.is_prefix_of(m@)),
        (parsed is Ok && !pixmap_fits(px_width as int, px_height as int)) ==> (r matches Err(m)
            && m@ == PIXMAP_MESSAGE@),
        r matches Ok(p) ==> {
            &&& p.width == px_width
            &&& p.height == px_height
            &&& p.rgba@.len() == 4 * px_width * px_height
        },
{
    let tree = match parsed {
        Ok(t) => t,
        Err(e) => {
            let mut m = message(SVG_PARSE_PREFIX);
            let text = svg_error_text(&e);
            m.append(text.as_str());
            assert(SVG_PARSE_PREFIX@.is_prefix_of(m@)) by {
                assert(m@.subrange(0, SVG_PARSE_PREFIX@.len() as int) =~= SVG_PARSE_PREFIX@);
            }
            return Err(m);
        },
    };
    let mut pixmap = match new_pixmap(px_width, px_height) {
        Some(p) => p,
        None => {
            return Err(message(PIXMAP_MESSAGE));
        },
    };
    render_tree(&tree, &mut pixmap);
    let rgba = pixmap_take(pixmap);
    Ok(ChartPreview { rgba, width: px_width, height: px_height })
}

/// Rasterizes a chart drawing (an SVG fragment from the chart renderer) as a
/// preview of `px_width` by `px_height` pixels on white, with the fonts of
/// `options`. A zero size is refused; otherwise the document of
/// `preview_svg` is parsed and `rasterize_preview` does the rest.
pub fn render_chart_preview(
    chart_svg: &str,
    px_width: u32,
    px_height: u32,
    options: &usvg::Options,
) -> (r: Result<ChartPreview, String>)
    ensures
        (px_width == 0 || px_height == 0) ==> (r matches Err(m) && m@ == ZERO_SIZE_MESSAGE@),
        r matches Ok(p) ==> {
            &&& pixmap_fits(px_width as int, px_height as int)
            &&& p.width == px_width
            &&& p.height == px_height
            &&& p.rgba@.len() == 4 * px_width * px_height
        },
        r matches Err(m) ==> {
            ||| (px_width == 0 || px_height == 0) && m@ == ZERO_SIZE_MESSAGE@
            ||| px_width > 0 && px_height > 0 && SVG_PARSE_PREFIX@.is_prefix_of(m@)
            ||| px_width > 0 && px_height > 0 && !pixmap_fits(px_width as int, px_height as int)
                && m@ == PIXMAP_MESSAGE@
        },
{
    if px_width == 0 || px_height == 0 {
        return Err(message(ZERO_SIZE_MESSAGE));
    }
    let svg = preview_svg(chart_svg, px_width, px_height);
    let parsed = parse_svg(svg.as_str(), options);
    rasterize_preview(parsed, px_width, px_height)
}

/// A message as an owned string.
fn message(text: &str) -> (s: String)
    ensures
        s@ == text@,
{
    let mut s = String::new();
    s.append(text);
    assert(s@ =~= text@);
    s
}

} // verus!
