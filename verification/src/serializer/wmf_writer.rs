//! A minimal Windows Metafile writer: one bitmap, drawn with one record.

use vstd::prelude::*;
use crate::bytes::{
    group_le_lengths, le16, le32, lemma_le_mod, lemma_read_at, lemma_read_le16, lemma_read_le32,
    lemma_sub_left, lemma_sub_right, push_bytes,
    push_le16, push_le32, read_le16, read_le32,
};

verus! {

broadcast use group_le_lengths;

/// One WMF record: its size in 16-bit words (itself included), its function
/// number, then its parameters.
pub open spec fn record_bytes(func: u16, params: Seq<u8>) -> Seq<u8> {
    le32(3 + params.len() as int / 2) + le16(func as int) + params
}

pub fn record(func: u16, params: &[u8]) -> (out: Vec<u8>)
    requires
        params@.len() % 2 == 0,
        params@.len() / 2 + 3 <= u32::MAX,
    ensures
        out@ == record_bytes(func, params@),
{
    let size_words: u32 = 3 + (params.len() / 2) as u32;
    let mut out: Vec<u8> = Vec::new();
    push_le32(&mut out, size_words);
    push_le16(&mut out, func);
    push_bytes(&mut out, params);
    out
}

} // verus!

verus! {

/// Bytes per row of a 24-bit DIB `width` pixels wide: three bytes a pixel,
/// rounded up to a multiple of four.
pub open spec fn dib_stride(width: int) -> int {
    ((width * 24 + 31) / 32) * 4
}

/// A colour channel composited over white with alpha `a`.
pub open spec fn blend(c: u8, a: u8) -> u8 {
    ((c * a + 255 * (255 - a)) / 255) as u8
}

/// Byte `col` of stored row `row` of the pixel array. Rows are stored bottom
/// up (stored row 0 is the last image row), pixels as blue, green, red, and
/// the bytes past `3 * width` in a row are zero padding.
pub open spec fn dib_pixel_byte(rgba: Seq<u8>, width: int, height: int, row: int, col: int) -> u8 {
    if col < 3 * width {
        let y = height - 1 - row;
        let s = 4 * (y * width + col / 3);
        blend(rgba[s + 2 - col % 3], rgba[s + 3])
    } else {
        0
    }
}

/// The pixel array of the DIB: `height` rows of `dib_stride(width)` bytes.
pub open spec fn dib_bits(rgba: Seq<u8>, width: int, height: int) -> Seq<u8> {
    let stride = dib_stride(width);
    Seq::new(
        (stride * height) as nat,
        |i: int| dib_pixel_byte(rgba, width, height, i / stride, i % stride),
    )
}

/// The 40-byte BITMAPINFOHEADER of an uncompressed 24-bit bottom-up DIB at
/// 72 dpi.
pub open spec fn dib_header(width: int, height: int, image_size: int) -> Seq<u8> {
    le32(40) + le32(width) + le32(height) + le16(1) + le16(24) + le32(0) + le32(image_size)
        + le32(2835) + le32(2835) + le32(0) + le32(0)
}

/// The packed DIB (header, then pixel array) for an RGBA image.
pub open spec fn dib_bytes(rgba: Seq<u8>, width: int, height: int) -> Seq<u8> {
    dib_header(width, height, dib_stride(width) * height) + dib_bits(rgba, width, height)
}

/// The sizes the writers take: the buffer, row and stride arithmetic stays
/// within 32 bits, and the buffers within the address space.
pub open spec fn image_fits(width: int, height: int) -> bool {
    &&& 4 * width * height <= u32::MAX
    &&& width * 24 + 31 <= u32::MAX
    &&& 4 * width * height + 0x1000 <= usize::MAX
}

proof fn lemma_stride_bounds(width: int)
    requires
        0 <= width,
    ensures
        dib_stride(width) % 4 == 0,
        3 * width <= dib_stride(width) <= 4 * width,
        dib_stride(width) <= 3 * width + 3,
{
}

fn blend_channel(c: u8, a: u8) -> (r: u8)
    ensures
        r == blend(c, a),
{
    assert((c as int) * (a as int) <= 255 * (a as int)) by (nonlinear_arith)
        requires
            c <= 255,
            0 <= a,
    ;
    let v: u32 = (c as u32) * (a as u32) + 255 * (255 - a as u32);
    (v / 255) as u8
}

/// Converts RGBA pixels (top row first, four bytes a pixel) to a packed
/// 24-bit bottom-up DIB, compositing alpha onto white.
pub fn rgba_to_dib(rgba: &[u8], width: u32, height: u32) -> (dib: Vec<u8>)
    requires
        rgba@.len() >= 4 * width * height,
        image_fits(width as int, height as int),
    ensures
        dib@ == dib_bytes(rgba@, width as int, height as int),
{
    let w = width as usize;
    let h = height as usize;
    proof {
        lemma_stride_bounds(w as int);
        assert(dib_stride(w as int) * (h as int) <= 4 * (w as int) * (h as int)) by (nonlinear_arith)
            requires
                dib_stride(w as int) <= 4 * (w as int),
                0 <= h,
        ;
    }
    let stride: usize = ((width * 24 + 31) / 32 * 4) as usize;
    let ghost spec_rgba = rgba@;
    let mut bits: Vec<u8> = Vec::new();
    let mut row: usize = 0;
    while row < h
        invariant
            w == width,
            h == height,
            stride == dib_stride(w as int),
            3 * w <= stride <= 4 * w,
            stride * h <= 4 * w * h,
            rgba@ == spec_rgba,
            rgba@.len() >= 4 * w * h,
            image_fits(w as int, h as int),
            row <= h,
            bits@.len() == row * stride,
            forall|i: int|
                0 <= i < bits@.len() ==> #[trigger] bits@[i] == dib_pixel_byte(
                    spec_rgba,
                    w as int,
                    h as int,
                    i / (stride as int),
                    i % (stride as int),
                ),
        decreases h - row,
    {
        let y: usize = h - 1 - row;
        let ghost row_start = bits@.len() as int;
        assert(row_start + stride <= stride * h) by (nonlinear_arith)
            requires
                row_start == row * stride,
                row < h,
        ;
        let mut x: usize = 0;
        while x < w
            invariant
                w == width,
                h == height,
                stride == dib_stride(w as int),
                3 * w <= stride <= 4 * w,
                stride * h <= 4 * w * h,
                rgba@ == spec_rgba,
                rgba@.len() >= 4 * w * h,
                image_fits(w as int, h as int),
                row < h,
                y == h - 1 - row,
                row_start == row * stride,
                row_start + stride <= stride * h,
                x <= w,
                bits@.len() == row_start + 3 * x,
                forall|i: int|
                    0 <= i < bits@.len() ==> #[trigger] bits@[i] == dib_pixel_byte(
                        spec_rgba,
                        w as int,
                        h as int,
                        i / (stride as int),
                        i % (stride as int),
                    ),
            decreases w - x,
        {
            assert(4 * (y * w + x) + 3 < 4 * w * h) by (nonlinear_arith)
                requires
                    y < h,
                    x < w,
            ;
            let s: usize = 4 * (y * w + x);
            let r = rgba[s];
            let g = rgba[s + 1];
            let b = rgba[s + 2];
            let a = rgba[s + 3];
            let ghost before = bits@;
            bits.push(blend_channel(b, a));
            bits.push(blend_channel(g, a));
            bits.push(blend_channel(r, a));
            proof {
                assert forall|i: int| 0 <= i < bits@.len() implies #[trigger] bits@[i]
                    == dib_pixel_byte(
                    spec_rgba,
                    w as int,
                    h as int,
                    i / (stride as int),
                    i % (stride as int),
                ) by {
                    if i >= before.len() {
                        let k = i - before.len();
                        vstd::arithmetic::div_mod::lemma_fundamental_div_mod_converse(
                            i,
                            stride as int,
                            row as int,
                            3 * x + k,
                        );
                        assert((3 * x + k) / 3 == x);
                        assert((3 * x + k) % 3 == k);
                    }
                }
            }
            x = x + 1;
        }
        let mut c: usize = 3 * w;
        while c < stride
            invariant
                stride == dib_stride(w as int),
                3 * w <= c <= stride,
                row < h,
                row_start == row * stride,
                bits@.len() == row_start + c,
                forall|i: int|
                    0 <= i < bits@.len() ==> #[trigger] bits@[i] == dib_pixel_byte(
                        spec_rgba,
                        w as int,
                        h as int,
                        i / (stride as int),
                        i % (stride as int),
                    ),
            decreases stride - c,
        {
            let ghost before = bits@;
            bits.push(0);
            proof {
                vstd::arithmetic::div_mod::lemma_fundamental_div_mod_converse(
                    row_start + c,
                    stride as int,
                    row as int,
                    c as int,
                );
                assert forall|i: int| 0 <= i < bits@.len() implies #[trigger] bits@[i]
                    == dib_pixel_byte(
                    spec_rgba,
                    w as int,
                    h as int,
                    i / (stride as int),
                    i % (stride as int),
                ) by {
                    if i >= before.len() {
                    }
                }
            }
            c = c + 1;
        }
        assert((row + 1) * stride == row * stride + stride) by (nonlinear_arith);
        row = row + 1;
    }
    assert((h as int) * (stride as int) == (stride as int) * (h as int)) by (nonlinear_arith);
    assert(bits@ =~= dib_bits(spec_rgba, w as int, h as int));
    let size_image: u32 = bits.len() as u32;
    let mut dib: Vec<u8> = Vec::new();
    push_le32(&mut dib, 40);
    push_le32(&mut dib, width);
    push_le32(&mut dib, height);
    push_le16(&mut dib, 1);
    push_le16(&mut dib, 24);
    push_le32(&mut dib, 0);
    push_le32(&mut dib, size_image);
    push_le32(&mut dib, 2835);
    push_le32(&mut dib, 2835);
    push_le32(&mut dib, 0);
    push_le32(&mut dib, 0);
    push_bytes(&mut dib, bits.as_slice());
    assert(dib@ =~= dib_bytes(spec_rgba, w as int, h as int));
    dib
}

} // verus!

verus! {

pub const META_EOF: u16 = 0x0000;
pub const META_SETWINDOWORG: u16 = 0x020B;
pub const META_SETWINDOWEXT: u16 = 0x020C;
pub const META_STRETCHDIB: u16 = 0x0F43;
pub const SRCCOPY: u32 = 0x00CC_0020;
pub const DIB_RGB_COLORS: u16 = 0;

/// The parameters of the META_STRETCHDIB record: raster operation SRCCOPY,
/// DIB_RGB_COLORS, source and destination rectangles (height, width, y, x)
/// both covering the whole image, then the packed DIB, padded to a whole word.
pub open spec fn stretch_dib_params(rgba: Seq<u8>, width: int, height: int) -> Seq<u8> {
    let p = le32(SRCCOPY as int) + le16(DIB_RGB_COLORS as int) + le16(height) + le16(width)
        + le16(0) + le16(0) + le16(height) + le16(width) + le16(0) + le16(0) + dib_bytes(
        rgba,
        width,
        height,
    );
    if p.len() % 2 == 1 {
        p.push(0)
    } else {
        p
    }
}

/// SetWindowOrg(0, 0).
pub open spec fn record_window_org() -> Seq<u8> {
    record_bytes(META_SETWINDOWORG, seq![0u8, 0u8, 0u8, 0u8])
}

/// SetWindowExt(height, width).
pub open spec fn record_window_ext(width: int, height: int) -> Seq<u8> {
    record_bytes(META_SETWINDOWEXT, le16(height) + le16(width))
}

/// The META_STRETCHDIB record that draws the image.
pub open spec fn record_stretch_dib(rgba: Seq<u8>, width: int, height: int) -> Seq<u8> {
    record_bytes(META_STRETCHDIB, stretch_dib_params(rgba, width, height))
}

/// The end-of-file record.
pub open spec fn record_eof() -> Seq<u8> {
    record_bytes(META_EOF, Seq::empty())
}

/// The records in playback order.
pub open spec fn wmf_records(rgba: Seq<u8>, width: int, height: int) -> Seq<Seq<u8>> {
    seq![
        record_window_org(),
        record_window_ext(width, height),
        record_stretch_dib(rgba, width, height),
        record_eof(),
    ]
}

/// The total length of the records, in bytes.
pub open spec fn wmf_body_len(rgba: Seq<u8>, width: int, height: int) -> int {
    record_window_org().len() + record_window_ext(width, height).len() + record_stretch_dib(
        rgba,
        width,
        height,
    ).len() as int + record_eof().len()
}

/// The size, in words, of the largest record.
pub open spec fn wmf_max_record_words(rgba: Seq<u8>, width: int, height: int) -> int {
    vstd::math::max(
        vstd::math::max(
            record_window_org().len() as int / 2,
            record_window_ext(width, height).len() as int / 2,
        ),
        vstd::math::max(
            record_stretch_dib(rgba, width, height).len() as int / 2,
            record_eof().len() as int / 2,
        ),
    )
}

/// The 18-byte metafile header: memory metafile, 9-word header, version
/// 0x0300, total size in words, one object, largest record in words, no
/// parameters.
pub open spec fn wmf_header(rgba: Seq<u8>, width: int, height: int) -> Seq<u8> {
    le16(1) + le16(9) + le16(0x0300) + le32((18 + wmf_body_len(rgba, width, height)) / 2) + le16(
        1,
    ) + le32(wmf_max_record_words(rgba, width, height)) + le16(0)
}

/// The whole metafile: the header, then the records in playback order.
pub open spec fn wmf_bytes(rgba: Seq<u8>, width: int, height: int) -> Seq<u8> {
    wmf_header(rgba, width, height) + record_window_org() + record_window_ext(width, height)
        + record_stretch_dib(rgba, width, height) + record_eof()
}

/// Builds a metafile that draws the given RGBA image (top row first, four
/// bytes a pixel) with one META_STRETCHDIB record.
pub fn wmf_from_rgba(rgba: &[u8], width: u32, height: u32) -> (wmf: Vec<u8>)
    requires
        rgba@.len() >= 4 * width * height,
        image_fits(width as int, height as int),
    ensures
        wmf@ == wmf_bytes(rgba@, width as int, height as int),
{
    let dib = rgba_to_dib(rgba, width, height);
    let w: u16 = (width % 0x10000) as u16;
    let h: u16 = (height % 0x10000) as u16;
    proof {
        lemma_stride_bounds(width as int);
        assert(dib_stride(width as int) * (height as int) <= 4 * (width as int) * (height as int))
            by (nonlinear_arith)
            requires
                dib_stride(width as int) <= 4 * (width as int),
                0 <= height,
        ;
        lemma_le_mod(height as u64);
        lemma_le_mod(width as u64);
    }

    let mut params: Vec<u8> = Vec::new();
    push_le32(&mut params, SRCCOPY);
    assert(params@ =~= le32(SRCCOPY as int));
    push_le16(&mut params, DIB_RGB_COLORS);
    push_le16(&mut params, h);
    push_le16(&mut params, w);
    push_le16(&mut params, 0);
    push_le16(&mut params, 0);
    push_le16(&mut params, h);
    push_le16(&mut params, w);
    push_le16(&mut params, 0);
    push_le16(&mut params, 0);
    push_bytes(&mut params, dib.as_slice());
    assert(dib_stride(width as int) * (height as int) >= 0) by (nonlinear_arith)
        requires
            dib_stride(width as int) >= 0,
            height >= 0,
    ;
    assert(dib_header(width as int, height as int, dib_stride(width as int) * (height as int)).len()
        == 40);
    assert(dib_bits(rgba@, width as int, height as int).len() == dib_stride(width as int) * (
    height as int));
    assert(dib@.len() == 40 + dib_stride(width as int) * (height as int));
    assert(params@.len() == 62 + dib_stride(width as int) * (height as int));
    if params.len() % 2 == 1 {
        params.push(0);
    }
    assert(params@ == stretch_dib_params(rgba@, width as int, height as int));

    let org: Vec<u8> = vec![0u8, 0u8, 0u8, 0u8];
    let mut ext: Vec<u8> = Vec::new();
    push_le16(&mut ext, h);
    assert(ext@ =~= le16(h as int));
    push_le16(&mut ext, w);
    let r1 = record(META_SETWINDOWORG, org.as_slice());
    let r2 = record(META_SETWINDOWEXT, ext.as_slice());
    let r3 = record(META_STRETCHDIB, params.as_slice());
    let empty: Vec<u8> = Vec::new();
    let r4 = record(META_EOF, empty.as_slice());
    proof {
        assert(org@ =~= seq![0u8, 0u8, 0u8, 0u8]);
        assert(empty@ =~= Seq::<u8>::empty());
    }

    assert(r3@.len() <= 0x1_0000_0100);
    let body_len: usize = r1.len() + r2.len() + r3.len() + r4.len();
    let mut max_len: usize = r1.len() / 2;
    if r2.len() / 2 > max_len {
        max_len = r2.len() / 2;
    }
    let mut max_34: usize = r3.len() / 2;
    if r4.len() / 2 > max_34 {
        max_34 = r4.len() / 2;
    }
    if max_34 > max_len {
        max_len = max_34;
    }
    assert(max_len <= r3@.len());
    let max_record_words: u32 = max_len as u32;
    let total_words: u32 = ((18 + body_len) / 2) as u32;

    let mut wmf: Vec<u8> = Vec::new();
    push_le16(&mut wmf, 1);
    assert(wmf@ =~= le16(1));
    push_le16(&mut wmf, 9);
    push_le16(&mut wmf, 0x0300);
    push_le32(&mut wmf, total_words);
    push_le16(&mut wmf, 1);
    push_le32(&mut wmf, max_record_words);
    push_le16(&mut wmf, 0);
    push_bytes(&mut wmf, r1.as_slice());
    push_bytes(&mut wmf, r2.as_slice());
    push_bytes(&mut wmf, r3.as_slice());
    push_bytes(&mut wmf, r4.as_slice());
    assert(wmf@ == wmf_bytes(rgba@, width as int, height as int));
    wmf
}

/// The OLE presentation stream: a 40-byte header (marker 0xFFFFFFFF, clipboard
/// format CF_METAFILEPICT = 3, target device size 4, aspect DVASPECT_CONTENT = 1,
/// lindex -1, advise flags 0, reserved 0, extent width and height in HWPUNIT,
/// data size), then the metafile.
pub open spec fn presentation_bytes(wmf: Seq<u8>, width_hu: int, height_hu: int) -> Seq<u8> {
    le32(0xFFFF_FFFF) + le32(3) + le32(4) + le32(1) + le32(0xFFFF_FFFF) + le32(0) + le32(0)
        + le32(width_hu) + le32(height_hu) + le32(wmf.len() as int) + wmf
}

/// Wraps a metafile as the OLE presentation stream (`\x02OlePres000`).
pub fn ole_presentation_stream(wmf: &[u8], width_hu: u32, height_hu: u32) -> (out: Vec<u8>)
    ensures
        out@ == presentation_bytes(wmf@, width_hu as int, height_hu as int),
{
    let mut out: Vec<u8> = Vec::new();
    push_le32(&mut out, 0xFFFF_FFFF);
    assert(out@ =~= le32(0xFFFF_FFFF));
    push_le32(&mut out, 3);
    push_le32(&mut out, 4);
    push_le32(&mut out, 1);
    push_le32(&mut out, 0xFFFF_FFFF);
    push_le32(&mut out, 0);
    push_le32(&mut out, 0);
    push_le32(&mut out, width_hu);
    push_le32(&mut out, height_hu);
    push_le32(&mut out, (wmf.len() as u64 % 0x1_0000_0000) as u32);
    push_bytes(&mut out, wmf);
    proof {
        lemma_le_mod(wmf@.len() as u64);
    }
    assert(out@ == presentation_bytes(wmf@, width_hu as int, height_hu as int));
    out
}

} // verus!

verus! {

proof fn lemma_params_len(rgba: Seq<u8>, width: int, height: int)
    requires
        0 <= width,
        0 <= height,
        4 * width * height <= u32::MAX,
    ensures
        stretch_dib_params(rgba, width, height).len() == 62 + dib_stride(width) * height,
        0 <= dib_stride(width) * height <= 4 * width * height,
        dib_stride(width) % 4 == 0,
{
    lemma_stride_bounds(width);
    assert(0 <= dib_stride(width) * height <= 4 * width * height) by (nonlinear_arith)
        requires
            0 <= dib_stride(width) <= 4 * width,
            height >= 0,
    ;
    let k = dib_stride(width) / 4;
    assert(dib_stride(width) * height == 4 * (k * height)) by (nonlinear_arith)
        requires
            dib_stride(width) == 4 * k,
    ;
    assert(dib_header(width, height, dib_stride(width) * height).len() == 40);
}

/// Every metafile begins with the signature of Hancom's own previews: a
/// memory metafile (`01 00`), a 9-word header (`09 00`), version 3.0
/// (`00 03`).
pub proof fn lemma_wmf_signature(rgba: Seq<u8>, width: u32, height: u32)
    ensures
        wmf_bytes(rgba, width as int, height as int).subrange(0, 6) == seq![
            0x01u8,
            0x00u8,
            0x09u8,
            0x00u8,
            0x00u8,
            0x03u8,
        ],
{
    let w = width as int;
    let h = height as int;
    let hd = wmf_header(rgba, w, h);
    let a = le16(1) + le16(9) + le16(0x0300);
    assert(hd.len() == 18);
    assert(a.len() == 6);
    lemma_sub_left(hd + record_window_org() + record_window_ext(w, h) + record_stretch_dib(rgba, w, h), record_eof(), 0, 6);
    lemma_sub_left(hd + record_window_org() + record_window_ext(w, h), record_stretch_dib(rgba, w, h), 0, 6);
    lemma_sub_left(hd + record_window_org(), record_window_ext(w, h), 0, 6);
    lemma_sub_left(hd, record_window_org(), 0, 6);
    let b = a + le32((18 + wmf_body_len(rgba, w, h)) / 2) + le16(1) + le32(wmf_max_record_words(rgba, w, h));
    lemma_sub_left(b, le16(0), 0, 6);
    lemma_sub_left(a + le32((18 + wmf_body_len(rgba, w, h)) / 2) + le16(1), le32(wmf_max_record_words(rgba, w, h)), 0, 6);
    lemma_sub_left(a + le32((18 + wmf_body_len(rgba, w, h)) / 2), le16(1), 0, 6);
    lemma_sub_left(a, le32((18 + wmf_body_len(rgba, w, h)) / 2), 0, 6);
    reveal(le16);
    assert(a.subrange(0, 6) =~= seq![0x01u8, 0x00u8, 0x09u8, 0x00u8, 0x00u8, 0x03u8]);
}

proof fn lemma_wmf_in_header(rgba: Seq<u8>, w: int, h: int, i: int, j: int)
    requires
        0 <= i <= j <= 18,
    ensures
        wmf_bytes(rgba, w, h).subrange(i, j) == wmf_header(rgba, w, h).subrange(i, j),
{
    let hd = wmf_header(rgba, w, h);
    assert(hd.len() == 18);
    lemma_sub_left(
        hd + record_window_org() + record_window_ext(w, h) + record_stretch_dib(rgba, w, h),
        record_eof(),
        i,
        j,
    );
    lemma_sub_left(
        hd + record_window_org() + record_window_ext(w, h),
        record_stretch_dib(rgba, w, h),
        i,
        j,
    );
    lemma_sub_left(hd + record_window_org(), record_window_ext(w, h), i, j);
    lemma_sub_left(hd, record_window_org(), i, j);
}

/// The header's `mtSize` is the length of the whole metafile in 16-bit
/// words, and `mtMaxRecord` the size in words of its largest record, the
/// bitmap record.
pub proof fn lemma_wmf_size_fields(rgba: Seq<u8>, width: u32, height: u32)
    requires
        image_fits(width as int, height as int),
    ensures
        ({
            let wmf = wmf_bytes(rgba, width as int, height as int);
            &&& wmf.len() % 2 == 0
            &&& 2 * read_le32(wmf, 6) == wmf.len()
            &&& read_le32(wmf, 12) == record_stretch_dib(rgba, width as int, height as int).len()
                / 2
        }),
{
    let w = width as int;
    let h = height as int;
    lemma_params_len(rgba, w, h);
    let body = wmf_body_len(rgba, w, h);
    let words = (18 + body) / 2;
    let maxw = wmf_max_record_words(rgba, w, h);
    assert(body == 94 + dib_stride(w) * h);
    assert(maxw == record_stretch_dib(rgba, w, h).len() / 2);
    let wmf = wmf_bytes(rgba, w, h);
    let a = le16(1) + le16(9) + le16(0x0300);
    let b = a + le32(words);
    let c = b + le16(1);
    let d = c + le32(maxw);
    assert(a.len() == 6);
    assert(wmf.len() == 18 + body);
    lemma_wmf_in_header(rgba, w, h, 6, 10);
    lemma_wmf_in_header(rgba, w, h, 12, 16);
    lemma_sub_left(d, le16(0), 6, 10);
    lemma_sub_left(c, le32(maxw), 6, 10);
    lemma_sub_left(b, le16(1), 6, 10);
    lemma_sub_right(a, le32(words), 6, 10);
    lemma_sub_left(d, le16(0), 12, 16);
    lemma_sub_right(c, le32(maxw), 12, 16);
    assert(le32(words).subrange(0, 4) =~= le32(words));
    assert(le32(maxw).subrange(0, 4) =~= le32(maxw));
    lemma_read_at(wmf, 6);
    lemma_read_at(wmf, 12);
    lemma_read_le32(words);
    lemma_read_le32(maxw);
}

proof fn lemma_record_fields(func: u16, params: Seq<u8>)
    ensures
        record_bytes(func, params).len() == 6 + params.len(),
        record_bytes(func, params).subrange(0, 4) == le32(3 + params.len() as int / 2),
        record_bytes(func, params).subrange(4, 6) == le16(func as int),
{
    let a = le32(3 + params.len() as int / 2);
    let b = le16(func as int);
    lemma_sub_left(a + b, params, 0, 4);
    lemma_sub_left(a, b, 0, 4);
    assert(a.subrange(0, 4) =~= a);
    lemma_sub_left(a + b, params, 4, 6);
    lemma_sub_right(a, b, 4, 6);
    assert(b.subrange(0, 2) =~= b);
}

/// Reads the size and function fields of a record that starts at byte `at`.
proof fn lemma_read_record(whole: Seq<u8>, at: int, func: u16, params: Seq<u8>)
    requires
        0 <= at,
        at + 6 <= whole.len(),
        whole.subrange(at, at + 6) == record_bytes(func, params).subrange(0, 6),
        3 + params.len() / 2 < 0x1_0000_0000,
    ensures
        read_le32(whole, at) == 3 + params.len() / 2,
        read_le16(whole, at + 4) == func,
{
    lemma_record_fields(func, params);
    let r = record_bytes(func, params);
    assert(whole.subrange(at, at + 4) =~= r.subrange(0, 4));
    assert(whole.subrange(at, at + 6)[4] == r.subrange(0, 6)[4]);
    assert(whole.subrange(at, at + 6)[5] == r.subrange(0, 6)[5]);
    assert(whole.subrange(at + 4, at + 6) =~= r.subrange(4, 6));
    lemma_read_at(whole, at);
    assert(read_le16(whole, at + 4) == read_le16(whole.subrange(at + 4, at + 6), 0));
    lemma_read_le32(3 + params.len() as int / 2);
    lemma_read_le16(func as int);
}

/// The records follow the header in playback order, each as long as its
/// size field says: SetWindowOrg and SetWindowExt (5 words each) at bytes
/// 18 and 28, the bitmap record at byte 38, then the 3-word EOF record,
/// which ends the metafile.
pub proof fn lemma_wmf_record_chain(rgba: Seq<u8>, width: u32, height: u32)
    requires
        image_fits(width as int, height as int),
    ensures
        ({
            let wmf = wmf_bytes(rgba, width as int, height as int);
            let s = read_le32(wmf, 38);
            &&& read_le32(wmf, 18) == 5 && read_le16(wmf, 22) == META_SETWINDOWORG
            &&& read_le32(wmf, 28) == 5 && read_le16(wmf, 32) == META_SETWINDOWEXT
            &&& read_le16(wmf, 42) == META_STRETCHDIB
            &&& read_le32(wmf, 38 + 2 * s) == 3 && read_le16(wmf, 42 + 2 * s) == META_EOF
            &&& 38 + 2 * s + 6 == wmf.len()
        }),
{
    let w = width as int;
    let h = height as int;
    lemma_params_len(rgba, w, h);
    let p = stretch_dib_params(rgba, w, h);
    let hd = wmf_header(rgba, w, h);
    let r1 = record_window_org();
    let r2 = record_window_ext(w, h);
    let r3 = record_stretch_dib(rgba, w, h);
    let r4 = record_eof();
    lemma_record_fields(META_SETWINDOWORG, seq![0u8, 0u8, 0u8, 0u8]);
    lemma_record_fields(META_SETWINDOWEXT, le16(h) + le16(w));
    lemma_record_fields(META_STRETCHDIB, p);
    lemma_record_fields(META_EOF, Seq::empty());
    assert(hd.len() == 18);
    let s3: int = 3 + p.len() as int / 2;
    assert(r3.len() == 2 * s3);
    let wmf = wmf_bytes(rgba, w, h);
    let e4 = 38 + 2 * s3;
    // record 1 at 18
    lemma_sub_left(hd + r1 + r2 + r3, r4, 18, 24);
    lemma_sub_left(hd + r1 + r2, r3, 18, 24);
    lemma_sub_left(hd + r1, r2, 18, 24);
    lemma_sub_right(hd, r1, 18, 24);
    lemma_read_record(wmf, 18, META_SETWINDOWORG, seq![0u8, 0u8, 0u8, 0u8]);
    // record 2 at 28
    lemma_sub_left(hd + r1 + r2 + r3, r4, 28, 34);
    lemma_sub_left(hd + r1 + r2, r3, 28, 34);
    lemma_sub_right(hd + r1, r2, 28, 34);
    lemma_read_record(wmf, 28, META_SETWINDOWEXT, le16(h) + le16(w));
    // record 3 at 38
    lemma_sub_left(hd + r1 + r2 + r3, r4, 38, 44);
    lemma_sub_right(hd + r1 + r2, r3, 38, 44);
    lemma_read_record(wmf, 38, META_STRETCHDIB, p);
    // record 4 after it
    lemma_sub_right(hd + r1 + r2 + r3, r4, e4, e4 + 6);
    assert(r4.subrange(0, 6) =~= r4);
    lemma_read_record(wmf, e4, META_EOF, Seq::empty());
}

/// Compositing over white: an opaque channel keeps its value, a fully
/// transparent pixel becomes white.
pub proof fn lemma_blend(c: u8)
    ensures
        blend(c, 255) == c,
        blend(c, 0) == 255,
{
    assert(((c as int) * 255) / 255 == c as int) by (nonlinear_arith);
}

proof fn lemma_dib_header_fields(w: int, h: int, size: int)
    requires
        0 <= w < 0x1_0000_0000,
        0 <= h < 0x1_0000_0000,
        0 <= size < 0x1_0000_0000,
    ensures
        ({
            let hd = dib_header(w, h, size);
            &&& hd.len() == 40
            &&& read_le32(hd, 0) == 40
            &&& read_le32(hd, 4) == w
            &&& read_le32(hd, 8) == h
            &&& read_le16(hd, 12) == 1
            &&& read_le16(hd, 14) == 24
            &&& read_le32(hd, 16) == 0
            &&& read_le32(hd, 20) == size
            &&& read_le32(hd, 24) == 2835
            &&& read_le32(hd, 28) == 2835
            &&& read_le32(hd, 32) == 0
            &&& read_le32(hd, 36) == 0
        }),
{
    lemma_read_le32(2835);
    lemma_read_le32(40);
    lemma_read_le32(w);
    lemma_read_le32(h);
    lemma_read_le16(1);
    lemma_read_le16(24);
    lemma_read_le32(0);
    lemma_read_le32(size);
}

/// The DIB's header declares 40 header bytes, the image's width, a positive
/// height (the rows are stored bottom up), one plane, 24 bits a pixel, no
/// compression, an image size of `stride * height` bytes, where the stride
/// is the row length rounded up to a multiple of four, 72 dpi (2835 pixels
/// a metre) both ways, and no colour table (no colours used, none
/// important), so the pixel array follows the header at byte 40.
pub proof fn lemma_dib_header(rgba: Seq<u8>, width: u32, height: u32)
    requires
        image_fits(width as int, height as int),
    ensures
        ({
            let dib = dib_bytes(rgba, width as int, height as int);
            let stride = dib_stride(width as int);
            &&& stride % 4 == 0
            &&& 3 * width <= stride < 3 * width + 4
            &&& dib.len() == 40 + stride * height
            &&& read_le32(dib, 0) == 40
            &&& read_le32(dib, 4) == width
            &&& read_le32(dib, 8) == height
            &&& read_le16(dib, 12) == 1
            &&& read_le16(dib, 14) == 24
            &&& read_le32(dib, 16) == 0
            &&& read_le32(dib, 20) == stride * height
            &&& read_le32(dib, 24) == 2835
            &&& read_le32(dib, 28) == 2835
            &&& read_le32(dib, 32) == 0
            &&& read_le32(dib, 36) == 0
        }),
{
    let w = width as int;
    let h = height as int;
    lemma_params_len(rgba, w, h);
    let stride = dib_stride(w);
    let hd = dib_header(w, h, stride * h);
    let bits = dib_bits(rgba, w, h);
    lemma_dib_header_fields(w, h, stride * h);
    let dib = dib_bytes(rgba, w, h);
    lemma_sub_left(hd, bits, 0, 40);
    assert(hd.subrange(0, 40) =~= hd);
    assert forall|k: int| 0 <= k < 40 implies dib[k] == hd[k] by {
        assert(dib.subrange(0, 40)[k] == hd[k]);
    }
}

/// Pixel (x, y) of the image, y counted from the top, is stored in row
/// `height - 1 - y` of the DIB, as blue, green, red, each composited over
/// white with the pixel's alpha.
pub proof fn lemma_dib_pixel(rgba: Seq<u8>, width: u32, height: u32, x: int, y: int)
    requires
        image_fits(width as int, height as int),
        rgba.len() >= 4 * width * height,
        0 <= x < width,
        0 <= y < height,
    ensures
        ({
            let dib = dib_bytes(rgba, width as int, height as int);
            let at = 40 + (height - 1 - y) * dib_stride(width as int) + 3 * x;
            let s = 4 * (y * width + x);
            &&& dib[at] == blend(rgba[s + 2], rgba[s + 3])
            &&& dib[at + 1] == blend(rgba[s + 1], rgba[s + 3])
            &&& dib[at + 2] == blend(rgba[s], rgba[s + 3])
        }),
{
    let w = width as int;
    let h = height as int;
    lemma_params_len(rgba, w, h);
    lemma_stride_bounds(w);
    let stride = dib_stride(w);
    let row = h - 1 - y;
    let hd = dib_header(w, h, stride * h);
    assert(hd.len() == 40);
    let bits = dib_bits(rgba, w, h);
    assert((row + 1) * stride <= h * stride) by (nonlinear_arith)
        requires
            0 <= row < h,
            0 <= stride,
    ;
    assert(h * stride == stride * h) by (nonlinear_arith);
    assert((row + 1) * stride == row * stride + stride) by (nonlinear_arith);
    assert(0 <= row * stride) by (nonlinear_arith)
        requires
            0 <= row,
            0 <= stride,
    ;
    let i0 = row * stride + 3 * x;
    vstd::arithmetic::div_mod::lemma_fundamental_div_mod_converse(i0, stride, row, 3 * x);
    vstd::arithmetic::div_mod::lemma_fundamental_div_mod_converse(i0 + 1, stride, row, 3 * x + 1);
    vstd::arithmetic::div_mod::lemma_fundamental_div_mod_converse(i0 + 2, stride, row, 3 * x + 2);
    assert(bits[i0] == dib_pixel_byte(rgba, w, h, row, 3 * x));
    assert(bits[i0 + 1] == dib_pixel_byte(rgba, w, h, row, 3 * x + 1));
    assert(bits[i0 + 2] == dib_pixel_byte(rgba, w, h, row, 3 * x + 2));
    assert((3 * x) / 3 == x && (3 * x + 1) / 3 == x && (3 * x + 2) / 3 == x);
}

/// The presentation stream is a 40-byte header followed by the metafile
/// itself: marker 0xFFFFFFFF, clipboard format CF_METAFILEPICT (3), target
/// device size 4, aspect 1, lindex 0xFFFFFFFF, the extent in HWPUNIT, and
/// the metafile's length.
pub proof fn lemma_presentation_layout(wmf: Seq<u8>, width_hu: u32, height_hu: u32)
    requires
        wmf.len() < 0x1_0000_0000,
    ensures
        ({
            let pres = presentation_bytes(wmf, width_hu as int, height_hu as int);
            &&& pres.len() == 40 + wmf.len()
            &&& read_le32(pres, 0) == 0xFFFF_FFFF
            &&& read_le32(pres, 4) == 3
            &&& read_le32(pres, 8) == 4
            &&& read_le32(pres, 12) == 1
            &&& read_le32(pres, 16) == 0xFFFF_FFFF
            &&& read_le32(pres, 28) == width_hu
            &&& read_le32(pres, 32) == height_hu
            &&& read_le32(pres, 36) == wmf.len()
            &&& pres.subrange(40, pres.len() as int) == wmf
        }),
{
    lemma_read_le32(0xFFFF_FFFF);
    lemma_read_le32(3);
    lemma_read_le32(4);
    lemma_read_le32(1);
    lemma_read_le32(0);
    lemma_read_le32(width_hu as int);
    lemma_read_le32(height_hu as int);
    lemma_read_le32(wmf.len() as int);
    let pres = presentation_bytes(wmf, width_hu as int, height_hu as int);
    assert(pres.subrange(40, pres.len() as int) =~= wmf);
}

/// Only the first `4 * width * height` bytes of the pixel buffer are read:
/// two buffers that agree on them give the same DIB and the same metafile,
/// whatever follows.
pub proof fn lemma_reads_only_image_bytes(a: Seq<u8>, b: Seq<u8>, width: u32, height: u32)
    requires
        a.len() >= 4 * width * height,
        b.len() >= 4 * width * height,
        a.subrange(0, 4 * width * height) == b.subrange(0, 4 * width * height),
    ensures
        dib_bytes(a, width as int, height as int) == dib_bytes(b, width as int, height as int),
        wmf_bytes(a, width as int, height as int) == wmf_bytes(b, width as int, height as int),
{
    let w = width as int;
    let h = height as int;
    let n = 4 * w * h;
    let stride = dib_stride(w);
    lemma_stride_bounds(w);
    assert forall|i: int| 0 <= i < stride * h implies #[trigger] dib_pixel_byte(a, w, h, i / stride, i % stride)
        == dib_pixel_byte(b, w, h, i / stride, i % stride) by {
        assert(stride > 0) by (nonlinear_arith)
            requires
                0 <= i < stride * h,
                0 <= h,
                0 <= stride,
        ;
        let row = i / stride;
        let col = i % stride;
        vstd::arithmetic::div_mod::lemma_fundamental_div_mod(i, stride);
        assert(0 <= row < h) by (nonlinear_arith)
            requires
                i == stride * row + col,
                0 <= col < stride,
                0 <= i < stride * h,
                stride > 0,
        ;
        if col < 3 * w {
            let y = h - 1 - row;
            let x = col / 3;
            assert(y * w + x < h * w) by (nonlinear_arith)
                requires
                    0 <= y < h,
                    0 <= x < w,
            ;
            assert(h * w == w * h) by (nonlinear_arith);
            let s = 4 * (y * w + x);
            let k1 = s + 2 - col % 3;
            let k2 = s + 3;
            assert(0 <= y * w + x) by (nonlinear_arith)
                requires
                    0 <= y,
                    0 <= x,
                    0 <= w,
            ;
            assert(n == 4 * (w * h)) by (nonlinear_arith)
                requires
                    n == 4 * w * h,
            ;
            assert(0 <= k1 < n && 0 <= k2 < n);
            assert(a.subrange(0, n)[k1] == b.subrange(0, n)[k1]);
            assert(a.subrange(0, n)[k2] == b.subrange(0, n)[k2]);
        }
    }
    assert(dib_bits(a, w, h) =~= dib_bits(b, w, h));
}

/// A 16-bit field reads back as its value modulo 2^16.
proof fn lemma_le16_value(x: int)
    requires
        0 <= x,
    ensures
        read_le16(le16(x), 0) == x % 0x10000,
{
    reveal(le16);
    vstd::arithmetic::div_mod::lemma_mod_breakdown(x, 256, 256);
}

/// The metafile draws the whole image into the whole window, unstretched:
/// SetWindowExt declares the window as the image's height and width (bytes
/// 34 and 36); the bitmap record copies (SRCCOPY, RGB colours, bytes 44 and
/// 48) a source rectangle of the image's height and width at (0, 0) (bytes
/// 50 to 57) onto a destination rectangle of the same height and width at
/// (0, 0) (bytes 58 to 65); and the DIB of the image follows at byte 66.
/// Heights and widths are 16-bit fields.
pub proof fn lemma_wmf_draws_whole_image(rgba: Seq<u8>, width: u32, height: u32)
    requires
        image_fits(width as int, height as int),
    ensures
        ({
            let wmf = wmf_bytes(rgba, width as int, height as int);
            let dib = dib_bytes(rgba, width as int, height as int);
            let w16 = width % 0x10000;
            let h16 = height % 0x10000;
            &&& read_le16(wmf, 34) == h16 && read_le16(wmf, 36) == w16
            &&& read_le32(wmf, 44) == SRCCOPY && read_le16(wmf, 48) == DIB_RGB_COLORS
            &&& read_le16(wmf, 50) == h16 && read_le16(wmf, 52) == w16
            &&& read_le16(wmf, 54) == 0 && read_le16(wmf, 56) == 0
            &&& read_le16(wmf, 58) == h16 && read_le16(wmf, 60) == w16
            &&& read_le16(wmf, 62) == 0 && read_le16(wmf, 64) == 0
            &&& wmf.subrange(66, 66 + dib.len() as int) == dib
        }),
{
    let w = width as int;
    let h = height as int;
    lemma_params_len(rgba, w, h);
    let dib = dib_bytes(rgba, w, h);
    let pre = le32(SRCCOPY as int) + le16(DIB_RGB_COLORS as int) + le16(h) + le16(w) + le16(0)
        + le16(0) + le16(h) + le16(w) + le16(0) + le16(0);
    let p = stretch_dib_params(rgba, w, h);
    assert(pre.len() == 22);
    assert(dib.len() == 40 + dib_stride(w) * h);
    assert(p == pre + dib);
    let hd = wmf_header(rgba, w, h);
    let r1 = record_window_org();
    let r2 = record_window_ext(w, h);
    let r3 = record_stretch_dib(rgba, w, h);
    let r4 = record_eof();
    let wmf = wmf_bytes(rgba, w, h);
    lemma_record_fields(META_SETWINDOWORG, seq![0u8, 0u8, 0u8, 0u8]);
    lemma_record_fields(META_SETWINDOWEXT, le16(h) + le16(w));
    lemma_record_fields(META_STRETCHDIB, p);
    assert(hd.len() == 18);
    // the SetWindowExt record at 28
    lemma_sub_left(hd + r1 + r2 + r3, r4, 28, 38);
    lemma_sub_left(hd + r1 + r2, r3, 28, 38);
    lemma_sub_right(hd + r1, r2, 28, 38);
    assert(r2.subrange(0, 10) =~= r2);
    assert(wmf.subrange(28, 38) == r2);
    let rh = le32(5) + le16(META_SETWINDOWEXT as int);
    assert(r2 == rh + (le16(h) + le16(w)));
    assert(wmf[34] == le16(h)[0]) by { assert(wmf.subrange(28, 38)[6] == r2[6]); }
    assert(wmf[35] == le16(h)[1]) by { assert(wmf.subrange(28, 38)[7] == r2[7]); }
    assert(wmf[36] == le16(w)[0]) by { assert(wmf.subrange(28, 38)[8] == r2[8]); }
    assert(wmf[37] == le16(w)[1]) by { assert(wmf.subrange(28, 38)[9] == r2[9]); }
    // the parameters of the bitmap record at 44
    let pl = p.len() as int;
    lemma_sub_left(hd + r1 + r2 + r3, r4, 44, 44 + pl);
    lemma_sub_right(hd + r1 + r2, r3, 44, 44 + pl);
    let r3h = le32(3 + p.len() as int / 2) + le16(META_STRETCHDIB as int);
    assert(r3 == r3h + p);
    lemma_sub_right(r3h, p, 6, 6 + pl);
    assert(p.subrange(0, pl) =~= p);
    let t = wmf.subrange(44, 44 + pl);
    assert(t == pre + dib);
    assert forall|k: int| 0 <= k < 22 implies #[trigger] wmf[44 + k] == pre[k] by {
        assert(t[k] == wmf[44 + k]);
    }
    assert(wmf.subrange(66, 66 + dib.len() as int) =~= dib) by {
        assert forall|k: int| 0 <= k < dib.len() implies #[trigger] wmf.subrange(
            66,
            66 + dib.len() as int,
        )[k] == dib[k] by {
            assert(t[22 + k] == wmf[66 + k]);
        }
    }
    lemma_le16_value(h);
    lemma_le16_value(w);
    lemma_le16_value(0);
    lemma_le16_value(DIB_RGB_COLORS as int);
    lemma_read_le32(SRCCOPY as int);
    reveal(le16);
    reveal(le32);
}

} // verus!
