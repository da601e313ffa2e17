use rhwp::serializer::wmf_writer::{ole_presentation_stream, rgba_to_dib, wmf_from_rgba};

fn solid_rgba(w: u32, h: u32, px: [u8; 4]) -> Vec<u8> {
    px.iter()
        .copied()
        .cycle()
        .take((w * h * 4) as usize)
        .collect()
}

#[test]
fn wmf_header_matches_hancom_signature() {
    let wmf = wmf_from_rgba(&solid_rgba(4, 4, [255, 0, 0, 255]), 4, 4);
    assert_eq!(&wmf[..6], &[0x01, 0x00, 0x09, 0x00, 0x00, 0x03]);
}

#[test]
fn dib_is_bottom_up_with_padded_stride() {
    let dib = rgba_to_dib(&solid_rgba(3, 2, [10, 20, 30, 255]), 3, 2);
    let width = i32::from_le_bytes(dib[4..8].try_into().unwrap());
    let height = i32::from_le_bytes(dib[8..12].try_into().unwrap());
    let size_image = u32::from_le_bytes(dib[20..24].try_into().unwrap());
    assert_eq!(width, 3);
    assert_eq!(height, 2, "a bottom-up DIB has a positive height");
    assert_eq!(size_image, 12 * 2, "stride 12 bytes, two rows");
    assert_eq!(&dib[40..43], &[30, 20, 10]);
}

#[test]
fn alpha_composites_onto_white() {
    let dib = rgba_to_dib(&solid_rgba(1, 1, [0, 0, 0, 0]), 1, 1);
    assert_eq!(&dib[40..43], &[255, 255, 255]);
}

#[test]
fn presentation_stream_declares_metafilepict() {
    let wmf = wmf_from_rgba(&solid_rgba(2, 2, [0, 0, 255, 255]), 2, 2);
    let pres = ole_presentation_stream(&wmf, 432, 252);
    assert_eq!(&pres[0..4], &0xFFFF_FFFFu32.to_le_bytes());
    assert_eq!(&pres[4..8], &3u32.to_le_bytes(), "CF_METAFILEPICT");
    assert_eq!(&pres[36..40], &(wmf.len() as u32).to_le_bytes());
    assert_eq!(&pres[40..], &wmf[..]);
}

#[test]
fn stride_and_size_match_measured_spike() {
    let (w, h) = (288u32, 167u32);
    let rgba = vec![255u8; (w * h * 4) as usize];
    let wmf = wmf_from_rgba(&rgba, w, h);
    let stride = (((w * 24) + 31) / 32) * 4;
    assert_eq!(stride, 864);
    assert_eq!(stride * h, 144_288);
    let expected = 18 + 10 + 10 + (6 + 22 + 40 + 144_288) + 6;
    assert_eq!(wmf.len(), expected, "same layout as the measured 144,400-byte metafile");
}

#[test]
fn header_declares_correct_word_counts() {
    let (w, h) = (16u32, 8u32);
    let wmf = wmf_from_rgba(&vec![0u8; (w * h * 4) as usize], w, h);
    let total_words = u32::from_le_bytes(wmf[6..10].try_into().unwrap());
    assert_eq!(total_words as usize, wmf.len() / 2, "mtSize = total words");
    let max_rec = u32::from_le_bytes(wmf[12..16].try_into().unwrap());
    let stride = (((w * 24) + 31) / 32) * 4;
    let dib_rec_bytes = 6 + 22 + 40 + stride * h;
    assert_eq!(max_rec, dib_rec_bytes / 2, "mtMaxRecord = largest record in words");
}

#[test]
fn records_are_in_playback_order() {
    let wmf = wmf_from_rgba(&vec![255u8; 4 * 4 * 4], 4, 4);
    let mut off = 18usize;
    let mut funcs = Vec::new();
    while off + 6 <= wmf.len() {
        let size = u32::from_le_bytes(wmf[off..off + 4].try_into().unwrap()) as usize;
        let func = u16::from_le_bytes(wmf[off + 4..off + 6].try_into().unwrap());
        funcs.push(func);
        if size == 0 {
            break;
        }
        off += size * 2;
    }
    assert_eq!(funcs, vec![0x020B, 0x020C, 0x0F43, 0x0000]);
}

#[test]
fn presentation_stream_header_is_40_bytes() {
    let wmf = wmf_from_rgba(&vec![0u8; 2 * 2 * 4], 2, 2);
    let pres = ole_presentation_stream(&wmf, 432, 252);
    assert_eq!(pres.len(), 40 + wmf.len());
    assert_eq!(&pres[0..4], &[0xFF, 0xFF, 0xFF, 0xFF]);
    assert_eq!(&pres[4..8], &[0x03, 0x00, 0x00, 0x00]);
    assert_eq!(&pres[8..12], &[0x04, 0x00, 0x00, 0x00]);
    assert_eq!(&pres[12..16], &[0x01, 0x00, 0x00, 0x00]);
    assert_eq!(&pres[16..20], &[0xFF, 0xFF, 0xFF, 0xFF]);
    assert_eq!(u32::from_le_bytes(pres[28..32].try_into().unwrap()), 432);
    assert_eq!(u32::from_le_bytes(pres[32..36].try_into().unwrap()), 252);
}

#[test]
fn own_parser_accepts_generated_wmf() {
    let (w, h) = (8u32, 6u32);
    let mut rgba = vec![0u8; (w * h * 4) as usize];
    for (i, px) in rgba.chunks_mut(4).enumerate() {
        px.copy_from_slice(&[(i * 7) as u8, (i * 3) as u8, (i * 11) as u8, 255]);
    }
    let wmf = wmf_from_rgba(&rgba, w, h);
    assert_eq!(u16::from_le_bytes(wmf[0..2].try_into().unwrap()), 1, "mtType");
    assert_eq!(u16::from_le_bytes(wmf[2..4].try_into().unwrap()), 9, "mtHeaderSize");
    assert_eq!(u16::from_le_bytes(wmf[4..6].try_into().unwrap()), 0x0300, "mtVersion");
    let off = 18 + 10 + 10 + 6 + 22;
    let bih_size = u32::from_le_bytes(wmf[off..off + 4].try_into().unwrap());
    let bi_w = i32::from_le_bytes(wmf[off + 4..off + 8].try_into().unwrap());
    let bi_h = i32::from_le_bytes(wmf[off + 8..off + 12].try_into().unwrap());
    let bpp = u16::from_le_bytes(wmf[off + 14..off + 16].try_into().unwrap());
    assert_eq!(bih_size, 40);
    assert_eq!(bi_w, w as i32);
    assert_eq!(bi_h, h as i32);
    assert_eq!(bpp, 24);
}

#[test]
fn opaque_pixels_keep_their_colour() {
    let dib = rgba_to_dib(&solid_rgba(1, 1, [12, 34, 56, 255]), 1, 1);
    assert_eq!(&dib[40..44], &[56, 34, 12, 0], "BGR then one padding byte");
}

#[test]
fn half_transparent_pixels_blend_with_white() {
    let dib = rgba_to_dib(&solid_rgba(1, 1, [0, 100, 255, 128]), 1, 1);
    // (c * a + 255 * (255 - a)) / 255
    assert_eq!(&dib[40..43], &[255, 177, 127]);
}

#[test]
fn rows_are_stored_bottom_up() {
    let mut rgba = solid_rgba(2, 2, [0, 0, 0, 255]);
    rgba[0..4].copy_from_slice(&[255, 0, 0, 255]);
    let dib = rgba_to_dib(&rgba, 2, 2);
    // stride 8; the top-left pixel is the first pixel of the last stored row
    assert_eq!(&dib[40 + 8..40 + 11], &[0, 0, 255]);
    assert_eq!(&dib[40..43], &[0, 0, 0]);
}

#[test]
fn bytes_past_the_image_are_not_read() {
    let px = solid_rgba(3, 2, [10, 20, 30, 128]);
    let mut longer = px.clone();
    longer.extend_from_slice(&[1, 2, 3, 4, 5]);
    assert_eq!(wmf_from_rgba(&longer, 3, 2), wmf_from_rgba(&px, 3, 2));
    assert_eq!(rgba_to_dib(&longer, 3, 2), rgba_to_dib(&px, 3, 2));
}
