use hwboard::paste::decode_pasted_image;

fn le32(v: u32) -> [u8; 4] {
    v.to_le_bytes()
}

/// A 24-bit uncompressed BMP, bottom-up rows; `pixels` are (b, g, r) of the
/// bottom row first.
fn bmp(width: u32, height: u32, pixels: &[(u8, u8, u8)]) -> Vec<u8> {
    let row_bytes: u32 = (3 * width + 3) / 4 * 4;
    let data_size: u32 = row_bytes * height;
    let mut out = Vec::new();
    out.extend_from_slice(b"BM");
    out.extend_from_slice(&le32(54 + data_size));
    out.extend_from_slice(&[0, 0, 0, 0]);
    out.extend_from_slice(&le32(54));
    out.extend_from_slice(&le32(40));
    out.extend_from_slice(&le32(width));
    out.extend_from_slice(&le32(height));
    out.extend_from_slice(&1u16.to_le_bytes());
    out.extend_from_slice(&24u16.to_le_bytes());
    out.extend_from_slice(&le32(0));
    out.extend_from_slice(&le32(data_size));
    out.extend_from_slice(&le32(2835));
    out.extend_from_slice(&le32(2835));
    out.extend_from_slice(&le32(0));
    out.extend_from_slice(&le32(0));
    for y in 0..height {
        let mut row = Vec::new();
        for x in 0..width {
            let px: (u8, u8, u8) = pixels[(y * width + x) as usize];
            row.extend_from_slice(&[px.0, px.1, px.2]);
        }
        row.resize(row_bytes as usize, 0);
        out.extend_from_slice(&row);
    }
    out
}

#[test]
fn bmp_decodes_to_rgba() {
    let bytes = bmp(2, 1, &[(0x10, 0x20, 0x30), (0x40, 0x50, 0x60)]);
    let img = decode_pasted_image(&bytes).expect("a valid bmp");
    assert_eq!((img.width, img.height), (2, 1));
    assert_eq!(img.rgba, vec![0x30, 0x20, 0x10, 0xff, 0x60, 0x50, 0x40, 0xff]);
}

#[test]
fn bottom_up_rows_come_out_top_first() {
    let bytes = bmp(1, 2, &[(1, 2, 3), (4, 5, 6)]);
    let img = decode_pasted_image(&bytes).expect("a valid bmp");
    assert_eq!((img.width, img.height), (1, 2));
    assert_eq!(img.rgba, vec![6, 5, 4, 0xff, 3, 2, 1, 0xff]);
}

#[test]
fn non_image_bytes_decode_to_nothing() {
    assert!(decode_pasted_image(b"hello, whiteboard").is_none());
    assert!(decode_pasted_image(&[]).is_none());
}
