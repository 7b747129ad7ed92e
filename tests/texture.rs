use raytrace::texture::ImageTexture;

#[test]
fn empty_texture_has_no_texels() {
    let t = ImageTexture::new();
    assert_eq!(t.texel(0, 0), None);
}

#[test]
fn undecoded_image_gives_marker() {
    let t = ImageTexture::from_decoded(None);
    assert_eq!((t.width, t.height, t.depth), (1, 1, 3));
    assert_eq!(t.texel(0, 0), Some((255, 0, 0)));
    assert_eq!(t.texel(5, 9), Some((255, 0, 0)));
}

#[test]
fn short_image_gives_marker() {
    let t = ImageTexture::from_decoded(Some((vec![1, 2, 3], 2, 2, 3)));
    assert_eq!(t.data, vec![255, 0, 0]);
}

#[test]
fn texels_are_read_by_row_and_column() {
    // 2 x 2 pixels, 3 bytes each.
    let data: Vec<u8> = (0..12).collect();
    let t = ImageTexture::from_decoded(Some((data, 2, 2, 3)));
    assert_eq!(t.bytes_per_scanline, 6);
    assert_eq!(t.texel(0, 0), Some((0, 1, 2)));
    assert_eq!(t.texel(1, 0), Some((3, 4, 5)));
    assert_eq!(t.texel(0, 1), Some((6, 7, 8)));
    assert_eq!(t.texel(1, 1), Some((9, 10, 11)));
    // Past the edge: the last column and row.
    assert_eq!(t.texel(2, 2), Some((9, 10, 11)));
    assert_eq!(t.texel(usize::MAX, 0), Some((3, 4, 5)));
}

#[test]
fn grey_image_reads_past_its_pixel_where_bytes_remain() {
    let t = ImageTexture::from_decoded(Some((vec![10, 20, 30, 40], 2, 2, 1)));
    assert_eq!(t.texel(0, 0), Some((10, 20, 30)));
    assert_eq!(t.texel(1, 0), Some((20, 30, 40)));
    assert_eq!(t.texel(1, 1), None);
}
