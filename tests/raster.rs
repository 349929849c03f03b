use raytracer::raster::{pixel_position, rgb_bytes, TexelImage};

#[test]
fn pixel_positions_count_rows_from_the_bottom() {
    assert_eq!(pixel_position(0, 4, 3), (0, 2));
    assert_eq!(pixel_position(5, 4, 3), (1, 1));
    assert_eq!(pixel_position(11, 4, 3), (3, 0));
}

#[test]
fn texel_reads_and_clamps() {
    let data: Vec<u8> = (0..2 * 3 * 3).map(|b| b as u8).collect();
    let img = TexelImage::new(2, 3, data).unwrap();
    assert_eq!(img.texel(0, 0), [0, 1, 2]);
    assert_eq!(img.texel(1, 0), [3, 4, 5]);
    assert_eq!(img.texel(0, 1), [6, 7, 8]);
    assert_eq!(img.texel(1, 2), [15, 16, 17]);
    assert_eq!(img.texel(2, 0), [3, 4, 5]);
    assert_eq!(img.texel(9, 9), [15, 16, 17]);
}

#[test]
fn texel_image_needs_matching_data() {
    assert!(TexelImage::new(0, 3, Vec::new()).is_none());
    assert!(TexelImage::new(2, 0, Vec::new()).is_none());
    assert!(TexelImage::new(2, 2, vec![0; 11]).is_none());
    assert!(TexelImage::new(2, 2, vec![0; 13]).is_none());
    assert!(TexelImage::new(2, 2, vec![0; 12]).is_some());
}

#[test]
fn pixels_are_laid_out_three_bytes_each() {
    let out = rgb_bytes(&vec![[1, 2, 3], [4, 5, 6]]);
    assert_eq!(out, vec![1, 2, 3, 4, 5, 6]);
    assert!(rgb_bytes(&Vec::new()).is_empty());
}
