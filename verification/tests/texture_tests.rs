use std::io::Cursor;
use voxel_engine::render::texture::{
    assemble_layers, checkerboard, texture_array_layers, texture_layers, TextureLoadError,
};

fn png(width: u32, height: u32, shade: u8) -> Vec<u8> {
    let img = image::RgbaImage::from_pixel(width, height, image::Rgba([shade, shade, shade, 255]));
    let mut bytes: Vec<u8> = Vec::new();
    image::DynamicImage::ImageRgba8(img).write_to(&mut Cursor::new(&mut bytes), image::ImageFormat::Png).unwrap();
    bytes
}

#[test]
fn assemble_takes_the_first_nonzero_width_and_concatenates() {
    let r = assemble_layers(vec![(0, 0, vec![]), (2, 1, vec![1, 2, 3, 4, 5, 6, 7, 8]), (2, 1, vec![9; 8])]);
    let (w, px) = r.unwrap();
    assert_eq!(w, 2);
    assert_eq!(px.len(), 16);
    assert_eq!(&px[..8], &[1, 2, 3, 4, 5, 6, 7, 8]);
    assert_eq!(&px[8..], &[9; 8]);
}

#[test]
fn assemble_reports_the_first_width_mismatch() {
    let r = assemble_layers(vec![(4, 4, vec![0; 64]), (4, 4, vec![0; 64]), (2, 2, vec![0; 16]), (8, 8, vec![])]);
    assert_eq!(r, Err(TextureLoadError::WidthMismatch(4)));
}

#[test]
fn assemble_of_nothing_is_an_error() {
    assert_eq!(assemble_layers(vec![]), Err(TextureLoadError::NoTextures));
}

#[test]
fn texture_layers_decodes_png_files_in_order() {
    let files = vec![png(2, 2, 10), png(2, 2, 200)];
    let (w, px) = texture_layers(&files).unwrap();
    assert_eq!(w, 2);
    assert_eq!(px.len(), 2 * 2 * 4 * 2);
    assert_eq!(&px[0..4], &[10, 10, 10, 255]);
    assert_eq!(&px[16..20], &[200, 200, 200, 255]);
}

#[test]
fn texture_layers_names_the_file_that_does_not_decode() {
    let files = vec![png(2, 2, 1), b"not an image".to_vec(), png(2, 2, 3)];
    assert_eq!(texture_layers(&files), Err(TextureLoadError::DecodeFailed(1)));
}

#[test]
fn texture_layers_reports_a_mismatch_before_a_later_bad_file() {
    let files = vec![png(2, 2, 1), png(4, 4, 2), b"junk".to_vec()];
    assert_eq!(texture_layers(&files), Err(TextureLoadError::WidthMismatch(2)));
}

#[test]
fn texture_layers_of_no_files_is_an_error() {
    assert_eq!(texture_layers(&vec![]), Err(TextureLoadError::NoTextures));
}

#[test]
fn checkerboard_alternates_magenta_and_black() {
    let c = checkerboard(2);
    assert_eq!(c, vec![255, 0, 255, 255, 0, 0, 0, 255, 0, 0, 0, 255, 255, 0, 255, 255]);
    assert!(checkerboard(0).is_empty());
}

#[test]
fn missing_texture_is_layer_zero_of_the_array() {
    let files = vec![png(2, 2, 7)];
    let (w, px) = texture_array_layers(&files).unwrap();
    assert_eq!(w, 2);
    assert_eq!(&px[..16], checkerboard(2).as_slice());
    assert_eq!(&px[16..20], &[7, 7, 7, 255]);
    assert_eq!(px.len(), 32);
}
