use arachne::asset::image::{Image, PngColor};

fn make_test_png(width: u32, height: u32, r: u8, g: u8, b: u8) -> Vec<u8> {
    let img = Image::solid(width, height, [r, g, b, 255]);
    img.encode_png().unwrap()
}

#[test]
fn decode_png_rgba() {
    let png_data = make_test_png(4, 4, 255, 0, 128);
    let img = Image::decode_png(&png_data).unwrap();
    assert_eq!(img.width, 4);
    assert_eq!(img.height, 4);
    assert_eq!(img.pixel(0, 0), [255, 0, 128, 255]);
    assert_eq!(img.pixel(3, 3), [255, 0, 128, 255]);
}

#[test]
fn decode_png_dimensions_and_pixels() {
    let width = 16;
    let height = 8;
    let mut data = Vec::with_capacity((width * height * 4) as usize);
    for y in 0..height {
        for x in 0..width {
            data.push((x * 16) as u8);
            data.push((y * 32) as u8);
            data.push(128);
            data.push(255);
        }
    }
    let img = Image::new(width, height, data);
    let png_bytes = img.encode_png().unwrap();
    let decoded = Image::decode_png(&png_bytes).unwrap();

    assert_eq!(decoded.width, width);
    assert_eq!(decoded.height, height);
    assert_eq!(decoded.pixel(0, 0), [0, 0, 128, 255]);
    assert_eq!(decoded.pixel(15, 0), [240, 0, 128, 255]);
    assert_eq!(decoded.pixel(0, 7), [0, 224, 128, 255]);
}

#[test]
fn solid_image_layout() {
    let img = Image::solid(2, 3, [1, 2, 3, 4]);
    assert_eq!(img.size_bytes(), 24);
    assert_eq!(img.data, vec![1, 2, 3, 4, 1, 2, 3, 4, 1, 2, 3, 4, 1, 2, 3, 4, 1, 2, 3, 4, 1, 2, 3, 4]);
    assert_eq!(img.pixel(1, 2), [1, 2, 3, 4]);
}

#[test]
fn png_frames_convert_to_rgba() {
    let rgb = Image::from_png_frame(2, 1, PngColor::Rgb, &[1, 2, 3, 4, 5, 6, 7]).unwrap();
    assert_eq!(rgb.data, vec![1, 2, 3, 255, 4, 5, 6, 255]);
    let gray = Image::from_png_frame(2, 1, PngColor::Grayscale, &[9, 8]).unwrap();
    assert_eq!(gray.data, vec![9, 9, 9, 255, 8, 8, 8, 255]);
    let ga = Image::from_png_frame(1, 1, PngColor::GrayscaleAlpha, &[7, 100, 3]).unwrap();
    assert_eq!(ga.data, vec![7, 7, 7, 100]);
    let rgba = Image::from_png_frame(1, 1, PngColor::Rgba, &[1, 2, 3, 4]).unwrap();
    assert_eq!(rgba.data, vec![1, 2, 3, 4]);
    let indexed = Image::from_png_frame(1, 1, PngColor::Indexed, &[0]);
    assert_eq!(indexed.err().unwrap(), "indexed PNG not supported; convert to RGBA first");
}

#[test]
fn decode_png_rejects_garbage() {
    let err = Image::decode_png(b"not a png").err().unwrap();
    assert!(err.starts_with("PNG header: "), "unexpected error: {}", err);
}

#[test]
fn encode_png_rejects_wrong_length() {
    let img = Image { width: 2, height: 2, data: vec![0; 3] };
    let err = img.encode_png().err().unwrap();
    assert!(err.starts_with("PNG encode data: "), "unexpected error: {}", err);
}
