use arachne::asset::atlas::{pack_atlas_layout, pack_positions, AtlasError};
use arachne::asset::image::Image;

#[test]
fn atlas_pack_10_images_no_overlap() {
    let images: Vec<Image> = (0..10)
        .map(|i| {
            let w = 30 + (i as u32 % 5) * 10;
            let h = 20 + (i as u32 % 4) * 10;
            let c = (i as u8 * 25) + 10;
            Image::solid(w, h, [c, 255 - c, c / 2, 255])
        })
        .collect();

    let (atlas, pos) = pack_atlas_layout(&images, 512, 512).unwrap();
    assert_eq!(pos.len(), 10);
    assert_eq!(atlas.width, 512);
    assert_eq!(atlas.height, 512);

    for i in 0..pos.len() {
        let (ax, ay) = pos[i];
        assert!(ax + images[i].width <= 512 && ay + images[i].height <= 512);
        for j in (i + 1)..pos.len() {
            let (bx, by) = pos[j];
            let no_overlap = ax + images[i].width <= bx
                || bx + images[j].width <= ax
                || ay + images[i].height <= by
                || by + images[j].height <= ay;
            assert!(no_overlap, "overlap between {} and {}", i, j);
        }
    }

    for (idx, img) in images.iter().enumerate() {
        let (x, y) = pos[idx];
        assert_eq!(atlas.pixel(x, y), img.pixel(0, 0), "image {} pixel mismatch", idx);
    }
}

#[test]
fn atlas_pack_100_sprites_low_waste() {
    let images: Vec<Image> = (0..100)
        .map(|i| {
            let c = (i as u8).wrapping_mul(7);
            Image::solid(204, 204, [c, c, c, 255])
        })
        .collect();

    let (atlas, pos) = pack_atlas_layout(&images, 2048, 2048).unwrap();
    assert_eq!(pos.len(), 100);
    let total_pixels = (atlas.width as u64) * (atlas.height as u64);
    let used_pixels: u64 = images.iter().map(|r| (r.width as u64) * (r.height as u64)).sum();
    // 100 * 204 * 204 = 4_161_600 of 4_194_304 pixels: under 5% unused.
    assert!((total_pixels - used_pixels) * 100 < 5 * total_pixels);
}

#[test]
fn atlas_shelves_tallest_first() {
    let images = vec![
        Image::solid(4, 2, [1, 1, 1, 1]),
        Image::solid(4, 6, [2, 2, 2, 2]),
        Image::solid(4, 3, [3, 3, 3, 3]),
    ];
    // Order by height: 1 (6), 2 (3), 0 (2). Width 10 fits two per shelf.
    let pos = pack_positions(&images, 10, 20).unwrap();
    assert_eq!(pos, vec![(0, 6), (0, 0), (4, 0)]);
}

#[test]
fn atlas_errors() {
    let images = vec![Image::solid(11, 1, [0, 0, 0, 0])];
    assert_eq!(pack_positions(&images, 10, 10).err(), Some(AtlasError::TooLarge(0)));
    let images = vec![Image::solid(6, 6, [0; 4]), Image::solid(6, 6, [0; 4])];
    assert_eq!(pack_positions(&images, 10, 10).err(), Some(AtlasError::Overflow(1, 6)));
}

#[test]
fn atlas_uncovered_pixels_are_zero() {
    let images = vec![Image::solid(1, 1, [9, 9, 9, 9])];
    let (atlas, pos) = pack_atlas_layout(&images, 2, 2).unwrap();
    assert_eq!(pos, vec![(0, 0)]);
    assert_eq!(atlas.data, vec![9, 9, 9, 9, 0, 0, 0, 0, 0, 0, 0, 0, 0, 0, 0, 0]);
}
