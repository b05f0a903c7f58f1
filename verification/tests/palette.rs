use image::{DynamicImage, GrayImage, Luma, Rgba, RgbaImage};
use wizctl::colors::rgb_to_hex;
use wizctl::palette::{
    check_palette_size, dominant_colors, file_label, fit, image_info, is_supported_image, median_cut,
    shrink_to_rgba,
};

/// Row-major RGBA bytes of a `width` x `height` image drawn by `pixel`.
fn raster(width: u32, height: u32, pixel: impl Fn(u32, u32) -> [u8; 4]) -> Vec<u8> {
    let mut raw = Vec::new();
    for y in 0..height {
        for x in 0..width {
            raw.extend_from_slice(&pixel(x, y));
        }
    }
    raw
}

fn share(count: usize, total: usize) -> f64 {
    count as f64 * 100.0 / total as f64
}

#[test]
fn rejects_non_image_extensions() {
    assert!(!is_supported_image("foo.txt"));
    assert!(!is_supported_image("foo"));
    assert!(is_supported_image("foo.JPG"));
    assert!(is_supported_image("foo.webp"));
}

#[test]
fn supported_extensions() {
    for name in ["a.png", "b.JPG", "c.jpeg", "d.webp", "e.gif", "f.bmp", "g.tif", "h.TIFF"] {
        assert!(is_supported_image(name), "{name}");
    }
    for name in ["a.txt", "b.svg", "c", "d.png.gz", "pngfile"] {
        assert!(!is_supported_image(name), "{name}");
    }
}

#[test]
fn extension_is_read_from_the_file_name_only() {
    assert!(is_supported_image("/home/me/photos.d/cat.png"));
    assert!(!is_supported_image("/home/me/photos.png/cat"));
    assert!(!is_supported_image(".png"));
    assert!(is_supported_image("dir/x.png/"));
}

#[test]
fn rejects_palette_size_out_of_range() {
    for colors in [0, 17, 64] {
        assert_eq!(
            check_palette_size(colors),
            Err("palette size must be between 1 and 16".to_string()),
            "colors={colors} should be rejected"
        );
    }
    assert!(check_palette_size(1).is_ok());
    assert!(check_palette_size(16).is_ok());
}

#[test]
fn solid_color_yields_one_dominant_color() {
    let raw = raster(40, 40, |_, _| [12, 200, 90, 255]);
    let palette = dominant_colors(&raw, 6).expect("palette");
    let (rgb, pixels) = palette[0];
    assert_eq!(rgb_to_hex(rgb[0], rgb[1], rgb[2]), "#0cc85a");
    assert!((share(pixels, 1600) - 100.0).abs() < 0.01, "expected ~100%, got {}", share(pixels, 1600));
    assert_eq!(pixels, 1600);
    // Median cut cannot split a zero-spread bucket, so only one color exists.
    assert_eq!(palette.len(), 1);
}

#[test]
fn three_quarters_red_one_quarter_blue() {
    // 64 wide: first 48 columns red, last 16 blue -> 75% / 25%.
    let raw = raster(64, 16, |x, _| if x < 48 { [255, 0, 0, 255] } else { [0, 0, 255, 255] });
    let palette = dominant_colors(&raw, 4).expect("palette");
    let visible: usize = palette.iter().map(|(_, n)| n).sum();
    assert_eq!(palette.len(), 2);
    assert_eq!(rgb_to_hex(palette[0].0[0], palette[0].0[1], palette[0].0[2]), "#ff0000");
    assert_eq!(rgb_to_hex(palette[1].0[0], palette[1].0[1], palette[1].0[2]), "#0000ff");
    assert!((share(palette[0].1, visible) - 75.0).abs() < 1.0, "red was {}", share(palette[0].1, visible));
    assert!((share(palette[1].1, visible) - 25.0).abs() < 1.0, "blue was {}", share(palette[1].1, visible));
}

#[test]
fn transparent_pixels_are_ignored() {
    // Top half fully transparent black, bottom half opaque green.
    let raw = raster(32, 32, |_, y| if y < 16 { [0, 0, 0, 0] } else { [0, 128, 0, 255] });
    let palette = dominant_colors(&raw, 5).expect("palette");
    assert_eq!(palette.len(), 1);
    assert_eq!(rgb_to_hex(palette[0].0[0], palette[0].0[1], palette[0].0[2]), "#008000");
    assert_eq!(palette[0].1, 32 * 16);
    assert!((share(palette[0].1, 32 * 16) - 100.0).abs() < 0.01);
}

#[test]
fn fully_transparent_image_is_rejected() {
    let raw = raster(12, 12, |_, _| [40, 40, 40, 0]);
    assert_eq!(dominant_colors(&raw, 3), None);
}

#[test]
fn image_info_keeps_original_size_and_scales_thumbnail() {
    let img = RgbaImage::from_fn(200, 100, |x, _| Rgba([(x % 256) as u8, 64, 128, 255]));
    let info = image_info(DynamicImage::ImageRgba8(img.clone()), 50);
    assert_eq!((info.width, info.height), (200, 100));
    assert_eq!((info.thumb_width, info.thumb_height), (50, 25));
    assert_eq!(info.thumb_rgba.len(), 50 * 25 * 4);

    // Smaller than thumb_max: never upscaled.
    let info = image_info(DynamicImage::ImageRgba8(img), 4096);
    assert_eq!((info.thumb_width, info.thumb_height), (200, 100));
    assert_eq!(info.thumb_rgba.len(), 200 * 100 * 4);
}

#[test]
fn fit_scales_the_longest_edge_and_never_upscales() {
    assert_eq!(fit(200, 100, 50), (50, 25));
    assert_eq!(fit(100, 200, 50), (25, 50));
    assert_eq!(fit(200, 100, 4096), (200, 100));
    assert_eq!(fit(1000, 3, 100), (100, 1));
    assert_eq!(fit(0, 0, 10), (0, 0));
    assert_eq!(fit(300, 200, 512), (300, 200));
    assert_eq!(fit(4000, 3000, 512), (512, 384));
}

#[test]
fn median_cut_keeps_every_pixel() {
    let mut samples: Vec<[u8; 3]> = Vec::new();
    for i in 0..90u8 {
        samples.push([i, 255 - i, (i % 3) * 40]);
    }
    let cut = median_cut(&mut samples, 8);
    assert!(!cut.is_empty() && cut.len() <= 8);
    assert_eq!(cut.iter().map(|(_, n)| n).sum::<usize>(), 90);
    let mut sorted = samples.clone();
    sorted.sort();
    let mut expected: Vec<[u8; 3]> = (0..90u8).map(|i| [i, 255 - i, (i % 3) * 40]).collect();
    expected.sort();
    assert_eq!(sorted, expected);
}

#[test]
fn dominant_colors_rank_by_count() {
    // 10 white, 30 black, 20 red pixels.
    let raw = raster(60, 1, |x, _| {
        if x < 10 {
            [255, 255, 255, 255]
        } else if x < 40 {
            [0, 0, 0, 255]
        } else {
            [255, 0, 0, 255]
        }
    });
    let palette = dominant_colors(&raw, 3).expect("palette");
    assert_eq!(palette.len(), 3);
    assert_eq!(palette[0], ([0, 0, 0], 30));
    assert_eq!(palette[1], ([255, 0, 0], 20));
    assert_eq!(palette[2], ([255, 255, 255], 10));
}

#[test]
fn file_labels_name_the_file() {
    assert_eq!(file_label("/home/me/Pictures/sunset.jpg"), "sunset.jpg");
    assert_eq!(file_label("relative/dir/"), "dir");
    assert_eq!(file_label("a/b/."), "b");
    assert_eq!(file_label("a/.."), "a/..");
    assert_eq!(file_label("/"), "/");
    assert_eq!(file_label(""), "");
}

#[test]
fn two_tone_images_stay_two_tone() {
    // Colors differing on one channel only, interleaved, with room for 16.
    let raw = raster(10, 10, |x, y| if (x + y) % 3 == 0 { [10, 20, 30, 255] } else { [10, 20, 31, 255] });
    let mut palette = dominant_colors(&raw, 16).expect("palette");
    palette.sort();
    assert_eq!(palette, vec![([10, 20, 30], 34), ([10, 20, 31], 66)]);
}

#[test]
fn an_image_that_fits_is_converted_as_it_is() {
    let img = RgbaImage::from_fn(3, 2, |x, y| Rgba([x as u8, y as u8, 7, 200]));
    let small = shrink_to_rgba(DynamicImage::ImageRgba8(img.clone()), 10);
    assert_eq!((small.width, small.height), (3, 2));
    assert_eq!(small.raw, img.into_raw());

    // A grey image is expanded to RGBA, pixel for pixel.
    let grey = GrayImage::from_fn(2, 1, |x, _| Luma([if x == 0 { 10 } else { 250 }]));
    let small = shrink_to_rgba(DynamicImage::ImageLuma8(grey), 10);
    assert_eq!((small.width, small.height), (2, 1));
    assert_eq!(small.raw, vec![10, 10, 10, 255, 250, 250, 250, 255]);
}

#[test]
fn a_large_image_is_shrunk_to_the_limit() {
    let img = RgbaImage::from_fn(40, 20, |_, _| Rgba([9, 8, 7, 255]));
    let small = shrink_to_rgba(DynamicImage::ImageRgba8(img), 10);
    assert_eq!((small.width, small.height), (10, 5));
    assert_eq!(small.raw.len(), 10 * 5 * 4);
    assert!(small.raw.chunks(4).all(|p| p == [9, 8, 7, 255]));
}

#[test]
fn a_zero_thumbnail_limit_is_raised_to_one() {
    let img = RgbaImage::from_fn(8, 4, |_, _| Rgba([1, 2, 3, 255]));
    let info = image_info(DynamicImage::ImageRgba8(img), 0);
    assert_eq!((info.width, info.height), (8, 4));
    assert_eq!((info.thumb_width, info.thumb_height), (1, 1));
    assert_eq!(info.thumb_rgba, vec![1, 2, 3, 255]);
}

#[test]
fn median_cut_orders_buckets_by_run() {
    let mut s = vec![[255, 0, 0], [255, 0, 0], [255, 0, 0], [0, 0, 255]];
    let out = median_cut(&mut s, 4);
    assert_eq!(out, vec![([0, 0, 255], 1), ([255, 0, 0], 3)]);
    assert_eq!(s, vec![[0, 0, 255], [255, 0, 0], [255, 0, 0], [255, 0, 0]]);

    // With no room to split, one bucket holds every sample.
    let mut s = vec![[10, 0, 0], [30, 0, 0]];
    assert_eq!(median_cut(&mut s, 0), vec![([20, 0, 0], 2)]);
    assert_eq!(median_cut(&mut s, 1), vec![([20, 0, 0], 2)]);
}

#[test]
fn median_cut_cuts_at_the_boundary_nearest_the_median() {
    let mut s = vec![[0, 0, 0], [0, 0, 0], [100, 0, 0], [100, 0, 0], [200, 0, 0], [200, 0, 0]];
    let out = median_cut(&mut s, 3);
    assert_eq!(out.len(), 3);
    // First cut on channel 0 at index 2 or 4 (both 1 from the median 3): the later, 4.
    // Then [0..4) and [4..6): only the first is splittable, cut at 2.
    assert_eq!(out, vec![([0, 0, 0], 2), ([200, 0, 0], 2), ([100, 0, 0], 2)]);
}

#[test]
fn median_cut_splits_the_last_of_the_widest_buckets() {
    // The first cut (channel 0, at index 2) leaves two buckets of spread 10
    // on channel 1; the later of the two is split next.
    let mut s = vec![[0, 0, 0], [0, 10, 0], [200, 0, 0], [200, 10, 0]];
    let out = median_cut(&mut s, 3);
    assert_eq!(out.len(), 3);
    assert_eq!(out[0], ([0, 5, 0], 2));
    assert_eq!(out[1].1 + out[2].1, 2);
    assert!(out[1..].iter().all(|(c, _)| c[0] == 200));
}

/// The box the `f64` formula gives: each edge scaled by `max / longest`,
/// rounded, at least 1.
fn fit_f64(width: u32, height: u32, max: u32) -> (u32, u32) {
    let longest = width.max(height);
    if longest == 0 || longest <= max {
        return (width, height);
    }
    let scale = f64::from(max) / f64::from(longest);
    let scaled = |edge: u32| ((f64::from(edge) * scale).round() as u32).max(1);
    (scaled(width), scaled(height))
}

#[test]
fn fit_rounds_as_floating_point_does() {
    assert_eq!(fit(11, 22, 15), (7, 15));
    assert_eq!(fit(22, 11, 15), (15, 7));
    let mut seed: u64 = 0x2545_f491_4f6c_dd1d;
    let mut next = move || {
        seed ^= seed << 13;
        seed ^= seed >> 7;
        seed ^= seed << 17;
        seed
    };
    for _ in 0..20_000 {
        let w = (next() % 5000) as u32 + 1;
        let h = (next() % 5000) as u32 + 1;
        let m = (next() % 600) as u32;
        assert_eq!(fit(w, h, m), fit_f64(w, h, m), "{w}x{h} max {m}");
    }
    for (w, h, m) in [
        (u32::MAX, 1, 1),
        (u32::MAX, u32::MAX - 1, u32::MAX - 2),
        (4_000_000_000, 3_999_999_999, 123_456_789),
        (3, 2, 1),
        (7, 5, 2),
    ] {
        assert_eq!(fit(w, h, m), fit_f64(w, h, m), "{w}x{h} max {m}");
    }
    // Every half-way case on small sizes.
    for l in 2u32..120 {
        for e in 1..=l {
            for m in 1..l {
                assert_eq!(fit(l, e, m), fit_f64(l, e, m), "{l}x{e} max {m}");
            }
        }
    }
}

#[test]
fn a_decoded_png_goes_through_the_palette_path() {
    // Left half red, right half blue, encoded and decoded as the program reads a file.
    let img = RgbaImage::from_fn(600, 300, |x, _| {
        if x < 300 {
            Rgba([255, 0, 0, 255])
        } else {
            Rgba([0, 0, 255, 255])
        }
    });
    let mut png = Vec::new();
    DynamicImage::ImageRgba8(img)
        .write_to(&mut std::io::Cursor::new(&mut png), image::ImageFormat::Png)
        .unwrap();
    let decoded = image::load_from_memory(&png).unwrap();
    let small = shrink_to_rgba(decoded, 512);
    assert_eq!((small.width, small.height), (512, 256));
    let colors = dominant_colors(&small.raw, 4).unwrap();
    assert_eq!(colors.len(), 2);
    assert_eq!(colors.iter().map(|(_, n)| n).sum::<usize>(), 512 * 256);
    assert!(colors.iter().any(|(c, _)| *c == [255, 0, 0]));
    assert!(colors.iter().any(|(c, _)| *c == [0, 0, 255]));
}
