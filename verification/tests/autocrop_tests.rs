use cove_image_viewer::autocrop::{
    auto_crop_pixels, bounds_from_mask, choose_crop, count_outcomes, crop_pixels, cropped_file_name,
    detect_background, find_content_bounds, is_background, is_batch_image, needs_focus_crop,
    saves_as_jpeg, AutoCropOptions, CropLimits, CropResult, Rgba,
};
use cove_image_viewer::pixels::RgbaPixels;

fn solid(w: usize, h: usize, c: [u8; 4]) -> RgbaPixels {
    RgbaPixels { width: w, height: h, data: c.repeat(w * h) }
}

fn set(img: &mut RgbaPixels, x: usize, y: usize, c: [u8; 4]) {
    let i = (y * img.width + x) * 4;
    img.data[i..i + 4].copy_from_slice(&c);
}

fn limits(w: usize, h: usize) -> CropLimits {
    CropLimits {
        row_threshold: ((w as f32 * 0.05).max(2.0)) as u32,
        col_threshold: ((h as f32 * 0.05).max(2.0)) as u32,
        row_gap_limit: ((h as f32 * 0.05).max(3.0)) as u32,
        col_gap_limit: ((w as f32 * 0.05).max(3.0)) as u32,
    }
}

fn crop(c: &CropResult) -> (u32, u32, u32, u32, u32, u32) {
    (c.x, c.y, c.width, c.height, c.original_width, c.original_height)
}

#[test]
fn default_options() {
    let o = AutoCropOptions::default();
    assert_eq!((o.tolerance, o.padding), (30, 4));
}

#[test]
fn background_tolerance() {
    let bg = Rgba { r: 100, g: 100, b: 100, a: 255 };
    assert!(is_background(Rgba { r: 130, g: 70, b: 100, a: 255 }, bg, 30));
    assert!(!is_background(Rgba { r: 131, g: 100, b: 100, a: 255 }, bg, 30));
    assert!(is_background(Rgba { r: 0, g: 0, b: 0, a: 0 }, bg, 0));
    assert!(!is_background(Rgba { r: 100, g: 100, b: 100, a: 200 }, bg, 30));
}

#[test]
fn background_is_most_frequent_corner_colour() {
    let mut img = solid(20, 20, [255, 255, 255, 255]);
    for y in 0..8 {
        for x in 0..8 {
            set(&mut img, x, y, [0, 0, 0, 255]);
        }
    }
    assert_eq!(detect_background(&img), Rgba { r: 255, g: 255, b: 255, a: 255 });
    let empty = RgbaPixels { width: 0, height: 5, data: vec![] };
    assert_eq!(detect_background(&empty), Rgba { r: 0, g: 0, b: 0, a: 0 });
    let tiny = solid(1, 1, [1, 2, 3, 4]);
    assert_eq!(detect_background(&tiny), Rgba { r: 1, g: 2, b: 3, a: 4 });
}

#[test]
fn content_box_with_padding() {
    let mut img = solid(40, 30, [255, 255, 255, 255]);
    for y in 10..15 {
        for x in 12..20 {
            set(&mut img, x, y, [200, 0, 0, 255]);
        }
    }
    let opts = AutoCropOptions { tolerance: 30, padding: 4 };
    let c = find_content_bounds(&img, &opts, &limits(40, 30)).unwrap();
    assert_eq!(crop(&c), (8, 6, 16, 13, 40, 30));
    let no_pad = AutoCropOptions { tolerance: 30, padding: 0 };
    let c = find_content_bounds(&img, &no_pad, &limits(40, 30)).unwrap();
    assert_eq!(crop(&c), (12, 10, 8, 5, 40, 30));
    let huge_pad = AutoCropOptions { tolerance: 30, padding: u32::MAX };
    let c = find_content_bounds(&img, &huge_pad, &limits(40, 30)).unwrap();
    assert_eq!(crop(&c), (0, 0, 40, 30, 40, 30));
}

#[test]
fn uniform_image_has_no_content() {
    let img = solid(16, 16, [10, 20, 30, 255]);
    let opts = AutoCropOptions::default();
    assert!(find_content_bounds(&img, &opts, &limits(16, 16)).is_none());
    let empty = RgbaPixels { width: 0, height: 0, data: vec![] };
    assert!(find_content_bounds(&empty, &opts, &limits(0, 0)).is_none());
}

#[test]
fn far_artifacts_are_left_out() {
    let mut img = solid(100, 100, [0, 0, 0, 255]);
    for y in 40..60 {
        for x in 40..60 {
            set(&mut img, x, y, [255, 255, 255, 255]);
        }
    }
    set(&mut img, 95, 5, [255, 255, 255, 255]);
    let opts = AutoCropOptions { tolerance: 30, padding: 0 };
    let c = find_content_bounds(&img, &opts, &limits(100, 100)).unwrap();
    assert_eq!(crop(&c), (40, 40, 20, 20, 100, 100));
}

#[test]
fn thin_parts_near_the_core_are_kept() {
    let mut img = solid(100, 100, [0, 0, 0, 255]);
    for y in 40..60 {
        for x in 40..60 {
            set(&mut img, x, y, [255, 255, 255, 255]);
        }
    }
    for y in 36..38 {
        set(&mut img, 50, y, [255, 255, 255, 255]);
    }
    let opts = AutoCropOptions { tolerance: 30, padding: 0 };
    let c = find_content_bounds(&img, &opts, &limits(100, 100)).unwrap();
    assert_eq!(crop(&c), (40, 36, 20, 24, 100, 100));
}

#[test]
fn mask_grid_bounds() {
    let w = 5;
    let h = 4;
    let mut m = vec![false; w * h];
    m[1 * w + 1] = true;
    m[2 * w + 3] = true;
    let lim = CropLimits { row_threshold: 1, col_threshold: 1, row_gap_limit: 3, col_gap_limit: 3 };
    let c = bounds_from_mask(&m, w, h, 0, &lim).unwrap();
    assert_eq!(crop(&c), (1, 1, 3, 2, 5, 4));
    let c = bounds_from_mask(&m, w, h, 1, &lim).unwrap();
    assert_eq!(crop(&c), (0, 0, 5, 4, 5, 4));
    assert!(bounds_from_mask(&vec![false; w * h], w, h, 0, &lim).is_none());
}

#[test]
fn cropping_copies_the_box() {
    let mut img = solid(3, 3, [0, 0, 0, 255]);
    set(&mut img, 1, 1, [9, 8, 7, 6]);
    set(&mut img, 2, 1, [5, 4, 3, 2]);
    let c = CropResult { x: 1, y: 1, width: 2, height: 1, original_width: 3, original_height: 3 };
    let out = crop_pixels(&img, &c);
    assert_eq!((out.width, out.height), (2, 1));
    assert_eq!(out.data, vec![9, 8, 7, 6, 5, 4, 3, 2]);
}

fn cr(x: u32, y: u32, w: u32, h: u32) -> CropResult {
    CropResult { x, y, width: w, height: h, original_width: 100, original_height: 100 }
}

#[test]
fn choosing_between_content_and_focus() {
    assert!(needs_focus_crop(&Some(cr(0, 0, 100, 100))));
    assert!(needs_focus_crop(&Some(cr(0, 0, 91, 100))));
    assert!(!needs_focus_crop(&Some(cr(0, 0, 90, 100))));
    assert!(!needs_focus_crop(&None));
    let c = choose_crop(Some(cr(0, 0, 100, 100)), Some(cr(20, 20, 40, 40))).unwrap();
    assert_eq!(crop(&c), (20, 20, 40, 40, 100, 100));
    let c = choose_crop(Some(cr(0, 0, 100, 100)), None).unwrap();
    assert_eq!(crop(&c), (0, 0, 100, 100, 100, 100));
    let c = choose_crop(Some(cr(10, 10, 50, 50)), Some(cr(20, 20, 40, 40))).unwrap();
    assert_eq!(crop(&c), (10, 10, 50, 50, 100, 100));
    assert!(choose_crop(None, Some(cr(20, 20, 40, 40))).is_none());
}

#[test]
fn auto_crop_of_pixels() {
    let mut img = solid(40, 30, [255, 255, 255, 255]);
    for y in 10..15 {
        for x in 12..20 {
            set(&mut img, x, y, [200, 0, 0, 255]);
        }
    }
    let opts = AutoCropOptions { tolerance: 30, padding: 0 };
    let (px, c) = auto_crop_pixels(&img, &opts, &limits(40, 30), None).unwrap();
    assert_eq!(crop(&c), (12, 10, 8, 5, 40, 30));
    assert_eq!(px.data, [200u8, 0, 0, 255].repeat(40));
    let full = solid(8, 8, [1, 1, 1, 255]);
    assert!(auto_crop_pixels(&full, &opts, &limits(8, 8), None).is_none());
}

#[test]
fn batch_file_names() {
    assert!(is_batch_image("a.PNG"));
    assert!(is_batch_image("scan.tif"));
    assert!(!is_batch_image("a.gif"));
    assert!(!is_batch_image("png"));
    assert_eq!(cropped_file_name("photo.png"), "photo_cropped.png");
    assert_eq!(cropped_file_name("archive.tar.JPG"), "archive.tar_cropped.JPG");
    assert_eq!(cropped_file_name("noext"), "noext_cropped.png");
    assert_eq!(cropped_file_name(".hidden"), "_cropped.png");
    assert!(saves_as_jpeg("out.JPEG"));
    assert!(saves_as_jpeg("out.jpg"));
    assert!(!saves_as_jpeg("out.png"));
}

#[test]
fn batch_tally() {
    let ok = CropResult { x: 0, y: 0, width: 1, height: 1, original_width: 2, original_height: 2 };
    let results = vec![
        Ok(ok),
        Err("entirely background".to_string()),
        Err("failed to open: x".to_string()),
        Err("a.png: image is entirely background".to_string()),
    ];
    assert_eq!(count_outcomes(&results), (1, 2, 1));
    assert_eq!(count_outcomes(&Vec::new()), (0, 0, 0));
}
