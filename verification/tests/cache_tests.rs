use cove_image_viewer::cache::{clone_image, CachedImage, ImageCache, MAX_BYTES};
use cove_image_viewer::pixels::{DecodedImage, RgbaPixels};

fn still(w: usize, h: usize, fill: u8, name: &str) -> CachedImage {
    CachedImage::Static(DecodedImage {
        pixels: RgbaPixels { width: w, height: h, data: vec![fill; w * h * 4] },
        format_name: name.to_string(),
        original_width: w as u32,
        original_height: h as u32,
    })
}

fn declared(w: usize, h: usize, fill: u8) -> CachedImage {
    CachedImage::Static(DecodedImage {
        pixels: RgbaPixels { width: w, height: h, data: vec![fill; 4] },
        format_name: String::new(),
        original_width: w as u32,
        original_height: h as u32,
    })
}

fn fill_of(c: &CachedImage) -> u8 {
    match c {
        CachedImage::Static(d) => d.pixels.data[0],
        CachedImage::Animated(f) => f[0].0.data[0],
    }
}

#[test]
fn get_after_put_returns_the_image() {
    let mut c = ImageCache::new(MAX_BYTES);
    assert!(!c.contains("/a.png"));
    assert!(c.get("/a.png").is_none());
    c.put("/a.png".to_string(), still(2, 2, 7, "PNG"));
    assert!(c.contains("/a.png"));
    let got = c.get("/a.png").unwrap();
    assert_eq!(fill_of(&got), 7);
    match got {
        CachedImage::Static(d) => {
            assert_eq!(d.format_name, "PNG");
            assert_eq!(d.pixels.data.len(), 16);
        }
        CachedImage::Animated(_) => panic!("expected a still image"),
    }
    c.put("/a.png".to_string(), still(1, 1, 9, "PNG"));
    assert_eq!(fill_of(&c.get("/a.png").unwrap()), 9);
}

#[test]
fn byte_sizes() {
    assert_eq!(still(3, 5, 0, "X").byte_size(), 60);
    let frames = vec![
        (RgbaPixels { width: 2, height: 2, data: vec![0; 16] }, 100),
        (RgbaPixels { width: 1, height: 3, data: vec![0; 12] }, 50),
    ];
    assert_eq!(CachedImage::Animated(frames).byte_size(), 28);
    let huge = CachedImage::Static(DecodedImage {
        pixels: RgbaPixels { width: usize::MAX, height: 2, data: vec![] },
        format_name: String::new(),
        original_width: 0,
        original_height: 0,
    });
    assert_eq!(huge.byte_size(), usize::MAX);
}

#[test]
fn least_recently_used_is_evicted() {
    let quarter = MAX_BYTES / 4;
    let side = 4096usize;
    assert_eq!(side * side * 4, quarter);
    let mut c = ImageCache::new(MAX_BYTES);
    c.put("/1".to_string(), declared(side, side, 1));
    c.put("/2".to_string(), declared(side, side, 2));
    c.put("/3".to_string(), declared(side, side, 3));
    c.put("/4".to_string(), declared(side, side, 4));
    assert!(c.contains("/1") && c.contains("/4"));
    assert!(c.get("/1").is_some());
    c.put("/5".to_string(), declared(side, side, 5));
    assert!(!c.contains("/2"));
    assert!(c.contains("/1"));
    assert!(c.contains("/3") && c.contains("/4") && c.contains("/5"));
}

#[test]
fn oversized_image_is_kept_alone() {
    let mut c = ImageCache::new(MAX_BYTES);
    c.put("/small".to_string(), still(2, 2, 1, "A"));
    let big = CachedImage::Static(DecodedImage {
        pixels: RgbaPixels { width: 1 << 20, height: 65, data: vec![] },
        format_name: String::new(),
        original_width: 0,
        original_height: 0,
    });
    c.put("/big".to_string(), big);
    assert!(c.contains("/big"));
    assert!(!c.contains("/small"));
    c.put("/small".to_string(), still(2, 2, 1, "A"));
    assert!(!c.contains("/big"));
    assert!(c.contains("/small"));
}

#[test]
fn clones_are_equal() {
    let a = still(2, 1, 3, "GIF");
    let b = clone_image(&a);
    assert_eq!(fill_of(&b), 3);
}

#[test]
fn budget_given_at_construction_bounds_the_cache() {
    assert_eq!(MAX_BYTES, 256 * 1024 * 1024);
    let mut c = ImageCache::new(100);
    c.put("/a".to_string(), still(4, 4, 1, "A"));
    c.put("/b".to_string(), still(4, 4, 2, "B"));
    assert!(!c.contains("/a"));
    assert!(c.contains("/b"));
    c.put("/c".to_string(), still(1, 1, 3, "C"));
    assert!(c.contains("/b") && c.contains("/c"));
    assert_eq!(fill_of(&c.get("/b").unwrap()), 2);
    c.put("/d".to_string(), still(3, 3, 4, "D"));
    assert!(!c.contains("/c"));
    assert!(c.contains("/b") && c.contains("/d"));
    let mut none = ImageCache::new(0);
    none.put("/x".to_string(), still(1, 1, 5, "X"));
    assert!(none.contains("/x"));
    none.put("/y".to_string(), still(1, 1, 6, "Y"));
    assert!(!none.contains("/x"));
    assert_eq!(fill_of(&none.get("/y").unwrap()), 6);
}
