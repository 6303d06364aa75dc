use cove_image_viewer::browser::{Browser, DirListing, OpenRequest};
use cove_image_viewer::natord::natord_compare;
use cove_image_viewer::paths::{extension_of, is_supported};
use cove_image_viewer::sorting::{entry_compare, stable_sort, FileEntry, Rank, SortMode};
use std::cmp::Ordering;

fn entry(name: &str, modified: Option<i128>, size: u64) -> FileEntry {
    FileEntry {
        path: format!("/pics/{name}"),
        name: name.to_string(),
        modified,
        size,
        is_file: true,
    }
}

fn listing(names: &[&str]) -> DirListing {
    DirListing {
        dir: "/pics".to_string(),
        entries: names.iter().map(|n| entry(n, None, 0)).collect(),
    }
}

fn names(b: &Browser) -> Vec<String> {
    b.files.iter().map(|f| f.name.clone()).collect()
}

#[test]
fn natural_order_compares_numbers_by_value() {
    assert_eq!(natord_compare("img2.png", "img10.png"), Ordering::Less);
    assert_eq!(natord_compare("img10.png", "img2.png"), Ordering::Greater);
    assert_eq!(natord_compare("IMG1.png", "img1.png"), Ordering::Equal);
    assert_eq!(natord_compare("a", "ab"), Ordering::Less);
    assert_eq!(natord_compare("", ""), Ordering::Equal);
    assert_eq!(natord_compare("img007", "img7"), Ordering::Equal);
    assert_eq!(natord_compare("x99999999999999999999999", "x18446744073709551615"), Ordering::Equal);
    assert_eq!(natord_compare("b", "A"), Ordering::Greater);
}

#[test]
fn directory_keeps_supported_files_in_natural_order() {
    let mut b = Browser::new();
    let mut l = listing(&["img10.png", "notes.txt", "img2.JPG", "img1.webp", "Makefile"]);
    l.entries.push(FileEntry {
        path: "/pics/sub.png".to_string(),
        name: "sub.png".to_string(),
        modified: None,
        size: 0,
        is_file: false,
    });
    b.open_path(OpenRequest::Directory(l));
    assert_eq!(names(&b), vec!["img1.webp", "img2.JPG", "img10.png"]);
    assert_eq!(b.index, 0);
    assert_eq!(b.current().map(|s| s.as_str()), Some("/pics/img1.webp"));
    assert_eq!(b.directory.as_deref(), Some("/pics"));
}

#[test]
fn opening_a_file_makes_it_current() {
    let mut b = Browser::new();
    b.open_path(OpenRequest::File(listing(&["c.png", "a.png", "b.png"]), "/pics/b.png".to_string()));
    assert_eq!(b.index, 1);
    assert_eq!(b.position_label(), "2/3");
    b.open_path(OpenRequest::Neither);
    assert_eq!(b.index, 1);
}

#[test]
fn navigation_wraps_around() {
    let mut b = Browser::new();
    assert!(!b.next());
    assert!(!b.prev());
    assert_eq!(b.position_label(), "");
    b.open_path(OpenRequest::Directory(listing(&["a.png", "b.png", "c.png"])));
    assert!(b.next());
    assert_eq!(b.index, 1);
    assert!(b.prev());
    assert_eq!(b.index, 0);
    assert!(b.prev());
    assert_eq!(b.index, 2);
    assert!(b.next());
    assert_eq!(b.index, 0);
    assert!(b.last());
    assert_eq!(b.index, 2);
    assert!(!b.last());
    assert!(b.first());
    assert!(!b.first());
    assert_eq!(b.position_label(), "1/3");
}

#[test]
fn cycling_forward_returns_to_start() {
    let mut b = Browser::new();
    b.open_path(OpenRequest::Directory(listing(&["a.png", "b.png", "c.png", "d.png"])));
    b.next();
    let start = b.index;
    for _ in 0..4 {
        b.next();
    }
    assert_eq!(b.index, start);
}

#[test]
fn sorting_keeps_current_file() {
    let mut b = Browser::new();
    let l = DirListing {
        dir: "/pics".to_string(),
        entries: vec![
            entry("a.png", Some(30), 5),
            entry("b.jpg", Some(10), 50),
            entry("c.gif", Some(20), 1),
        ],
    };
    b.open_path(OpenRequest::File(l, "/pics/b.jpg".to_string()));
    assert_eq!(b.index, 1);
    b.sort_by(SortMode::DateModified);
    assert_eq!(names(&b), vec!["b.jpg", "c.gif", "a.png"]);
    assert_eq!(b.current().map(|s| s.as_str()), Some("/pics/b.jpg"));
    b.sort_by(SortMode::Size);
    assert_eq!(names(&b), vec!["c.gif", "a.png", "b.jpg"]);
    assert_eq!(b.index, 2);
    b.sort_by(SortMode::Extension);
    assert_eq!(names(&b), vec!["c.gif", "b.jpg", "a.png"]);
    assert_eq!(b.sort_mode, SortMode::Extension);
}

#[test]
fn sort_is_stable() {
    let v = vec![entry("x.png", None, 7), entry("y.png", None, 3), entry("z.png", None, 7)];
    let out = stable_sort(v, SortMode::Size);
    let got: Vec<&str> = out.iter().map(|e| e.name.as_str()).collect();
    assert_eq!(got, vec!["y.png", "x.png", "z.png"]);
    assert_eq!(entry_compare(SortMode::Size, &out[1], &out[2]), Rank::Same);
    assert_eq!(entry_compare(SortMode::Name, &out[0], &out[1]), Rank::After);
}

#[test]
fn removing_the_last_file_moves_back() {
    let mut b = Browser::new();
    b.open_path(OpenRequest::Directory(listing(&["a.png", "b.png"])));
    b.last();
    b.remove_current();
    assert_eq!(names(&b), vec!["a.png"]);
    assert_eq!(b.index, 0);
    b.remove_current();
    assert!(b.files.is_empty());
    assert_eq!(b.index, 0);
    b.remove_current();
    assert!(b.current().is_none());
}

#[test]
fn supported_extensions() {
    assert!(is_supported("photo.JPG"));
    assert!(is_supported("scan.cr2"));
    assert!(Browser::is_supported("a.heic"));
    assert!(!is_supported("notes.txt"));
    assert!(!is_supported(".png"));
    assert!(!is_supported("png"));
    assert_eq!(extension_of("archive.tar.gz").as_deref(), Some("gz"));
    assert_eq!(extension_of(".bashrc"), None);
    assert_eq!(extension_of("name."), Some(String::new()));
    assert_eq!(extension_of(".."), None);
}
