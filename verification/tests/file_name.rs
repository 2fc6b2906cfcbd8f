use std::path::Path;

use civicsense_data_pack::file_name::{is_image, is_label_file, sorts_before, stem_of};

const NAMES: [&str; 16] = [
    "frame_0001.jpg",
    "frame.0001.txt",
    ".hidden",
    ".hidden.txt",
    "noext",
    "a.",
    "a..txt",
    "...txt",
    "x.JPG",
    "x.Jpeg",
    "x.png",
    "x.gif",
    "x.txt",
    "x.TXT",
    "archive.tar.gz",
    "ünïcode.jpeg",
];

#[test]
fn stem_matches_path_file_stem() {
    for name in NAMES {
        let expected = Path::new(name).file_stem().unwrap().to_str().unwrap().to_string();
        assert_eq!(stem_of(name), expected, "{name}");
    }
}

#[test]
fn image_names_follow_the_extension_whitelist() {
    for name in NAMES {
        let expected = Path::new(name)
            .extension()
            .and_then(|e| e.to_str())
            .is_some_and(|e| ["jpg", "jpeg", "png"].contains(&e.to_ascii_lowercase().as_str()));
        assert_eq!(is_image(name), expected, "{name}");
    }
}

#[test]
fn label_names_end_in_txt() {
    for name in NAMES {
        let expected = Path::new(name).extension().is_some_and(|x| x == "txt");
        assert_eq!(is_label_file(name), expected, "{name}");
    }
    assert!(is_label_file("frame_0001.txt"));
    assert!(!is_label_file("frame_0001.TXT"));
    assert!(!is_label_file(".txt"));
}

#[test]
fn sorts_before_matches_path_order() {
    let names = ["", ".", "..", "-x", "a", "b", "ab", "a.b", "Z", "ä", "10", "9"];
    for a in names {
        for b in names {
            assert_eq!(sorts_before(a, b), Path::new(a) < Path::new(b), "{a:?} {b:?}");
        }
    }
}
