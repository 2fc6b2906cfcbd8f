use civicsense_data_pack::dataset::{
    validate_training_layout, DatasetError, DirEntry, DirKind, Listing, Place, SplitListing,
    SplitRole, SplitSummary, TrainingTree,
};
use civicsense_data_pack::text::scan_label_text;
use civicsense_data_pack::yolo::{LabelError, LabelText, Reading};

fn reading(token: &str) -> Reading {
    match token.parse::<f32>() {
        Ok(v) if v.is_finite() => Reading::Number {
            whole: if v >= 0.0 && v.fract() == 0.0 && v < usize::MAX as f32 {
                Some(v as usize)
            } else {
                None
            },
            unit: (0.0..=1.0).contains(&v),
        },
        _ => Reading::Malformed,
    }
}

fn image(name: &str) -> Option<DirEntry> {
    Some(DirEntry { name: name.to_string(), is_file: true, text: None })
}

fn label(name: &str, content: &str) -> Option<DirEntry> {
    let readings = scan_label_text(content)
        .iter()
        .map(|l| l.fields.iter().map(|f| reading(f)).collect())
        .collect();
    Some(DirEntry {
        name: name.to_string(),
        is_file: true,
        text: Some(Ok(LabelText { content: content.to_string(), readings })),
    })
}

fn split(images: Vec<Option<DirEntry>>, labels: Vec<Option<DirEntry>>) -> SplitListing {
    SplitListing { images: Listing::Entries(images), labels: Listing::Entries(labels) }
}

/// A minimal, valid layout: one image and one matching label per split.
fn valid_tree() -> TrainingTree {
    TrainingTree {
        root_is_dir: true,
        train: split(
            vec![image("frame_0001.jpg")],
            vec![label("frame_0001.txt", "3 0.5 0.5 0.2 0.4\n")],
        ),
        val: split(
            vec![image("frame_0001.jpg")],
            vec![label("frame_0001.txt", "3 0.5 0.5 0.2 0.4\n")],
        ),
    }
}

#[test]
fn valid_layout_passes() {
    let (train, val) = validate_training_layout(&valid_tree()).unwrap();
    assert_eq!(train.pairs, 1);
    assert_eq!(val.pairs, 1);
    assert_eq!(train.class_histogram[3], 1);
}

#[test]
fn missing_root_errors() {
    let mut tree = valid_tree();
    tree.root_is_dir = false;
    assert!(matches!(
        validate_training_layout(&tree),
        Err(DatasetError::RootMissing(Place::Root))
    ));
}

#[test]
fn orphan_label_is_rejected() {
    let mut tree = valid_tree();
    if let Listing::Entries(v) = &mut tree.train.labels {
        v.push(label("orphan.txt", "3 0.5 0.5 0.2 0.4\n"));
    }
    assert!(matches!(
        validate_training_layout(&tree),
        Err(DatasetError::OrphanLabel { role: SplitRole::Train, .. })
    ));
}

#[test]
fn orphan_image_is_rejected() {
    let mut tree = valid_tree();
    if let Listing::Entries(v) = &mut tree.train.images {
        v.push(image("ghost.png"));
    }
    assert!(matches!(
        validate_training_layout(&tree),
        Err(DatasetError::OrphanImage { role: SplitRole::Train, .. })
    ));
}

#[test]
fn invalid_label_content_is_rejected() {
    let mut tree = valid_tree();
    tree.val.labels = Listing::Entries(vec![label("frame_0001.txt", "7 0.5 0.5\n")]);
    assert!(matches!(
        validate_training_layout(&tree),
        Err(DatasetError::InvalidLabel { .. })
    ));
}

#[test]
fn split_role_display() {
    assert_eq!(SplitRole::Train.as_str(), "train");
    assert_eq!(SplitRole::Val.as_str(), "val");
}

#[test]
fn split_role_defaults_to_train() {
    assert_eq!(SplitRole::default(), SplitRole::Train);
    let s = SplitSummary::default();
    assert_eq!((s.role, s.pairs, s.class_histogram), (SplitRole::Train, 0, [0; 7]));
}

#[test]
fn histogram_counts_every_label() {
    let mut tree = valid_tree();
    tree.train = split(
        vec![image("a.png"), image("b.jpg"), image("c.jpeg")],
        vec![
            label("a.txt", "0 0.5 0.5 0.1 0.1\n3 0.5 0.5 0.1 0.1\n\n3 0.2 0.2 0.1 0.1\n"),
            label("c.txt", "6 0.5 0.5 1 1\n"),
            label("b.txt", "5 0 0 0 0"),
            image("notes.md"),
        ],
    );
    let (train, _) = validate_training_layout(&tree).unwrap();
    assert_eq!(train.role, SplitRole::Train);
    assert_eq!(train.pairs, 3);
    assert_eq!(train.class_histogram, [1, 0, 0, 2, 0, 1, 1]);
}

#[test]
fn labels_pair_with_images_of_any_letter_case() {
    let mut tree = valid_tree();
    tree.train = split(vec![image("a.JPG")], vec![label("a.txt", "1 0.5 0.5 0.5 0.5")]);
    let (train, _) = validate_training_layout(&tree).unwrap();
    assert_eq!((train.pairs, train.class_histogram), (1, [0, 1, 0, 0, 0, 0, 0]));
}

#[test]
fn dotted_stems_pair_by_the_whole_stem() {
    let mut tree = valid_tree();
    tree.train = split(vec![image("frame.v2.jpg")], vec![label("frame.v2.txt", "3 0.5 0.5 0.2 0.4\n")]);
    let (train, _) = validate_training_layout(&tree).unwrap();
    assert_eq!((train.pairs, train.class_histogram), (1, [0, 0, 0, 1, 0, 0, 0]));

    tree.train = split(
        vec![image("a.jpg")],
        vec![label("a.txt", "3 0.5 0.5 0.2 0.4"), label("a.b.txt", "3 0.5 0.5 0.2 0.4")],
    );
    assert!(matches!(
        validate_training_layout(&tree),
        Err(DatasetError::OrphanLabel { role: SplitRole::Train, file }) if file == "a.b.txt"
    ));
}

#[test]
fn orphan_image_error_names_the_image() {
    let mut tree = valid_tree();
    if let Listing::Entries(v) = &mut tree.train.images {
        v.push(image("ghost.png"));
    }
    assert!(matches!(
        validate_training_layout(&tree),
        Err(DatasetError::OrphanImage { role: SplitRole::Train, file }) if file == "ghost.png"
    ));
}

#[test]
fn non_image_and_non_label_files_are_ignored() {
    let mut tree = valid_tree();
    if let Listing::Entries(v) = &mut tree.train.images {
        v.insert(0, image(".gitkeep"));
        v.push(image("x.gif"));
    }
    if let Listing::Entries(v) = &mut tree.train.labels {
        v.insert(0, image("README.md"));
        v.push(image("x.TXT"));
    }
    let (train, _) = validate_training_layout(&tree).unwrap();
    assert_eq!(train.pairs, 1);
}

#[test]
fn first_orphan_image_in_path_order_is_reported() {
    let mut tree = valid_tree();
    tree.val = split(
        vec![image("zeta.jpg"), image("beta.png"), image("alpha.jpeg"), image("frame_0001.jpg")],
        vec![label("frame_0001.txt", "3 0.5 0.5 0.2 0.4\n"), label("alpha.txt", "2 0 0 0 0")],
    );
    assert!(matches!(
        validate_training_layout(&tree),
        Err(DatasetError::OrphanImage { file, role: SplitRole::Val }) if file == "beta.png"
    ));
}

#[test]
fn label_errors_come_before_orphan_images() {
    let mut tree = valid_tree();
    tree.train = split(
        vec![image("ghost.png"), image("x.jpg")],
        vec![label("x.txt", "3 0.5 0.5 0.2 9\n")],
    );
    match validate_training_layout(&tree) {
        Err(DatasetError::InvalidLabel { file, role, source: LabelError::OutOfRange { index, line, .. } }) => {
            assert_eq!((file.as_str(), role, index, line), ("x.txt", SplitRole::Train, 4, 1));
        }
        other => panic!("unexpected {other:?}"),
    }
}

#[test]
fn directory_problems_are_reported_in_order() {
    let mut tree = valid_tree();
    tree.train.labels = Listing::Missing;
    tree.train.images = Listing::Unreadable;
    assert!(matches!(
        validate_training_layout(&tree),
        Err(DatasetError::MissingDirectory { role: SplitRole::Train, name: DirKind::Labels })
    ));
    let mut tree = valid_tree();
    tree.val.images = Listing::Entries(vec![image("frame_0001.jpg"), None]);
    assert!(matches!(
        validate_training_layout(&tree),
        Err(DatasetError::RootMissing(Place::Dir { role: SplitRole::Val, kind: DirKind::Images }))
    ));
    let mut tree = valid_tree();
    tree.val.labels = Listing::Unreadable;
    assert!(matches!(
        validate_training_layout(&tree),
        Err(DatasetError::RootMissing(Place::Dir { role: SplitRole::Val, kind: DirKind::Labels }))
    ));
}

#[test]
fn unreadable_label_file_is_invalid() {
    let mut tree = valid_tree();
    tree.train.labels = Listing::Entries(vec![
        None,
        Some(DirEntry {
            name: "frame_0001.txt".to_string(),
            is_file: true,
            text: Some(Err("permission denied".to_string())),
        }),
    ]);
    match validate_training_layout(&tree) {
        Err(DatasetError::InvalidLabel { source: LabelError::ReadError { path, message }, .. }) => {
            assert_eq!((path.as_str(), message.as_str()), ("frame_0001.txt", "permission denied"));
        }
        other => panic!("unexpected {other:?}"),
    }
}

#[test]
fn image_that_is_not_a_file_does_not_pair() {
    let mut tree = valid_tree();
    tree.train.images = Listing::Entries(vec![Some(DirEntry {
        name: "frame_0001.jpg".to_string(),
        is_file: false,
        text: None,
    })]);
    assert!(matches!(
        validate_training_layout(&tree),
        Err(DatasetError::OrphanLabel { role: SplitRole::Train, .. })
    ));
}

#[test]
fn dir_kind_names() {
    assert_eq!(DirKind::Images.as_str(), "images");
    assert_eq!(DirKind::Labels.as_str(), "labels");
}

#[test]
fn orphans_with_one_stem_are_reported_by_name() {
    let mut tree = valid_tree();
    tree.train = split(
        vec![image("b.png"), image("b.jpg"), image("c.jpg")],
        vec![label("c.txt", "1 0 0 0 0")],
    );
    assert!(matches!(
        validate_training_layout(&tree),
        Err(DatasetError::OrphanImage { file, role: SplitRole::Train }) if file == "b.jpg"
    ));
}

#[test]
fn label_entry_that_is_not_a_file_is_invalid() {
    let mut tree = valid_tree();
    tree.train.labels = Listing::Entries(vec![Some(DirEntry {
        name: "frame_0001.txt".to_string(),
        is_file: false,
        text: Some(Err("Is a directory (os error 21)".to_string())),
    })]);
    match validate_training_layout(&tree) {
        Err(DatasetError::InvalidLabel { file, role, source: LabelError::ReadError { path, .. } }) => {
            assert_eq!((file.as_str(), role, path.as_str()), ("frame_0001.txt", SplitRole::Train, "frame_0001.txt"));
        }
        other => panic!("unexpected {other:?}"),
    }
}

#[test]
fn image_entry_that_is_not_a_file_is_an_orphan() {
    let mut tree = valid_tree();
    if let Listing::Entries(v) = &mut tree.train.images {
        v.push(Some(DirEntry { name: "album.png".to_string(), is_file: false, text: None }));
    }
    assert!(matches!(
        validate_training_layout(&tree),
        Err(DatasetError::OrphanImage { file, role: SplitRole::Train }) if file == "album.png"
    ));
}
