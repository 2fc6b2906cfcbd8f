use civicsense_data_pack::text::scan_label_text;
use civicsense_data_pack::yolo::{parse_label_text, Field, LabelError, LabelText, Reading, YoloLabel};

/// A token read as an `f32`, as the label format reads it.
fn reading_of(token: &str) -> Reading {
    match token.parse::<f32>() {
        Ok(v) if v.is_finite() => Reading::Number {
            whole: if v >= 0.0 && v.fract() == 0.0 && v < usize::MAX as f32 {
                Some(v as usize)
            } else {
                None
            },
            unit: (0.0..=1.0).contains(&v),
        },
        _ => Reading::Malformed,
    }
}

fn parse_line(line: &str, line_number: usize) -> Result<YoloLabel, LabelError> {
    let fields: Vec<Field> = scan_label_text(line)
        .into_iter()
        .flat_map(|l| l.fields)
        .map(|f| Field { reading: reading_of(&f), text: f })
        .collect();
    YoloLabel::parse(&fields, line_number)
}

fn label_text(content: &str) -> LabelText {
    let readings = scan_label_text(content)
        .iter()
        .map(|l| l.fields.iter().map(|f| reading_of(f)).collect())
        .collect();
    LabelText { content: content.to_string(), readings }
}

fn value(text: &str) -> f32 {
    text.parse().unwrap()
}

#[test]
fn parses_valid_line() {
    let label = parse_line("3 0.5 0.5 0.2 0.4", 1).unwrap();
    assert_eq!(label.class_id, 3);
    assert_eq!(value(&label.x_center), 0.5);
    assert_eq!(value(&label.height), 0.4);
}

#[test]
fn rejects_wrong_field_count() {
    assert!(matches!(
        parse_line("3 0.5 0.5 0.2", 1),
        Err(LabelError::FieldCount { .. })
    ));
    assert!(matches!(
        parse_line("3 0.5 0.5 0.2 0.4 9", 1),
        Err(LabelError::FieldCount { .. })
    ));
}

#[test]
fn rejects_out_of_range_class() {
    assert!(matches!(
        parse_line("7 0.5 0.5 0.2 0.4", 1),
        Err(LabelError::BadClass { .. })
    ));
    assert!(matches!(
        parse_line("2.5 0.5 0.5 0.2 0.4", 1),
        Err(LabelError::BadClass { .. })
    ));
}

#[test]
fn rejects_geometry_outside_unit_box() {
    assert!(matches!(
        parse_line("3 1.2 0.5 0.2 0.4", 1),
        Err(LabelError::OutOfRange { .. })
    ));
    assert!(matches!(
        parse_line("3 0.5 -0.1 0.2 0.4", 1),
        Err(LabelError::OutOfRange { .. })
    ));
}

#[test]
fn rejects_bad_number() {
    assert!(matches!(
        parse_line("3 abc 0.5 0.2 0.4", 1),
        Err(LabelError::BadNumber { .. })
    ));
}

#[test]
fn parses_file_skipping_blank_lines() {
    let records = parse_label_text(&label_text("0 0.1 0.1 0.2 0.2\n\n3 0.5 0.5 0.2 0.4\n")).unwrap();
    assert_eq!(records.len(), 2);
    assert_eq!(records[0].class_id, 0);
    assert_eq!(records[1].class_id, 3);
}

#[test]
fn parse_file_reports_error() {
    assert!(matches!(
        parse_label_text(&label_text("3 0.5 0.5 0.2 0.4\n7 0.5 0.5 0.2 0.4\n")),
        Err(LabelError::BadClass { .. })
    ));
}

#[test]
fn errors_carry_field_index_token_and_line() {
    match parse_line("3 abc 7 0.5 xyz", 4) {
        Err(LabelError::BadNumber { token, index, line }) => {
            assert_eq!((token.as_str(), index, line), ("abc", 1, 4));
        }
        other => panic!("unexpected {other:?}"),
    }
    match parse_line("3 0.5 0.5 1.5 2", 2) {
        Err(LabelError::OutOfRange { token, index, line }) => {
            assert_eq!((token.as_str(), index, line), ("1.5", 3, 2));
        }
        other => panic!("unexpected {other:?}"),
    }
    match parse_line("3 0.5", 9) {
        Err(LabelError::FieldCount { got, line }) => assert_eq!((got, line), (2, 9)),
        other => panic!("unexpected {other:?}"),
    }
}

#[test]
fn error_describes_first_violating_field() {
    match parse_line("7 abc 0.5 0.2 0.4", 1) {
        Err(LabelError::BadClass { token, max, line }) => {
            assert_eq!((token.as_str(), max, line), ("7", 7, 1));
        }
        other => panic!("unexpected {other:?}"),
    }
    match parse_line("3 1.5 abc 0.2 0.4", 2) {
        Err(LabelError::OutOfRange { token, index, line }) => {
            assert_eq!((token.as_str(), index, line), ("1.5", 1, 2));
        }
        other => panic!("unexpected {other:?}"),
    }
    match parse_line("x 1.5 abc 0.2 0.4", 3) {
        Err(LabelError::BadNumber { token, index, line }) => {
            assert_eq!((token.as_str(), index, line), ("x", 0, 3));
        }
        other => panic!("unexpected {other:?}"),
    }
}

#[test]
fn class_is_checked_before_geometry() {
    match parse_line("9 2 0.5 0.5 0.5", 1) {
        Err(LabelError::BadClass { token, max, line }) => {
            assert_eq!((token.as_str(), max, line), ("9", 7, 1));
        }
        other => panic!("unexpected {other:?}"),
    }
}

#[test]
fn numbers_are_read_as_single_precision() {
    assert_eq!(parse_line("-0.0 0 1 0 1", 1).unwrap().class_id, 0);
    assert_eq!(parse_line("6.0 1e-3 1.0 0.0 .5", 1).unwrap().class_id, 6);
    assert!(matches!(parse_line("1e30 0.5 0.5 0.5 0.5", 1), Err(LabelError::BadClass { .. })));
}

#[test]
fn non_finite_values_are_bad_numbers() {
    assert!(matches!(
        parse_line("NaN 0.5 0.5 0.5 0.5", 1),
        Err(LabelError::BadNumber { index: 0, .. })
    ));
    assert!(matches!(
        parse_line("inf 0.5 0.5 0.5 0.5", 1),
        Err(LabelError::BadNumber { index: 0, .. })
    ));
    match parse_line("3 inf 0.5 0.2 0.4", 1) {
        Err(LabelError::BadNumber { token, index, line }) => {
            assert_eq!((token.as_str(), index, line), ("inf", 1, 1));
        }
        other => panic!("unexpected {other:?}"),
    }
    assert!(matches!(
        parse_line("1 0.5 0.5 -inf 0.5", 1),
        Err(LabelError::BadNumber { index: 3, .. })
    ));
}

#[test]
fn file_errors_name_the_first_bad_line() {
    match parse_label_text(&label_text("\n1 0.5 0.5 0.5 0.5\n\n\n2 0.5\n9 0 0 0 0\n")) {
        Err(LabelError::FieldCount { got, line }) => assert_eq!((got, line), (2, 5)),
        other => panic!("unexpected {other:?}"),
    }
}

#[test]
fn records_keep_geometry_text() {
    let l = parse_line("  5\t0.25 0.75  0.125 1 ", 1).unwrap();
    assert_eq!(
        (l.class_id, l.x_center.as_str(), l.y_center.as_str(), l.width.as_str(), l.height.as_str()),
        (5, "0.25", "0.75", "0.125", "1")
    );
}

#[test]
fn other_whitespace_runs_give_the_same_record() {
    let a = parse_line("\t3  0.5 0.5\t0.2 0.4 ", 1).unwrap();
    let b = parse_line("3 0.5 0.5 0.2 0.4", 1).unwrap();
    assert_eq!(
        (a.class_id, a.x_center, a.y_center, a.width, a.height),
        (b.class_id, b.x_center, b.y_center, b.width, b.height)
    );
}

#[test]
fn trailing_whitespace_adds_no_labels() {
    let a = parse_label_text(&label_text("1 0 0 0 0\n2 1 1 1 1")).unwrap();
    let b = parse_label_text(&label_text("1 0 0 0 0\n2 1 1 1 1 \t\n\n  \r\n")).unwrap();
    assert_eq!(a.len(), b.len());
    assert_eq!(b.iter().map(|l| l.class_id).collect::<Vec<_>>(), vec![1, 2]);
}
