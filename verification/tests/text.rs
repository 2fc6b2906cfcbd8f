use civicsense_data_pack::text::{is_whitespace_char, scan_label_text};

fn scanned(text: &str) -> Vec<(usize, Vec<String>)> {
    scan_label_text(text)
        .into_iter()
        .map(|l| (l.number, l.fields))
        .collect()
}

fn owned(fields: &[&str]) -> Vec<String> {
    fields.iter().map(|f| f.to_string()).collect()
}

#[test]
fn whitespace_matches_char_is_whitespace() {
    for code in 0u32..=0x10FFFF {
        if let Some(c) = char::from_u32(code) {
            assert_eq!(is_whitespace_char(c), c.is_whitespace(), "U+{code:04X}");
        }
    }
}

#[test]
fn scan_skips_blank_lines_and_numbers_every_line() {
    assert_eq!(
        scanned("0 0.1 0.1 0.2 0.2\n\n3 0.5 0.5 0.2 0.4\n"),
        vec![
            (1, owned(&["0", "0.1", "0.1", "0.2", "0.2"])),
            (3, owned(&["3", "0.5", "0.5", "0.2", "0.4"])),
        ]
    );
}

#[test]
fn scan_matches_lines_trim_and_split_whitespace() {
    let samples = [
        "",
        "\n",
        "a",
        "a\n",
        "  a  b \r\n\t\n c\u{3000}d\u{a0}e",
        "x\r\ny\r",
        "\n\n\n7",
        "1 2 3 4 5\n   \n6 7 8 9 10",
    ];
    for text in samples {
        let expected: Vec<(usize, Vec<String>)> = text
            .lines()
            .enumerate()
            .filter(|(_, l)| !l.trim().is_empty())
            .map(|(i, l)| (i + 1, l.split_whitespace().map(|f| f.to_string()).collect()))
            .collect();
        assert_eq!(scanned(text), expected, "{text:?}");
    }
}

#[test]
fn scan_of_empty_text_has_no_lines() {
    assert!(scanned("").is_empty());
    assert!(scanned(" \t\r\n \n").is_empty());
}
