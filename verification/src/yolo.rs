//! YOLO-format label records, as the CivicSense training pipeline consumes them.
//!
//! Each image has a sibling `.txt` with one line per object:
//!
//! ```text
//! class_id x_center y_center width height
//! ```
//!
//! - All geometry values are normalised to `[0, 1]` relative to the image size.
//! - `class_id` must be a whole number in `[0, NUM_CLASSES)`.
//!
//! The numbers of a line are single-precision decimals. What this module needs
//! to know of each one is summed up in a [`Reading`]: whether the token is a
//! finite number at all, which whole number it is (if it is one), and whether it
//! lies in `[0, 1]`. The module decides, from the fields and their readings, which
//! record a line describes or which error it carries.
use vstd::prelude::*;

use crate::classes::NUM_CLASSES;
use crate::text::{
    all_whitespace,
    fields,
    label_lines,
    lemma_fields_outer_whitespace,
    lemma_fields_whitespace_runs,
    lemma_label_lines_empty,
    lemma_trailing_whitespace,
    scan_label_text,
    strings_view,
    LabelLine,
};

verus! {

/// What a field of a label line is, read as a single-precision number.
#[derive(Clone, Copy, Debug, PartialEq, Eq)]
pub enum Reading {
    /// The token is not a finite number (it does not parse, or it is infinite or NaN).
    Malformed,
    /// The token is a finite number.
    Number {
        /// `Some(n)` when the number is the whole number `n >= 0` (and `n` fits in a `usize`).
        whole: Option<usize>,
        /// Whether the number lies in `[0, 1]`.
        unit: bool,
    },
}

/// One whitespace-separated field of a label line, with its reading.
pub struct Field {
    /// The field's text.
    pub text: String,
    /// The field read as a number.
    pub reading: Reading,
}

/// An error produced while parsing or validating a YOLO label record.
#[derive(Debug)]
pub enum LabelError {
    /// A line had fewer or more fields than the five the format requires.
    FieldCount { got: usize, line: usize },
    /// A field could not be read as a number.
    BadNumber { token: String, index: usize, line: usize },
    /// The class id is not a whole number, or lies outside `[0, max)`.
    BadClass { token: String, max: usize, line: usize },
    /// A normalised coordinate or extent lies outside `[0, 1]`.
    OutOfRange { token: String, index: usize, line: usize },
    /// The label file could not be read.
    ReadError { path: String, message: String },
}

/// The abstract value of a [`LabelError`].
pub enum LabelFault {
    FieldCount { got: int, line: int },
    BadNumber { token: Seq<char>, index: int, line: int },
    BadClass { token: Seq<char>, max: int, line: int },
    OutOfRange { token: Seq<char>, index: int, line: int },
    ReadError { path: Seq<char>, message: Seq<char> },
}

impl View for LabelError {
    type V = LabelFault;

    open spec fn view(&self) -> LabelFault {
        match self {
            LabelError::FieldCount { got, line } => LabelFault::FieldCount {
                got: *got as int,
                line: *line as int,
            },
            LabelError::BadNumber { token, index, line } => LabelFault::BadNumber {
                token: token@,
                index: *index as int,
                line: *line as int,
            },
            LabelError::BadClass { token, max, line } => LabelFault::BadClass {
                token: token@,
                max: *max as int,
                line: *line as int,
            },
            LabelError::OutOfRange { token, index, line } => LabelFault::OutOfRange {
                token: token@,
                index: *index as int,
                line: *line as int,
            },
            LabelError::ReadError { path, message } => LabelFault::ReadError {
                path: path@,
                message: message@,
            },
        }
    }
}

/// A single, validated YOLO detection record. The geometry values are kept
/// as the text of their fields.
#[derive(Debug)]
pub struct YoloLabel {
    /// The object class id in `[0, NUM_CLASSES)`.
    pub class_id: usize,
    /// Normalised x-coordinate of the box centre.
    pub x_center: String,
    /// Normalised y-coordinate of the box centre.
    pub y_center: String,
    /// Normalised box width.
    pub width: String,
    /// Normalised box height.
    pub height: String,
}

/// A label file's path together with its validated records, so that callers
/// can report which file failed.
#[derive(Debug)]
pub struct ParsedLabelFile {
    /// The path the labels were read from.
    pub path: String,
    /// The validated records.
    pub labels: Vec<YoloLabel>,
}

/// The abstract value of a [`YoloLabel`].
pub struct LabelRecord {
    pub class_id: int,
    pub x_center: Seq<char>,
    pub y_center: Seq<char>,
    pub width: Seq<char>,
    pub height: Seq<char>,
}

impl View for YoloLabel {
    type V = LabelRecord;

    open spec fn view(&self) -> LabelRecord {
        LabelRecord {
            class_id: self.class_id as int,
            x_center: self.x_center@,
            y_center: self.y_center@,
            width: self.width@,
            height: self.height@,
        }
    }
}

/// The views of a sequence of labels.
pub open spec fn labels_view(v: Seq<YoloLabel>) -> Seq<LabelRecord> {
    v.map_values(|l: YoloLabel| l@)
}

/// The first index in `[from, 5)` whose reading is not a finite number or lies
/// outside `[0, 1]`.
pub open spec fn first_bad_geometry(readings: Seq<Reading>, from: int) -> Option<int>
    decreases 5 - from,
{
    if from >= 5 {
        None
    } else if !(readings[from] matches Reading::Number { unit, .. } && unit) {
        Some(from)
    } else {
        first_bad_geometry(readings, from + 1)
    }
}

/// The class id that a reading names, if it is a whole number of the vocabulary.
pub open spec fn class_of(r: Reading) -> Option<int> {
    match r {
        Reading::Number { whole: Some(n), .. } => if n < NUM_CLASSES {
            Some(n as int)
        } else {
            None
        },
        _ => None,
    }
}

/// The record that a line with the given fields and readings describes, or
/// the error of its first violating field: a field count other than five first;
/// then field 0, which must be a finite number naming a class of the
/// vocabulary; then fields 1 to 4 in order, each of which must be a finite
/// number in `[0, 1]`.
pub open spec fn spec_parse_fields(tokens: Seq<Seq<char>>, readings: Seq<Reading>, line: int) -> Result<
    LabelRecord,
    LabelFault,
> {
    if tokens.len() != 5 {
        Err(LabelFault::FieldCount { got: tokens.len() as int, line })
    } else if readings[0] is Malformed {
        Err(LabelFault::BadNumber { token: tokens[0], index: 0, line })
    } else if class_of(readings[0]) is None {
        Err(LabelFault::BadClass { token: tokens[0], max: NUM_CLASSES as int, line })
    } else if let Some(k) = first_bad_geometry(readings, 1) {
        if readings[k] is Malformed {
            Err(LabelFault::BadNumber { token: tokens[k], index: k, line })
        } else {
            Err(LabelFault::OutOfRange { token: tokens[k], index: k, line })
        }
    } else {
        Ok(
            LabelRecord {
                class_id: class_of(readings[0])->0,
                x_center: tokens[1],
                y_center: tokens[2],
                width: tokens[3],
                height: tokens[4],
            },
        )
    }
}

/// The texts of a sequence of fields.
pub open spec fn field_texts(fields: Seq<Field>) -> Seq<Seq<char>> {
    fields.map_values(|f: Field| f.text@)
}

/// The readings of a sequence of fields.
pub open spec fn field_readings(fields: Seq<Field>) -> Seq<Reading> {
    fields.map_values(|f: Field| f.reading)
}

/// The labels that the first `n` lines describe, or the error of the first line
/// among them that carries one.
pub open spec fn spec_parse_lines(
    lines: Seq<(int, Seq<Seq<char>>)>,
    readings: Seq<Seq<Reading>>,
    n: int,
) -> Result<Seq<LabelRecord>, LabelFault>
    decreases n,
{
    if n <= 0 {
        Ok(Seq::empty())
    } else {
        match spec_parse_lines(lines, readings, n - 1) {
            Err(e) => Err(e),
            Ok(ls) => match spec_parse_fields(lines[n - 1].1, readings[n - 1], lines[n - 1].0) {
                Err(e) => Err(e),
                Ok(l) => Ok(ls.push(l)),
            },
        }
    }
}

/// The text of a label file, with the reading of each field of each of its
/// non-blank lines.
pub struct LabelText {
    /// The file's contents.
    pub content: String,
    /// `readings[i][j]` is the reading of field `j` of the `i`-th non-blank line.
    pub readings: Vec<Vec<Reading>>,
}

impl LabelText {
    /// The readings cover every field of every non-blank line of the content.
    pub open spec fn wf(&self) -> bool {
        &&& self.readings@.len() == label_lines(self.content@).len()
        &&& forall|i: int|
            0 <= i < self.readings@.len() ==> #[trigger] self.readings@[i]@.len()
                == label_lines(self.content@)[i].1.len()
    }

    /// The readings, as a sequence of sequences.
    pub open spec fn readings_view(&self) -> Seq<Seq<Reading>> {
        self.readings@.map_values(|r: Vec<Reading>| r@)
    }

    /// The labels of the text, or the error of its first line that carries one.
    pub open spec fn spec_parse(&self) -> Result<Seq<LabelRecord>, LabelFault> {
        spec_parse_lines(
            label_lines(self.content@),
            self.readings_view(),
            label_lines(self.content@).len() as int,
        )
    }
}

impl YoloLabel {
    /// Validates the fields of one line of a YOLO label file.
    ///
    /// The error describes the first violating field: a field count other than
    /// five, then field 0 (not a finite number, or not a whole number of the
    /// vocabulary), then fields 1 to 4 in order (not a finite number, or outside `[0, 1]`).
    pub fn parse(fields: &Vec<Field>, line_number: usize) -> (res: Result<YoloLabel, LabelError>)
        ensures
            match (res, spec_parse_fields(field_texts(fields@), field_readings(fields@), line_number as int)) {
                (Ok(l), Ok(r)) => l@ == r,
                (Err(e), Err(f)) => e@ == f,
                _ => false,
            },
    {
        let ghost tokens = field_texts(fields@);
        let ghost readings = field_readings(fields@);
        if fields.len() != 5 {
            return Err(LabelError::FieldCount { got: fields.len(), line: line_number });
        }
        assert(tokens.len() == 5 && readings.len() == 5);
        let class_id = match fields[0].reading {
            Reading::Malformed => {
                return Err(
                    LabelError::BadNumber { token: fields[0].text.clone(), index: 0, line: line_number },
                );
            },
            Reading::Number { whole: Some(n), .. } => {
                if n < NUM_CLASSES {
                    n
                } else {
                    return Err(
                        LabelError::BadClass {
                            token: fields[0].text.clone(),
                            max: NUM_CLASSES,
                            line: line_number,
                        },
                    );
                }
            },
            _ => {
                return Err(
                    LabelError::BadClass {
                        token: fields[0].text.clone(),
                        max: NUM_CLASSES,
                        line: line_number,
                    },
                );
            },
        };
        let mut k: usize = 1;
        while k < 5
            invariant
                fields@.len() == 5,
                readings == field_readings(fields@),
                tokens == field_texts(fields@),
                1 <= k <= 5,
                !(readings[0] is Malformed),
                class_of(readings[0]) == Some(class_id as int),
                first_bad_geometry(readings, 1) == first_bad_geometry(readings, k as int),
            decreases 5 - k,
        {
            match fields[k].reading {
                Reading::Malformed => {
                    return Err(
                        LabelError::BadNumber { token: fields[k].text.clone(), index: k, line: line_number },
                    );
                },
                Reading::Number { unit: false, .. } => {
                    return Err(
                        LabelError::OutOfRange {
                            token: fields[k].text.clone(),
                            index: k,
                            line: line_number,
                        },
                    );
                },
                _ => {},
            }
            k = k + 1;
        }
        Ok(
            YoloLabel {
                class_id,
                x_center: fields[1].text.clone(),
                y_center: fields[2].text.clone(),
                width: fields[3].text.clone(),
                height: fields[4].text.clone(),
            },
        )
    }
}

/// Pairs the fields of a line with their readings.
fn line_fields(line: &LabelLine, readings: &Vec<Reading>) -> (res: Vec<Field>)
    requires
        readings@.len() == line.fields@.len(),
    ensures
        field_texts(res@) == strings_view(line.fields@),
        field_readings(res@) == readings@,
{
    let mut res: Vec<Field> = Vec::new();
    let mut j: usize = 0;
    while j < line.fields.len()
        invariant
            readings@.len() == line.fields@.len(),
            j <= line.fields@.len(),
            res@.len() == j,
            forall|t: int| 0 <= t < j ==> #[trigger] res@[t].text@ == line.fields@[t]@,
            forall|t: int| 0 <= t < j ==> #[trigger] res@[t].reading == readings@[t],
        decreases line.fields@.len() - j,
    {
        res.push(Field { text: line.fields[j].clone(), reading: readings[j] });
        j = j + 1;
    }
    assert(field_texts(res@) =~= strings_view(line.fields@));
    assert(field_readings(res@) =~= readings@);
    res
}

/// Validates every non-blank line of a label text, returning its records in
/// order, or the error of the first line that carries one. Blank lines are skipped;
/// line numbers count every line from 1.
pub fn parse_label_text(text: &LabelText) -> (res: Result<Vec<YoloLabel>, LabelError>)
    requires
        text.wf(),
    ensures
        match (res, text.spec_parse()) {
            (Ok(ls), Ok(rs)) => labels_view(ls@) == rs,
            (Err(e), Err(f)) => e@ == f,
            _ => false,
        },
{
    let lines = scan_label_text(text.content.as_str());
    let ghost spec_lines = label_lines(text.content@);
    let ghost rv = text.readings_view();
    proof {
        assert(lines@.len() == spec_lines.len()) by {
            assert(crate::text::lines_view(lines@).len() == lines@.len());
        }
    }
    let mut out: Vec<YoloLabel> = Vec::new();
    let mut i: usize = 0;
    assert(labels_view(out@) =~= Seq::<LabelRecord>::empty());
    while i < lines.len()
        invariant
            text.wf(),
            rv == text.readings_view(),
            spec_lines == label_lines(text.content@),
            crate::text::lines_view(lines@) == spec_lines,
            lines@.len() == spec_lines.len(),
            i <= lines@.len(),
            spec_parse_lines(spec_lines, rv, i as int) == Ok::<Seq<LabelRecord>, LabelFault>(
                labels_view(out@),
            ),
        decreases lines@.len() - i,
    {
        proof {
            assert(crate::text::lines_view(lines@)[i as int] == lines@[i as int]@);
            assert(text.readings@[i as int]@.len() == spec_lines[i as int].1.len());
            assert(strings_view(lines@[i as int].fields@).len() == lines@[i as int].fields@.len());
            assert(rv[i as int] == text.readings@[i as int]@);
        }
        let fields = line_fields(&lines[i], &text.readings[i]);
        match YoloLabel::parse(&fields, lines[i].number) {
            Ok(label) => {
                let ghost before = out@;
                out.push(label);
                proof {
                    assert(labels_view(out@) =~= labels_view(before).push(label@));
                }
            },
            Err(e) => {
                proof {
                    lemma_parse_lines_err_stays(spec_lines, rv, i as int + 1, lines@.len() as int);
                }
                return Err(e);
            },
        }
        i = i + 1;
    }
    Ok(out)
}

/// Once a line carries an error, every longer prefix carries the same error.
proof fn lemma_parse_lines_err_stays(
    lines: Seq<(int, Seq<Seq<char>>)>,
    readings: Seq<Seq<Reading>>,
    n: int,
    m: int,
)
    requires
        0 <= n <= m,
        spec_parse_lines(lines, readings, n) is Err,
    ensures
        spec_parse_lines(lines, readings, m) == spec_parse_lines(lines, readings, n),
    decreases m - n,
{
    if m > n {
        lemma_parse_lines_err_stays(lines, readings, n, m - 1);
    }
}

/// Every label of a parsed text names a class of the vocabulary, and there is
/// one label per non-blank line.
pub proof fn lemma_parsed_lines(
    lines: Seq<(int, Seq<Seq<char>>)>,
    readings: Seq<Seq<Reading>>,
    n: int,
)
    requires
        0 <= n,
        spec_parse_lines(lines, readings, n) is Ok,
    ensures
        spec_parse_lines(lines, readings, n)->Ok_0.len() == n,
        forall|j: int|
            0 <= j < n ==> 0 <= (#[trigger] spec_parse_lines(lines, readings, n)->Ok_0[j]).class_id
                < NUM_CLASSES,
    decreases n,
{
    if n > 0 {
        lemma_parsed_lines(lines, readings, n - 1);
    }
}

/// No reading from `from` on fails to be a finite number in `[0, 1]`.
proof fn lemma_no_bad_geometry(readings: Seq<Reading>, from: int)
    requires
        first_bad_geometry(readings, from) is None,
    ensures
        forall|k: int| from <= k < 5 ==> (#[trigger] readings[k] matches Reading::Number { unit, .. } && unit),
    decreases 5 - from,
{
    if from < 5 {
        lemma_no_bad_geometry(readings, from + 1);
    }
}

/// A line that parses has five fields, its class id is a whole number of the
/// vocabulary, and its four geometry values are finite numbers in `[0, 1]`.
pub proof fn lemma_parsed_line_valid(tokens: Seq<Seq<char>>, readings: Seq<Reading>, line: int)
    requires
        spec_parse_fields(tokens, readings, line) is Ok,
    ensures
        tokens.len() == 5,
        0 <= spec_parse_fields(tokens, readings, line)->Ok_0.class_id < NUM_CLASSES,
        readings[0] matches Reading::Number { whole: Some(n), .. } && n
            == spec_parse_fields(tokens, readings, line)->Ok_0.class_id,
        forall|k: int| 1 <= k < 5 ==> (#[trigger] readings[k] matches Reading::Number { unit, .. } && unit),
{
    lemma_no_bad_geometry(readings, 1);
}

/// A line parses the same whichever runs of whitespace separate its fields
/// and whatever whitespace stands before and after it (with the same readings
/// for the same fields).
pub proof fn lemma_parse_line_whitespace(
    a: Seq<char>,
    w1: Seq<char>,
    w2: Seq<char>,
    b: Seq<char>,
    readings: Seq<Reading>,
    line: int,
)
    requires
        w1.len() > 0,
        w2.len() > 0,
        all_whitespace(w1),
        all_whitespace(w2),
    ensures
        spec_parse_fields(fields(a + w1 + b), readings, line) == spec_parse_fields(
            fields(a + w2 + b),
            readings,
            line,
        ),
        spec_parse_fields(fields(w1 + a + w2), readings, line) == spec_parse_fields(
            fields(a),
            readings,
            line,
        ),
{
    lemma_fields_whitespace_runs(a, w1, w2, b);
    lemma_fields_outer_whitespace(w1, a, w2);
}

/// Whitespace appended to a label text, blank lines included, changes
/// neither its labels nor its error (with the same readings).
pub proof fn lemma_text_trailing_whitespace(t1: LabelText, t2: LabelText, w: Seq<char>)
    requires
        all_whitespace(w),
        t2.content@ == t1.content@ + w,
        t2.readings_view() == t1.readings_view(),
    ensures
        t2.spec_parse() == t1.spec_parse(),
{
    lemma_trailing_whitespace(t1.content@, w);
}

/// An empty label text gives no labels.
pub proof fn lemma_empty_text(t: LabelText)
    requires
        t.content@.len() == 0,
    ensures
        t.spec_parse() == Ok::<Seq<LabelRecord>, LabelFault>(Seq::empty()),
{
    lemma_label_lines_empty(t.content@);
}

/// A geometry reading is good: a finite number in `[0, 1]`.
pub open spec fn is_unit_reading(r: Reading) -> bool {
    r matches Reading::Number { unit, .. } && unit
}

/// What one line gives, field by field: with five fields, a first field that is
/// a whole number `n` below the number of classes and four geometry fields that
/// are finite numbers in `[0, 1]`, the line is the record of class `n` whose
/// geometry is fields 1 to 4; otherwise it is the error of its first violating
/// field: a field count other than five, then field 0 (not a number, or not a
/// class), then the first geometry field that is not a number or lies outside
/// `[0, 1]`.
pub proof fn lemma_parse_fields_outcome(
    tokens: Seq<Seq<char>>,
    readings: Seq<Reading>,
    line: int,
    n: usize,
)
    ensures
        tokens.len() != 5 ==> spec_parse_fields(tokens, readings, line) == Err::<
            LabelRecord,
            LabelFault,
        >(LabelFault::FieldCount { got: tokens.len() as int, line }),
        tokens.len() == 5 && readings[0] is Malformed ==> spec_parse_fields(tokens, readings, line)
            == Err::<LabelRecord, LabelFault>(LabelFault::BadNumber { token: tokens[0], index: 0, line }),
        tokens.len() == 5 && readings[0] is Number && !(readings[0] matches Reading::Number {
            whole: Some(n),
            ..
        } && n < NUM_CLASSES) ==> spec_parse_fields(tokens, readings, line) == Err::<
            LabelRecord,
            LabelFault,
        >(LabelFault::BadClass { token: tokens[0], max: NUM_CLASSES as int, line }),
        forall|k: int|
            #![trigger readings[k]]
            tokens.len() == 5 && (readings[0] matches Reading::Number { whole: Some(n), .. }
                && n < NUM_CLASSES) && 1 <= k < 5 && !is_unit_reading(readings[k]) && (forall|j: int|
                1 <= j < k ==> is_unit_reading(#[trigger] readings[j])) ==> spec_parse_fields(
                tokens,
                readings,
                line,
            ) == if readings[k] is Malformed {
                Err::<LabelRecord, LabelFault>(LabelFault::BadNumber { token: tokens[k], index: k, line })
            } else {
                Err::<LabelRecord, LabelFault>(LabelFault::OutOfRange { token: tokens[k], index: k, line })
            },
        tokens.len() == 5 && readings[0] is Number && readings[0]->whole == Some(n) && n < NUM_CLASSES
            && (forall|j: int| 1 <= j < 5 ==> is_unit_reading(#[trigger] readings[j]))
            ==> spec_parse_fields(tokens, readings, line) == Ok::<LabelRecord, LabelFault>(
                LabelRecord {
                    class_id: n as int,
                    x_center: tokens[1],
                    y_center: tokens[2],
                    width: tokens[3],
                    height: tokens[4],
                },
            ),
{
    assert forall|k: int|
        #![trigger readings[k]]
        tokens.len() == 5 && (readings[0] matches Reading::Number { whole: Some(n), .. }
            && n < NUM_CLASSES) && 1 <= k < 5 && !is_unit_reading(readings[k]) && (forall|j: int|
            1 <= j < k ==> is_unit_reading(#[trigger] readings[j])) implies spec_parse_fields(
        tokens,
        readings,
        line,
    ) == if readings[k] is Malformed {
        Err::<LabelRecord, LabelFault>(LabelFault::BadNumber { token: tokens[k], index: k, line })
    } else {
        Err::<LabelRecord, LabelFault>(LabelFault::OutOfRange { token: tokens[k], index: k, line })
    } by {
        lemma_first_bad_geometry_at(readings, 1, k);
    }
    if tokens.len() == 5 && (forall|j: int| 1 <= j < 5 ==> is_unit_reading(#[trigger] readings[j])) {
        lemma_first_bad_geometry_none(readings, 1);
    }
}

/// The first bad geometry field from `from` on is `k`, when the fields from
/// `from` up to `k` are good and field `k` is not.
proof fn lemma_first_bad_geometry_at(readings: Seq<Reading>, from: int, k: int)
    requires
        1 <= from <= k < 5,
        !is_unit_reading(readings[k]),
        forall|j: int| from <= j < k ==> is_unit_reading(#[trigger] readings[j]),
    ensures
        first_bad_geometry(readings, from) == Some(k),
    decreases k - from,
{
    if from < k {
        assert(is_unit_reading(readings[from]));
        lemma_first_bad_geometry_at(readings, from + 1, k);
    }
}

/// No geometry field from `from` on is bad when all of them are good.
proof fn lemma_first_bad_geometry_none(readings: Seq<Reading>, from: int)
    requires
        1 <= from,
        forall|j: int| from <= j < 5 ==> is_unit_reading(#[trigger] readings[j]),
    ensures
        first_bad_geometry(readings, from) is None,
    decreases 5 - from,
{
    if from < 5 {
        assert(is_unit_reading(readings[from]));
        lemma_first_bad_geometry_none(readings, from + 1);
    }
}

/// What the first `n` lines give: when every one of them parses, the labels,
/// one per line and in the order of the lines, the `k`-th being the record of
/// line `k`; otherwise the error of the first line that does not parse.
pub proof fn lemma_parse_lines_outcome(
    lines: Seq<(int, Seq<Seq<char>>)>,
    readings: Seq<Seq<Reading>>,
    n: int,
)
    requires
        0 <= n,
    ensures
        (forall|k: int| 0 <= k < n ==> (#[trigger] spec_parse_fields(lines[k].1, readings[k], lines[k].0)) is Ok)
            ==> spec_parse_lines(lines, readings, n) is Ok,
        spec_parse_lines(lines, readings, n) is Ok ==> {
            let ls = spec_parse_lines(lines, readings, n)->Ok_0;
            &&& ls.len() == n
            &&& forall|k: int|
                0 <= k < n ==> spec_parse_fields(lines[k].1, readings[k], lines[k].0) == Ok::<
                    LabelRecord,
                    LabelFault,
                >(#[trigger] ls[k])
        },
        spec_parse_lines(lines, readings, n) is Err ==> exists|k: int|
            0 <= k < n && (forall|j: int|
                0 <= j < k ==> (#[trigger] spec_parse_fields(lines[j].1, readings[j], lines[j].0)) is Ok)
                && #[trigger] spec_parse_fields(lines[k].1, readings[k], lines[k].0) == Err::<
                LabelRecord,
                LabelFault,
            >(spec_parse_lines(lines, readings, n)->Err_0),
    decreases n,
{
    if n > 0 {
        lemma_parse_lines_outcome(lines, readings, n - 1);
        let prev = spec_parse_lines(lines, readings, n - 1);
        let cur = spec_parse_fields(lines[n - 1].1, readings[n - 1], lines[n - 1].0);
        if prev is Ok && cur is Ok {
            let ls = prev->Ok_0;
            let out = ls.push(cur->Ok_0);
            assert forall|k: int| 0 <= k < n implies spec_parse_fields(lines[k].1, readings[k], lines[k].0)
                == Ok::<LabelRecord, LabelFault>(#[trigger] out[k]) by {
                if k < n - 1 {
                    assert(out[k] == ls[k]);
                }
            }
        }
        if prev is Err {
            let k = choose|k: int|
                0 <= k < n - 1 && (forall|j: int|
                    0 <= j < k ==> (#[trigger] spec_parse_fields(lines[j].1, readings[j], lines[j].0)) is Ok)
                    && #[trigger] spec_parse_fields(lines[k].1, readings[k], lines[k].0) == Err::<
                    LabelRecord,
                    LabelFault,
                >(prev->Err_0);
            assert(0 <= k < n);
        } else if cur is Err {
            assert(forall|j: int|
                0 <= j < n - 1 ==> (#[trigger] spec_parse_fields(lines[j].1, readings[j], lines[j].0)) is Ok) by {
                assert forall|j: int| 0 <= j < n - 1 implies (#[trigger] spec_parse_fields(
                    lines[j].1,
                    readings[j],
                    lines[j].0,
                )) is Ok by {
                    assert(spec_parse_fields(lines[j].1, readings[j], lines[j].0) == Ok::<
                        LabelRecord,
                        LabelFault,
                    >(spec_parse_lines(lines, readings, n - 1)->Ok_0[j]));
                }
            }
            assert(spec_parse_fields(lines[n - 1].1, readings[n - 1], lines[n - 1].0) == cur);
        }
    }
}

/// What a label text gives: when every non-blank line parses, one label per
/// non-blank line, in file order, the `k`-th being the record of the `k`-th
/// non-blank line under its line number; otherwise the error of the first
/// non-blank line that does not parse.
pub proof fn lemma_text_parse_outcome(t: LabelText)
    ensures
        ({
            let lines = label_lines(t.content@);
            let rv = t.readings_view();
            &&& (forall|k: int|
                0 <= k < lines.len() ==> (#[trigger] spec_parse_fields(lines[k].1, rv[k], lines[k].0)) is Ok)
                ==> t.spec_parse() is Ok
            &&& t.spec_parse() is Ok ==> {
                let ls = t.spec_parse()->Ok_0;
                &&& ls.len() == lines.len()
                &&& forall|k: int|
                    0 <= k < lines.len() ==> spec_parse_fields(lines[k].1, rv[k], lines[k].0) == Ok::<
                        LabelRecord,
                        LabelFault,
                    >(#[trigger] ls[k])
            }
            &&& t.spec_parse() is Err ==> exists|k: int|
                0 <= k < lines.len() && (forall|j: int|
                    0 <= j < k ==> (#[trigger] spec_parse_fields(lines[j].1, rv[j], lines[j].0)) is Ok)
                    && #[trigger] spec_parse_fields(lines[k].1, rv[k], lines[k].0) == Err::<
                    LabelRecord,
                    LabelFault,
                >(t.spec_parse()->Err_0)
        }),
{
    lemma_parse_lines_outcome(label_lines(t.content@), t.readings_view(), label_lines(t.content@).len() as int);
}

} // verus!
