//! Validation of the training dataset directory layout:
//!
//! ```text
//! datasets/training/
//!   images/
//!     train/  *.jpg | *.png | *.jpeg
//!     val/    *.jpg | *.png | *.jpeg
//!   labels/
//!     train/  *.txt   (one per image, same stem)
//!     val/    *.txt
//! ```
//!
//! Invariants enforced, for each split:
//!
//! - every label file `labels/<split>/<stem>.txt` has an image
//!   `images/<split>/<stem>.<ext>` with the same stem, where `<ext>` is `jpg`,
//!   `jpeg` or `png` in any letter case, and every image has its label file
//!   `<stem>.txt` (no orphan images, no orphan labels);
//! - every label file parses and validates as YOLO labels.
//!
//! Images and label files are regular files; other entries of the two
//! directories are ignored. Label files are checked in listing order; when they
//! all check out, the image without a label that comes first (by stem in path
//! order, then by name) is reported.
//!
//! The layout is handed over as a [`TrainingTree`]: for each split, the
//! listings of its two directories, with the text of each label file.
use vstd::prelude::*;

use crate::classes::NUM_CLASSES;
use crate::file_name::{
    file_stem,
    is_image,
    is_image_name,
    is_label_file,
    is_label_name,
    lemma_name_less_order,
    name_less,
    sorts_before,
    stem_of,
};
use crate::text::label_lines;
use crate::yolo::{
    labels_view,
    parse_label_text,
    LabelError,
    LabelFault,
    LabelRecord,
    LabelText,
    YoloLabel,
    lemma_parsed_lines,
};

verus! {

/// Image file extensions accepted by the training pipeline.
pub const ALLOWED_IMAGE_EXTENSIONS: [&'static str; 3] = ["jpg", "jpeg", "png"];

/// Which split (train or val) a file belongs to.
#[derive(Debug, Clone, Copy, PartialEq, Eq, Structural)]
pub enum SplitRole {
    /// The training split.
    Train,
    /// The validation split.
    Val,
}

/// The name of a split.
pub open spec fn role_name(role: SplitRole) -> Seq<char> {
    match role {
        SplitRole::Train => seq!['t', 'r', 'a', 'i', 'n'],
        SplitRole::Val => seq!['v', 'a', 'l'],
    }
}

impl SplitRole {
    /// Human-readable label for logging and error messages.
    pub fn as_str(self) -> (res: &'static str)
        ensures
            res@ == role_name(self),
    {
        match self {
            SplitRole::Train => {
                let s = "train";
                proof {
                    reveal_strlit("train");
                }
                assert(s@ =~= role_name(self));
                s
            },
            SplitRole::Val => {
                let s = "val";
                proof {
                    reveal_strlit("val");
                }
                assert(s@ =~= role_name(self));
                s
            },
        }
    }
}

impl Default for SplitRole {
    fn default() -> (res: Self)
        ensures
            res == SplitRole::Train,
    {
        SplitRole::Train
    }
}

/// The two directories of a split.
#[derive(Debug, Clone, Copy, PartialEq, Eq, Structural)]
pub enum DirKind {
    /// `images/<split>`.
    Images,
    /// `labels/<split>`.
    Labels,
}

/// The name of a directory kind.
pub open spec fn kind_name(kind: DirKind) -> Seq<char> {
    match kind {
        DirKind::Images => seq!['i', 'm', 'a', 'g', 'e', 's'],
        DirKind::Labels => seq!['l', 'a', 'b', 'e', 'l', 's'],
    }
}

impl DirKind {
    /// The directory's name under the training root.
    pub fn as_str(self) -> (res: &'static str)
        ensures
            res@ == kind_name(self),
    {
        match self {
            DirKind::Images => {
                let s = "images";
                proof {
                    reveal_strlit("images");
                }
                assert(s@ =~= kind_name(self));
                s
            },
            DirKind::Labels => {
                let s = "labels";
                proof {
                    reveal_strlit("labels");
                }
                assert(s@ =~= kind_name(self));
                s
            },
        }
    }
}

/// A directory of the layout.
#[derive(Debug, Clone, Copy, PartialEq, Eq, Structural)]
pub enum Place {
    /// The training root itself.
    Root,
    /// The directory `<kind>/<role>` under the root.
    Dir { role: SplitRole, kind: DirKind },
}

/// A structural failure in the training split directory layout. File names
/// are those of entries of the split's directory.
#[derive(Debug)]
pub enum DatasetError {
    /// A required directory was missing from the layout.
    MissingDirectory { role: SplitRole, name: DirKind },
    /// An image in `images/` has no sibling label file.
    OrphanImage { file: String, role: SplitRole },
    /// A label file in `labels/` has no sibling image file.
    OrphanLabel { file: String, role: SplitRole },
    /// A label file failed to parse.
    InvalidLabel { file: String, role: SplitRole, source: LabelError },
    /// A directory of the layout did not exist or could not be listed.
    RootMissing(Place),
}

/// The abstract value of a [`DatasetError`].
pub enum DatasetFault {
    MissingDirectory { role: SplitRole, name: DirKind },
    OrphanImage { file: Seq<char>, role: SplitRole },
    OrphanLabel { file: Seq<char>, role: SplitRole },
    InvalidLabel { file: Seq<char>, role: SplitRole, source: LabelFault },
    RootMissing(Place),
}

impl View for DatasetError {
    type V = DatasetFault;

    open spec fn view(&self) -> DatasetFault {
        match self {
            DatasetError::MissingDirectory { role, name } => DatasetFault::MissingDirectory {
                role: *role,
                name: *name,
            },
            DatasetError::OrphanImage { file, role } => DatasetFault::OrphanImage {
                file: file@,
                role: *role,
            },
            DatasetError::OrphanLabel { file, role } => DatasetFault::OrphanLabel {
                file: file@,
                role: *role,
            },
            DatasetError::InvalidLabel { file, role, source } => DatasetFault::InvalidLabel {
                file: file@,
                role: *role,
                source: source@,
            },
            DatasetError::RootMissing(p) => DatasetFault::RootMissing(*p),
        }
    }
}

/// An entry of a directory listing.
pub struct DirEntry {
    /// The entry's file name.
    pub name: String,
    /// Whether the entry is (or links to) a regular file.
    pub is_file: bool,
    /// For a label file: its text, or the message of the error that reading it gave.
    pub text: Option<Result<LabelText, String>>,
}

/// What is known of a directory of the layout.
pub enum Listing {
    /// The path is not a directory.
    Missing,
    /// The directory could not be listed.
    Unreadable,
    /// The directory's entries, in listing order; `None` where an entry could not be read.
    Entries(Vec<Option<DirEntry>>),
}

/// The two directories of a split.
pub struct SplitListing {
    /// `images/<split>`.
    pub images: Listing,
    /// `labels/<split>`.
    pub labels: Listing,
}

/// The whole training layout.
pub struct TrainingTree {
    /// Whether the training root is a directory.
    pub root_is_dir: bool,
    /// The `train` split.
    pub train: SplitListing,
    /// The `val` split.
    pub val: SplitListing,
}

/// A validated training-dataset split: the number of image/label pairs and the
/// class distribution observed across its labels.
#[derive(Debug)]
pub struct SplitSummary {
    /// The split role this summary describes.
    pub role: SplitRole,
    /// Number of (image, label) pairs that passed validation.
    pub pairs: usize,
    /// Per-class object counts across all labels, indexed by class id.
    pub class_histogram: [u64; NUM_CLASSES],
}

/// The abstract value of a [`SplitSummary`].
pub struct SummaryView {
    pub role: SplitRole,
    pub pairs: int,
    pub histogram: Seq<int>,
}

/// A histogram as a sequence of integers.
pub open spec fn histogram_view(h: Seq<u64>) -> Seq<int> {
    h.map_values(|x: u64| x as int)
}

impl View for SplitSummary {
    type V = SummaryView;

    open spec fn view(&self) -> SummaryView {
        SummaryView {
            role: self.role,
            pairs: self.pairs as int,
            histogram: histogram_view(self.class_histogram@),
        }
    }
}

/// The histogram of no labels.
pub open spec fn empty_histogram() -> Seq<int> {
    seq![0int, 0int, 0int, 0int, 0int, 0int, 0int]
}

impl Default for SplitSummary {
    fn default() -> (res: Self)
        ensures
            res@.role == SplitRole::Train,
            res@.pairs == 0,
            res@.histogram == empty_histogram(),
    {
        let s = SplitSummary { role: SplitRole::Train, pairs: 0, class_histogram: [0, 0, 0, 0, 0, 0, 0] };
        assert(s@.histogram =~= empty_histogram());
        s
    }
}

/// The entry is an image: its name has an image extension.
pub open spec fn is_image_entry(e: Option<DirEntry>) -> bool {
    e is Some && is_image_name(e->0.name@)
}

/// The entry is an image file: a regular file whose name has an image extension.
pub open spec fn is_image_file(e: Option<DirEntry>) -> bool {
    is_image_entry(e) && e->0.is_file
}

/// The entry is a label: its extension is `txt`.
pub open spec fn is_label_entry(e: Option<DirEntry>) -> bool {
    e is Some && is_label_name(e->0.name@)
}

/// The entry is a label file: a regular file whose extension is `txt`.
pub open spec fn is_label_file_entry(e: Option<DirEntry>) -> bool {
    is_label_entry(e) && e->0.is_file
}

/// The entry is an image file (`images`) or a label file (`!images`).
pub open spec fn is_listed_kind(e: Option<DirEntry>, images: bool) -> bool {
    if images {
        is_image_file(e)
    } else {
        is_label_file_entry(e)
    }
}

/// The listing holds an image file (`images`) or a label file (`!images`) with stem `s`.
pub open spec fn has_stem(es: Seq<Option<DirEntry>>, s: Seq<char>, images: bool) -> bool {
    exists|i: int|
        #![trigger es[i]]
        0 <= i < es.len() && is_listed_kind(es[i], images) && file_stem(es[i]->0.name@) == s
}

/// `s` is the stem of an image file of the listing.
pub open spec fn is_image_stem(es: Seq<Option<DirEntry>>, s: Seq<char>) -> bool {
    has_stem(es, s, true)
}

/// The label listing holds the label file `<s>.txt`: a label file with stem `s`.
pub open spec fn has_label_for(labels: Seq<Option<DirEntry>>, s: Seq<char>) -> bool {
    has_stem(labels, s, false)
}

/// `n` is the name of an image whose stem has no label file.
pub open spec fn is_orphan_image(
    images: Seq<Option<DirEntry>>,
    labels: Seq<Option<DirEntry>>,
    n: Seq<char>,
) -> bool {
    &&& exists|i: int|
        #![trigger images[i]]
        0 <= i < images.len() && is_image_entry(images[i]) && images[i]->0.name@ == n
    &&& !has_label_for(labels, file_stem(n))
}

/// The order in which images are reported: by stem in path order, then by name.
pub open spec fn image_before(a: Seq<char>, b: Seq<char>) -> bool {
    ||| name_less(file_stem(a), file_stem(b))
    ||| (file_stem(a) == file_stem(b) && name_less(a, b))
}

/// `n` is the orphan image that comes first.
pub open spec fn is_first_orphan(
    images: Seq<Option<DirEntry>>,
    labels: Seq<Option<DirEntry>>,
    n: Seq<char>,
) -> bool {
    &&& is_orphan_image(images, labels, n)
    &&& forall|o: Seq<char>| #[trigger] is_orphan_image(images, labels, o) ==> !image_before(o, n)
}

/// The name of the first image, by stem in path order, that has no label file.
pub open spec fn first_orphan_image(images: Seq<Option<DirEntry>>, labels: Seq<Option<DirEntry>>) -> Option<
    Seq<char>,
> {
    if exists|n: Seq<char>| is_orphan_image(images, labels, n) {
        Some(choose|n: Seq<char>| is_first_orphan(images, labels, n))
    } else {
        None
    }
}

/// The histogram `hist` with the classes of `ls` counted in.
pub open spec fn count_classes(hist: Seq<int>, ls: Seq<LabelRecord>) -> Seq<int>
    decreases ls.len(),
{
    if ls.len() == 0 {
        hist
    } else {
        let h = count_classes(hist, ls.drop_last());
        let c = ls.last().class_id;
        h.update(c, h[c] + 1)
    }
}

/// One label file, checked after those before it gave `acc` (pairs and
/// histogram): an image file must share its stem, and its text must parse.
pub open spec fn label_step(
    images: Seq<Option<DirEntry>>,
    e: DirEntry,
    role: SplitRole,
    acc: (int, Seq<int>),
) -> Result<(int, Seq<int>), DatasetFault> {
    let name = e.name@;
    if !is_image_stem(images, file_stem(name)) {
        Err(DatasetFault::OrphanLabel { file: name, role })
    } else {
        match e.text {
            None => Err(
                DatasetFault::InvalidLabel {
                    file: name,
                    role,
                    source: LabelFault::ReadError { path: name, message: Seq::empty() },
                },
            ),
            Some(Err(m)) => Err(
                DatasetFault::InvalidLabel {
                    file: name,
                    role,
                    source: LabelFault::ReadError { path: name, message: m@ },
                },
            ),
            Some(Ok(t)) => match t.spec_parse() {
                Err(f) => Err(DatasetFault::InvalidLabel { file: name, role, source: f }),
                Ok(ls) => Ok((acc.0 + 1, count_classes(acc.1, ls))),
            },
        }
    }
}

/// The label files among the first `n` entries of the label listing, checked in
/// order: the pairs and the histogram they give, or the first error.
pub open spec fn label_pass(
    images: Seq<Option<DirEntry>>,
    labels: Seq<Option<DirEntry>>,
    role: SplitRole,
    n: int,
) -> Result<(int, Seq<int>), DatasetFault>
    decreases n,
{
    if n <= 0 {
        Ok((0, empty_histogram()))
    } else {
        match label_pass(images, labels, role, n - 1) {
            Err(e) => Err(e),
            Ok(acc) => if is_label_entry(labels[n - 1]) {
                label_step(images, labels[n - 1]->0, role, acc)
            } else {
                Ok(acc)
            },
        }
    }
}

/// The outcome of validating one split.
pub open spec fn spec_validate_split(split: SplitListing, role: SplitRole) -> Result<
    SummaryView,
    DatasetFault,
> {
    if split.images is Missing {
        Err(DatasetFault::MissingDirectory { role, name: DirKind::Images })
    } else if split.labels is Missing {
        Err(DatasetFault::MissingDirectory { role, name: DirKind::Labels })
    } else {
        match split.images {
            Listing::Entries(iv) => if exists|i: int| 0 <= i < iv@.len() && #[trigger] iv@[i] is None {
                Err(DatasetFault::RootMissing(Place::Dir { role, kind: DirKind::Images }))
            } else {
                match split.labels {
                    Listing::Entries(lv) => match label_pass(iv@, lv@, role, lv@.len() as int) {
                        Err(e) => Err(e),
                        Ok(acc) => match first_orphan_image(iv@, lv@) {
                            Some(n) => Err(DatasetFault::OrphanImage { file: n, role }),
                            None => Ok(SummaryView { role, pairs: acc.0, histogram: acc.1 }),
                        },
                    },
                    _ => Err(DatasetFault::RootMissing(Place::Dir { role, kind: DirKind::Labels })),
                }
            },
            _ => Err(DatasetFault::RootMissing(Place::Dir { role, kind: DirKind::Images })),
        }
    }
}

/// The number of non-blank lines of a label file of the listing.
pub open spec fn label_line_count(e: Option<DirEntry>) -> nat {
    if is_label_entry(e) {
        match e->0.text {
            Some(Ok(t)) => label_lines(t.content@).len(),
            _ => 0,
        }
    } else {
        0
    }
}

/// The number of non-blank lines of the label files among the first `n` entries.
pub open spec fn label_line_total(labels: Seq<Option<DirEntry>>, n: int) -> nat
    decreases n,
{
    if n <= 0 {
        0
    } else {
        label_line_total(labels, n - 1) + label_line_count(labels[n - 1])
    }
}

/// Every label file of the listing comes with its text, whose readings cover its fields.
pub open spec fn labels_wf(labels: Seq<Option<DirEntry>>) -> bool {
    forall|i: int|
        #![trigger labels[i]]
        0 <= i < labels.len() && is_label_entry(labels[i]) ==> match labels[i]->0.text {
            Some(Ok(t)) => t.wf(),
            Some(Err(_)) => true,
            None => false,
        }
}

impl SplitListing {
    /// The label files come with their texts, and their labels can be counted in a `u64`.
    pub open spec fn wf(&self) -> bool {
        match self.labels {
            Listing::Entries(lv) => labels_wf(lv@) && label_line_total(lv@, lv@.len() as int)
                <= u64::MAX,
            _ => true,
        }
    }
}

impl TrainingTree {
    /// Both splits are well formed.
    pub open spec fn wf(&self) -> bool {
        self.train.wf() && self.val.wf()
    }
}

/// The outcome of validating the whole layout.
pub open spec fn spec_validate_training_layout(tree: TrainingTree) -> Result<
    (SummaryView, SummaryView),
    DatasetFault,
> {
    if !tree.root_is_dir {
        Err(DatasetFault::RootMissing(Place::Root))
    } else {
        match spec_validate_split(tree.train, SplitRole::Train) {
            Err(e) => Err(e),
            Ok(t) => match spec_validate_split(tree.val, SplitRole::Val) {
                Err(e) => Err(e),
                Ok(v) => Ok((t, v)),
            },
        }
    }
}

/// Validates the full training layout: the root must be a directory, then the
/// `train` split and the `val` split are validated in turn.
pub fn validate_training_layout(tree: &TrainingTree) -> (res: Result<
    (SplitSummary, SplitSummary),
    DatasetError,
>)
    requires
        tree.wf(),
    ensures
        match (res, spec_validate_training_layout(*tree)) {
            (Ok((t, v)), Ok((st, sv))) => t@ == st && v@ == sv,
            (Err(e), Err(f)) => e@ == f,
            _ => false,
        },
{
    if !tree.root_is_dir {
        return Err(DatasetError::RootMissing(Place::Root));
    }
    let train = match validate_split(&tree.train, SplitRole::Train) {
        Ok(s) => s,
        Err(e) => return Err(e),
    };
    let val = match validate_split(&tree.val, SplitRole::Val) {
        Ok(s) => s,
        Err(e) => return Err(e),
    };
    Ok((train, val))
}

/// The sum of the seven counts of a histogram.
pub open spec fn histogram_total(h: Seq<int>) -> int {
    h[0] + h[1] + h[2] + h[3] + h[4] + h[5] + h[6]
}

/// Once the label files give an error, every longer prefix gives the same error.
proof fn lemma_label_pass_err_stays(
    images: Seq<Option<DirEntry>>,
    labels: Seq<Option<DirEntry>>,
    role: SplitRole,
    n: int,
    m: int,
)
    requires
        0 <= n <= m,
        label_pass(images, labels, role, n) is Err,
    ensures
        label_pass(images, labels, role, m) == label_pass(images, labels, role, n),
    decreases m - n,
{
    if m > n {
        lemma_label_pass_err_stays(images, labels, role, n, m - 1);
    }
}

/// The line total grows with the number of entries counted.
proof fn lemma_label_line_total_monotone(labels: Seq<Option<DirEntry>>, n: int, m: int)
    requires
        n <= m,
    ensures
        label_line_total(labels, n) <= label_line_total(labels, m),
    decreases m - n,
{
    if m > n {
        lemma_label_line_total_monotone(labels, n, m - 1);
    }
}

/// `v` holds the string `s`.
pub open spec fn holds_string(v: Seq<String>, s: Seq<char>) -> bool {
    exists|k: int| 0 <= k < v.len() && (#[trigger] v[k])@ == s
}

/// Whether `v` holds the string `s`.
fn contains_string(v: &Vec<String>, s: &String) -> (res: bool)
    ensures
        res == holds_string(v@, s@),
{
    let mut k: usize = 0;
    while k < v.len()
        invariant
            k <= v@.len(),
            forall|j: int| 0 <= j < k ==> (#[trigger] v@[j])@ != s@,
        decreases v@.len() - k,
    {
        if v[k] == *s {
            return true;
        }
        k = k + 1;
    }
    false
}

/// Whether the entry is an image file (`images`) or a label file (`!images`).
fn listed_kind(e: &Option<DirEntry>, images: bool) -> (res: bool)
    ensures
        res == is_listed_kind(*e, images),
{
    match e {
        Some(d) => d.is_file && if images {
            is_image(d.name.as_str())
        } else {
            is_label_file(d.name.as_str())
        },
        None => false,
    }
}

/// The stems of the image files (`images`) or label files (`!images`) of the listing.
fn stems_of(es: &Vec<Option<DirEntry>>, images: bool) -> (res: Vec<String>)
    ensures
        forall|s: Seq<char>| #[trigger] has_stem(es@, s, images) == holds_string(res@, s),
{
    let mut res: Vec<String> = Vec::new();
    let ghost mut origin: Seq<int> = Seq::empty();
    let mut i: usize = 0;
    while i < es.len()
        invariant
            i <= es@.len(),
            origin.len() == res@.len(),
            forall|k: int|
                0 <= k < res@.len() ==> 0 <= #[trigger] origin[k] < i && is_listed_kind(
                    es@[origin[k]],
                    images,
                ) && file_stem(es@[origin[k]]->0.name@) == res@[k]@,
            forall|j: int|
                #![trigger es@[j]]
                0 <= j < i && is_listed_kind(es@[j], images) ==> holds_string(
                    res@,
                    file_stem(es@[j]->0.name@),
                ),
        decreases es@.len() - i,
    {
        if listed_kind(&es[i], images) {
            let stem = match &es[i] {
                Some(d) => stem_of(d.name.as_str()),
                None => String::new(),
            };
            let ghost before = res@;
            res.push(stem);
            proof {
                origin = origin.push(i as int);
                assert(res@[before.len() as int]@ == file_stem(es@[i as int]->0.name@));
                assert forall|j: int|
                    #![trigger es@[j]]
                    0 <= j < i + 1 && is_listed_kind(es@[j], images) implies holds_string(
                    res@,
                    file_stem(es@[j]->0.name@),
                ) by {
                    if j < i {
                        let k = choose|k: int| 0 <= k < before.len() && (#[trigger] before[k])@ == file_stem(es@[j]->0.name@);
                        assert(res@[k] == before[k]);
                    } else {
                        assert(res@[before.len() as int]@ == file_stem(es@[j]->0.name@));
                    }
                }
                assert forall|k: int| 0 <= k < res@.len() implies 0 <= #[trigger] origin[k] < i + 1
                    && is_listed_kind(es@[origin[k]], images) && file_stem(es@[origin[k]]->0.name@)
                    == res@[k]@ by {
                    if k < before.len() {
                        assert(res@[k] == before[k]);
                    }
                }
            }
        }
        i = i + 1;
    }
    proof {
        assert forall|s: Seq<char>| #[trigger] has_stem(es@, s, images) == holds_string(res@, s) by {
            if holds_string(res@, s) {
                let k = choose|k: int| 0 <= k < res@.len() && (#[trigger] res@[k])@ == s;
                let j = origin[k];
                assert(es@[j] == es@[j]);
            }
            if has_stem(es@, s, images) {
                let j = choose|j: int|
                    #![trigger es@[j]]
                    0 <= j < es@.len() && is_listed_kind(es@[j], images) && file_stem(es@[j]->0.name@) == s;
                assert(es@[j] == es@[j]);
            }
        }
    }
    res
}

/// Checks the label files of a split in listing order, counting pairs and classes.
fn check_labels(
    images: &Vec<Option<DirEntry>>,
    labels: &Vec<Option<DirEntry>>,
    role: SplitRole,
    image_stems: &Vec<String>,
) -> (res: Result<(usize, [u64; NUM_CLASSES]), DatasetError>)
    requires
        forall|s: Seq<char>| #[trigger] is_image_stem(images@, s) == holds_string(image_stems@, s),
        labels_wf(labels@),
        label_line_total(labels@, labels@.len() as int) <= u64::MAX,
    ensures
        match (res, label_pass(images@, labels@, role, labels@.len() as int)) {
            (Ok((p, h)), Ok((sp, sh))) => p as int == sp && histogram_view(h@) == sh,
            (Err(e), Err(f)) => e@ == f,
            _ => false,
        },
{
    let mut pairs: usize = 0;
    let mut hist: [u64; NUM_CLASSES] = [0, 0, 0, 0, 0, 0, 0];
    let mut i: usize = 0;
    assert(histogram_view(hist@) =~= empty_histogram());
    while i < labels.len()
        invariant
            forall|s: Seq<char>| #[trigger] is_image_stem(images@, s) == holds_string(image_stems@, s),
            labels_wf(labels@),
            label_line_total(labels@, labels@.len() as int) <= u64::MAX,
            i <= labels@.len(),
            pairs <= i,
            label_pass(images@, labels@, role, i as int) == Ok::<(int, Seq<int>), DatasetFault>(
                (pairs as int, histogram_view(hist@)),
            ),
            histogram_total(histogram_view(hist@)) <= label_line_total(labels@, i as int),
        decreases labels@.len() - i,
    {
        proof {
            lemma_label_line_total_monotone(labels@, i + 1, labels@.len() as int);
        }
        match &labels[i] {
            None => {},
            Some(e) => {
                if is_label_file(e.name.as_str()) {
                    assert(is_label_entry(labels@[i as int]));
                    let stem = stem_of(e.name.as_str());
                    if !contains_string(image_stems, &stem) {
                        proof {
                            assert(!is_image_stem(images@, stem@));
                            lemma_label_pass_err_stays(images@, labels@, role, i + 1, labels@.len() as int);
                        }
                        return Err(DatasetError::OrphanLabel { file: e.name.clone(), role });
                    }
                    assert(is_image_stem(images@, stem@));
                    match &e.text {
                        None => {
                            proof {
                                lemma_label_pass_err_stays(images@, labels@, role, i + 1, labels@.len() as int);
                            }
                            return Err(
                                DatasetError::InvalidLabel {
                                    file: e.name.clone(),
                                    role,
                                    source: LabelError::ReadError { path: e.name.clone(), message: String::new() },
                                },
                            );
                        },
                        Some(Err(m)) => {
                            proof {
                                lemma_label_pass_err_stays(images@, labels@, role, i + 1, labels@.len() as int);
                            }
                            return Err(
                                DatasetError::InvalidLabel {
                                    file: e.name.clone(),
                                    role,
                                    source: LabelError::ReadError { path: e.name.clone(), message: m.clone() },
                                },
                            );
                        },
                        Some(Ok(t)) => {
                            assert(t.wf());
                            match parse_label_text(t) {
                                Err(le) => {
                                    proof {
                                        lemma_label_pass_err_stays(images@, labels@, role, i + 1, labels@.len() as int);
                                    }
                                    return Err(DatasetError::InvalidLabel { file: e.name.clone(), role, source: le });
                                },
                                Ok(ls) => {
                                    let ghost records = labels_view(ls@);
                                    let ghost h0 = histogram_view(hist@);
                                    proof {
                                        lemma_parsed_lines(label_lines(t.content@), t.readings_view(), label_lines(t.content@).len() as int);
                                        assert(records.len() == ls@.len());
                                        assert(label_line_count(labels@[i as int]) == records.len());
                                        assert(ls@.take(0) =~= Seq::<YoloLabel>::empty());
                                        assert(records.take(0) =~= Seq::<LabelRecord>::empty());
                                    }
                                    pairs = pairs + 1;
                                    let mut k: usize = 0;
                                    while k < ls.len()
                                        invariant
                                            k <= ls@.len(),
                                            records == labels_view(ls@),
                                            forall|j: int| 0 <= j < records.len() ==> 0 <= (#[trigger] records[j]).class_id < NUM_CLASSES,
                                            histogram_view(hist@) == count_classes(h0, records.take(k as int)),
                                            histogram_view(hist@).len() == NUM_CLASSES,
                                            h0.len() == NUM_CLASSES,
                                            histogram_total(histogram_view(hist@)) == histogram_total(h0) + k,
                                            histogram_total(h0) + records.len() <= u64::MAX,
                                        decreases ls@.len() - k,
                                    {
                                        let c = ls[k].class_id;
                                        assert(records[k as int].class_id == c);
                                        let ghost before = histogram_view(hist@);
                                        assert(hist@[c as int] as int == before[c as int]);
                                        assert(before[c as int] <= histogram_total(before)) by {
                                            assert(before[0] >= 0 && before[1] >= 0 && before[2] >= 0 && before[3] >= 0 && before[4] >= 0 && before[5] >= 0 && before[6] >= 0);
                                        }
                                        hist[c] = hist[c] + 1;
                                        proof {
                                            assert(records.take(k + 1).drop_last() =~= records.take(k as int));
                                            assert(histogram_view(hist@) =~= before.update(c as int, before[c as int] + 1));
                                        }
                                        k = k + 1;
                                    }
                                    proof {
                                        assert(records.take(ls@.len() as int) =~= records);
                                    }
                                },
                            }
                        },
                    }
                }
            },
        }
        i = i + 1;
    }
    Ok((pairs, hist))
}

/// The order of images is irreflexive, transitive and total.
pub proof fn lemma_image_before_order(a: Seq<char>, b: Seq<char>, c: Seq<char>)
    ensures
        !image_before(a, a),
        image_before(a, b) && image_before(b, c) ==> image_before(a, c),
        a != b ==> image_before(a, b) || image_before(b, a),
        !(image_before(a, b) && image_before(b, a)),
{
    lemma_name_less_order(file_stem(a), file_stem(b), file_stem(c));
    lemma_name_less_order(a, b, c);
    lemma_name_less_order(file_stem(a), file_stem(a), file_stem(a));
    lemma_name_less_order(file_stem(b), file_stem(b), file_stem(b));
}

/// The name of the first image, by stem in path order, that has no label file.
fn first_orphan(
    images: &Vec<Option<DirEntry>>,
    labels: &Vec<Option<DirEntry>>,
    label_stems: &Vec<String>,
) -> (res: Option<String>)
    requires
        forall|s: Seq<char>| #[trigger] has_label_for(labels@, s) == holds_string(label_stems@, s),
    ensures
        match res {
            Some(n) => first_orphan_image(images@, labels@) == Some(n@),
            None => first_orphan_image(images@, labels@) is None,
        },
{
    let mut cand: Option<(String, String)> = None;
    let mut j: usize = 0;
    while j < images.len()
        invariant
            forall|s: Seq<char>| #[trigger] has_label_for(labels@, s) == holds_string(label_stems@, s),
            j <= images@.len(),
            cand is None ==> forall|k: int|
                #![trigger images@[k]]
                0 <= k < j && is_image_entry(images@[k]) ==> has_label_for(
                    labels@,
                    file_stem(images@[k]->0.name@),
                ),
            cand matches Some(c) ==> is_orphan_image(images@, labels@, c.1@) && c.0@ == file_stem(c.1@),
            cand matches Some(c) ==> forall|k: int|
                #![trigger images@[k]]
                0 <= k < j && is_image_entry(images@[k]) && !has_label_for(
                    labels@,
                    file_stem(images@[k]->0.name@),
                ) ==> !image_before(images@[k]->0.name@, c.1@),
        decreases images@.len() - j,
    {
        match &images[j] {
            None => {},
            Some(e) => {
                if is_image(e.name.as_str()) {
                    let s = stem_of(e.name.as_str());
                    if !contains_string(label_stems, &s) {
                        let ghost n = e.name@;
                        proof {
                            assert(is_image_entry(images@[j as int]));
                            assert(is_orphan_image(images@, labels@, n));
                            lemma_image_before_order(n, n, n);
                        }
                        match cand {
                            None => {
                                cand = Some((s, e.name.clone()));
                            },
                            Some((cs, cn)) => {
                                let before = sorts_before(s.as_str(), cs.as_str()) || (s == cs
                                    && sorts_before(e.name.as_str(), cn.as_str()));
                                assert(before == image_before(n, cn@));
                                if before {
                                    proof {
                                        assert forall|k: int|
                                            #![trigger images@[k]]
                                            0 <= k < j && is_image_entry(images@[k]) && !has_label_for(
                                                labels@,
                                                file_stem(images@[k]->0.name@),
                                            ) implies !image_before(images@[k]->0.name@, n) by {
                                            lemma_image_before_order(images@[k]->0.name@, n, cn@);
                                        }
                                    }
                                    cand = Some((s, e.name.clone()));
                                } else {
                                    cand = Some((cs, cn));
                                }
                            },
                        }
                    }
                }
            },
        }
        j = j + 1;
    }
    match cand {
        None => {
            assert(!exists|n: Seq<char>| is_orphan_image(images@, labels@, n)) by {
                if exists|n: Seq<char>| is_orphan_image(images@, labels@, n) {
                    let n = choose|n: Seq<char>| is_orphan_image(images@, labels@, n);
                    let k = choose|k: int|
                        #![trigger images@[k]]
                        0 <= k < images@.len() && is_image_entry(images@[k]) && images@[k]->0.name@ == n;
                    assert(images@[k] == images@[k]);
                }
            }
            None
        },
        Some((_, cn)) => {
            proof {
                assert forall|o: Seq<char>| #[trigger] is_orphan_image(images@, labels@, o) implies !image_before(
                    o,
                    cn@,
                ) by {
                    let k = choose|k: int|
                        #![trigger images@[k]]
                        0 <= k < images@.len() && is_image_entry(images@[k]) && images@[k]->0.name@ == o;
                    assert(images@[k] == images@[k]);
                }
                assert(is_first_orphan(images@, labels@, cn@));
                let m = choose|n: Seq<char>| is_first_orphan(images@, labels@, n);
                assert(is_first_orphan(images@, labels@, m));
                lemma_image_before_order(m, cn@, m);
                assert(m == cn@);
            }
            Some(cn)
        },
    }
}

/// Validates one split: both directories exist and can be listed, every label
/// file has its image and parses, and every image has its label file.
fn validate_split(split: &SplitListing, role: SplitRole) -> (res: Result<SplitSummary, DatasetError>)
    requires
        split.wf(),
    ensures
        match (res, spec_validate_split(*split, role)) {
            (Ok(s), Ok(v)) => s@ == v,
            (Err(e), Err(f)) => e@ == f,
            _ => false,
        },
{
    if let Listing::Missing = &split.images {
        return Err(DatasetError::MissingDirectory { role, name: DirKind::Images });
    }
    if let Listing::Missing = &split.labels {
        return Err(DatasetError::MissingDirectory { role, name: DirKind::Labels });
    }
    let images = match &split.images {
        Listing::Entries(v) => v,
        _ => {
            return Err(DatasetError::RootMissing(Place::Dir { role, kind: DirKind::Images }));
        },
    };
    let mut i: usize = 0;
    while i < images.len()
        invariant
            i <= images@.len(),
            forall|k: int| 0 <= k < i ==> #[trigger] images@[k] is Some,
            split.images matches Listing::Entries(iv) && iv@ == images@,
            !(split.labels is Missing),
        decreases images@.len() - i,
    {
        if let None = &images[i] {
            assert(images@[i as int] is None);
            return Err(DatasetError::RootMissing(Place::Dir { role, kind: DirKind::Images }));
        }
        i = i + 1;
    }
    let labels = match &split.labels {
        Listing::Entries(v) => v,
        _ => {
            return Err(DatasetError::RootMissing(Place::Dir { role, kind: DirKind::Labels }));
        },
    };
    let image_stems = stems_of(images, true);
    let label_stems = stems_of(labels, false);
    let (pairs, hist) = match check_labels(images, labels, role, &image_stems) {
        Ok(x) => x,
        Err(e) => {
            return Err(e);
        },
    };
    match first_orphan(images, labels, &label_stems) {
        Some(n) => Err(DatasetError::OrphanImage { file: n, role }),
        None => Ok(SplitSummary { role, pairs, class_histogram: hist }),
    }
}

/// The number of label files among the first `n` entries of the label listing.
pub open spec fn label_file_count(labels: Seq<Option<DirEntry>>, n: int) -> int
    decreases n,
{
    if n <= 0 {
        0
    } else {
        label_file_count(labels, n - 1) + if is_label_entry(labels[n - 1]) {
            1int
        } else {
            0int
        }
    }
}

/// The number of labels of `ls` with class `c`.
pub open spec fn class_count(ls: Seq<LabelRecord>, c: int) -> int
    decreases ls.len(),
{
    if ls.len() == 0 {
        0
    } else {
        class_count(ls.drop_last(), c) + if ls.last().class_id == c {
            1int
        } else {
            0int
        }
    }
}

/// The labels that a label file of the listing parses to (none for other entries).
pub open spec fn records_of(e: Option<DirEntry>) -> Seq<LabelRecord> {
    if is_label_entry(e) {
        match e->0.text {
            Some(Ok(t)) => match t.spec_parse() {
                Ok(ls) => ls,
                Err(_) => Seq::empty(),
            },
            _ => Seq::empty(),
        }
    } else {
        Seq::empty()
    }
}

/// The number of labels of class `c` in the label files among the first `n` entries.
pub open spec fn class_total(labels: Seq<Option<DirEntry>>, n: int, c: int) -> int
    decreases n,
{
    if n <= 0 {
        0
    } else {
        class_total(labels, n - 1, c) + class_count(records_of(labels[n - 1]), c)
    }
}

/// Counting labels whose classes lie in the vocabulary adds one to the total per
/// label, and to each class the number of labels of that class.
proof fn lemma_count_classes_total(hist: Seq<int>, ls: Seq<LabelRecord>)
    requires
        hist.len() == NUM_CLASSES,
        forall|j: int| 0 <= j < ls.len() ==> 0 <= (#[trigger] ls[j]).class_id < NUM_CLASSES,
    ensures
        count_classes(hist, ls).len() == NUM_CLASSES,
        histogram_total(count_classes(hist, ls)) == histogram_total(hist) + ls.len(),
        forall|c: int| 0 <= c < NUM_CLASSES ==> #[trigger] count_classes(hist, ls)[c] == hist[c] + class_count(ls, c),
    decreases ls.len(),
{
    if ls.len() > 0 {
        assert forall|j: int| 0 <= j < ls.drop_last().len() implies 0 <= (#[trigger] ls.drop_last()[j]).class_id
            < NUM_CLASSES by {
            assert(ls.drop_last()[j] == ls[j]);
        }
        lemma_count_classes_total(hist, ls.drop_last());
        assert(0 <= ls[ls.len() - 1].class_id < NUM_CLASSES);
    }
}

/// While the label files check out, every one of them has its image, the pairs
/// count them, and the histogram counts every one of their labels.
proof fn lemma_label_pass_ok(
    images: Seq<Option<DirEntry>>,
    labels: Seq<Option<DirEntry>>,
    role: SplitRole,
    n: int,
)
    requires
        0 <= n <= labels.len(),
        label_pass(images, labels, role, n) is Ok,
    ensures
        forall|i: int|
            0 <= i < n && is_label_entry(#[trigger] labels[i]) ==> is_image_stem(
                images,
                file_stem(labels[i]->0.name@),
            ),
        forall|i: int|
            0 <= i < n && is_label_entry(#[trigger] labels[i]) ==> (labels[i]->0.text matches Some(
                Ok(t),
            ) && t.spec_parse() is Ok),
        label_pass(images, labels, role, n)->Ok_0.0 == label_file_count(labels, n),
        label_pass(images, labels, role, n)->Ok_0.1.len() == NUM_CLASSES,
        histogram_total(label_pass(images, labels, role, n)->Ok_0.1) == label_line_total(labels, n),
        forall|c: int|
            0 <= c < NUM_CLASSES ==> #[trigger] label_pass(images, labels, role, n)->Ok_0.1[c]
                == class_total(labels, n, c),
    decreases n,
{
    if n > 0 {
        lemma_label_pass_ok(images, labels, role, n - 1);
        let acc = label_pass(images, labels, role, n - 1)->Ok_0;
        if is_label_entry(labels[n - 1]) {
            let e = labels[n - 1]->0;
            if let Some(Ok(t)) = e.text {
                if let Ok(ls) = t.spec_parse() {
                    lemma_parsed_lines(
                        label_lines(t.content@),
                        t.readings_view(),
                        label_lines(t.content@).len() as int,
                    );
                    lemma_count_classes_total(acc.1, ls);
                }
            }
        }
    }
}

/// The split is paired and parses: every image has its label file `<stem>.txt`,
/// every label has an image file with its stem, and every label was read and parses.
pub open spec fn paired_and_parsed(iv: Seq<Option<DirEntry>>, lv: Seq<Option<DirEntry>>) -> bool {
    &&& forall|i: int|
        0 <= i < iv.len() && is_image_entry(#[trigger] iv[i]) ==> has_label_for(
            lv,
            file_stem(iv[i]->0.name@),
        )
    &&& forall|i: int|
        0 <= i < lv.len() && is_label_entry(#[trigger] lv[i]) ==> is_image_stem(
            iv,
            file_stem(lv[i]->0.name@),
        )
    &&& forall|i: int|
        0 <= i < lv.len() && is_label_entry(#[trigger] lv[i]) ==> (lv[i]->0.text matches Some(Ok(t))
            && t.spec_parse() is Ok)
}

/// A split whose two directories could be listed validates exactly when every
/// entry of `images/` could be read and the split is paired and parses: every
/// image has its label file, every label has its image file (no orphans), and
/// every label file parses.
pub proof fn lemma_valid_split_iff_paired(
    split: SplitListing,
    role: SplitRole,
    iv: Seq<Option<DirEntry>>,
    lv: Seq<Option<DirEntry>>,
)
    requires
        split.images matches Listing::Entries(v) && v@ == iv,
        split.labels matches Listing::Entries(v) && v@ == lv,
    ensures
        spec_validate_split(split, role) is Ok <==> (forall|i: int| 0 <= i < iv.len() ==> #[trigger] iv[i] is Some)
            && paired_and_parsed(iv, lv),
{
    if spec_validate_split(split, role) is Ok {
        lemma_label_pass_ok(iv, lv, role, lv.len() as int);
        assert(!exists|i: int| 0 <= i < iv.len() && #[trigger] iv[i] is None);
        assert forall|i: int| 0 <= i < iv.len() && is_image_entry(#[trigger] iv[i]) implies has_label_for(
            lv,
            file_stem(iv[i]->0.name@),
        ) by {
            if !has_label_for(lv, file_stem(iv[i]->0.name@)) {
                assert(is_orphan_image(iv, lv, iv[i]->0.name@));
            }
        }
    }
    if (forall|i: int| 0 <= i < iv.len() ==> #[trigger] iv[i] is Some) && paired_and_parsed(iv, lv) {
        assert(!exists|i: int| 0 <= i < iv.len() && #[trigger] iv[i] is None);
        lemma_label_pass_all_good(iv, lv, role, lv.len() as int);
        assert(!exists|n: Seq<char>| is_orphan_image(iv, lv, n)) by {
            if exists|n: Seq<char>| is_orphan_image(iv, lv, n) {
                let n = choose|n: Seq<char>| is_orphan_image(iv, lv, n);
                let i = choose|i: int|
                    #![trigger iv[i]]
                    0 <= i < iv.len() && is_image_entry(iv[i]) && iv[i]->0.name@ == n;
                assert(iv[i] == iv[i]);
            }
        }
    }
}

/// In a split that validates, the summary belongs to the split, its pairs count
/// the label files, its histogram counts, over the seven classes, every
/// non-blank line of every label file, and its count for each class is the
/// number of labels of that class across the label files.
pub proof fn lemma_valid_split_counts(split: SplitListing, role: SplitRole)
    requires
        spec_validate_split(split, role) is Ok,
    ensures
        match split.labels {
            Listing::Entries(lv) => {
                let v = spec_validate_split(split, role)->Ok_0;
                &&& v.role == role
                &&& v.pairs == label_file_count(lv@, lv@.len() as int)
                &&& v.histogram.len() == NUM_CLASSES
                &&& histogram_total(v.histogram) == label_line_total(lv@, lv@.len() as int)
                &&& forall|c: int|
                    0 <= c < NUM_CLASSES ==> #[trigger] v.histogram[c] == class_total(lv@, lv@.len() as int, c)
            },
            _ => false,
        },
{
    if let (Listing::Entries(iv), Listing::Entries(lv)) = (split.images, split.labels) {
        lemma_label_pass_ok(iv@, lv@, role, lv@.len() as int);
    }
}

/// A split whose `images` or `labels` directory is missing fails with
/// `MissingDirectory`, naming `images` when that one is missing, else `labels`.
pub proof fn lemma_missing_directory(split: SplitListing, role: SplitRole)
    requires
        split.images is Missing || split.labels is Missing,
    ensures
        spec_validate_split(split, role) == Err::<SummaryView, DatasetFault>(
            DatasetFault::MissingDirectory {
                role,
                name: if split.images is Missing {
                    DirKind::Images
                } else {
                    DirKind::Labels
                },
            },
        ),
{
}

/// While every label file among the first `n` entries has an image with its
/// stem and parses, the label files check out.
proof fn lemma_label_pass_all_good(
    images: Seq<Option<DirEntry>>,
    labels: Seq<Option<DirEntry>>,
    role: SplitRole,
    n: int,
)
    requires
        0 <= n <= labels.len(),
        forall|i: int|
            0 <= i < n && is_label_entry(#[trigger] labels[i]) ==> is_image_stem(
                images,
                file_stem(labels[i]->0.name@),
            ) && (labels[i]->0.text matches Some(Ok(t)) && t.spec_parse() is Ok),
    ensures
        label_pass(images, labels, role, n) is Ok,
    decreases n,
{
    if n > 0 {
        lemma_label_pass_all_good(images, labels, role, n - 1);
    }
}

/// When every label file has its image, and every label file but the one at
/// `k` parses, while that one gives the error `f`, the split fails with
/// `InvalidLabel` for that file and `f`.
pub proof fn lemma_single_invalid_label(
    split: SplitListing,
    role: SplitRole,
    iv: Seq<Option<DirEntry>>,
    lv: Seq<Option<DirEntry>>,
    k: int,
    f: LabelFault,
)
    requires
        split.images matches Listing::Entries(v) && v@ == iv,
        split.labels matches Listing::Entries(v) && v@ == lv,
        forall|i: int| 0 <= i < iv.len() ==> #[trigger] iv[i] is Some,
        0 <= k < lv.len(),
        is_label_entry(lv[k]),
        forall|i: int|
            0 <= i < lv.len() && is_label_entry(#[trigger] lv[i]) ==> is_image_stem(
                iv,
                file_stem(lv[i]->0.name@),
            ),
        forall|i: int|
            0 <= i < lv.len() && i != k && is_label_entry(#[trigger] lv[i]) ==> (lv[i]->0.text matches Some(
                Ok(t),
            ) && t.spec_parse() is Ok),
        lv[k]->0.text matches Some(Ok(t)) && t.spec_parse() == Err::<Seq<LabelRecord>, LabelFault>(f),
    ensures
        spec_validate_split(split, role) == Err::<SummaryView, DatasetFault>(
            DatasetFault::InvalidLabel { file: lv[k]->0.name@, role, source: f },
        ),
{
    lemma_label_pass_all_good(iv, lv, role, k);
    lemma_label_pass_err_stays(iv, lv, role, k + 1, lv.len() as int);
    assert(!exists|i: int| 0 <= i < iv.len() && #[trigger] iv[i] is None);
}

/// Inserting an entry that is not an image file leaves the image stems and the
/// orphan images of a listing as they were.
proof fn lemma_insert_non_image(
    iv: Seq<Option<DirEntry>>,
    lv: Seq<Option<DirEntry>>,
    p: int,
    e: Option<DirEntry>,
)
    requires
        0 <= p <= iv.len(),
        !is_image_entry(e),
    ensures
        forall|s: Seq<char>| #[trigger] is_image_stem(iv.insert(p, e), s) == is_image_stem(iv, s),
        forall|n: Seq<char>| #[trigger] is_orphan_image(iv.insert(p, e), lv, n) == is_orphan_image(iv, lv, n),
{
    let iv2 = iv.insert(p, e);
    assert forall|s: Seq<char>| #[trigger] is_image_stem(iv2, s) == is_image_stem(iv, s) by {
        if is_image_stem(iv2, s) {
            let i = choose|i: int|
                #![trigger iv2[i]]
                0 <= i < iv2.len() && is_listed_kind(iv2[i], true) && file_stem(iv2[i]->0.name@) == s;
            if i < p {
                assert(iv[i] == iv2[i]);
            } else {
                assert(i != p);
                assert(iv[i - 1] == iv2[i]);
            }
        }
        if is_image_stem(iv, s) {
            let i = choose|i: int|
                #![trigger iv[i]]
                0 <= i < iv.len() && is_listed_kind(iv[i], true) && file_stem(iv[i]->0.name@) == s;
            if i < p {
                assert(iv2[i] == iv[i]);
            } else {
                assert(iv2[i + 1] == iv[i]);
            }
        }
    }
    assert forall|n: Seq<char>| #[trigger] is_orphan_image(iv2, lv, n) == is_orphan_image(iv, lv, n) by {
        if is_orphan_image(iv2, lv, n) {
            let i = choose|i: int|
                #![trigger iv2[i]]
                0 <= i < iv2.len() && is_image_entry(iv2[i]) && iv2[i]->0.name@ == n;
            if i < p {
                assert(iv[i] == iv2[i]);
            } else {
                assert(i != p);
                assert(iv[i - 1] == iv2[i]);
            }
        }
        if is_orphan_image(iv, lv, n) {
            let i = choose|i: int|
                #![trigger iv[i]]
                0 <= i < iv.len() && is_image_entry(iv[i]) && iv[i]->0.name@ == n;
            if i < p {
                assert(iv2[i] == iv[i]);
            } else {
                assert(iv2[i + 1] == iv[i]);
            }
        }
    }
}

/// The label files check out the same against image listings with the same image stems.
proof fn lemma_label_pass_same_stems(
    iv: Seq<Option<DirEntry>>,
    iv2: Seq<Option<DirEntry>>,
    lv: Seq<Option<DirEntry>>,
    role: SplitRole,
    n: int,
)
    requires
        forall|s: Seq<char>| #[trigger] is_image_stem(iv2, s) == is_image_stem(iv, s),
    ensures
        label_pass(iv2, lv, role, n) == label_pass(iv, lv, role, n),
    decreases n,
{
    if n > 0 {
        lemma_label_pass_same_stems(iv, iv2, lv, role, n - 1);
    }
}

/// An extra entry in `images/<split>` that is not an image file (such as
/// `.gitkeep` or `x.gif`) leaves the outcome of validating the split unchanged.
pub proof fn lemma_extra_non_image_ignored(
    split: SplitListing,
    split2: SplitListing,
    role: SplitRole,
    p: int,
    e: DirEntry,
)
    requires
        split.images matches Listing::Entries(iv) && split2.images matches Listing::Entries(iv2) && 0 <= p
            <= iv@.len() && iv2@ == iv@.insert(p, Some(e)),
        split2.labels == split.labels,
        !is_image_name(e.name@),
    ensures
        spec_validate_split(split2, role) == spec_validate_split(split, role),
{
    if let (Listing::Entries(iv), Listing::Entries(iv2)) = (split.images, split2.images) {
        assert(!is_image_entry(Some(e)));
        assert((exists|i: int| 0 <= i < iv2@.len() && #[trigger] iv2@[i] is None) == (exists|i: int|
            0 <= i < iv@.len() && #[trigger] iv@[i] is None)) by {
            if exists|i: int| 0 <= i < iv2@.len() && #[trigger] iv2@[i] is None {
                let i = choose|i: int| 0 <= i < iv2@.len() && #[trigger] iv2@[i] is None;
                if i < p {
                    assert(iv@[i] == iv2@[i]);
                } else {
                    assert(iv@[i - 1] == iv2@[i]);
                }
            }
            if exists|i: int| 0 <= i < iv@.len() && #[trigger] iv@[i] is None {
                let i = choose|i: int| 0 <= i < iv@.len() && #[trigger] iv@[i] is None;
                if i < p {
                    assert(iv2@[i] == iv@[i]);
                } else {
                    assert(iv2@[i + 1] == iv@[i]);
                }
            }
        }
        if let Listing::Entries(lv) = split.labels {
            assert(iv2@ == iv@.insert(p, Some(e)));
            lemma_insert_non_image(iv@, lv@, p, Some(e));
            assert(forall|n: Seq<char>|
                #![trigger is_orphan_image(iv2@, lv@, n)]
                #![trigger is_orphan_image(iv@, lv@, n)]
                is_orphan_image(iv2@, lv@, n) == is_orphan_image(iv@, lv@, n));
            lemma_label_pass_same_stems(iv@, iv2@, lv@, role, lv@.len() as int);
            assert forall|n: Seq<char>| is_first_orphan(iv2@, lv@, n) == is_first_orphan(iv@, lv@, n) by {
                assert(is_orphan_image(iv2@, lv@, n) == is_orphan_image(iv@, lv@, n));
            }
            assert((|n: Seq<char>| is_first_orphan(iv2@, lv@, n)) =~= (|n: Seq<char>|
                is_first_orphan(iv@, lv@, n)));
            assert((exists|n: Seq<char>| is_orphan_image(iv2@, lv@, n)) == (exists|n: Seq<char>|
                is_orphan_image(iv@, lv@, n))) by {
                if exists|n: Seq<char>| is_orphan_image(iv@, lv@, n) {
                    let n = choose|n: Seq<char>| is_orphan_image(iv@, lv@, n);
                    assert(is_orphan_image(iv2@, lv@, n));
                }
                if exists|n: Seq<char>| is_orphan_image(iv2@, lv@, n) {
                    let n = choose|n: Seq<char>| is_orphan_image(iv2@, lv@, n);
                    assert(is_orphan_image(iv@, lv@, n));
                }
            }
            if exists|n: Seq<char>| is_orphan_image(iv@, lv@, n) {
                lemma_first_orphan_exists(iv@, lv@);
                lemma_first_orphan_exists(iv2@, lv@);
                let m1 = choose|n: Seq<char>| is_first_orphan(iv2@, lv@, n);
                let m2 = choose|n: Seq<char>| is_first_orphan(iv@, lv@, n);
                assert(is_first_orphan(iv2@, lv@, m1));
                assert(is_first_orphan(iv@, lv@, m2));
                assert(is_first_orphan(iv@, lv@, m1));
                lemma_image_before_order(m1, m2, m1);
            }
            assert(first_orphan_image(iv2@, lv@) == first_orphan_image(iv@, lv@));
            assert(label_pass(iv2@, lv@, role, lv@.len() as int) == label_pass(iv@, lv@, role, lv@.len() as int));
        }
    }
}

/// `n` names an image file among the first `k` entries whose stem has no label file.
pub open spec fn is_orphan_among(
    images: Seq<Option<DirEntry>>,
    labels: Seq<Option<DirEntry>>,
    k: int,
    n: Seq<char>,
) -> bool {
    &&& exists|i: int|
        #![trigger images[i]]
        0 <= i < k && i < images.len() && is_image_entry(images[i]) && images[i]->0.name@ == n
    &&& !has_label_for(labels, file_stem(n))
}

/// Among the first `k` entries, an orphan image that comes first exists as soon
/// as any orphan image does.
proof fn lemma_first_orphan_among(images: Seq<Option<DirEntry>>, labels: Seq<Option<DirEntry>>, k: int)
    requires
        0 <= k <= images.len(),
        exists|n: Seq<char>| is_orphan_among(images, labels, k, n),
    ensures
        exists|m: Seq<char>|
            is_orphan_among(images, labels, k, m) && forall|o: Seq<char>|
                #[trigger] is_orphan_among(images, labels, k, o) ==> !image_before(o, m),
    decreases k,
{
    let j = k - 1;
    let x = images[j];
    let xn = x->0.name@;
    let x_orphan = is_image_entry(x) && !has_label_for(labels, file_stem(xn));
    assert forall|o: Seq<char>| #[trigger] is_orphan_among(images, labels, k, o) && !is_orphan_among(images, labels, j, o)
        implies x_orphan && o == xn by {
        let i = choose|i: int|
            #![trigger images[i]]
            0 <= i < k && i < images.len() && is_image_entry(images[i]) && images[i]->0.name@ == o;
        if i < j {
            assert(is_orphan_among(images, labels, j, o));
        }
    }
    if exists|n: Seq<char>| is_orphan_among(images, labels, j, n) {
        lemma_first_orphan_among(images, labels, j);
        let m = choose|m: Seq<char>|
            is_orphan_among(images, labels, j, m) && forall|o: Seq<char>|
                #[trigger] is_orphan_among(images, labels, j, o) ==> !image_before(o, m);
        let mi = choose|i: int|
            #![trigger images[i]]
            0 <= i < j && i < images.len() && is_image_entry(images[i]) && images[i]->0.name@ == m;
        assert(is_orphan_among(images, labels, k, m)) by {
            assert(images[mi] == images[mi]);
        }
        if x_orphan && image_before(xn, m) {
            assert(is_orphan_among(images, labels, k, xn)) by {
                assert(images[j] == x);
            }
            assert forall|o: Seq<char>| #[trigger] is_orphan_among(images, labels, k, o) implies !image_before(o, xn) by {
                lemma_image_before_order(o, xn, m);
                if is_orphan_among(images, labels, j, o) {
                    assert(!image_before(o, m));
                }
            }
        } else {
            assert forall|o: Seq<char>| #[trigger] is_orphan_among(images, labels, k, o) implies !image_before(o, m) by {
                if !is_orphan_among(images, labels, j, o) {
                    assert(o == xn);
                }
            }
        }
    } else {
        let n = choose|n: Seq<char>| is_orphan_among(images, labels, k, n);
        assert(x_orphan && n == xn);
        assert forall|o: Seq<char>| #[trigger] is_orphan_among(images, labels, k, o) implies !image_before(o, xn) by {
            lemma_image_before_order(xn, xn, xn);
        }
    }
}

/// As soon as an image has no label file, an orphan image that comes first
/// exists: `first_orphan_image` names it.
pub proof fn lemma_first_orphan_exists(images: Seq<Option<DirEntry>>, labels: Seq<Option<DirEntry>>)
    requires
        exists|n: Seq<char>| is_orphan_image(images, labels, n),
    ensures
        exists|n: Seq<char>| is_first_orphan(images, labels, n),
        first_orphan_image(images, labels) matches Some(n) && is_first_orphan(images, labels, n),
{
    let k = images.len() as int;
    assert forall|n: Seq<char>|
        #![trigger is_orphan_image(images, labels, n)]
        #![trigger is_orphan_among(images, labels, k, n)]
        is_orphan_image(images, labels, n) == is_orphan_among(images, labels, k, n) by {
        if is_orphan_image(images, labels, n) {
            let i = choose|i: int|
                #![trigger images[i]]
                0 <= i < images.len() && is_image_entry(images[i]) && images[i]->0.name@ == n;
            assert(images[i] == images[i]);
        }
        if is_orphan_among(images, labels, k, n) {
            let i = choose|i: int|
                #![trigger images[i]]
                0 <= i < k && i < images.len() && is_image_entry(images[i]) && images[i]->0.name@ == n;
            assert(images[i] == images[i]);
        }
    }
    let n0 = choose|n: Seq<char>| is_orphan_image(images, labels, n);
    assert(is_orphan_among(images, labels, k, n0));
    lemma_first_orphan_among(images, labels, k);
    let m = choose|m: Seq<char>|
        is_orphan_among(images, labels, k, m) && forall|o: Seq<char>|
            #[trigger] is_orphan_among(images, labels, k, o) ==> !image_before(o, m);
    assert(is_first_orphan(images, labels, m));
}

/// Inserting an entry that is not a label file into the label listing leaves
/// the label files checked, in order, as they were.
proof fn lemma_label_pass_insert(
    iv: Seq<Option<DirEntry>>,
    lv: Seq<Option<DirEntry>>,
    role: SplitRole,
    p: int,
    e: Option<DirEntry>,
    n: int,
)
    requires
        0 <= p <= lv.len(),
        0 <= n <= lv.len(),
        !is_label_entry(e),
    ensures
        label_pass(iv, lv.insert(p, e), role, if n <= p { n } else { n + 1 }) == label_pass(iv, lv, role, n),
    decreases n,
{
    let lv2 = lv.insert(p, e);
    if n == 0 {
    } else if n <= p {
        lemma_label_pass_insert(iv, lv, role, p, e, n - 1);
        assert(lv2[n - 1] == lv[n - 1]);
    } else if n == p + 1 {
        lemma_label_pass_insert(iv, lv, role, p, e, p);
        assert(lv2[p] == e);
        assert(label_pass(iv, lv2, role, p + 1) == label_pass(iv, lv2, role, p));
        assert(lv2[p + 1] == lv[p]);
    } else {
        lemma_label_pass_insert(iv, lv, role, p, e, n - 1);
        assert(lv2[n] == lv[n - 1]);
    }
}

/// Inserting an entry that is not a label file leaves the label stems as they were.
proof fn lemma_insert_non_label(lv: Seq<Option<DirEntry>>, p: int, e: Option<DirEntry>)
    requires
        0 <= p <= lv.len(),
        !is_label_entry(e),
    ensures
        forall|s: Seq<char>|
            #![trigger has_label_for(lv.insert(p, e), s)]
            #![trigger has_label_for(lv, s)]
            has_label_for(lv.insert(p, e), s) == has_label_for(lv, s),
{
    let lv2 = lv.insert(p, e);
    assert forall|s: Seq<char>| has_label_for(lv2, s) == has_label_for(lv, s) by {
        if has_label_for(lv2, s) {
            let i = choose|i: int|
                #![trigger lv2[i]]
                0 <= i < lv2.len() && is_listed_kind(lv2[i], false) && file_stem(lv2[i]->0.name@) == s;
            if i < p {
                assert(lv[i] == lv2[i]);
            } else {
                assert(i != p);
                assert(lv[i - 1] == lv2[i]);
            }
        }
        if has_label_for(lv, s) {
            let i = choose|i: int|
                #![trigger lv[i]]
                0 <= i < lv.len() && is_listed_kind(lv[i], false) && file_stem(lv[i]->0.name@) == s;
            if i < p {
                assert(lv2[i] == lv[i]);
            } else {
                assert(lv2[i + 1] == lv[i]);
            }
        }
    }
}

/// An extra entry in `labels/<split>` that is not a label file (such as
/// `README.md`) leaves the outcome of validating the split unchanged.
pub proof fn lemma_extra_non_label_ignored(
    split: SplitListing,
    split2: SplitListing,
    role: SplitRole,
    p: int,
    e: DirEntry,
)
    requires
        split.labels matches Listing::Entries(lv) && split2.labels matches Listing::Entries(lv2) && 0 <= p
            <= lv@.len() && lv2@ == lv@.insert(p, Some(e)),
        split2.images == split.images,
        !is_label_name(e.name@),
    ensures
        spec_validate_split(split2, role) == spec_validate_split(split, role),
{
    if let (Listing::Entries(lv), Listing::Entries(lv2), Listing::Entries(iv)) = (
        split.labels,
        split2.labels,
        split.images,
    ) {
        assert(lv2@ == lv@.insert(p, Some(e)));
        assert(!is_label_entry(Some(e)));
        lemma_label_pass_insert(iv@, lv@, role, p, Some(e), lv@.len() as int);
        assert(lv2@.len() == lv@.len() + 1);
        lemma_insert_non_label(lv@, p, Some(e));
        assert forall|n: Seq<char>|
            #![trigger is_orphan_image(iv@, lv2@, n)]
            #![trigger is_orphan_image(iv@, lv@, n)]
            is_orphan_image(iv@, lv2@, n) == is_orphan_image(iv@, lv@, n) by {
            assert(has_label_for(lv2@, file_stem(n)) == has_label_for(lv@, file_stem(n)));
        }
        assert((exists|n: Seq<char>| is_orphan_image(iv@, lv2@, n)) == (exists|n: Seq<char>|
            is_orphan_image(iv@, lv@, n))) by {
            if exists|n: Seq<char>| is_orphan_image(iv@, lv@, n) {
                let n = choose|n: Seq<char>| is_orphan_image(iv@, lv@, n);
                assert(is_orphan_image(iv@, lv2@, n));
            }
            if exists|n: Seq<char>| is_orphan_image(iv@, lv2@, n) {
                let n = choose|n: Seq<char>| is_orphan_image(iv@, lv2@, n);
                assert(is_orphan_image(iv@, lv@, n));
            }
        }
        if exists|n: Seq<char>| is_orphan_image(iv@, lv@, n) {
            lemma_first_orphan_exists(iv@, lv@);
            lemma_first_orphan_exists(iv@, lv2@);
            let m1 = choose|n: Seq<char>| is_first_orphan(iv@, lv2@, n);
            let m2 = choose|n: Seq<char>| is_first_orphan(iv@, lv@, n);
            assert(is_first_orphan(iv@, lv@, m1));
            lemma_image_before_order(m1, m2, m1);
        }
        assert(first_orphan_image(iv@, lv2@) == first_orphan_image(iv@, lv@));
    }
}

/// When the label files before the one at `k` have their images and parse,
/// and the label at `k` has no image file with its stem, the split fails with
/// `OrphanLabel` for that label, whatever orphan images there are.
pub proof fn lemma_first_orphan_label(
    split: SplitListing,
    role: SplitRole,
    iv: Seq<Option<DirEntry>>,
    lv: Seq<Option<DirEntry>>,
    k: int,
)
    requires
        split.images matches Listing::Entries(v) && v@ == iv,
        split.labels matches Listing::Entries(v) && v@ == lv,
        forall|i: int| 0 <= i < iv.len() ==> #[trigger] iv[i] is Some,
        0 <= k < lv.len(),
        is_label_entry(lv[k]),
        !is_image_stem(iv, file_stem(lv[k]->0.name@)),
        forall|i: int|
            0 <= i < k && is_label_entry(#[trigger] lv[i]) ==> is_image_stem(
                iv,
                file_stem(lv[i]->0.name@),
            ) && (lv[i]->0.text matches Some(Ok(t)) && t.spec_parse() is Ok),
    ensures
        spec_validate_split(split, role) == Err::<SummaryView, DatasetFault>(
            DatasetFault::OrphanLabel { file: lv[k]->0.name@, role },
        ),
{
    lemma_label_pass_all_good(iv, lv, role, k);
    lemma_label_pass_err_stays(iv, lv, role, k + 1, lv.len() as int);
    assert(!exists|i: int| 0 <= i < iv.len() && #[trigger] iv[i] is None);
}

/// Both directories of the split could be listed, every entry of `images/`
/// could be read, and the split is paired and parses.
pub open spec fn split_checks_out(split: SplitListing) -> bool {
    &&& split.images matches Listing::Entries(iv)
    &&& split.labels matches Listing::Entries(lv)
    &&& forall|i: int| 0 <= i < iv@.len() ==> #[trigger] iv@[i] is Some
    &&& paired_and_parsed(iv@, lv@)
}

/// `s` summarises the split in the role `role`: it names that role, counts one
/// pair per label file of the split, and counts, for each class, the labels of
/// that class across the split's label files.
pub open spec fn summarises(split: SplitListing, role: SplitRole, s: SummaryView) -> bool {
    &&& s.role == role
    &&& split.labels matches Listing::Entries(lv)
    &&& s.pairs == label_file_count(lv@, lv@.len() as int)
    &&& s.histogram.len() == NUM_CLASSES
    &&& forall|c: int| 0 <= c < NUM_CLASSES ==> #[trigger] s.histogram[c] == class_total(lv@, lv@.len() as int, c)
}

/// A split validates exactly when it checks out, and then its summary
/// summarises it.
proof fn lemma_split_outcome(split: SplitListing, role: SplitRole)
    ensures
        spec_validate_split(split, role) is Ok <==> split_checks_out(split),
        spec_validate_split(split, role) is Ok ==> summarises(split, role, spec_validate_split(split, role)->Ok_0),
{
    if let (Listing::Entries(iv), Listing::Entries(lv)) = (split.images, split.labels) {
        lemma_valid_split_iff_paired(split, role, iv@, lv@);
    }
    if spec_validate_split(split, role) is Ok {
        lemma_valid_split_counts(split, role);
    }
}

/// The layout validates exactly when the root is a directory and both the
/// `train` and the `val` split check out; its result is then the pair of the
/// two splits' summaries, the first summarising `train` and the second `val`,
/// each by its own label files. Otherwise the error is that of the first
/// failing step: the root, then `train`, then `val`.
pub proof fn lemma_layout_outcome(tree: TrainingTree)
    ensures
        spec_validate_training_layout(tree) is Ok <==> tree.root_is_dir && split_checks_out(tree.train)
            && split_checks_out(tree.val),
        spec_validate_training_layout(tree) is Ok ==> summarises(
            tree.train,
            SplitRole::Train,
            spec_validate_training_layout(tree)->Ok_0.0,
        ) && summarises(tree.val, SplitRole::Val, spec_validate_training_layout(tree)->Ok_0.1),
        !tree.root_is_dir ==> spec_validate_training_layout(tree) == Err::<
            (SummaryView, SummaryView),
            DatasetFault,
        >(DatasetFault::RootMissing(Place::Root)),
        tree.root_is_dir && spec_validate_split(tree.train, SplitRole::Train) is Err
            ==> spec_validate_training_layout(tree) == Err::<(SummaryView, SummaryView), DatasetFault>(
            spec_validate_split(tree.train, SplitRole::Train)->Err_0,
        ),
        tree.root_is_dir && spec_validate_split(tree.train, SplitRole::Train) is Ok && spec_validate_split(
            tree.val,
            SplitRole::Val,
        ) is Err ==> spec_validate_training_layout(tree) == Err::<(SummaryView, SummaryView), DatasetFault>(
            spec_validate_split(tree.val, SplitRole::Val)->Err_0,
        ),
{
    lemma_split_outcome(tree.train, SplitRole::Train);
    lemma_split_outcome(tree.val, SplitRole::Val);
}

} // verus!
