//! The seven-class label vocabulary that the CivicSense detector predicts.
//!
//! ```text
//! 0: stop_sign          1: traffic_light
//! 2: crosswalk          3: vehicle
//! 4: truck              5: bus
//! 6: intersection_zone
//! ```
use vstd::prelude::*;

verus! {

/// The number of classes the CivicSense model predicts.
pub const NUM_CLASSES: usize = 7;

/// Ordered class names, index-equivalent to `class_id` in YOLO labels.
pub const CLASS_NAMES: [&'static str; NUM_CLASSES] = [
    "stop_sign",
    "traffic_light",
    "crosswalk",
    "vehicle",
    "truck",
    "bus",
    "intersection_zone",
];

/// The class id of `stop_sign`.
pub const STOP_SIGN: usize = 0;
/// The class id of `traffic_light`.
pub const TRAFFIC_LIGHT: usize = 1;
/// The class id of `crosswalk`.
pub const CROSSWALK: usize = 2;
/// The class id of `vehicle` (generic passenger car / motorcycle).
pub const VEHICLE: usize = 3;
/// The class id of `truck`.
pub const TRUCK: usize = 4;
/// The class id of `bus`.
pub const BUS: usize = 5;
/// The class id of `intersection_zone`.
pub const INTERSECTION_ZONE: usize = 6;

/// The name of class `i` of the vocabulary, for `i < NUM_CLASSES`.
pub open spec fn spec_class_name(i: int) -> Seq<char> {
    if i == 0 {
        "stop_sign"@
    } else if i == 1 {
        "traffic_light"@
    } else if i == 2 {
        "crosswalk"@
    } else if i == 3 {
        "vehicle"@
    } else if i == 4 {
        "truck"@
    } else if i == 5 {
        "bus"@
    } else {
        "intersection_zone"@
    }
}

/// Returns the class name for a numeric `class_id`, or `None` when the
/// id is out of range for the vocabulary.
pub fn name(class_id: usize) -> (res: Option<&'static str>)
    ensures
        res is Some <==> class_id < NUM_CLASSES,
        res matches Some(s) ==> s@ == spec_class_name(class_id as int) && s == CLASS_NAMES[class_id as int],
{
    if class_id < NUM_CLASSES {
        Some(CLASS_NAMES[class_id])
    } else {
        None
    }
}

/// The names of the vocabulary are pairwise distinct: no two class ids share a name.
pub proof fn lemma_class_names_distinct(i: int, j: int)
    requires
        0 <= i < NUM_CLASSES,
        0 <= j < NUM_CLASSES,
        i != j,
    ensures
        spec_class_name(i) != spec_class_name(j),
{
    reveal_strlit("stop_sign");
    reveal_strlit("traffic_light");
    reveal_strlit("crosswalk");
    reveal_strlit("vehicle");
    reveal_strlit("truck");
    reveal_strlit("bus");
    reveal_strlit("intersection_zone");
    if spec_class_name(i) == spec_class_name(j) {
        assert(spec_class_name(i).len() == spec_class_name(j).len());
        assert(spec_class_name(i)[0] == spec_class_name(j)[0]);
        assert(spec_class_name(i)[1] == spec_class_name(j)[1]);
    }
}

} // verus!
