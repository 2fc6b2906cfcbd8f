use civicsense_data_pack::classes::{self, BUS, CROSSWALK, INTERSECTION_ZONE, STOP_SIGN, TRAFFIC_LIGHT, TRUCK, VEHICLE};
use civicsense_data_pack::{CLASS_NAMES, NUM_CLASSES};

#[test]
fn vocabulary_has_seven_entries() {
    assert_eq!(CLASS_NAMES.len(), NUM_CLASSES);
    assert_eq!(NUM_CLASSES, 7);
}

#[test]
fn names_are_unique() {
    let mut sorted = CLASS_NAMES.to_vec();
    sorted.sort_unstable();
    sorted.dedup();
    assert_eq!(sorted.len(), NUM_CLASSES, "class names must be unique");
}

#[test]
fn every_index_resolves() {
    for (i, expected) in CLASS_NAMES.iter().enumerate() {
        assert_eq!(classes::name(i), Some(*expected), "index {i} mismatch");
    }
}

#[test]
fn out_of_range_returns_none() {
    assert_eq!(classes::name(NUM_CLASSES), None);
    assert_eq!(classes::name(usize::MAX), None);
}

#[test]
fn name_of_vehicle_and_unknown_id() {
    assert_eq!(classes::name(3), Some("vehicle"));
    assert_eq!(classes::name(99), None);
}

#[test]
fn named_class_ids_match_the_vocabulary() {
    assert_eq!(classes::name(STOP_SIGN), Some("stop_sign"));
    assert_eq!(classes::name(TRAFFIC_LIGHT), Some("traffic_light"));
    assert_eq!(classes::name(CROSSWALK), Some("crosswalk"));
    assert_eq!(classes::name(VEHICLE), Some("vehicle"));
    assert_eq!(classes::name(TRUCK), Some("truck"));
    assert_eq!(classes::name(BUS), Some("bus"));
    assert_eq!(classes::name(INTERSECTION_ZONE), Some("intersection_zone"));
}
