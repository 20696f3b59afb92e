use kasane_logic::id::DimensionRange::{AfterUnLimitRange, Any, BeforeUnLimitRange, LimitRange, Single};
use kasane_logic::id::SpaceTimeId;
use kasane_logic::set::SpaceTimeIdSet;



// Helper function to create a simple SpaceTimeId for testing
fn create_test_id(z: u8, x: u32, y: u32, f: i32, i: u32, t: u32) -> SpaceTimeId {
    SpaceTimeId::new(z, Single(f), Single(x), Single(y), i, Single(t)).unwrap()
}

fn create_test_id_with_any_t(z: u8, x: u32, y: u32, f: i32) -> SpaceTimeId {
    SpaceTimeId::new(z, Single(f), Single(x), Single(y), 0, Any).unwrap()
}

// Tests for complement() - Cases that should return empty set
#[test]
fn test_complement_universal_space() {
    let id = SpaceTimeId::new(2, Any, Any, Any, 0, Any).unwrap();

    let complement = id.complement().unwrap();
    assert!(complement.is_empty());
}

#[test]
fn test_complement_universal_time() {
    let id = SpaceTimeId::new(
        2,
        Single(1),
        Single(1),
        Single(0),
        60,  // Non-zero interval
        Any, // Any time
    )
    .unwrap();

    let complement = id.complement().unwrap();
    assert!(complement.is_empty());
}

#[test]
fn test_complement_spatial_any_with_time_any() {
    let id = SpaceTimeId::new(2, Any, Any, Any, 60, Any).unwrap();

    let complement = id.complement().unwrap();
    assert!(complement.is_empty());
}

// Tests for complement() - Cases that should return non-empty set
#[test]
fn test_complement_single_point() {
    let id = create_test_id_with_any_t(2, 1, 1, 0);
    let complement = id.complement().unwrap();

    // Complement of a single point should not be empty
    assert!(!complement.is_empty());
}

#[test]
fn test_complement_partial_x_dimension() {
    let id = SpaceTimeId::new(
        2,
        Single(1), // Not Any
        Any,
        Any,
        0,
        Any,
    )
    .unwrap();

    let complement = id.complement().unwrap();
    assert!(!complement.is_empty());
}

#[test]
fn test_complement_partial_y_dimension() {
    let id = SpaceTimeId::new(
        2,
        Any,
        Single(1), // Not Any
        Any,
        0,
        Any,
    )
    .unwrap();

    let complement = id.complement().unwrap();
    assert!(!complement.is_empty());
}

#[test]
fn test_complement_partial_f_dimension() {
    let id = SpaceTimeId::new(
        2,
        Any,
        Any,
        Single(0), // Not Any
        0,
        Any,
    )
    .unwrap();

    let complement = id.complement().unwrap();
    assert!(!complement.is_empty());
}


#[test]
fn test_complement_range_dimensions() {
    let id = SpaceTimeId::new(
        3,
        LimitRange(-2, 2),
        LimitRange(1, 3),
        LimitRange(2, 4),
        0,
        Any,
    )
    .unwrap();

    let complement = id.complement().unwrap();
    assert!(!complement.is_empty());
}

#[test]
fn test_complement_after_unlimit_range() {
    let id = SpaceTimeId::new(2, AfterUnLimitRange(2), Any, Any, 0, Any).unwrap();

    let complement = id.complement().unwrap();
    assert!(!complement.is_empty());
}

#[test]
fn test_complement_before_unlimit_range() {
    let id = SpaceTimeId::new(2, BeforeUnLimitRange(1), Any, Any, 0, Any).unwrap();

    let complement = id.complement().unwrap();
    assert!(!complement.is_empty());
}

// Tests for complement properties
#[test]
fn test_complement_of_complement() {
    let id = create_test_id_with_any_t(2, 1, 1, 0);
    let complement = id.complement().unwrap();

    if !complement.is_empty() {
        // Test a specific element from the complement
        if let Some(comp_id) = complement.iter().next() {
            let double_complement = comp_id.complement().unwrap();
            // Double complement should contain the original or be equivalent
            assert!(!double_complement.is_empty());
        }
    }
}

#[test]
fn test_complement_disjoint_with_original() {
    let id = create_test_id_with_any_t(2, 1, 1, 0);
    let complement = id.complement().unwrap();
    let original_set = SpaceTimeIdSet::from(id);

    // Original and complement should be disjoint
    let intersection = original_set.intersection(&complement).unwrap();
    assert!(intersection.is_empty());
}

#[test]
fn test_complement_different_zoom_levels() {
    let id1 = create_test_id_with_any_t(1, 0, 0, 0);
    let id2 = create_test_id_with_any_t(3, 0, 0, 0);

    let complement1 = id1.complement().unwrap();
    let complement2 = id2.complement().unwrap();

    // Both should not be empty (unless universal)
    assert!(!complement1.is_empty());
    assert!(!complement2.is_empty());
}

#[test]
fn test_complement_boundary_values() {
    // Test at zoom level boundaries
    let id = SpaceTimeId::new(
        2,
        Single(3), // Max x for z=2
        Single(3), // Max y for z=2
        Single(3), // Max f for z=2
        0,
        Any,
    )
    .unwrap();

    let complement = id.complement().unwrap();
    assert!(!complement.is_empty());
}

#[test]
fn test_complement_negative_f_values() {
    let id = SpaceTimeId::new(
        2,
        Single(-2), // Negative f
        Single(1),
        Single(1),
        0,
        Any,
    )
    .unwrap();

    let complement = id.complement().unwrap();
    assert!(!complement.is_empty());
}


#[test]
fn test_complement_high_zoom() {
    let id = create_test_id_with_any_t(10, 512, 256, 100);
    let complement = id.complement().unwrap();

    // Should work at high zoom levels
    assert!(!complement.is_empty());
}


#[test]
fn test_complement_time_after_unlimit() {
    let id = SpaceTimeId::new(
        2,
        Single(1),
        Single(1),
        Single(0),
        60,
        AfterUnLimitRange(100),
    )
    .unwrap();

    let complement = id.complement().unwrap();
    assert!(!complement.is_empty());
}




// Tests for specific complement patterns
#[test]
fn test_complement_single_x() {
    let id = SpaceTimeId::new(
        1, // Only 2 tiles: x=0 and x=1
        Single(0),
        Any,
        Any,
        0,
        Any,
    )
    .unwrap();

    let complement = id.complement().unwrap();
    assert!(!complement.is_empty());

    // Complement should contain x=1 in some form
    let has_x1 = complement.iter().any(|comp_id| match comp_id.x() {
        Single(v) => v == 1,
        LimitRange(start, end) => start <= 1 && end >= 1,
        AfterUnLimitRange(start) => start <= 1,
        BeforeUnLimitRange(end) => end >= 1,
        Any => true,
    });
    assert!(has_x1);
}


// Edge cases
#[test]
fn test_complement_edge_coordinates() {
    // Test at coordinate boundaries
    let id = SpaceTimeId::new(
        2,
        Single(-4), // Min f for z=2
        Single(0),  // Min x
        Single(0),  // Min y
        0,
        Any,
    )
    .unwrap();

    let complement = id.complement().unwrap();
    assert!(!complement.is_empty());
}


#[test]
fn test_complement_zero_zoom() {
    let id = create_test_id_with_any_t(0, 0, 0, 0);
    let complement = id.complement().unwrap();

    // At zoom level 0 without an interval the complement is empty.
    assert!(complement.is_empty());
    assert_eq!(complement.len(), 0);
}

#[test]
fn test_complement_contains_valid_ids() {
    let id = create_test_id_with_any_t(2, 1, 1, 0);
    let complement = id.complement().unwrap();
    assert!(!complement.is_empty());

    // All IDs in complement should be valid
    for comp_id in complement.iter() {
        assert!(comp_id.z() <= id.z()); // Stored at the coarsest zoom level that holds them
        assert_eq!(comp_id.i(), id.i()); // Should have same time interval

        // Should be valid coordinates for the zoom level
        let max_xy = (1u32 << comp_id.z()) - 1;
        let max_f = (1i32 << comp_id.z()) - 1;
        let min_f = -(1i32 << comp_id.z());

        match comp_id.x() {
            Single(v) => assert!(v <= max_xy),
            LimitRange(start, end) => {
                assert!(start <= end);
                assert!(end <= max_xy);
            }
            AfterUnLimitRange(_) => {}
            BeforeUnLimitRange(_) => {}
            Any => {}
        }

        match comp_id.f() {
            Single(v) => assert!(v >= min_f && v <= max_f),
            LimitRange(start, end) => {
                assert!(start <= end);
                assert!(start >= min_f && end <= max_f);
            }
            AfterUnLimitRange(_) => {}
            BeforeUnLimitRange(_) => {}
            Any => {}
        }
    }
}
