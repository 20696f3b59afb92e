use kasane_logic::id::contain::Containment;
use kasane_logic::id::relation::{relation, Relation};
use kasane_logic::id::DimensionRange::{AfterUnLimitRange, Any, BeforeUnLimitRange, LimitRange, Single};
use kasane_logic::id::{Axis, DimensionRange, IdError, ScaleFault, SpaceTimeId};
use kasane_logic::set::SpaceTimeIdSet;

fn spatial(z: u8, f: DimensionRange<i32>, x: DimensionRange<u32>, y: DimensionRange<u32>) -> SpaceTimeId {
    SpaceTimeId::new(z, f, x, y, 0, Any).unwrap()
}

#[test]
fn point_identifier_is_written() {
    let id = SpaceTimeId::new(4, Single(5), Single(3), Single(10), 60, Single(100)).unwrap();
    assert_eq!(id.to_string(), "4/5/3/10_60/100");
}

#[test]
fn zoom_level_32_is_too_large() {
    let err = SpaceTimeId::new(32, Single(0), Single(0), Single(0), 0, Any).unwrap_err();
    assert_eq!(err, IdError::ResolutionTooLarge(32));
    assert_eq!(err.to_string(), "Zoom level z must be less than 32. Got 32");
    assert!(SpaceTimeId::new(255, Any, Any, Any, 0, Any).is_err());
}

#[test]
fn value_beyond_the_axis_is_refused() {
    let err = SpaceTimeId::new(5, Single(0), Single(1000), Single(0), 60, Single(0)).unwrap_err();
    assert_eq!(err, IdError::OutOfRange(Axis::X));
    let err = SpaceTimeId::new(5, Single(0), Single(31), Single(32), 60, Single(0)).unwrap_err();
    assert_eq!(err, IdError::OutOfRange(Axis::Y));
    let err = SpaceTimeId::new(5, Single(-33), Single(31), Single(31), 60, Single(0)).unwrap_err();
    assert_eq!(err, IdError::OutOfRange(Axis::F));
    assert!(SpaceTimeId::new(5, Single(-32), Single(31), Single(31), 60, Single(0)).is_ok());
    let err = SpaceTimeId::new(5, LimitRange(3, 32), Single(0), Single(0), 0, Any).unwrap_err();
    assert_eq!(err, IdError::OutOfRange(Axis::F));
    let err = SpaceTimeId::new(5, Single(0), AfterUnLimitRange(32), Single(0), 0, Any).unwrap_err();
    assert_eq!(err, IdError::OutOfRange(Axis::X));
    let err = SpaceTimeId::new(5, Single(0), Single(0), BeforeUnLimitRange(40), 0, Any).unwrap_err();
    assert_eq!(err, IdError::OutOfRange(Axis::Y));
}

#[test]
fn time_range_without_interval_is_refused() {
    let err = SpaceTimeId::new(5, Single(0), Single(0), Single(0), 0, Single(10)).unwrap_err();
    assert_eq!(err, IdError::InvalidTimeConfiguration);
    assert_eq!(err.to_string(), "t must be Any when time interval i is 0");
}

#[test]
fn full_span_collapses_to_any() {
    let id = SpaceTimeId::new(2, Single(1), LimitRange(0, 3), Single(1), 0, Any).unwrap();
    assert_eq!(id.x(), Any);
    let id = SpaceTimeId::new(2, LimitRange(-4, 3), Single(1), Single(1), 0, Any).unwrap();
    assert_eq!(id.f(), Any);
    // The vertical axis starts at -4 at this zoom level: 0 to 3 is its upper half.
    let id = SpaceTimeId::new(2, LimitRange(0, 3), Single(1), Single(1), 0, Any).unwrap();
    assert_eq!(id.f(), AfterUnLimitRange(0));
}

#[test]
fn complement_of_everything_is_empty() {
    let id = SpaceTimeId::new(7, Any, Any, Any, 0, Any).unwrap();
    assert!(id.complement().unwrap().is_empty());
}

#[test]
fn order_of_reported_faults() {
    // zoom level before the ranges, then x, y, f, time
    let err = SpaceTimeId::new(40, LimitRange(5, 2), Single(99), Single(99), 0, Single(1)).unwrap_err();
    assert_eq!(err, IdError::ResolutionTooLarge(40));
    let err = SpaceTimeId::new(2, LimitRange(5, 2), Single(99), Single(99), 0, Single(1)).unwrap_err();
    assert_eq!(err, IdError::OutOfRange(Axis::X));
    let err = SpaceTimeId::new(2, LimitRange(5, 2), Single(1), LimitRange(3, 1), 0, Single(1)).unwrap_err();
    assert_eq!(err, IdError::InvalidOrder(Axis::Y, 3, 1));
    let err = SpaceTimeId::new(2, LimitRange(5, 2), Single(1), Single(1), 0, Single(1)).unwrap_err();
    assert_eq!(err, IdError::InvalidOrder(Axis::F, 5, 2));
    let err = SpaceTimeId::new(2, Single(1), Single(1), Single(1), 0, Single(1)).unwrap_err();
    assert_eq!(err, IdError::InvalidTimeConfiguration);
    let err = SpaceTimeId::new(2, Single(1), Single(1), Single(1), 7, LimitRange(9, 8)).unwrap_err();
    assert_eq!(err, IdError::InvalidOrder(Axis::T, 9, 8));
    // a range that starts after its end is refused before its bounds are looked at
    let err = SpaceTimeId::new(2, Single(1), LimitRange(50, 40), Single(1), 0, Any).unwrap_err();
    assert_eq!(err, IdError::InvalidOrder(Axis::X, 50, 40));
}

#[test]
fn messages_of_errors() {
    assert_eq!(
        IdError::InvalidOrder(Axis::F, -5, -12).to_string(),
        "Invalid f dimension: start value -5 cannot be greater than end value -12"
    );
    assert_eq!(
        IdError::OutOfRange(Axis::T).to_string(),
        "Invalid t dimension: a value is out of range for the zoom level"
    );
    assert_eq!(
        IdError::InvalidOrder(Axis::X, i64::MIN, i64::MAX).to_string(),
        "Invalid x dimension: start value -9223372036854775808 cannot be greater than end value 9223372036854775807"
    );
    assert!(IdError::ScaleError(ScaleFault::CoarserZoom).to_string().contains("finer"));
    assert!(IdError::ScaleError(ScaleFault::TimeDropped).to_string().contains("interval 0"));
    assert!(IdError::ScaleError(ScaleFault::LongerInterval).to_string().contains("longer"));
    assert!(IdError::ScaleError(ScaleFault::TimeOverflow).to_string().contains("32 bits"));
}

#[test]
fn normalization_of_each_shape() {
    let at = |f, x, t| SpaceTimeId::new(3, f, x, Single(0), 5, t).unwrap();
    // horizontal axis 0..=7, vertical axis -8..=7, time from 0 on
    assert_eq!(at(Any, LimitRange(0, 7), Any).x(), Any);
    assert_eq!(at(Any, LimitRange(0, 6), Any).x(), BeforeUnLimitRange(6));
    assert_eq!(at(Any, LimitRange(1, 7), Any).x(), AfterUnLimitRange(1));
    assert_eq!(at(Any, LimitRange(1, 6), Any).x(), LimitRange(1, 6));
    assert_eq!(at(Any, LimitRange(7, 7), Any).x(), Single(7));
    assert_eq!(at(Any, AfterUnLimitRange(0), Any).x(), Any);
    assert_eq!(at(Any, AfterUnLimitRange(7), Any).x(), Single(7));
    assert_eq!(at(Any, AfterUnLimitRange(6), Any).x(), AfterUnLimitRange(6));
    assert_eq!(at(Any, BeforeUnLimitRange(7), Any).x(), Any);
    assert_eq!(at(Any, BeforeUnLimitRange(0), Any).x(), Single(0));
    assert_eq!(at(Any, BeforeUnLimitRange(1), Any).x(), BeforeUnLimitRange(1));
    assert_eq!(at(LimitRange(-8, 7), Any, Any).f(), Any);
    assert_eq!(at(LimitRange(-8, -8), Any, Any).f(), Single(-8));
    assert_eq!(at(LimitRange(-8, 0), Any, Any).f(), BeforeUnLimitRange(0));
    assert_eq!(at(LimitRange(-7, 7), Any, Any).f(), AfterUnLimitRange(-7));
    assert_eq!(at(AfterUnLimitRange(-8), Any, Any).f(), Any);
    assert_eq!(at(AfterUnLimitRange(7), Any, Any).f(), Single(7));
    assert_eq!(at(BeforeUnLimitRange(-8), Any, Any).f(), Single(-8));
    assert_eq!(at(BeforeUnLimitRange(7), Any, Any).f(), Any);
    // the time axis has no end: nothing collapses at a greatest index
    assert_eq!(at(Any, Any, LimitRange(0, u32::MAX)).t(), BeforeUnLimitRange(u32::MAX));
    assert_eq!(at(Any, Any, AfterUnLimitRange(u32::MAX)).t(), AfterUnLimitRange(u32::MAX));
    assert_eq!(at(Any, Any, BeforeUnLimitRange(u32::MAX)).t(), BeforeUnLimitRange(u32::MAX));
    assert_eq!(at(Any, Any, AfterUnLimitRange(0)).t(), Any);
    assert_eq!(at(Any, Any, BeforeUnLimitRange(0)).t(), Single(0));
    assert_eq!(at(Any, Any, LimitRange(4, 4)).t(), Single(4));
    assert_eq!(at(Any, Any, LimitRange(4, 9)).t(), LimitRange(4, 9));
}

#[test]
fn building_again_from_the_fields_changes_nothing() {
    let inputs = [
        SpaceTimeId::new(3, LimitRange(-8, 0), LimitRange(2, 2), AfterUnLimitRange(7), 30, LimitRange(0, 4)),
        SpaceTimeId::new(0, Single(-1), Any, Single(0), 0, Any),
        SpaceTimeId::new(31, AfterUnLimitRange(5), BeforeUnLimitRange(9), LimitRange(1, 2147483647), 1, AfterUnLimitRange(0)),
    ];
    for made in inputs {
        let id = made.unwrap();
        let again = SpaceTimeId::new(id.z(), id.f(), id.x(), id.y(), id.i(), id.t()).unwrap();
        assert_eq!(again, id);
        assert_eq!(id.with_z(id.z()).unwrap(), id);
        assert_eq!(id.with_f(id.f()).unwrap(), id);
        assert_eq!(id.with_x(id.x()).unwrap(), id);
        assert_eq!(id.with_y(id.y()).unwrap(), id);
        assert_eq!(id.with_i(id.i()).unwrap(), id);
        assert_eq!(id.with_t(id.t()).unwrap(), id);
    }
}

#[test]
fn with_methods_validate_anew() {
    let id = SpaceTimeId::new(3, LimitRange(-2, 4), Single(7), Any, 30, Single(9)).unwrap();
    assert_eq!(id.with_z(2).unwrap_err(), IdError::OutOfRange(Axis::X));
    assert_eq!(id.with_z(32).unwrap_err(), IdError::ResolutionTooLarge(32));
    assert_eq!(
        id.with_x(Single(3)).unwrap().with_z(2).unwrap_err(),
        IdError::OutOfRange(Axis::F)
    );
    let shifted = id
        .with_x(Single(3))
        .unwrap()
        .with_f(LimitRange(-2, 3))
        .unwrap()
        .with_z(2)
        .unwrap();
    assert_eq!(shifted.to_string(), "2/-2:-/3/-_30/9");
    assert_eq!(id.with_f(LimitRange(-8, 7)).unwrap().f(), Any);
    assert_eq!(id.with_y(LimitRange(4, 2)).unwrap_err(), IdError::InvalidOrder(Axis::Y, 4, 2));
    assert_eq!(id.with_i(0).unwrap_err(), IdError::InvalidTimeConfiguration);
    assert_eq!(id.with_t(Any).unwrap().with_i(0).unwrap().i(), 0);
    assert_eq!(id.with_t(LimitRange(0, 5)).unwrap().t(), BeforeUnLimitRange(5));
}

#[test]
fn written_forms() {
    assert_eq!(Single(-7i32).to_string(), "-7");
    assert_eq!(Single(0u32).to_string(), "0");
    assert_eq!(Single(4294967295u32).to_string(), "4294967295");
    assert_eq!(LimitRange(-2147483648i32, 2147483647i32).to_string(), "-2147483648:2147483647");
    assert_eq!(BeforeUnLimitRange(1000u32).to_string(), "-:1000");
    assert_eq!(AfterUnLimitRange(-10i32).to_string(), "-10:-");
    let id = SpaceTimeId::new(12, BeforeUnLimitRange(-20), LimitRange(10, 109), AfterUnLimitRange(4000), 3600, AfterUnLimitRange(7)).unwrap();
    assert_eq!(id.to_string(), "12/-:-20/10:109/4000:-_3600/7:-");
    let mut set = SpaceTimeIdSet::new();
    set.insert(spatial(2, Single(-1), Single(0), Single(3))).unwrap();
    set.insert(spatial(2, Single(1), Single(2), Single(0))).unwrap();
    assert_eq!(set.to_string(), "2/-1/0/3_0/-, 2/1/2/0_0/-");
    assert_eq!(set.to_debug_string(), "[2/0/3/-1_0/-, 2/2/0/1_0/-]");
    assert_eq!(SpaceTimeIdSet::new().to_debug_string(), "[]");
}

#[test]
fn scale_widens_each_cell_to_its_block() {
    let id = SpaceTimeId::new(4, Single(-3), LimitRange(2, 5), AfterUnLimitRange(9), 60, Single(2)).unwrap();
    let finer = id.scale(Some(6), None).unwrap();
    assert_eq!(finer.z(), 6);
    assert_eq!(finer.f(), LimitRange(-12, -9));
    assert_eq!(finer.x(), LimitRange(8, 23));
    assert_eq!(finer.y(), AfterUnLimitRange(36));
    assert_eq!(finer.i(), 60);
    assert_eq!(finer.t(), Single(2));
    let below = SpaceTimeId::new(4, BeforeUnLimitRange(-3), BeforeUnLimitRange(0), Any, 0, Any).unwrap();
    let finer = below.scale(Some(5), None).unwrap();
    assert_eq!(finer.f(), BeforeUnLimitRange(-5));
    assert_eq!(finer.x(), BeforeUnLimitRange(1));
    assert_eq!(finer.y(), Any);
    // the same zoom level and nothing asked: the identifier itself
    assert_eq!(id.scale(None, None).unwrap(), id);
    assert_eq!(id.scale(Some(4), None).unwrap(), id);
    assert_eq!(id.scale(Some(4), Some(60)).unwrap(), id);
    // up to the finest level
    let top = SpaceTimeId::new(0, Single(-1), Any, Any, 0, Any).unwrap().scale(Some(31), None).unwrap();
    assert_eq!(top.f(), BeforeUnLimitRange(-1));
    let top = SpaceTimeId::new(1, Single(1), Single(1), Single(0), 0, Any).unwrap().scale(Some(31), None).unwrap();
    assert_eq!(top.f(), AfterUnLimitRange(1073741824));
    assert_eq!(top.x(), AfterUnLimitRange(1073741824));
    assert_eq!(top.y(), BeforeUnLimitRange(1073741823));
}

#[test]
fn scale_of_the_interval() {
    let id = SpaceTimeId::new(4, Single(0), Single(0), Single(0), 60, LimitRange(2, 3)).unwrap();
    let finer = id.scale(None, Some(15)).unwrap();
    assert_eq!(finer.i(), 15);
    assert_eq!(finer.t(), LimitRange(8, 15));
    // an interval that does not divide: the result has the interval gcd(45, 60) = 15
    let odd = id.scale(None, Some(45)).unwrap();
    assert_eq!(odd.i(), 15);
    assert_eq!(odd.t(), LimitRange(8, 15));
    let one = SpaceTimeId::new(4, Single(5), Single(3), Single(10), 60, Single(1)).unwrap();
    assert_eq!(one.scale(None, Some(45)).unwrap().to_string(), "4/5/3/10_15/4:7");
    let open = SpaceTimeId::new(4, Single(0), Single(0), Single(0), 60, BeforeUnLimitRange(4)).unwrap();
    assert_eq!(open.scale(None, Some(20)).unwrap().t(), BeforeUnLimitRange(14));
    let open = SpaceTimeId::new(4, Single(0), Single(0), Single(0), 60, AfterUnLimitRange(4)).unwrap();
    assert_eq!(open.scale(None, Some(20)).unwrap().t(), AfterUnLimitRange(12));
    let point = SpaceTimeId::new(4, Single(0), Single(0), Single(0), 60, Single(0)).unwrap();
    assert_eq!(point.scale(None, Some(30)).unwrap().t(), BeforeUnLimitRange(1));
    // an identifier without interval takes any interval, for all time
    let still = SpaceTimeId::new(4, Single(0), Single(0), Single(0), 0, Any).unwrap();
    let timed = still.scale(Some(5), Some(7)).unwrap();
    assert_eq!(timed.i(), 7);
    assert_eq!(timed.t(), Any);
    assert_eq!(timed.x(), BeforeUnLimitRange(1));
    assert_eq!(still.scale(None, Some(0)).unwrap(), still);
}

#[test]
fn scale_refuses() {
    let id = SpaceTimeId::new(4, Single(0), Single(0), Single(0), 60, Single(100000000)).unwrap();
    assert_eq!(id.scale(Some(3), None).unwrap_err(), IdError::ScaleError(ScaleFault::CoarserZoom));
    assert_eq!(id.scale(Some(3), Some(0)).unwrap_err(), IdError::ScaleError(ScaleFault::CoarserZoom));
    assert_eq!(id.scale(Some(32), None).unwrap_err(), IdError::ResolutionTooLarge(32));
    assert_eq!(id.scale(None, Some(0)).unwrap_err(), IdError::ScaleError(ScaleFault::TimeDropped));
    assert_eq!(id.scale(None, Some(61)).unwrap_err(), IdError::ScaleError(ScaleFault::LongerInterval));
    assert_eq!(id.scale(Some(31), Some(1)).unwrap_err(), IdError::ScaleError(ScaleFault::TimeOverflow));
    assert!(id.scale(Some(31), Some(2)).is_ok());
    let last = SpaceTimeId::new(4, Single(0), Single(0), Single(0), 2, Single(u32::MAX / 2)).unwrap();
    assert_eq!(last.scale(None, Some(1)).unwrap().t(), LimitRange(u32::MAX - 1, u32::MAX));
    let last = SpaceTimeId::new(4, Single(0), Single(0), Single(0), 2, Single(u32::MAX / 2 + 1)).unwrap();
    assert_eq!(last.scale(None, Some(1)).unwrap_err(), IdError::ScaleError(ScaleFault::TimeOverflow));
    let huge = SpaceTimeId::new(4, Single(0), Single(0), Single(0), u32::MAX, Single(u32::MAX)).unwrap();
    assert_eq!(huge.scale(None, Some(1)).unwrap_err(), IdError::ScaleError(ScaleFault::TimeOverflow));
}

#[test]
fn greatest_common_divisor() {
    assert_eq!(SpaceTimeId::gcd(60, 45), 15);
    assert_eq!(SpaceTimeId::gcd(45, 60), 15);
    assert_eq!(SpaceTimeId::gcd(17, 5), 1);
    assert_eq!(SpaceTimeId::gcd(0, 9), 9);
    assert_eq!(SpaceTimeId::gcd(9, 0), 9);
    assert_eq!(SpaceTimeId::gcd(0, 0), 0);
    assert_eq!(SpaceTimeId::gcd(u32::MAX, u32::MAX), u32::MAX);
    assert_eq!(SpaceTimeId::gcd(4294967295, 65535), 65535);
}

#[test]
fn relation_of_each_kind() {
    let a = spatial(2, Single(0), LimitRange(0, 2), Single(1));
    let b = spatial(3, Single(0), LimitRange(2, 3), Single(2));
    // b is the cell f = 0, x = 2..=3, y = 2 of zoom level 3: inside a, which is x = 0..=5, y = 2..=3, f = 0..=1 there
    match relation(a, b).unwrap() {
        Relation::Superset(v) => assert_eq!(v, b),
        other => panic!("{:?}", other),
    }
    match relation(b, a).unwrap() {
        Relation::Subset(v) => assert_eq!(v, b),
        other => panic!("{:?}", other),
    }
    match relation(a, a).unwrap() {
        Relation::Equal(v) => assert_eq!(v, a),
        other => panic!("{:?}", other),
    }
    let same = a.scale(Some(3), None).unwrap();
    match relation(a, same).unwrap() {
        Relation::Equal(v) => assert_eq!(v, same),
        other => panic!("{:?}", other),
    }
    let c = spatial(2, Single(0), LimitRange(2, 3), Any);
    match relation(a, c).unwrap() {
        Relation::Overlap(v) => assert_eq!(v, spatial(2, Single(0), Single(2), Single(1))),
        other => panic!("{:?}", other),
    }
    let d = spatial(2, Single(0), Single(3), Single(1));
    assert!(matches!(relation(a, d).unwrap(), Relation::Disjoint));
    let e = spatial(4, Single(4), Single(0), Single(4));
    assert!(matches!(relation(a, e).unwrap(), Relation::Disjoint));
}

#[test]
fn relation_across_intervals() {
    let hour = SpaceTimeId::new(1, Any, Any, Any, 3600, Single(2)).unwrap();
    let minute = SpaceTimeId::new(1, Any, Any, Any, 60, LimitRange(100, 130)).unwrap();
    // the hour is the minutes 120..=179
    match relation(hour, minute).unwrap() {
        Relation::Overlap(v) => assert_eq!(v, SpaceTimeId::new(1, Any, Any, Any, 60, LimitRange(120, 130)).unwrap()),
        other => panic!("{:?}", other),
    }
    let still = SpaceTimeId::new(1, Single(0), Any, Any, 0, Any).unwrap();
    match relation(still, minute).unwrap() {
        Relation::Overlap(v) => assert_eq!(v, SpaceTimeId::new(1, Single(0), Any, Any, 60, LimitRange(100, 130)).unwrap()),
        other => panic!("{:?}", other),
    }
    let late = SpaceTimeId::new(1, Any, Any, Any, 3600, Single(4000000)).unwrap();
    let second = SpaceTimeId::new(1, Any, Any, Any, 1, Any).unwrap();
    assert_eq!(relation(late, second).unwrap_err(), IdError::ScaleError(ScaleFault::TimeOverflow));
    assert_eq!(relation(second, late).unwrap_err(), IdError::ScaleError(ScaleFault::TimeOverflow));
}

#[test]
fn containment_of_each_kind() {
    let a = spatial(2, Single(0), LimitRange(0, 2), Single(1));
    let inside = spatial(3, Single(0), LimitRange(2, 3), Single(2));
    assert_eq!(a.containment_relation(&inside).unwrap(), Containment::Full);
    assert_eq!(a.containment_relation(&a).unwrap(), Containment::Full);
    assert_eq!(inside.containment_relation(&a).unwrap(), Containment::Partial(inside));
    let c = spatial(2, Single(0), LimitRange(2, 3), Any);
    assert_eq!(
        a.containment_relation(&c).unwrap(),
        Containment::Partial(spatial(2, Single(0), Single(2), Single(1)))
    );
    let d = spatial(2, Single(0), Single(3), Single(1));
    assert_eq!(a.containment_relation(&d).unwrap(), Containment::Nothing);
}

#[test]
fn pieces_that_a_range_leaves_out() {
    let pieces = SpaceTimeId::split_xy_dimension(&LimitRange(2, 5), 3);
    assert_eq!(pieces, vec![BeforeUnLimitRange(1), AfterUnLimitRange(6)]);
    assert_eq!(SpaceTimeId::split_xy_dimension(&Single(0), 3), vec![AfterUnLimitRange(1)]);
    assert_eq!(SpaceTimeId::split_xy_dimension(&Single(7), 3), vec![BeforeUnLimitRange(6)]);
    assert_eq!(SpaceTimeId::split_xy_dimension(&Any, 3), vec![]);
    assert_eq!(SpaceTimeId::split_xy_dimension(&BeforeUnLimitRange(3), 3), vec![AfterUnLimitRange(4)]);
    assert_eq!(SpaceTimeId::split_xy_dimension(&AfterUnLimitRange(3), 3), vec![BeforeUnLimitRange(2)]);
    assert_eq!(SpaceTimeId::split_f_dimension(&Single(-8), 3), vec![AfterUnLimitRange(-7)]);
    assert_eq!(
        SpaceTimeId::split_f_dimension(&LimitRange(-1, 0), 3),
        vec![BeforeUnLimitRange(-2), AfterUnLimitRange(1)]
    );
    assert_eq!(SpaceTimeId::split_f_dimension(&AfterUnLimitRange(7), 3), vec![BeforeUnLimitRange(6)]);
    assert_eq!(
        SpaceTimeId::split_t_dimension(&Single(5)),
        vec![BeforeUnLimitRange(4), AfterUnLimitRange(6)]
    );
    assert_eq!(SpaceTimeId::split_t_dimension(&Single(0)), vec![AfterUnLimitRange(1)]);
    assert_eq!(
        SpaceTimeId::split_t_dimension(&Single(u32::MAX)),
        vec![BeforeUnLimitRange(4294967294), AfterUnLimitRange(4294967296)]
    );
    assert_eq!(SpaceTimeId::split_t_dimension(&AfterUnLimitRange(9)), vec![BeforeUnLimitRange(8)]);
}

#[test]
fn single_cells_of_an_identifier() {
    let id = SpaceTimeId::new(2, LimitRange(-1, 0), AfterUnLimitRange(2), Single(1), 9, Single(4)).unwrap();
    let cells = id.pure();
    let texts: Vec<String> = cells.iter().map(|c| c.to_string()).collect();
    assert_eq!(texts, vec!["2/-1/2/1_9/4", "2/0/2/1_9/4", "2/-1/3/1_9/4", "2/0/3/1_9/4"]);
    assert_eq!(id.to_pure(), cells);
    let all = SpaceTimeId::new(1, Any, Any, Any, 0, Any).unwrap().pure();
    assert_eq!(all.len(), 16);
    assert_eq!(all[0].to_string(), "1/-2/0/0_0/-");
    assert_eq!(all[3].to_string(), "1/1/0/0_0/-");
    assert_eq!(all[4].to_string(), "1/-2/0/1_0/-");
    assert_eq!(all[8].to_string(), "1/-2/1/0_0/-");
    assert_eq!(all[15].to_string(), "1/1/1/1_0/-");
    let one = SpaceTimeId::new(0, Single(-1), Single(0), Any, 0, Any).unwrap().pure();
    assert_eq!(one.len(), 1);
    assert_eq!(one[0].to_string(), "0/-1/0/0_0/-");
    let mut set = SpaceTimeIdSet::new();
    set.insert(spatial(2, Single(3), Single(0), Single(0))).unwrap();
    set.insert(spatial(2, Single(-4), BeforeUnLimitRange(1), Single(3))).unwrap();
    let texts: Vec<String> = set.pure().iter().map(|c| c.to_string()).collect();
    assert_eq!(texts, vec!["2/3/0/0_0/-", "2/-4/0/3_0/-", "2/-4/1/3_0/-"]);
    assert_eq!(set.to_pure(), set.pure());
}
