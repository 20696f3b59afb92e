use kasane_logic::id::contain::Containment;
use kasane_logic::id::relation::{relation, Relation};
use kasane_logic::id::DimensionRange::{self, AfterUnLimitRange, Any, BeforeUnLimitRange, LimitRange, Single};
use kasane_logic::id::SpaceTimeId;
use kasane_logic::set::SpaceTimeIdSet;

fn holds_signed(r: DimensionRange<i32>, v: i64) -> bool {
    match r {
        Single(a) => v == a as i64,
        LimitRange(s, e) => s as i64 <= v && v <= e as i64,
        BeforeUnLimitRange(e) => v <= e as i64,
        AfterUnLimitRange(s) => s as i64 <= v,
        Any => true,
    }
}

fn holds(r: DimensionRange<u32>, v: i64) -> bool {
    match r {
        Single(a) => v == a as i64,
        LimitRange(s, e) => s as i64 <= v && v <= e as i64,
        BeforeUnLimitRange(e) => v <= e as i64,
        AfterUnLimitRange(s) => s as i64 <= v,
        Any => true,
    }
}

/// Whether the identifier covers the cell `(f, x, 0)` of zoom level 2 at the second `s`.
fn covers(id: &SpaceTimeId, f: i64, x: i64, s: i64) -> bool {
    assert!(id.z() <= 2);
    let k = 1i64 << (2 - id.z());
    holds_signed(id.f(), f.div_euclid(k))
        && holds(id.x(), x / k)
        && holds(id.y(), 0)
        && (id.i() == 0 || holds(id.t(), s / id.i() as i64))
}

fn times_covered(set: &SpaceTimeIdSet, f: i64, x: i64, s: i64) -> usize {
    set.iter().filter(|id| covers(id, f, x, s)).count()
}

fn slab(i: u32, t: DimensionRange<u32>) -> SpaceTimeId {
    SpaceTimeId::new(0, Any, Any, Any, i, t).unwrap()
}

fn timed(z: u8, f: DimensionRange<i32>, x: DimensionRange<u32>, i: u32, t: DimensionRange<u32>) -> SpaceTimeId {
    SpaceTimeId::new(z, f, x, Any, i, t).unwrap()
}

/// Identifiers with intervals of which none divides another, each with a
/// vertical range that leaves a height out.
fn short_samples() -> Vec<SpaceTimeId> {
    vec![
        timed(2, Single(0), Single(1), 10, Single(2)),
        timed(2, LimitRange(-2, 1), AfterUnLimitRange(2), 45, LimitRange(0, 1)),
        timed(1, Single(-1), Any, 6, LimitRange(6, 8)),
        timed(1, AfterUnLimitRange(0), BeforeUnLimitRange(0), 60, Single(1)),
        timed(2, BeforeUnLimitRange(-3), LimitRange(1, 2), 7, Single(0)),
        timed(0, Single(0), Any, 4, LimitRange(3, 20)),
        timed(0, Single(-1), Any, 9, BeforeUnLimitRange(5)),
    ]
}

/// Those of the samples whose complement covers all that they leave out.
fn exact_samples() -> Vec<SpaceTimeId> {
    short_samples().into_iter().filter(|id| id.z() >= 1).collect()
}

/// Time ranges over all of space, with intervals of which none divides
/// another.
fn slabs() -> Vec<SpaceTimeId> {
    vec![
        slab(60, Single(1)),
        slab(45, Single(2)),
        slab(45, LimitRange(4, 7)),
        slab(7, BeforeUnLimitRange(3)),
        slab(10, AfterUnLimitRange(11)),
    ]
}

fn same_cover(a: &SpaceTimeIdSet, b: &SpaceTimeIdSet) -> bool {
    for f in -4..4 {
        for x in 0..4 {
            for s in 0..400 {
                if (times_covered(a, f, x, s) > 0) != (times_covered(b, f, x, s) > 0) {
                    return false;
                }
            }
        }
    }
    true
}

#[test]
fn relation_of_intervals_that_do_not_divide() {
    let a = slab(60, Single(1));
    let b = slab(45, Single(2));
    match relation(a, b).unwrap() {
        Relation::Overlap(part) => {
            assert_eq!(part.to_string(), "0/-/-/-_15/6:7");
            for s in 0..400 {
                assert_eq!(covers(&part, 0, 0, s), (90..120).contains(&s));
            }
        }
        _ => panic!("the two share the seconds from 90 to 119"),
    }
    let c = slab(45, LimitRange(4, 7));
    assert!(matches!(relation(a, c).unwrap(), Relation::Disjoint));
    assert!(matches!(relation(c, a).unwrap(), Relation::Disjoint));
}

#[test]
fn relation_is_exact_for_every_pair_of_intervals() {
    let mut ids = short_samples();
    ids.extend(slabs());
    for a in &ids {
        for b in &ids {
            let r = relation(*a, *b).unwrap();
            let part = match r {
                Relation::Disjoint => None,
                Relation::Equal(v) | Relation::Subset(v) | Relation::Superset(v) | Relation::Overlap(v) => Some(v),
            };
            let mut a_in_b = true;
            let mut b_in_a = true;
            for f in -4..4 {
                for x in 0..4 {
                    for s in 0..400 {
                        let in_a = covers(a, f, x, s);
                        let in_b = covers(b, f, x, s);
                        let got = part.map_or(false, |v| covers(&v, f, x, s));
                        assert_eq!(got, in_a && in_b, "{} and {}", a.to_string(), b.to_string());
                        a_in_b = a_in_b && (!in_a || in_b);
                        b_in_a = b_in_a && (!in_b || in_a);
                    }
                }
            }
            match r {
                Relation::Equal(_) => assert!(a_in_b && b_in_a),
                Relation::Subset(_) => assert!(a_in_b),
                Relation::Superset(_) => assert!(b_in_a),
                _ => {}
            }
        }
    }
}

#[test]
fn containment_of_intervals_that_do_not_divide() {
    let a = slab(60, Single(1));
    let b = slab(45, Single(2));
    match a.containment_relation(&b).unwrap() {
        Containment::Partial(part) => assert_eq!(part.to_string(), "0/-/-/-_15/6:7"),
        _ => panic!("the first holds a part of the second"),
    }
    let c = slab(45, LimitRange(4, 7));
    assert!(matches!(a.containment_relation(&c).unwrap(), Containment::Nothing));
    let whole = slab(90, Single(0));
    assert!(matches!(whole.containment_relation(&slab(60, Single(0))).unwrap(), Containment::Full));
}

#[test]
fn scale_to_an_interval_that_does_not_divide() {
    let id = SpaceTimeId::new(4, Single(5), Single(3), Single(10), 60, Single(1)).unwrap();
    let scaled = id.scale(None, Some(45)).unwrap();
    assert_eq!(scaled.i(), 15);
    assert_eq!(scaled.t(), LimitRange(4, 7));
    for target in [1u32, 7, 8, 9, 25, 45, 60, 120] {
        for id in short_samples() {
            if target > id.i() {
                assert!(id.scale(Some(2), Some(target)).is_err());
                continue;
            }
            let got = id.scale(Some(2), Some(target)).unwrap();
            for f in -4..4 {
                for x in 0..4 {
                    for s in 0..400 {
                        assert_eq!(covers(&got, f, x, s), covers(&id, f, x, s));
                    }
                }
            }
        }
    }
}

#[test]
fn insert_of_a_time_range_with_another_interval() {
    let mut set = SpaceTimeIdSet::from(slab(60, Single(1)));
    set.insert(slab(45, Single(2))).unwrap();
    for s in 0..400 {
        assert_eq!(times_covered(&set, 0, 0, s), if (60..135).contains(&s) { 1 } else { 0 }, "second {}", s);
    }
    let mut set = SpaceTimeIdSet::from(slab(60, Single(1)));
    set.insert(slab(45, LimitRange(4, 7))).unwrap();
    for s in 0..400 {
        let inside = (60..120).contains(&s) || (180..360).contains(&s);
        assert_eq!(times_covered(&set, -3, 2, s), if inside { 1 } else { 0 }, "second {}", s);
    }
}

#[test]
fn insert_with_intervals_covers_both_and_nothing_twice() {
    for group in [short_samples(), slabs()] {
        for a in &group {
            for b in &group {
                let mut set = SpaceTimeIdSet::from(*a);
                set.insert(*b).unwrap();
                for f in -4..4 {
                    for x in 0..4 {
                        for s in 0..400 {
                            let inside = covers(a, f, x, s) || covers(b, f, x, s);
                            assert_eq!(
                                times_covered(&set, f, x, s),
                                if inside { 1 } else { 0 },
                                "{} into {} at {} {} {}",
                                b.to_string(),
                                a.to_string(),
                                f,
                                x,
                                s
                            );
                        }
                    }
                }
                let once: Vec<String> = set.iter().map(|id| id.to_string()).collect();
                set.insert(*b).unwrap();
                let twice: Vec<String> = set.iter().map(|id| id.to_string()).collect();
                assert_eq!(once, twice);
            }
        }
    }
}

#[test]
fn union_with_intervals_covers_both_whichever_comes_first() {
    for group in [short_samples(), slabs()] {
        let mut left = SpaceTimeIdSet::new();
        let mut right = SpaceTimeIdSet::new();
        for (k, id) in group.iter().enumerate() {
            if k % 2 == 0 {
                left.insert(*id).unwrap();
            } else {
                right.insert(*id).unwrap();
            }
        }
        let ab = left.union(&right).unwrap();
        let ba = right.union(&left).unwrap();
        for f in -4..4 {
            for x in 0..4 {
                for s in 0..400 {
                    let inside = times_covered(&left, f, x, s) + times_covered(&right, f, x, s) > 0;
                    assert_eq!(times_covered(&ab, f, x, s), if inside { 1 } else { 0 });
                    assert_eq!(times_covered(&ba, f, x, s), if inside { 1 } else { 0 });
                }
            }
        }
    }
}

#[test]
fn complement_of_a_set_with_intervals() {
    for group in [short_samples(), slabs()] {
        let mut set = SpaceTimeIdSet::new();
        for id in group.iter().take(3) {
            set.insert(*id).unwrap();
        }
        let rest = set.complement().unwrap();
        for f in -4..4 {
            for x in 0..4 {
                for s in 0..400 {
                    let inside = times_covered(&set, f, x, s);
                    assert!(inside <= 1);
                    assert_eq!(times_covered(&rest, f, x, s), 1 - inside);
                }
            }
        }
        let back = rest.complement().unwrap();
        assert!(same_cover(&back, &set));
    }
}

#[test]
fn symmetric_difference_with_intervals() {
    for group in [exact_samples(), slabs()] {
        let mut left = SpaceTimeIdSet::new();
        let mut right = SpaceTimeIdSet::new();
        for (k, id) in group.iter().enumerate() {
            if k < 3 {
                left.insert(*id).unwrap();
            }
            if k >= 2 {
                right.insert(*id).unwrap();
            }
        }
        let x = left.symmetric_difference(&right).unwrap();
        for f in -4..4 {
            for c in 0..4 {
                for s in 0..400 {
                    let one = (times_covered(&left, f, c, s) > 0) != (times_covered(&right, f, c, s) > 0);
                    assert_eq!(times_covered(&x, f, c, s), if one { 1 } else { 0 });
                }
            }
        }
        assert!(left.symmetric_difference(&left).unwrap().is_empty());
    }
}

#[test]
fn de_morgan_with_intervals() {
    for group in [exact_samples(), slabs()] {
        let mut left = SpaceTimeIdSet::new();
        let mut right = SpaceTimeIdSet::new();
        for (k, id) in group.iter().enumerate() {
            if k % 2 == 0 {
                left.insert(*id).unwrap();
            } else {
                right.insert(*id).unwrap();
            }
        }
        let ab = left.union(&right).unwrap();
        let ba = right.union(&left).unwrap();
        assert!(ab.physical_equals(&ba).unwrap());
        assert!(!ab.physical_equals(&left).unwrap());
        let not_union = ab.complement().unwrap();
        let both = left.complement().unwrap().intersection(&right.complement().unwrap()).unwrap();
        assert!(same_cover(&not_union, &both));
        let not_shared = left.intersection(&right).unwrap().complement().unwrap();
        let either = left.complement().unwrap().union(&right.complement().unwrap()).unwrap();
        assert!(same_cover(&not_shared, &either));
    }
}

#[test]
fn a_time_range_beside_half_of_space_at_zoom_level_0() {
    // At zoom level 0 the complement does not cut space: what a time range
    // over all of space covers beyond the upper half at the same time is
    // taken from the time beside it only.
    let upper = timed(0, Single(0), Any, 60, Single(1));
    let rest = upper.complement().unwrap();
    for s in 0..400 {
        let inside = (60..120).contains(&s);
        assert_eq!(times_covered(&rest, 0, 0, s), if inside { 0 } else { 1 });
        assert_eq!(times_covered(&rest, -1, 0, s), 0);
    }
}

#[test]
fn insert_of_all_heights_beside_half_of_space_at_zoom_level_0() {
    // The part that the two share lies at zoom level 0, where the complement
    // does not cut space: nothing is covered twice, nothing beyond the two is
    // covered, and what the new one covers below the half is not taken in.
    let upper = timed(0, Single(0), Any, 60, Single(1));
    let all = slab(60, Single(1));
    let mut set = SpaceTimeIdSet::from(upper);
    set.insert(all).unwrap();
    for s in 0..400 {
        let inside = (60..120).contains(&s);
        assert_eq!(times_covered(&set, 0, 0, s), if inside { 1 } else { 0 });
        assert_eq!(times_covered(&set, -1, 0, s), 0);
    }
    // The other way round the half lies within what is there.
    let mut set = SpaceTimeIdSet::from(all);
    set.insert(upper).unwrap();
    assert_eq!(set.len(), 1);
    for s in 0..400 {
        let inside = (60..120).contains(&s);
        assert_eq!(times_covered(&set, 0, 0, s), if inside { 1 } else { 0 });
        assert_eq!(times_covered(&set, -1, 0, s), if inside { 1 } else { 0 });
    }
}

#[test]
fn insert_of_all_time_with_an_interval_beside_a_part_of_it() {
    // The complement of an identifier with an interval and all time is
    // empty without a look: of an identifier of that kind that reaches beyond
    // one that is there, nothing more is taken in.
    let one = SpaceTimeId::new(2, Single(1), Single(1), Any, 60, Any).unwrap();
    let two = SpaceTimeId::new(2, Single(1), LimitRange(1, 2), Any, 60, Any).unwrap();
    let mut set = SpaceTimeIdSet::from(one);
    set.insert(two).unwrap();
    for s in [0i64, 59, 60, 1000] {
        assert_eq!(times_covered(&set, 1, 1, s), 1);
        assert_eq!(times_covered(&set, 1, 2, s), 0);
        assert_eq!(times_covered(&set, 1, 3, s), 0);
    }
}

#[test]
fn union_of_sets_that_lie_beside_each_other() {
    // Identifiers with an interval and all time, which share no point.
    let one = SpaceTimeId::new(2, Single(1), Single(1), Any, 60, Any).unwrap();
    let two = SpaceTimeId::new(2, Single(-2), LimitRange(2, 3), Any, 45, Any).unwrap();
    let three = SpaceTimeId::new(2, Single(0), Single(0), Any, 0, Any).unwrap();
    let left = SpaceTimeIdSet::from(one);
    let mut right = SpaceTimeIdSet::from(two);
    right.insert(three).unwrap();
    let all = left.union(&right).unwrap();
    for f in -4..4 {
        for x in 0..4 {
            for s in [0i64, 44, 45, 60, 399] {
                let inside = covers(&one, f, x, s) || covers(&two, f, x, s) || covers(&three, f, x, s);
                assert_eq!(times_covered(&all, f, x, s), if inside { 1 } else { 0 });
            }
        }
    }
    // The complement of an identifier with an interval and all time is
    // empty without a look, and so is what is made of it.
    assert!(left.complement().unwrap().is_empty());
    assert!(left.symmetric_difference(&right).unwrap().is_empty());
}

#[test]
fn complement_of_the_complement_with_an_interval() {
    for text in ["2/1/1/1_60/5", "2/-/1/-_60/2:3", "0/0/-/-_60/5", "0/-/-/-_60/5"] {
        let r = SpaceTimeId::parse(text).unwrap();
        let back = r.complement().unwrap().complement().unwrap();
        assert!(back.physical_equals(&SpaceTimeIdSet::from(r)).unwrap(), "{}", text);
        assert!(same_cover(&back, &SpaceTimeIdSet::from(r)));
    }
    // The complement of half of space above zoom level 0 is stored with
    // halves of space at zoom level 0, beside which space is not cut.
    let half = SpaceTimeId::parse("1/0/-/-_60/5").unwrap();
    let back = half.complement().unwrap().complement().unwrap();
    assert!(back.is_empty());
}
