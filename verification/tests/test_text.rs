use kasane_logic::id::parse::TextError;
use kasane_logic::id::DimensionRange::{AfterUnLimitRange, Any, BeforeUnLimitRange, LimitRange, Single};
use kasane_logic::id::{Axis, IdError, SpaceTimeId};

#[test]
fn written_form_is_read_back() {
    let ids = [
        SpaceTimeId::new(4, Single(5), Single(3), Single(10), 60, Single(100)).unwrap(),
        SpaceTimeId::new(3, AfterUnLimitRange(-2), LimitRange(1, 5), Any, 0, Any).unwrap(),
        SpaceTimeId::new(31, BeforeUnLimitRange(-2147483647), Single(2147483647), LimitRange(1, 2147483646), u32::MAX, LimitRange(7, u32::MAX)).unwrap(),
        SpaceTimeId::new(0, Single(-1), Single(0), Any, 1, AfterUnLimitRange(u32::MAX)).unwrap(),
        SpaceTimeId::new(12, LimitRange(-20, -3), BeforeUnLimitRange(9), AfterUnLimitRange(4000), 3600, BeforeUnLimitRange(0)).unwrap(),
    ];
    for id in ids {
        assert_eq!(SpaceTimeId::parse(&id.to_string()), Ok(id), "{}", id.to_string());
    }
}

#[test]
fn read_text_is_validated() {
    assert_eq!(
        SpaceTimeId::parse("2/-4:3/0:3/2:2_5/0:-"),
        Ok(SpaceTimeId::new(2, Any, Any, Single(2), 5, Any).unwrap())
    );
    assert_eq!(SpaceTimeId::parse("002/1/01/1_0/-").unwrap().to_string(), "2/1/1/1_0/-");
    assert_eq!(
        SpaceTimeId::parse("2/1/4/1_0/-"),
        Err(TextError::Invalid(IdError::OutOfRange(Axis::X)))
    );
    assert_eq!(
        SpaceTimeId::parse("2/3:-2/1/1_0/-"),
        Err(TextError::Invalid(IdError::InvalidOrder(Axis::F, 3, -2)))
    );
    assert_eq!(
        SpaceTimeId::parse("2/1/1/1_0/5"),
        Err(TextError::Invalid(IdError::InvalidTimeConfiguration))
    );
    assert_eq!(
        SpaceTimeId::parse("200/1/1/1_0/-"),
        Err(TextError::Invalid(IdError::ResolutionTooLarge(200)))
    );
}

#[test]
fn numbers_that_fit_no_field() {
    for text in [
        "256/1/1/1_0/-",
        "2/2147483648/1/1_0/-",
        "2/-2147483649/1/1_0/-",
        "2/1/4294967296/1_0/-",
        "2/1/-1/1_0/-",
        "2/1/1/1:99999999999999999999999999_0/-",
        "2/1/1/1_4294967296/-",
        "2/1/1/1_1/-:4294967296",
        "2/1/1/1_1/-:-0000000001",
    ] {
        assert_eq!(SpaceTimeId::parse(text), Err(TextError::NumberTooLarge), "{}", text);
    }
    assert!(SpaceTimeId::parse("2/-0/0000000000000000000000000000000000001/1_1/-:4294967295").is_ok());
    assert!(SpaceTimeId::parse("31/-2147483648/0/0_0/-").is_ok());
}

#[test]
fn texts_of_another_form() {
    for text in [
        "",
        "2",
        "2/1/1/1",
        "2/1/1/1_0",
        "2/1/1/1/0_-",
        "2/1/1/1_0/",
        "/1/1/1_0/-",
        "2//1/1_0/-",
        "2/1/1/_0/-",
        "2/1/1/1_/-",
        "-2/1/1/1_0/-",
        "2/1/1/1_-0/-",
        "2/1/1/1_0/--",
        "2/1/1/1_0/-:-",
        "2/1/1/1_0/:",
        "2/1/1/1_0/1:",
        "2/1/1/1_0/:1",
        "2/1/1/1_0/1:2:3",
        "2/+1/1/1_0/-",
        "2/1 /1/1_0/-",
        "2/1/1/1_0/-\n",
        "2/1/1/1_0/- ",
        "2/１/1/1_0/-",
        "2/1/1/1_0/é",
        "2/1.0/1/1_0/-",
        "2/1/1/1_0/-/",
        "2/1/1/1_0_0/-",
        "a/1/1/1_0/-",
    ] {
        assert_eq!(SpaceTimeId::parse(text), Err(TextError::Malformed), "{:?}", text);
    }
}
