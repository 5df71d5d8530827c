use ledger_sync::flatten::FlattenResult;
use ledger_sync::force::Force;

#[test]
fn new_tags_by_the_flag() {
    assert_eq!(Force::new(5, true), Force::Forced(5));
    assert_eq!(Force::new(5, false), Force::Value(5));
}

#[test]
fn same_keeps_the_tag_and_replaces_the_payload() {
    assert_eq!(Force::Forced(1u8).same("one"), Force::Forced("one"));
    assert_eq!(Force::Value(1u8).same("one"), Force::Value("one"));
    assert_eq!(Force::<u8>::Absent.same("one"), Force::<&str>::Absent);
}

#[test]
fn take_hands_out_the_value_and_resets() {
    let mut forced = Force::Forced(9);
    assert_eq!(forced.take(), Force::Forced(9));
    assert_eq!(forced, Force::Absent);
    assert_eq!(forced.take(), Force::Absent);

    let mut plain = Force::Value(String::from("v"));
    assert_eq!(plain.take(), Force::Value(String::from("v")));
    assert_eq!(plain, Force::Absent);
}

#[test]
fn default_is_absent() {
    assert_eq!(Force::<u32>::default(), Force::Absent);
}

#[test]
fn from_option_unwraps_or_is_absent() {
    assert_eq!(Force::from(Some(Force::Forced(3))), Force::Forced(3));
    assert_eq!(Force::from(Some(Force::Value(3))), Force::Value(3));
    assert_eq!(Force::from(Some(Force::<i8>::Absent)), Force::Absent);
    assert_eq!(Force::<i8>::from(None), Force::Absent);
}

#[test]
fn clone_and_eq_follow_the_payload() {
    let f = Force::new(vec![1, 2], true);
    assert_eq!(f.clone(), f);
    assert_ne!(f, Force::Value(vec![1, 2]));
}

#[test]
fn flatten_passes_the_inner_result_through() {
    let ok: Result<Result<u8, String>, &str> = Ok(Ok(4));
    assert_eq!(ok.flatten_result(), Ok(4));
    let inner: Result<Result<u8, String>, &str> = Ok(Err(String::from("inner")));
    assert_eq!(inner.flatten_result(), Err(String::from("inner")));
}

#[test]
fn flatten_converts_the_outer_error() {
    let outer: Result<Result<u8, String>, &str> = Err("outer");
    assert_eq!(outer.flatten_result(), Err(String::from("outer")));
    let widened: Result<Result<(), u64>, u8> = Err(200);
    assert_eq!(widened.flatten_result(), Err(200u64));
}
