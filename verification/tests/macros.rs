use crust::avec::{avec_empty, avec_from, avec_repeat, empty_vec, MaxValue};

#[test]
fn single() {
    let x: Vec<u32> = avec_from([42, 43]);
    assert!(!x.is_empty());
    assert_eq!(x.len(), 2);
    assert_eq!(x[0], 42);
    assert_eq!(x[1], 43);
}

#[test]
fn trailing() {
    let _: Vec<&'static str> = avec_from([
        "lakdjwaidjiwalfjhawligfjawilfjawlifwjawliflawilflawlifljawlifaew",
        "lakdjwaidjiwalfjhawligfjawilfjawlifwjawliflawilflawlifljawlifaew",
        "lakdjwaidjiwalfjhawligfjawilfjawlifwjawliflawilflawlifljawlifaew",
        "lakdjwaidjiwalfjhawligfjawilfjawlifwjawliflawilflawlifljawlifaew",
        "lakdjwaidjiwalfjhawligfjawilfjawlifwjawliflawilflawlifljawlifaew",
    ]);
}

#[test]
fn clone_2_nonliteral() {
    let mut y = Some(42);
    let x: Vec<u32> = avec_repeat(y.take().unwrap(), 2);

    assert!(!x.is_empty());
    assert_eq!(x.len(), 2);
    assert_eq!(x[0], 42);
    assert_eq!(x[1], 42);
}

#[test]
fn empty_avec() {
    let x: Vec<u32> = avec_empty();
    assert!(x.is_empty());
    empty_vec();
}

#[test]
fn repeat_zero_times() {
    let x: Vec<String> = avec_repeat(String::from("a"), 0);
    assert!(x.is_empty());
}

#[test]
fn max_values() {
    assert_eq!(<u32 as MaxValue>::max_value(), u32::MAX);
    assert_eq!(<i32 as MaxValue>::max_value(), i32::MAX);
    assert_eq!(<i64 as MaxValue>::max_value(), i64::MAX);
    assert_eq!(<u64 as MaxValue>::max_value(), u64::MAX);
}

#[test]
fn from_owned_elements() {
    let x: Vec<String> = avec_from([String::from("a"), String::from("bc")]);
    assert_eq!(x, vec![String::from("a"), String::from("bc")]);
    let none: Vec<String> = avec_from([]);
    assert!(none.is_empty());
}
