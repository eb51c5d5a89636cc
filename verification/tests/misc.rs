use crust::error::Error;
use crust::fns::{bar, hello, quox};
use crust::mutex::{AnyValue, Mutex};
use crust::rc::Rc;

#[test]
fn rc_shares_value() {
    let x = Rc::new(1);
    let y = x.clone();
    assert_eq!(*x, 1);
    assert_eq!(*y.get(), 1);
    let z = y.share();
    assert_eq!(*z, 1);
}

#[test]
fn mutex_with_lock() {
    let m = Mutex::new(0u32, AnyValue);
    m.with_lock(|v| *v += 1);
    m.with_lock(|v| *v += 41);
    assert_eq!(m.with_lock(|v| *v), 42);
}

#[test]
fn error_messages() {
    assert_eq!(Error::Message("boom".to_string()).to_string(), "boom");
    assert_eq!(Error::Eof.to_string(), "unexpected end of input");
}

#[test]
fn function_items() {
    assert_eq!(bar::<i32>(7), 0);
    assert_eq!(bar::<u32>(0), 0);
    let mut called = std::cell::Cell::new(false);
    quox(|| called.set(true));
    assert!(called.get());
    called = std::cell::Cell::new(false);
    hello(Box::new(|| called.set(true)));
    assert!(called.get());
}
