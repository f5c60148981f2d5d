use std::cmp::Ordering;
use bits::symbol::{Symbol, SymbolCounter, SymbolRegistry};

#[test]
fn basic_symbols() {
    assert_eq!(Symbol::empty(), Symbol::empty());
    assert_eq!(Symbol::empty(), Symbol::default());
    assert_eq!(Symbol::empty(), Symbol::str(""));

    assert_eq!(0, Symbol::empty().len());
    assert_eq!(4, Symbol::str("1234").len());

    assert_eq!(Symbol::str("abc"), Symbol::str("abc"));
    assert_eq!(Symbol::str("123"), Symbol::str("123"));

    assert_eq!("\"abc\"$", Symbol::str("abc").to_string());
    assert_eq!("\"123\"$", Symbol::str("123").to_string());
    assert_eq!("\"abc\"$", Symbol::get("abc".as_bytes()).to_string());
}

#[test]
fn unique_symbols() {
    let mut reg = SymbolRegistry::new();
    let a0 = Symbol::empty();
    let a1 = a0.to_unique(&mut reg);
    let a2 = a0.to_unique(&mut reg);
    let a3 = a1.to_unique(&mut reg);

    let b0 = Symbol::str("abc");
    let b1 = b0.to_unique(&mut reg);
    let b2 = b0.to_unique(&mut reg);
    let b3 = b1.to_unique(&mut reg);

    assert_ne!(a0, a1);
    assert_ne!(a0, a2);
    assert_ne!(a0, a3);
    assert_ne!(a1, a2);
    assert_ne!(a1, a3);
    assert_ne!(a2, a3);

    assert_ne!(b0, b1);
    assert_ne!(b0, b2);
    assert_ne!(b0, b3);
    assert_ne!(b1, b2);
    assert_ne!(b1, b3);
    assert_ne!(b2, b3);

    assert_eq!("\"\"$", a0.to_string());
    assert_eq!("\"\"$1", a1.to_string());
    assert_eq!("\"\"$2", a2.to_string());
    assert_eq!("\"\"$3", a3.to_string());

    assert_eq!("\"abc\"$", b0.to_string());
    assert_eq!("\"abc\"$1", b1.to_string());
    assert_eq!("\"abc\"$2", b2.to_string());
    assert_eq!("\"abc\"$3", b3.to_string());
}

#[test]
fn symbol_names() {
    let s = Symbol::str("a\"b");
    assert_eq!("\"a\\\"b\"", s.write_name(true));
    assert_eq!("a\"b", s.write_name(false));
    assert_eq!("a\"b", s.as_str().unwrap());

    let bad = Symbol::get(&[0xff, 1]);
    assert_eq!("([255, 1])", bad.write_name(true));
    assert_eq!("[255, 1]", bad.write_name(false));
    assert_eq!("([255, 1])$", bad.to_string());
    assert!(bad.as_str().is_err());
}

#[test]
fn unique_counters_are_per_bytes() {
    let mut reg = SymbolRegistry::new();
    let x1 = Symbol::unique("x", &mut reg);
    let y1 = Symbol::unique("y", &mut reg);
    let x2 = Symbol::unique("x", &mut reg);
    assert_eq!(1, x1.counter());
    assert_eq!(1, y1.counter());
    assert_eq!(2, x2.counter());
    assert_eq!("\"x\"$2", x2.to_string());
    assert_eq!(0, Symbol::str("x").counter());
}

#[test]
fn counter_wraps() {
    let mut c = SymbolCounter::new();
    assert_eq!(1, c.next());
    assert_eq!(2, c.next());
}

#[test]
fn symbols_order_by_bytes() {

    let abc = Symbol::str("abc");
    assert_eq!(abc.compare(&Symbol::str("abd")), Ordering::Less);
    assert_eq!(Symbol::str("b").compare(&abc), Ordering::Greater);
    assert_eq!(Symbol::str("ab").compare(&abc), Ordering::Less);
    assert_eq!(abc.compare(&Symbol::str("abc")), Ordering::Equal);
    let mut reg = SymbolRegistry::new();
    let u = abc.to_unique(&mut reg);
    assert_ne!(u, abc);
    assert_eq!(u.compare(&abc), Ordering::Equal);
}
