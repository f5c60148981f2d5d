use bits::kind::{get_numeric_result, FloatKind, Int, IntKind, XKind};
use bits::arity::Arity;
use std::cmp::Ordering;
use std::collections::HashMap;

#[test]
fn equality() {
    let a = [
        Int::I8(69),
        Int::I16(69),
        Int::I32(69),
        Int::I64(69),
        Int::U8(69),
        Int::U16(69),
        Int::U32(69),
        Int::U64(69),
    ];

    let b = [
        Int::I8(42),
        Int::I16(42),
        Int::I32(42),
        Int::I64(42),
        Int::U8(42),
        Int::U16(42),
        Int::U32(42),
        Int::U64(42),
    ];

    for a1 in a.iter() {
        let mut vals = HashMap::new();
        vals.insert(*a1, "A");

        for a2 in a.iter() {
            assert!(a1.equals(a2));
            assert_eq!(a1, a2);
            assert_eq!(Ordering::Equal, a1.compare(a2));
            assert_eq!("A", vals[a2]);
        }

        for x in b.iter() {
            assert!(!a1.equals(x));
            assert_ne!(a1, x);
            assert_eq!(Ordering::Greater, a1.compare(x));
            assert_eq!(Ordering::Less, x.compare(a1));
            assert!(vals.get(x).is_none());
        }
    }
}

#[test]
fn int_conversions() {
    assert_eq!(Int::U64(u64::MAX).as_i64(), None);
    assert_eq!(Int::I8(-5).as_i64(), Some(-5));
    assert_eq!(Int::I8(-5).as_u64(), None);
    assert_eq!(Int::Lit(300).as_u64(), Some(300));
    assert_eq!(Int::Lit(-1).as_u64(), None);
    assert_eq!(Int::U16(7).as_usize(), 7);
    assert_eq!(Int::I32(-9).sign_abs(), (-1, 9));
    assert_eq!(Int::Lit(-9).sign_abs(), (0, 9));
    assert_eq!(Int::U8(0).sign_abs(), (0, 0));
    assert_eq!(Int::I64(5).kind(), IntKind::I64);
}

#[test]
fn kind_rules() {
    assert!(IntKind::I8.is_valid(&IntKind::I16));
    assert!(!IntKind::U32.is_valid(&IntKind::I32));
    assert!(IntKind::U32.is_valid(&IntKind::I64));
    assert!(IntKind::U8.can_promote_to(IntKind::I16));
    assert!(!IntKind::I8.can_promote_to(IntKind::U64));
    assert!(FloatKind::F32.can_promote_to(FloatKind::F64));
    assert!(!FloatKind::F64.can_promote_to(FloatKind::F32));
    assert_eq!(IntKind::Lit.bits(), 0);
    assert!(XKind::Int(IntKind::I8).is_valid(&XKind::Any));
    assert!(!XKind::Nothing.is_valid(&XKind::Any));
    assert!(XKind::Str.is_valid(&XKind::Str));
    assert!(XKind::Int(IntKind::I8).array_of() == XKind::Array(Box::new(XKind::Int(IntKind::I8))));
    let a = XKind::Int(IntKind::I8).id();
    let b = XKind::Int(IntKind::I32).id();
    assert!(get_numeric_result(&a, &b) == b);
    assert!(get_numeric_result(&b, &a) == b);
    assert!(get_numeric_result(&a, &XKind::Str.id()) == XKind::Nothing.id());
    assert!(get_numeric_result(&a, &XKind::Unknown.id()) == XKind::Unknown.id());
}

#[test]
fn arity_rules() {
    assert_eq!(Arity::exact(2), Arity::Binary);
    assert_eq!(Arity::exact(5), Arity::Variadic { min: Some(5), max: Some(5) });
    assert_eq!(Arity::between(4, 2), Arity::between(2, 4));
    assert_eq!(Arity::between(3, 3), Arity::Ternary);
    assert_eq!(Arity::max(0), Arity::Nullary);
    assert!(Arity::min(2).allows_count(7));
    assert!(!Arity::max(2).allows_count(3));
    assert!(Arity::any().allows(&Arity::exact(9)));
    assert!(!Arity::Unary.allows(&Arity::Binary));
    assert!(Arity::between(1, 4).allows(&Arity::between(2, 3)));
    assert_eq!(Arity::default(), Arity::any());
}

#[test]
fn int_equality_at_the_limits() {
    assert_eq!(Int::I64(i64::MIN), Int::I64(i64::MIN));
    assert_eq!(Int::I64(-5), Int::I8(-5));
    assert_ne!(Int::I64(i64::MIN), Int::I64(i64::MAX));
    assert_eq!(Int::Lit(i128::MIN), Int::Lit(i128::MIN));
    assert_eq!(Int::U64(u64::MAX), Int::Lit(u64::MAX as i128));
}

#[test]
fn integer_order_across_kinds() {
    assert_eq!(Some(Ordering::Equal), Int::I8(42).partial_cmp(&Int::U64(42)));
    assert!(Int::I8(-1) < Int::U8(0));
    assert!(Int::U64(u64::MAX) > Int::I64(i64::MAX));
    // by sign, then by magnitude
    assert!(Int::I32(-9) > Int::I16(-8));
    assert_eq!(Some(Ordering::Greater), Int::U16(300).partial_cmp(&Int::I8(7)));
}
