use bits::context::Context;
use bits::runtime_types::Primitive;
use bits::types::{Type, TypeTable};

#[test]
fn basic_types() {
    let mut table = TypeTable::new();
    assert_eq!(Type::none(), Type::none());
    assert_eq!(Type::unit(), Type::unit());
    assert_eq!(Type::never(), Type::never());
    assert_eq!(Type::any(), Type::any());
    assert_eq!(Type::unknown(), Type::unknown());
    assert_eq!(Type::invalid(&mut table), Type::invalid(&mut table));

    let invalid = Type::invalid(&mut table);
    assert!(invalid.is_invalid(&table));
    let unit_invalid = Type::unit().to_invalid(&mut table);
    assert!(unit_invalid.is_invalid(&table));

    assert_ne!(Type::unit().to_unique(&mut table), Type::unit());
    assert_eq!(Type::none().to_unique(&mut table), Type::none());
    assert_eq!(Type::unknown().to_unique(&mut table), Type::unknown());
}

#[test]
fn mod_basic_types() {
    let mut ctx = Context::new();
    let types = ctx.types_mut();
    assert_eq!(types.none(), types.none());
    assert_eq!(types.unit(), types.unit());
    assert_eq!(types.never(), types.never());
    assert_eq!(types.any(), types.any());
    assert_eq!(types.unknown(), types.unknown());
    let i1 = types.invalid();
    let i2 = types.invalid();
    assert_eq!(i1, i2);

    let invalid = types.invalid();
    assert!(invalid.is_invalid(types));
    let unit = types.unit();
    let unit_invalid = unit.to_invalid(types);
    assert!(unit_invalid.is_invalid(types));

    let unit = types.unit();
    assert_ne!(unit.to_unique(types), types.unit());
    let none = types.none();
    assert_eq!(none.to_unique(types), types.none());
    let unknown = types.unknown();
    assert_eq!(unknown.to_unique(types), types.unknown());

    let s = types.str();
    assert_eq!(s, types.builtin(Primitive::String));
    let b = types.bool();
    assert_eq!(b, types.builtin(Primitive::Bool));
    let si = types.sint();
    assert_eq!(si, types.builtin(Primitive::SInt(64)));
    let ui = types.uint();
    assert_eq!(ui, types.builtin(Primitive::UInt(64)));
}

#[test]
fn builtin_types() {
    let mut ctx = Context::new();
    let types = ctx.types_mut();
    let u32 = types.builtin(Primitive::UInt(32));
    assert_eq!(u32, types.builtin(Primitive::UInt(32)));
    assert_ne!(u32, types.builtin(Primitive::UInt(64)));
}

#[test]
fn sum_of_types_contains_both() {
    let mut ctx = Context::new();
    let types = ctx.types_mut();
    let a = types.sint();
    let b = types.str();
    let s = a.sum(b, types);
    assert!(s.contains(a, types));
    assert!(s.contains(b, types));
    assert_eq!(s, b.sum(a, types));
    let n = types.none();
    assert_eq!(a, a.sum(n, types));
}

#[test]
fn to_invalid_repeats_after_other_operations() {
    let mut ctx = Context::new();
    let types = ctx.types_mut();
    let unit = types.unit();
    let first = unit.to_invalid(types);
    let sum = types.str().sum(types.bool(), types);
    let _ = sum.to_unique(types);
    let _ = types.builtin(Primitive::UInt(8));
    let _ = types.invalid();
    assert_eq!(unit.to_invalid(types), first);
    assert_eq!(first.to_invalid(types), first);
}
