use pineapple::ops::{BinOp, RelOp};
use pineapple::value::{compute_binary, compute_logical, Primitive, Type, Value};
use pineapple::interner::{get_string, intern_string, Interner};
use pineapple::bytecode::ConstantPool;

#[test]
fn flipping_a_comparison_twice_gives_it_back() {
    let all = [RelOp::NotEqual, RelOp::EqualEqual, RelOp::Greater, RelOp::GreaterEqual, RelOp::Less, RelOp::LessEqual];
    for op in all.iter() {
        assert_eq!(op.flip().flip(), *op);
    }
    assert_eq!(RelOp::Less.flip(), RelOp::GreaterEqual);
    assert_eq!(RelOp::EqualEqual.flip(), RelOp::NotEqual);
}

#[test]
fn narrowing_cast_keeps_the_low_bits() {
    let p = Primitive::Int32(300);
    assert_eq!(p.try_cast_to(&Type::Int8), Ok(Primitive::Int8(44)));
    assert_eq!(p.try_cast_to(&Type::Int16), Ok(Primitive::Int16(300)));
}

#[test]
fn cast_between_signed_and_unsigned_wraps() {
    let p = Primitive::Int64(-1);
    assert_eq!(p.try_cast_to(&Type::UInt64), Ok(Primitive::UInt64(u64::MAX)));
    assert_eq!(Primitive::Int64(7).try_cast_to(&Type::UInt8), Ok(Primitive::UInt8(7)));
    assert_eq!(Primitive::Bool(true).try_cast_to(&Type::Int8), Err(()));
}

#[test]
fn inference_keeps_value_in_range() {
    let p = Primitive::UInt(200);
    assert_eq!(p.try_inference_to(&Type::UInt8), Ok(Primitive::UInt8(200)));
    assert!(!p.can_inference_to(&Type::Int8));
    assert_eq!(p.get_type(), Type::UInt);
}

#[test]
fn integer_arithmetic_on_values() {
    let a = Value { inner: Primitive::Int32(7) };
    let b = Value { inner: Primitive::Int32(5) };
    assert_eq!(compute_binary(a, BinOp::Plus, b).inner, Primitive::Int32(12));
    assert_eq!(compute_binary(a, BinOp::Minus, b).inner, Primitive::Int32(2));
    assert_eq!(compute_binary(a, BinOp::Star, b).inner, Primitive::Int32(35));
    assert_eq!(compute_logical(a, RelOp::Greater, b).inner, Primitive::Bool(true));
    assert_eq!(compute_logical(a, RelOp::EqualEqual, b).inner, Primitive::Bool(false));
}

#[test]
fn interning_twice_gives_the_same_index() {
    let mut i = Interner::new();
    let a = intern_string(&mut i, "main".to_string());
    let b = intern_string(&mut i, "print".to_string());
    let c = intern_string(&mut i, "main".to_string());
    assert_eq!(a, c);
    assert_ne!(a, b);
    assert_eq!(get_string(&i, b), "print".to_string());
    assert_eq!(i.len(), 2);
}

#[test]
fn constant_pool_reads_back_what_was_inserted() {
    let mut pool = ConstantPool::new();
    let v = Value { inner: Primitive::Int64(42) };
    let w = Value { inner: Primitive::Bool(true) };
    let i = pool.insert(v);
    let j = pool.insert(w);
    let k = pool.insert(v);
    assert_eq!(i, k);
    assert_ne!(i, j);
    assert_eq!(pool.get(i).inner, Primitive::Int64(42));
    assert_eq!(pool.get(j).inner, Primitive::Bool(true));
}

#[test]
fn unsigned_cast_to_signed_keeps_an_unsigned_width() {
    assert_eq!(Primitive::UInt8(200).try_cast_to(&Type::Int8), Ok(Primitive::UInt8(200)));
    assert_eq!(Primitive::UInt64(300).try_cast_to(&Type::Int16), Ok(Primitive::UInt16(300)));
    assert_eq!(Primitive::UInt(5).try_cast_to(&Type::Int), Ok(Primitive::UInt(5)));
    assert_eq!(Primitive::UInt8(5).try_cast_to(&Type::Int128), Err(()));
}

#[test]
fn inference_agrees_with_cast() {
    let p = Primitive::Int16(-3);
    assert_eq!(p.try_inference_to(&Type::Int64), p.try_cast_to(&Type::Int64));
    assert_eq!(Primitive::UInt8(9).try_inference_to(&Type::UInt32), Ok(Primitive::UInt32(9)));
    assert!(Primitive::UInt8(9).try_inference_to(&Type::Int32).is_err());
    assert!(Primitive::UInt8(9).can_inference_to(&Type::UInt16));
    assert!(!Primitive::UInt8(9).can_inference_to(&Type::Int16));
}
