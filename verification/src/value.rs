use vstd::prelude::*;
use vstd::arithmetic::power::pow;
use crate::ops::{BinOp, RelOp, holds};

verus! {

/// A 32-bit floating point number held by its decomposition, so that
/// constants can be compared and hashed as plain integers.
#[derive(Clone, Copy, PartialEq, Eq, Structural, Hash, Debug)]
pub struct DistanceF32 {
    pub mantissa: u32,
    pub exponent: i8,
    pub sign: i8,
}

impl DistanceF32 {
    pub fn new(mantissa: u32, exponent: i8, sign: i8) -> (r: Self)
        ensures
            r.mantissa == mantissa,
            r.exponent == exponent,
            r.sign == sign,
    {
        DistanceF32 { mantissa, exponent, sign }
    }
}

/// A 64-bit floating point number held by its decomposition.
#[derive(Clone, Copy, PartialEq, Eq, Structural, Hash, Debug)]
pub struct DistanceF64 {
    pub mantissa: u64,
    pub exponent: i16,
    pub sign: i8,
}

impl DistanceF64 {
    pub fn new(mantissa: u64, exponent: i16, sign: i8) -> (r: Self)
        ensures
            r.mantissa == mantissa,
            r.exponent == exponent,
            r.sign == sign,
    {
        DistanceF64 { mantissa, exponent, sign }
    }
}

/// The types of the language.
#[derive(Clone, Copy, PartialEq, Eq, Structural, Hash, Debug)]
pub enum Type {
    Int8,
    Int16,
    Int32,
    Int64,
    Int128,
    Int,
    UInt8,
    UInt16,
    UInt32,
    UInt64,
    UInt128,
    UInt,
    Float32,
    Float64,
    Bool,
    Char,
    String,
    Nil,
}

/// A primitive value; `String` holds the index of an interned string.
#[derive(Clone, Copy, PartialEq, Eq, Structural, Hash, Debug)]
pub enum Primitive {
    Int8(i8),
    Int16(i16),
    Int32(i32),
    Int64(i64),
    Int(isize),
    Int128(i128),
    UInt8(u8),
    UInt16(u16),
    UInt32(u32),
    UInt64(u64),
    UInt(usize),
    UInt128(u128),
    Float32(DistanceF32),
    Float64(DistanceF64),
    Bool(bool),
    Char(char),
    String(usize),
    Nil,
}

impl Type {
    pub open spec fn is_signed(self) -> bool {
        ||| self == Type::Int8
        ||| self == Type::Int16
        ||| self == Type::Int32
        ||| self == Type::Int64
        ||| self == Type::Int128
        ||| self == Type::Int
    }

    pub open spec fn is_unsigned(self) -> bool {
        ||| self == Type::UInt8
        ||| self == Type::UInt16
        ||| self == Type::UInt32
        ||| self == Type::UInt64
        ||| self == Type::UInt128
        ||| self == Type::UInt
    }

    pub open spec fn is_integer(self) -> bool {
        self.is_signed() || self.is_unsigned()
    }

    pub open spec fn is_float(self) -> bool {
        self == Type::Float32 || self == Type::Float64
    }

    /// Smallest value of an integer type.
    pub open spec fn min(self) -> int {
        match self {
            Type::Int8 => i8::MIN as int,
            Type::Int16 => i16::MIN as int,
            Type::Int32 => i32::MIN as int,
            Type::Int64 => i64::MIN as int,
            Type::Int128 => i128::MIN as int,
            Type::Int => isize::MIN as int,
            _ => 0,
        }
    }

    /// Largest value of an integer type.
    pub open spec fn max(self) -> int {
        match self {
            Type::Int8 => i8::MAX as int,
            Type::Int16 => i16::MAX as int,
            Type::Int32 => i32::MAX as int,
            Type::Int64 => i64::MAX as int,
            Type::Int128 => i128::MAX as int,
            Type::Int => isize::MAX as int,
            Type::UInt8 => u8::MAX as int,
            Type::UInt16 => u16::MAX as int,
            Type::UInt32 => u32::MAX as int,
            Type::UInt64 => u64::MAX as int,
            Type::UInt128 => u128::MAX as int,
            Type::UInt => usize::MAX as int,
            _ => 0,
        }
    }

    /// `v` is representable in the integer type.
    pub open spec fn holds_value(self, v: int) -> bool {
        self.is_integer() && self.min() <= v <= self.max()
    }
}

/// The primitive of integer type `t` whose bits are the low bits of `v`
/// (two's complement truncation, as Rust's `as` does).
pub open spec fn int_prim(t: Type, v: int) -> Primitive {
    match t {
        Type::Int8 => Primitive::Int8(v as i8),
        Type::Int16 => Primitive::Int16(v as i16),
        Type::Int32 => Primitive::Int32(v as i32),
        Type::Int64 => Primitive::Int64(v as i64),
        Type::Int128 => Primitive::Int128(v as i128),
        Type::Int => Primitive::Int(v as isize),
        Type::UInt8 => Primitive::UInt8(v as u8),
        Type::UInt16 => Primitive::UInt16(v as u16),
        Type::UInt32 => Primitive::UInt32(v as u32),
        Type::UInt64 => Primitive::UInt64(v as u64),
        Type::UInt128 => Primitive::UInt128(v as u128),
        Type::UInt => Primitive::UInt(v as usize),
        _ => Primitive::Nil,
    }
}

/// Rust's integer division, which rounds toward zero.
pub open spec fn trunc_div(a: int, b: int) -> int {
    if a >= 0 {
        if b > 0 { a / b } else { -(a / -b) }
    } else {
        if b > 0 { -((-a) / b) } else { (-a) / (-b) }
    }
}

/// Which conversions between types `try_inference_to` and
/// `can_inference_to` accept: within the signed integers, within the
/// unsigned integers, and within the floats.
/// The unsigned type of the same width as a signed type.
pub open spec fn unsigned_of(t: Type) -> Type {
    match t {
        Type::Int8 => Type::UInt8,
        Type::Int16 => Type::UInt16,
        Type::Int32 => Type::UInt32,
        Type::Int64 => Type::UInt64,
        Type::Int128 => Type::UInt128,
        Type::Int => Type::UInt,
        _ => t,
    }
}

fn unsigned_of_exec(t: Type) -> (r: Type)
    ensures
        r == unsigned_of(t),
{
    match t {
        Type::Int8 => Type::UInt8,
        Type::Int16 => Type::UInt16,
        Type::Int32 => Type::UInt32,
        Type::Int64 => Type::UInt64,
        Type::Int128 => Type::UInt128,
        Type::Int => Type::UInt,
        _ => t,
    }
}

pub open spec fn inference_allowed(from: Type, to: Type) -> bool {
    ||| from.is_signed() && to.is_signed()
    ||| from.is_unsigned() && to.is_unsigned()
    ||| from.is_float() && to.is_float()
}

impl Primitive {
    pub open spec fn spec_type(self) -> Type {
        match self {
            Primitive::Int8(_) => Type::Int8,
            Primitive::Int16(_) => Type::Int16,
            Primitive::Int32(_) => Type::Int32,
            Primitive::Int64(_) => Type::Int64,
            Primitive::Int(_) => Type::Int,
            Primitive::Int128(_) => Type::Int128,
            Primitive::UInt8(_) => Type::UInt8,
            Primitive::UInt16(_) => Type::UInt16,
            Primitive::UInt32(_) => Type::UInt32,
            Primitive::UInt64(_) => Type::UInt64,
            Primitive::UInt(_) => Type::UInt,
            Primitive::UInt128(_) => Type::UInt128,
            Primitive::Float32(_) => Type::Float32,
            Primitive::Float64(_) => Type::Float64,
            Primitive::Bool(_) => Type::Bool,
            Primitive::Char(_) => Type::Char,
            Primitive::String(_) => Type::String,
            Primitive::Nil => Type::Nil,
        }
    }

    /// The mathematical value of an integer primitive.
    pub open spec fn int_value(self) -> int {
        match self {
            Primitive::Int8(a) => a as int,
            Primitive::Int16(a) => a as int,
            Primitive::Int32(a) => a as int,
            Primitive::Int64(a) => a as int,
            Primitive::Int(a) => a as int,
            Primitive::Int128(a) => a as int,
            Primitive::UInt8(a) => a as int,
            Primitive::UInt16(a) => a as int,
            Primitive::UInt32(a) => a as int,
            Primitive::UInt64(a) => a as int,
            Primitive::UInt(a) => a as int,
            Primitive::UInt128(a) => a as int,
            _ => 0,
        }
    }

    pub open spec fn is_integer(self) -> bool {
        self.spec_type().is_integer()
    }

    pub open spec fn is_float(self) -> bool {
        self.spec_type().is_float()
    }

    /// Both operands are integers of one type.
    pub open spec fn same_integer_type(p1: Primitive, p2: Primitive) -> bool {
        p1.is_integer() && p1.spec_type() == p2.spec_type()
    }

    /// The conversion of `self` to `t` is one between a float and
    /// another number, which is floating-point arithmetic.
    pub open spec fn cast_needs_float(self, t: Type) -> bool {
        ||| self.is_float() && (t.is_integer() || t != self.spec_type() && t.is_float())
        ||| self.is_integer() && t.is_float()
    }

    /// What `try_cast_to` gives for conversions that need no
    /// floating-point arithmetic. An unsigned value cast to a signed type
    /// becomes the unsigned integer of that width, and has no cast to
    /// `Int128`.
    pub open spec fn spec_cast(self, t: Type) -> Result<Primitive, ()> {
        if self.is_integer() && t.is_integer() {
            if self.spec_type().is_unsigned() && t.is_signed() {
                if t == Type::Int128 {
                    Err(())
                } else {
                    Ok(int_prim(unsigned_of(t), self.int_value()))
                }
            } else {
                Ok(int_prim(t, self.int_value()))
            }
        } else if self.is_float() && t == self.spec_type() {
            Ok(self)
        } else {
            Err(())
        }
    }

    /// What `try_inference_to` gives for conversions that need no
    /// floating-point arithmetic.
    pub open spec fn spec_inference(self, t: Type) -> Result<Primitive, ()> {
        if self.is_integer() && inference_allowed(self.spec_type(), t) {
            Ok(int_prim(t, self.int_value()))
        } else if self.is_float() && t == self.spec_type() {
            Ok(self)
        } else {
            Err(())
        }
    }

    /// The conversion of a float to the other float type.
    pub open spec fn inference_needs_float(self, t: Type) -> bool {
        self.is_float() && t.is_float() && t != self.spec_type()
    }

    fn as_i8(&self) -> (r: i8)
        requires self.is_integer(),
        ensures r == self.int_value() as i8,
    {
        match *self {
            Primitive::Int8(a) => a as i8,
            Primitive::Int16(a) => a as i8,
            Primitive::Int32(a) => a as i8,
            Primitive::Int64(a) => a as i8,
            Primitive::Int(a) => a as i8,
            Primitive::Int128(a) => a as i8,
            Primitive::UInt8(a) => a as i8,
            Primitive::UInt16(a) => a as i8,
            Primitive::UInt32(a) => a as i8,
            Primitive::UInt64(a) => a as i8,
            Primitive::UInt(a) => a as i8,
            Primitive::UInt128(a) => a as i8,
            _ => 0,
        }
    }

    fn as_i16(&self) -> (r: i16)
        requires self.is_integer(),
        ensures r == self.int_value() as i16,
    {
        match *self {
            Primitive::Int8(a) => a as i16,
            Primitive::Int16(a) => a as i16,
            Primitive::Int32(a) => a as i16,
            Primitive::Int64(a) => a as i16,
            Primitive::Int(a) => a as i16,
            Primitive::Int128(a) => a as i16,
            Primitive::UInt8(a) => a as i16,
            Primitive::UInt16(a) => a as i16,
            Primitive::UInt32(a) => a as i16,
            Primitive::UInt64(a) => a as i16,
            Primitive::UInt(a) => a as i16,
            Primitive::UInt128(a) => a as i16,
            _ => 0,
        }
    }

    fn as_i32(&self) -> (r: i32)
        requires self.is_integer(),
        ensures r == self.int_value() as i32,
    {
        match *self {
            Primitive::Int8(a) => a as i32,
            Primitive::Int16(a) => a as i32,
            Primitive::Int32(a) => a as i32,
            Primitive::Int64(a) => a as i32,
            Primitive::Int(a) => a as i32,
            Primitive::Int128(a) => a as i32,
            Primitive::UInt8(a) => a as i32,
            Primitive::UInt16(a) => a as i32,
            Primitive::UInt32(a) => a as i32,
            Primitive::UInt64(a) => a as i32,
            Primitive::UInt(a) => a as i32,
            Primitive::UInt128(a) => a as i32,
            _ => 0,
        }
    }

    fn as_i64(&self) -> (r: i64)
        requires self.is_integer(),
        ensures r == self.int_value() as i64,
    {
        match *self {
            Primitive::Int8(a) => a as i64,
            Primitive::Int16(a) => a as i64,
            Primitive::Int32(a) => a as i64,
            Primitive::Int64(a) => a as i64,
            Primitive::Int(a) => a as i64,
            Primitive::Int128(a) => a as i64,
            Primitive::UInt8(a) => a as i64,
            Primitive::UInt16(a) => a as i64,
            Primitive::UInt32(a) => a as i64,
            Primitive::UInt64(a) => a as i64,
            Primitive::UInt(a) => a as i64,
            Primitive::UInt128(a) => a as i64,
            _ => 0,
        }
    }

    fn as_i128(&self) -> (r: i128)
        requires self.is_integer(),
        ensures r == self.int_value() as i128,
    {
        match *self {
            Primitive::Int8(a) => a as i128,
            Primitive::Int16(a) => a as i128,
            Primitive::Int32(a) => a as i128,
            Primitive::Int64(a) => a as i128,
            Primitive::Int(a) => a as i128,
            Primitive::Int128(a) => a as i128,
            Primitive::UInt8(a) => a as i128,
            Primitive::UInt16(a) => a as i128,
            Primitive::UInt32(a) => a as i128,
            Primitive::UInt64(a) => a as i128,
            Primitive::UInt(a) => a as i128,
            Primitive::UInt128(a) => a as i128,
            _ => 0,
        }
    }

    fn as_isize(&self) -> (r: isize)
        requires self.is_integer(),
        ensures r == self.int_value() as isize,
    {
        match *self {
            Primitive::Int8(a) => a as isize,
            Primitive::Int16(a) => a as isize,
            Primitive::Int32(a) => a as isize,
            Primitive::Int64(a) => a as isize,
            Primitive::Int(a) => a as isize,
            Primitive::Int128(a) => a as isize,
            Primitive::UInt8(a) => a as isize,
            Primitive::UInt16(a) => a as isize,
            Primitive::UInt32(a) => a as isize,
            Primitive::UInt64(a) => a as isize,
            Primitive::UInt(a) => a as isize,
            Primitive::UInt128(a) => a as isize,
            _ => 0,
        }
    }

    fn as_u8(&self) -> (r: u8)
        requires self.is_integer(),
        ensures r == self.int_value() as u8,
    {
        match *self {
            Primitive::Int8(a) => a as u8,
            Primitive::Int16(a) => a as u8,
            Primitive::Int32(a) => a as u8,
            Primitive::Int64(a) => a as u8,
            Primitive::Int(a) => a as u8,
            Primitive::Int128(a) => a as u8,
            Primitive::UInt8(a) => a as u8,
            Primitive::UInt16(a) => a as u8,
            Primitive::UInt32(a) => a as u8,
            Primitive::UInt64(a) => a as u8,
            Primitive::UInt(a) => a as u8,
            Primitive::UInt128(a) => a as u8,
            _ => 0,
        }
    }

    fn as_u16(&self) -> (r: u16)
        requires self.is_integer(),
        ensures r == self.int_value() as u16,
    {
        match *self {
            Primitive::Int8(a) => a as u16,
            Primitive::Int16(a) => a as u16,
            Primitive::Int32(a) => a as u16,
            Primitive::Int64(a) => a as u16,
            Primitive::Int(a) => a as u16,
            Primitive::Int128(a) => a as u16,
            Primitive::UInt8(a) => a as u16,
            Primitive::UInt16(a) => a as u16,
            Primitive::UInt32(a) => a as u16,
            Primitive::UInt64(a) => a as u16,
            Primitive::UInt(a) => a as u16,
            Primitive::UInt128(a) => a as u16,
            _ => 0,
        }
    }

    fn as_u32(&self) -> (r: u32)
        requires self.is_integer(),
        ensures r == self.int_value() as u32,
    {
        match *self {
            Primitive::Int8(a) => a as u32,
            Primitive::Int16(a) => a as u32,
            Primitive::Int32(a) => a as u32,
            Primitive::Int64(a) => a as u32,
            Primitive::Int(a) => a as u32,
            Primitive::Int128(a) => a as u32,
            Primitive::UInt8(a) => a as u32,
            Primitive::UInt16(a) => a as u32,
            Primitive::UInt32(a) => a as u32,
            Primitive::UInt64(a) => a as u32,
            Primitive::UInt(a) => a as u32,
            Primitive::UInt128(a) => a as u32,
            _ => 0,
        }
    }

    fn as_u64(&self) -> (r: u64)
        requires self.is_integer(),
        ensures r == self.int_value() as u64,
    {
        match *self {
            Primitive::Int8(a) => a as u64,
            Primitive::Int16(a) => a as u64,
            Primitive::Int32(a) => a as u64,
            Primitive::Int64(a) => a as u64,
            Primitive::Int(a) => a as u64,
            Primitive::Int128(a) => a as u64,
            Primitive::UInt8(a) => a as u64,
            Primitive::UInt16(a) => a as u64,
            Primitive::UInt32(a) => a as u64,
            Primitive::UInt64(a) => a as u64,
            Primitive::UInt(a) => a as u64,
            Primitive::UInt128(a) => a as u64,
            _ => 0,
        }
    }

    fn as_u128(&self) -> (r: u128)
        requires self.is_integer(),
        ensures r == self.int_value() as u128,
    {
        match *self {
            Primitive::Int8(a) => a as u128,
            Primitive::Int16(a) => a as u128,
            Primitive::Int32(a) => a as u128,
            Primitive::Int64(a) => a as u128,
            Primitive::Int(a) => a as u128,
            Primitive::Int128(a) => a as u128,
            Primitive::UInt8(a) => a as u128,
            Primitive::UInt16(a) => a as u128,
            Primitive::UInt32(a) => a as u128,
            Primitive::UInt64(a) => a as u128,
            Primitive::UInt(a) => a as u128,
            Primitive::UInt128(a) => a as u128,
            _ => 0,
        }
    }

    fn as_usize(&self) -> (r: usize)
        requires self.is_integer(),
        ensures r == self.int_value() as usize,
    {
        match *self {
            Primitive::Int8(a) => a as usize,
            Primitive::Int16(a) => a as usize,
            Primitive::Int32(a) => a as usize,
            Primitive::Int64(a) => a as usize,
            Primitive::Int(a) => a as usize,
            Primitive::Int128(a) => a as usize,
            Primitive::UInt8(a) => a as usize,
            Primitive::UInt16(a) => a as usize,
            Primitive::UInt32(a) => a as usize,
            Primitive::UInt64(a) => a as usize,
            Primitive::UInt(a) => a as usize,
            Primitive::UInt128(a) => a as usize,
            _ => 0,
        }
    }

    /// The integer of type `t` holding the low bits of this integer.
    fn convert_integer(&self, t: Type) -> (r: Primitive)
        requires
            self.is_integer(),
            t.is_integer(),
        ensures
            r == int_prim(t, self.int_value()),
    {
        match t {
            Type::Int8 => Primitive::Int8(self.as_i8()),
            Type::Int16 => Primitive::Int16(self.as_i16()),
            Type::Int32 => Primitive::Int32(self.as_i32()),
            Type::Int64 => Primitive::Int64(self.as_i64()),
            Type::Int128 => Primitive::Int128(self.as_i128()),
            Type::Int => Primitive::Int(self.as_isize()),
            Type::UInt8 => Primitive::UInt8(self.as_u8()),
            Type::UInt16 => Primitive::UInt16(self.as_u16()),
            Type::UInt32 => Primitive::UInt32(self.as_u32()),
            Type::UInt64 => Primitive::UInt64(self.as_u64()),
            Type::UInt128 => Primitive::UInt128(self.as_u128()),
            Type::UInt => Primitive::UInt(self.as_usize()),
            _ => Primitive::Nil,
        }
    }

    /// Converts within the signed integers, within the unsigned integers
    /// (keeping the low bits) or between a float and its own type.
    pub fn try_inference_to(&self, new_type: &Type) -> (r: Result<Primitive, ()>)
        requires
            !self.inference_needs_float(*new_type),
        ensures
            r == self.spec_inference(*new_type),
    {
        if self.is_integer_exec() && inference_allowed_exec(self.get_type(), *new_type) {
            Ok(self.convert_integer(*new_type))
        } else if self.is_float_exec() && self.get_type() == *new_type {
            Ok(*self)
        } else {
            Err(())
        }
    }

    /// Converts between any two integer types (keeping the low bits) or
    /// between a float and its own type.
    pub fn try_cast_to(&self, new_type: &Type) -> (r: Result<Primitive, ()>)
        requires
            !self.cast_needs_float(*new_type),
        ensures
            r == self.spec_cast(*new_type),
    {
        if self.is_integer_exec() && type_is_integer(*new_type) {
            if type_is_unsigned(self.get_type()) && type_is_signed(*new_type) {
                if *new_type == Type::Int128 {
                    Err(())
                } else {
                    Ok(self.convert_integer(unsigned_of_exec(*new_type)))
                }
            } else {
                Ok(self.convert_integer(*new_type))
            }
        } else if self.is_float_exec() && self.get_type() == *new_type {
            Ok(*self)
        } else {
            Err(())
        }
    }

    pub fn can_inference_to(&self, new_type: &Type) -> (r: bool)
        ensures
            r == (inference_allowed(self.spec_type(), *new_type) || (*self is String && *new_type
                == Type::String)),
    {
        let t = self.get_type();
        inference_allowed_exec(t, *new_type) || (t == Type::String && *new_type == Type::String)
    }

    /// Whether the value has the given type; `Nil` has no type.
    pub fn is_of_type(&self, target_type: &Type) -> (r: bool)
        ensures
            r == (self.spec_type() == *target_type && *target_type != Type::Nil),
    {
        let t = self.get_type();
        t == *target_type && t != Type::Nil
    }

    pub fn get_type(&self) -> (r: Type)
        ensures
            r == self.spec_type(),
    {
        match self {
            Primitive::Int8(_) => Type::Int8,
            Primitive::Int16(_) => Type::Int16,
            Primitive::Int32(_) => Type::Int32,
            Primitive::Int64(_) => Type::Int64,
            Primitive::Int(_) => Type::Int,
            Primitive::Int128(_) => Type::Int128,
            Primitive::UInt8(_) => Type::UInt8,
            Primitive::UInt16(_) => Type::UInt16,
            Primitive::UInt32(_) => Type::UInt32,
            Primitive::UInt64(_) => Type::UInt64,
            Primitive::UInt(_) => Type::UInt,
            Primitive::UInt128(_) => Type::UInt128,
            Primitive::Float32(_) => Type::Float32,
            Primitive::Float64(_) => Type::Float64,
            Primitive::Bool(_) => Type::Bool,
            Primitive::Char(_) => Type::Char,
            Primitive::String(_) => Type::String,
            Primitive::Nil => Type::Nil,
        }
    }

    fn is_integer_exec(&self) -> (r: bool)
        ensures
            r == self.is_integer(),
    {
        type_is_integer(self.get_type())
    }

    fn is_float_exec(&self) -> (r: bool)
        ensures
            r == self.is_float(),
    {
        let t = self.get_type();
        t == Type::Float32 || t == Type::Float64
    }
}

fn type_is_signed(t: Type) -> (r: bool)
    ensures
        r == t.is_signed(),
{
    match t {
        Type::Int8 | Type::Int16 | Type::Int32 | Type::Int64 | Type::Int128 | Type::Int => true,
        _ => false,
    }
}

fn type_is_unsigned(t: Type) -> (r: bool)
    ensures
        r == t.is_unsigned(),
{
    match t {
        Type::UInt8 | Type::UInt16 | Type::UInt32 | Type::UInt64 | Type::UInt128 | Type::UInt => {
            true
        },
        _ => false,
    }
}

fn type_is_integer(t: Type) -> (r: bool)
    ensures
        r == t.is_integer(),
{
    type_is_signed(t) || type_is_unsigned(t)
}

fn inference_allowed_exec(from: Type, to: Type) -> (r: bool)
    ensures
        r == inference_allowed(from, to),
{
    (type_is_signed(from) && type_is_signed(to)) || (type_is_unsigned(from) && type_is_unsigned(
        to,
    )) || ((from == Type::Float32 || from == Type::Float64) && (to == Type::Float32 || to
        == Type::Float64))
}


pub open spec fn abs(x: int) -> int {
    if x < 0 { -x } else { x }
}

proof fn lemma_pow_step(b: int, e: nat)
    ensures
        pow(b, 0) == 1,
        pow(b, e + 1) == b * pow(b, e),
{
    reveal(pow);
}

/// Raising a number of magnitude at least one to a higher power does not
/// make it smaller in magnitude.
proof fn lemma_pow_abs_grows(a: int, k: nat, n: nat)
    requires
        abs(a) >= 1,
        k <= n,
    ensures
        abs(pow(a, k)) <= abs(pow(a, n)),
    decreases n,
{
    if k < n {
        lemma_pow_abs_grows(a, k, (n - 1) as nat);
        let p = pow(a, (n - 1) as nat);
        lemma_pow_step(a, (n - 1) as nat);
        assert(abs(a * p) == abs(a) * abs(p)) by (nonlinear_arith);
        assert(abs(a) * abs(p) >= abs(p)) by (nonlinear_arith)
            requires abs(a) >= 1, abs(p) >= 0;
    }
}

proof fn lemma_pow_abs_doubles(a: int, k: nat)
    requires
        abs(a) >= 2,
    ensures
        abs(pow(a, k + 1)) >= 2 * abs(pow(a, k)),
{
    lemma_pow_step(a, k);
    let p = pow(a, k);
    assert(abs(a * p) == abs(a) * abs(p)) by (nonlinear_arith);
    assert(abs(a) * abs(p) >= 2 * abs(p)) by (nonlinear_arith)
        requires abs(a) >= 2, abs(p) >= 0;
}

proof fn lemma_pow_one(n: nat)
    ensures
        pow(1, n) == 1,
    decreases n,
{
    lemma_pow_step(1, 0);
    if n > 0 {
        lemma_pow_one((n - 1) as nat);
        lemma_pow_step(1, (n - 1) as nat);
    }
}

proof fn lemma_pow_minus_one(n: nat)
    ensures
        pow(-1, n) == if n % 2 == 0 { 1int } else { -1int },
    decreases n,
{
    lemma_pow_step(-1, 0);
    if n > 0 {
        lemma_pow_minus_one((n - 1) as nat);
        lemma_pow_step(-1, (n - 1) as nat);
    }
}

/// `a` raised to the power `b`, computed in 128 bits.
fn pow_signed(a: i128, b: u32) -> (r: i128)
    requires
        i128::MIN <= pow(a as int, b as nat) <= i128::MAX,
    ensures
        r == pow(a as int, b as nat),
{
    proof {
        lemma_pow_step(a as int, 0);
    }
    if a == 0 {
        if b == 0 {
            1
        } else {
            proof {
                lemma_pow_step(0, (b - 1) as nat);
            }
            0
        }
    } else if a == 1 {
        proof {
            lemma_pow_one(b as nat);
        }
        1
    } else if a == -1 {
        proof {
            lemma_pow_minus_one(b as nat);
        }
        if b % 2 == 0 {
            1
        } else {
            -1
        }
    } else {
        proof {
            lemma_pow_step(a as int, 0);
        }
        let mut acc: i128 = 1;
        let mut i: u32 = 0;
        while i < b
            invariant
                i <= b,
                acc == pow(a as int, i as nat),
                abs(a as int) >= 2,
                i128::MIN <= pow(a as int, b as nat) <= i128::MAX,
            decreases b - i,
        {
            proof {
                lemma_pow_abs_grows(a as int, (i + 1) as nat, b as nat);
                lemma_pow_step(a as int, i as nat);
                if i + 1 < b {
                    lemma_pow_abs_grows(a as int, (i + 2) as nat, b as nat);
                    lemma_pow_abs_doubles(a as int, (i + 1) as nat);
                }
            }
            acc = acc * a;
            i = i + 1;
        }
        acc
    }
}

/// `a` raised to the power `b`, computed in 128 bits.
fn pow_unsigned(a: u128, b: u32) -> (r: u128)
    requires
        pow(a as int, b as nat) <= u128::MAX,
    ensures
        r == pow(a as int, b as nat),
{
    proof {
        lemma_pow_step(a as int, 0);
    }
    if a == 0 {
        if b == 0 {
            1
        } else {
            proof {
                lemma_pow_step(0, (b - 1) as nat);
            }
            0
        }
    } else if a == 1 {
        proof {
            lemma_pow_one(b as nat);
        }
        1
    } else {
        proof {
            lemma_pow_step(a as int, 0);
        }
        let mut acc: u128 = 1;
        let mut i: u32 = 0;
        while i < b
            invariant
                i <= b,
                acc == pow(a as int, i as nat),
                a >= 2,
                pow(a as int, b as nat) <= u128::MAX,
            decreases b - i,
        {
            proof {
                vstd::arithmetic::power::lemma_pow_positive(a as int, b as nat);
                vstd::arithmetic::power::lemma_pow_positive(a as int, (i + 1) as nat);
                lemma_pow_abs_grows(a as int, (i + 1) as nat, b as nat);
                lemma_pow_abs_grows(a as int, 0, i as nat);
                lemma_pow_step(a as int, i as nat);
            }
            acc = acc * a;
            i = i + 1;
        }
        acc
    }
}

impl Primitive {
    /// The sum of two integers of one type.
    fn add(p1: Primitive, p2: Primitive) -> (r: Primitive)
        requires
            Primitive::same_integer_type(p1, p2),
            p1.spec_type().holds_value(p1.int_value() + p2.int_value()),
        ensures
            r == int_prim(p1.spec_type(), p1.int_value() + p2.int_value()),
            r.int_value() == p1.int_value() + p2.int_value(),
    {
        let t = p1.get_type();
        if type_is_signed(t) {
            Primitive::Int128(p1.as_i128() + p2.as_i128()).convert_integer(t)
        } else {
            Primitive::UInt128(p1.as_u128() + p2.as_u128()).convert_integer(t)
        }
    }

    /// The difference of two integers of one type.
    fn sub(p1: Primitive, p2: Primitive) -> (r: Primitive)
        requires
            Primitive::same_integer_type(p1, p2),
            p1.spec_type().holds_value(p1.int_value() - p2.int_value()),
        ensures
            r == int_prim(p1.spec_type(), p1.int_value() - p2.int_value()),
            r.int_value() == p1.int_value() - p2.int_value(),
    {
        let t = p1.get_type();
        if type_is_signed(t) {
            Primitive::Int128(p1.as_i128() - p2.as_i128()).convert_integer(t)
        } else {
            Primitive::UInt128(p1.as_u128() - p2.as_u128()).convert_integer(t)
        }
    }

    /// The product of two integers of one type.
    fn mul(p1: Primitive, p2: Primitive) -> (r: Primitive)
        requires
            Primitive::same_integer_type(p1, p2),
            p1.spec_type().holds_value(p1.int_value() * p2.int_value()),
        ensures
            r == int_prim(p1.spec_type(), p1.int_value() * p2.int_value()),
            r.int_value() == p1.int_value() * p2.int_value(),
    {
        let t = p1.get_type();
        if type_is_signed(t) {
            Primitive::Int128(p1.as_i128() * p2.as_i128()).convert_integer(t)
        } else {
            Primitive::UInt128(p1.as_u128() * p2.as_u128()).convert_integer(t)
        }
    }

    /// The quotient of two integers of one type, rounded toward zero.
    fn div(p1: Primitive, p2: Primitive) -> (r: Primitive)
        requires
            Primitive::same_integer_type(p1, p2),
            p2.int_value() != 0,
            p1.spec_type().holds_value(trunc_div(p1.int_value(), p2.int_value())),
        ensures
            r == int_prim(p1.spec_type(), trunc_div(p1.int_value(), p2.int_value())),
            r.int_value() == trunc_div(p1.int_value(), p2.int_value()),
    {
        let t = p1.get_type();
        if type_is_signed(t) {
            let q = p1.as_i128().checked_div(p2.as_i128());
            match q {
                Some(q) => Primitive::Int128(q).convert_integer(t),
                None => Primitive::Nil,
            }
        } else {
            Primitive::UInt128(p1.as_u128() / p2.as_u128()).convert_integer(t)
        }
    }

    /// An integer raised to a `UInt32` power.
    fn pow(p1: Primitive, p2: Primitive) -> (r: Primitive)
        requires
            p1.is_integer(),
            p2 is UInt32,
            p1.spec_type().holds_value(pow(p1.int_value(), p2.int_value() as nat)),
        ensures
            r == int_prim(p1.spec_type(), pow(p1.int_value(), p2.int_value() as nat)),
            r.int_value() == pow(p1.int_value(), p2.int_value() as nat),
    {
        let t = p1.get_type();
        let e = match p2 {
            Primitive::UInt32(b) => b,
            _ => 0,
        };
        if type_is_signed(t) {
            Primitive::Int128(pow_signed(p1.as_i128(), e)).convert_integer(t)
        } else {
            Primitive::UInt128(pow_unsigned(p1.as_u128(), e)).convert_integer(t)
        }
    }

    /// The Euclidean remainder of two integers of one type: the value in
    /// `0 .. |p2|` that differs from `p1` by a multiple of `p2`.
    fn rem(p1: Primitive, p2: Primitive) -> (r: Primitive)
        requires
            Primitive::same_integer_type(p1, p2),
            p2.int_value() != 0,
            !(p1.int_value() == p1.spec_type().min() && p2.int_value() == -1),
        ensures
            r == int_prim(p1.spec_type(), p1.int_value() % p2.int_value()),
            r.int_value() == p1.int_value() % p2.int_value(),
    {
        let t = p1.get_type();
        if type_is_signed(t) {
            match p1.as_i128().checked_rem_euclid(p2.as_i128()) {
                Some(m) => Primitive::Int128(m).convert_integer(t),
                None => Primitive::Nil,
            }
        } else {
            Primitive::UInt128(p1.as_u128() % p2.as_u128()).convert_integer(t)
        }
    }

    fn less_than(p1: Primitive, p2: Primitive) -> (r: bool)
        requires
            Primitive::same_integer_type(p1, p2),
        ensures
            r == (p1.int_value() < p2.int_value()),
    {
        if type_is_signed(p1.get_type()) {
            p1.as_i128() < p2.as_i128()
        } else {
            p1.as_u128() < p2.as_u128()
        }
    }

    fn less_than_equal(p1: Primitive, p2: Primitive) -> (r: bool)
        requires
            Primitive::same_integer_type(p1, p2),
        ensures
            r == (p1.int_value() <= p2.int_value()),
    {
        if type_is_signed(p1.get_type()) {
            p1.as_i128() <= p2.as_i128()
        } else {
            p1.as_u128() <= p2.as_u128()
        }
    }

    fn greater_than(p1: Primitive, p2: Primitive) -> (r: bool)
        requires
            Primitive::same_integer_type(p1, p2),
        ensures
            r == (p1.int_value() > p2.int_value()),
    {
        if type_is_signed(p1.get_type()) {
            p1.as_i128() > p2.as_i128()
        } else {
            p1.as_u128() > p2.as_u128()
        }
    }

    fn greater_than_equal(p1: Primitive, p2: Primitive) -> (r: bool)
        requires
            Primitive::same_integer_type(p1, p2),
        ensures
            r == (p1.int_value() >= p2.int_value()),
    {
        if type_is_signed(p1.get_type()) {
            p1.as_i128() >= p2.as_i128()
        } else {
            p1.as_u128() >= p2.as_u128()
        }
    }

    fn equal(p1: Primitive, p2: Primitive) -> (r: bool)
        requires
            Primitive::same_integer_type(p1, p2),
        ensures
            r == (p1.int_value() == p2.int_value()),
            r == (p1 == p2),
    {
        if type_is_signed(p1.get_type()) {
            p1.as_i128() == p2.as_i128()
        } else {
            p1.as_u128() == p2.as_u128()
        }
    }
}


/// A value of the language.
#[derive(Clone, Copy, PartialEq, Eq, Structural, Hash, Debug)]
pub struct Value {
    pub inner: Primitive,
}

impl From<Primitive> for Value {
    fn from(other: Primitive) -> (r: Self) {
        Value { inner: other }
    }
}

impl vstd::std_specs::convert::FromSpecImpl<Primitive> for Value {
    open spec fn obeys_from_spec() -> bool {
        true
    }

    open spec fn from_spec(other: Primitive) -> Self {
        Value { inner: other }
    }
}

/// The operands of `op` are integers for which the operation is defined
/// (no overflow, no division by zero).
pub open spec fn binary_defined(p1: Primitive, op: BinOp, p2: Primitive) -> bool {
    match op {
        BinOp::Plus => Primitive::same_integer_type(p1, p2) && p1.spec_type().holds_value(
            p1.int_value() + p2.int_value(),
        ),
        BinOp::Minus => Primitive::same_integer_type(p1, p2) && p1.spec_type().holds_value(
            p1.int_value() - p2.int_value(),
        ),
        BinOp::Star => Primitive::same_integer_type(p1, p2) && p1.spec_type().holds_value(
            p1.int_value() * p2.int_value(),
        ),
        BinOp::Slash => Primitive::same_integer_type(p1, p2) && p2.int_value() != 0
            && p1.spec_type().holds_value(trunc_div(p1.int_value(), p2.int_value())),
        BinOp::Carat => p1.is_integer() && p2 is UInt32 && p1.spec_type().holds_value(
            pow(p1.int_value(), p2.int_value() as nat),
        ),
        BinOp::Modulo => Primitive::same_integer_type(p1, p2) && p2.int_value() != 0 && !(
        p1.int_value() == p1.spec_type().min() && p2.int_value() == -1),
        _ => false,
    }
}

/// The mathematical result of an arithmetic operator on integers.
pub open spec fn binary_result(a: int, op: BinOp, b: int) -> int {
    match op {
        BinOp::Plus => a + b,
        BinOp::Minus => a - b,
        BinOp::Star => a * b,
        BinOp::Slash => trunc_div(a, b),
        BinOp::Carat => pow(a, b as nat),
        BinOp::Modulo => a % b,
        _ => 0,
    }
}

impl Value {
    pub fn can_cast_to(&self, target_type: &Type) -> (r: bool)
        ensures
            r == (inference_allowed(self.inner.spec_type(), *target_type) || (self.inner is String
                && *target_type == Type::String)),
    {
        self.inner.can_inference_to(target_type)
    }

    /// Converts the value in place; on failure the value is left as it was.
    pub fn try_cast_to(&mut self, target_type: &Type) -> (r: Result<(), ()>)
        requires
            !old(self).inner.cast_needs_float(*target_type),
        ensures
            match old(self).inner.spec_cast(*target_type) {
                Ok(p) => r is Ok && final(self).inner == p,
                Err(_) => r is Err && *final(self) == *old(self),
            },
    {
        self.inner = self.inner.try_cast_to(target_type)?;
        Ok(())
    }

    pub fn is_of_type(&self, target_type: &Type) -> (r: bool)
        ensures
            r == (self.inner.spec_type() == *target_type && *target_type != Type::Nil),
    {
        self.inner.is_of_type(target_type)
    }

    pub fn get_type(&self) -> (r: Type)
        ensures
            r == self.inner.spec_type(),
    {
        self.inner.get_type()
    }

    fn add(left: Value, right: Value) -> (r: Value)
        requires
            binary_defined(left.inner, BinOp::Plus, right.inner),
        ensures
            r.inner == int_prim(left.inner.spec_type(), left.inner.int_value() + right.inner.int_value()),
    {
        Value { inner: Primitive::add(left.inner, right.inner) }
    }

    fn sub(left: Value, right: Value) -> (r: Value)
        requires
            binary_defined(left.inner, BinOp::Minus, right.inner),
        ensures
            r.inner == int_prim(left.inner.spec_type(), left.inner.int_value() - right.inner.int_value()),
    {
        Value { inner: Primitive::sub(left.inner, right.inner) }
    }

    fn mul(left: Value, right: Value) -> (r: Value)
        requires
            binary_defined(left.inner, BinOp::Star, right.inner),
        ensures
            r.inner == int_prim(left.inner.spec_type(), left.inner.int_value() * right.inner.int_value()),
    {
        Value { inner: Primitive::mul(left.inner, right.inner) }
    }

    fn div(left: Value, right: Value) -> (r: Value)
        requires
            binary_defined(left.inner, BinOp::Slash, right.inner),
        ensures
            r.inner == int_prim(
                left.inner.spec_type(),
                trunc_div(left.inner.int_value(), right.inner.int_value()),
            ),
    {
        Value { inner: Primitive::div(left.inner, right.inner) }
    }

    fn pow(left: Value, right: Value) -> (r: Value)
        requires
            binary_defined(left.inner, BinOp::Carat, right.inner),
        ensures
            r.inner == int_prim(
                left.inner.spec_type(),
                pow(left.inner.int_value(), right.inner.int_value() as nat),
            ),
    {
        Value { inner: Primitive::pow(left.inner, right.inner) }
    }

    fn rem(left: Value, right: Value) -> (r: Value)
        requires
            binary_defined(left.inner, BinOp::Modulo, right.inner),
        ensures
            r.inner == int_prim(
                left.inner.spec_type(),
                left.inner.int_value() % right.inner.int_value(),
            ),
    {
        Value { inner: Primitive::rem(left.inner, right.inner) }
    }

    fn less_than(left: Value, right: Value) -> (r: bool)
        requires
            Primitive::same_integer_type(left.inner, right.inner),
        ensures
            r == (left.inner.int_value() < right.inner.int_value()),
    {
        Primitive::less_than(left.inner, right.inner)
    }

    fn less_than_equal(left: Value, right: Value) -> (r: bool)
        requires
            Primitive::same_integer_type(left.inner, right.inner),
        ensures
            r == (left.inner.int_value() <= right.inner.int_value()),
    {
        Primitive::less_than_equal(left.inner, right.inner)
    }

    fn greater_than(left: Value, right: Value) -> (r: bool)
        requires
            Primitive::same_integer_type(left.inner, right.inner),
        ensures
            r == (left.inner.int_value() > right.inner.int_value()),
    {
        Primitive::greater_than(left.inner, right.inner)
    }

    fn greater_than_equal(left: Value, right: Value) -> (r: bool)
        requires
            Primitive::same_integer_type(left.inner, right.inner),
        ensures
            r == (left.inner.int_value() >= right.inner.int_value()),
    {
        Primitive::greater_than_equal(left.inner, right.inner)
    }

    fn equal(left: Value, right: Value) -> (r: bool)
        requires
            Primitive::same_integer_type(left.inner, right.inner),
        ensures
            r == (left.inner.int_value() == right.inner.int_value()),
    {
        Primitive::equal(left.inner, right.inner)
    }

    fn not_equal(left: Value, right: Value) -> (r: bool)
        requires
            Primitive::same_integer_type(left.inner, right.inner),
        ensures
            r == (left.inner.int_value() != right.inner.int_value()),
    {
        !Primitive::equal(left.inner, right.inner)
    }
}

/// Applies an arithmetic operator to two integer values of one type.
pub fn compute_binary(left: Value, op: BinOp, right: Value) -> (r: Value)
    requires
        binary_defined(left.inner, op, right.inner),
    ensures
        r.inner == int_prim(
            left.inner.spec_type(),
            binary_result(left.inner.int_value(), op, right.inner.int_value()),
        ),
        r.inner.spec_type() == left.inner.spec_type(),
        r.inner.int_value() == binary_result(left.inner.int_value(), op, right.inner.int_value()),
{
    let r = match op {
        BinOp::Plus => Value::add(left, right),
        BinOp::Minus => Value::sub(left, right),
        BinOp::Star => Value::mul(left, right),
        BinOp::Slash => Value::div(left, right),
        BinOp::Carat => Value::pow(left, right),
        BinOp::Modulo => Value::rem(left, right),
        _ => left,
    };
    proof {
        lemma_int_prim_exact(
            left.inner.spec_type(),
            binary_result(left.inner.int_value(), op, right.inner.int_value()),
        );
    }
    r
}

/// Applies a relational operator to two integer values of one type,
/// giving a `Bool` value.
pub fn compute_logical(left: Value, op: RelOp, right: Value) -> (r: Value)
    requires
        Primitive::same_integer_type(left.inner, right.inner),
    ensures
        r.inner == Primitive::Bool(holds(op, left.inner.int_value(), right.inner.int_value())),
{
    let res = match op {
        RelOp::Less => Value::less_than(left, right),
        RelOp::LessEqual => Value::less_than_equal(left, right),
        RelOp::Greater => Value::greater_than(left, right),
        RelOp::GreaterEqual => Value::greater_than_equal(left, right),
        RelOp::EqualEqual => Value::equal(left, right),
        RelOp::NotEqual => Value::not_equal(left, right),
    };
    Value { inner: Primitive::Bool(res) }
}

/// An integer that fits its type is held exactly.
pub proof fn lemma_int_prim_exact(t: Type, v: int)
    requires
        t.holds_value(v),
    ensures
        int_prim(t, v).spec_type() == t,
        int_prim(t, v).int_value() == v,
{
}

/// Converting an integer to its own type gives it back.
pub proof fn lemma_int_prim_of_self(p: Primitive)
    requires
        p.is_integer(),
    ensures
        int_prim(p.spec_type(), p.int_value()) == p,
{
}

/// Implicit inference is a restriction of explicit casting: where
/// inference succeeds, casting gives the same value.
pub proof fn lemma_inference_is_cast(p: Primitive, t: Type)
    requires
        !p.inference_needs_float(t),
        p.spec_inference(t) is Ok,
    ensures
        p.spec_cast(t) == p.spec_inference(t),
{
}

/// The inference check agrees with inference itself, except that a string
/// passes the check for the string type.
pub proof fn lemma_can_inference_agrees(p: Primitive, t: Type)
    requires
        !p.inference_needs_float(t),
    ensures
        (inference_allowed(p.spec_type(), t) || (p is String && t == Type::String))
            <==> (p.spec_inference(t) is Ok || (p is String && t == Type::String)),
{
}

/// `!=` and `==` always give opposite answers.
pub proof fn lemma_equal_not_equal_opposite(a: int, b: int)
    ensures
        holds(RelOp::NotEqual, a, b) == !holds(RelOp::EqualEqual, a, b),
{
}

} // verus!
