//! Register classes (flat slots) and the widening rules between them.
use vstd::prelude::*;

verus! {

/// Restricts the flat-layout traits to this crate's slot containers.
pub trait Sealed {}

impl Sealed for Vec<FlatType> {}

impl Sealed for Vec<FlatValue> {}

/// One of the four register classes a flattened value can occupy.
#[derive(Clone, Copy, Debug, PartialEq, Eq, Structural)]
pub enum FlatType {
    I32,
    I64,
    F32,
    F64,
}

/// A value held in one register-class slot.
///
/// Floating-point slots carry their IEEE-754 bit patterns, so every conversion between
/// classes is a reinterpretation of bits.
#[derive(Clone, Copy, Debug, PartialEq, Eq, Structural)]
pub enum FlatValue {
    I32(u32),
    I64(u64),
    F32(u32),
    F64(u64),
}

impl FlatValue {
    pub open spec fn flat_type(self) -> FlatType {
        match self {
            FlatValue::I32(_) => FlatType::I32,
            FlatValue::I64(_) => FlatType::I64,
            FlatValue::F32(_) => FlatType::F32,
            FlatValue::F64(_) => FlatType::F64,
        }
    }

    /// The slot's bits, zero-extended to 64 bits.
    pub open spec fn bits(self) -> u64 {
        match self {
            FlatValue::I32(b) => b as u64,
            FlatValue::I64(b) => b,
            FlatValue::F32(b) => b as u64,
            FlatValue::F64(b) => b,
        }
    }

    /// Returns the slot's bits, zero-extended to 64 bits.
    pub fn to_bits(&self) -> (r: u64)
        ensures
            r == self.bits(),
    {
        match self {
            FlatValue::I32(b) => *b as u64,
            FlatValue::I64(b) => *b,
            FlatValue::F32(b) => *b as u64,
            FlatValue::F64(b) => *b,
        }
    }

    /// Returns the register class of this slot.
    pub fn kind(&self) -> (r: FlatType)
        ensures
            r == self.flat_type(),
    {
        match self {
            FlatValue::I32(_) => FlatType::I32,
            FlatValue::I64(_) => FlatType::I64,
            FlatValue::F32(_) => FlatType::F32,
            FlatValue::F64(_) => FlatType::F64,
        }
    }
}

pub open spec fn is_wide(t: FlatType) -> bool {
    t == FlatType::I64 || t == FlatType::F64
}

/// The class that can carry values of both `a` and `b`.
pub open spec fn join_spec(a: FlatType, b: FlatType) -> FlatType {
    if a == b {
        a
    } else if !is_wide(a) && !is_wide(b) {
        FlatType::I32
    } else {
        FlatType::I64
    }
}

/// The zero value of a register class.
pub open spec fn neutral_spec(t: FlatType) -> FlatValue {
    match t {
        FlatType::I32 => FlatValue::I32(0),
        FlatType::I64 => FlatValue::I64(0),
        FlatType::F32 => FlatValue::F32(0),
        FlatType::F64 => FlatValue::F64(0),
    }
}

/// `v` reinterpreted in class `t`: narrowing keeps the low bits, widening zero-extends.
pub open spec fn convert_spec(v: FlatValue, t: FlatType) -> FlatValue {
    match t {
        FlatType::I32 => FlatValue::I32(v.bits() as u32),
        FlatType::I64 => FlatValue::I64(v.bits()),
        FlatType::F32 => FlatValue::F32(v.bits() as u32),
        FlatType::F64 => FlatValue::F64(v.bits()),
    }
}

/// Joins two register classes (the widening table of variant overlays).
pub fn join(a: FlatType, b: FlatType) -> (r: FlatType)
    ensures
        r == join_spec(a, b),
{
    if a == b {
        a
    } else {
        let a_wide = a == FlatType::I64 || a == FlatType::F64;
        let b_wide = b == FlatType::I64 || b == FlatType::F64;
        if !a_wide && !b_wide {
            FlatType::I32
        } else {
            FlatType::I64
        }
    }
}

/// The zero value of a register class.
pub fn neutral(t: FlatType) -> (r: FlatValue)
    ensures
        r == neutral_spec(t),
{
    match t {
        FlatType::I32 => FlatValue::I32(0),
        FlatType::I64 => FlatValue::I64(0),
        FlatType::F32 => FlatValue::F32(0),
        FlatType::F64 => FlatValue::F64(0),
    }
}

/// Reinterprets a slot in another register class.
pub fn convert(v: FlatValue, t: FlatType) -> (r: FlatValue)
    ensures
        r == convert_spec(v, t),
        r.flat_type() == t,
{
    let bits: u64 = match v {
        FlatValue::I32(b) => b as u64,
        FlatValue::I64(b) => b,
        FlatValue::F32(b) => b as u64,
        FlatValue::F64(b) => b,
    };
    match t {
        FlatType::I32 => FlatValue::I32(bits as u32),
        FlatType::I64 => FlatValue::I64(bits),
        FlatType::F32 => FlatValue::F32(bits as u32),
        FlatType::F64 => FlatValue::F64(bits),
    }
}

} // verus!
