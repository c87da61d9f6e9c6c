//! Dynamically typed values that carry arguments, results and locals.

use vstd::prelude::*;
use crate::handle::Handle;

verus! {

/// A value of the executed program. Floating-point values are carried as
/// their IEEE-754 bit patterns.
#[derive(Clone, Copy, Debug)]
pub enum TaggedVal {
    I32(i32),
    I64(i64),
    F32(u32),
    F64(u64),
    Handle(Handle),
    Undefined,
}

/// The variant of a `TaggedVal`, as a function signature states it.
#[derive(Clone, Copy, Debug, PartialEq, Eq, Structural)]
pub enum ValType {
    I32,
    I64,
    F32,
    F64,
    Handle,
    Undefined,
}

/// The type of the value `v`.
pub open spec fn type_of(v: TaggedVal) -> ValType {
    match v {
        TaggedVal::I32(_) => ValType::I32,
        TaggedVal::I64(_) => ValType::I64,
        TaggedVal::F32(_) => ValType::F32,
        TaggedVal::F64(_) => ValType::F64,
        TaggedVal::Handle(_) => ValType::Handle,
        TaggedVal::Undefined => ValType::Undefined,
    }
}

impl Default for TaggedVal {
    fn default() -> (r: TaggedVal)
        ensures
            r == TaggedVal::Undefined,
    {
        TaggedVal::Undefined
    }
}

impl From<TaggedVal> for ValType {
    fn from(v: TaggedVal) -> (r: ValType)
        ensures
            r == type_of(v),
    {
        match v {
            TaggedVal::I32(_) => ValType::I32,
            TaggedVal::I64(_) => ValType::I64,
            TaggedVal::F32(_) => ValType::F32,
            TaggedVal::F64(_) => ValType::F64,
            TaggedVal::Handle(_) => ValType::Handle,
            TaggedVal::Undefined => ValType::Undefined,
        }
    }
}

impl vstd::std_specs::convert::FromSpecImpl<TaggedVal> for ValType {
    open spec fn obeys_from_spec() -> bool {
        true
    }

    open spec fn from_spec(v: TaggedVal) -> ValType {
        type_of(v)
    }
}

impl TaggedVal {
    /// The payload of a 32-bit integer.
    pub fn try_as_i32(&self) -> (r: Option<i32>)
        ensures
            r == match *self {
                TaggedVal::I32(x) => Some(x),
                _ => None,
            },
    {
        match self {
            TaggedVal::I32(x) => Some(*x),
            _ => None,
        }
    }

    /// The payload of a 64-bit integer.
    pub fn try_as_i64(&self) -> (r: Option<i64>)
        ensures
            r == match *self {
                TaggedVal::I64(x) => Some(x),
                _ => None,
            },
    {
        match self {
            TaggedVal::I64(x) => Some(*x),
            _ => None,
        }
    }

    /// The bit pattern of a 32-bit float.
    pub fn try_as_f32(&self) -> (r: Option<u32>)
        ensures
            r == match *self {
                TaggedVal::F32(x) => Some(x),
                _ => None,
            },
    {
        match self {
            TaggedVal::F32(x) => Some(*x),
            _ => None,
        }
    }

    /// The bit pattern of a 64-bit float.
    pub fn try_as_f64(&self) -> (r: Option<u64>)
        ensures
            r == match *self {
                TaggedVal::F64(x) => Some(x),
                _ => None,
            },
    {
        match self {
            TaggedVal::F64(x) => Some(*x),
            _ => None,
        }
    }

    /// The payload of a handle.
    pub fn try_as_handle(&self) -> (r: Option<Handle>)
        ensures
            r == match *self {
                TaggedVal::Handle(h) => Some(h),
                _ => None,
            },
    {
        match self {
            TaggedVal::Handle(h) => Some(*h),
            _ => None,
        }
    }
}

} // verus!
