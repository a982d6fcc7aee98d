//! Errors surfaced by marshalling and by the runtime capabilities.
use vstd::prelude::*;
use vstd::string::StringExecFns;

verus! {

/// A decoded discriminant or structural value matches no known shape.
#[derive(Clone, Copy, Debug, PartialEq, Eq, Structural)]
pub struct InvalidLayoutError;

/// Every recoverable failure of the engine.
#[derive(Debug, PartialEq, Eq)]
pub enum RuntimeError {
    /// The named function is not among the instance's exports.
    FunctionNotFound(String),
    /// The named export is not a function.
    NotAFunction(String),
    /// The instance exports no memory.
    MissingMemory,
    /// The memory export is not a linear memory.
    NotMemory,
    /// The requested allocation does not fit the guest's pointer width.
    AllocationTooLarge,
    /// The guest's allocator did not return a usable address.
    AllocationFailed,
    /// The allocation was already released.
    AlreadyDeallocated,
    /// The allocation's address cannot be handed to the guest's deallocator.
    DeallocateInvalidAddress,
    /// Out-of-line bytes of a string are not UTF-8.
    InvalidString,
    /// A pointer or length does not fit the target integer width.
    InvalidNumber,
    /// A decoded value matches no known shape.
    InvalidLayout,
    /// A read or write reaches past the end of linear memory.
    OutOfBounds,
}

impl RuntimeError {
    /// Converts a layout error into the runtime's error type.
    pub fn from_layout_error(_error: InvalidLayoutError) -> (r: RuntimeError)
        ensures
            r == RuntimeError::InvalidLayout,
    {
        RuntimeError::InvalidLayout
    }

    /// Returns a human-readable description of the error.
    pub fn message(&self) -> (r: String) {
        match self {
            RuntimeError::FunctionNotFound(name) => "function `".to_string().concat(
                name.as_str(),
            ).concat("` could not be found in the module's exports"),
            RuntimeError::NotAFunction(name) => "export `".to_string().concat(name.as_str()).concat(
                "` is not a function",
            ),
            RuntimeError::MissingMemory => "missing `memory` export".to_string(),
            RuntimeError::NotMemory => "`memory` export is not a linear memory".to_string(),
            RuntimeError::AllocationTooLarge => "requested allocation size is too large".to_string(),
            RuntimeError::AllocationFailed => "memory allocation failed".to_string(),
            RuntimeError::AlreadyDeallocated => "address already deallocated".to_string(),
            RuntimeError::DeallocateInvalidAddress => "invalid address to deallocate".to_string(),
            RuntimeError::InvalidString => "invalid UTF-8 string".to_string(),
            RuntimeError::InvalidNumber => "number out of range".to_string(),
            RuntimeError::InvalidLayout => "unexpected layout in memory".to_string(),
            RuntimeError::OutOfBounds => "access outside linear memory".to_string(),
        }
    }
}

} // verus!
