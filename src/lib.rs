//! A capability-safe segmented memory for programs compiled from a
//! stack-based bytecode: memory lives in independently allocated and freed
//! segments, addressed only through handles, with a tag on every 8-byte word
//! recording whether it holds a handle or plain data.

pub mod codec;
pub mod dispatch;
pub mod guest;
pub mod handle;
pub mod host;
pub mod runtime;
pub mod segment;
pub mod tags;
pub mod value;

pub use dispatch::{DispatchTable, FuncType};
pub use handle::Handle;
pub use runtime::WasmModule;
pub use segment::Segment;
pub use tags::{Tag, TagStrategy, Tags};
pub use value::{TaggedVal, ValType};
