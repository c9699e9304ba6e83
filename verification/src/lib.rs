//! Freestanding platform services for hosting a guest virtual-machine runtime
//! on a target without an operating system.
//!
//! - [`arena`], [`allocation`], [`memory_mapping`]: one fixed pool of memory,
//!   the heap shim that hands out blocks with a size header, and the
//!   page-granular mapping emulator. Both draw from the same pool.
//! - [`stack_management`]: the lowest stack address the guest may use.
//! - [`strings`], [`basic`], [`order`], [`bsearch`], [`quicksort`]: the part
//!   of the C library that the runtime refers to.
//! - [`arguments`], [`text`], [`buffer`], [`printing`]: `printf`-style
//!   formatting into a line of fixed capacity or into the caller's buffer.
//! - [`runtime`], [`guest`]: the host's decisions around a guest run.
//!
//! Addresses are plain `usize` values and `0` is the null address. Memory
//! that a caller may touch lives inside an [`arena::Arena`]; nothing here
//! reads or writes outside of it. No function panics on an input that its
//! contract admits: a request that cannot be served gives the null address,
//! and output that does not fit is cut.

pub mod allocation;
pub mod arena;
pub mod arguments;
pub mod basic;
pub mod bsearch;
pub mod buffer;
pub mod guest;
pub mod memory_mapping;
pub mod order;
pub mod printing;
pub mod quicksort;
pub mod runtime;
pub mod stack_management;
pub mod strings;
pub mod text;
