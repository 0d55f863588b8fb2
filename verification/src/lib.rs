//! The Najm kernel's logic: the decisions a kernel makes, apart from the
//! instructions, ports and registers that carry them out.
//!
//! Memory is a sequence of bytes, hardware answers are arguments, and what
//! has to be done to the machine is a value to be returned. Each function
//! states what it computes, and each module ends with the laws that hold of
//! its functions together.
pub mod abi;
pub mod arch;
pub mod boot;
pub mod bytes;
pub mod drivers;
pub mod fs;
pub mod graphics;
pub mod image;
pub mod ipc;
pub mod loader;
pub mod mirage;
pub mod mm;
pub mod process;
pub mod realm;
pub mod sched;
pub mod security;
pub mod selftest;
pub mod settings;
pub mod store;
pub mod syscall;
pub mod text;
