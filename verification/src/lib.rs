//! Verified core of a family of small RISC-V teaching kernels: the tangram
//! framebuffer renderer, the bump allocator arithmetic, deadlock detection for
//! semaphores and mutexes, the hard-link index of the file system, and the
//! pure pieces of the system-call layer.
use vstd::prelude::*;

pub mod memory;
pub mod claim;
pub mod rows;
pub mod deadlock;
pub mod canvas;
pub mod shapes;
pub mod lines;
pub mod tangram;
pub mod fs_index;
pub mod syscall;
pub mod console;
pub mod sched;
pub mod elf;
pub mod elf_layout;
pub mod storage;
pub mod kspace;

verus! {

/// Name under which the kernel crate is published.
pub const CRATE_NAME: &'static str = "cg-tg-rcore-tutorial-ch6";

/// Published version.
pub const VERSION: &'static str = "0.0.0";

/// Repository tag of the release.
pub const RELEASE_TAG: &'static str = "v0.0.0";

/// Keywords declared for the published crate.
pub const KEYWORDS: [&'static str; 5] = ["ai", "ai4ose", "kernel", "learning", "os"];

} // verus!
