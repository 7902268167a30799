//! Virtual-memory management core of a freestanding kernel.
//!
//! The crate models the x86-64 four-level page-table hierarchy and provides
//! the three primitives a kernel heap bootstrapper needs:
//!
//! * an address translator that walks the hierarchy to resolve a virtual
//!   address to a physical one,
//! * a physical-frame allocator fed from the boot-time memory map, and
//! * a page-table mapper that installs new virtual-to-physical mappings,
//!   creating intermediate tables on demand.
//!
//! Page tables are held as plain data owned by the mapper; the thin layer
//! that reads the hardware control register, touches memory through the
//! physical-memory offset and invalidates the translation cache lives
//! outside this crate. A small companion module models the text-mode
//! display writer the kernel prints through.

pub mod addr;
pub mod frame_alloc;
pub mod paging;
pub mod vga;
