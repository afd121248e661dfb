//! The early-boot memory-management core of a small x86_64 kernel: a frame
//! allocator over the boot memory map, a four-level page-table walker and mapper,
//! the fault-isolation stack setup, and the VGA text writer's screen model.
pub mod paging;
pub mod memory;
pub mod mapper;
pub mod gdt;
pub mod vga_buffer;
