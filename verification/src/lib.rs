//! A kernel heap library: a first-fit, free-list allocator with in-place
//! region splitting, and a VGA text-mode writer.

pub mod alignment;
pub mod linked_list;
pub mod vga_buffer;
