//! The boot images of a microVM launcher: packing a vmlinux and an initrd into the slots that the
//! launcher embeds, patching them there, and loading an initrd into guest memory; and what the
//! launcher decides about huge pages and about the vsock connection of its terminal.

pub mod bytes;
pub mod elf;
pub mod event_loop;
pub mod field_laws;
pub mod guest_memory;
pub mod huge_pages;
pub mod image_laws;
pub mod initrd;
pub mod initrd_laws;
pub mod kernel_laws;
pub mod layout_laws;
pub mod load_laws;
pub mod lz4_block;
pub mod lz4_pack;
pub mod object_file;
pub mod pack_laws;
pub mod slot;
pub mod terminal_vsock;
pub mod text;
pub mod vmlinux_pack;
