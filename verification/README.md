# joos_fire

The boot images of a microVM launcher, as a library that is verified with Verus.

A launcher embeds a vmlinux, an initrd and a configuration in slots of its own executable. The
library packs images for the slots, patches them there, loads an initrd into guest memory, and makes
the launcher's decisions about huge pages and about the vsock connection of its terminal.

- `bytes`, `text`: little-endian integers and the text of messages.
- `elf`, `vmlinux_pack`, `pack_laws`: packing a vmlinux down to what its loader reads.
- `lz4_pack`, `kernel_laws`: the lz4 formats of a vmlinux and of an initrd.
- `guest_memory`, `lz4_block`, `initrd`, `initrd_laws`: loading an initrd, raw or in the lz4 format.
- `object_file`, `slot`: finding and patching the slots of a launcher.
- `huge_pages`, `event_loop`, `terminal_vsock`: what the launcher decides while it runs.

What is believed without proof stands in `guest_memory`, `lz4_block`, `object_file` and
`terminal_vsock`: the contracts of the calls into `vm-memory`, `lz4`, `object` and `vmm-sys-util`.

`app/` holds the patch program, and the parts of the launcher that do I/O, over the interface of a
hypervisor.
