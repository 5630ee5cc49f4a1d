//! Slots of the launcher, huge pages and the terminal backend.

use joos_fire::event_loop::{after_events, LoopStep};
use joos_fire::huge_pages::{choose_huge_pages, free_hugepages_2m};
use joos_fire::slot::{
    check_fits, check_launcher, find_slot, parse_usize, patched_message, place_slot, slot_bytes,
    slot_capacity, slot_data, Slot,
};
use joos_fire::terminal_vsock::{
    PacketHeader, PeerConnection, SendAction, TerminalVsockBackend, VsockError, VSOCK_OP_REQUEST,
};

/// An object file with three sections behind the null section. The second, when `bss` is set, has
/// no file contents.
fn launcher(bss: bool) -> Vec<u8> {
    let names: &[u8] = b"\0.joos_vmlinux\0.joos_initrd\0.shstrtab\0";
    let mut out: Vec<u8> = vec![0; 64];
    out[..8].copy_from_slice(&[0x7f, 0x45, 0x4c, 0x46, 2, 1, 1, 0]);
    out[16..18].copy_from_slice(&2u16.to_le_bytes());
    out[18..20].copy_from_slice(&62u16.to_le_bytes());
    out[20..24].copy_from_slice(&1u32.to_le_bytes());
    out[40..48].copy_from_slice(&0x200u64.to_le_bytes());
    out[52..54].copy_from_slice(&64u16.to_le_bytes());
    out[58..60].copy_from_slice(&64u16.to_le_bytes());
    out[60..62].copy_from_slice(&4u16.to_le_bytes());
    out[62..64].copy_from_slice(&3u16.to_le_bytes());
    out.resize(0x180, 0);
    out.extend_from_slice(names);
    out.resize(0x240, 0);
    let initrd_type: u32 = if bss { 8 } else { 1 };
    let sections: [(u32, u32, u64, u64); 3] = [
        (1, 1, 0x80, 40),
        (15, initrd_type, 0xc0, 24),
        (28, 3, 0x180, names.len() as u64),
    ];
    for (name, sh_type, offset, size) in sections {
        let mut header: Vec<u8> = vec![0; 64];
        header[0..4].copy_from_slice(&name.to_le_bytes());
        header[4..8].copy_from_slice(&sh_type.to_le_bytes());
        header[24..32].copy_from_slice(&offset.to_le_bytes());
        header[32..40].copy_from_slice(&size.to_le_bytes());
        out.extend_from_slice(&header);
    }
    out
}

#[test]
fn launcher_is_an_object_file() {
    assert!(check_launcher("fire2", &launcher(false)).is_ok());
    assert_eq!(
        check_launcher("fire2", &[0; 32]).unwrap_err(),
        "cannot parse fire2 as an object file: Unknown file magic"
    );
    assert_eq!(
        check_launcher("x", &[]).unwrap_err(),
        "cannot parse x as an object file: Could not read file magic"
    );
}

#[test]
fn slots_are_found_by_section() {
    let file = launcher(false);
    assert_eq!(find_slot("fire2", &file, Slot::Vmlinux).unwrap(), (0x80, 40));
    assert_eq!(find_slot("fire2", &file, Slot::Initrd).unwrap(), (0xc0, 24));
    assert_eq!(
        find_slot("fire2", &launcher(true), Slot::Initrd).unwrap_err(),
        "fire2: .joos_initrd has no file contents (bss?)"
    );
    let mut renamed = file;
    renamed[0x182] = 0x78;
    assert_eq!(
        find_slot("fire2", &renamed, Slot::Vmlinux).unwrap_err(),
        "fire2: no .joos_vmlinux section - was this built with joos-fire's slot-based embedding?"
    );
}

#[test]
fn place_slot_takes_what_was_found() {
    assert_eq!(place_slot("f", Slot::Initrd, Some(Some((7, 9)))).unwrap(), (7, 9));
    assert_eq!(
        place_slot("f", Slot::Vmlinux, Some(None)).unwrap_err(),
        "f: .joos_vmlinux has no file contents (bss?)"
    );
    assert_eq!(
        place_slot("f", Slot::Initrd, None).unwrap_err(),
        "f: no .joos_initrd section - was this built with joos-fire's slot-based embedding?"
    );
}

#[test]
fn patched_slot_reads_back() {
    let mut file = launcher(false);
    let contents: Vec<u8> = vec![3, 1, 4, 1, 5];
    let (offset, size) = find_slot("fire2", &file, Slot::Vmlinux).unwrap();
    let slot = slot_bytes(contents.len() as u64, &contents, size as usize);
    assert_eq!(slot.len(), 40);
    assert_eq!(&slot[..13], &[5, 0, 0, 0, 0, 0, 0, 0, 3, 1, 4, 1, 5]);
    assert_eq!(&slot[13..], &[0u8; 27]);
    let at: usize = offset as usize;
    file[at..at + slot.len()].copy_from_slice(&slot);
    assert_eq!(slot_data(&file[at..at + 40]), &contents[..]);
    assert_eq!(slot_data(&[0; 8]).len(), 0);
}

#[test]
fn slot_of_a_file_that_grew() {
    // The slot holds as many bytes as it has room for.
    assert_eq!(slot_bytes(1, &[1, 2, 3], 10), vec![1, 0, 0, 0, 0, 0, 0, 0, 1, 2]);
    assert_eq!(slot_bytes(1, &[1], 4), vec![1, 0, 0, 0]);
}

#[test]
fn contents_that_fit() {
    assert_eq!(slot_capacity(40), 32);
    assert_eq!(slot_capacity(8), 0);
    assert!(check_fits("vmlinux", 32, Slot::Vmlinux, 32).is_ok());
    assert_eq!(
        check_fits("out/vmlinux", 33, Slot::Vmlinux, 32).unwrap_err(),
        "out/vmlinux: 33 bytes exceeds the vmlinux slot's capacity of 32 bytes - rebuild with \
         `make vmlinux=... build/fire2` (bigger JOOS_VMLINUX_MAX) instead"
    );
    assert_eq!(
        check_fits("i", u64::MAX, Slot::Initrd, 0).unwrap_err(),
        "i: 18446744073709551615 bytes exceeds the initrd slot's capacity of 0 bytes - rebuild \
         with `make initrd=... build/fire2` (bigger JOOS_INITRD_MAX) instead"
    );
}

#[test]
fn what_is_said_of_a_patch() {
    assert_eq!(
        patched_message(Slot::Initrd, 100, 12_582_912),
        "initrd: patched 100 bytes into .joos_initrd (capacity 12582912)"
    );
    assert_eq!(
        patched_message(Slot::Vmlinux, 0, 1),
        "vmlinux: patched 0 bytes into .joos_vmlinux (capacity 1)"
    );
}

#[test]
fn capacities_are_parsed() {
    assert_eq!(parse_usize("33554432"), 33_554_432);
    assert_eq!(parse_usize("007"), 7);
    assert_eq!(parse_usize(""), 0);
    assert_eq!(parse_usize("18446744073709551615"), usize::MAX);
}

#[test]
fn decimal_reads_back() {
    for n in [0u64, 9, 10, 4096, 1_000_000_007] {
        let m = patched_message(Slot::Vmlinux, n, 0);
        let digits: &str = &m["vmlinux: patched ".len()..m.len() - " bytes into .joos_vmlinux (capacity 0)".len()];
        assert_eq!(digits, n.to_string());
        assert_eq!(parse_usize(digits) as u64, n);
    }
}

#[test]
fn free_hugepages_counter() {
    assert_eq!(free_hugepages_2m(None), None);
    assert_eq!(free_hugepages_2m(Some("256\n")), Some(256));
    assert_eq!(free_hugepages_2m(Some(" \t+0012\u{3000}\u{a0}")), Some(12));
    assert_eq!(free_hugepages_2m(Some("0")), Some(0));
    assert_eq!(free_hugepages_2m(Some("18446744073709551615")), Some(usize::MAX));
    for bad in ["", "\n", "+", "-1", "1 2", "++1", "12x", "0x10", "18446744073709551616"] {
        assert_eq!(free_hugepages_2m(Some(bad)), None);
        assert_eq!(bad.trim().parse::<usize>().ok(), None);
    }
}

#[test]
fn whitespace_is_trimmed_as_std_does() {
    let mut v: u32 = 0;
    while v < 0x3100 {
        if let Some(c) = char::from_u32(v) {
            let text = format!("{c}42{c}");
            assert_eq!(free_hugepages_2m(Some(&text)), text.trim().parse::<usize>().ok());
        }
        v += 1;
    }
}

#[test]
fn huge_pages_cover_the_guest() {
    assert_eq!(choose_huge_pages(false, 512, Some(256)), (true, None));
    assert_eq!(choose_huge_pages(false, 512, Some(1000)), (true, None));
    assert_eq!(choose_huge_pages(false, 0, Some(0)), (true, None));
    assert_eq!(choose_huge_pages(true, 512, Some(256)), (false, None));
    assert_eq!(choose_huge_pages(true, 513, None), (false, None));
    assert_eq!(choose_huge_pages(false, 512, None), (false, None));
    assert_eq!(
        choose_huge_pages(false, 512, Some(255)),
        (
            false,
            Some(
                "[joos-fire] huge-pages: 255 free 2M hugepages, need 256 to cover the full 512MiB \
                 guest - using 4K pages"
                    .to_string()
            )
        )
    );
    assert_eq!(
        choose_huge_pages(false, 513, Some(1000)),
        (
            false,
            Some(
                "[joos-fire] huge-pages: mem_size_mib (513) isn't a multiple of 2 - using 4K pages"
                    .to_string()
            )
        )
    );
}

#[test]
fn event_loop_ends_with_the_microvm() {
    assert!(matches!(after_events(None), LoopStep::GoOn));
    assert!(matches!(after_events(Some((0, "Ok"))), LoopStep::Stop));
    match after_events(Some((153, "ArgParsing"))) {
        LoopStep::Exit { code, message } => {
            assert_eq!(code, 153);
            assert_eq!(message, "[joos-fire] shutdown with exit code ArgParsing");
        }
        other => panic!("{:?}", other),
    }
}

fn header(op: u16, src_port: u32, dst_port: u32) -> PacketHeader {
    PacketHeader { op, src_cid: 3, src_port, dst_port, buf_alloc: 0x4_0000 }
}

#[test]
fn idle_terminal() {
    let mut backend = TerminalVsockBackend::new_listening(10, 0, 2, 5000);
    assert_eq!(backend.source_fd(), 0);
    assert_eq!(backend.recv_pkt(), Err(VsockError::NoData));
    assert!(!backend.has_pending_rx(true));
    assert_eq!(backend.as_raw_fd(77), 10);
    assert_eq!(backend.get_polled_evset(5), 0);
    assert!(!backend.notify());
    // Neither another operation nor another port connects.
    assert_eq!(backend.send_pkt(&header(5, 1024, 5000)), SendAction::Drop);
    assert_eq!(backend.send_pkt(&header(VSOCK_OP_REQUEST, 1024, 5001)), SendAction::Drop);
    assert_eq!(backend.recv_pkt(), Err(VsockError::NoData));
}

#[test]
fn first_request_connects() {
    let mut backend = TerminalVsockBackend::new_listening(10, 0, 2, 5000);
    assert_eq!(backend.send_pkt(&header(2, 1024, 5000)), SendAction::Drop);
    let conn = PeerConnection {
        local_cid: 2,
        peer_cid: 3,
        local_port: 5000,
        peer_port: 1024,
        peer_buf_alloc: 0x4_0000,
    };
    assert_eq!(backend.send_pkt(&header(1, 1024, 5000)), SendAction::Accept(conn));
    // A second request goes to the connection that there is.
    assert_eq!(backend.send_pkt(&header(1, 1025, 5000)), SendAction::Forward);
    assert_eq!(backend.send_pkt(&header(5, 1024, 9)), SendAction::Forward);
    assert_eq!(backend.recv_pkt(), Ok(()));
    assert!(backend.has_pending_rx(true));
    assert!(!backend.has_pending_rx(false));
    assert_eq!(backend.as_raw_fd(77), 77);
    assert_eq!(backend.get_polled_evset(5), 5);
    assert!(backend.notify());
    assert_eq!(backend.source_fd(), 0);
}
