//! The vsock backend of the terminal: a backend that manages exactly one connection, which the guest
//! makes to a fixed host port. What it decides stands here; the connection itself, and the file
//! descriptors, are the caller's.

use vmm_sys_util::epoll::EventSet;
use vstd::prelude::*;

verus! {

/// The operation of a packet that asks for a connection.
pub const VSOCK_OP_REQUEST: u16 = 1;

/// What the backend reads of the header of a packet from the guest.
#[derive(Clone, Copy, Debug, PartialEq, Eq, Structural)]
pub struct PacketHeader {
    pub op: u16,
    pub src_cid: u64,
    pub src_port: u32,
    pub dst_port: u32,
    pub buf_alloc: u32,
}

/// A connection that the guest has asked for.
#[derive(Clone, Copy, Debug, PartialEq, Eq, Structural)]
pub struct PeerConnection {
    pub local_cid: u64,
    pub peer_cid: u64,
    pub local_port: u32,
    pub peer_port: u32,
    pub peer_buf_alloc: u32,
}

/// What is to be done with a packet from the guest.
#[derive(Clone, Copy, Debug, PartialEq, Eq, Structural)]
pub enum SendAction {
    /// Make this connection, over a duplicate of the source descriptor, and hand it the packet.
    Accept(PeerConnection),
    /// Hand the packet to the connection.
    Forward,
    /// Drop the packet.
    Drop,
}

/// Why there is no packet for the guest.
#[derive(Clone, Copy, Debug, PartialEq, Eq, Structural)]
pub enum VsockError {
    NoData,
}

/// `EventSet::empty` of `vmm-sys-util`, as bits: no event is in it.
#[verifier::external_body]
fn no_events() -> (bits: u32)
    ensures
        bits == 0,
{
    EventSet::empty().bits()
}

/// A backend that manages exactly one guest-initiated connection to a fixed host port.
#[derive(Debug)]
pub struct TerminalVsockBackend {
    idle_fd: i32,
    source_fd: i32,
    local_cid: u64,
    listen_port: u32,
    conn: Option<PeerConnection>,
}

/// The connection that the packet `hdr` asks for at `listen_port`, if it asks for one.
pub open spec fn requested(local_cid: u64, listen_port: u32, hdr: PacketHeader) -> Option<
    PeerConnection,
> {
    if hdr.op == 1 && hdr.dst_port == listen_port {
        Some(
            PeerConnection {
                local_cid,
                peer_cid: hdr.src_cid,
                local_port: hdr.dst_port,
                peer_port: hdr.src_port,
                peer_buf_alloc: hdr.buf_alloc,
            },
        )
    } else {
        None
    }
}

/// The connection after the packet `hdr`, if it was `conn` before.
pub open spec fn after_packet(
    local_cid: u64,
    listen_port: u32,
    conn: Option<PeerConnection>,
    hdr: PacketHeader,
) -> Option<PeerConnection> {
    match conn {
        Some(c) => Some(c),
        None => requested(local_cid, listen_port, hdr),
    }
}

/// The connection after the packets `hdrs`, if there was none before.
pub open spec fn after_packets(local_cid: u64, listen_port: u32, hdrs: Seq<PacketHeader>) -> Option<
    PeerConnection,
>
    decreases hdrs.len(),
{
    if hdrs.len() == 0 {
        None
    } else {
        after_packet(
            local_cid,
            listen_port,
            after_packets(local_cid, listen_port, hdrs.drop_last()),
            hdrs.last(),
        )
    }
}

/// The descriptor that stands for a backend with the connection `conn`, whose descriptor is then
/// `conn_fd`; before there is a connection it is `idle_fd`.
pub open spec fn raw_fd(conn: Option<PeerConnection>, idle_fd: i32, conn_fd: i32) -> i32 {
    if conn is Some {
        conn_fd
    } else {
        idle_fd
    }
}

impl TerminalVsockBackend {
    /// The idle descriptor is not the source descriptor, which others may have registered.
    #[verifier::type_invariant]
    spec fn well_formed(&self) -> bool {
        self.idle_fd != self.source_fd
    }

    /// The descriptor that stands for the backend before there is a connection.
    pub closed spec fn idle_fd_spec(&self) -> i32 {
        self.idle_fd
    }

    /// The descriptor that a connection gets a duplicate of.
    pub closed spec fn source_fd_spec(&self) -> i32 {
        self.source_fd
    }

    /// The context identifier of the host.
    pub closed spec fn local_cid_spec(&self) -> u64 {
        self.local_cid
    }

    /// The host port that the guest connects to.
    pub closed spec fn listen_port_spec(&self) -> u32 {
        self.listen_port
    }

    /// The connection, once there is one.
    pub closed spec fn conn_spec(&self) -> Option<PeerConnection> {
        self.conn
    }

    /// A backend without a connection, that listens on `listen_port`. `idle_fd` is a duplicate of
    /// `fd`, which is not consumed: a fresh duplicate is made once a guest connects.
    pub fn new_listening(idle_fd: i32, fd: i32, local_cid: u64, listen_port: u32) -> (res: Self)
        requires
            idle_fd != fd,
        ensures
            res.idle_fd_spec() == idle_fd,
            res.source_fd_spec() == fd,
            res.local_cid_spec() == local_cid,
            res.listen_port_spec() == listen_port,
            res.conn_spec() is None,
    {
        TerminalVsockBackend { idle_fd, source_fd: fd, local_cid, listen_port, conn: None }
    }

    /// The descriptor that a connection gets a duplicate of.
    pub fn source_fd(&self) -> (fd: i32)
        ensures
            fd == self.source_fd_spec(),
    {
        self.source_fd
    }

    /// Whether the connection is asked for a packet for the guest.
    pub fn recv_pkt(&self) -> (res: Result<(), VsockError>)
        ensures
            res == (if self.conn_spec() is Some {
                Ok(())
            } else {
                Err(VsockError::NoData)
            }),
    {
        match &self.conn {
            Some(_) => Ok(()),
            None => Err(VsockError::NoData),
        }
    }

    /// Takes a packet from the guest.
    pub fn send_pkt(&mut self, hdr: &PacketHeader) -> (action: SendAction)
        ensures
            final(self).conn_spec() == after_packet(
                old(self).local_cid_spec(),
                old(self).listen_port_spec(),
                old(self).conn_spec(),
                *hdr,
            ),
            final(self).idle_fd_spec() == old(self).idle_fd_spec(),
            final(self).source_fd_spec() == old(self).source_fd_spec(),
            final(self).local_cid_spec() == old(self).local_cid_spec(),
            final(self).listen_port_spec() == old(self).listen_port_spec(),
            old(self).conn_spec() is None && hdr.op == 1 && hdr.dst_port == old(
                self,
            ).listen_port_spec() ==> {
                &&& action is Accept
                &&& action->Accept_0.local_cid == old(self).local_cid_spec()
                &&& action->Accept_0.peer_cid == hdr.src_cid
                &&& action->Accept_0.local_port == hdr.dst_port
                &&& action->Accept_0.peer_port == hdr.src_port
                &&& action->Accept_0.peer_buf_alloc == hdr.buf_alloc
            },
            action == match (old(self).conn_spec(), final(self).conn_spec()) {
                (Some(_), _) => SendAction::Forward,
                (None, Some(c)) => SendAction::Accept(c),
                (None, None) => SendAction::Drop,
            },
    {
        proof {
            use_type_invariant(&*self);
        }
        if self.conn.is_none() && hdr.op == VSOCK_OP_REQUEST && hdr.dst_port == self.listen_port {
            let c = PeerConnection {
                local_cid: self.local_cid,
                peer_cid: hdr.src_cid,
                local_port: hdr.dst_port,
                peer_port: hdr.src_port,
                peer_buf_alloc: hdr.buf_alloc,
            };
            self.conn = Some(c);
            return SendAction::Accept(c);
        }
        match &self.conn {
            Some(_) => SendAction::Forward,
            None => SendAction::Drop,
        }
    }

    /// Whether there is a packet for the guest; `conn_pending` is what a connection says of itself.
    pub fn has_pending_rx(&self, conn_pending: bool) -> (res: bool)
        ensures
            res == (self.conn_spec() is Some && conn_pending),
    {
        self.conn.is_some() && conn_pending
    }

    /// The descriptor that stands for the backend; `conn_fd` is that of a connection. Before there is
    /// one it is not the source descriptor.
    pub fn as_raw_fd(&self, conn_fd: i32) -> (fd: i32)
        ensures
            fd == raw_fd(self.conn_spec(), self.idle_fd_spec(), conn_fd),
            self.conn_spec() is None ==> fd != self.source_fd_spec(),
    {
        proof {
            use_type_invariant(self);
        }
        match &self.conn {
            Some(_) => conn_fd,
            None => self.idle_fd,
        }
    }

    /// The events that the backend waits for, as bits; `conn_evset` is those of a connection.
    /// Before there is one the backend waits for a packet from the guest, and for no event.
    pub fn get_polled_evset(&self, conn_evset: u32) -> (evset: u32)
        ensures
            evset == (if self.conn_spec() is Some {
                conn_evset
            } else {
                0
            }),
    {
        match &self.conn {
            Some(_) => conn_evset,
            None => no_events(),
        }
    }

    /// Whether the connection is told of an event.
    pub fn notify(&self) -> (forward: bool)
        ensures
            forward == self.conn_spec() is Some,
    {
        self.conn.is_some()
    }
}

/// There is at most one connection, and it never changes: it is the one that the first packet asks
/// for that asks for one at the port.
pub proof fn law_first_request_connects(
    local_cid: u64,
    listen_port: u32,
    hdrs: Seq<PacketHeader>,
    i: int,
)
    requires
        0 <= i < hdrs.len(),
        requested(local_cid, listen_port, hdrs[i]) is Some,
        forall|k: int| 0 <= k < i ==> requested(local_cid, listen_port, #[trigger] hdrs[k]) is None,
    ensures
        after_packets(local_cid, listen_port, hdrs) == requested(local_cid, listen_port, hdrs[i]),
    decreases hdrs.len(),
{
    if i < hdrs.len() - 1 {
        law_first_request_connects(local_cid, listen_port, hdrs.drop_last(), i);
    } else {
        law_no_request_no_connection(local_cid, listen_port, hdrs.drop_last());
    }
}

/// Until a packet asks for a connection at the port, the descriptor that stands for the backend is the
/// idle one, whatever packets come.
pub proof fn law_idle_until_requested(
    local_cid: u64,
    listen_port: u32,
    hdrs: Seq<PacketHeader>,
    idle_fd: i32,
    conn_fd: i32,
)
    requires
        forall|k: int|
            0 <= k < hdrs.len() ==> requested(local_cid, listen_port, #[trigger] hdrs[k]) is None,
    ensures
        raw_fd(after_packets(local_cid, listen_port, hdrs), idle_fd, conn_fd) == idle_fd,
{
    law_no_request_no_connection(local_cid, listen_port, hdrs);
}

/// There is no connection as long as no packet asks for one at the port.
pub proof fn law_no_request_no_connection(
    local_cid: u64,
    listen_port: u32,
    hdrs: Seq<PacketHeader>,
)
    requires
        forall|k: int|
            0 <= k < hdrs.len() ==> requested(local_cid, listen_port, #[trigger] hdrs[k]) is None,
    ensures
        after_packets(local_cid, listen_port, hdrs) is None,
    decreases hdrs.len(),
{
    if hdrs.len() > 0 {
        law_no_request_no_connection(local_cid, listen_port, hdrs.drop_last());
        assert(requested(local_cid, listen_port, hdrs[hdrs.len() - 1]) is None);
    }
}

/// A packet asks for a connection exactly if it is a request to the port, and what it asks for is, field
/// by field, a connection between the host and where the packet came from.
pub proof fn law_connection_is_what_was_requested(
    local_cid: u64,
    listen_port: u32,
    hdr: PacketHeader,
)
    ensures
        requested(local_cid, listen_port, hdr) is Some <==> hdr.op == 1 && hdr.dst_port
            == listen_port,
        requested(local_cid, listen_port, hdr) matches Some(conn) ==> {
            &&& conn.local_cid == local_cid
            &&& conn.peer_cid == hdr.src_cid
            &&& conn.local_port == hdr.dst_port
            &&& conn.peer_port == hdr.src_port
            &&& conn.peer_buf_alloc == hdr.buf_alloc
        },
{
}

/// Requests that differ in where they come from, or in the room that the guest has, are given different
/// connections.
pub proof fn law_different_requests_differ(
    local_cid: u64,
    listen_port: u32,
    a: PacketHeader,
    b: PacketHeader,
)
    requires
        requested(local_cid, listen_port, a) is Some,
        requested(local_cid, listen_port, b) is Some,
        a.src_cid != b.src_cid || a.src_port != b.src_port || a.buf_alloc != b.buf_alloc,
    ensures
        requested(local_cid, listen_port, a) != requested(local_cid, listen_port, b),
{
}

/// A connection stays as it is, whatever packet comes; without one, a packet makes the connection that
/// it asks for, or none.
pub proof fn law_one_packet(
    local_cid: u64,
    listen_port: u32,
    conn: Option<PeerConnection>,
    hdr: PacketHeader,
)
    ensures
        conn is Some ==> after_packet(local_cid, listen_port, conn, hdr) == conn,
        conn is None && hdr.op == 1 && hdr.dst_port == listen_port ==> after_packet(
            local_cid,
            listen_port,
            conn,
            hdr,
        ) == Some(
            (PeerConnection {
                local_cid,
                peer_cid: hdr.src_cid,
                local_port: hdr.dst_port,
                peer_port: hdr.src_port,
                peer_buf_alloc: hdr.buf_alloc,
            }),
        ),
        conn is None && (hdr.op != 1 || hdr.dst_port != listen_port) ==> after_packet(
            local_cid,
            listen_port,
            conn,
            hdr,
        ) is None,
{
}

/// The descriptor that stands for the backend is the connection's exactly once there is one.
pub proof fn law_descriptor_of_the_backend(conn: PeerConnection, idle_fd: i32, conn_fd: i32)
    ensures
        raw_fd(Some(conn), idle_fd, conn_fd) == conn_fd,
        raw_fd(None, idle_fd, conn_fd) == idle_fd,
{
}

} // verus!
