//! A server node: the backend that a connection is handed to, the bytes it
//! holds for its connection, and the decisions it takes while the
//! connection is polled.

use vstd::prelude::*;
use bytes::BytesMut;
use crate::Async;
use crate::buf::{bytes_of, bytes_new, bytes_len, bytes_extend, bytes_split_to, bytes_clone};
use crate::err::LBError;

verus! {

/// The socket address of a server node (an IP address and a port).
#[derive(Debug, Clone, Copy, PartialEq, Eq, Structural, Hash)]
pub enum NodeAddr {
    /// An IPv4 address (its four octets, big-endian) and a port.
    V4 { octets: u32, port: u16 },
    /// An IPv6 address (its sixteen octets, big-endian), a port, the flow
    /// information and the scope id.
    V6 { segments: u128, port: u16, flowinfo: u32, scope_id: u32 },
}

/// A message from a server node to the controller.
#[derive(Debug, Clone, Copy, PartialEq, Eq, Structural)]
pub struct NodeMsg {
    /// The node that sends it.
    pub id: NodeAddr,
    /// How many connections the message reports.
    pub count: u8,
}

/// The state of a server node as the controller knows it.
#[derive(Debug, Clone, Copy, PartialEq, Eq, Structural)]
pub struct NodeState {
    /// The node it describes.
    pub id: NodeAddr,
    /// How many connections it holds.
    pub count: u8,
}

/// The bytes of a node's connection, and whether the node has yet to report
/// its first connection to the controller.
pub struct TcpBytes {
    /// The bytes read from, and still to be written to, the connection.
    pub in_out_vec: BytesMut,
    /// True until the first connection has been reported.
    pub first: bool,
}

impl TcpBytes {
    /// Whether this is the first connection and nothing has been read yet.
    pub open spec fn spec_first_connected(&self) -> bool {
        bytes_of(self.in_out_vec).len() == 0 && self.first
    }

    /// No bytes, and the first connection yet to come.
    pub fn default() -> (t: TcpBytes)
        ensures
            bytes_of(t.in_out_vec) == Seq::<u8>::empty(),
            t.first,
    {
        TcpBytes { in_out_vec: bytes_new(), first: true }
    }

    /// True when no byte has been read and the first connection has not
    /// been reported yet.
    pub fn first_connected(&self) -> (b: bool)
        ensures
            b == self.spec_first_connected(),
    {
        bytes_len(&self.in_out_vec) == 0 && self.first
    }

    /// A copy that holds the same bytes and the same flag.
    pub fn duplicate(&self) -> (t: TcpBytes)
        ensures
            bytes_of(t.in_out_vec) == bytes_of(self.in_out_vec),
            t.first == self.first,
    {
        TcpBytes { in_out_vec: bytes_clone(&self.in_out_vec), first: self.first }
    }
}

/// A holder for a connection that may not be there yet.
pub struct StreamHold<S>(pub Option<S>);

impl<S> StreamHold<S> {
    /// Holds no connection.
    pub fn default() -> (h: StreamHold<S>)
        ensures
            h.0 is None,
    {
        StreamHold(None)
    }
}

/// What a node does next, once its read side has been polled.
#[derive(Debug, Clone, Copy, PartialEq, Eq, Structural)]
pub enum NodeStep {
    /// The read is done: write out what the node holds.
    Write,
    /// Nothing read yet: wait to be polled again.
    Wait,
    /// The connection failed or ended: give up on it.
    Fail,
}

/// A server node: its address, the sender by which it reports to the
/// controller (`Tx`), the bytes of its connection and the connection
/// itself (`S`) once one has been handed to it.
pub struct ServerNode<Tx, S> {
    /// Address and sort of id for node.
    pub addr: NodeAddr,
    /// Sender for node to controller.
    pub tx: Tx,
    /// State and storage of the connection's bytes.
    pub stream_bytes: TcpBytes,
    /// The connection, once the controller has handed one over.
    pub tcp_stream: Option<S>,
}

/// The message by which a node reports its first connection.
pub open spec fn connected_msg(addr: NodeAddr) -> NodeMsg {
    NodeMsg { id: addr, count: 1 }
}

/// Whether a poll of the read side reports the first connection: the read
/// completed while the node held no bytes and had not reported yet.
pub open spec fn poll_reports(t: TcpBytes, ready: bool) -> bool {
    ready && t.spec_first_connected()
}

/// How many times a node reports its first connection over a run of polls
/// of its read side, starting with the flag `first`. Each poll is one call
/// of `read_polled`: whether its read completed, and whether the node held
/// no bytes before it (the writes between polls may have emptied it).
pub open spec fn reports_in(first: bool, polls: Seq<(bool, bool)>) -> nat
    decreases polls.len(),
{
    if polls.len() == 0 {
        0
    } else {
        let rep = first && polls[0].0 && polls[0].1;
        (if rep { 1nat } else { 0nat }) + reports_in(first && !rep, polls.drop_first())
    }
}

/// The step that follows a poll of the read side.
pub open spec fn spec_step_after_read(read: Result<Async<Option<()>>, LBError>) -> NodeStep {
    match read {
        Ok(Async::Ready(Some(_))) => NodeStep::Write,
        Ok(Async::Ready(None)) => NodeStep::Fail,
        Ok(Async::NotReady) => NodeStep::Wait,
        Err(_) => NodeStep::Fail,
    }
}

impl<Tx, S> ServerNode<Tx, S> {
    /// A node at `addr` that reports through `tx`, with no connection yet.
    pub fn new(addr: &NodeAddr, tx: Tx) -> (n: ServerNode<Tx, S>)
        ensures
            n.addr == *addr,
            n.tx == tx,
            bytes_of(n.stream_bytes.in_out_vec) == Seq::<u8>::empty(),
            n.stream_bytes.first,
            n.tcp_stream is None,
    {
        ServerNode { addr: *addr, tx, stream_bytes: TcpBytes::default(), tcp_stream: None }
    }

    /// The node that serves the connection `sock`: same address, a clone of
    /// the sender, a copy of the bytes and flag, and the connection.
    pub fn process_conn(&mut self, sock: S) -> (n: ServerNode<Tx, S>)
        where
            Tx: Clone,
        ensures
            *final(self) == *old(self),
            n.addr == old(self).addr,
            cloned(old(self).tx, n.tx),
            bytes_of(n.stream_bytes.in_out_vec) == bytes_of(old(self).stream_bytes.in_out_vec),
            n.stream_bytes.first == old(self).stream_bytes.first,
            n.tcp_stream == Some(sock),
    {
        ServerNode {
            addr: self.addr,
            tcp_stream: Some(sock),
            tx: self.tx.clone(),
            stream_bytes: self.stream_bytes.duplicate(),
        }
    }

    /// What the node does once a read of its connection has been polled:
    /// `read` is the bytes the read gave when it completed, `None` when it
    /// is not ready yet. The bytes read are kept, behind those the node
    /// held. A completed read while the node is on its first connection
    /// (no bytes held, nothing reported yet) yields the message that
    /// reports it to the controller, and the node does not report again.
    pub fn read_polled(&mut self, read: Option<&[u8]>) -> (r: (Async<Option<()>>, Option<NodeMsg>))
        requires
            read matches Some(data) ==> bytes_of(old(self).stream_bytes.in_out_vec).len() + data@.len() <= isize::MAX,
        ensures
            r.0 == (if read is Some { Async::Ready(Some(())) } else { Async::<Option<()>>::NotReady }),
            r.1 == (if poll_reports(old(self).stream_bytes, read is Some) { Some(connected_msg(old(self).addr)) } else { None }),
            final(self).stream_bytes.first == (old(self).stream_bytes.first && !poll_reports(old(self).stream_bytes, read is Some)),
            bytes_of(final(self).stream_bytes.in_out_vec) == (match read {
                Some(data) => bytes_of(old(self).stream_bytes.in_out_vec) + data@,
                None => bytes_of(old(self).stream_bytes.in_out_vec),
            }),
            final(self).addr == old(self).addr,
            final(self).tx == old(self).tx,
            final(self).tcp_stream == old(self).tcp_stream,
            read is None ==> r.1 is None && final(self).stream_bytes.first == old(self).stream_bytes.first,
            !old(self).stream_bytes.first ==> r.1 is None && !final(self).stream_bytes.first,
            r.1 is Some <==> (read is Some && old(self).stream_bytes.first
                && bytes_of(old(self).stream_bytes.in_out_vec).len() == 0),
            r.1 matches Some(m) ==> m == (NodeMsg { id: old(self).addr, count: 1 }) && !final(self).stream_bytes.first,
    {
        let did_conn = self.stream_bytes.first_connected();
        match read {
            Some(data) => {
                bytes_extend(&mut self.stream_bytes.in_out_vec, data);
                let mut msg = None;
                if did_conn {
                    msg = Some(NodeMsg { id: self.addr, count: 1 });
                    self.stream_bytes.first = false;
                }
                (Async::Ready(Some(())), msg)
            },
            None => (Async::NotReady, None),
        }
    }

    /// What the node does after its read side was polled with the outcome
    /// `read`.
    pub fn step_after_read(read: &Result<Async<Option<()>>, LBError>) -> (s: NodeStep)
        ensures
            s == spec_step_after_read(*read),
            read is Err ==> s == NodeStep::Fail,
            read matches Ok(Async::NotReady) ==> s == NodeStep::Wait,
            read matches Ok(Async::Ready(Some(_))) ==> s == NodeStep::Write,
            read matches Ok(Async::Ready(None)) ==> s == NodeStep::Fail,
    {
        match read {
            Ok(Async::Ready(Some(_))) => NodeStep::Write,
            Ok(Async::Ready(None)) => NodeStep::Fail,
            Ok(Async::NotReady) => NodeStep::Wait,
            Err(_) => NodeStep::Fail,
        }
    }

    /// Whether bytes are left to write to the connection.
    pub fn has_pending_write(&self) -> (b: bool)
        ensures
            b == (bytes_of(self.stream_bytes.in_out_vec).len() != 0),
    {
        bytes_len(&self.stream_bytes.in_out_vec) != 0
    }

    /// Drops the first `n` bytes, which the connection has taken.
    pub fn consume_written(&mut self, n: usize)
        requires
            n <= bytes_of(old(self).stream_bytes.in_out_vec).len(),
        ensures
            bytes_of(final(self).stream_bytes.in_out_vec)
                == bytes_of(old(self).stream_bytes.in_out_vec).skip(n as int),
            final(self).stream_bytes.first == old(self).stream_bytes.first,
            final(self).addr == old(self).addr,
            final(self).tx == old(self).tx,
            final(self).tcp_stream == old(self).tcp_stream,
    {
        let _written = bytes_split_to(&mut self.stream_bytes.in_out_vec, n);
    }
}

/// A node reports its first connection at most once, over any run of
/// polls and writes; one that has reported, or that started with its flag
/// cleared, never reports.
pub proof fn law_first_connection_reported_once(first: bool, polls: Seq<(bool, bool)>)
    ensures
        reports_in(first, polls) <= 1,
        !first ==> reports_in(first, polls) == 0,
    decreases polls.len(),
{
    if polls.len() > 0 {
        let rep = first && polls[0].0 && polls[0].1;
        law_first_connection_reported_once(first && !rep, polls.drop_first());
    }
}

/// A node still on its first connection whose first poll completes a read
/// while it holds no bytes reports exactly once over the whole run.
pub proof fn law_first_ready_poll_reports(polls: Seq<(bool, bool)>)
    requires
        polls.len() > 0,
        polls[0] == (true, true),
    ensures
        reports_in(true, polls) == 1,
{
    law_first_connection_reported_once(false, polls.drop_first());
}

/// `process_conn` leaves the node as it was and hands each connection a
/// copy carrying the node's flag, so every connection served by a node
/// that has not reported yet reports its own first connection once: two
/// copies, each first polled with a completed read on no bytes, report once
/// each.
pub proof fn law_each_copy_reports_once(
    node: TcpBytes,
    copy1: TcpBytes,
    copy2: TcpBytes,
    polls1: Seq<(bool, bool)>,
    polls2: Seq<(bool, bool)>,
)
    requires
        node.first,
        copy1.first == node.first,
        copy2.first == node.first,
        polls1.len() > 0 && polls1[0] == (true, true),
        polls2.len() > 0 && polls2[0] == (true, true),
    ensures
        reports_in(copy1.first, polls1) == 1,
        reports_in(copy2.first, polls2) == 1,
{
    law_first_ready_poll_reports(polls1);
    law_first_ready_poll_reports(polls2);
}

/// A poll reports only a completed read: a read that is not ready reports
/// nothing, whatever the node holds; and a node that has already reported
/// (its flag cleared) never reports again, ready or not.
pub proof fn law_only_first_ready_read_reports(t: TcpBytes, ready: bool)
    ensures
        !ready ==> !poll_reports(t, ready),
        !t.first ==> !poll_reports(t, ready),
        poll_reports(t, ready) ==> ready && t.first && bytes_of(t.in_out_vec).len() == 0,
{
}

/// A failed poll of the read side ends the node's task, whatever the error;
/// only a completed read leads to writing, and only a pending one to
/// waiting.
pub proof fn law_read_error_fails(read: Result<Async<Option<()>>, LBError>)
    ensures
        read is Err ==> spec_step_after_read(read) == NodeStep::Fail,
        spec_step_after_read(read) == NodeStep::Write ==> read matches Ok(Async::Ready(Some(_))),
        spec_step_after_read(read) == NodeStep::Wait ==> read matches Ok(Async::NotReady),
{
}

} // verus!
