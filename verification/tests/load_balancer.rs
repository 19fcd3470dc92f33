use bytes::BytesMut;
use load_balancer::Async;
use load_balancer::control_node::{ControlNode, RecvEvent};
use load_balancer::enc_dec::{JsonCodec, RequestState};
use load_balancer::err::LBError;
use load_balancer::read_write::{is_index_request, index_response, ReadWrite};
use load_balancer::server_node::{NodeAddr, NodeMsg, NodeStep, ServerNode, StreamHold, TcpBytes};

fn localhost(port: u16) -> NodeAddr {
    NodeAddr::V4 { octets: 0x7f00_0001, port }
}

fn node(port: u16, tag: u8) -> ServerNode<u8, ()> {
    ServerNode::new(&localhost(port), tag)
}

#[test]
fn test_load() {
    let mut control: ControlNode<(), u8, ()> = ControlNode::new(());
    let addrs = [localhost(8080), localhost(8081)];
    for (i, a) in addrs.iter().enumerate() {
        control.add_node(ServerNode::new(a, i as u8));
    }
    let n = control.find_node().unwrap();
    assert_eq!(n.addr, localhost(8081));
    assert_eq!(n.tx, 1);
}

#[test]
fn test_sink_stream() {
    assert_eq!(true, true)
}

#[test]
fn test_write_buffer() {
    let mut rw = ReadWrite::new();
    rw.buffer(b"123".as_ref());

    let mut b_m = BytesMut::new();
    b_m.reserve(3);
    b_m.extend_from_slice(b"123".as_ref());
    assert_eq!(b_m, rw.wr);
}

#[test]
fn test_read_buffer() {
    let mut rw = ReadWrite::new();
    rw.rd.extend_from_slice(b"123\r\n".as_ref());
    match rw.next_line(false) {
        Async::Ready(Some(line)) => assert_eq!(&line[..], b"123"),
        _ => panic!("expected a line"),
    }
    assert!(rw.rd.is_empty());
}

#[test]
fn find_node_without_nodes_fails() {
    let mut control: ControlNode<(), u8, ()> = ControlNode::new(());
    match control.find_node() {
        Err(LBError::InternalThrow(s)) => assert_eq!(s, "No node found *fatal*."),
        _ => panic!("expected the no-node error"),
    }
}

#[test]
fn add_node_replaces_node_with_same_address() {
    let mut control: ControlNode<(), u8, ()> = ControlNode::new(());
    control.add_node(node(8080, 1));
    control.add_node(node(8081, 2));
    control.add_node(node(8080, 3));
    let n = control.find_node().unwrap();
    assert_eq!(n.addr, localhost(8080));
    assert_eq!(n.tx, 3);
}

#[test]
fn find_node_keeps_equal_loads_in_place() {
    let mut control: ControlNode<(), u8, ()> = ControlNode::new(());
    control.add_node(node(9000, 7));
    control.add_node(node(9001, 8));
    {
        let n = control.find_node().unwrap();
        assert_eq!(n.addr, localhost(9001));
        n.stream_bytes.first = false;
    }
    // no loads reported: the order stays as it was
    let n = control.find_node().unwrap();
    assert_eq!(n.addr, localhost(9001));
    assert!(!n.stream_bytes.first);
}

#[test]
fn update_sorts_the_order_by_load() {
    let mut control: ControlNode<(), u8, ()> = ControlNode::new(());
    control.add_node(node(1, 1));
    control.add_node(node(2, 2));
    control.update(NodeMsg { id: localhost(1), count: 5 });
    control.update(NodeMsg { id: localhost(2), count: 1 });
    assert_eq!(control.find_node().unwrap().tx, 2);
    control.update(NodeMsg { id: localhost(2), count: 9 });
    assert_eq!(control.find_node().unwrap().tx, 1);
}

#[test]
fn unreported_nodes_count_as_unloaded() {
    let mut control: ControlNode<(), u8, ()> = ControlNode::new(());
    control.add_node(node(1, 1));
    control.add_node(node(2, 2));
    control.add_node(node(3, 3));
    control.update(NodeMsg { id: localhost(3), count: 1 });
    // 3 is loaded; 2 and 1 (no state) keep their order ahead of it
    assert_eq!(control.find_node().unwrap().tx, 2);
    control.update(NodeMsg { id: localhost(2), count: 2 });
    assert_eq!(control.find_node().unwrap().tx, 1);
}

#[test]
fn ipv6_addresses_are_distinct_nodes() {
    let mut control: ControlNode<(), u8, ()> = ControlNode::new(());
    let a = NodeAddr::V6 { segments: 1, port: 80, flowinfo: 0, scope_id: 0 };
    let b = NodeAddr::V6 { segments: 1, port: 80, flowinfo: 0, scope_id: 1 };
    control.add_node(ServerNode::new(&a, 1));
    control.add_node(ServerNode::new(&b, 2));
    assert_eq!(control.find_node().unwrap().tx, 2);
}

#[test]
fn poll_read_recv_outcomes() {
    let mut control: ControlNode<(), u8, ()> = ControlNode::new(());
    let msg = NodeMsg { id: localhost(1), count: 1 };
    assert_eq!(control.poll_read_recv(RecvEvent::Message(msg)), Ok(Async::Ready(Some(()))));
    assert_eq!(control.poll_read_recv(RecvEvent::Closed), Ok(Async::Ready(None)));
    assert_eq!(control.poll_read_recv(RecvEvent::Pending), Ok(Async::NotReady));
    assert_eq!(
        control.poll_read_recv(RecvEvent::Failed),
        Err(LBError::InternalThrow("Error in poll *Control fatal*.".to_string()))
    );
}

#[test]
fn error_messages() {
    assert_eq!(LBError::FromExt("a".to_string()).message(), "Load Balancer error: a");
    assert_eq!(LBError::InternalThrow("b".to_string()).message(), "Load Balancer error: b");
    assert_eq!(LBError::UserError("c".to_string()).message(), "Bad input, user error: c");
    assert_eq!(LBError::from_none(), LBError::FromExt("Expected Some found None".to_string()));
    assert_eq!(LBError::from_empty(()), LBError::FromExt("Empty Error".to_string()));
    assert_eq!(LBError::from_description("d".to_string()), LBError::FromExt("d".to_string()));
}

#[test]
fn first_connection_is_reported_once() {
    let mut n = node(8080, 0);
    assert!(n.stream_bytes.first_connected());
    let (poll, msg) = n.read_polled(Some(b"".as_ref()));
    assert_eq!(poll, Async::Ready(Some(())));
    assert_eq!(msg, Some(NodeMsg { id: localhost(8080), count: 1 }));
    assert!(!n.stream_bytes.first_connected());
    let (poll, msg) = n.read_polled(Some(b"".as_ref()));
    assert_eq!(poll, Async::Ready(Some(())));
    assert_eq!(msg, None);
}

#[test]
fn read_bytes_are_kept() {
    let mut n = node(8080, 0);
    let (poll, msg) = n.read_polled(Some(b"abc".as_ref()));
    assert_eq!(poll, Async::Ready(Some(())));
    assert_eq!(msg, Some(NodeMsg { id: localhost(8080), count: 1 }));
    assert_eq!(&n.stream_bytes.in_out_vec[..], b"abc");
    let (_, msg) = n.read_polled(Some(b"de".as_ref()));
    assert_eq!(msg, None);
    assert_eq!(&n.stream_bytes.in_out_vec[..], b"abcde");
    n.consume_written(5);
    let (_, msg) = n.read_polled(Some(b"f".as_ref()));
    assert_eq!(msg, None);
    assert_eq!(&n.stream_bytes.in_out_vec[..], b"f");
}

#[test]
fn read_not_ready_reports_nothing() {
    let mut n = node(8080, 0);
    let (poll, msg) = n.read_polled(None);
    assert_eq!(poll, Async::NotReady);
    assert_eq!(msg, None);
    assert!(n.stream_bytes.first_connected());
}

#[test]
fn held_bytes_before_first_read_mean_no_report() {
    let mut n = node(8080, 0);
    n.stream_bytes.in_out_vec.extend_from_slice(b"x");
    let (_, msg) = n.read_polled(Some(b"y".as_ref()));
    assert_eq!(msg, None);
    assert!(n.stream_bytes.first);
    assert_eq!(load_balancer::buf::held_len(&n.stream_bytes.in_out_vec), 2);
}

#[test]
fn first_connected_needs_empty_bytes() {
    let mut t = TcpBytes::default();
    assert!(t.first_connected());
    t.in_out_vec.extend_from_slice(b"x");
    assert!(!t.first_connected());
    let d = t.duplicate();
    assert_eq!(&d.in_out_vec[..], b"x");
    assert!(d.first);
}

#[test]
fn node_steps_after_read() {
    type N = ServerNode<u8, ()>;
    assert_eq!(N::step_after_read(&Ok(Async::Ready(Some(())))), NodeStep::Write);
    assert_eq!(N::step_after_read(&Ok(Async::Ready(None))), NodeStep::Fail);
    assert_eq!(N::step_after_read(&Ok(Async::NotReady)), NodeStep::Wait);
    assert_eq!(N::step_after_read(&Err(LBError::from_empty(()))), NodeStep::Fail);
}

#[test]
fn node_writes_out_its_bytes() {
    let mut n = node(8080, 0);
    assert!(!n.has_pending_write());
    n.stream_bytes.in_out_vec.extend_from_slice(b"hello");
    assert!(n.has_pending_write());
    n.consume_written(2);
    assert_eq!(&n.stream_bytes.in_out_vec[..], b"llo");
    n.consume_written(3);
    assert!(!n.has_pending_write());
}

#[test]
fn process_conn_keeps_the_node() {
    let mut n: ServerNode<u8, u32> = ServerNode::new(&localhost(8080), 5);
    n.stream_bytes.in_out_vec.extend_from_slice(b"ab");
    let m = n.process_conn(42);
    assert_eq!(m.addr, localhost(8080));
    assert_eq!(m.tx, 5);
    assert_eq!(m.tcp_stream, Some(42));
    assert_eq!(&m.stream_bytes.in_out_vec[..], b"ab");
    assert!(n.tcp_stream.is_none());
}

#[test]
fn stream_hold_starts_empty() {
    let h: StreamHold<u8> = StreamHold::default();
    assert!(h.0.is_none());
}

#[test]
fn flush_drains_the_write_buffer() {
    let mut rw = ReadWrite::new();
    assert!(!rw.has_pending_write());
    rw.buffer(b"123".as_ref());
    assert!(rw.has_pending_write());
    rw.consume_written(1);
    assert_eq!(&rw.wr[..], b"23");
    rw.consume_written(2);
    assert_eq!(BytesMut::new(), rw.wr);
    assert!(!rw.has_pending_write());
}

#[test]
fn lines_come_out_in_order() {
    let mut rw = ReadWrite::new();
    rw.rd.extend_from_slice(b"GET / HTTP/1.1\r\nHost: x\r\npartial");
    match rw.next_line(false) {
        Async::Ready(Some(l)) => assert_eq!(&l[..], b"GET / HTTP/1.1"),
        _ => panic!("expected a line"),
    }
    match rw.next_line(false) {
        Async::Ready(Some(l)) => assert_eq!(&l[..], b"Host: x"),
        _ => panic!("expected a line"),
    }
    assert!(matches!(rw.next_line(false), Async::NotReady));
    assert!(matches!(rw.next_line(true), Async::Ready(None)));
    assert_eq!(&rw.rd[..], b"partial");
}

#[test]
fn lone_cr_or_lf_does_not_end_a_line() {
    let mut rw = ReadWrite::new();
    rw.rd.extend_from_slice(b"a\rb\nc\n\r\r\nd");
    match rw.next_line(true) {
        Async::Ready(Some(l)) => assert_eq!(&l[..], b"a\rb\nc\n\r"),
        _ => panic!("expected a line"),
    }
    assert_eq!(&rw.rd[..], b"d");
}

#[test]
fn empty_line() {
    let mut rw = ReadWrite::new();
    rw.rd.extend_from_slice(b"\r\n");
    match rw.next_line(false) {
        Async::Ready(Some(l)) => assert!(l.is_empty()),
        _ => panic!("expected a line"),
    }
    assert!(rw.rd.is_empty());
}

#[test]
fn index_request_detection() {
    assert!(is_index_request(&BytesMut::from(&b"GET / HTTP/1.1"[..])));
    assert!(is_index_request(&BytesMut::from(&b"GET / HTTP/1.10 extra"[..])));
    assert!(!is_index_request(&BytesMut::from(&b"GET /x HTTP/1.1"[..])));
    assert!(!is_index_request(&BytesMut::from(&b"GET / HTTP/1."[..])));
    assert!(!is_index_request(&BytesMut::new()));
}

#[test]
fn index_response_text() {
    let r = index_response(b"{\"a\":1}");
    assert_eq!(
        r,
        "HTTP/1.1 200 OK\r\nContent-Length: {}\r\nContent-Type: application/json\r\n\r\n{\"a\":1}"
    );
    let r = index_response(&[b'x', 0xff, b'y']);
    assert!(r.ends_with("x\u{FFFD}y"));
}

#[test]
fn json_codec_frames() {
    let mut c = JsonCodec::new();
    assert_eq!(c.state, RequestState::Header);
    assert_eq!(c.cont_len, 0);
    let src = BytesMut::from(&b"{\"item\":1}"[..]);
    let r: Result<Option<BytesMut>, String> = c.decode(&src, Ok(()));
    assert_eq!(r.unwrap().unwrap(), src);
    let r: Result<Option<BytesMut>, String> = c.decode(&src, Err("bad".to_string()));
    assert_eq!(r, Err("bad".to_string()));
    let mut dst = BytesMut::from(&b"x"[..]);
    c.encode(b"{}", &mut dst);
    assert_eq!(&dst[..], b"x{}");
}
