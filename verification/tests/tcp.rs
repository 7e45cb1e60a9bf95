use no_std_net::{IpAddr, Ipv4Addr, SocketAddr};
use sockets::{Error, Instant, SocketHandle, TcpSocket, TcpState};

type Socket = TcpSocket<1000, 8>;

fn remote() -> SocketAddr {
    SocketAddr::new(IpAddr::V4(Ipv4Addr::new(192, 168, 1, 7)), 8080)
}

#[test]
fn new_tcp_socket() {
    let socket = Socket::new(4);
    assert_eq!(socket.handle(), SocketHandle(4));
    assert_eq!(*socket.state(), TcpState::Created);
    assert_eq!(socket.endpoint(), None);
    assert_eq!(socket.get_available_data(), 0);
    assert_eq!(socket.recv_queue(), 0);
    assert_eq!(socket.rx_window(), 8);
    assert!(!socket.is_connected());
    assert!(!socket.may_recv());
    assert!(!socket.can_recv());
    assert_eq!(TcpState::<1000>::default(), TcpState::Created);
}

#[test]
fn tcp_state_follows_the_driver() {
    let mut socket = Socket::new(0);
    socket.set_state(TcpState::WaitingForConnect(remote()));
    assert_eq!(socket.endpoint(), Some(remote()));
    assert!(!socket.is_connected());
    assert!(!socket.may_recv());
    socket.set_state(TcpState::Connected(remote()));
    assert_eq!(socket.endpoint(), Some(remote()));
    assert!(socket.is_connected());
    assert!(socket.may_recv());
    assert!(socket.can_recv());
    socket.set_state(TcpState::ShutdownForWrite(Instant::from_ticks(1)));
    assert_eq!(socket.endpoint(), None);
    assert!(!socket.is_connected());
    assert!(socket.may_recv());
}

#[test]
fn recv_is_illegal_before_the_connection() {
    let mut socket = Socket::new(0);
    let mut out = [0u8; 4];
    assert_eq!(socket.recv_slice(&mut out), Err(Error::Illegal));
    assert_eq!(socket.peek(4), Err(Error::Illegal));
    assert_eq!(socket.peek_slice(&mut out), Err(Error::Illegal));
    assert_eq!(socket.recv(|span| (span.len(), span.len())), Err(Error::Illegal));
    assert_eq!(socket.recv_wrapping(|first, _| first.len()), Err(Error::Illegal));
    socket.set_state(TcpState::WaitingForConnect(remote()));
    assert_eq!(socket.recv_slice(&mut out), Err(Error::Illegal));
    assert_eq!(socket.peek(4), Err(Error::Illegal));
    assert_eq!(socket.recv(|span| (span.len(), span.len())), Err(Error::Illegal));
    assert_eq!(out, [0, 0, 0, 0]);
}

#[test]
fn recv_on_a_connected_socket_without_data_reads_nothing() {
    let mut socket = Socket::new(0);
    socket.set_state(TcpState::Connected(remote()));
    let mut out = [7u8; 4];
    assert_eq!(socket.recv_slice(&mut out), Ok(0));
    assert_eq!(out, [7, 7, 7, 7]);
    assert_eq!(socket.peek(4), Ok(&[] as &[u8]));
    assert_eq!(socket.peek_slice(&mut out), Ok(0));
    assert_eq!(socket.recv(|span| (0, span.len())), Ok(0));
    assert_eq!(socket.recv_wrapping(|first, second| first.len() + second.map_or(0, |s| s.len())), Ok(0));
}

#[test]
fn buffered_data_can_be_read_in_any_state() {
    let mut socket = Socket::new(0);
    assert_eq!(socket.rx_enqueue_slice(&[1, 2, 3]), 3);
    assert!(socket.may_recv());
    assert!(socket.can_recv());
    let mut out = [0u8; 2];
    assert_eq!(socket.recv_slice(&mut out), Ok(2));
    assert_eq!(out, [1, 2]);
    assert_eq!(socket.recv_slice(&mut out), Ok(1));
    assert_eq!(out, [3, 2]);
    // The buffer is empty and the socket was never connected.
    assert_eq!(socket.recv_slice(&mut out), Err(Error::Illegal));
}

#[test]
fn can_recv_needs_room_in_the_buffer() {
    let mut socket = Socket::new(0);
    socket.set_state(TcpState::Connected(remote()));
    assert_eq!(socket.rx_enqueue_slice(&[0; 10]), 8);
    assert_eq!(socket.rx_window(), 0);
    assert_eq!(socket.recv_queue(), 8);
    assert!(socket.may_recv());
    assert!(!socket.can_recv());
    let mut out = [0u8; 1];
    assert_eq!(socket.recv_slice(&mut out), Ok(1));
    assert!(socket.can_recv());
    assert_eq!(socket.rx_window(), 1);
}

#[test]
fn peek_does_not_consume() {
    let mut socket = Socket::new(0);
    socket.set_state(TcpState::Connected(remote()));
    assert_eq!(socket.rx_enqueue_slice(&[1, 2, 3, 4]), 4);
    assert_eq!(socket.peek(2), Ok(&[1u8, 2][..]));
    assert_eq!(socket.peek(10), Ok(&[1u8, 2, 3, 4][..]));
    let mut out = [0u8; 6];
    assert_eq!(socket.peek_slice(&mut out), Ok(4));
    assert_eq!(out, [1, 2, 3, 4, 0, 0]);
    let mut short = [0u8; 3];
    assert_eq!(socket.peek_slice(&mut short), Ok(3));
    assert_eq!(short, [1, 2, 3]);
    assert_eq!(socket.recv_queue(), 4);
}

#[test]
fn peek_stops_at_the_end_of_the_storage() {
    let mut socket = Socket::new(0);
    socket.set_state(TcpState::Connected(remote()));
    let mut out = [0u8; 6];
    assert_eq!(socket.rx_enqueue_slice(&[1, 2, 3, 4, 5, 6, 7]), 7);
    assert_eq!(socket.recv_slice(&mut out), Ok(6));
    assert_eq!(socket.rx_enqueue_slice(&[8, 9, 10]), 3);
    // Queued: 7 and 8 at the end of the storage, 9 and 10 at its front.
    assert_eq!(socket.peek(4), Ok(&[7u8, 8][..]));
    assert_eq!(socket.peek_slice(&mut out), Ok(2));
    assert_eq!(&out[..2], &[7, 8]);
    assert_eq!(
        socket.recv_wrapping(|first, second| {
            assert_eq!(first, &[7, 8]);
            assert_eq!(second, Some(&[9u8, 10][..]));
            3
        }),
        Ok(3)
    );
    assert_eq!(socket.peek(4), Ok(&[10u8][..]));
}

#[test]
fn recv_hands_out_the_first_run() {
    let mut socket = Socket::new(0);
    socket.set_state(TcpState::Connected(remote()));
    assert_eq!(socket.rx_enqueue_slice(&[5, 6, 7]), 3);
    let seen = socket.recv(|span| (2, span.to_vec()));
    assert_eq!(seen, Ok(vec![5, 6, 7]));
    assert_eq!(socket.recv_queue(), 1);
    assert_eq!(socket.recv(|span| (5, span.to_vec())), Ok(vec![7]));
    assert_eq!(socket.recv_queue(), 0);
}

#[test]
fn closed_by_remote_shuts_down_and_clears_available_data() {
    let mut socket = Socket::new(0);
    socket.set_available_data(12);
    assert_eq!(socket.get_available_data(), 12);
    socket.closed_by_remote(Instant::from_ticks(77));
    assert_eq!(*socket.state(), TcpState::ShutdownForWrite(Instant::from_ticks(77)));
    assert_eq!(socket.get_available_data(), 0);
    // Reading is possible after the close, even with nothing buffered.
    let mut out = [0u8; 1];
    assert_eq!(socket.recv_slice(&mut out), Ok(0));
}

#[test]
fn recycle_at_the_read_timeout() {
    let mut socket = Socket::new(0);
    socket.set_state(TcpState::Connected(remote()));
    assert!(!socket.recycle(Instant::from_ticks(1_000_000)));
    socket.closed_by_remote(Instant::from_ticks(100));
    // The timeout is 15 s, which are 15 000 ticks at 1 kHz.
    assert!(!socket.recycle(Instant::from_ticks(100)));
    assert!(!socket.recycle(Instant::from_ticks(15_099)));
    assert!(socket.recycle(Instant::from_ticks(15_100)));
    assert!(socket.recycle(Instant::from_ticks(15_101)));
    // An instant before the close is no reason to reclaim.
    assert!(!socket.recycle(Instant::from_ticks(99)));
}

#[test]
fn recycle_with_another_timeout() {
    let mut socket = Socket::new(0);
    socket.set_read_timeout(Some(2));
    socket.closed_by_remote(Instant::from_ticks(1_000));
    assert!(!socket.recycle(Instant::from_ticks(2_999)));
    assert!(socket.recycle(Instant::from_ticks(3_000)));
    socket.set_read_timeout(Some(0));
    assert!(socket.recycle(Instant::from_ticks(1_000)));
    assert!(!socket.recycle(Instant::from_ticks(999)));
}

#[test]
fn no_read_timeout_never_recycles() {
    let mut socket = Socket::new(0);
    socket.set_read_timeout(None);
    socket.closed_by_remote(Instant::from_ticks(100));
    assert!(!socket.recycle(Instant::from_ticks(100)));
    assert!(!socket.recycle(Instant::from_ticks(15_100)));
    assert!(!socket.recycle(Instant::from_ticks(0x7fff_ffff)));
}

#[test]
fn unclosed_socket_never_recycles() {
    let mut socket = Socket::new(0);
    assert!(!socket.recycle(Instant::from_ticks(100_000)));
    socket.set_state(TcpState::WaitingForConnect(remote()));
    assert!(!socket.recycle(Instant::from_ticks(100_000)));
    socket.set_state(TcpState::Connected(remote()));
    assert!(!socket.recycle(Instant::from_ticks(100_000)));
}

#[test]
fn available_data_is_due_once_an_interval() {
    let mut socket = Socket::new(0);
    // Not connected: never due.
    assert!(!socket.should_update_available_data(Instant::from_ticks(0)));
    socket.set_state(TcpState::Connected(remote()));
    // Never checked before: due, and the check is noted.
    assert!(socket.should_update_available_data(Instant::from_ticks(1_000)));
    assert!(!socket.should_update_available_data(Instant::from_ticks(1_000)));
    assert!(!socket.should_update_available_data(Instant::from_ticks(15_999)));
    assert!(socket.should_update_available_data(Instant::from_ticks(16_000)));
    // The interval starts again at the check that was due.
    assert!(!socket.should_update_available_data(Instant::from_ticks(30_999)));
    assert!(socket.should_update_available_data(Instant::from_ticks(31_000)));
    socket.closed_by_remote(Instant::from_ticks(31_000));
    assert!(!socket.should_update_available_data(Instant::from_ticks(100_000)));
}

#[test]
fn available_data_check_interval_can_be_set() {
    let mut socket = Socket::new(0);
    socket.set_state(TcpState::Connected(remote()));
    socket.set_check_interval(1);
    assert!(socket.should_update_available_data(Instant::from_ticks(0)));
    assert!(!socket.should_update_available_data(Instant::from_ticks(999)));
    assert!(socket.should_update_available_data(Instant::from_ticks(1_000)));
    // A check that seems to lie before the last one is due at once.
    assert!(socket.should_update_available_data(Instant::from_ticks(500)));
}
