use no_std_net::{IpAddr, Ipv4Addr, SocketAddr};
use sockets::{Error, Instant, Socket, SocketHandle, SocketType, TcpSocket, TcpState, UdpSocket, UdpState};

type Udp = UdpSocket<1000, 8>;

fn local(port: u16) -> SocketAddr {
    SocketAddr::new(IpAddr::V4(Ipv4Addr::new(10, 0, 0, 1)), port)
}

#[test]
fn new_udp_socket() {
    let socket = Udp::new(9);
    assert_eq!(socket.handle(), SocketHandle(9));
    assert_eq!(socket.state(), UdpState::Closed);
    assert_eq!(socket.endpoint(), None);
    assert_eq!(socket.get_available_data(), 0);
    assert_eq!(socket.rx_window(), 8);
    assert!(!socket.is_open());
    assert!(socket.can_recv());
    assert_eq!(UdpState::default(), UdpState::Closed);
}

#[test]
fn udp_bind_and_close() {
    let mut socket = Udp::new(0);
    assert_eq!(socket.bind(local(5000)), Ok(()));
    assert!(socket.is_open());
    assert_eq!(socket.endpoint(), Some(local(5000)));
    // A second bind is refused and keeps the endpoint.
    assert_eq!(socket.bind(local(6000)), Err(Error::Illegal));
    assert_eq!(socket.endpoint(), Some(local(5000)));
    socket.close();
    assert!(!socket.is_open());
    assert_eq!(socket.endpoint(), None);
    assert_eq!(socket.bind(local(6000)), Ok(()));
    assert_eq!(socket.endpoint(), Some(local(6000)));
}

#[test]
fn udp_state_and_handle_can_be_set() {
    let mut socket = Udp::new(1);
    socket.set_state(UdpState::Established);
    assert_eq!(socket.state(), UdpState::Established);
    socket.set_state(UdpState::Closed);
    assert_eq!(socket.state(), UdpState::Closed);
    socket.update_handle(SocketHandle(200));
    assert_eq!(socket.handle(), SocketHandle(200));
    socket.set_available_data(33);
    assert_eq!(socket.get_available_data(), 33);
}

#[test]
fn udp_recv_needs_an_open_socket() {
    let mut socket = Udp::new(0);
    assert_eq!(socket.rx_enqueue_slice(&[1, 2, 3]), 3);
    let mut out = [0u8; 4];
    assert_eq!(socket.recv_slice(&mut out), Err(Error::Illegal));
    assert_eq!(socket.peek(4), Err(Error::Illegal));
    assert_eq!(socket.peek_slice(&mut out), Err(Error::Illegal));
    assert_eq!(socket.recv(|span| (span.len(), span.len())), Err(Error::Illegal));
    assert_eq!(out, [0, 0, 0, 0]);
    assert_eq!(socket.bind(local(1)), Ok(()));
    assert_eq!(socket.peek(2), Ok(&[1u8, 2][..]));
    assert_eq!(socket.peek_slice(&mut out), Ok(3));
    assert_eq!(out, [1, 2, 3, 0]);
    assert_eq!(socket.recv(|span| (1, span.to_vec())), Ok(vec![1, 2, 3]));
    assert_eq!(socket.recv_slice(&mut out), Ok(2));
    assert_eq!(out, [2, 3, 3, 0]);
    assert_eq!(socket.recv_slice(&mut out), Ok(0));
}

#[test]
fn udp_can_recv_until_the_buffer_is_full() {
    let mut socket = Udp::new(0);
    assert_eq!(socket.rx_enqueue_slice(&[0; 7]), 7);
    assert!(socket.can_recv());
    assert_eq!(socket.rx_enqueue_slice(&[0; 7]), 1);
    assert!(!socket.can_recv());
    assert_eq!(socket.rx_window(), 0);
}

#[test]
fn udp_recycle_after_the_remote_closed() {
    let mut socket = Udp::new(0);
    assert!(!socket.recycle(Instant::from_ticks(1_000_000)));
    socket.closed_by_remote(Instant::from_ticks(2_000));
    assert!(!socket.recycle(Instant::from_ticks(16_999)));
    assert!(socket.recycle(Instant::from_ticks(17_000)));
    socket.set_read_timeout(Some(1));
    assert!(!socket.recycle(Instant::from_ticks(2_999)));
    assert!(socket.recycle(Instant::from_ticks(3_000)));
    socket.set_read_timeout(None);
    assert!(!socket.recycle(Instant::from_ticks(17_000)));
}

#[test]
fn udp_available_data_check_compares_with_the_check_before() {
    let mut socket = Udp::new(0);
    // The first check has nothing to compare with.
    assert!(!socket.should_update_available_data(Instant::from_ticks(0)));
    assert!(!socket.should_update_available_data(Instant::from_ticks(14_999)));
    // Every check is noted, so the interval counts from the last call.
    assert!(!socket.should_update_available_data(Instant::from_ticks(15_000)));
    assert!(socket.should_update_available_data(Instant::from_ticks(30_000)));
    socket.set_check_interval(2);
    assert!(!socket.should_update_available_data(Instant::from_ticks(31_999)));
    assert!(socket.should_update_available_data(Instant::from_ticks(33_999)));
}

#[test]
fn socket_forwards_to_what_it_holds() {
    let mut tcp: Socket<1000, 8> = TcpSocket::new(1).into();
    let mut udp: Socket<1000, 8> = UdpSocket::new(2).into();
    assert_eq!(tcp.handle(), SocketHandle(1));
    assert_eq!(udp.handle(), SocketHandle(2));
    assert_eq!(tcp.get_type(), SocketType::Tcp);
    assert_eq!(udp.get_type(), SocketType::Udp);
    // A TCP socket that was never connected takes no interest in data.
    assert!(!tcp.can_recv());
    assert!(udp.can_recv());
    assert_eq!(tcp.rx_enqueue_slice(&[1, 2, 3]), 3);
    assert_eq!(udp.rx_enqueue_slice(&[1, 2, 3, 4, 5, 6, 7, 8, 9]), 8);
    assert_eq!(tcp.rx_window(), 5);
    assert_eq!(udp.rx_window(), 0);
    assert!(tcp.can_recv());
    assert!(!udp.can_recv());
    tcp.set_available_data(4);
    udp.set_available_data(5);
    assert_eq!(tcp.available_data(), 4);
    assert_eq!(udp.available_data(), 5);
}

#[test]
fn socket_forwards_time() {
    let mut tcp: Socket<1000, 8> = Socket::Tcp(TcpSocket::new(1));
    let mut udp: Socket<1000, 8> = Socket::Udp(UdpSocket::new(2));
    assert!(!tcp.should_update_available_data(Instant::from_ticks(0)));
    assert!(!udp.should_update_available_data(Instant::from_ticks(0)));
    assert!(udp.should_update_available_data(Instant::from_ticks(15_000)));
    assert!(!tcp.recycle(Instant::from_ticks(50_000)));
    assert!(!udp.recycle(Instant::from_ticks(50_000)));
    tcp.set_available_data(4);
    tcp.closed_by_remote(Instant::from_ticks(50_000));
    udp.closed_by_remote(Instant::from_ticks(50_000));
    assert_eq!(tcp.available_data(), 0);
    assert!(!tcp.recycle(Instant::from_ticks(64_999)));
    assert!(!udp.recycle(Instant::from_ticks(64_999)));
    assert!(tcp.recycle(Instant::from_ticks(65_000)));
    assert!(udp.recycle(Instant::from_ticks(65_000)));
    match tcp {
        Socket::Tcp(s) => assert_eq!(*s.state(), TcpState::ShutdownForWrite(Instant::from_ticks(50_000))),
        _ => panic!("the socket holds a TCP socket"),
    }
}
