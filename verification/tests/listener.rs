use no_std_net::{IpAddr, Ipv4Addr, Ipv6Addr, SocketAddr};
use sockets::listener::ConnectionQueue;
use sockets::tcp_listener::TcpListener;
use sockets::udp_listener::UdpListener;
use sockets::{Error, SocketHandle};

fn v4(last: u8, port: u16) -> SocketAddr {
    SocketAddr::new(IpAddr::V4(Ipv4Addr::new(10, 0, 0, last)), port)
}

#[test]
fn connection_queue_is_first_in_first_out() {
    let mut queue = ConnectionQueue::<2>::new();
    assert_eq!(queue.capacity(), 2);
    assert!(queue.is_empty());
    assert_eq!(queue.peek(), None);
    assert_eq!(queue.dequeue(), None);
    assert_eq!(queue.enqueue((SocketHandle(1), v4(1, 100))), Ok(()));
    assert_eq!(queue.enqueue((SocketHandle(2), v4(2, 200))), Ok(()));
    assert!(queue.is_full());
    // A full queue hands the connection back.
    assert_eq!(
        queue.enqueue((SocketHandle(3), v4(3, 300))),
        Err((SocketHandle(3), v4(3, 300)))
    );
    assert_eq!(queue.len(), 2);
    assert_eq!(queue.peek(), Some(&(SocketHandle(1), v4(1, 100))));
    assert_eq!(queue.dequeue(), Some((SocketHandle(1), v4(1, 100))));
    assert_eq!(queue.dequeue(), Some((SocketHandle(2), v4(2, 200))));
    assert_eq!(queue.dequeue(), None);
}

#[test]
fn tcp_bind_push_accept() {
    let mut listener = TcpListener::<4, 4>::new();
    let server = SocketHandle(0);
    assert_eq!(listener.bind(server, 8080), Ok(()));
    assert_eq!(listener.available(server), Ok(false));
    assert_eq!(listener.accept(server), Err(()));
    let arrived = (SocketHandle(5), v4(9, 40_000));
    assert_eq!(listener.incoming(8080).expect("the port is bound").enqueue(arrived), Ok(()));
    assert_eq!(listener.available(server), Ok(true));
    assert_eq!(listener.accept(server), Ok(arrived));
    assert_eq!(listener.available(server), Ok(false));
    assert_eq!(listener.accept(server), Err(()));
}

#[test]
fn tcp_accept_keeps_the_order_of_arrival() {
    let mut listener = TcpListener::<4, 4>::new();
    assert_eq!(listener.bind(SocketHandle(0), 80), Ok(()));
    assert_eq!(listener.bind(SocketHandle(1), 443), Ok(()));
    let a = (SocketHandle(10), v4(1, 1000));
    let b = (SocketHandle(11), v4(2, 2000));
    let c = (SocketHandle(12), v4(3, 3000));
    assert_eq!(listener.incoming(80).unwrap().enqueue(a), Ok(()));
    assert_eq!(listener.incoming(443).unwrap().enqueue(b), Ok(()));
    assert_eq!(listener.incoming(80).unwrap().enqueue(c), Ok(()));
    assert_eq!(listener.accept(SocketHandle(1)), Ok(b));
    assert_eq!(listener.accept(SocketHandle(0)), Ok(a));
    assert_eq!(listener.accept(SocketHandle(0)), Ok(c));
    assert_eq!(listener.accept(SocketHandle(0)), Err(()));
}

#[test]
fn tcp_bind_fails_for_a_bound_handle_and_a_full_listener() {
    let mut listener = TcpListener::<2, 4>::new();
    assert_eq!(listener.bind(SocketHandle(0), 80), Ok(()));
    assert_eq!(listener.bind(SocketHandle(0), 81), Err(()));
    assert!(listener.incoming(81).is_none());
    assert_eq!(listener.bind(SocketHandle(1), 81), Ok(()));
    assert_eq!(listener.bind(SocketHandle(2), 82), Err(()));
    assert!(listener.incoming(82).is_none());
    assert_eq!(listener.available(SocketHandle(2)), Err(()));
    assert_eq!(listener.accept(SocketHandle(2)), Err(()));
}

#[test]
fn tcp_queue_of_a_port_is_bounded() {
    let mut listener = TcpListener::<2, 2>::new();
    assert_eq!(listener.bind(SocketHandle(0), 80), Ok(()));
    let queue = listener.incoming(80).unwrap();
    assert_eq!(queue.enqueue((SocketHandle(1), v4(1, 1))), Ok(()));
    assert_eq!(queue.enqueue((SocketHandle(2), v4(2, 2))), Ok(()));
    assert_eq!(queue.enqueue((SocketHandle(3), v4(3, 3))), Err((SocketHandle(3), v4(3, 3))));
    assert_eq!(listener.accept(SocketHandle(0)), Ok((SocketHandle(1), v4(1, 1))));
    assert_eq!(listener.accept(SocketHandle(0)), Ok((SocketHandle(2), v4(2, 2))));
    assert_eq!(listener.accept(SocketHandle(0)), Err(()));
}

#[test]
fn binding_a_port_again_starts_its_queue_afresh() {
    let mut listener = TcpListener::<4, 4>::new();
    assert_eq!(listener.bind(SocketHandle(0), 80), Ok(()));
    assert_eq!(listener.incoming(80).unwrap().enqueue((SocketHandle(9), v4(1, 1))), Ok(()));
    assert_eq!(listener.bind(SocketHandle(1), 80), Ok(()));
    assert_eq!(listener.available(SocketHandle(0)), Ok(false));
    assert_eq!(listener.available(SocketHandle(1)), Ok(false));
    // Both handles now share the queue of the port.
    assert_eq!(listener.incoming(80).unwrap().enqueue((SocketHandle(8), v4(2, 2))), Ok(()));
    assert_eq!(listener.available(SocketHandle(0)), Ok(true));
    assert_eq!(listener.accept(SocketHandle(1)), Ok((SocketHandle(8), v4(2, 2))));
    assert_eq!(listener.available(SocketHandle(0)), Ok(false));
}

#[test]
fn udp_bind_and_unbind() {
    let mut listener = UdpListener::<2, 4>::new();
    let server = SocketHandle(3);
    assert!(!listener.is_bound(server));
    assert!(!listener.is_port_bound(5000));
    assert_eq!(listener.get_port(server), Err(Error::ListenerError));
    assert_eq!(listener.unbind(server), Err(Error::ListenerError));
    assert_eq!(listener.bind(server, 5000), Ok(()));
    assert!(listener.is_bound(server));
    assert!(listener.is_port_bound(5000));
    assert_eq!(listener.get_port(server), Ok(5000));
    assert_eq!(listener.bind(server, 5001), Err(Error::ListenerError));
    assert!(!listener.is_port_bound(5001));
    assert_eq!(listener.bind(SocketHandle(4), 5001), Ok(()));
    assert_eq!(listener.bind(SocketHandle(5), 5002), Err(Error::ListenerError));
    assert_eq!(listener.unbind(server), Ok(()));
    assert!(!listener.is_bound(server));
    assert!(!listener.is_port_bound(5000));
    assert!(listener.incoming(5000).is_none());
    assert!(listener.is_bound(SocketHandle(4)));
    assert!(listener.is_port_bound(5001));
    // The slot that was freed can be bound again.
    assert_eq!(listener.bind(SocketHandle(5), 5002), Ok(()));
}

#[test]
fn udp_unbind_drops_what_waits() {
    let mut listener = UdpListener::<2, 4>::new();
    let server = SocketHandle(3);
    assert_eq!(listener.bind(server, 5000), Ok(()));
    assert_eq!(listener.incoming(5000).unwrap().enqueue((SocketHandle(1), v4(1, 1))), Ok(()));
    assert_eq!(listener.unbind(server), Ok(()));
    assert_eq!(listener.available(server), Err(Error::ListenerError));
    assert_eq!(listener.get_remote(server), Err(Error::ListenerError));
    assert_eq!(listener.bind(server, 5000), Ok(()));
    assert_eq!(listener.available(server), Ok(false));
}

#[test]
fn udp_unbind_of_a_shared_port_leaves_the_other_handle_without_queue() {
    let mut listener = UdpListener::<2, 4>::new();
    assert_eq!(listener.bind(SocketHandle(0), 7000), Ok(()));
    assert_eq!(listener.bind(SocketHandle(1), 7000), Ok(()));
    assert_eq!(listener.unbind(SocketHandle(0)), Ok(()));
    assert!(listener.is_bound(SocketHandle(1)));
    assert_eq!(listener.get_port(SocketHandle(1)), Ok(7000));
    assert!(!listener.is_port_bound(7000));
    assert_eq!(listener.available(SocketHandle(1)), Err(Error::ListenerError));
}

#[test]
fn udp_peek_and_get_remote() {
    let mut listener = UdpListener::<2, 4>::new();
    let server = SocketHandle(3);
    assert_eq!(listener.peek_remote(server), Err(Error::ListenerError));
    assert_eq!(listener.bind(server, 5000), Ok(()));
    assert_eq!(listener.peek_remote(server), Err(Error::ListenerError));
    assert_eq!(listener.get_remote(server), Err(Error::ListenerError));
    let a = (SocketHandle(1), v4(1, 1));
    let b = (SocketHandle(2), v4(2, 2));
    assert_eq!(listener.incoming(5000).unwrap().enqueue(a), Ok(()));
    assert_eq!(listener.incoming(5000).unwrap().enqueue(b), Ok(()));
    assert_eq!(listener.available(server), Ok(true));
    assert_eq!(listener.peek_remote(server), Ok(&a));
    assert_eq!(listener.peek_remote(server), Ok(&a));
    assert_eq!(listener.get_remote(server), Ok(a));
    assert_eq!(listener.peek_remote(server), Ok(&b));
    assert_eq!(listener.get_remote(server), Ok(b));
    assert_eq!(listener.get_remote(server), Err(Error::ListenerError));
}

#[test]
fn udp_get_outgoing_takes_only_a_matching_head() {
    let mut listener = UdpListener::<2, 4>::new();
    let server = SocketHandle(3);
    assert_eq!(listener.get_outgoing(&server, v4(1, 1)), None);
    assert_eq!(listener.bind(server, 5000), Ok(()));
    assert_eq!(listener.get_outgoing(&server, v4(1, 1)), None);
    let a = (SocketHandle(1), v4(1, 1));
    let b = (SocketHandle(2), v4(2, 2));
    assert_eq!(listener.incoming(5000).unwrap().enqueue(a), Ok(()));
    assert_eq!(listener.incoming(5000).unwrap().enqueue(b), Ok(()));
    // The second in the queue does not count, nor does another port or address.
    assert_eq!(listener.get_outgoing(&server, v4(2, 2)), None);
    assert_eq!(listener.get_outgoing(&server, v4(1, 2)), None);
    assert_eq!(listener.get_outgoing(&server, v4(9, 1)), None);
    assert_eq!(listener.peek_remote(server), Ok(&a));
    assert_eq!(listener.get_outgoing(&server, v4(1, 1)), Some(SocketHandle(1)));
    assert_eq!(listener.peek_remote(server), Ok(&b));
    assert_eq!(listener.get_outgoing(&server, v4(2, 2)), Some(SocketHandle(2)));
    assert_eq!(listener.get_outgoing(&server, v4(2, 2)), None);
}

#[test]
fn udp_get_outgoing_tells_address_families_apart() {
    let mut listener = UdpListener::<2, 4>::new();
    let server = SocketHandle(0);
    let six = SocketAddr::new(IpAddr::V6(Ipv6Addr::new(0, 0, 0, 0, 0, 0xffff, 0x0a00, 0x0001)), 9);
    assert_eq!(listener.bind(server, 9), Ok(()));
    assert_eq!(listener.incoming(9).unwrap().enqueue((SocketHandle(1), six)), Ok(()));
    assert_eq!(listener.get_outgoing(&server, v4(1, 9)), None);
    assert_eq!(listener.get_outgoing(&server, six), Some(SocketHandle(1)));
}

#[test]
fn listener_without_room_binds_nothing() {
    let mut listener = UdpListener::<0, 4>::new();
    assert_eq!(listener.bind(SocketHandle(0), 1), Err(Error::ListenerError));
    let mut queueless = TcpListener::<1, 0>::new();
    assert_eq!(queueless.bind(SocketHandle(0), 1), Ok(()));
    assert_eq!(
        queueless.incoming(1).unwrap().enqueue((SocketHandle(1), v4(1, 1))),
        Err((SocketHandle(1), v4(1, 1)))
    );
    assert_eq!(queueless.available(SocketHandle(0)), Ok(false));
}
