use sockets::meta::Meta;
use sockets::{SocketHandle, SocketMeta};

#[test]
fn meta_starts_with_handle_zero() {
    let meta = Meta::default();
    assert_eq!(meta.handle, SocketHandle(0));
    assert_eq!(SocketHandle::default(), SocketHandle(0));
}

#[test]
fn meta_update_sets_the_handle() {
    let mut meta = SocketMeta { handle: SocketHandle(3) };
    meta.update(SocketHandle(9));
    assert_eq!(meta.handle, SocketHandle(9));
    meta.update(SocketHandle(0));
    assert_eq!(meta.handle, SocketHandle(0));
}

#[test]
fn handles_are_ordered_by_their_number() {
    assert!(SocketHandle(0) < SocketHandle(1));
    assert!(SocketHandle(200) > SocketHandle(199));
    assert_eq!(SocketHandle(7), SocketHandle(7));
    let mut handles = vec![SocketHandle(3), SocketHandle(0), SocketHandle(255), SocketHandle(1)];
    handles.sort();
    assert_eq!(
        handles,
        vec![SocketHandle(0), SocketHandle(1), SocketHandle(3), SocketHandle(255)]
    );
}
