use vstd::prelude::*;

verus! {

/// The socket address type of `no_std_net`, which `embedded_nal` hands on
/// under the same name. The library stores and returns such addresses and
/// compares them; it never looks inside one.
#[verifier::external_type_specification]
#[verifier::external_body]
pub struct ExSocketAddr(no_std_net::SocketAddr);

/// Compares two addresses with `==` of `no_std_net::SocketAddr`, which is the
/// derived equality: the same variant with the same address, port and, for
/// IPv6, flow information and scope.
#[verifier::external_body]
pub(crate) fn same_address(a: &no_std_net::SocketAddr, b: &no_std_net::SocketAddr) -> (r: bool)
    ensures
        r == (*a == *b),
{
    a == b
}

} // verus!
