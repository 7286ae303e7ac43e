//! What a caller that serves crawls over HTTP needs to know of its own
//! address: the host to bind to and the text of the address.

use crate::text::{append, ascii, copy, literal, same, COLON};
use crate::url::{decimal, Url};
use vstd::prelude::*;

verus! {

/// The host to bind to: `localhost` stands for the loopback address,
/// every other name for itself.
pub open spec fn bind_host_of(hostname: Seq<u8>) -> Seq<u8> {
    if hostname == ascii("localhost"@) {
        ascii("127.0.0.1"@)
    } else {
        hostname
    }
}

/// The address to listen on: the host to bind to, `:`, and the port.
pub open spec fn listen_address_of(hostname: Seq<u8>, port: u16) -> Seq<u8> {
    bind_host_of(hostname) + seq![COLON] + decimal(port as nat)
}

/// The host to bind to for a configured host name.
pub fn bind_host(hostname: &[u8]) -> (host: Vec<u8>)
    ensures
        host@ == bind_host_of(hostname@),
{
    proof {
        reveal_strlit("localhost");
        reveal_strlit("127.0.0.1");
    }
    if same(hostname, literal("localhost")) {
        copy(literal("127.0.0.1"))
    } else {
        copy(hostname)
    }
}

/// The address to listen on, as `host:port`.
pub fn listen_address(hostname: &[u8], port: u16) -> (address: Vec<u8>)
    ensures
        address@ == listen_address_of(hostname@, port),
{
    let mut address = bind_host(hostname);
    address.push(COLON);
    let digits = Url::port_digits(port);
    append(&mut address, digits.as_slice());
    address
}

} // verus!
