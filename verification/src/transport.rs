//! Transport endpoints: where a server listens, and how large its per
//! connection receive and transmit buffers are. Serving them (binding,
//! accepting, reading and writing) is the program's part; every connection
//! is framed by [`crate::frame::Framer`].

use vstd::prelude::*;
use vstd::string::StringSliceAdditionalSpecFns;

verus! {

/// A Unix socket endpoint at a filesystem path. `RX` / `TX` size the read
/// and write buffers of each connection, in bytes.
pub struct UnixTransport<'a, const RX: usize, const TX: usize> {
    path: &'a str,
}

impl<'a> UnixTransport<'a, 1024, 1024> {
    /// An endpoint at `path` with 1024-byte buffers.
    pub fn new(path: &'a str) -> (t: Self)
        ensures
            t.spec_path().spec_bytes() == path.spec_bytes(),
    {
        Self::new_sized(path)
    }
}

impl<'a, const RX: usize, const TX: usize> UnixTransport<'a, RX, TX> {
    /// An endpoint at `path` with buffers of `RX` and `TX` bytes.
    pub fn new_sized(path: &'a str) -> (t: Self)
        ensures
            t.spec_path().spec_bytes() == path.spec_bytes(),
    {
        UnixTransport { path }
    }

    pub closed spec fn spec_path(&self) -> &'a str {
        self.path
    }

    /// The socket path.
    pub fn path(&self) -> (r: &'a str)
        ensures
            r.spec_bytes() == self.spec_path().spec_bytes(),
    {
        self.path
    }
}

/// A TCP endpoint at `host:port`.
pub struct TcpTransport<'a, const RX: usize, const TX: usize> {
    addr: &'a str,
}

impl<'a> TcpTransport<'a, 1024, 1024> {
    /// An endpoint at `addr` with 1024-byte buffers.
    pub fn new(addr: &'a str) -> (t: Self)
        ensures
            t.spec_addr().spec_bytes() == addr.spec_bytes(),
    {
        Self::new_sized(addr)
    }
}

impl<'a, const RX: usize, const TX: usize> TcpTransport<'a, RX, TX> {
    /// An endpoint at `addr` with buffers of `RX` and `TX` bytes.
    pub fn new_sized(addr: &'a str) -> (t: Self)
        ensures
            t.spec_addr().spec_bytes() == addr.spec_bytes(),
    {
        TcpTransport { addr }
    }

    pub closed spec fn spec_addr(&self) -> &'a str {
        self.addr
    }

    /// The listening address.
    pub fn addr(&self) -> (r: &'a str)
        ensures
            r.spec_bytes() == self.spec_addr().spec_bytes(),
    {
        self.addr
    }
}

/// A UDP endpoint at `host:port`: one datagram per request and per reply.
pub struct UdpTransport<'a, const RX: usize, const TX: usize> {
    addr: &'a str,
}

impl<'a> UdpTransport<'a, 1024, 1024> {
    /// An endpoint at `addr` with 1024-byte buffers.
    pub fn new(addr: &'a str) -> (t: Self)
        ensures
            t.spec_addr().spec_bytes() == addr.spec_bytes(),
    {
        Self::new_sized(addr)
    }
}

impl<'a, const RX: usize, const TX: usize> UdpTransport<'a, RX, TX> {
    /// An endpoint at `addr` with buffers of `RX` and `TX` bytes.
    pub fn new_sized(addr: &'a str) -> (t: Self)
        ensures
            t.spec_addr().spec_bytes() == addr.spec_bytes(),
    {
        UdpTransport { addr }
    }

    pub closed spec fn spec_addr(&self) -> &'a str {
        self.addr
    }

    /// The listening address.
    pub fn addr(&self) -> (r: &'a str)
        ensures
            r.spec_bytes() == self.spec_addr().spec_bytes(),
    {
        self.addr
    }
}

/// The standard-input / standard-output endpoint of a server that a host
/// spawns as a subprocess.
pub struct StdioTransport;

} // verus!
