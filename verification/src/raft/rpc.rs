use vstd::prelude::*;

verus! {

/// A peer reached over HTTP at a network address.
pub struct HttpPeer {
    addr: String,
}

impl HttpPeer {
    /// The peer's address.
    pub closed spec fn address(&self) -> Seq<char> {
        self.addr@
    }

    pub fn new(addr: String) -> (peer: Self)
        ensures
            peer.address() == addr@,
    {
        HttpPeer { addr }
    }

    /// The network address of the peer.
    pub fn addr(&self) -> (addr: &String)
        ensures
            addr@ == self.address(),
    {
        &self.addr
    }
}

} // verus!
