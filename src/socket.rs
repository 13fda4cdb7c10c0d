//! Sockets of nodes, their ids, and the data-flow connections between them.
use vstd::prelude::*;
use crate::class::ClassRef;
use crate::node::{lemma_unpack, pack_u64, packed, unpack_u64, NodeId};

verus! {

/// ID of a socket, input or output: the node and the socket's index on that side.
#[derive(Debug, Clone, Copy, PartialEq, Eq, Structural, Hash)]
pub struct SocketId(pub NodeId, pub usize);

impl SocketId {
    /// The packed form: node id in the high 32 bits, socket index in the low 32.
    pub fn to_u64(&self) -> (r: u64)
        requires
            self.1 <= u32::MAX,
        ensures
            r == packed(self.0 as nat, self.1 as nat),
    {
        pack_u64(self.0, self.1 as u32)
    }

    pub fn from_u64(n: u64) -> (r: SocketId)
        ensures
            r.0 == n / 0x1_0000_0000,
            r.1 == n % 0x1_0000_0000,
    {
        let (node, idx) = unpack_u64(n);
        SocketId(node, idx as usize)
    }
}

/// ID of an input socket.
#[derive(Debug, Clone, Copy, PartialEq, Eq, Structural, Hash)]
pub struct InputSocketId(pub SocketId);

/// ID of an output socket.
#[derive(Debug, Clone, Copy, PartialEq, Eq, Structural, Hash)]
pub struct OutputSocketId(pub SocketId);

/// Input of a node, with the class it expects.
#[derive(Debug)]
pub struct InputSocket {
    pub class: ClassRef,
}

/// Output of a node, with the class it produces.
#[derive(Debug)]
pub struct OutputSocket {
    pub class: ClassRef,
}

/// A data-flow connection from an output socket to an input socket.
#[derive(Debug, Clone, Copy, PartialEq, Eq, Structural, Hash)]
pub struct Connection {
    pub output: OutputSocketId,
    pub input: InputSocketId,
}

/// Packing a socket id and unpacking it gives it back.
pub proof fn lemma_socket_id_round_trip(s: SocketId)
    requires
        s.1 <= u32::MAX,
    ensures
        packed(s.0 as nat, s.1 as nat) / 0x1_0000_0000 == s.0,
        packed(s.0 as nat, s.1 as nat) % 0x1_0000_0000 == s.1,
{
    lemma_unpack(s.0 as nat, s.1 as nat);
}

} // verus!
