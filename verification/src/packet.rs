//! Packet values and their ordering inside the reassembly heap.

use vstd::prelude::*;

verus! {

use crate::heap::HeapOrd;

/// Direction of a packet within a flow.
#[derive(Clone, Copy, Debug, PartialEq, Eq, Structural)]
pub enum PktDirection {
    Client2Server,
    Server2Client,
}

/// Transport protocol of a flow.
#[derive(Clone, Copy, Debug, PartialEq, Eq, Structural)]
pub enum TransProto {
    Tcp,
}

/// Which application-layer parser a task drives.
#[derive(Clone, Copy, Debug, PartialEq, Eq, Structural)]
pub enum L7Proto {
    Read,
    Readline,
}

/// One transport segment as handed in by the host: ports, 32-bit sequence
/// number, SYN/FIN flags, payload bytes and direction. The engine never
/// parses headers itself.
#[derive(Clone, Debug, PartialEq, Eq)]
pub struct Packet {
    pub sport: u16,
    pub dport: u16,
    pub sequence: u32,
    pub syn_flag: bool,
    pub fin_flag: bool,
    pub data: Vec<u8>,
    pub direction: PktDirection,
}

/// A bare packet orders by its raw sequence number alone; streams instead
/// wrap packets in [`SeqPacket`] keyed by the lifted absolute position.
impl HeapOrd for Packet {
    open spec fn le_spec(&self, other: &Self) -> bool {
        self.sequence <= other.sequence
    }

    proof fn lemma_le_total(a: &Self, b: &Self) {
    }

    proof fn lemma_le_trans(a: &Self, b: &Self, c: &Self) {
    }

    fn le(&self, other: &Self) -> (r: bool) {
        self.sequence <= other.sequence
    }
}

/// A packet keyed for the reassembly heap.
///
/// `abs` is the packet's position in the unbounded absolute sequence space
/// (see [`crate::seqnum`]); `tie` breaks ties at equal positions so that a
/// SYN ranks before payload and a bare FIN after payload.
#[derive(Clone, Debug, PartialEq, Eq)]
pub struct SeqPacket {
    pub abs: u64,
    pub tie: u8,
    pub pkt: Packet,
}

/// Tie rank: SYN before payload, payload before a bare FIN.
pub open spec fn spec_tie_rank(pkt: &Packet) -> u8 {
    if pkt.syn_flag {
        0u8
    } else if pkt.fin_flag && pkt.data@.len() == 0 {
        2u8
    } else {
        1u8
    }
}

impl SeqPacket {
    /// Wraps a packet keyed by its raw sequence number (no lifting): the
    /// order of a standalone heap of packets from one sequence window.
    pub fn new(pkt: Packet) -> (r: Self)
        ensures
            r.abs == pkt.sequence as u64,
            r.tie == spec_tie_rank(&pkt),
            r.pkt == pkt,
    {
        let abs = pkt.sequence as u64;
        Self::with_abs(pkt, abs)
    }

    /// Wraps a packet keyed by an already-lifted absolute position.
    pub fn with_abs(pkt: Packet, abs: u64) -> (r: Self)
        ensures
            r.abs == abs,
            r.tie == spec_tie_rank(&pkt),
            r.pkt == pkt,
    {
        let tie: u8 = if pkt.syn_flag {
            0
        } else if pkt.fin_flag && pkt.data.len() == 0 {
            2
        } else {
            1
        };
        SeqPacket { abs, tie, pkt }
    }

    /// The wrapped packet.
    pub fn inner(&self) -> (r: &Packet)
        ensures
            r == &self.pkt,
    {
        &self.pkt
    }
}

/// Heap order: by absolute position, then by tie rank.
impl HeapOrd for SeqPacket {
    open spec fn le_spec(&self, other: &Self) -> bool {
        self.abs < other.abs || (self.abs == other.abs && self.tie <= other.tie)
    }

    proof fn lemma_le_total(a: &Self, b: &Self) {
    }

    proof fn lemma_le_trans(a: &Self, b: &Self, c: &Self) {
    }

    fn le(&self, other: &Self) -> (r: bool) {
        self.abs < other.abs || (self.abs == other.abs && self.tie <= other.tie)
    }
}

} // verus!
