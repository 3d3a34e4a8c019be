//! Protolens: passive reconstruction of application-layer byte streams from
//! out-of-order, fragmented transport packets, driving per-flow parsers over
//! the reassembled stream.

use vstd::prelude::*;

pub mod heap;

pub use heap::{Heap, HeapOrd};
pub use packet::{L7Proto, Packet, PktDirection, SeqPacket, TransProto};
pub use parser::read::{ReadCbFn, ReadParser, MAX_READ};
pub use parser::readline::{ReadLineCbFn, ReadlineParser};
pub use parser::PollOutcome;
pub use pktstrm::{CbEvent, PktStrm, StrmError, MAX_PKT_LEN};
pub use prolens::{deliver_events, deliver_raw, Prolens, Task, TaskState};

pub mod prolens;
pub mod parser;
pub mod pktstrm;
pub mod packet;
pub mod seqnum;

verus! {

/// Bytes per stream ring buffer.
pub const MAX_READ_BUFF: usize = 512;

/// Packets buffered per direction while waiting for their sequence space to
/// become contiguous.
pub const HEAP_CAP: usize = 32;

} // verus!
