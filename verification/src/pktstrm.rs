//! The per-direction packet stream: a reassembly ring buffer fed from an
//! ordered packet heap, exposing byte-oriented pull primitives.
//!
//! `ingest` files an arriving packet; `fill` drains every packet that has
//! become sequence-contiguous into the ring buffer, emitting one raw event
//! per appended chunk. `read_err`, `readn`, `readline` and `peekline` pull
//! reassembled bytes out; when they cannot proceed they return
//! [`StrmError::Pending`] and the caller resumes the parser after the next
//! packet, [`StrmError::Eof`] once the stream has ended, or
//! [`StrmError::NoProgress`] when no progress will ever be possible (a full
//! buffer without a line terminator), which marks the flow stalled.

use vstd::prelude::*;

verus! {

use crate::heap::{Heap, HeapOrd};
use crate::packet::{spec_tie_rank, Packet, PktDirection, SeqPacket};
use crate::seqnum::{lift, lift_pos, SEQ_HALF, SEQ_LIMIT, SEQ_MOD};

/// Payloads above this length are host misuse (a transport segment cannot
/// carry more) and are dropped on ingest.
pub const MAX_PKT_LEN: usize = 65535;

/// Why a stream primitive did not return bytes.
#[derive(Clone, Copy, Debug, PartialEq, Eq, Structural)]
pub enum StrmError {
    /// Not enough contiguous bytes yet: suspend and retry after more packets.
    Pending,
    /// The stream ended (FIN drained): no bytes will ever arrive.
    Eof,
    /// No progress is possible (e.g. full buffer without a terminator): the
    /// flow is stalled and abandoned.
    NoProgress,
}

/// One callback-worthy event, in exact stream order.
#[derive(Clone, Debug, PartialEq, Eq)]
pub enum CbEvent {
    /// A contiguous chunk appended to the reassembled stream.
    Raw { data: Vec<u8>, seq: u32, dir: PktDirection },
    /// Bytes handed to the read parser.
    Read { data: Vec<u8>, seq: u32 },
    /// One line handed to the readline parser, terminator included.
    Line { data: Vec<u8>, seq: u32 },
}

/// Index of the first line feed in `s`, or `-1` when there is none.
pub open spec fn find_lf(s: Seq<u8>) -> int
    decreases s.len(),
{
    if s.len() == 0 {
        -1
    } else if s[0] == 10u8 {
        0
    } else if find_lf(s.skip(1)) < 0 {
        -1
    } else {
        find_lf(s.skip(1)) + 1
    }
}

/// Whether `s` holds a line feed.
pub open spec fn has_lf(s: Seq<u8>) -> bool {
    find_lf(s) >= 0
}

/// The first line of `s`, terminator included (empty when `s` holds none).
pub open spec fn next_line_of(s: Seq<u8>) -> Seq<u8> {
    s.take(find_lf(s) + 1)
}

/// `find_lf` finds a line feed with none before it, or reports none at all.
pub proof fn lemma_find_lf(s: Seq<u8>)
    ensures
        find_lf(s) >= 0 ==> {
            &&& 0 <= find_lf(s) < s.len()
            &&& s[find_lf(s)] == 10u8
            &&& forall|j: int| 0 <= j < find_lf(s) ==> s[j] != 10u8
        },
        find_lf(s) < 0 ==> forall|j: int| 0 <= j < s.len() ==> s[j] != 10u8,
    decreases s.len(),
{
    if s.len() == 0 {
    } else if s[0] == 10u8 {
    } else {
        let t = s.skip(1);
        lemma_find_lf(t);
        assert forall|j: int| 0 <= j < t.len() implies t[j] == s[j + 1] by {}
        if find_lf(t) >= 0 {
            assert(find_lf(s) == find_lf(t) + 1);
            assert(s[find_lf(s)] == t[find_lf(t)]);
            assert forall|j: int| 0 <= j < find_lf(s) implies s[j] != 10u8 by {
                if j >= 1 {
                    assert(t[j - 1] != 10u8);
                    assert(s[j] == t[j - 1]);
                }
            }
        } else {
            assert forall|j: int| 0 <= j < s.len() implies s[j] != 10u8 by {
                if j >= 1 {
                    assert(t[j - 1] != 10u8);
                    assert(s[j] == t[j - 1]);
                }
            }
        }
    }
}

/// Any position that is a line feed with none before it is `find_lf`.
pub proof fn lemma_find_lf_at(s: Seq<u8>, i: int)
    requires
        0 <= i < s.len(),
        s[i] == 10u8,
        forall|j: int| 0 <= j < i ==> s[j] != 10u8,
    ensures
        find_lf(s) == i,
    decreases s.len(),
{
    if i == 0 {
    } else {
        let t = s.skip(1);
        assert forall|j: int| 0 <= j < t.len() implies t[j] == s[j + 1] by {}
        assert(t[i - 1] == 10u8);
        assert forall|j: int| 0 <= j < i - 1 implies t[j] != 10u8 by {
            assert(t[j] == s[j + 1]);
        }
        lemma_find_lf_at(t, i - 1);
        assert(find_lf(s) == find_lf(t) + 1);
    }
}

/// `find_lf` never finds anything in a line-feed-free sequence.
pub proof fn lemma_find_lf_none(s: Seq<u8>)
    requires
        forall|j: int| 0 <= j < s.len() ==> s[j] != 10u8,
    ensures
        find_lf(s) < 0,
{
    lemma_find_lf(s);
    if find_lf(s) >= 0 {
        assert(s[find_lf(s)] != 10u8);
    }
}

/// The 32-bit sequence number at which a packet's payload begins: a SYN
/// consumes one sequence number, so payload follows it.
pub open spec fn pkt_eff_seq(pkt: &Packet) -> int {
    if pkt.syn_flag {
        (pkt.sequence as int + 1) % (SEQ_MOD as int)
    } else {
        pkt.sequence as int
    }
}

/// Executable form of [`pkt_eff_seq`].
fn eff_seq(pkt: &Packet) -> (r: u32)
    ensures
        r as int == pkt_eff_seq(pkt),
{
    if pkt.syn_flag {
        if pkt.sequence == 0xFFFF_FFFFu32 {
            proof {
                vstd::arithmetic::div_mod::lemma_small_mod(0nat, SEQ_MOD as nat);
            }
            0u32
        } else {
            proof {
                vstd::arithmetic::div_mod::lemma_small_mod(
                    (pkt.sequence + 1) as nat,
                    SEQ_MOD as nat,
                );
            }
            pkt.sequence + 1
        }
    } else {
        pkt.sequence
    }
}

/// Extracts from an event the payload and sequence number that a run of
/// kind `ex` must account for; `None` means the event belongs to another
/// kind and is passed over.
pub open spec fn ev_run(
    evs: Seq<CbEvent>,
    ex: spec_fn(CbEvent) -> Option<(Seq<u8>, int)>,
    start: int,
) -> Option<Seq<u8>>
    decreases evs.len(),
{
    if evs.len() == 0 {
        Some(Seq::<u8>::empty())
    } else {
        match ex(evs[0]) {
            Option::None => ev_run(evs.skip(1), ex, start),
            Option::Some((data, seq)) => {
                if seq == start % (SEQ_MOD as int) && data.len() >= 1 {
                    match ev_run(evs.skip(1), ex, start + data.len()) {
                        Option::Some(rest) => Option::Some(data + rest),
                        Option::None => Option::None,
                    }
                } else {
                    Option::None
                }
            },
        }
    }
}

/// The extractor selecting raw chunks of direction `dir`.
pub open spec fn raw_ex(dir: PktDirection) -> spec_fn(CbEvent) -> Option<(Seq<u8>, int)> {
    |e: CbEvent|
        match e {
            CbEvent::Raw { data, seq, dir: d } => if d == dir {
                Option::Some((data@, seq as int))
            } else {
                Option::None
            },
            _ => Option::None,
        }
}

/// The extractor selecting read-parser chunks.
pub open spec fn read_ex() -> spec_fn(CbEvent) -> Option<(Seq<u8>, int)> {
    |e: CbEvent|
        match e {
            CbEvent::Read { data, seq } => Option::Some((data@, seq as int)),
            _ => Option::None,
        }
}

/// The extractor selecting readline-parser lines.
pub open spec fn line_ex() -> spec_fn(CbEvent) -> Option<(Seq<u8>, int)> {
    |e: CbEvent|
        match e {
            CbEvent::Line { data, seq } => Option::Some((data@, seq as int)),
            _ => Option::None,
        }
}

/// `evs` is a gapless run of raw chunks for direction `dir` beginning at
/// absolute position `start`; when so, the reassembled bytes it carries.
/// Events of other kinds are passed over.
pub open spec fn raw_run(evs: Seq<CbEvent>, dir: PktDirection, start: int) -> Option<Seq<u8>> {
    ev_run(evs, raw_ex(dir), start)
}

/// Appending one fitting chunk of a run's kind extends its bytes.
pub proof fn lemma_ev_run_snoc(
    evs: Seq<CbEvent>,
    ex: spec_fn(CbEvent) -> Option<(Seq<u8>, int)>,
    start: int,
    bytes: Seq<u8>,
    ev: CbEvent,
)
    requires
        ev_run(evs, ex, start) == Some(bytes),
        ex(ev) is Some,
        ex(ev)->Some_0.1 == (start + bytes.len()) % (SEQ_MOD as int),
        ex(ev)->Some_0.0.len() >= 1,
    ensures
        ev_run(evs.push(ev), ex, start) == Some(bytes + ex(ev)->Some_0.0),
    decreases evs.len(),
{
    reveal_with_fuel(ev_run, 3);
    let data = ex(ev)->Some_0.0;
    if evs.len() == 0 {
        assert(evs.push(ev)[0] == ev);
        assert(evs.push(ev).skip(1) =~= Seq::<CbEvent>::empty());
        assert(ev_run(evs.push(ev).skip(1), ex, start + data.len()) == Some(
            Seq::<u8>::empty(),
        ));
        assert(bytes =~= Seq::<u8>::empty());
        assert(ev_run(evs.push(ev), ex, start) == Some(data + Seq::<u8>::empty()));
        assert(bytes + data =~= data + Seq::<u8>::empty());
    } else {
        assert(evs.push(ev)[0] == evs[0]);
        assert(evs.push(ev).skip(1) =~= evs.skip(1).push(ev));
        match ex(evs[0]) {
            Option::None => {
                lemma_ev_run_snoc(evs.skip(1), ex, start, bytes, ev);
            },
            Option::Some((d0, s0)) => {
                let rest = ev_run(evs.skip(1), ex, start + d0.len());
                assert(rest is Some);
                let rb = rest->Some_0;
                assert(bytes == d0 + rb);
                lemma_ev_run_snoc(evs.skip(1), ex, start + d0.len(), rb, ev);
                assert(bytes + data =~= d0 + (rb + data));
            },
        }
    }
}

/// A run over a concatenation is the concatenation of the runs.
pub proof fn lemma_ev_run_concat(
    evs: Seq<CbEvent>,
    ext: Seq<CbEvent>,
    ex: spec_fn(CbEvent) -> Option<(Seq<u8>, int)>,
    start: int,
)
    requires
        ev_run(evs, ex, start) is Some,
        ev_run(ext, ex, start + ev_run(evs, ex, start)->Some_0.len()) is Some,
    ensures
        ev_run(evs + ext, ex, start) == Some(
            ev_run(evs, ex, start)->Some_0 + ev_run(
                ext,
                ex,
                start + ev_run(evs, ex, start)->Some_0.len(),
            )->Some_0,
        ),
    decreases evs.len(),
{
    reveal_with_fuel(ev_run, 3);
    let b1 = ev_run(evs, ex, start)->Some_0;
    let b2 = ev_run(ext, ex, start + b1.len())->Some_0;
    if evs.len() == 0 {
        assert(evs + ext =~= ext);
        assert(b1 =~= Seq::<u8>::empty());
        assert(start + b1.len() == start);
        assert(b1 + b2 =~= b2);
    } else {
        assert((evs + ext)[0] == evs[0]);
        assert((evs + ext).skip(1) =~= evs.skip(1) + ext);
        match ex(evs[0]) {
            Option::None => {
                lemma_ev_run_concat(evs.skip(1), ext, ex, start);
            },
            Option::Some((d0, s0)) => {
                let r1 = ev_run(evs.skip(1), ex, start + d0.len())->Some_0;
                assert(b1 == d0 + r1);
                lemma_ev_run_concat(evs.skip(1), ext, ex, start + d0.len());
                assert(start + d0.len() + r1.len() == start + b1.len());
                assert(d0 + (r1 + b2) =~= (d0 + r1) + b2);
            },
        }
    }
}

/// A stretch of events that a run's kind passes over carries no bytes.
pub proof fn lemma_ev_run_all_skipped(
    ext: Seq<CbEvent>,
    ex: spec_fn(CbEvent) -> Option<(Seq<u8>, int)>,
    start: int,
)
    requires
        forall|j: int| 0 <= j < ext.len() ==> ex(#[trigger] ext[j]) is None,
    ensures
        ev_run(ext, ex, start) == Some(Seq::<u8>::empty()),
    decreases ext.len(),
{
    reveal_with_fuel(ev_run, 2);
    if ext.len() > 0 {
        assert(ex(ext[0]) is None);
        assert(forall|j: int| 0 <= j < ext.skip(1).len() ==> ex(#[trigger] ext.skip(1)[j])
            is None);
        lemma_ev_run_all_skipped(ext.skip(1), ex, start);
    }
}

/// Position `i` of the reassembled stream carries byte `b` as testified by a
/// buffered packet covering `i`.
pub open spec fn byte_from(ms: vstd::multiset::Multiset<SeqPacket>, i: int, b: u8) -> bool {
    exists|x: SeqPacket|
        #[trigger] ms.count(x) > 0 && x.abs <= i < x.abs + x.pkt.data@.len() && b == x.pkt.data@[i
            - x.abs]
}

/// Packet `x` carries the byte at absolute position `i`.
pub open spec fn covers(x: SeqPacket, i: int) -> bool {
    x.abs <= i < x.abs + x.pkt.data@.len()
}

/// Some buffered packet carries the byte at absolute position `i`.
pub open spec fn covered_by(ms: vstd::multiset::Multiset<SeqPacket>, i: int) -> bool {
    exists|y: SeqPacket| #[trigger] ms.count(y) > 0 && covers(y, i)
}

/// One direction's packet stream: heap of early packets, sliding ring
/// buffer of contiguous bytes, and end-of-stream state.
pub struct PktStrm {
    buf: Vec<u8>,
    head: usize,
    tail: usize,
    heap: Heap<SeqPacket>,
    next_abs: u64,
    seq_set: bool,
    fin_seen: bool,
    fin_abs: u64,
    stalled: bool,
    max_end: u64,
    dir: PktDirection,
    assembled: Ghost<Seq<u8>>,
}

impl PktStrm {
    /// The ring buffer's fixed capacity.
    pub closed spec fn spec_cap(&self) -> int {
        self.buf@.len() as int
    }

    /// The reassembled bytes not yet consumed by the parser.
    pub closed spec fn unread(&self) -> Seq<u8> {
        self.buf@.subrange(self.head as int, self.tail as int)
    }

    /// Every byte ever appended to the reassembled stream, in order.
    pub closed spec fn spec_assembled(&self) -> Seq<u8> {
        self.assembled@
    }

    /// Absolute position one past the last reassembled byte.
    pub closed spec fn spec_next_abs(&self) -> int {
        self.next_abs as int
    }

    /// Absolute position of the first unread byte.
    pub closed spec fn head_abs(&self) -> int {
        self.next_abs - (self.tail - self.head)
    }

    /// Whether the first packet has arrived and anchored the stream.
    pub closed spec fn spec_seq_set(&self) -> bool {
        self.seq_set
    }

    /// Whether a FIN has been observed (possibly ahead of the stream).
    pub closed spec fn spec_fin_seen(&self) -> bool {
        self.fin_seen
    }

    /// Absolute position one past the last byte of the stream, once FIN seen.
    pub closed spec fn spec_fin_abs(&self) -> int {
        self.fin_abs as int
    }

    /// No byte will ever be appended again: FIN seen and reached.
    pub closed spec fn at_fin(&self) -> bool {
        self.fin_seen && self.next_abs >= self.fin_abs
    }

    /// The stream is fully consumed: FIN reached and every byte read.
    pub closed spec fn spec_fin_done(&self) -> bool {
        self.at_fin() && self.head == self.tail
    }

    /// The flow is stalled (heap overflow or undeliverable line): dead.
    pub closed spec fn spec_stalled(&self) -> bool {
        self.stalled
    }

    /// Number of packets waiting in the reassembly heap.
    pub closed spec fn heap_len(&self) -> int {
        self.heap.spec_len()
    }

    /// The packets waiting in the reassembly heap, as a multiset.
    pub closed spec fn heap_ms(&self) -> vstd::multiset::Multiset<SeqPacket> {
        self.heap.ms()
    }

    /// Upper bound on the absolute end of every packet seen so far.
    pub closed spec fn spec_max_end(&self) -> int {
        self.max_end as int
    }

    /// This stream's direction.
    pub closed spec fn spec_dir(&self) -> PktDirection {
        self.dir
    }

    /// A packet waiting in the heap is a payload chunk inside the window.
    spec fn heap_elem_ok(&self, x: SeqPacket) -> bool {
        &&& x.pkt.data@.len() >= 1
        &&& x.pkt.data@.len() <= MAX_PKT_LEN
        &&& x.abs >= SEQ_HALF
        &&& x.abs + x.pkt.data@.len() <= self.max_end
    }

    /// Structural invariant of the stream.
    pub closed spec fn wf(&self) -> bool {
        &&& 2 <= self.buf@.len() <= 0x4000_0000
        &&& self.head <= self.tail <= self.buf@.len()
        &&& self.heap.wf()
        &&& self.heap.spec_capacity() >= 1
        &&& SEQ_MOD <= self.next_abs <= self.max_end
        &&& self.max_end < SEQ_LIMIT + SEQ_MOD
        &&& self.fin_seen ==> self.fin_abs >= SEQ_HALF
        &&& forall|x: SeqPacket| self.heap.ms().count(x) > 0 ==> #[trigger] self.heap_elem_ok(x)
        &&& self.assembled@.len() >= self.tail - self.head
        &&& self.unread() == self.assembled@.skip(self.assembled@.len() - (self.tail - self.head))
        &&& !self.seq_set ==> {
            &&& self.heap.spec_len() == 0
            &&& self.head == 0 && self.tail == 0
            &&& !self.fin_seen
            &&& self.assembled@.len() == 0
            &&& self.next_abs == SEQ_MOD && self.max_end == SEQ_MOD
        }
    }

    /// A stream that no packet has anchored yet buffers nothing.
    pub proof fn lemma_unanchored_empty(&self)
        requires
            self.wf(),
            !self.spec_seq_set(),
        ensures
            forall|x: SeqPacket| self.heap_ms().count(x) == 0,
    {
        self.heap.lemma_empty_ms();
    }

    /// Bounds every well-formed stream obeys: fixed buffer, bounded heap.
    pub proof fn lemma_wf_bounds(&self)
        requires
            self.wf(),
        ensures
            2 <= self.spec_cap() <= 0x4000_0000,
            self.unread().len() <= self.spec_cap(),
            0 <= self.heap_len() <= self.heap_capacity(),
            self.spec_assembled().len() >= self.unread().len(),
            SEQ_MOD as int <= self.spec_next_abs() <= self.spec_max_end(),
    {
        self.heap.lemma_len_le_cap();
    }

    /// Heap-element validity carries over between states that share the
    /// same heap contents and window bound.
    proof fn lemma_heap_elems_carry(pre: &PktStrm, post: &PktStrm)
        requires
            pre.heap.ms() == post.heap.ms(),
            pre.max_end == post.max_end,
            forall|x: SeqPacket| pre.heap.ms().count(x) > 0 ==> #[trigger] pre.heap_elem_ok(x),
        ensures
            forall|x: SeqPacket| post.heap.ms().count(x) > 0 ==> #[trigger] post.heap_elem_ok(x),
    {
        assert forall|x: SeqPacket| post.heap.ms().count(x) > 0 implies #[trigger] post.heap_elem_ok(
            x,
        ) by {
            assert(pre.heap_elem_ok(x));
        }
    }

    /// Creates an empty stream with the given buffer capacity and heap
    /// capacity for one direction.
    pub fn new(cap: usize, heap_cap: usize, dir: PktDirection) -> (r: Self)
        requires
            2 <= cap <= 0x4000_0000,
            1 <= heap_cap <= 0x1000_0000,
        ensures
            r.wf(),
            r.spec_cap() == cap,
            r.heap_len() == 0,
            r.heap_ms() == vstd::multiset::Multiset::<SeqPacket>::empty(),
            r.unread() == Seq::<u8>::empty(),
            r.spec_assembled() == Seq::<u8>::empty(),
            !r.spec_seq_set(),
            !r.spec_fin_seen(),
            !r.at_fin(),
            !r.spec_stalled(),
            !r.spec_fin_done(),
            r.spec_dir() == dir,
            r.heap_capacity() == heap_cap,
    {
        let r = PktStrm {
            buf: alloc_zeroed(cap),
            head: 0,
            tail: 0,
            heap: Heap::new(heap_cap),
            next_abs: SEQ_MOD,
            seq_set: false,
            fin_seen: false,
            fin_abs: 0,
            stalled: false,
            max_end: SEQ_MOD,
            dir,
            assembled: Ghost(Seq::empty()),
        };
        proof {
            assert(r.unread() =~= Seq::<u8>::empty());
            assert(r.unread() =~= r.assembled@.skip(0));
        }
        r
    }

    /// The heap's fixed capacity.
    pub closed spec fn heap_capacity(&self) -> int {
        self.heap.spec_capacity()
    }

    /// Whether the stream has fully ended and been consumed.
    pub fn fin(&self) -> (r: bool)
        requires
            self.wf(),
        ensures
            r == self.spec_fin_done(),
            r ==> self.at_fin() && self.unread().len() == 0,
    {
        self.fin_seen && self.head == self.tail && self.next_abs >= self.fin_abs
    }

    /// The number of reassembled bytes ready to be read.
    pub fn avail(&self) -> (r: usize)
        requires
            self.wf(),
        ensures
            r == self.unread().len(),
    {
        self.tail - self.head
    }

    /// Whether this flow has been marked stalled (dead).
    pub fn is_stalled(&self) -> (r: bool)
        ensures
            r == self.spec_stalled(),
    {
        self.stalled
    }

    /// Shifts the unread bytes to the front of the buffer to make room at
    /// the tail.
    fn compact(&mut self)
        requires
            old(self).wf(),
        ensures
            final(self).wf(),
            final(self).unread() == old(self).unread(),
            final(self).spec_assembled() == old(self).spec_assembled(),
            final(self).head_abs() == old(self).head_abs(),
            final(self).spec_next_abs() == old(self).spec_next_abs(),
            final(self).spec_cap() == old(self).spec_cap(),
            final(self).heap == old(self).heap,
            final(self).spec_seq_set() == old(self).spec_seq_set(),
            final(self).spec_fin_seen() == old(self).spec_fin_seen(),
            final(self).spec_fin_abs() == old(self).spec_fin_abs(),
            final(self).spec_stalled() == old(self).spec_stalled(),
            final(self).spec_max_end() == old(self).spec_max_end(),
            final(self).spec_dir() == old(self).spec_dir(),
            final(self).tail_room() == final(self).spec_cap() - (old(self).tail
                - old(self).head),
    {
        let n = self.tail - self.head;
        let ghost orig = self.buf@;
        let ghost h = self.head as int;
        let mut k: usize = 0;
        while k < n
            invariant
                n == self.tail - self.head,
                self.head <= self.tail <= self.buf@.len(),
                k <= n,
                self.buf@.len() == orig.len(),
                forall|j: int| 0 <= j < k ==> self.buf@[j] == orig[h + j],
                forall|j: int| k <= j < n ==> #[trigger] self.buf@[h + j] == orig[h + j],
                h == self.head as int,
                self.head == old(self).head,
                self.tail == old(self).tail,
                self.heap == old(self).heap,
                self.next_abs == old(self).next_abs,
                self.seq_set == old(self).seq_set,
                self.fin_seen == old(self).fin_seen,
                self.fin_abs == old(self).fin_abs,
                self.stalled == old(self).stalled,
                self.max_end == old(self).max_end,
                self.dir == old(self).dir,
                self.assembled == old(self).assembled,
            decreases n - k,
        {
            let b = self.buf[self.head + k];
            self.buf[k] = b;
            k += 1;
        }
        self.head = 0;
        self.tail = n;
        proof {
            assert(self.unread() =~= old(self).unread());
            assert(self.unread() =~= self.assembled@.skip(
                self.assembled@.len() - (self.tail - self.head),
            ));
            Self::lemma_heap_elems_carry(old(self), self);
        }
    }

    /// Free space at the physical end of the buffer.
    pub closed spec fn tail_room(&self) -> int {
        self.buf@.len() - self.tail
    }

    /// Finds the first line feed among the unread bytes.
    fn scan_lf(&self) -> (r: Option<usize>)
        requires
            self.wf(),
        ensures
            match r {
                Some(i) => i == find_lf(self.unread()) && i < self.tail - self.head,
                None => !has_lf(self.unread()),
            },
    {
        let mut i: usize = self.head;
        while i < self.tail
            invariant
                self.wf(),
                self.head <= i <= self.tail,
                forall|j: int| 0 <= j < i - self.head ==> self.unread()[j] != 10u8,
            decreases self.tail - i,
        {
            if self.buf[i] == 10u8 {
                proof {
                    assert(self.unread()[i - self.head] == 10u8);
                    lemma_find_lf_at(self.unread(), i - self.head);
                }
                return Some(i - self.head);
            }
            proof {
                assert(self.unread()[i - self.head] == self.buf@[i as int]);
            }
            i += 1;
        }
        proof {
            lemma_find_lf_none(self.unread());
        }
        None
    }

    /// Copies `n` unread bytes starting at the head into a fresh vector,
    /// without consuming them.
    fn copy_front(&self, n: usize) -> (r: Vec<u8>)
        requires
            self.wf(),
            n <= self.tail - self.head,
        ensures
            r@ == self.unread().take(n as int),
    {
        let mut out: Vec<u8> = Vec::new();
        let mut k: usize = 0;
        while k < n
            invariant
                self.wf(),
                k <= n <= self.tail - self.head,
                out@ == self.unread().take(k as int),
            decreases n - k,
        {
            let b = self.buf[self.head + k];
            proof {
                assert(self.unread()[k as int] == self.buf@[self.head + k]);
            }
            out.push(b);
            proof {
                assert(out@ =~= self.unread().take(k + 1));
            }
            k += 1;
        }
        out
    }

    /// The 32-bit sequence number of the first unread byte.
    fn head_seq(&self) -> (r: u32)
        requires
            self.wf(),
        ensures
            r as int == self.head_abs() % (SEQ_MOD as int),
    {
        let off = (self.tail - self.head) as u64;
        ((self.next_abs - off) % SEQ_MOD) as u32
    }

    /// Consumes `n` unread bytes.
    fn consume(&mut self, n: usize)
        requires
            old(self).wf(),
            n <= old(self).tail - old(self).head,
        ensures
            final(self).wf(),
            final(self).unread() == old(self).unread().skip(n as int),
            final(self).head_abs() == old(self).head_abs() + n,
            final(self).spec_assembled() == old(self).spec_assembled(),
            final(self).spec_next_abs() == old(self).spec_next_abs(),
            final(self).spec_cap() == old(self).spec_cap(),
            final(self).heap == old(self).heap,
            final(self).spec_seq_set() == old(self).spec_seq_set(),
            final(self).spec_fin_seen() == old(self).spec_fin_seen(),
            final(self).spec_fin_abs() == old(self).spec_fin_abs(),
            final(self).spec_stalled() == old(self).spec_stalled(),
            final(self).spec_max_end() == old(self).spec_max_end(),
            final(self).spec_dir() == old(self).spec_dir(),
            final(self).at_fin() == old(self).at_fin(),
    {
        self.head = self.head + n;
        proof {
            assert(self.unread() =~= old(self).unread().skip(n as int));
            assert(self.unread() =~= self.assembled@.skip(
                self.assembled@.len() - (self.tail - self.head),
            ));
            Self::lemma_heap_elems_carry(old(self), self);
        }
    }

    /// Pulls up to `max` reassembled bytes (at least one), together with the
    /// sequence number of the first; `Eof` once the stream has ended, and
    /// `Pending` while more bytes may still arrive.
    pub fn read_err(&mut self, max: usize) -> (r: Result<(Vec<u8>, u32), StrmError>)
        requires
            old(self).wf(),
            max >= 1,
        ensures
            final(self).wf(),
            final(self).spec_assembled() == old(self).spec_assembled(),
            final(self).spec_next_abs() == old(self).spec_next_abs(),
            final(self).spec_cap() == old(self).spec_cap(),
            final(self).heap_ms() == old(self).heap_ms(),
            final(self).heap_len() == old(self).heap_len(),
            final(self).heap_capacity() == old(self).heap_capacity(),
            final(self).at_fin() == old(self).at_fin(),
            final(self).spec_fin_seen() == old(self).spec_fin_seen(),
            final(self).spec_fin_abs() == old(self).spec_fin_abs(),
            final(self).spec_stalled() == old(self).spec_stalled(),
            final(self).spec_max_end() == old(self).spec_max_end(),
            final(self).spec_dir() == old(self).spec_dir(),
            final(self).spec_seq_set() == old(self).spec_seq_set(),
            match r {
                Ok((bytes, seq)) => {
                    &&& !old(self).spec_stalled()
                    &&& old(self).unread().len() >= 1
                    &&& bytes@.len() == vstd::math::min(old(self).unread().len() as int, max as int)
                    &&& bytes@ == old(self).unread().take(bytes@.len() as int)
                    &&& seq as int == old(self).head_abs() % (SEQ_MOD as int)
                    &&& final(self).unread() == old(self).unread().skip(bytes@.len() as int)
                    &&& final(self).head_abs() == old(self).head_abs() + bytes@.len()
                },
                Err(e) => {
                    &&& *final(self) == *old(self)
                    &&& if old(self).spec_stalled() {
                        e == StrmError::NoProgress
                    } else if old(self).unread().len() >= 1 {
                        false
                    } else if old(self).at_fin() {
                        e == StrmError::Eof
                    } else {
                        e == StrmError::Pending
                    }
                },
            },
    {
        if self.stalled {
            return Err(StrmError::NoProgress);
        }
        let avail = self.tail - self.head;
        if avail == 0 {
            if self.fin_seen && self.next_abs >= self.fin_abs {
                return Err(StrmError::Eof);
            }
            return Err(StrmError::Pending);
        }
        let n = if avail < max {
            avail
        } else {
            max
        };
        let bytes = self.copy_front(n);
        let seq = self.head_seq();
        self.consume(n);
        Ok((bytes, seq))
    }

    /// Pulls exactly `n` reassembled bytes. Fails with `NoProgress` (and
    /// stalls the flow) when `n` exceeds the buffer capacity, with `Eof`
    /// when the stream ends before `n` bytes exist, and suspends otherwise.
    pub fn readn(&mut self, n: usize) -> (r: Result<(Vec<u8>, u32), StrmError>)
        requires
            old(self).wf(),
            n >= 1,
        ensures
            final(self).wf(),
            final(self).spec_assembled() == old(self).spec_assembled(),
            final(self).spec_next_abs() == old(self).spec_next_abs(),
            final(self).spec_cap() == old(self).spec_cap(),
            final(self).heap_ms() == old(self).heap_ms(),
            final(self).heap_len() == old(self).heap_len(),
            final(self).heap_capacity() == old(self).heap_capacity(),
            final(self).at_fin() == old(self).at_fin(),
            final(self).spec_fin_seen() == old(self).spec_fin_seen(),
            final(self).spec_fin_abs() == old(self).spec_fin_abs(),
            final(self).spec_max_end() == old(self).spec_max_end(),
            final(self).spec_dir() == old(self).spec_dir(),
            final(self).spec_seq_set() == old(self).spec_seq_set(),
            match r {
                Ok((bytes, seq)) => {
                    &&& !old(self).spec_stalled()
                    &&& n <= old(self).spec_cap()
                    &&& old(self).unread().len() >= n
                    &&& bytes@ == old(self).unread().take(n as int)
                    &&& seq as int == old(self).head_abs() % (SEQ_MOD as int)
                    &&& final(self).unread() == old(self).unread().skip(n as int)
                    &&& final(self).head_abs() == old(self).head_abs() + n
                    &&& final(self).spec_stalled() == old(self).spec_stalled()
                },
                Err(e) => {
                    &&& final(self).unread() == old(self).unread()
                    &&& final(self).head_abs() == old(self).head_abs()
                    &&& if old(self).spec_stalled() {
                        e == StrmError::NoProgress && *final(self) == *old(self)
                    } else if n > old(self).spec_cap() {
                        e == StrmError::NoProgress && final(self).spec_stalled()
                    } else if old(self).unread().len() >= n {
                        false
                    } else if old(self).at_fin() {
                        e == StrmError::Eof && *final(self) == *old(self)
                    } else {
                        e == StrmError::Pending && *final(self) == *old(self)
                    }
                },
            },
    {
        if self.stalled {
            return Err(StrmError::NoProgress);
        }
        if n > self.buf.len() {
            self.stalled = true;
            proof {
                assert(self.unread() =~= old(self).unread());
                Self::lemma_heap_elems_carry(old(self), self);
            }
            return Err(StrmError::NoProgress);
        }
        let avail = self.tail - self.head;
        if avail < n {
            if self.fin_seen && self.next_abs >= self.fin_abs {
                return Err(StrmError::Eof);
            }
            return Err(StrmError::Pending);
        }
        let bytes = self.copy_front(n);
        let seq = self.head_seq();
        self.consume(n);
        Ok((bytes, seq))
    }

    /// Returns the next line, terminator included, without consuming it.
    /// The line the subsequent `readline` returns is byte-identical.
    pub fn peekline(&self) -> (r: Result<(Vec<u8>, u32), StrmError>)
        requires
            self.wf(),
        ensures
            match r {
                Ok((line, seq)) => {
                    &&& !self.spec_stalled()
                    &&& has_lf(self.unread())
                    &&& line@ == next_line_of(self.unread())
                    &&& line@.len() >= 1
                    &&& line@.last() == 10u8
                    &&& seq as int == self.head_abs() % (SEQ_MOD as int)
                },
                Err(e) => {
                    &&& if self.spec_stalled() {
                        e == StrmError::NoProgress
                    } else if has_lf(self.unread()) {
                        false
                    } else if self.unread().len() == self.spec_cap() {
                        e == StrmError::NoProgress
                    } else if self.at_fin() {
                        e == StrmError::Eof
                    } else {
                        e == StrmError::Pending
                    }
                },
            },
    {
        if self.stalled {
            return Err(StrmError::NoProgress);
        }
        match self.scan_lf() {
            Some(i) => {
                proof {
                    lemma_find_lf(self.unread());
                }
                let line = self.copy_front(i + 1);
                let seq = self.head_seq();
                proof {
                    assert(line@.last() == self.unread()[i as int]);
                }
                Ok((line, seq))
            },
            None => {
                if self.tail - self.head == self.buf.len() {
                    Err(StrmError::NoProgress)
                } else if self.fin_seen && self.next_abs >= self.fin_abs {
                    Err(StrmError::Eof)
                } else {
                    Err(StrmError::Pending)
                }
            },
        }
    }

    /// Pulls the next line, terminator included (`\n`, preceded by `\r` when
    /// the stream has one), with the sequence number of its first byte.
    /// A full buffer without a terminator stalls the flow (`NoProgress`);
    /// the end of the stream without a terminator is `Eof` (a trailing
    /// fragment without a line feed is never delivered); otherwise the
    /// caller suspends on `Pending`.
    pub fn readline(&mut self) -> (r: Result<(Vec<u8>, u32), StrmError>)
        requires
            old(self).wf(),
        ensures
            final(self).wf(),
            final(self).spec_assembled() == old(self).spec_assembled(),
            final(self).spec_next_abs() == old(self).spec_next_abs(),
            final(self).spec_cap() == old(self).spec_cap(),
            final(self).heap_ms() == old(self).heap_ms(),
            final(self).heap_len() == old(self).heap_len(),
            final(self).heap_capacity() == old(self).heap_capacity(),
            final(self).at_fin() == old(self).at_fin(),
            final(self).spec_fin_seen() == old(self).spec_fin_seen(),
            final(self).spec_fin_abs() == old(self).spec_fin_abs(),
            final(self).spec_max_end() == old(self).spec_max_end(),
            final(self).spec_dir() == old(self).spec_dir(),
            final(self).spec_seq_set() == old(self).spec_seq_set(),
            match r {
                Ok((line, seq)) => {
                    &&& !old(self).spec_stalled()
                    &&& has_lf(old(self).unread())
                    &&& line@ == next_line_of(old(self).unread())
                    &&& line@.len() >= 1
                    &&& line@.last() == 10u8
                    &&& seq as int == old(self).head_abs() % (SEQ_MOD as int)
                    &&& final(self).unread() == old(self).unread().skip(line@.len() as int)
                    &&& final(self).head_abs() == old(self).head_abs() + line@.len()
                    &&& !final(self).spec_stalled()
                },
                Err(e) => {
                    &&& final(self).unread() == old(self).unread()
                    &&& final(self).head_abs() == old(self).head_abs()
                    &&& if old(self).spec_stalled() {
                        e == StrmError::NoProgress && *final(self) == *old(self)
                    } else if has_lf(old(self).unread()) {
                        false
                    } else if old(self).unread().len() == old(self).spec_cap() {
                        e == StrmError::NoProgress && final(self).spec_stalled()
                    } else if old(self).at_fin() {
                        e == StrmError::Eof && *final(self) == *old(self)
                    } else {
                        e == StrmError::Pending && *final(self) == *old(self)
                    }
                },
            },
    {
        if self.stalled {
            return Err(StrmError::NoProgress);
        }
        match self.scan_lf() {
            Some(i) => {
                proof {
                    lemma_find_lf(self.unread());
                }
                let line = self.copy_front(i + 1);
                let seq = self.head_seq();
                proof {
                    assert(line@.last() == self.unread()[i as int]);
                }
                self.consume(i + 1);
                Ok((line, seq))
            },
            None => {
                if self.tail - self.head == self.buf.len() {
                    self.stalled = true;
                    proof {
                        assert(self.unread() =~= old(self).unread());
                        Self::lemma_heap_elems_carry(old(self), self);
                    }
                    Err(StrmError::NoProgress)
                } else if self.fin_seen && self.next_abs >= self.fin_abs {
                    Err(StrmError::Eof)
                } else {
                    Err(StrmError::Pending)
                }
            },
        }
    }

    /// The absolute position where `pkt`'s payload would start on this
    /// stream (meaningful once the stream is anchored).
    pub open spec fn pkt_start(&self, pkt: &Packet) -> int {
        lift_pos(self.spec_next_abs(), pkt_eff_seq(pkt))
    }

    /// One past the absolute position of `pkt`'s last payload byte.
    pub open spec fn pkt_end(&self, pkt: &Packet) -> int {
        self.pkt_start(pkt) + pkt.data@.len()
    }

    /// Wrap-around transparency: two anchored streams whose absolute
    /// positions differ by `d` place data packets whose 32-bit sequence
    /// numbers differ by `d` (through the wrapping sequence space) at
    /// absolute starts that differ by exactly `d`. A flow starting anywhere
    /// in the sequence space, crossing zero or not, is reassembled as the
    /// same flow started at zero, shifted.
    pub proof fn lemma_pkt_start_shift(
        s1: &PktStrm,
        s2: &PktStrm,
        p1: &Packet,
        p2: &Packet,
        d: int,
    )
        requires
            d >= 0,
            s1.spec_next_abs() >= 0,
            s2.spec_next_abs() == s1.spec_next_abs() + d,
            p2.sequence as int == ((p1.sequence as int) + d) % (SEQ_MOD as int),
            !p1.syn_flag,
            !p2.syn_flag,
        ensures
            s2.pkt_start(p2) == s1.pkt_start(p1) + d,
    {
        crate::seqnum::lemma_shifted_flow(s1.spec_next_abs(), p1.sequence as int, d);
        crate::seqnum::lemma_lift_shift(
            s1.spec_next_abs(),
            s2.spec_next_abs(),
            p1.sequence as int,
            p2.sequence as int,
        );
    }

    /// Whether this stream takes any notice of `pkt` at all.
    pub open spec fn accepts(&self, pkt: &Packet) -> bool {
        &&& !self.spec_stalled()
        &&& pkt.data@.len() <= MAX_PKT_LEN
        &&& self.spec_next_abs() < SEQ_LIMIT as int
    }

    /// Appends `chunk` at the tail of the ring buffer (compacting first when
    /// the tail lacks room), advancing the reassembled stream.
    fn append_bytes(&mut self, chunk: &Vec<u8>)
        requires
            old(self).wf(),
            1 <= chunk@.len(),
            old(self).tail - old(self).head + chunk@.len() <= old(self).buf@.len(),
            old(self).next_abs + chunk@.len() <= old(self).max_end,
        ensures
            final(self).wf(),
            final(self).unread() == old(self).unread() + chunk@,
            final(self).spec_assembled() == old(self).spec_assembled() + chunk@,
            final(self).spec_next_abs() == old(self).spec_next_abs() + chunk@.len(),
            final(self).head_abs() == old(self).head_abs(),
            final(self).spec_cap() == old(self).spec_cap(),
            final(self).heap == old(self).heap,
            final(self).spec_seq_set() == old(self).spec_seq_set(),
            final(self).spec_fin_seen() == old(self).spec_fin_seen(),
            final(self).spec_fin_abs() == old(self).spec_fin_abs(),
            final(self).spec_stalled() == old(self).spec_stalled(),
            final(self).spec_max_end() == old(self).spec_max_end(),
            final(self).spec_dir() == old(self).spec_dir(),
    {
        let n = chunk.len();
        if self.buf.len() - self.tail < n {
            self.compact();
        }
        let ghost mid = *self;
        let t = self.tail;
        let buflen = self.buf.len();
        let mut k: usize = 0;
        while k < n
            invariant
                n == chunk@.len(),
                k <= n,
                t == self.tail,
                t == mid.tail,
                self.head == mid.head,
                self.head <= self.tail,
                t + n <= buflen,
                buflen == self.buf@.len(),
                self.buf@.len() == mid.buf@.len(),
                forall|j: int| 0 <= j < k ==> #[trigger] self.buf@[t + j] == chunk@[j],
                forall|j: int| 0 <= j < t ==> #[trigger] self.buf@[j] == mid.buf@[j],
                self.heap == mid.heap,
                self.next_abs == mid.next_abs,
                self.seq_set == mid.seq_set,
                self.fin_seen == mid.fin_seen,
                self.fin_abs == mid.fin_abs,
                self.stalled == mid.stalled,
                self.max_end == mid.max_end,
                self.dir == mid.dir,
                self.assembled == mid.assembled,
            decreases n - k,
        {
            let b = chunk[k];
            self.buf[t + k] = b;
            k += 1;
        }
        self.tail = t + n;
        self.next_abs = self.next_abs + (n as u64);
        self.assembled = Ghost(self.assembled@ + chunk@);
        proof {
            assert forall|idx: int| 0 <= idx < self.tail - self.head implies self.unread()[idx]
                == (mid.unread() + chunk@)[idx] by {
                if idx < t - self.head {
                    assert(self.buf@[self.head + idx] == mid.buf@[self.head + idx]);
                } else {
                    assert(self.buf@[t + (idx - (t - self.head))] == chunk@[idx - (t
                        - self.head)]);
                }
            }
            assert(self.unread() =~= mid.unread() + chunk@);
            assert(mid.unread() == old(self).unread());
            assert(self.unread() =~= self.assembled@.skip(
                self.assembled@.len() - (self.tail - self.head),
            ));
            Self::lemma_heap_elems_carry(old(self), self);
        }
    }

    /// Files one arriving packet: anchors the stream on its first packet,
    /// applies SYN/FIN numbering, ignores duplicate SYNs, drops oversized
    /// and post-FIN segments outright, and buffers the payload in the
    /// reassembly heap (stale segments are left for the drain to discard,
    /// except that fully stale ones are dropped at once). A full heap
    /// stalls the flow, which is flow-fatal. Bytes only become readable
    /// through the next `fill`.
    pub fn ingest(&mut self, pkt: Packet)
        requires
            old(self).wf(),
        ensures
            final(self).wf(),
            final(self).unread() == old(self).unread(),
            final(self).spec_assembled() == old(self).spec_assembled(),
            old(self).spec_seq_set() ==> final(self).head_abs() == old(self).head_abs(),
            final(self).spec_cap() == old(self).spec_cap(),
            final(self).spec_dir() == old(self).spec_dir(),
            final(self).heap_capacity() == old(self).heap_capacity(),
            old(self).spec_seq_set() ==> final(self).spec_next_abs() == old(self).spec_next_abs()
                && final(self).spec_seq_set(),
            // a stalled flow and host misuse swallow the packet whole
            old(self).spec_stalled() || pkt.data@.len() > MAX_PKT_LEN ==> *final(self) == *old(self),
            // sequence-space exhaustion stalls the flow
            !old(self).spec_stalled() && pkt.data@.len() <= MAX_PKT_LEN && old(self).spec_next_abs() >= SEQ_LIMIT as int ==> final(self).spec_stalled() && final(self).heap_ms() == old(self).heap_ms(),
            // the first packet anchors the stream
            old(self).accepts(&pkt) && !old(self).spec_seq_set() ==> {
                &&& final(self).spec_seq_set()
                &&& final(self).spec_next_abs() == SEQ_MOD as int + pkt_eff_seq(&pkt)
                &&& final(self).spec_fin_seen() == pkt.fin_flag
                &&& (pkt.fin_flag ==> final(self).spec_fin_abs() == final(self).spec_next_abs()
                    + pkt.data@.len())
                &&& (pkt.data@.len() == 0 ==> final(self).heap_len() == 0 && !final(self).spec_stalled())
                &&& (pkt.data@.len() >= 1 ==> final(self).heap_ms() == old(self).heap_ms().insert(
                    SeqPacket {
                        abs: (SEQ_MOD as int + pkt_eff_seq(&pkt)) as u64,
                        tie: spec_tie_rank(&pkt),
                        pkt: pkt,
                    },
                ) && !final(self).spec_stalled())
            },
            // later packets leave the anchor alone
            old(self).accepts(&pkt) && old(self).spec_seq_set() ==> {
                &&& final(self).spec_next_abs() == old(self).spec_next_abs()
                &&& final(self).spec_seq_set()
            },
            // a duplicate bare SYN is ignored
            old(self).accepts(&pkt) && old(self).spec_seq_set() && pkt.syn_flag
                && pkt.data@.len() == 0 ==> *final(self) == *old(self),
            // FIN numbering is recorded exactly once
            old(self).accepts(&pkt) && old(self).spec_seq_set() && !(pkt.syn_flag
                && pkt.data@.len() == 0) ==> {
                &&& final(self).spec_fin_seen() == (old(self).spec_fin_seen() || pkt.fin_flag)
                &&& (old(self).spec_fin_seen() ==> final(self).spec_fin_abs() == old(self).spec_fin_abs())
                &&& (!old(self).spec_fin_seen() && pkt.fin_flag ==> final(self).spec_fin_abs()
                    == old(self).pkt_end(&pkt))
            },
            // what reaches the heap, exactly
            old(self).accepts(&pkt) && old(self).spec_seq_set() && !(pkt.syn_flag
                && pkt.data@.len() == 0) ==> {
                let start = old(self).pkt_start(&pkt);
                let dropped = pkt.data@.len() == 0 || (final(self).spec_fin_seen() && start
                    >= final(self).spec_fin_abs()) || old(self).pkt_end(&pkt) <= old(self).spec_next_abs();
                &&& (dropped ==> final(self).heap_ms() == old(self).heap_ms() && final(self).spec_stalled() == old(self).spec_stalled() && final(self).spec_max_end() == old(self).spec_max_end())
                &&& (!dropped && old(self).heap_len() < old(self).heap_capacity() ==> final(self).heap_ms() == old(self).heap_ms().insert(
                    SeqPacket { abs: start as u64, tie: spec_tie_rank(&pkt), pkt: pkt },
                ) && !final(self).spec_stalled() && final(self).spec_max_end()
                    == vstd::math::max(old(self).spec_max_end(), old(self).pkt_end(&pkt)))
                &&& (!dropped && old(self).heap_len() >= old(self).heap_capacity() ==> final(self).spec_stalled() && final(self).heap_ms() == old(self).heap_ms())
            },
            // retransmits of already-reassembled data are invisible
            old(self).accepts(&pkt) && old(self).spec_seq_set() && 1 <= pkt.data@.len()
                && old(self).pkt_end(&pkt) <= old(self).spec_next_abs() && (pkt.fin_flag
                ==> old(self).spec_fin_seen()) ==> *final(self) == *old(self),
    {
        if self.stalled {
            return ;
        }
        if pkt.data.len() > MAX_PKT_LEN {
            return ;
        }
        if self.next_abs >= SEQ_LIMIT {
            self.stalled = true;
            proof {
                Self::lemma_heap_elems_carry(old(self), self);
            }
            return ;
        }
        let eff = eff_seq(&pkt);
        if !self.seq_set {
            self.seq_set = true;
            self.next_abs = SEQ_MOD + (eff as u64);
            self.max_end = self.next_abs;
            proof {
                assert(self.unread() =~= old(self).unread());
                self.heap.lemma_empty_ms();
            }
        } else if pkt.syn_flag && pkt.data.len() == 0 {
            return ;
        }
        let ghost anchored = *self;
        let start = lift(self.next_abs, eff);
        proof {
            if !old(self).seq_set {
                // the anchor was chosen so that the first packet lands
                // exactly at the stream position
                let m = SEQ_MOD as int;
                vstd::arithmetic::div_mod::lemma_mod_multiples_vanish(1, eff as int, m);
                vstd::arithmetic::div_mod::lemma_small_mod(eff as nat, m as nat);
                assert((self.next_abs as int) % m == eff as int);
                assert(start as int == self.next_abs as int);
            }
        }
        let len = pkt.data.len() as u64;
        if pkt.fin_flag && !self.fin_seen {
            self.fin_seen = true;
            self.fin_abs = start + len;
            proof {
                Self::lemma_heap_elems_carry(&anchored, self);
            }
        }
        if pkt.data.len() == 0 {
            return ;
        }
        if self.fin_seen && start >= self.fin_abs {
            return ;
        }
        if start + len <= self.next_abs {
            return ;
        }
        let end = start + len;
        let ghost pre = *self;
        let sp = SeqPacket::with_abs(pkt, start);
        if self.heap.push(sp) {
            if end > self.max_end {
                self.max_end = end;
            }
            proof {
                assert forall|x: SeqPacket| self.heap.ms().count(x) > 0
                    implies #[trigger] self.heap_elem_ok(x) by {
                    if x == sp {
                    } else {
                        assert(pre.heap.ms().count(x) > 0);
                        assert(pre.heap_elem_ok(x));
                    }
                }
            }
        } else {
            self.stalled = true;
            proof {
                Self::lemma_heap_elems_carry(&pre, self);
            }
        }
    }

    /// Drains every packet that has become sequence-contiguous into the
    /// ring buffer, compacting when needed and trimming overlap with what
    /// is already reassembled; discards stale packets. One raw event is
    /// pushed per appended chunk, in exact stream order. Stops at a
    /// sequence gap or when the buffer is full (a partially copied packet
    /// stays buffered, trimmed, for the next round).
    #[verifier::rlimit(100)]
    pub fn fill(&mut self, events: &mut Vec<CbEvent>) -> (progress: bool)
        requires
            old(self).wf(),
        ensures
            final(self).wf(),
            final(self).spec_cap() == old(self).spec_cap(),
            final(self).spec_dir() == old(self).spec_dir(),
            final(self).spec_seq_set() == old(self).spec_seq_set(),
            final(self).spec_fin_seen() == old(self).spec_fin_seen(),
            final(self).spec_fin_abs() == old(self).spec_fin_abs(),
            final(self).spec_stalled() == old(self).spec_stalled(),
            final(self).spec_max_end() == old(self).spec_max_end(),
            final(self).head_abs() == old(self).head_abs(),
            final(self).heap_capacity() == old(self).heap_capacity(),
            final(self).heap_len() <= old(self).heap_len(),
            final(self).spec_next_abs() >= old(self).spec_next_abs(),
            // the reassembled stream only grows, in order
            final(self).spec_assembled().len() == old(self).spec_assembled().len() + (final(self).spec_next_abs() - old(self).spec_next_abs()),
            final(self).spec_assembled().take(old(self).spec_assembled().len() as int) == old(self).spec_assembled(),
            final(self).unread() == old(self).unread() + final(self).spec_assembled().skip(
                old(self).spec_assembled().len() as int,
            ),
            // the raw events pushed are exactly the appended bytes, chunk by
            // chunk, in stream order, with the right sequence numbers
            final(events)@.len() >= old(events)@.len(),
            final(events)@.take(old(events)@.len() as int) == old(events)@,
            raw_run(
                final(events)@.skip(old(events)@.len() as int),
                old(self).spec_dir(),
                old(self).spec_next_abs(),
            ) == Some(final(self).spec_assembled().skip(old(self).spec_assembled().len() as int)),
            forall|j: int|
                old(events)@.len() <= j < final(events)@.len() ==> (#[trigger] final(events)@[j])
                    matches CbEvent::Raw { .. },
            // provenance: every appended byte is carried by a packet that
            // was waiting in the heap, at the matching offset
            forall|i: int|
                old(self).spec_next_abs() <= i < final(self).spec_next_abs()
                    ==> #[trigger] byte_from(
                    old(self).heap_ms(),
                    i,
                    final(self).spec_assembled()[old(self).spec_assembled().len() + (i - old(self).spec_next_abs())],
                ),
            // no byte is lost: every position a buffered packet covered is
            // either reassembled by now or still covered by a buffered packet
            forall|x: SeqPacket, i: int|
                #![trigger old(self).heap_ms().count(x), covers(x, i)]
                old(self).heap_ms().count(x) > 0 && covers(x, i) && i >= old(
                    self,
                ).spec_next_abs() ==> i < final(self).spec_next_abs() || covered_by(
                    final(self).heap_ms(),
                    i,
                ),
            // the drain is exhaustive: unless the buffer is full, whatever
            // still waits in the heap lies beyond the reassembled prefix
            final(self).unread().len() < final(self).spec_cap() ==> forall|x: SeqPacket|
                #[trigger] final(self).heap_ms().count(x) > 0 ==> x.abs as int > final(self).spec_next_abs(),
            // progress accounting for the caller's termination measure
            progress ==> final(self).heap_len() < old(self).heap_len() || final(self).spec_next_abs() > old(self).spec_next_abs(),
            !progress ==> *final(self) == *old(self) && final(events)@ == old(events)@,
            // a heap holding only out-of-reach packets cannot be drained
            (forall|x: SeqPacket|
                #[trigger] old(self).heap_ms().count(x) > 0 ==> x.abs as int > old(self).spec_next_abs())
                ==> !progress,
    {
        let ghost orig = *self;
        let ghost ev0 = events@;
        let mut progress = false;
        proof {
            assert(self.assembled@.take(orig.assembled@.len() as int) =~= orig.assembled@);
            assert(self.assembled@.skip(orig.assembled@.len() as int) =~= Seq::<u8>::empty());
            assert(self.unread() =~= orig.unread() + self.assembled@.skip(
                orig.assembled@.len() as int,
            ));
            assert(events@.take(ev0.len() as int) =~= ev0);
            assert(events@.skip(ev0.len() as int) =~= Seq::<CbEvent>::empty());
        }
        loop
            invariant_except_break
                forall|x: SeqPacket|
                    #[trigger] self.heap.ms().count(x) > 0 ==> orig.heap.ms().count(x) > 0,
            invariant
                self.wf(),
                orig.wf(),
                self.buf@.len() == orig.buf@.len(),
                self.dir == orig.dir,
                self.seq_set == orig.seq_set,
                self.fin_seen == orig.fin_seen,
                self.fin_abs == orig.fin_abs,
                self.stalled == orig.stalled,
                self.max_end == orig.max_end,
                self.heap.spec_capacity() == orig.heap.spec_capacity(),
                self.head_abs() == orig.head_abs(),
                self.heap.spec_len() <= orig.heap.spec_len(),
                self.next_abs >= orig.next_abs,
                self.assembled@.len() == orig.assembled@.len() + (self.next_abs
                    - orig.next_abs),
                self.assembled@.take(orig.assembled@.len() as int) == orig.assembled@,
                self.unread() == orig.unread() + self.assembled@.skip(
                    orig.assembled@.len() as int,
                ),
                events@.len() >= ev0.len(),
                events@.take(ev0.len() as int) == ev0,
                raw_run(events@.skip(ev0.len() as int), orig.dir, orig.next_abs as int) == Some(
                    self.assembled@.skip(orig.assembled@.len() as int),
                ),
                forall|j: int|
                    ev0.len() <= j < events@.len() ==> (#[trigger] events@[j]) matches CbEvent::Raw { .. },
                forall|x: SeqPacket, i: int|
                    #![trigger orig.heap.ms().count(x), covers(x, i)]
                    orig.heap.ms().count(x) > 0 && covers(x, i) && i >= orig.next_abs
                        ==> i < self.next_abs || covered_by(self.heap.ms(), i),
                forall|i: int|
                    orig.next_abs <= i < self.next_abs ==> #[trigger] byte_from(
                        orig.heap.ms(),
                        i,
                        self.assembled@[orig.assembled@.len() + (i - orig.next_abs)],
                    ),
                progress ==> self.heap.spec_len() < orig.heap.spec_len() || self.next_abs
                    > orig.next_abs,
                !progress ==> *self == orig && events@ == ev0,
                progress ==> exists|x: SeqPacket|
                    #[trigger] orig.heap.ms().count(x) > 0 && x.abs as int <= orig.next_abs as int,
            ensures
                self.wf(),
                self.buf@.len() == orig.buf@.len(),
                self.dir == orig.dir,
                self.seq_set == orig.seq_set,
                self.fin_seen == orig.fin_seen,
                self.fin_abs == orig.fin_abs,
                self.stalled == orig.stalled,
                self.max_end == orig.max_end,
                self.heap.spec_capacity() == orig.heap.spec_capacity(),
                self.head_abs() == orig.head_abs(),
                self.heap.spec_len() <= orig.heap.spec_len(),
                self.next_abs >= orig.next_abs,
                self.assembled@.len() == orig.assembled@.len() + (self.next_abs
                    - orig.next_abs),
                self.assembled@.take(orig.assembled@.len() as int) == orig.assembled@,
                self.unread() == orig.unread() + self.assembled@.skip(
                    orig.assembled@.len() as int,
                ),
                events@.len() >= ev0.len(),
                events@.take(ev0.len() as int) == ev0,
                raw_run(events@.skip(ev0.len() as int), orig.dir, orig.next_abs as int) == Some(
                    self.assembled@.skip(orig.assembled@.len() as int),
                ),
                forall|j: int|
                    ev0.len() <= j < events@.len() ==> (#[trigger] events@[j]) matches CbEvent::Raw { .. },
                forall|x: SeqPacket, i: int|
                    #![trigger orig.heap.ms().count(x), covers(x, i)]
                    orig.heap.ms().count(x) > 0 && covers(x, i) && i >= orig.next_abs
                        ==> i < self.next_abs || covered_by(self.heap.ms(), i),
                forall|i: int|
                    orig.next_abs <= i < self.next_abs ==> #[trigger] byte_from(
                        orig.heap.ms(),
                        i,
                        self.assembled@[orig.assembled@.len() + (i - orig.next_abs)],
                    ),
                self.tail - self.head < self.buf@.len() ==> forall|x: SeqPacket|
                    self.heap.ms().count(x) > 0 ==> x.abs as int > self.next_abs as int,
                progress ==> self.heap.spec_len() < orig.heap.spec_len() || self.next_abs
                    > orig.next_abs,
                !progress ==> *self == orig && events@ == ev0,
                progress ==> exists|x: SeqPacket|
                    #[trigger] orig.heap.ms().count(x) > 0 && x.abs as int <= orig.next_abs as int,
            decreases self.heap.spec_len(),
        {
            let ghost prog0 = progress;
            let (top_abs, top_len) = match self.heap.peek() {
                Some(t) => (t.abs, t.pkt.data.len()),
                None => {
                    proof {
                        self.heap.lemma_empty_ms();
                    }
                    break ;
                },
            };
            let ghost root = self.heap.root();
            proof {
                assert(self.heap_elem_ok(root));
            }
            if top_abs > self.next_abs {
                proof {
                    assert forall|x: SeqPacket| self.heap.ms().count(x) > 0 implies x.abs as int
                        > self.next_abs as int by {
                        assert(root.le_spec(&x));
                    }
                }
                break ;
            }
            if top_abs + (top_len as u64) <= self.next_abs {
                // entirely stale: discard
                let ghost pre = *self;
                let _ = self.heap.pop();
                progress = true;
                proof {
                    assert forall|x: SeqPacket| self.heap.ms().count(x) > 0
                        implies #[trigger] self.heap_elem_ok(x) by {
                        assert(pre.heap.ms().count(x) > 0);
                        assert(pre.heap_elem_ok(x));
                    }
                    if !prog0 {
                        assert(pre == orig);
                        assert(orig.heap.ms().count(root) > 0 && root.abs as int
                            <= orig.next_abs as int);
                        assert(exists|x: SeqPacket|
                            #[trigger] orig.heap.ms().count(x) > 0 && x.abs as int
                                <= orig.next_abs as int);
                    }
                    // no byte is lost by discarding a fully stale packet
                    assert forall|x: SeqPacket, i: int|
                        orig.heap.ms().count(x) > 0 && covers(x, i) && i >= orig.next_abs
                        implies i < self.next_abs || covered_by(self.heap.ms(), i) by {
                        if i >= self.next_abs {
                            assert(covered_by(pre.heap.ms(), i));
                            let y = choose|y: SeqPacket|
                                #[trigger] pre.heap.ms().count(y) > 0 && covers(y, i);
                            if y == root {
                                assert(i < root.abs + root.pkt.data@.len());
                                assert(false);
                            } else {
                                assert(self.heap.ms().count(y) > 0);
                                assert(covered_by(self.heap.ms(), i));
                            }
                        }
                    }
                }
                continue ;
            }
            let avail = self.buf.len() - (self.tail - self.head);
            if avail == 0 {
                break ;
            }
            let ghost pre = *self;
            let sp = match self.heap.pop() {
                Some(x) => x,
                None => unreached(),
            };
            proof {
                assert(pre.heap_elem_ok(sp));
                assert forall|x: SeqPacket| self.heap.ms().count(x) > 0
                    implies #[trigger] self.heap_elem_ok(x) by {
                    assert(pre.heap.ms().count(x) > 0);
                    assert(pre.heap_elem_ok(x));
                }
            }
            let skip = (self.next_abs - sp.abs) as usize;
            let remaining = sp.pkt.data.len() - skip;
            let n = if remaining < avail {
                remaining
            } else {
                avail
            };
            let chunk = copy_range(&sp.pkt.data, skip, n);
            let seq = (self.next_abs % SEQ_MOD) as u32;
            let ghost mid = *self;
            self.append_bytes(&chunk);
            let ghost ch = chunk@;
            let ghost evs_before = events@;
            events.push(CbEvent::Raw { data: chunk, seq, dir: self.dir });
            progress = true;
            proof {
                if !prog0 {
                    assert(pre == orig);
                    assert(orig.heap.ms().count(root) > 0 && root.abs as int
                        <= orig.next_abs as int);
                    assert(exists|x: SeqPacket|
                        #[trigger] orig.heap.ms().count(x) > 0 && x.abs as int
                            <= orig.next_abs as int);
                }
                // events stay a well-formed raw run
                assert(events@ =~= evs_before.push(events@.last()));
                assert(events@.take(ev0.len() as int) =~= evs_before.take(ev0.len() as int));
                assert(events@.skip(ev0.len() as int) =~= evs_before.skip(
                    ev0.len() as int,
                ).push(events@.last()));
                let delta0 = mid.assembled@.skip(orig.assembled@.len() as int);
                assert((mid.next_abs as int) % (SEQ_MOD as int) == (orig.next_abs as int
                    + delta0.len()) % (SEQ_MOD as int));
                assert(raw_ex(orig.dir)(events@.last()) is Some);
                lemma_ev_run_snoc(
                    evs_before.skip(ev0.len() as int),
                    raw_ex(orig.dir),
                    orig.next_abs as int,
                    delta0,
                    events@.last(),
                );
                assert(self.assembled@.skip(orig.assembled@.len() as int) =~= delta0 + ch);
                assert(self.assembled@.take(orig.assembled@.len() as int)
                    =~= mid.assembled@.take(orig.assembled@.len() as int));
                // provenance of the new bytes
                assert forall|i: int| orig.next_abs <= i < self.next_abs
                    implies #[trigger] byte_from(
                    orig.heap.ms(),
                    i,
                    self.assembled@[orig.assembled@.len() + (i - orig.next_abs)],
                ) by {
                    if i < mid.next_abs {
                        assert(byte_from(
                            orig.heap.ms(),
                            i,
                            mid.assembled@[orig.assembled@.len() + (i - orig.next_abs)],
                        ));
                        assert(self.assembled@[orig.assembled@.len() + (i - orig.next_abs)]
                            == mid.assembled@[orig.assembled@.len() + (i - orig.next_abs)]);
                    } else {
                        let k = i - mid.next_abs;
                        assert(ch[k] == sp.pkt.data@[skip + k]);
                        assert(self.assembled@[orig.assembled@.len() + (i - orig.next_abs)]
                            == ch[k]);
                        assert(orig.heap.ms().count(sp) > 0 && sp.abs <= i < sp.abs
                            + sp.pkt.data@.len() && ch[k] == sp.pkt.data@[i - sp.abs]);
                    }
                }
            }
            if n < remaining {
                // buffer is now full; keep the tail of the packet, trimmed
                let rest = copy_range(&sp.pkt.data, skip + n, remaining - n);
                let back_abs = sp.abs + ((skip + n) as u64);
                let back_seq = (back_abs % SEQ_MOD) as u32;
                let back = SeqPacket {
                    abs: back_abs,
                    tie: 1u8,
                    pkt: Packet {
                        sport: sp.pkt.sport,
                        dport: sp.pkt.dport,
                        sequence: back_seq,
                        syn_flag: false,
                        fin_flag: false,
                        data: rest,
                        direction: sp.pkt.direction,
                    },
                };
                let ghost pre2 = *self;
                proof {
                    pre.heap.lemma_len_le_cap();
                    assert(self.heap.spec_len() < self.heap.spec_capacity());
                }
                let pushed = self.heap.push(back);
                proof {
                    assert(pushed);
                    assert(self.heap_elem_ok(back));
                    assert forall|x: SeqPacket| self.heap.ms().count(x) > 0
                        implies #[trigger] self.heap_elem_ok(x) by {
                        if x != back {
                            assert(pre2.heap.ms().count(x) > 0);
                            assert(pre2.heap_elem_ok(x));
                        }
                    }
                    assert(self.tail - self.head == self.buf@.len());
                    // no byte is lost by a partial copy: the trimmed tail
                    // keeps covering what was not yet reassembled
                    assert forall|x: SeqPacket, i: int|
                        orig.heap.ms().count(x) > 0 && covers(x, i) && i >= orig.next_abs
                        implies i < self.next_abs || covered_by(self.heap.ms(), i) by {
                        if i >= self.next_abs {
                            assert(covered_by(pre.heap.ms(), i));
                            let y = choose|y: SeqPacket|
                                #[trigger] pre.heap.ms().count(y) > 0 && covers(y, i);
                            if y == sp {
                                assert(back_abs as int <= i < back_abs as int
                                    + back.pkt.data@.len());
                                assert(self.heap.ms().count(back) > 0);
                                assert(covers(back, i));
                                assert(covered_by(self.heap.ms(), i));
                            } else {
                                assert(pre2.heap.ms().count(y) > 0);
                                assert(self.heap.ms().count(y) > 0);
                                assert(covered_by(self.heap.ms(), i));
                            }
                        }
                    }
                }
                break ;
            }
            proof {
                // no byte is lost by a full copy: the packet was appended
                // through its end
                assert forall|x: SeqPacket, i: int|
                    orig.heap.ms().count(x) > 0 && covers(x, i) && i >= orig.next_abs
                    implies i < self.next_abs || covered_by(self.heap.ms(), i) by {
                    if i >= self.next_abs {
                        assert(covered_by(pre.heap.ms(), i));
                        let y = choose|y: SeqPacket|
                            #[trigger] pre.heap.ms().count(y) > 0 && covers(y, i);
                        if y == sp {
                            assert(i < sp.abs + sp.pkt.data@.len());
                            assert(false);
                        } else {
                            assert(self.heap.ms().count(y) > 0);
                            assert(covered_by(self.heap.ms(), i));
                        }
                    }
                }
            }
        }
        proof {
            assert(old(self).heap_ms() == orig.heap.ms());
            if progress {
                let w = choose|x: SeqPacket|
                    #[trigger] orig.heap.ms().count(x) > 0 && x.abs as int
                        <= orig.next_abs as int;
                assert(orig.heap.ms().count(w) > 0);
                assert(old(self).heap_ms().count(w) > 0);
            }
        }
        progress
    }
}

/// Copies `src[from .. from + n]` into a fresh vector.
fn copy_range(src: &Vec<u8>, from: usize, n: usize) -> (r: Vec<u8>)
    requires
        from + n <= src@.len(),
    ensures
        r@ == src@.subrange(from as int, from as int + n),
{
    let srclen = src.len();
    let mut out: Vec<u8> = Vec::new();
    let mut k: usize = 0;
    while k < n
        invariant
            from + n <= srclen,
            srclen == src@.len(),
            k <= n,
            out@ == src@.subrange(from as int, from as int + k),
        decreases n - k,
    {
        let b = src[from + k];
        out.push(b);
        proof {
            assert(out@ =~= src@.subrange(from as int, from as int + k + 1));
        }
        k += 1;
    }
    out
}

/// A fresh zero-filled byte buffer of length `cap`.
fn alloc_zeroed(cap: usize) -> (r: Vec<u8>)
    ensures
        r@.len() == cap,
{
    let mut v: Vec<u8> = Vec::new();
    let mut k: usize = 0;
    while k < cap
        invariant
            k <= cap,
            v@.len() == k,
        decreases cap - k,
    {
        v.push(0u8);
        k += 1;
    }
    v
}

} // verus!
