//! The pass-through read parser: hands the reassembled stream to the read
//! callback in chunks, in exact stream order.

use vstd::prelude::*;

verus! {

use crate::parser::PollOutcome;
use crate::pktstrm::{ev_run, has_lf, read_ex, CbEvent, PktStrm, StrmError};
use crate::seqnum::SEQ_MOD;
use crate::MAX_READ_BUFF;

/// How many bytes each read request asks for; a little more than the
/// buffer, so a full buffer drains in a single callback.
pub const MAX_READ: usize = MAX_READ_BUFF + 10;

/// A sink for read callbacks: chunks of the reassembled stream, in order,
/// each with the sequence number of its first byte. Implemented by the
/// host.
pub trait ReadCbFn {
    /// Called once per chunk.
    fn call(&mut self, data: &Vec<u8>, seq: u32);
}

/// The read parser: repeatedly awaits up to `read_size` bytes and emits
/// them, until the stream ends.
pub struct ReadParser {
    pub read_size: usize,
}

impl ReadParser {
    /// A read parser requesting the default chunk size.
    pub fn new() -> (r: Self)
        ensures
            r.read_size == MAX_READ_BUFF + 10,
    {
        ReadParser { read_size: MAX_READ }
    }

    /// Runs the parser until the stream can no longer feed it: pulls
    /// chunks of at most `read_size` bytes and pushes one `Read` event per
    /// chunk, in stream order, consuming everything available.
    pub fn poll(&self, strm: &mut PktStrm, events: &mut Vec<CbEvent>) -> (r: PollOutcome)
        requires
            old(strm).wf(),
            self.read_size >= 1,
        ensures
            final(strm).wf(),
            final(strm).spec_assembled() == old(strm).spec_assembled(),
            final(strm).spec_next_abs() == old(strm).spec_next_abs(),
            final(strm).spec_cap() == old(strm).spec_cap(),
            final(strm).heap_ms() == old(strm).heap_ms(),
            final(strm).heap_len() == old(strm).heap_len(),
            final(strm).spec_fin_seen() == old(strm).spec_fin_seen(),
            final(strm).spec_fin_abs() == old(strm).spec_fin_abs(),
            final(strm).spec_max_end() == old(strm).spec_max_end(),
            final(strm).spec_dir() == old(strm).spec_dir(),
            final(strm).spec_seq_set() == old(strm).spec_seq_set(),
            final(strm).spec_stalled() == old(strm).spec_stalled(),
            final(strm).heap_capacity() == old(strm).heap_capacity(),
            final(strm).at_fin() == old(strm).at_fin(),
            // a prefix of the unread bytes is consumed
            final(strm).unread().len() <= old(strm).unread().len(),
            final(strm).unread() == old(strm).unread().skip(
                old(strm).unread().len() - final(strm).unread().len(),
            ),
            final(strm).head_abs() == old(strm).head_abs() + (old(strm).unread().len() - final(strm).unread().len()),
            // the events pushed carry exactly the consumed bytes, in order
            final(events)@.len() >= old(events)@.len(),
            final(events)@.take(old(events)@.len() as int) == old(events)@,
            ev_run(
                final(events)@.skip(old(events)@.len() as int),
                read_ex(),
                old(strm).head_abs(),
            ) == Some(
                old(strm).unread().take(
                    old(strm).unread().len() - final(strm).unread().len(),
                ),
            ),
            forall|j: int|
                old(events)@.len() <= j < final(events)@.len() ==> ((#[trigger] final(events)@[j])
                    matches CbEvent::Read { data, .. } && 1 <= data@.len() <= self.read_size),
            // exact suspension contract
            (r == PollOutcome::Failed) <==> final(strm).spec_stalled(),
            (r == PollOutcome::Done) <==> !final(strm).spec_stalled() && final(strm).at_fin()
                && final(strm).unread().len() == 0,
            r == PollOutcome::Pending ==> final(strm).unread().len() == 0,
            // with nothing buffered the parser neither moves nor emits
            old(strm).unread().len() == 0 ==> *final(strm) == *old(strm) && final(events)@
                == old(events)@,
    {
        let ghost s0 = *strm;
        let ghost ev0 = events@;
        proof {
            assert(events@.take(ev0.len() as int) =~= ev0);
            assert(events@.skip(ev0.len() as int) =~= Seq::<CbEvent>::empty());
            assert(s0.unread().skip(0) =~= s0.unread());
            assert(s0.unread().take(0) =~= Seq::<u8>::empty());
        }
        loop
            invariant
                s0 == *old(strm),
                ev0 == old(events)@,
                s0.unread().len() == 0 ==> *strm == s0 && events@ == ev0,
                strm.wf(),
                s0.wf(),
                self.read_size >= 1,
                strm.spec_assembled() == s0.spec_assembled(),
                strm.spec_next_abs() == s0.spec_next_abs(),
                strm.spec_cap() == s0.spec_cap(),
                strm.heap_ms() == s0.heap_ms(),
                strm.heap_len() == s0.heap_len(),
                strm.spec_fin_seen() == s0.spec_fin_seen(),
                strm.spec_fin_abs() == s0.spec_fin_abs(),
                strm.spec_max_end() == s0.spec_max_end(),
                strm.spec_dir() == s0.spec_dir(),
                strm.spec_seq_set() == s0.spec_seq_set(),
                strm.spec_stalled() == s0.spec_stalled(),
                strm.heap_capacity() == s0.heap_capacity(),
                strm.at_fin() == s0.at_fin(),
                strm.unread().len() <= s0.unread().len(),
                strm.unread() == s0.unread().skip(s0.unread().len() - strm.unread().len()),
                strm.head_abs() == s0.head_abs() + (s0.unread().len() - strm.unread().len()),
                events@.len() >= ev0.len(),
                events@.take(ev0.len() as int) == ev0,
                ev_run(events@.skip(ev0.len() as int), read_ex(), s0.head_abs()) == Some(
                    s0.unread().take(s0.unread().len() - strm.unread().len()),
                ),
                forall|j: int|
                    ev0.len() <= j < events@.len() ==> ((#[trigger] events@[j])
                        matches CbEvent::Read { data, .. } && 1 <= data@.len() <= self.read_size),
            decreases strm.unread().len(),
        {
            if strm.is_stalled() {
                return PollOutcome::Failed;
            }
            if strm.fin() {
                proof {
                    assert(strm.unread() =~= Seq::<u8>::empty());
                    assert(!has_lf(strm.unread()));
                }
                return PollOutcome::Done;
            }
            let ghost pre = *strm;
            let ghost evs_pre = events@;
            match strm.read_err(self.read_size) {
                Ok((bytes, seq)) => {
                    let ghost b = bytes@;
                    events.push(CbEvent::Read { data: bytes, seq });
                    proof {
                        let consumed0 = s0.unread().len() - pre.unread().len();
                        assert(events@ =~= evs_pre.push(events@.last()));
                        assert(events@.take(ev0.len() as int) =~= evs_pre.take(
                            ev0.len() as int,
                        ));
                        assert(events@.skip(ev0.len() as int) =~= evs_pre.skip(
                            ev0.len() as int,
                        ).push(events@.last()));
                        assert(read_ex()(events@.last()) is Some);
                        assert((s0.head_abs() + consumed0) % (SEQ_MOD as int) == pre.head_abs()
                            % (SEQ_MOD as int));
                        crate::pktstrm::lemma_ev_run_snoc(
                            evs_pre.skip(ev0.len() as int),
                            read_ex(),
                            s0.head_abs(),
                            s0.unread().take(consumed0),
                            events@.last(),
                        );
                        assert(b == pre.unread().take(b.len() as int));
                        assert(s0.unread().take(consumed0 + b.len()) =~= s0.unread().take(
                            consumed0,
                        ) + b);
                        assert(strm.unread() =~= s0.unread().skip(
                            s0.unread().len() - strm.unread().len(),
                        ));
                    }
                },
                Err(e) => {
                    match e {
                        StrmError::Pending => {
                            proof {
                                strm.lemma_wf_bounds();
                            }
                            return PollOutcome::Pending;
                        },
                        StrmError::Eof => {
                            return PollOutcome::Done;
                        },
                        StrmError::NoProgress => {
                            return PollOutcome::Failed;
                        },
                    }
                },
            }
        }
    }
}

/// A fresh parser with the default chunk size.
impl Default for ReadParser {
    fn default() -> (r: Self)
        ensures
            r.read_size == MAX_READ_BUFF + 10,
    {
        ReadParser::new()
    }
}

} // verus!
