//! The readline parser: hands the reassembled stream to the line callback
//! one line at a time, terminator included.

use vstd::prelude::*;

verus! {

use crate::parser::PollOutcome;
use crate::pktstrm::{ev_run, has_lf, line_ex, next_line_of, CbEvent, PktStrm, StrmError};
use crate::seqnum::SEQ_MOD;

/// A sink for line callbacks: each full line of the reassembled stream, in
/// order, terminator included, with the sequence number of its first byte.
/// Implemented by the host.
pub trait ReadLineCbFn {
    /// Called once per line.
    fn call(&mut self, line: &Vec<u8>, seq: u32);
}

/// A `Line` event carries one proper line: non-empty, ending in the one and
/// only line feed it holds.
pub open spec fn is_proper_line(e: CbEvent) -> bool {
    e matches CbEvent::Line { data, .. } && 1 <= data@.len() && data@.last() == 10u8 && !has_lf(
        data@.take(data@.len() - 1),
    )
}

/// The readline parser: repeatedly awaits the next line until the stream
/// ends. A full buffer without a terminator is flow-fatal.
pub struct ReadlineParser {}

impl ReadlineParser {
    /// A fresh readline parser.
    pub fn new() -> (r: Self) {
        ReadlineParser {}
    }

    /// Runs the parser until the stream can no longer feed it: pulls full
    /// lines and pushes one `Line` event per line, in stream order. The
    /// line a `peekline` returns and the line the following `readline`
    /// consumes are the same; this loop checks that statically.
    pub fn poll(&self, strm: &mut PktStrm, events: &mut Vec<CbEvent>) -> (r: PollOutcome)
        requires
            old(strm).wf(),
        ensures
            final(strm).wf(),
            final(strm).spec_assembled() == old(strm).spec_assembled(),
            final(strm).spec_next_abs() == old(strm).spec_next_abs(),
            final(strm).spec_cap() == old(strm).spec_cap(),
            final(strm).heap_ms() == old(strm).heap_ms(),
            final(strm).heap_len() == old(strm).heap_len(),
            final(strm).spec_fin_seen() == old(strm).spec_fin_seen(),
            final(strm).spec_fin_abs() == old(strm).spec_fin_abs(),
            final(strm).spec_max_end() == old(strm).spec_max_end(),
            final(strm).spec_dir() == old(strm).spec_dir(),
            final(strm).spec_seq_set() == old(strm).spec_seq_set(),
            final(strm).heap_capacity() == old(strm).heap_capacity(),
            old(strm).spec_stalled() ==> final(strm).spec_stalled(),
            final(strm).at_fin() == old(strm).at_fin(),
            // a prefix of the unread bytes is consumed, line by line
            final(strm).unread().len() <= old(strm).unread().len(),
            final(strm).unread() == old(strm).unread().skip(
                old(strm).unread().len() - final(strm).unread().len(),
            ),
            final(strm).head_abs() == old(strm).head_abs() + (old(strm).unread().len() - final(strm).unread().len()),
            // the events pushed are exactly the consumed lines, in order
            final(events)@.len() >= old(events)@.len(),
            final(events)@.take(old(events)@.len() as int) == old(events)@,
            ev_run(
                final(events)@.skip(old(events)@.len() as int),
                line_ex(),
                old(strm).head_abs(),
            ) == Some(
                old(strm).unread().take(
                    old(strm).unread().len() - final(strm).unread().len(),
                ),
            ),
            forall|j: int|
                old(events)@.len() <= j < final(events)@.len() ==> is_proper_line(
                    #[trigger] final(events)@[j],
                ),
            // exact suspension contract
            (r == PollOutcome::Failed) <==> final(strm).spec_stalled(),
            (r == PollOutcome::Done) <==> !final(strm).spec_stalled() && final(strm).at_fin()
                && !has_lf(final(strm).unread()),
            r == PollOutcome::Pending ==> !has_lf(final(strm).unread()) && final(strm).unread().len() < final(strm).spec_cap(),
            // without a complete line (and with room in the buffer) the
            // parser neither moves nor emits
            !has_lf(old(strm).unread()) && old(strm).unread().len() < old(strm).spec_cap()
                ==> *final(strm) == *old(strm) && final(events)@ == old(events)@,
    {
        let ghost s0 = *strm;
        let ghost ev0 = events@;
        proof {
            assert(events@.take(ev0.len() as int) =~= ev0);
            assert(events@.skip(ev0.len() as int) =~= Seq::<CbEvent>::empty());
            assert(s0.unread().skip(0) =~= s0.unread());
            assert(s0.unread().take(0) =~= Seq::<u8>::empty());
        }
        loop
            invariant
                s0 == *old(strm),
                ev0 == old(events)@,
                (!has_lf(s0.unread()) && s0.unread().len() < s0.spec_cap()) ==> *strm == s0
                    && events@ == ev0,
                strm.wf(),
                s0.wf(),
                strm.spec_assembled() == s0.spec_assembled(),
                strm.spec_next_abs() == s0.spec_next_abs(),
                strm.spec_cap() == s0.spec_cap(),
                strm.heap_ms() == s0.heap_ms(),
                strm.heap_len() == s0.heap_len(),
                strm.spec_fin_seen() == s0.spec_fin_seen(),
                strm.spec_fin_abs() == s0.spec_fin_abs(),
                strm.spec_max_end() == s0.spec_max_end(),
                strm.spec_dir() == s0.spec_dir(),
                strm.spec_seq_set() == s0.spec_seq_set(),
                strm.spec_stalled() == s0.spec_stalled(),
                strm.heap_capacity() == s0.heap_capacity(),
                strm.at_fin() == s0.at_fin(),
                strm.unread().len() <= s0.unread().len(),
                strm.unread() == s0.unread().skip(s0.unread().len() - strm.unread().len()),
                strm.head_abs() == s0.head_abs() + (s0.unread().len() - strm.unread().len()),
                events@.len() >= ev0.len(),
                events@.take(ev0.len() as int) == ev0,
                ev_run(events@.skip(ev0.len() as int), line_ex(), s0.head_abs()) == Some(
                    s0.unread().take(s0.unread().len() - strm.unread().len()),
                ),
                forall|j: int|
                    ev0.len() <= j < events@.len() ==> is_proper_line(#[trigger] events@[j]),
            decreases strm.unread().len(),
        {
            if strm.is_stalled() {
                return PollOutcome::Failed;
            }
            if strm.fin() {
                proof {
                    assert(strm.unread() =~= Seq::<u8>::empty());
                    assert(!has_lf(strm.unread()));
                }
                return PollOutcome::Done;
            }
            let ghost pre = *strm;
            let ghost evs_pre = events@;
            let peeked = strm.peekline();
            match strm.readline() {
                Ok((line, seq)) => {
                    proof {
                        // peek/read consistency, statically: the peeked line
                        // is the line just consumed.
                        if let Ok((pline, pseq)) = peeked {
                            assert(pline@ == line@);
                            assert(pseq == seq);
                        } else {
                            assert(false);
                        }
                        // the line is proper: its only line feed ends it
                        crate::pktstrm::lemma_find_lf(pre.unread());
                        assert(line@ =~= next_line_of(pre.unread()));
                        assert forall|j: int| 0 <= j < line@.len() - 1 implies #[trigger] line@.take(
                            line@.len() - 1,
                        )[j] != 10u8 by {
                            assert(line@[j] == pre.unread()[j]);
                        }
                        crate::pktstrm::lemma_find_lf_none(line@.take(line@.len() - 1));
                    }
                    let ghost b = line@;
                    events.push(CbEvent::Line { data: line, seq });
                    proof {
                        let consumed0 = s0.unread().len() - pre.unread().len();
                        assert(events@ =~= evs_pre.push(events@.last()));
                        assert(events@.take(ev0.len() as int) =~= evs_pre.take(
                            ev0.len() as int,
                        ));
                        assert(events@.skip(ev0.len() as int) =~= evs_pre.skip(
                            ev0.len() as int,
                        ).push(events@.last()));
                        assert(line_ex()(events@.last()) is Some);
                        assert((s0.head_abs() + consumed0) % (SEQ_MOD as int) == pre.head_abs()
                            % (SEQ_MOD as int));
                        crate::pktstrm::lemma_ev_run_snoc(
                            evs_pre.skip(ev0.len() as int),
                            line_ex(),
                            s0.head_abs(),
                            s0.unread().take(consumed0),
                            events@.last(),
                        );
                        assert(b == pre.unread().take(b.len() as int));
                        assert(s0.unread().take(consumed0 + b.len()) =~= s0.unread().take(
                            consumed0,
                        ) + b);
                        assert(strm.unread() =~= s0.unread().skip(
                            s0.unread().len() - strm.unread().len(),
                        ));
                    }
                },
                Err(e) => {
                    match e {
                        StrmError::Pending => {
                            proof {
                                strm.lemma_wf_bounds();
                            }
                            return PollOutcome::Pending;
                        },
                        StrmError::Eof => {
                            return PollOutcome::Done;
                        },
                        StrmError::NoProgress => {
                            return PollOutcome::Failed;
                        },
                    }
                },
            }
        }
    }
}

/// A fresh readline parser.
impl Default for ReadlineParser {
    fn default() -> (r: Self) {
        ReadlineParser::new()
    }
}

} // verus!
