//! The dispatcher: owns per-flow state (two directional streams and a
//! cooperative parser), ingests packets, drives the drain/poll cycle, and
//! surfaces callback events.

use vstd::prelude::*;

verus! {

use crate::packet::{L7Proto, Packet, PktDirection, TransProto};
use crate::parser::read::{ReadCbFn, ReadParser};
use crate::parser::readline::{is_proper_line, ReadLineCbFn, ReadlineParser};
use crate::parser::PollOutcome;
use crate::packet::SeqPacket;
use crate::pktstrm::{covered_by, covers, ev_run, has_lf, lemma_ev_run_all_skipped,
    lemma_ev_run_concat, line_ex, raw_ex, read_ex, CbEvent, PktStrm, MAX_PKT_LEN};
use crate::seqnum::SEQ_LIMIT;
use crate::{HEAP_CAP, MAX_READ_BUFF};

/// The parser instance a task drives on its client-to-server stream.
pub enum ParserKind {
    Read(ReadParser),
    Readline(ReadlineParser),
}

/// Lifecycle of a task's parser.
#[derive(Clone, Copy, Debug, PartialEq, Eq, Structural)]
pub enum TaskState {
    /// The parser can still be resumed.
    Alive,
    /// The parser ran to completion.
    Done,
    /// The flow stalled; the parser will never be resumed.
    Failed,
}

/// One flow: a directional stream pair, the chosen parser, and its state.
pub struct Task {
    strm_c2s: PktStrm,
    strm_s2c: PktStrm,
    parser: Option<ParserKind>,
    state: TaskState,
}

impl Task {
    /// The stream of the given direction.
    pub closed spec fn strm(&self, dir: PktDirection) -> PktStrm {
        match dir {
            PktDirection::Client2Server => self.strm_c2s,
            PktDirection::Server2Client => self.strm_s2c,
        }
    }

    /// The parser's lifecycle state.
    pub closed spec fn spec_state(&self) -> TaskState {
        self.state
    }

    /// Which protocol parser is attached, if any.
    pub closed spec fn spec_l7(&self) -> Option<L7Proto> {
        match self.parser {
            Option::None => Option::None,
            Option::Some(ParserKind::Read(_)) => Option::Some(L7Proto::Read),
            Option::Some(ParserKind::Readline(_)) => Option::Some(L7Proto::Readline),
        }
    }

    /// Structural invariant of a flow.
    pub closed spec fn wf(&self) -> bool {
        &&& self.strm_c2s.wf()
        &&& self.strm_s2c.wf()
        &&& self.strm_c2s.spec_dir() == PktDirection::Client2Server
        &&& self.strm_s2c.spec_dir() == PktDirection::Server2Client
        &&& match self.parser {
            Option::Some(ParserKind::Read(p)) => p.read_size >= 1,
            _ => true,
        }
    }

    /// Every packet still buffered for `dir` lies beyond the reassembled
    /// prefix: nothing more can be drained without new data.
    pub open spec fn drained(&self, dir: PktDirection) -> bool {
        forall|x: crate::packet::SeqPacket|
            #[trigger] self.strm(dir).heap_ms().count(x) > 0 ==> x.abs as int > self.strm(
                dir,
            ).spec_next_abs()
    }

    /// The parser cannot advance without new bytes (and would not finish or
    /// fail if polled again).
    pub open spec fn settled(&self) -> bool {
        self.spec_state() != TaskState::Alive || match self.spec_l7() {
            Option::None => true,
            Option::Some(L7Proto::Read) => self.strm(
                PktDirection::Client2Server,
            ).unread().len() == 0 && !self.strm(PktDirection::Client2Server).at_fin(),
            Option::Some(L7Proto::Readline) => !has_lf(
                self.strm(PktDirection::Client2Server).unread(),
            ) && !self.strm(PktDirection::Client2Server).at_fin() && self.strm(
                PktDirection::Client2Server,
            ).unread().len() < self.strm(PktDirection::Client2Server).spec_cap(),
        }
    }

    /// The parser's lifecycle state, for the host's drop policy: a
    /// `Failed` task will never produce another event.
    pub fn state(&self) -> (r: TaskState)
        ensures
            r == self.spec_state(),
    {
        self.state
    }

    /// Bounded memory: the per-flow footprint is fixed by configuration.
    /// Each direction holds one ring buffer of its fixed capacity and at
    /// most its heap's capacity of buffered packets, each of bounded size.
    pub proof fn lemma_bounded_memory(&self)
        requires
            self.wf(),
        ensures
            self.strm(PktDirection::Client2Server).unread().len() <= self.strm(
                PktDirection::Client2Server,
            ).spec_cap(),
            self.strm(PktDirection::Server2Client).unread().len() <= self.strm(
                PktDirection::Server2Client,
            ).spec_cap(),
            0 <= self.strm(PktDirection::Client2Server).heap_len() <= self.strm(
                PktDirection::Client2Server,
            ).heap_capacity(),
            0 <= self.strm(PktDirection::Server2Client).heap_len() <= self.strm(
                PktDirection::Server2Client,
            ).heap_capacity(),
    {
        self.strm_c2s.lemma_wf_bounds();
        self.strm_s2c.lemma_wf_bounds();
    }
}

/// The engine's configuration and task factory. Parsers created for one
/// task never consume anything from the dispatcher, so any number of tasks
/// of the same protocol can be created from one `Prolens`.
pub struct Prolens {
    /// Ring buffer bytes per stream.
    pub conf_read_buff: usize,
    /// Packets buffered per direction.
    pub conf_heap_cap: usize,
}

impl Prolens {
    /// The configuration is within the engine's fixed bounds.
    pub open spec fn wf(&self) -> bool {
        &&& 2 <= self.conf_read_buff <= 0x4000_0000
        &&& 1 <= self.conf_heap_cap <= 0x1000_0000
    }

    /// An engine with the default configuration.
    pub fn new() -> (r: Self)
        ensures
            r.wf(),
            r.conf_read_buff == MAX_READ_BUFF,
            r.conf_heap_cap == HEAP_CAP,
    {
        Prolens { conf_read_buff: MAX_READ_BUFF, conf_heap_cap: HEAP_CAP }
    }

    /// Allocates a fresh flow: two empty streams, no parser yet.
    pub fn new_task(&self, _transport: TransProto) -> (t: Task)
        requires
            self.wf(),
        ensures
            t.wf(),
            t.spec_state() == TaskState::Alive,
            t.spec_l7() is None,
            forall|dd: PktDirection|
                {
                    &&& (#[trigger] t.strm(dd)).spec_cap() == self.conf_read_buff
                    &&& t.strm(dd).heap_capacity() == self.conf_heap_cap
                    &&& t.strm(dd).unread() == Seq::<u8>::empty()
                    &&& t.strm(dd).spec_assembled() == Seq::<u8>::empty()
                    &&& t.strm(dd).heap_len() == 0
                    &&& !t.strm(dd).spec_stalled()
                    &&& !t.strm(dd).spec_fin_seen()
                    &&& !t.strm(dd).spec_seq_set()
                },
    {
        let t = Task {
            strm_c2s: PktStrm::new(
                self.conf_read_buff,
                self.conf_heap_cap,
                PktDirection::Client2Server,
            ),
            strm_s2c: PktStrm::new(
                self.conf_read_buff,
                self.conf_heap_cap,
                PktDirection::Server2Client,
            ),
            parser: None,
            state: TaskState::Alive,
        };
        proof {
            assert forall|dd: PktDirection| (#[trigger] t.strm(dd)).spec_cap()
                == self.conf_read_buff by {
                match dd {
                    PktDirection::Client2Server => {},
                    PktDirection::Server2Client => {},
                }
            }
        }
        t
    }

    /// Attaches the protocol parser to the task. The parser is built fresh
    /// from the factory for this protocol; the streams and the task's state
    /// are untouched.
    pub fn set_task_parser(&self, task: &mut Task, proto: L7Proto)
        requires
            old(task).wf(),
        ensures
            final(task).wf(),
            final(task).spec_l7() == Some(proto),
            final(task).spec_state() == old(task).spec_state(),
            forall|dd: PktDirection| #[trigger] final(task).strm(dd) == old(task).strm(dd),
    {
        task.parser = match proto {
            L7Proto::Read => Some(ParserKind::Read(ReadParser::new())),
            L7Proto::Readline => Some(ParserKind::Readline(ReadlineParser::new())),
        };
    }

    /// Ingests one packet: routes it by direction, drains every packet
    /// that has become sequence-contiguous into that direction's buffer,
    /// and resumes the parser until it suspends again. Returns the
    /// callback events of this step in exact order: each raw chunk
    /// precedes the parser events it enabled.
    #[verifier::rlimit(100)]
    pub fn run_task(&self, task: &mut Task, pkt: Packet) -> (events: Vec<CbEvent>)
        requires
            old(task).wf(),
        ensures
            final(task).wf(),
            final(task).spec_l7() == old(task).spec_l7(),
            forall|dd: PktDirection|
                dd != pkt.direction ==> #[trigger] final(task).strm(dd) == old(task).strm(dd),
            pkt.direction == PktDirection::Server2Client ==> final(task).spec_state() == old(task).spec_state(),
            final(task).strm(pkt.direction).spec_cap() == old(task).strm(
                pkt.direction,
            ).spec_cap(),
            final(task).strm(pkt.direction).heap_capacity() == old(task).strm(
                pkt.direction,
            ).heap_capacity(),
            // the reassembled stream only grows, in order
            final(task).strm(pkt.direction).spec_assembled().len() >= old(task).strm(
                pkt.direction,
            ).spec_assembled().len(),
            final(task).strm(pkt.direction).spec_assembled().take(
                old(task).strm(pkt.direction).spec_assembled().len() as int,
            ) == old(task).strm(pkt.direction).spec_assembled(),
            // order preservation: the raw events returned carry exactly the
            // bytes newly appended to the reassembled stream, in order
            ev_run(
                events@,
                raw_ex(pkt.direction),
                final(task).strm(pkt.direction).spec_next_abs() - (final(task).strm(
                    pkt.direction,
                ).spec_assembled().len() - old(task).strm(pkt.direction).spec_assembled().len()),
            ) == Some(
                final(task).strm(pkt.direction).spec_assembled().skip(
                    old(task).strm(pkt.direction).spec_assembled().len() as int,
                ),
            ),
            // the parser consumed a prefix of what was available; a
            // readline task emits exactly the consumed bytes as full lines,
            // a read task as plain chunks, in order
            ({
                let fs = final(task).strm(pkt.direction);
                let avail = old(task).strm(pkt.direction).unread() + fs.spec_assembled().skip(
                    old(task).strm(pkt.direction).spec_assembled().len() as int,
                );
                let cl = avail.len() - fs.unread().len();
                &&& fs.unread().len() <= avail.len()
                &&& fs.unread() == avail.skip(cl)
                &&& ((pkt.direction == PktDirection::Server2Client || old(task).spec_l7() is None
                    || old(task).spec_state() != TaskState::Alive) ==> fs.unread() == avail)
                &&& (pkt.direction == PktDirection::Client2Server && old(task).spec_l7() == Some(
                    L7Proto::Readline,
                ) && old(task).spec_state() == TaskState::Alive ==> ev_run(
                    events@,
                    line_ex(),
                    fs.head_abs() - cl,
                ) == Some(avail.take(cl)))
                &&& (pkt.direction == PktDirection::Client2Server && old(task).spec_l7() == Some(
                    L7Proto::Read,
                ) && old(task).spec_state() == TaskState::Alive ==> ev_run(
                    events@,
                    read_ex(),
                    fs.head_abs() - cl,
                ) == Some(avail.take(cl)))
            }),
            // line semantics: every line event is a proper line
            forall|j: int|
                0 <= j < events@.len() ==> ((#[trigger] events@[j]) matches CbEvent::Line { .. }
                    ==> is_proper_line(events@[j])),
            // lifecycle
            old(task).spec_state() != TaskState::Alive ==> final(task).spec_state() == old(task).spec_state(),
            final(task).spec_state() == TaskState::Failed && old(task).spec_state()
                != TaskState::Failed ==> final(task).strm(
                PktDirection::Client2Server,
            ).spec_stalled(),
            // a still-alive parser has consumed everything it can
            final(task).spec_state() == TaskState::Alive && old(task).spec_state()
                == TaskState::Alive && pkt.direction == PktDirection::Client2Server ==> {
                &&& (old(task).spec_l7() == Some(L7Proto::Readline) ==> !has_lf(
                    final(task).strm(PktDirection::Client2Server).unread(),
                ))
                &&& (old(task).spec_l7() == Some(L7Proto::Read) ==> final(task).strm(
                    PktDirection::Client2Server,
                ).unread().len() == 0)
            },
            // no byte is lost: every position a buffered packet covered is
            // either reassembled by now or still covered by a buffered packet
            forall|x: SeqPacket, i: int|
                #![trigger old(task).strm(pkt.direction).heap_ms().count(x), covers(x, i)]
                old(task).strm(pkt.direction).heap_ms().count(x) > 0 && covers(x, i) && i >= old(task).strm(pkt.direction).spec_next_abs() ==> i < final(task).strm(
                    pkt.direction,
                ).spec_next_abs() || covered_by(final(task).strm(pkt.direction).heap_ms(), i),
            // nor is any byte of the packet itself, when the stream admits it
            ({
                let s = old(task).strm(pkt.direction);
                let start = s.pkt_start(&pkt);
                s.spec_seq_set() && !s.spec_stalled() && 1 <= pkt.data@.len() <= MAX_PKT_LEN
                    && s.spec_next_abs() < SEQ_LIMIT as int && !(pkt.syn_flag && pkt.data@.len()
                    == 0) && s.pkt_end(&pkt) > s.spec_next_abs() && !(final(task).strm(
                    pkt.direction,
                ).spec_fin_seen() && start >= final(task).strm(pkt.direction).spec_fin_abs())
                    && s.heap_len() < s.heap_capacity() ==> forall|i: int|
                    start <= i < s.pkt_end(&pkt) && i >= s.spec_next_abs() ==> i < final(task).strm(pkt.direction).spec_next_abs() || covered_by(
                        final(task).strm(pkt.direction).heap_ms(),
                        i,
                    )
            }),
            // the drain is exhaustive unless the buffer is full
            final(task).drained(pkt.direction) || final(task).strm(
                pkt.direction,
            ).unread().len() == final(task).strm(pkt.direction).spec_cap(),
            // idempotence under retransmit: a retransmit of fully
            // reassembled data fed to a settled task changes nothing and
            // emits nothing
            ({
                let s = old(task).strm(pkt.direction);
                old(task).settled() && old(task).drained(pkt.direction) && s.spec_seq_set()
                    && !s.spec_stalled() && 1 <= pkt.data@.len() <= MAX_PKT_LEN
                    && s.spec_next_abs() < SEQ_LIMIT as int && s.pkt_end(&pkt)
                    <= s.spec_next_abs() && (pkt.fin_flag ==> s.spec_fin_seen()) ==> *final(task)
                    == *old(task) && events@ == Seq::<CbEvent>::empty()
            }),
    {
        let mut events: Vec<CbEvent> = Vec::new();
        let ghost d = pkt.direction;
        match pkt.direction {
            PktDirection::Server2Client => {
                let ghost t0 = *task;
                let ghost gpkt = pkt;
                task.strm_s2c.ingest(pkt);
                let ghost t1 = task.strm_s2c;
                proof {
                    assert(events@.skip(0) =~= events@);
                }
                let ghost evs_pre = events@;
                let progress = task.strm_s2c.fill(&mut events);
                proof {
                    task.strm_s2c.lemma_wf_bounds();
                    assert(events@.skip(0) =~= events@);
                    let fs = task.strm_s2c;
                    let delta = fs.spec_assembled().skip(t0.strm_s2c.spec_assembled().len() as int);
                    assert(t1.spec_assembled() == t0.strm_s2c.spec_assembled());
                    assert(t1.unread() == t0.strm_s2c.unread());
                    let avail = t0.strm_s2c.unread() + delta;
                    assert(fs.unread() =~= avail);
                    assert(avail.skip(0) =~= avail);
                    assert forall|dd: PktDirection| dd != pkt.direction implies #[trigger] task.strm(
                        dd,
                    ) == old(task).strm(dd) by {}
                    if task.strm_s2c.unread().len() < task.strm_s2c.spec_cap() {
                        assert forall|x: crate::packet::SeqPacket|
                            task.strm(PktDirection::Server2Client).heap_ms().count(x) > 0
                            implies x.abs as int > task.strm(
                            PktDirection::Server2Client,
                        ).spec_next_abs() by {
                            assert(task.strm_s2c.heap_ms().count(x) > 0);
                        }
                        assert(task.drained(PktDirection::Server2Client));
                    } else {
                        assert(task.strm_s2c.unread().len() == task.strm_s2c.spec_cap());
                        assert(task.strm(PktDirection::Server2Client).unread().len()
                            == task.strm(PktDirection::Server2Client).spec_cap());
                    }
                    assert(pkt.direction == PktDirection::Server2Client);
                    // conservation stated against the caller's view
                    assert forall|x: SeqPacket, i: int|
                        t0.strm_s2c.heap_ms().count(x) > 0 && covers(x, i) && i
                            >= t0.strm_s2c.spec_next_abs() implies i
                        < task.strm_s2c.spec_next_abs() || covered_by(
                        task.strm_s2c.heap_ms(),
                        i,
                    ) by {
                        if t0.strm_s2c.spec_seq_set() {
                            assert(t1.heap_ms().count(x) > 0);
                            assert(t1.spec_next_abs() == t0.strm_s2c.spec_next_abs());
                        } else {
                            t0.strm_s2c.lemma_unanchored_empty();
                            assert(false);
                        }
                    }
                    {
                        let s = t0.strm_s2c;
                        t0.strm_s2c.lemma_wf_bounds();
                        let start = s.pkt_start(&gpkt);
                        if s.spec_seq_set() && !s.spec_stalled() && 1 <= gpkt.data@.len()
                            <= MAX_PKT_LEN && s.spec_next_abs() < SEQ_LIMIT as int && !(
                        gpkt.syn_flag && gpkt.data@.len() == 0) && s.pkt_end(&gpkt)
                            > s.spec_next_abs() && !(task.strm_s2c.spec_fin_seen() && start
                            >= task.strm_s2c.spec_fin_abs()) && s.heap_len() < s.heap_capacity() {
                            let sp = SeqPacket {
                                abs: start as u64,
                                tie: crate::packet::spec_tie_rank(&gpkt),
                                pkt: gpkt,
                            };
                            assert(t1.heap_ms() == s.heap_ms().insert(sp));
                            assert(t1.heap_ms().count(sp) > 0);
                            assert forall|i: int|
                                start <= i < s.pkt_end(&gpkt) && i >= s.spec_next_abs() implies i
                                < task.strm_s2c.spec_next_abs() || covered_by(
                                task.strm_s2c.heap_ms(),
                                i,
                            ) by {
                                assert(covers(sp, i));
                            }
                        }
                    }
                    // idempotence: a settled retransmit is a no-op
                    let s = t0.strm_s2c;
                    if t0.drained(PktDirection::Server2Client) && s.spec_seq_set()
                        && !s.spec_stalled() && 1 <= pkt.data@.len() <= MAX_PKT_LEN
                        && s.spec_next_abs() < SEQ_LIMIT as int && s.pkt_end(&pkt)
                        <= s.spec_next_abs() && (pkt.fin_flag ==> s.spec_fin_seen()) {
                        assert(t1 == s);
                        assert(!progress);
                        assert(*task =~= t0);
                        assert(*task == t0);
                    }
                }
                events
            },
            PktDirection::Client2Server => {
                let ghost t0 = *task;
                let ghost gpkt = pkt;
                task.strm_c2s.ingest(pkt);
                let ghost t1 = task.strm_c2s;
                proof {
                    task.strm_c2s.lemma_wf_bounds();
                    assert(events@.skip(0) =~= events@);
                    assert(t1.spec_assembled().take(t1.spec_assembled().len() as int)
                        =~= t1.spec_assembled());
                    assert(t1.spec_assembled().skip(t1.spec_assembled().len() as int)
                        =~= Seq::<u8>::empty());
                    let avail0 = t1.unread() + Seq::<u8>::empty();
                    assert(avail0 =~= t1.unread());
                    assert(avail0.skip(0) =~= avail0);
                    assert(avail0.take(0) =~= Seq::<u8>::empty());
                }
                loop
                    invariant
                        t0 == *old(task),
                        t0.wf(),
                        t1.wf(),
                        task.strm_c2s.wf(),
                        task.strm_s2c == t0.strm_s2c,
                        task.parser == t0.parser,
                        t1.spec_dir() == PktDirection::Client2Server,
                        task.strm_c2s.spec_dir() == PktDirection::Client2Server,
                        task.strm_c2s.spec_cap() == t1.spec_cap(),
                        task.strm_c2s.heap_capacity() == t1.heap_capacity(),
                        task.strm_c2s.spec_seq_set() == t1.spec_seq_set(),
                        task.strm_c2s.spec_fin_seen() == t1.spec_fin_seen(),
                        task.strm_c2s.spec_fin_abs() == t1.spec_fin_abs(),
                        task.strm_c2s.spec_max_end() == t1.spec_max_end(),
                        t1.spec_stalled() ==> task.strm_c2s.spec_stalled(),
                        0 <= task.strm_c2s.heap_len(),
                        task.strm_c2s.heap_len() <= t1.heap_len(),
                        task.strm_c2s.spec_next_abs() <= task.strm_c2s.spec_max_end(),
                        task.strm_c2s.spec_next_abs() >= t1.spec_next_abs(),
                        task.strm_c2s.spec_assembled().len() == t1.spec_assembled().len() + (
                        task.strm_c2s.spec_next_abs() - t1.spec_next_abs()),
                        task.strm_c2s.spec_assembled().take(t1.spec_assembled().len() as int)
                            == t1.spec_assembled(),
                        ({
                            let delta = task.strm_c2s.spec_assembled().skip(
                                t1.spec_assembled().len() as int,
                            );
                            let avail = t1.unread() + delta;
                            let cl = avail.len() - task.strm_c2s.unread().len();
                            &&& 0 <= cl
                            &&& task.strm_c2s.unread() == avail.skip(cl)
                            &&& task.strm_c2s.head_abs() == t1.head_abs() + cl
                            &&& ev_run(
                                events@,
                                raw_ex(PktDirection::Client2Server),
                                t1.spec_next_abs(),
                            ) == Some(delta)
                            &&& (t0.spec_l7() == Some(L7Proto::Readline) && t0.spec_state()
                                == TaskState::Alive ==> ev_run(events@, line_ex(), t1.head_abs())
                                == Some(avail.take(cl)))
                            &&& (t0.spec_l7() == Some(L7Proto::Read) && t0.spec_state()
                                == TaskState::Alive ==> ev_run(events@, read_ex(), t1.head_abs())
                                == Some(avail.take(cl)))
                            &&& ((t0.spec_l7() is None || t0.spec_state() != TaskState::Alive)
                                ==> cl == 0)
                        }),
                        forall|x: SeqPacket, i: int|
                            #![trigger t1.heap_ms().count(x), covers(x, i)]
                            t1.heap_ms().count(x) > 0 && covers(x, i) && i >= t1.spec_next_abs()
                                ==> i < task.strm_c2s.spec_next_abs() || covered_by(
                                task.strm_c2s.heap_ms(),
                                i,
                            ),
                        forall|j: int|
                            0 <= j < events@.len() ==> ((#[trigger] events@[j])
                                matches CbEvent::Line { .. } ==> is_proper_line(events@[j])),
                        t0.spec_state() != TaskState::Alive ==> task.state == t0.spec_state(),
                        task.state == TaskState::Failed && t0.spec_state() != TaskState::Failed
                            ==> task.strm_c2s.spec_stalled(),
                        ({
                            let s = t0.strm_c2s;
                            t0.settled() && t0.drained(PktDirection::Client2Server)
                                && s.spec_seq_set() && !s.spec_stalled() && 1 <= pkt.data@.len()
                                <= MAX_PKT_LEN && s.spec_next_abs() < SEQ_LIMIT as int
                                && s.pkt_end(&pkt) <= s.spec_next_abs() && (pkt.fin_flag
                                ==> s.spec_fin_seen()) ==> task.strm_c2s == t1 && t1 == s
                                && events@ == Seq::<CbEvent>::empty() && task.state
                                == t0.spec_state()
                        }),
                    ensures
                        task.strm_s2c == t0.strm_s2c,
                        task.parser == t0.parser,
                        task.strm_c2s.wf(),
                        task.strm_c2s.spec_dir() == PktDirection::Client2Server,
                        task.strm_c2s.spec_cap() == t1.spec_cap(),
                        task.strm_c2s.heap_capacity() == t1.heap_capacity(),
                        task.strm_c2s.spec_next_abs() >= t1.spec_next_abs(),
                        task.strm_c2s.spec_assembled().len() == t1.spec_assembled().len() + (
                        task.strm_c2s.spec_next_abs() - t1.spec_next_abs()),
                        task.strm_c2s.spec_assembled().take(t1.spec_assembled().len() as int)
                            == t1.spec_assembled(),
                        ({
                            let delta = task.strm_c2s.spec_assembled().skip(
                                t1.spec_assembled().len() as int,
                            );
                            let avail = t1.unread() + delta;
                            let cl = avail.len() - task.strm_c2s.unread().len();
                            &&& 0 <= cl
                            &&& task.strm_c2s.unread() == avail.skip(cl)
                            &&& task.strm_c2s.head_abs() == t1.head_abs() + cl
                            &&& ev_run(
                                events@,
                                raw_ex(PktDirection::Client2Server),
                                t1.spec_next_abs(),
                            ) == Some(delta)
                            &&& (t0.spec_l7() == Some(L7Proto::Readline) && t0.spec_state()
                                == TaskState::Alive ==> ev_run(events@, line_ex(), t1.head_abs())
                                == Some(avail.take(cl)))
                            &&& (t0.spec_l7() == Some(L7Proto::Read) && t0.spec_state()
                                == TaskState::Alive ==> ev_run(events@, read_ex(), t1.head_abs())
                                == Some(avail.take(cl)))
                            &&& ((t0.spec_l7() is None || t0.spec_state() != TaskState::Alive)
                                ==> cl == 0)
                        }),
                        forall|x: SeqPacket, i: int|
                            #![trigger t1.heap_ms().count(x), covers(x, i)]
                            t1.heap_ms().count(x) > 0 && covers(x, i) && i >= t1.spec_next_abs()
                                ==> i < task.strm_c2s.spec_next_abs() || covered_by(
                                task.strm_c2s.heap_ms(),
                                i,
                            ),
                        forall|j: int|
                            0 <= j < events@.len() ==> ((#[trigger] events@[j])
                                matches CbEvent::Line { .. } ==> is_proper_line(events@[j])),
                        t0.spec_state() != TaskState::Alive ==> task.state == t0.spec_state(),
                        task.state == TaskState::Failed && t0.spec_state() != TaskState::Failed
                            ==> task.strm_c2s.spec_stalled(),
                        task.state == TaskState::Alive && t0.spec_state() == TaskState::Alive
                            ==> {
                            &&& (t0.spec_l7() == Some(L7Proto::Readline) ==> !has_lf(
                                task.strm_c2s.unread(),
                            ))
                            &&& (t0.spec_l7() == Some(L7Proto::Read)
                                ==> task.strm_c2s.unread().len() == 0)
                        },
                        task.strm_c2s.unread().len() < task.strm_c2s.spec_cap() ==> (forall|
                            x: crate::packet::SeqPacket,
                        |
                            #[trigger] task.strm_c2s.heap_ms().count(x) > 0 ==> x.abs as int
                                > task.strm_c2s.spec_next_abs()),
                        ({
                            let s = t0.strm_c2s;
                            t0.settled() && t0.drained(PktDirection::Client2Server)
                                && s.spec_seq_set() && !s.spec_stalled() && 1 <= pkt.data@.len()
                                <= MAX_PKT_LEN && s.spec_next_abs() < SEQ_LIMIT as int
                                && s.pkt_end(&pkt) <= s.spec_next_abs() && (pkt.fin_flag
                                ==> s.spec_fin_seen()) ==> task.strm_c2s == t1 && t1 == s
                                && events@ == Seq::<CbEvent>::empty() && task.state
                                == t0.spec_state()
                        }),
                    decreases
                        task.strm_c2s.heap_len(),
                        task.strm_c2s.spec_max_end() - task.strm_c2s.spec_next_abs(),
                        task.strm_c2s.unread().len(),
                {
                    let ghost s_pre = task.strm_c2s;
                    let ghost evs_pre = events@;
                    let ghost delta_pre = s_pre.spec_assembled().skip(
                        t1.spec_assembled().len() as int,
                    );
                    let ghost avail_pre = t1.unread() + delta_pre;
                    let ghost cl_pre = avail_pre.len() - s_pre.unread().len();
                    let a = task.strm_c2s.fill(&mut events);
                    let ghost s_mid = task.strm_c2s;
                    let ghost evs_mid = events@;
                    proof {
                        task.strm_c2s.lemma_wf_bounds();
                        let ext = evs_mid.skip(evs_pre.len() as int);
                        assert(evs_mid =~= evs_pre + ext);
                        let fd = s_mid.spec_assembled().skip(s_pre.spec_assembled().len() as int);
                        let delta_mid = s_mid.spec_assembled().skip(
                            t1.spec_assembled().len() as int,
                        );
                        assert(delta_mid =~= delta_pre + fd);
                        assert(s_pre.spec_next_abs() == t1.spec_next_abs() + delta_pre.len());
                        lemma_ev_run_concat(
                            evs_pre,
                            ext,
                            raw_ex(PktDirection::Client2Server),
                            t1.spec_next_abs(),
                        );
                        let avail_mid = t1.unread() + delta_mid;
                        assert(s_mid.unread() =~= avail_mid.skip(cl_pre));
                        assert(avail_mid.take(cl_pre) =~= avail_pre.take(cl_pre));
                        assert forall|j: int| 0 <= j < ext.len() implies line_ex()(
                            #[trigger] ext[j],
                        ) is None by {
                            assert(evs_mid[evs_pre.len() + j] matches CbEvent::Raw { .. });
                        }
                        assert forall|j: int| 0 <= j < ext.len() implies read_ex()(
                            #[trigger] ext[j],
                        ) is None by {
                            assert(evs_mid[evs_pre.len() + j] matches CbEvent::Raw { .. });
                        }
                        if t0.spec_l7() == Some(L7Proto::Readline) && t0.spec_state()
                            == TaskState::Alive {
                            lemma_ev_run_all_skipped(
                                ext,
                                line_ex(),
                                t1.head_abs() + avail_pre.take(cl_pre).len(),
                            );
                            lemma_ev_run_concat(evs_pre, ext, line_ex(), t1.head_abs());
                            assert(avail_pre.take(cl_pre) + Seq::<u8>::empty() =~= avail_mid.take(
                                cl_pre,
                            ));
                        }
                        if t0.spec_l7() == Some(L7Proto::Read) && t0.spec_state()
                            == TaskState::Alive {
                            lemma_ev_run_all_skipped(
                                ext,
                                read_ex(),
                                t1.head_abs() + avail_pre.take(cl_pre).len(),
                            );
                            lemma_ev_run_concat(evs_pre, ext, read_ex(), t1.head_abs());
                            assert(avail_pre.take(cl_pre) + Seq::<u8>::empty() =~= avail_mid.take(
                                cl_pre,
                            ));
                        }
                        // byte conservation composes across the drain
                        assert forall|x: SeqPacket, i: int|
                            t1.heap_ms().count(x) > 0 && covers(x, i) && i
                                >= t1.spec_next_abs() implies i < task.strm_c2s.spec_next_abs()
                            || covered_by(task.strm_c2s.heap_ms(), i) by {
                            if i >= task.strm_c2s.spec_next_abs() {
                                assert(i < s_pre.spec_next_abs() || covered_by(
                                    s_pre.heap_ms(),
                                    i,
                                ));
                                if i >= s_pre.spec_next_abs() {
                                    let y = choose|y: SeqPacket|
                                        #[trigger] s_pre.heap_ms().count(y) > 0 && covers(y, i);
                                    assert(i < s_mid.spec_next_abs() || covered_by(
                                        s_mid.heap_ms(),
                                        i,
                                    ));
                                }
                            }
                        }
                    }
                    proof {
                        let s = t0.strm_c2s;
                        if t0.settled() && t0.drained(PktDirection::Client2Server)
                            && s.spec_seq_set() && !s.spec_stalled() && 1 <= pkt.data@.len()
                            <= MAX_PKT_LEN && s.spec_next_abs() < SEQ_LIMIT as int
                            && s.pkt_end(&pkt) <= s.spec_next_abs() && (pkt.fin_flag
                            ==> s.spec_fin_seen()) {
                            assert(s_pre == t1);
                            assert forall|x: crate::packet::SeqPacket|
                                s_pre.heap_ms().count(x) > 0 implies x.abs as int
                                > s_pre.spec_next_abs() by {
                                assert(t0.strm(PktDirection::Client2Server).heap_ms().count(x)
                                    > 0);
                            }
                            assert(!a);
                            assert(s_mid == t1);
                        }
                    }
                    let mut b = false;
                    if task.state == TaskState::Alive {
                        let ghost evs_p = events@;
                        let ghost s_p = task.strm_c2s;
                        let before = task.strm_c2s.avail();
                        let mut outcome = PollOutcome::Pending;
                        let mut polled = false;
                        match &task.parser {
                            Option::None => {},
                            Option::Some(ParserKind::Read(p)) => {
                                outcome = p.poll(&mut task.strm_c2s, &mut events);
                                polled = true;
                            },
                            Option::Some(ParserKind::Readline(p)) => {
                                outcome = p.poll(&mut task.strm_c2s, &mut events);
                                polled = true;
                            },
                        }
                        let after = task.strm_c2s.avail();
                        b = after < before;
                        proof {
                            if polled {
                                let ext = events@.skip(evs_p.len() as int);
                                assert(events@ =~= evs_p + ext);
                                let k = s_p.unread().len() - task.strm_c2s.unread().len();
                                let kind_line = t0.spec_l7() == Some(L7Proto::Readline);
                                // raw run unchanged: parser events are not raw
                                assert forall|j: int| 0 <= j < ext.len() implies raw_ex(
                                    PktDirection::Client2Server,
                                )(#[trigger] ext[j]) is None by {
                                    assert(ext[j] == events@[evs_p.len() + j]);
                                }
                                let delta_mid = s_mid.spec_assembled().skip(
                                    t1.spec_assembled().len() as int,
                                );
                                lemma_ev_run_all_skipped(
                                    ext,
                                    raw_ex(PktDirection::Client2Server),
                                    t1.spec_next_abs() + delta_mid.len(),
                                );
                                lemma_ev_run_concat(
                                    evs_p,
                                    ext,
                                    raw_ex(PktDirection::Client2Server),
                                    t1.spec_next_abs(),
                                );
                                assert(delta_mid + Seq::<u8>::empty() =~= delta_mid);
                                // parser run extends by the consumed bytes
                                let avail_mid = t1.unread() + delta_mid;
                                let cl_mid = avail_mid.len() - s_p.unread().len();
                                if kind_line && t0.spec_state() == TaskState::Alive {
                                    assert(s_p.head_abs() == t1.head_abs() + cl_mid);
                                    lemma_ev_run_concat(evs_p, ext, line_ex(), t1.head_abs());
                                    assert(avail_mid.take(cl_mid) + s_p.unread().take(k)
                                        =~= avail_mid.take(cl_mid + k));
                                }
                                if !kind_line && t0.spec_l7() == Some(L7Proto::Read)
                                    && t0.spec_state() == TaskState::Alive {
                                    assert(s_p.head_abs() == t1.head_abs() + cl_mid);
                                    lemma_ev_run_concat(evs_p, ext, read_ex(), t1.head_abs());
                                    assert(avail_mid.take(cl_mid) + s_p.unread().take(k)
                                        =~= avail_mid.take(cl_mid + k));
                                }
                                assert(task.strm_c2s.unread() =~= avail_mid.skip(cl_mid + k));
                            }
                        }
                        match outcome {
                            PollOutcome::Pending => {},
                            PollOutcome::Done => {
                                if polled {
                                    task.state = TaskState::Done;
                                }
                            },
                            PollOutcome::Failed => {
                                if polled {
                                    task.state = TaskState::Failed;
                                }
                            },
                        }
                    }
                    if !a && !b {
                        proof {
                            if task.strm_c2s.unread().len() < task.strm_c2s.spec_cap() {
                                assert forall|x: crate::packet::SeqPacket|
                                    task.strm_c2s.heap_ms().count(x) > 0 implies x.abs as int
                                    > task.strm_c2s.spec_next_abs() by {
                                    assert(s_mid.heap_ms().count(x) > 0);
                                }
                            }
                        }
                        break ;
                    }
                    proof {
                        task.strm_c2s.lemma_wf_bounds();
                    }
                }
                proof {
                    assert(t1.spec_assembled() == t0.strm_c2s.spec_assembled());
                    assert(t1.unread() == t0.strm_c2s.unread());
                    task.strm_c2s.lemma_wf_bounds();
                    if task.strm_c2s.unread().len() < task.strm_c2s.spec_cap() {
                        assert forall|x: crate::packet::SeqPacket|
                            task.strm(PktDirection::Client2Server).heap_ms().count(x) > 0
                            implies x.abs as int > task.strm(
                            PktDirection::Client2Server,
                        ).spec_next_abs() by {
                            assert(task.strm_c2s.heap_ms().count(x) > 0);
                        }
                        assert(task.drained(PktDirection::Client2Server));
                    } else {
                        assert(task.strm_c2s.unread().len() == task.strm_c2s.spec_cap());
                        assert(task.strm(PktDirection::Client2Server).unread().len()
                            == task.strm(PktDirection::Client2Server).spec_cap());
                    }
                    assert forall|dd: PktDirection| dd != pkt.direction implies #[trigger] task.strm(
                        dd,
                    ) == old(task).strm(dd) by {}
                    // conservation stated against the caller's view
                    assert forall|x: SeqPacket, i: int|
                        t0.strm_c2s.heap_ms().count(x) > 0 && covers(x, i) && i
                            >= t0.strm_c2s.spec_next_abs() implies i
                        < task.strm_c2s.spec_next_abs() || covered_by(
                        task.strm_c2s.heap_ms(),
                        i,
                    ) by {
                        if t0.strm_c2s.spec_seq_set() {
                            assert(t1.heap_ms().count(x) > 0);
                            assert(t1.spec_next_abs() == t0.strm_c2s.spec_next_abs());
                        } else {
                            t0.strm_c2s.lemma_unanchored_empty();
                            assert(false);
                        }
                    }
                    {
                        let s = t0.strm_c2s;
                        t0.strm_c2s.lemma_wf_bounds();
                        let start = s.pkt_start(&gpkt);
                        if s.spec_seq_set() && !s.spec_stalled() && 1 <= gpkt.data@.len()
                            <= MAX_PKT_LEN && s.spec_next_abs() < SEQ_LIMIT as int && !(
                        gpkt.syn_flag && gpkt.data@.len() == 0) && s.pkt_end(&gpkt)
                            > s.spec_next_abs() && !(task.strm_c2s.spec_fin_seen() && start
                            >= task.strm_c2s.spec_fin_abs()) && s.heap_len() < s.heap_capacity() {
                            let sp = SeqPacket {
                                abs: start as u64,
                                tie: crate::packet::spec_tie_rank(&gpkt),
                                pkt: gpkt,
                            };
                            assert(t1.heap_ms() == s.heap_ms().insert(sp));
                            assert(t1.heap_ms().count(sp) > 0);
                            assert forall|i: int|
                                start <= i < s.pkt_end(&gpkt) && i >= s.spec_next_abs() implies i
                                < task.strm_c2s.spec_next_abs() || covered_by(
                                task.strm_c2s.heap_ms(),
                                i,
                            ) by {
                                assert(covers(sp, i));
                            }
                        }
                    }
                    let s = t0.strm_c2s;
                    if t0.settled() && t0.drained(PktDirection::Client2Server) && s.spec_seq_set()
                        && !s.spec_stalled() && 1 <= pkt.data@.len() <= MAX_PKT_LEN
                        && s.spec_next_abs() < SEQ_LIMIT as int && s.pkt_end(&pkt)
                        <= s.spec_next_abs() && (pkt.fin_flag ==> s.spec_fin_seen()) {
                        assert(*task =~= t0);
                        assert(*task == t0);
                    }
                }
                events
            },
        }
    }
}

/// The default configuration.
impl Default for Prolens {
    fn default() -> (r: Self)
        ensures
            r.wf(),
            r.conf_read_buff == MAX_READ_BUFF,
            r.conf_heap_cap == HEAP_CAP,
    {
        Prolens::new()
    }
}

/// Hands each parser event to its callback: `Read` chunks to `cb_read`,
/// `Line` events to `cb_line`, in event order. Raw chunks are delivered
/// separately by [`deliver_raw`].
pub fn deliver_events<R: ReadCbFn, L: ReadLineCbFn>(
    events: &Vec<CbEvent>,
    cb_read: &mut R,
    cb_line: &mut L,
)
{
    let n = events.len();
    let mut i: usize = 0;
    while i < n
        invariant
            n == events@.len(),
            i <= n,
        decreases n - i,
    {
        match &events[i] {
            CbEvent::Read { data, seq } => {
                cb_read.call(data, *seq);
            },
            CbEvent::Line { data, seq } => {
                cb_line.call(data, *seq);
            },
            CbEvent::Raw { .. } => {},
        }
        i += 1;
    }
}

/// Hands each raw chunk of the given direction to the raw callback, in
/// event order.
pub fn deliver_raw<R: ReadCbFn>(events: &Vec<CbEvent>, dir: PktDirection, cb: &mut R)
{
    let n = events.len();
    let mut i: usize = 0;
    while i < n
        invariant
            n == events@.len(),
            i <= n,
        decreases n - i,
    {
        match &events[i] {
            CbEvent::Raw { data, seq, dir: d } => {
                if *d == dir {
                    cb.call(data, *seq);
                }
            },
            _ => {},
        }
        i += 1;
    }
}

} // verus!
