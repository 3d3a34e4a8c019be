use protolens::{
    deliver_events, deliver_raw, CbEvent, L7Proto, Packet, PktDirection, PktStrm, Prolens,
    ReadCbFn, ReadLineCbFn, StrmError, TaskState, TransProto, MAX_READ, MAX_READ_BUFF,
};

fn build_pkt_payload(sequence: u32, payload: &[u8]) -> Packet {
    Packet {
        sport: 4000,
        dport: 80,
        sequence,
        syn_flag: false,
        fin_flag: false,
        data: payload.to_vec(),
        direction: PktDirection::Client2Server,
    }
}

fn build_pkt(sequence: u32, _last: bool) -> Packet {
    build_pkt_payload(sequence, &[1, 2, 3, 4, 5, 6, 7, 8, 9, 10])
}

fn build_pkt_syn(sequence: u32) -> Packet {
    Packet { syn_flag: true, ..build_pkt_payload(sequence, &[]) }
}

fn build_pkt_fin(sequence: u32) -> Packet {
    Packet { fin_flag: true, ..build_pkt_payload(sequence, &[]) }
}

fn build_pkt_payload_fin(sequence: u32, payload: &[u8]) -> Packet {
    Packet { fin_flag: true, ..build_pkt_payload(sequence, payload) }
}

#[derive(Default)]
struct ByteSink {
    bytes: Vec<u8>,
    seqs: Vec<u32>,
}

impl ReadCbFn for ByteSink {
    fn call(&mut self, data: &Vec<u8>, seq: u32) {
        self.bytes.extend_from_slice(data);
        self.seqs.push(seq);
    }
}

#[derive(Default)]
struct ChunkSink {
    chunks: Vec<Vec<u8>>,
    seqs: Vec<u32>,
}

impl ReadCbFn for ChunkSink {
    fn call(&mut self, data: &Vec<u8>, seq: u32) {
        self.chunks.push(data.clone());
        self.seqs.push(seq);
    }
}

#[derive(Default)]
struct LineSink {
    lines: Vec<Vec<u8>>,
    seqs: Vec<u32>,
}

impl ReadLineCbFn for LineSink {
    fn call(&mut self, line: &Vec<u8>, seq: u32) {
        self.lines.push(line.clone());
        self.seqs.push(seq);
    }
}

/// Runs a readline task over the packets and returns (lines, line seqs,
/// raw chunks, raw seqs).
fn run_readline(pkts: Vec<Packet>) -> (Vec<Vec<u8>>, Vec<u32>, Vec<Vec<u8>>, Vec<u32>) {
    let mut protolens = Prolens::default();
    let mut task = protolens.new_task(TransProto::Tcp);
    protolens.set_task_parser(&mut task, L7Proto::Readline);
    let mut lines = LineSink::default();
    let mut bytes = ByteSink::default();
    let mut raw = ChunkSink::default();
    for pkt in pkts {
        let events = protolens.run_task(&mut task, pkt);
        deliver_raw(&events, PktDirection::Client2Server, &mut raw);
        deliver_events(&events, &mut bytes, &mut lines);
    }
    (lines.lines, lines.seqs, raw.chunks, raw.seqs)
}

#[test]
fn test_read_single_packet() {
    let seq1 = 1;
    let pkt1 = build_pkt(seq1, true);

    let mut protolens = Prolens::default();
    let mut task = protolens.new_task(TransProto::Tcp);
    protolens.set_task_parser(&mut task, L7Proto::Read);

    let events = protolens.run_task(&mut task, pkt1);
    let mut sink = ByteSink::default();
    let mut lines = LineSink::default();
    deliver_events(&events, &mut sink, &mut lines);

    let expected: Vec<u8> = vec![1, 2, 3, 4, 5, 6, 7, 8, 9, 10];
    assert_eq!(sink.bytes, expected);
    assert_eq!(*sink.seqs.last().unwrap(), seq1);
}

#[test]
fn test_read_multiple_packets() {
    let seq1 = 1;
    let pkt1 = build_pkt(seq1, false);
    let seq2 = 11;
    let pkt2 = build_pkt(seq2, true);

    let mut protolens = Prolens::default();
    let mut task = protolens.new_task(TransProto::Tcp);
    protolens.set_task_parser(&mut task, L7Proto::Read);

    let mut sink = ByteSink::default();
    let mut lines = LineSink::default();
    let events = protolens.run_task(&mut task, pkt1);
    deliver_events(&events, &mut sink, &mut lines);
    let events = protolens.run_task(&mut task, pkt2);
    deliver_events(&events, &mut sink, &mut lines);

    let expected: Vec<u8> = vec![1, 2, 3, 4, 5, 6, 7, 8, 9, 10, 1, 2, 3, 4, 5, 6, 7, 8, 9, 10];
    assert_eq!(sink.bytes, expected);
    assert_eq!(sink.seqs.len(), 2);
    assert_eq!(sink.seqs[0], seq1);
    assert_eq!(sink.seqs[1], seq2);
}

// a request larger than the buffer: the first read hands out a full
// buffer, the second the remainder
#[test]
fn test_read_n() {
    let payload = vec![b'a'; MAX_READ];

    let seq1 = 1;
    let pkt1 = build_pkt_payload(seq1, &payload);

    let mut protolens = Prolens::default();
    let mut task = protolens.new_task(TransProto::Tcp);
    protolens.set_task_parser(&mut task, L7Proto::Read);

    let events = protolens.run_task(&mut task, pkt1);
    let mut sink = ByteSink::default();
    let mut lines = LineSink::default();
    deliver_events(&events, &mut sink, &mut lines);

    assert_eq!(sink.bytes, payload);
    assert_eq!(sink.seqs.len(), 2);
    assert_eq!(sink.seqs[0], seq1);
    assert_eq!(sink.seqs[1], seq1 + MAX_READ_BUFF as u32);
}

// one packet holding a full line and the start of the next
#[test]
fn test_readline_single_line() {
    let seq1 = 1;
    let payload = [b'H', b'e', b'l', b'l', b'o', b'\r', b'\n', b'W', b'o', b'r'];
    let (lines, seqs, raw, raw_seqs) = run_readline(vec![build_pkt_payload(seq1, &payload)]);

    let line_expected = vec![b"Hello\r\n".to_vec()];
    let seq_expected = vec![1];
    assert_eq!(lines, line_expected);
    assert_eq!(seqs, seq_expected);

    // the raw callback sees each appended contiguous chunk whole
    let raw_data_expected = vec![b"Hello\r\nWor".to_vec()];
    let raw_seq_expected = vec![seq1];
    assert_eq!(raw, raw_data_expected);
    assert_eq!(raw_seqs, raw_seq_expected);
}

// a line crossing a packet boundary
#[test]
fn test_readline_multiple_packets() {
    let seq1 = 1;
    let payload1 = [b'H', b'e', b'l', b'l', b'o', b'\r', b'\n', b'W', b'o', b'r'];
    let seq2 = 11;
    let payload2 = [b'l', b'd', b'\r', b'\n', b'B', b'y', b'e', b'\r', b'\n', b'x'];

    let (lines, seqs, _, _) = run_readline(vec![
        build_pkt_payload(seq1, &payload1),
        build_pkt_payload(seq2, &payload2),
    ]);

    let line_expected = vec![
        b"Hello\r\n".to_vec(),
        b"World\r\n".to_vec(),
        b"Bye\r\n".to_vec(),
    ];
    let seq_expected = vec![1, 8, 15];
    assert_eq!(lines, line_expected);
    assert_eq!(seqs, seq_expected);
}

// the second line crosses the buffer boundary, forcing a compaction
#[test]
fn test_readline_buff_overlap() {
    let mut payload1 = Vec::new();
    for i in 0..MAX_READ_BUFF - 12 - 2 {
        payload1.push(b'A' + (i % 26) as u8);
    }
    payload1.extend_from_slice(b"\r\n");
    payload1.extend_from_slice(b"INCOMPLETE__");

    let payload2 = b"LINE\r\n".to_vec();

    let seq1 = 1;
    let seq2 = seq1 + payload1.len() as u32;
    let (lines, seqs, _, _) = run_readline(vec![
        build_pkt_payload(seq1, &payload1),
        build_pkt_payload(seq2, &payload2),
    ]);

    assert_eq!(lines.len(), 2);
    assert_eq!(lines[0].len(), MAX_READ_BUFF - 12);
    assert_eq!(&lines[0][MAX_READ_BUFF - 12 - 2..MAX_READ_BUFF - 12], b"\r\n");
    assert_eq!(lines[1], b"INCOMPLETE__LINE\r\n");
    assert_eq!(seqs[0], seq1);
    assert_eq!(seqs[1], seq1 + (MAX_READ_BUFF - 12) as u32);
}

#[test]
fn test_readline_buff_noverlap2() {
    let line1_len = MAX_READ_BUFF / 3; // terminator included
    let line2_start_len = MAX_READ_BUFF - line1_len;
    let line2_end_len = 10; // terminator included

    let mut payload1 = vec![b'a'; line1_len - 2];
    payload1.extend_from_slice(b"\r\n");
    payload1.extend_from_slice(&vec![b'b'; line2_start_len]);
    assert_eq!(payload1.len(), MAX_READ_BUFF);

    let mut payload2 = vec![b'b'; line2_end_len - 2];
    payload2.extend_from_slice(b"\r\n");

    let seq1 = 1;
    let seq2 = seq1 + payload1.len() as u32;
    let (lines, seqs, _, _) = run_readline(vec![
        build_pkt_payload(seq1, &payload1),
        build_pkt_payload(seq2, &payload2),
    ]);

    assert_eq!(lines.len(), 2);
    assert_eq!(lines[0].len(), line1_len);
    assert_eq!(&lines[0][line1_len - 2..line1_len], b"\r\n");

    let mut expected_second_line = vec![b'b'; line2_start_len + line2_end_len - 2];
    expected_second_line.extend_from_slice(b"\r\n");
    assert_eq!(lines[1], expected_second_line);

    assert_eq!(seqs[0], seq1);
    assert_eq!(seqs[1], seq1 + line1_len as u32);
}

// out-of-order delivery behind a SYN
#[test]
fn test_readline_with_syn() {
    let seq1 = 1;
    let pkt_syn = build_pkt_syn(seq1);

    let seq2 = 2; // the SYN consumes one sequence number
    let payload1 = [b'H', b'e', b'l', b'l', b'o', b'\r', b'\n', b'W', b'o', b'r'];
    let pkt1 = build_pkt_payload(seq2, &payload1);

    let seq3 = 12;
    let payload2 = [b'l', b'd', b'\r', b'\n', b'B', b'y', b'e', b'\r', b'\n', b'x'];
    let pkt2 = build_pkt_payload(seq3, &payload2);

    let (lines, seqs, _, _) = run_readline(vec![pkt_syn, pkt2, pkt1]);

    let line_expected = vec![
        b"Hello\r\n".to_vec(),
        b"World\r\n".to_vec(),
        b"Bye\r\n".to_vec(),
    ];
    let seq_expected = vec![2, 9, 16];
    assert_eq!(lines, line_expected);
    assert_eq!(seqs, seq_expected);
}

// a line exactly the size of the buffer
#[test]
fn test_readline_eq_buffer() {
    let seq1 = 1;
    let mut payload = vec![b'A'; MAX_READ_BUFF - 2];
    payload.extend_from_slice(b"\r\n");

    let (lines, seqs, _, _) = run_readline(vec![build_pkt_payload(seq1, &payload)]);

    assert_eq!(lines.len(), 1);
    assert_eq!(lines[0], payload);
    assert_eq!(seqs[0], seq1);
}

// a line longer than the buffer can never be delivered
#[test]
fn test_readline_exceeds_buffer() {
    let seq1 = 1;
    let mut payload = vec![b'A'; MAX_READ_BUFF];
    payload.extend_from_slice(b"\r\n");

    let (lines, _, _, _) = run_readline(vec![build_pkt_payload(seq1, &payload)]);

    assert_eq!(
        lines.len(),
        0,
        "no line may be delivered: the buffer is full without a terminator"
    );
}

// a full buffer without a terminator stalls the flow for good
#[test]
fn test_readline_full_buffer_without_newline() {
    let seq1 = 1;
    let mut payload1 = Vec::with_capacity(MAX_READ_BUFF);
    for i in 0..MAX_READ_BUFF {
        payload1.push(b'A' + (i % 26) as u8);
    }
    let seq2 = seq1 + payload1.len() as u32;
    let payload2 = b"\r\nNormal line\r\n".to_vec();

    let (lines, _, _, _) = run_readline(vec![
        build_pkt_payload(seq1, &payload1),
        build_pkt_payload(seq2, &payload2),
    ]);

    assert_eq!(
        lines.len(),
        0,
        "no line may be delivered: the first packet filled the buffer without a terminator"
    );
}

// bare line feeds terminate lines too
#[test]
fn test_readline_only_lf() {
    let seq1 = 1;
    let payload1 = b"First line\nSecond line\n".to_vec();
    let seq2 = seq1 + payload1.len() as u32;
    let payload2 = b"Third line\n".to_vec();
    let seq3 = seq2 + payload2.len() as u32;

    let (lines, seqs, _, _) = run_readline(vec![
        build_pkt_payload(seq1, &payload1),
        build_pkt_payload(seq2, &payload2),
        build_pkt_fin(seq3),
    ]);

    assert_eq!(lines.len(), 3);
    assert_eq!(&lines[0], b"First line\n");
    assert_eq!(&lines[1], b"Second line\n");
    assert_eq!(&lines[2], b"Third line\n");
    assert_eq!(seqs[0], seq1);
    assert_eq!(seqs[1], seq1 + b"First line\n".len() as u32);
    assert_eq!(seqs[2], seq2);
}

// an unterminated trailing fragment is never delivered
#[test]
fn test_readline_no_crlf() {
    let seq1 = 1;
    let payload1 = b"First line\nSecond line\n".to_vec();
    let seq2 = seq1 + payload1.len() as u32;
    let payload2 = b"Third line".to_vec();
    let seq3 = seq2 + payload2.len() as u32;

    let (lines, seqs, _, _) = run_readline(vec![
        build_pkt_payload(seq1, &payload1),
        build_pkt_payload(seq2, &payload2),
        build_pkt_fin(seq3),
    ]);

    assert_eq!(lines.len(), 2);
    assert_eq!(&lines[0], b"First line\n");
    assert_eq!(&lines[1], b"Second line\n");
    assert_eq!(seqs[0], seq1);
    assert_eq!(seqs[1], seq1 + b"First line\n".len() as u32);
}

// the last packet carries only the FIN
#[test]
fn test_readline_with_fin() {
    let seq1 = 1;
    let payload1 = b"First line\r\nSecond line\r\n".to_vec();
    let seq2 = seq1 + payload1.len() as u32;
    let payload2 = b"Third line\r\n".to_vec();
    let seq3 = seq2 + payload2.len() as u32;

    let (lines, seqs, _, _) = run_readline(vec![
        build_pkt_payload(seq1, &payload1),
        build_pkt_payload(seq2, &payload2),
        build_pkt_fin(seq3),
    ]);

    assert_eq!(lines.len(), 3);
    assert_eq!(&lines[0], b"First line\r\n");
    assert_eq!(&lines[1], b"Second line\r\n");
    assert_eq!(&lines[2], b"Third line\r\n");
    assert_eq!(seqs[0], seq1);
    assert_eq!(seqs[1], seq1 + b"First line\r\n".len() as u32);
    assert_eq!(seqs[2], seq2);
}

// the last packet carries data and the FIN
#[test]
fn test_readline_with_data_fin() {
    let seq1 = 1;
    let payload1 = b"First line\r\nSecond line\r\n".to_vec();
    let seq2 = seq1 + payload1.len() as u32;
    let payload2 = b"Last line with FIN\r\n".to_vec();

    let (lines, seqs, _, _) = run_readline(vec![
        build_pkt_payload(seq1, &payload1),
        build_pkt_payload_fin(seq2, &payload2),
    ]);

    assert_eq!(lines.len(), 3);
    assert_eq!(&lines[0], b"First line\r\n");
    assert_eq!(&lines[1], b"Second line\r\n");
    assert_eq!(&lines[2], b"Last line with FIN\r\n");
    assert_eq!(seqs[0], seq1);
    assert_eq!(seqs[1], seq1 + b"First line\r\n".len() as u32);
    assert_eq!(seqs[2], seq2);
}

// data after the FIN contributes nothing
#[test]
fn test_readline_with_middle_fin() {
    let seq1 = 1;
    let payload1 = b"First line\r\n".to_vec();
    let seq2 = seq1 + payload1.len() as u32;
    let payload2 = b"Last valid line\r\n".to_vec();
    let seq3 = seq2 + payload2.len() as u32;
    let payload3 = b"Should not be read\r\n".to_vec();

    let (lines, seqs, _, _) = run_readline(vec![
        build_pkt_payload(seq1, &payload1),
        build_pkt_payload_fin(seq2, &payload2),
        build_pkt_payload(seq3, &payload3),
    ]);

    assert_eq!(lines.len(), 2);
    assert_eq!(&lines[0], b"First line\r\n");
    assert_eq!(&lines[1], b"Last valid line\r\n");
    assert!(!lines.iter().any(|line| line == b"Should not be read\r\n"));
    assert_eq!(seqs[0], seq1);
    assert_eq!(seqs[1], seq2);
}

// an empty line is a line of its own
#[test]
fn test_readline_with_empty_line() {
    let seq1 = 1;
    let payload1 = b"First line\r\n".to_vec();
    let seq2 = seq1 + payload1.len() as u32;
    let payload2 = b"Last valid line\r\n".to_vec();
    let seq3 = seq2 + payload2.len() as u32;
    let payload3 = b"\r\n".to_vec();

    let (lines, seqs, _, _) = run_readline(vec![
        build_pkt_payload(seq1, &payload1),
        build_pkt_payload(seq2, &payload2),
        build_pkt_payload(seq3, &payload3),
    ]);

    assert_eq!(lines.len(), 3);
    assert_eq!(lines[0], payload1);
    assert_eq!(lines[1], payload2);
    assert_eq!(lines[2], payload3);
    assert_eq!(seqs[0], seq1);
    assert_eq!(seqs[1], seq2);
    assert_eq!(seqs[2], seq3);
}

// a packet only partly fitting the buffer is copied in two rounds
#[test]
fn test_readline_part_copy_pkt() {
    let second_line_start_len = 10;
    let space_len = 2;
    let first_line_len = MAX_READ_BUFF - second_line_start_len - space_len;

    let mut payload1 = vec![b'a'; first_line_len - 2];
    payload1.extend_from_slice(b"\r\n");
    payload1.extend_from_slice(&vec![b'b'; second_line_start_len]);
    assert_eq!(payload1.len(), MAX_READ_BUFF - space_len);

    let mut payload2 = vec![b'b'; 10];
    payload2.extend_from_slice(b"\r\n");

    let seq1 = 1;
    let seq2 = seq1 + payload1.len() as u32;
    let (lines, seqs, _, _) = run_readline(vec![
        build_pkt_payload(seq1, &payload1),
        build_pkt_payload(seq2, &payload2),
    ]);

    assert_eq!(lines.len(), 2);
    assert_eq!(lines[0].len(), first_line_len);
    assert_eq!(&lines[0][first_line_len - 2..first_line_len], b"\r\n");

    let mut expected_second_line = vec![b'b'; 20];
    expected_second_line.extend_from_slice(b"\r\n");
    assert_eq!(lines[1], expected_second_line);

    assert_eq!(seqs[0], seq1);
    assert_eq!(seqs[1], seq1 + first_line_len as u32);
}

// parsers are built fresh per task: creating a second task of the same
// protocol never consumes anything from the dispatcher
#[test]
fn test_readline_multi_task() {
    let seq1 = 1;
    let payload = [b'H', b'e', b'l', b'l', b'o', b'\r', b'\n', b'W', b'o', b'r'];
    let pkt1 = build_pkt_payload(seq1, &payload);

    let mut protolens = Prolens::default();
    let mut task1 = protolens.new_task(TransProto::Tcp);
    protolens.set_task_parser(&mut task1, L7Proto::Readline);
    let mut task2 = protolens.new_task(TransProto::Tcp);
    protolens.set_task_parser(&mut task2, L7Proto::Readline);

    let mut bytes = ByteSink::default();
    let mut lines = LineSink::default();
    let events = protolens.run_task(&mut task1, pkt1.clone());
    deliver_events(&events, &mut bytes, &mut lines);

    let line_expected = vec![b"Hello\r\n".to_vec()];
    let seq_expected = vec![1];
    assert_eq!(lines.lines, line_expected);
    assert_eq!(lines.seqs, seq_expected);

    let mut lines2 = LineSink::default();
    let events = protolens.run_task(&mut task2, pkt1);
    deliver_events(&events, &mut bytes, &mut lines2);

    assert_eq!(lines2.lines, line_expected);
    assert_eq!(lines2.seqs, seq_expected);
}

// order preservation: the raw chunks concatenated in call order equal the
// reassembled byte stream, whatever the arrival order
#[test]
fn test_raw_order_preservation() {
    let seq1 = 1;
    let p1 = b"abcde".to_vec();
    let p2 = b"fghij".to_vec();
    let p3 = b"klmno".to_vec();

    // anchor with a SYN, then deliver the data out of order: 3, 1, 2
    let (_, _, raw, raw_seqs) = run_readline(vec![
        build_pkt_syn(0),
        build_pkt_payload(11, &p3),
        build_pkt_payload(seq1, &p1),
        build_pkt_payload(6, &p2),
    ]);

    let all: Vec<u8> = raw.concat();
    assert_eq!(all, b"abcdefghijklmno".to_vec());
    assert_eq!(raw_seqs[0], 1);
    assert_eq!(*raw_seqs.last().unwrap(), 11);
}

// idempotence under retransmit: feeding a packet twice produces the same
// trace as feeding it once
#[test]
fn test_retransmit_idempotent() {
    let seq1 = 1;
    let payload1 = b"First line\r\nSec".to_vec();
    let seq2 = seq1 + payload1.len() as u32;
    let payload2 = b"ond line\r\n".to_vec();

    let once = run_readline(vec![
        build_pkt_payload(seq1, &payload1),
        build_pkt_payload(seq2, &payload2),
    ]);
    let twice = run_readline(vec![
        build_pkt_payload(seq1, &payload1),
        build_pkt_payload(seq1, &payload1),
        build_pkt_payload(seq2, &payload2),
        build_pkt_payload(seq2, &payload2),
    ]);

    assert_eq!(once, twice);
}

// reordering invariance: any arrival order of a contiguously tiling packet
// set yields the same callback stream
#[test]
fn test_reorder_invariance() {
    let p1 = (1u32, b"GET / HT".to_vec());
    let p2 = (9u32, b"TP/1.0\r\n".to_vec());
    let p3 = (17u32, b"Host: x\r\n".to_vec());

    let mk = |o: &[&(u32, Vec<u8>)]| {
        let mut pkts: Vec<Packet> = vec![build_pkt_syn(0)];
        pkts.extend(o.iter().map(|(s, p)| build_pkt_payload(*s, p)));
        let (lines, seqs, raw, _) = run_readline(pkts);
        (lines, seqs, raw.concat())
    };

    let in_order = mk(&[&p1, &p2, &p3]);
    let reordered1 = mk(&[&p3, &p1, &p2]);
    let reordered2 = mk(&[&p2, &p3, &p1]);

    assert_eq!(in_order.0, reordered1.0);
    assert_eq!(in_order.1, reordered1.1);
    assert_eq!(in_order.2, reordered1.2);
    assert_eq!(in_order.0, reordered2.0);
    assert_eq!(in_order.1, reordered2.1);
    assert_eq!(in_order.2, reordered2.2);
}

// wrap-around: a flow crossing sequence number zero delivers the same
// bytes as one starting at the bottom of the space
#[test]
fn test_wraparound() {
    let start: u32 = 0xFFFFFF00;
    let payload1 = vec![b'x'; 0xF8]; // up to 0xFFFFFFF8
    let mut payload2 = vec![b'y'; 14];
    payload2.extend_from_slice(b"\r\n"); // crosses zero

    let wrapped = run_readline(vec![
        build_pkt_payload(start, &payload1),
        build_pkt_payload(start.wrapping_add(payload1.len() as u32), &payload2),
    ]);
    let low = run_readline(vec![
        build_pkt_payload(0, &payload1),
        build_pkt_payload(payload1.len() as u32, &payload2),
    ]);

    // same lines, at sequence numbers shifted by the starting offset
    assert_eq!(wrapped.0, low.0);
    assert_eq!(wrapped.2, low.2);
    assert_eq!(wrapped.1.len(), low.1.len());
    for (w, l) in wrapped.1.iter().zip(low.1.iter()) {
        assert_eq!(*w, l.wrapping_add(start));
    }
}

// a flow with too many out-of-order packets is flow-fatal: the heap fills
// and the stream stalls without delivering anything
#[test]
fn test_heap_full_flow_fatal() {
    let mut pkts = Vec::new();
    // anchor the stream, then leave a gap at its head so nothing drains
    pkts.push(build_pkt_payload(1, b"z"));
    for i in 0..40u32 {
        // all beyond the gap at sequence 2
        pkts.push(build_pkt_payload(100 + 10 * i, b"0123456789"));
    }
    let (lines, _, raw, _) = run_readline(pkts);
    assert_eq!(lines.len(), 0);
    // only the anchoring byte was ever reassembled
    assert_eq!(raw.concat(), b"z".to_vec());
}

// stream-level: peekline returns exactly what readline then consumes
#[test]
fn test_peekline_readline_consistency() {
    let mut strm = PktStrm::new(64, 8, PktDirection::Client2Server);
    let mut events = Vec::new();
    strm.ingest(build_pkt_payload(1, b"one\r\ntwo\r\n"));
    strm.fill(&mut events);

    let peeked = strm.peekline().unwrap();
    let read = strm.readline().unwrap();
    assert_eq!(peeked, read);
    assert_eq!(read.0, b"one\r\n".to_vec());
    assert_eq!(read.1, 1);

    let peeked = strm.peekline().unwrap();
    let read = strm.readline().unwrap();
    assert_eq!(peeked, read);
    assert_eq!(read.0, b"two\r\n".to_vec());
    assert_eq!(read.1, 6);
}

// stream-level: readn pulls exactly n bytes and refuses n over capacity
#[test]
fn test_readn() {
    let mut strm = PktStrm::new(64, 8, PktDirection::Client2Server);
    let mut events = Vec::new();
    strm.ingest(build_pkt_payload(1, b"abcdefgh"));
    strm.fill(&mut events);

    assert_eq!(strm.readn(3), Ok((b"abc".to_vec(), 1)));
    assert_eq!(strm.readn(20), Err(StrmError::Pending));
    assert_eq!(strm.readn(5), Ok((b"defgh".to_vec(), 4)));
}

#[test]
fn test_readn_over_capacity() {
    let mut strm = PktStrm::new(64, 8, PktDirection::Client2Server);
    let mut events = Vec::new();
    strm.ingest(build_pkt_payload(1, b"abc"));
    strm.fill(&mut events);
    assert_eq!(strm.readn(65), Err(StrmError::NoProgress));
}

// stream-level: the read primitives report the end of the stream
#[test]
fn test_read_err_pending_then_eof() {
    let mut strm = PktStrm::new(64, 8, PktDirection::Client2Server);
    let mut events = Vec::new();
    assert_eq!(strm.read_err(4), Err(StrmError::Pending));

    strm.ingest(build_pkt_payload(1, b"hi"));
    strm.fill(&mut events);
    assert_eq!(strm.read_err(4), Ok((b"hi".to_vec(), 1)));

    strm.ingest(build_pkt_fin(3));
    strm.fill(&mut events);
    assert_eq!(strm.read_err(4), Err(StrmError::Eof));
    assert!(strm.fin());
}

// events preserve the order raw-then-parsed per drained chunk
#[test]
fn test_event_order_raw_before_line() {
    let mut protolens = Prolens::default();
    let mut task = protolens.new_task(TransProto::Tcp);
    protolens.set_task_parser(&mut task, L7Proto::Readline);
    let events = protolens.run_task(&mut task, build_pkt_payload(1, b"hey\r\n"));

    assert_eq!(events.len(), 2);
    assert!(matches!(events[0], CbEvent::Raw { .. }));
    assert!(matches!(events[1], CbEvent::Line { .. }));
}

// the server-to-client direction reassembles independently
#[test]
fn test_s2c_raw_stream() {
    let mut protolens = Prolens::default();
    let mut task = protolens.new_task(TransProto::Tcp);
    protolens.set_task_parser(&mut task, L7Proto::Readline);

    let mut pkt = build_pkt_payload(1, b"reply\r\n");
    pkt.direction = PktDirection::Server2Client;
    let events = protolens.run_task(&mut task, pkt);

    let mut raw = ChunkSink::default();
    deliver_raw(&events, PktDirection::Server2Client, &mut raw);
    assert_eq!(raw.chunks, vec![b"reply\r\n".to_vec()]);
    assert_eq!(raw.seqs, vec![1]);
}

// an undeliverable line is flow-fatal: the task reports Failed and stays so
#[test]
fn test_flow_fatal_state() {
    let mut protolens = Prolens::default();
    let mut task = protolens.new_task(TransProto::Tcp);
    protolens.set_task_parser(&mut task, L7Proto::Readline);
    assert_eq!(task.state(), TaskState::Alive);

    let payload = vec![b'A'; MAX_READ_BUFF];
    let _ = protolens.run_task(&mut task, build_pkt_payload(1, &payload));
    assert_eq!(task.state(), TaskState::Failed);
}

// a drained FIN completes the parser cleanly
#[test]
fn test_flow_done_state() {
    let mut protolens = Prolens::default();
    let mut task = protolens.new_task(TransProto::Tcp);
    protolens.set_task_parser(&mut task, L7Proto::Readline);

    let payload = b"bye\r\n".to_vec();
    let _ = protolens.run_task(&mut task, build_pkt_payload(1, &payload));
    assert_eq!(task.state(), TaskState::Alive);
    let _ = protolens.run_task(&mut task, build_pkt_fin(1 + payload.len() as u32));
    assert_eq!(task.state(), TaskState::Done);
}
