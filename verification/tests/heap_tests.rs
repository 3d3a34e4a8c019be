use protolens::{Heap, Packet, PktDirection, SeqPacket};

fn pkt(sequence: u32, syn_flag: bool, fin_flag: bool, data: Vec<u8>) -> Packet {
    Packet {
        sport: 12345,
        dport: 80,
        sequence,
        syn_flag,
        fin_flag,
        data,
        direction: PktDirection::Client2Server,
    }
}

#[test]
fn test_memory_size() {
    let heap = Heap::<Packet>::new(32);
    assert_eq!(heap.capacity(), 32);
}

#[test]
fn test_push_pop() {
    let mut heap = Heap::<_>::new(5);

    assert!(heap.push(3));
    assert!(heap.push(1));
    assert!(heap.push(4));
    assert!(heap.push(2));
    assert!(heap.push(5));
    assert!(!heap.push(6)); // over capacity: the push is refused

    assert_eq!(heap.len(), 5);
    assert_eq!(heap.pop(), Some(1));
    assert_eq!(heap.pop(), Some(2));
    assert_eq!(heap.pop(), Some(3));
    assert_eq!(heap.pop(), Some(4));
    assert_eq!(heap.pop(), Some(5));
    assert_eq!(heap.pop(), None);
}

#[test]
fn test_packet_ordering() {
    let mut heap = Heap::<SeqPacket>::new(5);

    let packet1 = pkt(1000, false, false, vec![1, 2, 3]);
    let packet2 = pkt(990, false, false, vec![4, 5, 6]);
    let packet3 = pkt(995, false, false, vec![7, 8, 9]);

    heap.push(SeqPacket::new(packet1.clone()));
    heap.push(SeqPacket::new(packet2.clone()));
    heap.push(SeqPacket::new(packet3.clone()));

    assert_eq!(heap.pop().map(|p| p.inner().sequence), Some(990));
    assert_eq!(heap.pop().map(|p| p.inner().sequence), Some(995));
    assert_eq!(heap.pop().map(|p| p.inner().sequence), Some(1000));
    assert_eq!(heap.pop(), None);
}

#[test]
fn test_packet_ordering_with_syn_fin() {
    let mut heap = Heap::<SeqPacket>::new(5);

    let syn_packet = pkt(100, true, false, vec![]);
    let data_packet = pkt(101, false, false, vec![1, 2, 3]);
    let fin_packet = pkt(104, false, true, vec![]);

    heap.push(SeqPacket::new(fin_packet.clone()));
    heap.push(SeqPacket::new(data_packet.clone()));
    heap.push(SeqPacket::new(syn_packet.clone()));

    let first = heap.pop().unwrap();
    assert!(first.inner().syn_flag);
    assert_eq!(first.inner().sequence, 100);

    let second = heap.pop().unwrap();
    assert!(!second.inner().syn_flag && !second.inner().fin_flag);
    assert_eq!(second.inner().sequence, 101);

    let third = heap.pop().unwrap();
    assert!(third.inner().fin_flag);
    assert_eq!(third.inner().sequence, 104);

    assert_eq!(heap.pop(), None);
}

#[test]
fn test_heap_capacity_overflow() {
    let mut heap = Heap::<_>::new(2);

    assert!(heap.push(1)); // ok, returns true
    assert!(heap.push(2)); // ok, returns true
    assert!(!heap.push(3)); // capacity exceeded, returns false

    assert_eq!(heap.len(), 2); // length should still be 2
    assert_eq!(heap.pop(), Some(1));
    assert_eq!(heap.pop(), Some(2));
    assert_eq!(heap.pop(), None);
}

#[test]
fn test_heap_is_empty() {
    let mut heap = Heap::<_>::new(3);
    assert!(heap.is_empty());
    assert!(heap.push(7));
    assert!(!heap.is_empty());
    assert_eq!(heap.pop(), Some(7));
    assert!(heap.is_empty());
}

#[test]
fn test_heap_equal_sequence_tiebreak() {
    // at the same sequence number, a SYN ranks before payload and a bare
    // FIN after payload
    let mut heap = Heap::<SeqPacket>::new(4);
    heap.push(SeqPacket::new(pkt(200, false, true, vec![])));
    heap.push(SeqPacket::new(pkt(200, false, false, vec![9])));

    let first = heap.pop().unwrap();
    assert!(!first.inner().fin_flag);
    let second = heap.pop().unwrap();
    assert!(second.inner().fin_flag);
}
