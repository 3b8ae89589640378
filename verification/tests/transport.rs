use fragnet::envelope::{Addr, MsgId};
use fragnet::reassembly::{BigMessage, ReassemblyMap};
use fragnet::sender::{build_fragment, SendState};
use fragnet::transfer::{num_blocks, num_frags};
use fragnet::{BLOCK_SIZE, FRAG_SIZE};

fn mid(counter: u32) -> MsgId {
    MsgId { addr: Addr { ip: 0x7f000001, port: 9001 }, counter }
}

fn payload(len: usize) -> Vec<u8> {
    let mut p = Vec::with_capacity(len);
    for i in 0..len {
        p.push((i % 251) as u8);
    }
    p
}

/// Sends every fragment through a reassembly map and returns the assembled
/// payload together with the acks observed, asserting idempotent completion.
fn run_transfer(data: &Vec<u8>, order: &[u32]) -> (Vec<u8>, Vec<u32>) {
    let id = mid(1);
    let mut map = ReassemblyMap::new();
    let mut acks: Vec<u32> = Vec::new();
    let mut done: Option<MsgId> = None;
    for &fid in order {
        let frag = build_fragment(data, id, fid);
        let o = map.receive_fragment(&frag);
        assert!(!o.rejected);
        if let Some(b) = o.ack_block {
            acks.push(b);
        }
        if let Some(m) = o.completed {
            assert!(done.is_none(), "completion must be signalled exactly once");
            done = Some(m);
        }
    }
    assert_eq!(done, Some(id), "every fragment delivered, so the transfer completes");
    let buf = map.extract(id).expect("completed transfer is in the map");
    assert!(map.extract(id).is_none(), "extract removes the entry");
    (buf.into_data(), acks)
}

#[test]
fn round_trip_empty_payload() {
    // a zero-length payload is one virtual fragment: one ack, one completion
    let data = payload(0);
    let (out, acks) = run_transfer(&data, &[0]);
    assert_eq!(out, data);
    assert_eq!(acks, vec![0]);
}

#[test]
fn round_trip_one_byte_short_of_fragment() {
    let data = payload(FRAG_SIZE - 1);
    let (out, acks) = run_transfer(&data, &[0]);
    assert_eq!(out, data);
    assert_eq!(acks, vec![0]);
}

#[test]
fn round_trip_exactly_one_fragment() {
    let data = payload(FRAG_SIZE);
    let (out, acks) = run_transfer(&data, &[0]);
    assert_eq!(out, data);
    assert_eq!(acks, vec![0]);
}

#[test]
fn round_trip_two_blocks_in_order() {
    let data = payload(FRAG_SIZE * BLOCK_SIZE * 2);
    let order: Vec<u32> = (0..16).collect();
    let (out, acks) = run_transfer(&data, &order);
    assert_eq!(out, data);
    // exactly one ack per block, strictly increasing
    assert_eq!(acks, vec![0, 1]);
}

#[test]
fn round_trip_three_blocks_with_partial_tail() {
    let data = payload(FRAG_SIZE * BLOCK_SIZE * 2 + 123);
    assert_eq!(num_frags(data.len() as u32), 17);
    assert_eq!(num_blocks(data.len() as u32), 3);
    let order: Vec<u32> = (0..17).collect();
    let (out, acks) = run_transfer(&data, &order);
    assert_eq!(out, data);
    assert_eq!(acks, vec![0, 1, 2]);
}

#[test]
fn round_trip_reversed_order() {
    let data = payload(FRAG_SIZE * BLOCK_SIZE + 5000);
    let order: Vec<u32> = (0..9).rev().collect();
    let (out, _acks) = run_transfer(&data, &order);
    assert_eq!(out, data);
}

#[test]
fn round_trip_interleaved_duplicates() {
    let data = payload(FRAG_SIZE * 3 + 17);
    let order: Vec<u32> = vec![2, 0, 0, 3, 2, 1, 1, 0, 3];
    let (out, _acks) = run_transfer(&data, &order);
    assert_eq!(out, data);
}

#[test]
fn duplicate_fragment_changes_nothing() {
    let data = payload(FRAG_SIZE * 2);
    let id = mid(2);
    let mut buf = BigMessage::fresh(data.len() as u32);
    let frag = build_fragment(&data, id, 0);
    let first = buf.absorb(&frag);
    assert!(first.fresh);
    let len_after = buf.received_len;
    let second = buf.absorb(&frag);
    assert!(!second.fresh);
    assert!(second.completed == false);
    assert_eq!(buf.received_len, len_after);
}

#[test]
fn completion_requires_every_byte() {
    // all fragments but the last cover total_len - frag bytes: no completion
    let data = payload(FRAG_SIZE * 2 + 1);
    let id = mid(3);
    let mut buf = BigMessage::fresh(data.len() as u32);
    for fid in 0..2 {
        let o = buf.absorb(&build_fragment(&data, id, fid));
        assert!(!o.completed);
        assert!(!buf.is_complete());
    }
    assert_eq!(buf.received_len, (FRAG_SIZE * 2) as u32);
    let o = buf.absorb(&build_fragment(&data, id, 2));
    assert!(o.completed);
    assert!(buf.is_complete());
}

#[test]
fn malformed_fragment_is_dropped() {
    let data = payload(100);
    let id = mid(4);
    let mut map = ReassemblyMap::new();
    // out-of-range fragment id
    let mut bad = build_fragment(&data, id, 0);
    bad.frag_id = 9;
    let o = map.receive_fragment(&bad);
    assert!(o.rejected);
    // wrong data length for the slot
    let mut short = build_fragment(&data, id, 0);
    short.data.pop();
    let o = map.receive_fragment(&short);
    assert!(o.rejected);
    // a genuine fragment still goes through afterwards
    let o = map.receive_fragment(&build_fragment(&data, id, 0));
    assert!(!o.rejected);
    assert_eq!(o.completed, Some(id));
}

#[test]
fn conflicting_total_length_is_dropped() {
    let data = payload(100);
    let id = mid(5);
    let mut map = ReassemblyMap::new();
    let long = payload(FRAG_SIZE * 2);
    let o = map.receive_fragment(&build_fragment(&long, id, 0));
    assert!(!o.rejected);
    // a fragment for the same transfer claiming another total length
    let o = map.receive_fragment(&build_fragment(&data, id, 0));
    assert!(o.rejected);
}

#[test]
fn two_transfers_reassemble_independently() {
    let a = payload(FRAG_SIZE + 1);
    let b = payload(17);
    let ida = mid(10);
    let idb = mid(11);
    let mut map = ReassemblyMap::new();
    assert!(map.receive_fragment(&build_fragment(&a, ida, 0)).completed.is_none());
    assert_eq!(map.receive_fragment(&build_fragment(&b, idb, 0)).completed, Some(idb));
    assert_eq!(map.receive_fragment(&build_fragment(&a, ida, 1)).completed, Some(ida));
    assert_eq!(map.extract(ida).unwrap().into_data(), a);
    assert_eq!(map.extract(idb).unwrap().into_data(), b);
}

#[test]
fn sender_walks_blocks_on_matching_acks() {
    let data = payload(FRAG_SIZE * BLOCK_SIZE + 1);
    let id = mid(20);
    let mut s = SendState::new(id, &data);
    assert!(!s.done());
    let frags = s.current_fragments(&data);
    assert_eq!(frags.len(), 8);
    assert_eq!(frags[0].frag_id, 0);
    assert_eq!(frags[7].frag_id, 7);
    // a stale ack and a foreign ack change nothing
    s.on_ack(id, 5);
    assert_eq!(s.curr_block, 0);
    s.on_ack(mid(99), 0);
    assert_eq!(s.curr_block, 0);
    // the matching ack advances to the final partial block
    s.on_ack(id, 0);
    assert_eq!(s.curr_block, 1);
    let frags = s.current_fragments(&data);
    assert_eq!(frags.len(), 1);
    assert_eq!(frags[0].frag_id, 8);
    s.on_ack(id, 1);
    assert!(s.done());
}

#[test]
fn sender_and_receiver_agree_over_lossy_retransmission() {
    // drop the first transmission of every fragment of block 0; the sender
    // times out and retransmits, and reassembly stays idempotent
    let data = payload(FRAG_SIZE * BLOCK_SIZE + 40);
    let id = mid(21);
    let mut s = SendState::new(id, &data);
    let mut map = ReassemblyMap::new();
    let mut acks: Vec<u32> = Vec::new();
    let mut completed = None;
    let mut first_round = true;
    while !s.done() {
        let frags = s.current_fragments(&data);
        let mut last_ack = None;
        for f in frags {
            if first_round {
                continue; // lost datagrams
            }
            let o = map.receive_fragment(&f);
            assert!(!o.rejected);
            if let Some(b) = o.ack_block {
                acks.push(b);
                last_ack = Some(b);
            }
            if o.completed.is_some() {
                completed = o.completed;
            }
        }
        match last_ack {
            Some(b) => s.on_ack(id, b),
            None => first_round = false, // timeout: resend the same block
        }
    }
    assert_eq!(completed, Some(id));
    assert_eq!(acks, vec![0, 1]);
    assert_eq!(map.extract(id).unwrap().into_data(), data);
}

#[test]
fn default_msg_is_an_empty_transfer() {
    let m = BigMessage::default_msg();
    assert_eq!(m.msg_len, 0);
    assert_eq!(m.received_len, 0);
    assert!(m.data.is_empty());
    assert_eq!(m.received_frags, vec![false]);
    assert!(m.is_complete(), "a zero-length transfer is complete at once");
}

#[test]
fn from_data_holds_the_payload_unreceived() {
    let data = payload(FRAG_SIZE + 3);
    let m = BigMessage::from_data(data.clone());
    assert_eq!(m.msg_len, data.len() as u32);
    assert_eq!(m.received_len, 0);
    assert_eq!(m.received_frags, vec![false, false]);
    assert_eq!(m.into_data(), data);
}

#[test]
fn oversized_payload_is_rejected_before_transmission() {
    let data = payload(10);
    assert!(SendState::try_new(mid(40), &data).is_some());
    // the checked constructor mirrors `new` on representable payloads
    let s = SendState::try_new(mid(40), &data).unwrap();
    assert_eq!(s.msg_len, 10);
    assert_eq!(s.curr_block, 0);
}

#[test]
fn fragment_counts_match_the_protocol_constants() {
    assert_eq!(num_frags(0), 1);
    assert_eq!(num_blocks(0), 1);
    assert_eq!(num_frags(1), 1);
    assert_eq!(num_frags(8000), 1);
    assert_eq!(num_frags(8001), 2);
    assert_eq!(num_blocks(64000), 1);
    assert_eq!(num_blocks(64001), 2);
    assert_eq!(num_frags(u32::MAX), 536871);
    assert_eq!(num_blocks(u32::MAX), 67109);
}

#[test]
fn fragment_slices_are_the_payload_slices() {
    let data = payload(FRAG_SIZE + 100);
    let id = mid(30);
    let f0 = build_fragment(&data, id, 0);
    assert_eq!(f0.data.as_slice(), &data[..FRAG_SIZE]);
    assert_eq!(f0.block_id, 0);
    assert_eq!(f0.msg_len, data.len() as u32);
    let f1 = build_fragment(&data, id, 1);
    assert_eq!(f1.data.as_slice(), &data[FRAG_SIZE..]);
}
