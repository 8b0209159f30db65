use rustorcli::announcement::PeerInfo;
use rustorcli::download::{calculate_sha1, Download, IncomingBlockRequest, Peer, TorrentInfoSerializable, TorrentSerializable};
use rustorcli::handshake::{check_reply_info_hash, handshake_message, handshake_rest_length, parse_handshake_rest, HandshakeError};
use rustorcli::io_primitives::u32_to_bytes;
use rustorcli::peer_protocol::{
    bitfield_message, block_read_offset, decode_bitfield, encode_bitfield, expects_length, frame_message,
    have_message, interested_message, message_acceptable_check, on_message_bytes, on_message_length,
    next_receive_step, outgoing_request_frames, piece_message, process_message, remaining_message_bytes,
    request_message, to_incoming_block_request, unchoke_message, MessageOutcome, ReceiveResult, ReceiveStep,
};
use rustorcli::decider::BlockRequest;
use rustorcli::torrent_entries::TorrentEntry;

fn download(num_pieces: usize) -> Download {
    let mut pieces = Vec::new();
    for i in 0..num_pieces {
        pieces.extend(calculate_sha1(&vec![i as u8 + 1; 20000]));
    }
    let t = TorrentSerializable {
        announce: String::from("http://tracker/announce"),
        info: TorrentInfoSerializable {
            name: String::from("x"),
            length: 20000 * num_pieces as i64,
            piece_length: 20000,
            pieces,
            files: vec![],
        },
        info_hash: vec![1; 20],
    };
    let entry = TorrentEntry::new(2, String::from("/t"), String::from("/d"));
    let mut d = Download::new(&entry, &t, false, &vec![vec![]; num_pieces]);
    d.downloaded = false;
    d.register_outgoing_peer(PeerInfo { ip: String::from("1.1.1.1"), port: 1 });
    d.peer_mut(0).connected = true;
    d
}

#[test]
fn framing_puts_length_and_type_first() {
    assert_eq!(frame_message(7, &vec![9, 9]), vec![0, 0, 0, 3, 7, 9, 9]);
    assert_eq!(interested_message(), vec![0, 0, 0, 1, 2]);
    assert_eq!(unchoke_message(), vec![0, 0, 0, 1, 1]);
    assert_eq!(have_message(258), vec![0, 0, 0, 5, 4, 0, 0, 1, 2]);
    assert_eq!(piece_message(1, 16384, &vec![5, 6]), vec![0, 0, 0, 11, 7, 0, 0, 0, 1, 0, 0, 64, 0, 5, 6]);
}

#[test]
fn request_message_names_block() {
    let d = download(2);
    assert_eq!(request_message(&d, 1, 1), vec![0, 0, 0, 13, 6, 0, 0, 0, 1, 0, 0, 64, 0, 0, 0, 14, 32]);
}

#[test]
fn bitfield_roundtrip() {
    let flags = vec![true, false, true, true, false, false, false, false, true, false];
    let enc = encode_bitfield(&flags);
    assert_eq!(enc, vec![0b1011_0000, 0b1000_0000]);
    let mut msg = vec![5u8];
    msg.extend(&enc);
    assert_eq!(decode_bitfield(&msg, flags.len()), flags);
    assert!(encode_bitfield(&vec![]).is_empty());
    let mut d = download(3);
    d.set_block_downloaded(1, 0);
    d.set_block_downloaded(1, 1);
    assert_eq!(bitfield_message(&d), vec![0, 0, 0, 2, 5, 0b0100_0000]);
}

#[test]
fn processing_choke_have_bitfield() {
    let mut d = download(10);
    assert!(matches!(process_message(vec![1], &mut d, 0), MessageOutcome::Nothing));
    assert!(!d.peer(0).we_choked);
    process_message(vec![0], &mut d, 0);
    assert!(d.peer(0).we_choked);
    process_message(vec![2], &mut d, 0);
    process_message(vec![3], &mut d, 0);
    process_message(vec![99], &mut d, 0);
    assert!(d.peer(0).we_choked);
    process_message(vec![4, 0, 0, 0, 3], &mut d, 0);
    assert!(d.peer(0).has_piece[3]);
    assert_eq!(d.peer(0).has_piece.iter().filter(|x| **x).count(), 1);
    process_message(vec![5, 0b1100_0000, 0b0100_0000], &mut d, 0);
    assert_eq!(d.peer(0).has_piece, vec![true, true, false, false, false, false, false, false, false, true]);
}

#[test]
fn processing_request_queues_it() {
    let mut d = download(2);
    let msg = vec![6, 0, 0, 0, 1, 0, 0, 64, 0, 0, 0, 16, 0];
    let r = to_incoming_block_request(0, &msg);
    assert_eq!((r.piece_id, r.begin, r.length), (1, 16384, 4096));
    process_message(msg, &mut d, 0);
    assert_eq!(d.pending_block_requests.len(), 1);
    let q = d.pending_block_requests[0];
    assert_eq!((q.peer_id, q.piece_id, q.begin, q.length), (0, 1, 16384, 4096));
    assert_eq!(block_read_offset(&d, &IncomingBlockRequest { peer_id: 0, begin: 100, length: 5, piece_id: 1 }), 20100);
}

#[test]
fn processing_piece_marks_block() {
    let mut d = download(2);
    d.peer_mut(0).outstanding_block_requests = 2;
    let mut msg = vec![7, 0, 0, 0, 1, 0, 0, 64, 0];
    msg.extend(vec![2u8; 3616]);
    assert!(message_acceptable_check(&msg, &d, 0));
    match process_message(msg, &mut d, 0) {
        MessageOutcome::StoreBlock { offset, data, piece_id, block_id, effects } => {
            assert_eq!(offset, 36384);
            assert_eq!(data, vec![2u8; 3616]);
            assert_eq!((piece_id, block_id), (1, 1));
            assert!(!effects.piece_done);
            assert!(!effects.download_done);
        }
        MessageOutcome::Nothing => panic!("expected a block"),
    }
    assert_eq!(d.peer(0).outstanding_block_requests, 1);
    assert!(d.pieces()[1].blocks()[1].downloaded());
    assert_eq!(d.stats().downloaded(), 3616);
}

#[test]
fn unacceptable_messages_are_recognized() {
    let d = download(2);
    assert!(!message_acceptable_check(&vec![], &d, 0));
    assert!(!message_acceptable_check(&vec![0], &d, 1));
    assert!(!message_acceptable_check(&vec![4, 0, 0, 0], &d, 0));
    assert!(!message_acceptable_check(&vec![4, 0, 0, 0, 2], &d, 0));
    assert!(message_acceptable_check(&vec![4, 0, 0, 0, 1], &d, 0));
    assert!(!message_acceptable_check(&vec![5], &d, 0));
    assert!(!message_acceptable_check(&vec![6, 0, 0, 0, 1], &d, 0));
    assert!(!message_acceptable_check(&vec![7, 0, 0, 0, 2, 0, 0, 0, 0], &d, 0));
    assert!(!message_acceptable_check(&vec![7, 0, 0, 0, 1, 0, 1, 0, 0], &d, 0));
    assert!(message_acceptable_check(&vec![9], &d, 0));
}

#[test]
fn receiving_reassembles_messages() {
    let mut p = Peer::new(true, None, 0);
    assert!(expects_length(&p));
    assert!(!on_message_length(&mut p, &[0, 0, 0, 0]));
    assert!(expects_length(&p));
    let sent = frame_message(7, &vec![1, 2, 3, 4]);
    assert!(on_message_length(&mut p, &sent[0..4]));
    assert_eq!(remaining_message_bytes(&p), 5);
    assert_eq!(on_message_bytes(&mut p, &sent[4..6]), None);
    assert_eq!(remaining_message_bytes(&p), 3);
    assert_eq!(on_message_bytes(&mut p, &sent[6..9]), Some(vec![7, 1, 2, 3, 4]));
    assert!(expects_length(&p));
    assert!(p.buf.is_empty());
}

#[test]
fn framed_message_received_through_calls_in_chunks() {
    let payload: Vec<u8> = (0..10).collect();
    let sent = frame_message(5, &payload);
    let mut body = vec![5u8];
    body.extend(&payload);
    for cut in [vec![1usize, 11], vec![3, 4, 11], vec![1, 2, 3, 4, 5, 6, 7, 8, 9, 10, 11], vec![11]] {
        let mut p = Peer::new(true, None, 0);
        assert!(on_message_length(&mut p, &sent[0..4]));
        assert_eq!(p.next_message_length, 11);
        let mut from = 0;
        for (k, to) in cut.iter().enumerate() {
            let r = on_message_bytes(&mut p, &sent[4 + from..4 + to]);
            if k + 1 < cut.len() {
                assert_eq!(r, None);
                assert_eq!(p.next_message_length, 11);
                assert_eq!(p.buf, body[0..*to].to_vec());
            } else {
                assert_eq!(r, Some(body.clone()));
                assert!(p.buf.is_empty());
                assert_eq!(p.next_message_length, 0);
            }
            from = *to;
        }
    }
}

#[test]
fn receive_steps() {
    assert!(matches!(next_receive_step(1, ReceiveResult::Message), ReceiveStep::ReadAgain));
    assert!(matches!(next_receive_step(99, ReceiveResult::Message), ReceiveStep::ReadAgain));
    assert!(matches!(next_receive_step(100, ReceiveResult::Message), ReceiveStep::Stop));
    assert!(matches!(next_receive_step(1, ReceiveResult::Nothing), ReceiveStep::Stop));
    assert!(matches!(next_receive_step(1, ReceiveResult::Failed), ReceiveStep::Reset));
}

#[test]
fn frames_for_a_block_request() {
    let mut d = download(2);
    d.register_incoming_peer();
    let request = BlockRequest { download_id: d.id, peer_id: 0, piece_id: 1, block_id: 0 };
    let frames = outgoing_request_frames(&d, &request);
    assert_eq!(frames, vec![interested_message(), request_message(&d, 1, 0)]);
    d.peer_mut(0).we_interested = true;
    let frames = outgoing_request_frames(&d, &request);
    assert_eq!(frames, vec![request_message(&d, 1, 0)]);
}

#[test]
fn handshake_bytes_and_reply() {
    let info_hash = vec![0xaa; 20];
    let my_id = String::from("ABCDEFGHIJ0123456789");
    let hs = handshake_message(&info_hash, &my_id);
    assert_eq!(hs.len(), 68);
    assert_eq!(hs[0], 19);
    assert_eq!(&hs[1..20], b"BitTorrent protocol");
    assert_eq!(&hs[20..28], &[0u8; 8]);
    assert_eq!(&hs[28..48], &info_hash[..]);
    assert_eq!(&hs[48..68], my_id.as_bytes());
    assert_eq!(handshake_rest_length(hs[0]), 67);
    let reply = parse_handshake_rest(hs[0], &hs[1..].to_vec());
    assert_eq!(reply.info_hash, info_hash);
    assert_eq!(reply.peer_id, my_id.as_bytes().to_vec());
    assert_eq!(check_reply_info_hash(&reply.info_hash, &info_hash), Ok(()));
    assert_eq!(check_reply_info_hash(&vec![0; 20], &info_hash), Err(HandshakeError::InvalidInfoHash));
}

#[test]
fn u32_payload_matches() {
    assert_eq!(u32_to_bytes(5), vec![0, 0, 0, 5]);
}
