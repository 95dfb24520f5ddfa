use pool_miner::le::{read_le, to_le_bytes};
use pool_miner::wire::{
    is_readable, process_message, ready_message, solution_message, Frame, Reaction, ServerMessage,
};

fn start_frame() -> Vec<u8> {
    let mut b: Vec<u8> = vec![0];
    b.extend(100u8..132u8);
    b.extend([60, 0, 0, 0, 0, 0, 0, 0]);
    b.extend([1, 2, 3, 4, 5, 6, 7, 8]);
    b.extend([255, 255, 255, 255, 255, 255, 255, 255]);
    b
}

#[test]
fn little_endian_bytes() {
    assert_eq!(to_le_bytes(0x0807_0605_0403_0201), [1, 2, 3, 4, 5, 6, 7, 8]);
    for x in [0u64, 1, 255, 256, 65_535, 1 << 32, u64::MAX, 0xdead_beef_0bad_cafe] {
        assert_eq!(to_le_bytes(x), x.to_le_bytes());
        let mut padded = vec![9u8, 9];
        padded.extend(x.to_le_bytes());
        padded.push(9);
        assert_eq!(read_le(&padded, 2), x);
    }
}

#[test]
fn start_message_is_read() {
    for extra in [0usize, 1, 40] {
        let mut b = start_frame();
        b.extend(vec![7u8; extra]);
        let frame = Frame::Binary(b);
        assert!(is_readable(&frame));
        let (reaction, flow) = process_message(&frame);
        assert!(flow.is_continue());
        match reaction {
            Reaction::Start(ServerMessage::StartMining(challenge, nonces, cutoff)) => {
                let expected: Vec<u8> = (100u8..132u8).collect();
                assert_eq!(challenge.to_vec(), expected);
                assert_eq!(nonces, 0x0807_0605_0403_0201..u64::MAX);
                assert_eq!(cutoff, 60);
            }
            other => panic!("{:?}", other),
        }
    }
}

#[test]
fn short_start_message_is_refused() {
    for len in [1usize, 2, 33, 48] {
        let frame = Frame::Binary(start_frame()[..len].to_vec());
        assert!(is_readable(&frame));
        let (reaction, flow) = process_message(&frame);
        assert!(matches!(reaction, Reaction::InvalidStart));
        assert!(flow.is_continue());
    }
}

#[test]
fn unreadable_frames() {
    assert!(!is_readable(&Frame::Binary(vec![])));
    for len in 49usize..57 {
        assert!(!is_readable(&Frame::Binary(start_frame()[..len].to_vec())));
    }
    let mut other = start_frame()[..50].to_vec();
    other[0] = 1;
    assert!(is_readable(&Frame::Binary(other)));
}

#[test]
fn other_frames() {
    let (r, f) = process_message(&Frame::Binary(vec![1, 2, 3]));
    assert!(matches!(r, Reaction::UnknownType) && f.is_continue());
    let (r, f) = process_message(&Frame::Text("hello".to_string()));
    assert!(matches!(r, Reaction::ShowText) && f.is_continue());
    let (r, f) = process_message(&Frame::Ping(vec![1]));
    assert!(matches!(r, Reaction::ShowPing) && f.is_continue());
    let (r, f) = process_message(&Frame::Pong(vec![1]));
    assert!(matches!(r, Reaction::ShowPong) && f.is_continue());
    let (r, f) = process_message(&Frame::Other);
    assert!(matches!(r, Reaction::InvalidFrame) && f.is_continue());
    let (r, f) = process_message(&Frame::Close);
    assert!(matches!(r, Reaction::ShowClose) && f.is_break());
}

#[test]
fn ready_message_bytes() {
    let key = [5u8; 32];
    let b = ready_message(&key, 0x0102);
    assert_eq!(b.len(), 44);
    assert_eq!(b[0], 0);
    assert_eq!(&b[1..33], &key);
    assert_eq!(&b[33..41], &[2, 1, 0, 0, 0, 0, 0, 0]);
    assert_eq!(&b[41..], b"xxx");
}

#[test]
fn solution_message_bytes() {
    let key = [5u8; 32];
    let digest = [6u8; 16];
    let b = solution_message(&digest, u64::MAX - 1, &key);
    assert_eq!(b.len(), 60);
    assert_eq!(b[0], 2);
    assert_eq!(&b[1..17], &digest);
    assert_eq!(&b[17..25], &(u64::MAX - 1).to_le_bytes());
    assert_eq!(&b[25..57], &key);
    assert_eq!(&b[57..], b"xxx");
}

#[test]
fn start_messages_that_differ_are_read_differently() {
    let read = |b: Vec<u8>| match process_message(&Frame::Binary(b)).0 {
        Reaction::Start(ServerMessage::StartMining(challenge, nonces, cutoff)) => {
            (challenge, nonces, cutoff)
        }
        other => panic!("{:?}", other),
    };
    let base = read(start_frame());
    for i in 1usize..57 {
        let mut b = start_frame();
        b[i] ^= 1;
        assert_ne!(read(b), base);
    }
}
