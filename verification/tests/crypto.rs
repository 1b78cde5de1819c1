use vfs495::crypto::{random_bytes, rsa_encrypt, rsa_encrypt_with_padding, ssl3_finished, ssl3_prf, Record, RecordError};
use vfs495::session::FINISHED_LABEL;

fn unhex(s: &str) -> Vec<u8> {
    (0..s.len()).step_by(2).map(|i| u8::from_str_radix(&s[i..i + 2], 16).unwrap()).collect()
}

fn key_block() -> Vec<u8> {
    (0u8..136).collect()
}

/// A key block whose server-side (receive) half is the client-side half of `kb`.
fn peer_key_block(kb: &[u8]) -> Vec<u8> {
    let mut p = kb.to_vec();
    p[72..104].copy_from_slice(&kb[40..72]);
    p[120..136].copy_from_slice(&kb[104..120]);
    p
}

#[test]
fn finished_label_matches_python() {
    assert_eq!(FINISHED_LABEL, 0x434C4E54u32.to_le_bytes());
}

#[test]
fn prf_known_vector() {
    let out = ssl3_prf(b"secret", b"seed-a", b"seed-b", 40);
    assert_eq!(out, unhex("2a69586e065e32ff04822da362b2bf196018fd921d9a5443656fd71b05a92c1876705bb4f648e462"));
}

#[test]
fn prf_shorter_output_is_prefix() {
    let long = ssl3_prf(b"k", b"a", b"b", 136);
    let short = ssl3_prf(b"k", b"a", b"b", 48);
    assert_eq!(long.len(), 136);
    assert_eq!(short.len(), 48);
    assert_eq!(&long[..48], &short[..]);
    assert!(ssl3_prf(b"k", b"a", b"b", 0).is_empty());
}

#[test]
fn prf_master_and_keyblock_vector() {
    let pre = unhex("0300000102030405060708090a0b0c0d0e0f101112131415161718191a1b1c1d1e1f202122232425262728292a2b2c2d");
    let cr = unhex("6465666768696a6b6c6d6e6f707172737475767778797a7b7c7d7e7f80818283");
    let sr = unhex("c8c9cacbcccdcecfd0d1d2d3d4d5d6d7d8d9dadbdcdddedfe0e1e2e3e4e5e6e7");
    let ms = ssl3_prf(&pre, &cr, &sr, 48);
    assert_eq!(ms, unhex("1b1b74b4ee3df2ff1a91c32bc3d415e8250c27ad41905cb73ca457e313c7c430476f62cd5851786869377470e17e1ca2"));
    let kb = ssl3_prf(&ms, &sr, &cr, 136);
    assert_eq!(kb.len(), 136);
    assert_eq!(&kb[..16], &unhex("be57dbdb16b50e572be6ac5b4fdf7008")[..]);
}

#[test]
fn finished_known_vector() {
    let master: Vec<u8> = (0u8..48).collect();
    let out = ssl3_finished(&master, b"transcript", &FINISHED_LABEL);
    assert_eq!(out.len(), 36);
    assert_eq!(out, unhex("6b57d7dfc551b44b6e93dd9c8cd6896f1ea4c4cf6fb4f0ceb5c9d75240536af2d90513e8"));
}

#[test]
fn record_encrypt_known_vectors() {
    let kb = key_block();
    let mut rec = Record::new(&kb);
    let r1 = rec.encrypt(0x16, b"hello");
    assert_eq!(r1, unhex("16030000201930847fe52b998f92f49e32717176636da8a2c9ccdb2c32a22838bf66950f72"));
    // the second record chains on the first one's last cipher block and sequence 1
    let r2 = rec.encrypt(0x17, b"");
    assert_eq!(r2, unhex("1703000020438fc180cdc34beb301cc5b1a8303b5b4119d32ed0f0c8dd657143560bbd633b"));
}

#[test]
fn record_ciphertext_hides_plaintext() {
    let kb = key_block();
    let mut rec = Record::new(&kb);
    let data = [0x41u8; 48];
    let wire = rec.encrypt(0x17, &data);
    // 48 data + 20 MAC + 12 padding = 80 bytes of ciphertext
    assert_eq!(wire.len(), 5 + 80);
    assert_eq!(&wire[..5], &[0x17, 3, 0, 0, 80]);
    assert!(!wire.windows(16).any(|w| w == &data[..16]));
}

#[test]
fn record_roundtrip_keeps_iv_chain() {
    let kb = key_block();
    let mut client = Record::new(&kb);
    let mut server = Record::new(&peer_key_block(&kb));
    let messages: [&[u8]; 4] = [b"first", b"", &[7u8; 27], &[9u8; 100]];
    for (i, m) in messages.iter().enumerate() {
        let wire = client.encrypt(0x17, m);
        let (t, data) = server.decrypt(&wire).ok().unwrap();
        assert_eq!(t, 0x17, "message {i}");
        assert_eq!(&data[..], *m, "message {i}");
    }
}

#[test]
fn record_decrypt_errors() {
    let kb = key_block();
    let mut rec = Record::new(&kb);
    assert_eq!(rec.decrypt(&[0x17, 3, 0]).err(), Some(RecordError::TooShort));
    assert_eq!(rec.decrypt(&[0x17, 3, 1, 0, 0]).err(), Some(RecordError::BadVersion));
    assert_eq!(rec.decrypt(&[0x17, 3, 0, 0, 32, 1, 2]).err(), Some(RecordError::LengthOverrun));
}

#[test]
fn record_decrypt_pad_underflow() {
    // one cipher block cannot hold padding and a 20-byte MAC
    let kb = key_block();
    let mut server = Record::new(&peer_key_block(&kb));
    let mut one_block = vec![0x17u8, 3, 0, 0, 16];
    one_block.extend_from_slice(&[0x5au8; 16]);
    assert_eq!(server.decrypt(&one_block).err(), Some(RecordError::PadUnderflow));
}

#[test]
fn rsa_with_padding_known_value() {
    let modulus = [0x35u8, 0x12, 0x07, 0x09];
    let wire = rsa_encrypt_with_padding(&modulus, 3, &[], &[5]);
    assert_eq!(wire, vec![0x00, 0xaf, 0xfe, 0xd3]);
}

#[test]
fn rsa_output_is_left_padded_to_modulus_width() {
    let modulus = [0x35u8, 0x12, 0x07, 0x09];
    let wire = rsa_encrypt_with_padding(&modulus, 1, &[], &[5]);
    assert_eq!(wire, vec![0x00, 0x02, 0x05, 0x00]);
}

fn mulmod(a: u128, b: u128, n: u128) -> u128 {
    (a * b) % n
}

fn powmod(mut b: u128, mut e: u128, n: u128) -> u128 {
    let mut r = 1u128;
    b %= n;
    while e > 0 {
        if e & 1 == 1 {
            r = mulmod(r, b, n);
        }
        b = mulmod(b, b, n);
        e >>= 1;
    }
    r
}

#[test]
fn rsa_encrypt_decrypts_to_type2_block() {
    let n: u64 = 18446743979220271189;
    let d: u64 = 9331878932546167513;
    let modulus = n.to_le_bytes();
    let msg = [0xab, 0xcd];
    let wire = rsa_encrypt(&modulus, 65537, &msg);
    assert_eq!(wire.len(), 8);
    let c = u64::from_be_bytes(wire.clone().try_into().unwrap()) as u128;
    let m = powmod(c, d as u128, n as u128) as u64;
    let em = m.to_be_bytes();
    assert_eq!(em[0], 0x00);
    assert_eq!(em[1], 0x02);
    assert!(em[2] != 0 && em[3] != 0 && em[4] != 0);
    assert_eq!(em[5], 0x00);
    assert_eq!(&em[6..], &msg);
}

#[test]
fn random_bytes_have_requested_length() {
    let a = random_bytes(32);
    let b = random_bytes(32);
    assert_eq!(a.len(), 32);
    assert_eq!(b.len(), 32);
    assert_ne!(a, b);
    assert!(random_bytes(0).is_empty());
}

#[test]
fn prf_longest_output() {
    let out = ssl3_prf(b"s", b"a", b"b", 3056);
    assert_eq!(out.len(), 3056);
    assert_eq!(&out[..40], &ssl3_prf(b"s", b"a", b"b", 40)[..]);
}

/// The key block of the other end: client and server halves swapped.
fn swapped_key_block(kb: &[u8]) -> Vec<u8> {
    let mut p = Vec::new();
    p.extend_from_slice(&kb[20..40]);
    p.extend_from_slice(&kb[0..20]);
    p.extend_from_slice(&kb[72..104]);
    p.extend_from_slice(&kb[40..72]);
    p.extend_from_slice(&kb[120..136]);
    p.extend_from_slice(&kb[104..120]);
    p
}

#[test]
fn record_counters_follow_calls() {
    let kb = key_block();
    let mut peer = Record::new(&swapped_key_block(&kb));
    let mut rec = Record::new(&kb);
    assert_eq!((rec.send_seq(), rec.recv_seq()), (0, 0));
    let w1 = peer.encrypt(0x17, b"one");
    let _ = rec.encrypt(0x17, b"out");
    assert_eq!(rec.decrypt(&w1).ok().map(|(t, _)| t), Some(0x17));
    assert_eq!(rec.decrypt(&[0x17, 3, 1, 0, 0]).err(), Some(RecordError::BadVersion));
    let _ = rec.encrypt(0x16, b"");
    let _ = rec.encrypt(0x17, &[1u8; 40]);
    assert_eq!((rec.send_seq(), rec.recv_seq()), (3, 1));
}

#[test]
fn records_open_in_order_with_swapped_key_block() {
    let kb: Vec<u8> = (0..136u32).map(|i| (i * 7 + 3) as u8).collect();
    let mut sender = Record::new(&kb);
    let mut receiver = Record::new(&swapped_key_block(&kb));
    let sent: [(u8, &[u8]); 5] = [(0x16, b"hello"), (0x17, b""), (0x17, &[0xaa; 16]), (0x16, &[1; 44]), (0x17, &[2; 300])];
    let wires: Vec<Vec<u8>> = sent.iter().map(|(t, d)| sender.encrypt(*t, d)).collect();
    for (i, w) in wires.iter().enumerate() {
        let (t, d) = receiver.decrypt(w).ok().unwrap();
        assert_eq!((t, &d[..]), (sent[i].0, sent[i].1), "record {i}");
    }
    assert_eq!(receiver.recv_seq(), 5);
    assert_eq!(sender.send_seq(), 5);
}

#[test]
fn decrypt_ignores_trailing_bytes() {
    let kb = key_block();
    let mut sender = Record::new(&kb);
    let mut a = Record::new(&swapped_key_block(&kb));
    let mut b = Record::new(&swapped_key_block(&kb));
    let w = sender.encrypt(0x17, b"payload");
    let mut longer = w.clone();
    longer.extend_from_slice(&[0xee; 21]);
    let ra = a.decrypt(&longer);
    assert_eq!(ra, b.decrypt(&w));
    assert_eq!(ra.ok().unwrap().1, b"payload".to_vec());
    assert_eq!(a.recv_seq(), b.recv_seq());
    // both ends of the IV chain moved alike
    let next = sender.encrypt(0x17, b"next");
    let rb = b.decrypt(&next);
    assert_eq!(a.decrypt(&next), rb);
    assert_eq!(rb.ok().unwrap().1, b"next".to_vec());
}

#[test]
fn decrypt_ignores_peer_mac_secret() {
    let kb = key_block();
    let mut sender = Record::new(&kb);
    let peer = swapped_key_block(&kb);
    let mut other = peer.clone();
    for x in &mut other[20..40] {
        *x ^= 0xff;
    }
    let mut a = Record::new(&peer);
    let mut b = Record::new(&other);
    for m in [&b"first"[..], &[3u8; 33][..]] {
        let w = sender.encrypt(0x16, m);
        let ra = a.decrypt(&w);
        assert_eq!(ra, b.decrypt(&w));
        assert_eq!(ra.ok().unwrap(), (0x16, m.to_vec()));
    }
    assert_eq!(a.recv_seq(), b.recv_seq());
}

#[test]
fn finished_is_md5_leg_then_sha1_leg() {
    let master = [0x42u8; 48];
    let a = ssl3_finished(&master, b"transcript", &FINISHED_LABEL);
    let b = ssl3_finished(&master, b"transcript!", &FINISHED_LABEL);
    assert_eq!(a.len(), 36);
    // a different transcript changes both legs
    assert_ne!(&a[..16], &b[..16]);
    assert_ne!(&a[16..], &b[16..]);
}
