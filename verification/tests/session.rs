use vfs495::crypto::Record;
use vfs495::session::{
    client_finish_flight, client_hello, client_key_exchange, complete_handshake, leaves_image_data,
    parse_server_hello, premaster_secret, server_answer_decryptable, tunnel, Config, HandshakeError,
    InitPayload, InitStep, InitStepError, PubKey, CHANGE_CIPHER_SPEC,
};
use std::path::Path;

fn symmetric_key_block() -> Vec<u8> {
    let mut kb: Vec<u8> = (0u8..136).collect();
    let ckey = kb[40..72].to_vec();
    let civ = kb[104..120].to_vec();
    kb[72..104].copy_from_slice(&ckey);
    kb[120..136].copy_from_slice(&civ);
    kb
}

#[test]
fn tunnel_wraps_record() {
    assert_eq!(tunnel(&[0xaa, 0xbb, 0xcc]), vec![0x11, 3, 0, 0xaa, 0xbb, 0xcc]);
    let big = vec![0u8; 0x1234];
    let t = tunnel(&big);
    assert_eq!(&t[..3], &[0x11, 0x34, 0x12]);
    assert_eq!(t.len(), 3 + 0x1234);
    assert_eq!(tunnel(&[]), vec![0x11, 0, 0]);
}

#[test]
fn client_hello_layout() {
    let cr: Vec<u8> = (1u8..=32).collect();
    let (rec, hs) = client_hello(&cr);
    let mut body = vec![0x03, 0x00];
    body.extend_from_slice(&cr);
    body.push(7);
    body.extend_from_slice(&[0u8; 7]);
    body.extend_from_slice(&[0x00, 0x06, 0x00, 0x44, 0x00, 0x43, 0x00, 0x42, 0x00]);
    assert_eq!(body.len(), 51);
    let mut want_hs = vec![0x01, 0x00, 0x00, 51];
    want_hs.extend_from_slice(&body);
    assert_eq!(hs, want_hs);
    let mut want_rec = vec![0x16, 0x03, 0x00, 0x00, 55];
    want_rec.extend_from_slice(&want_hs);
    assert_eq!(rec, want_rec);
}

#[test]
fn client_key_exchange_layout() {
    let (rec, hs) = client_key_exchange(&[9, 8, 7]);
    assert_eq!(hs, vec![0x10, 0x00, 0x01, 0x00, 9, 8, 7]);
    assert_eq!(rec, vec![0x16, 0x03, 0x00, 0x00, 7, 0x10, 0x00, 0x01, 0x00, 9, 8, 7]);
}

#[test]
fn premaster_has_version_prefix() {
    let pm = premaster_secret();
    assert_eq!(pm.len(), 48);
    assert_eq!(&pm[..2], &[3, 0]);
}

#[test]
fn server_hello_too_short() {
    let sh = vec![0x16u8; 42];
    assert_eq!(parse_server_hello(&sh).err(), Some(HandshakeError::ShortServerHello(42)));
}

#[test]
fn server_hello_fields() {
    let mut sh: Vec<u8> = (0u8..60).collect();
    sh[3] = 0;
    sh[4] = 40;
    let h = parse_server_hello(&sh).ok().unwrap();
    assert_eq!(h.handshake, sh[5..45].to_vec());
    assert_eq!(h.server_random, sh[11..43].to_vec());
    // a length past the end is cut at the end
    sh[3] = 0xff;
    let h = parse_server_hello(&sh).ok().unwrap();
    assert_eq!(h.handshake, sh[5..60].to_vec());
}

#[test]
fn finish_flight_layout() {
    let (_rec, flight) = client_finish_flight(&[3, 0, 1], &[1; 32], &[2; 32], b"ch", b"sh", b"cke", &[0xee, 0xff]);
    assert_eq!(&flight[..2], &[0xee, 0xff]);
    assert_eq!(&flight[2..8], &CHANGE_CIPHER_SPEC);
    // Finished: 4 + 36 bytes + 20 MAC + 4 padding = 64 bytes of ciphertext
    assert_eq!(&flight[8..13], &[0x16, 3, 0, 0, 64]);
    assert_eq!(flight.len(), 13 + 64);
}

#[test]
fn handshake_verdicts() {
    let kb = symmetric_key_block();
    assert_eq!(complete_handshake(Record::new(&kb), &[]).err(), Some(HandshakeError::NoResponse));
    assert_eq!(
        complete_handshake(Record::new(&kb), &[0x15, 3, 0, 0, 2, 2, 0x2f]).err(),
        Some(HandshakeError::Alert { level: 2, desc: 0x2f })
    );
    assert_eq!(
        complete_handshake(Record::new(&kb), &[0x17, 3, 0, 0, 0]).err(),
        Some(HandshakeError::UnexpectedRecord(0x17))
    );
}

#[test]
fn handshake_syncs_receive_state() {
    let kb = symmetric_key_block();
    let mut server = Record::new(&kb);
    let mut resp = CHANGE_CIPHER_SPEC.to_vec();
    resp.extend_from_slice(&server.encrypt(0x16, &[0x14, 0, 0, 0x24]));
    assert!(server_answer_decryptable(&resp));
    let mut client = complete_handshake(Record::new(&kb), &resp).ok().unwrap();
    // the next server record opens only if the IV chain advanced
    let next = server.encrypt(0x17, b"after handshake");
    let (t, data) = client.decrypt(&next).ok().unwrap();
    assert_eq!(t, 0x17);
    assert_eq!(data, b"after handshake".to_vec());
}

#[test]
fn server_answer_with_partial_block_is_refused() {
    assert!(!server_answer_decryptable(&[0x16, 3, 0, 0, 3, 1, 2, 3]));
    assert!(server_answer_decryptable(&[0x14, 3, 0, 0, 1, 1]));
    assert!(server_answer_decryptable(&[0x16, 3, 0, 0, 40]));
}

#[test]
fn config_layout() {
    let cfg = Config::from_base(Path::new("/srv/vfs"));
    assert_eq!(cfg.init_seq, Path::new("/srv/vfs/captures/init_seq.json"));
    assert_eq!(cfg.modulus, Path::new("/srv/vfs/captures/modulus.json"));
    assert_eq!(cfg.patch_dir, Path::new("/srv/vfs/vendor/patches"));
}

#[test]
fn pubkey_from_hex_and_checks() {
    let k = PubKey::from_hex("  0a0B00 \n", 65537).ok().unwrap();
    assert_eq!(k.modulus_be, vec![0x0a, 0x0b, 0x00]);
    assert_eq!(k.exp, 65537);
    assert!(k.can_encrypt(0));
    assert!(!k.can_encrypt(1));
    let zero = PubKey { modulus_be: vec![0; 8], exp: 3 };
    assert!(!zero.can_encrypt(2));
    assert!(PubKey::from_hex("abc", 3).is_err());
    assert!(PubKey::from_hex("zz", 3).is_err());
}

#[test]
fn init_step_payloads() {
    let s = InitStep { hex: Some(" 0119 ".to_string()), blob: Some("x.bin".to_string()) };
    assert!(matches!(s.payload(), Ok(InitPayload::Bytes(ref v)) if v == &vec![0x01, 0x19]));
    let s = InitStep { hex: None, blob: Some("patch1.bin".to_string()) };
    assert!(matches!(s.payload(), Ok(InitPayload::Blob(ref n)) if n == "patch1.bin"));
    let s = InitStep { hex: None, blob: None };
    assert!(matches!(s.payload(), Err(InitStepError::Empty)));
    let s = InitStep { hex: Some("0g".to_string()), blob: None };
    assert!(matches!(s.payload(), Err(InitStepError::BadHex(_))));
    assert!(leaves_image_data(&[0x1f, 0]));
    assert!(!leaves_image_data(&[0x01]));
    assert!(!leaves_image_data(&[]));
}

#[test]
fn alert_answer_is_reported_without_decrypting() {
    // a fatal handshake_failure alert: its two-byte body is no cipher block
    let alert = [0x15u8, 3, 0, 0, 2, 2, 0x2f];
    assert!(!server_answer_decryptable(&alert));
    let kb = symmetric_key_block();
    assert_eq!(
        complete_handshake(Record::new(&kb), &alert).err(),
        Some(HandshakeError::Alert { level: 2, desc: 0x2f })
    );
}
