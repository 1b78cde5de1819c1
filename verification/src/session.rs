//! Open SSLv3 secure-session setup for the (unowned) VFS495.
//!
//! On an UNOWNED sensor the ClientKeyExchange is plain `RSA(premaster)`, with
//! no `s_key` AES wrap, so a standard proprietary-SSLv3 handshake establishes
//! the session with no pairing. This module holds every message and decision
//! of that handshake: the ClientHello, the ClientKeyExchange, reading the
//! ServerHello, the key derivation and Finished flight, and the verdict on the
//! server's answer, which also brings the receive side of the record layer in
//! step. Moving the bytes to and from the sensor is the caller's part.

use vstd::prelude::*;
use std::path::{Path, PathBuf};
use crate::bytes::{
    be16, be16_at, be24, le16, le_value, push_all, repeat, repeat_byte, to_vec, u16_be, u16_le,
};
use crate::primitives::{hex_decode, hex_decoded, trim, trim_end_spec, trim_start_spec};
use crate::crypto::{
    decrypt_ops, decrypt_spec, decryptable, encrypt_ops, encrypt_spec, last_block, lemma_open_in_order_upto, run_ops,
    sealed_for, sealed_in_order, RecordOp, finished_md5_leg, finished_sha1_leg, random_bytes,
    record_from_key_block, ssl3_finished, ssl3_prf, ssl3_prf_output, Record, RecordState,
};

verus! {

#[verifier::external_type_specification]
#[verifier::external_body]
pub struct ExPathBuf(PathBuf);

#[verifier::external_type_specification]
#[verifier::external_body]
pub struct ExPath(Path);

/// The path `rel` joined onto `base`.
pub uninterp spec fn path_join(base: &Path, rel: Seq<char>) -> PathBuf;

/// `std::path::Path::join`. Claimed: the result is `path_join` of the base
/// path and the relative part; which path that is, is left unsaid.
#[verifier::external_body]
fn join(base: &Path, rel: &str) -> (res: PathBuf)
    ensures
        res == path_join(base, rel@),
{
    base.join(rel)
}

/// Filesystem locations of the runtime data the driver needs.
///
/// `init_seq` and `modulus` are non-secret and ship with the repo. `patch_dir`
/// holds HP firmware blobs that must NOT be redistributed; the user extracts
/// them from HP's package into `vendor/patches/`.
pub struct Config {
    pub init_seq: PathBuf,
    pub modulus: PathBuf,
    pub patch_dir: PathBuf,
}

impl Config {
    /// Default layout, resolved against `base` (usually the repo / cwd).
    pub fn from_base(base: &Path) -> (cfg: Config)
        ensures
            cfg.init_seq == path_join(base, "captures/init_seq.json"@),
            cfg.modulus == path_join(base, "captures/modulus.json"@),
            cfg.patch_dir == path_join(base, "vendor/patches"@),
    {
        Config {
            init_seq: join(base, "captures/init_seq.json"),
            modulus: join(base, "captures/modulus.json"),
            patch_dir: join(base, "vendor/patches"),
        }
    }
}

/// Decode a hex field of the runtime data, ignoring surrounding white space.
pub fn decode_hex_text(s: &str) -> (r: Result<Vec<u8>, hex::FromHexError>)
    ensures
        r is Ok <==> hex_decoded(trim_end_spec(trim_start_spec(s@))) is Some,
        r matches Ok(v) ==> hex_decoded(trim_end_spec(trim_start_spec(s@))) == Some(v@),
{
    hex_decode(trim(s))
}

/// One step of the recorded static init: either hex bytes given inline, or
/// the name of a firmware patch blob in the patch directory.
pub struct InitStep {
    pub hex: Option<String>,
    pub blob: Option<String>,
}

/// What an init step sends: its inline bytes, or the named patch blob.
pub enum InitPayload {
    Bytes(Vec<u8>),
    Blob(String),
}

/// Why an init step has nothing to send.
pub enum InitStepError {
    /// The inline hex is not valid hex.
    BadHex(hex::FromHexError),
    /// The step has neither hex nor blob.
    Empty,
}

impl InitStep {
    /// The payload of this step: inline hex wins over a blob name.
    pub fn payload(&self) -> (r: Result<InitPayload, InitStepError>)
        ensures
            self.hex matches Some(h) ==> match r {
                Ok(InitPayload::Bytes(v)) => hex_decoded(trim_end_spec(trim_start_spec(h@))) == Some(v@),
                Err(InitStepError::BadHex(_)) => hex_decoded(trim_end_spec(trim_start_spec(h@))) is None,
                _ => false,
            },
            self.hex is None ==> match self.blob {
                Some(b) => r matches Ok(InitPayload::Blob(n)) && n@ == b@,
                None => r matches Err(InitStepError::Empty),
            },
    {
        match &self.hex {
            Some(h) => match decode_hex_text(h.as_str()) {
                Ok(v) => Ok(InitPayload::Bytes(v)),
                Err(e) => Err(InitStepError::BadHex(e)),
            },
            None => match &self.blob {
                Some(b) => Ok(InitPayload::Blob(b.clone())),
                None => Err(InitStepError::Empty),
            },
        }
    }
}

/// An init command starting with `0x1f` (SPI bulk read) leaves image data
/// queued on EP2 that must be drained.
pub fn leaves_image_data(payload: &[u8]) -> (b: bool)
    ensures
        b == (payload@.len() > 0 && payload@[0] == 0x1f),
{
    payload.len() > 0 && payload[0] == 0x1f
}

/// The sensor's RSA public key (modulus as stored: its bytes are read
/// little-endian when encrypting).
pub struct PubKey {
    pub modulus_be: Vec<u8>,
    pub exp: u64,
}

impl PubKey {
    /// The key as stored in the runtime data: the modulus in hex (surrounding
    /// white space ignored) and the public exponent.
    pub fn from_hex(modulus: &str, exp: u64) -> (r: Result<PubKey, hex::FromHexError>)
        ensures
            r is Ok <==> hex_decoded(trim_end_spec(trim_start_spec(modulus@))) is Some,
            r matches Ok(k) ==> Some(k.modulus_be@) == hex_decoded(trim_end_spec(trim_start_spec(modulus@)))
                && k.exp == exp,
    {
        let modulus_be = decode_hex_text(modulus)?;
        Ok(PubKey { modulus_be, exp })
    }

    /// The key can RSA-encrypt a `msg_len`-byte message: the modulus leaves room
    /// for the three framing bytes of the type-2 block and is not zero.
    pub fn can_encrypt(&self, msg_len: usize) -> (ok: bool)
        ensures
            ok == (msg_len + 3 <= self.modulus_be@.len() && le_value(self.modulus_be@) > 0),
    {
        if msg_len > self.modulus_be.len() || self.modulus_be.len() - msg_len < 3 {
            return false;
        }
        let mut i: usize = self.modulus_be.len();
        assert(self.modulus_be@.subrange(0, i as int) =~= self.modulus_be@);
        while i > 0
            invariant
                i <= self.modulus_be@.len(),
                msg_len + 3 <= self.modulus_be@.len(),
                le_value(self.modulus_be@) > 0 <==> le_value(self.modulus_be@.subrange(0, i as int)) > 0,
            decreases i,
        {
            proof {
                lemma_le_value_drop_top(self.modulus_be@.subrange(0, i as int));
                assert(self.modulus_be@.subrange(0, i as int).subrange(0, i - 1) =~= self.modulus_be@.subrange(0, i - 1));
                assert(self.modulus_be@.subrange(0, i as int)[i - 1] == self.modulus_be@[i - 1]);
            }
            if self.modulus_be[i - 1] != 0 {
                return true;
            }
            i = i - 1;
        }
        proof {
            assert(self.modulus_be@.subrange(0, 0) =~= Seq::<u8>::empty());
        }
        false
    }
}

/// The value of a little-endian string is non-zero exactly when it is non-zero
/// without its top byte, or its top byte is non-zero.
proof fn lemma_le_value_drop_top(s: Seq<u8>)
    requires
        s.len() > 0,
    ensures
        (le_value(s) > 0) <==> (le_value(s.subrange(0, s.len() - 1)) > 0 || s[s.len() - 1] != 0),
    decreases s.len(),
{
    let t = s.subrange(0, s.len() - 1);
    if s.len() == 1 {
        assert(s.drop_first() =~= Seq::<u8>::empty());
        assert(t =~= Seq::<u8>::empty());
    } else {
        lemma_le_value_drop_top(s.drop_first());
        assert(s.drop_first().subrange(0, s.drop_first().len() - 1) =~= t.drop_first());
        assert(t[0] == s[0]);
    }
}

/// "client finished" label: the little-endian bytes of `0x434C4E54`.
pub const FINISHED_LABEL: [u8; 4] = [0x54, 0x4e, 0x4c, 0x43];

/// The plaintext ChangeCipherSpec record sent before the Finished record.
pub const CHANGE_CIPHER_SPEC: [u8; 6] = [0x14, 0x03, 0x00, 0x00, 0x01, 0x01];

/// `11 <u16 LE len> <record>`: a record wrapped in the 0x11 "tunnel" command.
pub open spec fn tunnel_spec(record: Seq<u8>) -> Seq<u8> {
    seq![0x11u8] + le16(record.len()) + record
}

/// Wrap a secure record in the 0x11 "tunnel" command: `11 <u16 LE len> <record>`.
pub fn tunnel(record: &[u8]) -> (out: Vec<u8>)
    ensures
        out@ == tunnel_spec(record@),
{
    let mut out: Vec<u8> = Vec::with_capacity(3);
    out.push(0x11);
    let len_bytes = u16_le(record.len());
    push_all(&mut out, &len_bytes);
    push_all(&mut out, record);
    assert(out@ =~= tunnel_spec(record@));
    out
}

/// A handshake-type (`0x16`) SSLv3 record carrying `hs`.
pub open spec fn handshake_record(hs: Seq<u8>) -> Seq<u8> {
    seq![0x16u8, 0x03u8, 0x00u8] + be16(hs.len()) + hs
}

/// The ClientHello body: version 3.0, the client random, a seven-byte zero
/// session id, the three AES-CBC-SHA1 suites (0x0044, 0x0043, 0x0042) and the
/// null compression method.
pub open spec fn client_hello_body(client_random: Seq<u8>) -> Seq<u8> {
    seq![0x03u8, 0x00u8] + client_random + seq![7u8] + repeat_byte(0, 7) + seq![0x00u8, 0x06u8]
        + seq![0x00u8, 0x44u8, 0x00u8, 0x43u8, 0x00u8, 0x42u8] + seq![0x00u8]
}

/// The ClientHello handshake message: type 1, a 24-bit length, the body.
pub open spec fn client_hello_handshake(client_random: Seq<u8>) -> Seq<u8> {
    seq![0x01u8] + be24(client_hello_body(client_random).len()) + client_hello_body(client_random)
}

/// Appends a record header `16 03 00 <len16 be>` and `hs` to a fresh vector.
fn wrap_handshake(hs: &[u8]) -> (rec: Vec<u8>)
    ensures
        rec@ == handshake_record(hs@),
{
    let mut rec: Vec<u8> = Vec::new();
    rec.push(0x16);
    rec.push(0x03);
    rec.push(0x00);
    let len_bytes = u16_be(hs.len());
    push_all(&mut rec, &len_bytes);
    push_all(&mut rec, hs);
    assert(rec@ =~= handshake_record(hs@));
    rec
}

/// Build the ClientHello record. Returns (wire_record, handshake_message).
pub fn client_hello(client_random: &[u8]) -> (r: (Vec<u8>, Vec<u8>))
    ensures
        r.1@ == client_hello_handshake(client_random@),
        r.0@ == handshake_record(r.1@),
{
    let sid = repeat(0, 7);
    let mut body: Vec<u8> = Vec::new();
    body.push(0x03);
    body.push(0x00);
    push_all(&mut body, client_random);
    body.push(7);
    push_all(&mut body, &sid);
    body.push(0x00);
    body.push(0x06);
    let suites: [u8; 6] = [0x00, 0x44, 0x00, 0x43, 0x00, 0x42];
    push_all(&mut body, &suites);
    body.push(0x00);
    assert(body@ =~= client_hello_body(client_random@));

    let mut hs: Vec<u8> = Vec::new();
    hs.push(0x01);
    let l: usize = body.len();
    hs.push(((l / 65536) % 256) as u8);
    hs.push(((l / 256) % 256) as u8);
    hs.push((l % 256) as u8);
    push_all(&mut hs, &body);
    assert(hs@ =~= client_hello_handshake(client_random@));

    let rec = wrap_handshake(&hs);
    (rec, hs)
}

/// The premaster secret: version `03 00` followed by 46 random bytes.
pub fn premaster_secret() -> (pm: Vec<u8>)
    ensures
        pm@.len() == 48,
        pm@[0] == 3 && pm@[1] == 0,
{
    let mut pm: Vec<u8> = Vec::with_capacity(48);
    pm.push(0x03);
    pm.push(0x00);
    let rnd = random_bytes(46);
    push_all(&mut pm, &rnd);
    pm
}

/// The ClientKeyExchange handshake message `10 00 01 00 <enc>`.
pub open spec fn client_key_exchange_handshake(enc: Seq<u8>) -> Seq<u8> {
    seq![0x10u8, 0x00u8, 0x01u8, 0x00u8] + enc
}

/// Build the ClientKeyExchange around the RSA-encrypted premaster.
/// Returns (wire_record, handshake_message).
pub fn client_key_exchange(enc: &[u8]) -> (r: (Vec<u8>, Vec<u8>))
    ensures
        r.1@ == client_key_exchange_handshake(enc@),
        r.0@ == handshake_record(r.1@),
{
    let mut hs: Vec<u8> = Vec::new();
    hs.push(0x10);
    hs.push(0x00);
    hs.push(0x01);
    hs.push(0x00);
    push_all(&mut hs, enc);
    assert(hs@ =~= client_key_exchange_handshake(enc@));
    let rec = wrap_handshake(&hs);
    (rec, hs)
}

/// Why the handshake failed.
#[derive(Debug, Clone, Copy, PartialEq, Eq)]
pub enum HandshakeError {
    /// The ServerHello reply was shorter than 43 bytes (its length is given).
    ShortServerHello(usize),
    /// The sensor sent nothing after the Finished flight.
    NoResponse,
    /// The sensor answered with an alert: the handshake was rejected.
    Alert { level: u8, desc: u8 },
    /// The sensor answered with a record of another type.
    UnexpectedRecord(u8),
}

/// The parts of the ServerHello reply the handshake uses.
pub struct ServerHello {
    /// The handshake message (for the transcript).
    pub handshake: Vec<u8>,
    /// The 32-byte server random.
    pub server_random: Vec<u8>,
}

/// The ServerHello handshake message: the bytes after the 5-byte record
/// header, as many as its length field says, or up to the end if fewer remain.
pub open spec fn server_hello_handshake(sh: Seq<u8>) -> Seq<u8> {
    let shln = be16_at(sh, 3);
    let avail = (sh.len() - 5) as nat;
    sh.subrange(5, 5 + (if shln < avail { shln } else { avail }) as int)
}

/// Read the ServerHello reply: at least 43 bytes, the server random at 11..43.
pub fn parse_server_hello(sh: &[u8]) -> (r: Result<ServerHello, HandshakeError>)
    ensures
        sh@.len() < 43 <==> r is Err,
        r matches Err(e) ==> e == HandshakeError::ShortServerHello(sh@.len() as usize),
        r matches Ok(h) ==> h.handshake@ == server_hello_handshake(sh@) && h.server_random@
            == sh@.subrange(11, 43),
{
    if sh.len() < 43 {
        return Err(HandshakeError::ShortServerHello(sh.len()));
    }
    let shln: usize = sh[3] as usize * 256 + sh[4] as usize;
    let avail: usize = sh.len() - 5;
    let take: usize = if shln < avail { shln } else { avail };
    let handshake = to_vec(&sh[5..5 + take]);
    let server_random = to_vec(&sh[11..43]);
    Ok(ServerHello { handshake, server_random })
}

/// The 48-byte master secret.
pub open spec fn master_secret(premaster: Seq<u8>, client_random: Seq<u8>, server_random: Seq<u8>) -> Seq<u8> {
    ssl3_prf_output(premaster, client_random, server_random, 48)
}

/// The 136-byte key block.
pub open spec fn key_block(master: Seq<u8>, client_random: Seq<u8>, server_random: Seq<u8>) -> Seq<u8> {
    ssl3_prf_output(master, server_random, client_random, 136)
}

/// The Finished handshake message: `14 00 00 24` and the 36-byte payload over
/// the transcript.
pub open spec fn finished_handshake(master: Seq<u8>, transcript: Seq<u8>) -> Seq<u8> {
    seq![0x14u8, 0x00u8, 0x00u8, 0x24u8] + finished_md5_leg(master, transcript, FINISHED_LABEL@)
        + finished_sha1_leg(master, transcript, FINISHED_LABEL@)
}

/// The client's second flight and the record layer after it: the keys come
/// from the key block derived from the premaster and both randoms; the Finished
/// message covers ClientHello + ServerHello + ClientKeyExchange and is the
/// first encrypted record; the flight is the ClientKeyExchange record, the
/// ChangeCipherSpec record and the encrypted Finished record.
pub open spec fn client_flight(
    premaster: Seq<u8>,
    client_random: Seq<u8>,
    server_random: Seq<u8>,
    ch_hs: Seq<u8>,
    sh_hs: Seq<u8>,
    cke_hs: Seq<u8>,
    cke_rec: Seq<u8>,
) -> (RecordState, Seq<u8>) {
    let master = master_secret(premaster, client_random, server_random);
    let s0 = record_from_key_block(key_block(master, client_random, server_random));
    let fin = encrypt_spec(s0, 0x16, finished_handshake(master, ch_hs + sh_hs + cke_hs));
    (fin.0, cke_rec + CHANGE_CIPHER_SPEC@ + fin.1)
}

/// The record layer after the client flight is keyed from the SSLv3 key
/// block derived, server random first, from the master secret, which is
/// derived, client random first, from the premaster: its MAC secrets, keys
/// and server IV are that block's slices, one record has been sent and none
/// received, and the flight ends with the Finished record sealed under the
/// client key and IV of that block.
pub proof fn lemma_client_flight_keys(
    premaster: Seq<u8>,
    client_random: Seq<u8>,
    server_random: Seq<u8>,
    ch_hs: Seq<u8>,
    sh_hs: Seq<u8>,
    cke_hs: Seq<u8>,
    cke_rec: Seq<u8>,
)
    ensures
        ({
            let master = ssl3_prf_output(premaster, client_random, server_random, 48);
            let kb = ssl3_prf_output(master, server_random, client_random, 136);
            let (s, flight) = client_flight(premaster, client_random, server_random, ch_hs, sh_hs, cke_hs, cke_rec);
            &&& s.cmac == kb.subrange(0, 20)
            &&& s.smac == kb.subrange(20, 40)
            &&& s.ckey == kb.subrange(40, 72)
            &&& s.skey == kb.subrange(72, 104)
            &&& s.siv == kb.subrange(120, 136)
            &&& s.sseq == 1
            &&& s.rseq == 0
            &&& flight.subrange(0, cke_rec.len() as int) == cke_rec
            &&& flight.subrange((cke_rec.len() + 6) as int, flight.len() as int) == encrypt_spec(
                RecordState {
                    cmac: kb.subrange(0, 20),
                    smac: kb.subrange(20, 40),
                    ckey: kb.subrange(40, 72),
                    skey: kb.subrange(72, 104),
                    civ: kb.subrange(104, 120),
                    siv: kb.subrange(120, 136),
                    sseq: 0,
                    rseq: 0,
                },
                0x16,
                seq![0x14u8, 0x00u8, 0x00u8, 0x24u8] + finished_md5_leg(master, ch_hs + sh_hs + cke_hs, FINISHED_LABEL@)
                    + finished_sha1_leg(master, ch_hs + sh_hs + cke_hs, FINISHED_LABEL@),
            ).1
        }),
{
    let master = ssl3_prf_output(premaster, client_random, server_random, 48);
    let kb = ssl3_prf_output(master, server_random, client_random, 136);
    let s0 = record_from_key_block(key_block(master, client_random, server_random));
    assert(s0 =~= RecordState {
        cmac: kb.subrange(0, 20),
        smac: kb.subrange(20, 40),
        ckey: kb.subrange(40, 72),
        skey: kb.subrange(72, 104),
        civ: kb.subrange(104, 120),
        siv: kb.subrange(120, 136),
        sseq: 0,
        rseq: 0,
    });
    let fin = encrypt_spec(s0, 0x16, finished_handshake(master, ch_hs + sh_hs + cke_hs));
    let flight = cke_rec + CHANGE_CIPHER_SPEC@ + fin.1;
    assert(flight.subrange(0, cke_rec.len() as int) =~= cke_rec);
    assert(flight.subrange((cke_rec.len() + 6) as int, flight.len() as int) =~= fin.1);
}

/// Derive the session keys, build and encrypt the Finished message, and
/// assemble the flight `ClientKeyExchange + ChangeCipherSpec + Finished`.
/// Returns the active record layer and the flight (to be sent tunnelled).
pub fn client_finish_flight(
    premaster: &[u8],
    client_random: &[u8],
    server_random: &[u8],
    ch_hs: &[u8],
    sh_hs: &[u8],
    cke_hs: &[u8],
    cke_rec: &[u8],
) -> (r: (Record, Vec<u8>))
    ensures
        (r.0@, r.1@) == client_flight(
            premaster@,
            client_random@,
            server_random@,
            ch_hs@,
            sh_hs@,
            cke_hs@,
            cke_rec@,
        ),
        r.0@.wf(),
        ({
            let master = ssl3_prf_output(premaster@, client_random@, server_random@, 48);
            let kb = ssl3_prf_output(master, server_random@, client_random@, 136);
            let fin = seq![0x14u8, 0x00u8, 0x00u8, 0x24u8] + finished_md5_leg(
                master,
                ch_hs@ + sh_hs@ + cke_hs@,
                FINISHED_LABEL@,
            ) + finished_sha1_leg(master, ch_hs@ + sh_hs@ + cke_hs@, FINISHED_LABEL@);
            let fin_rec = r.1@.subrange((cke_rec@.len() + 6) as int, r.1@.len() as int);
            &&& r.0@.cmac == kb.subrange(0, 20)
            &&& r.0@.smac == kb.subrange(20, 40)
            &&& r.0@.ckey == kb.subrange(40, 72)
            &&& r.0@.skey == kb.subrange(72, 104)
            &&& r.0@.siv == kb.subrange(120, 136)
            &&& r.0@.sseq == 1
            &&& r.0@.rseq == 0
            &&& r.1@.subrange(0, cke_rec@.len() as int) == cke_rec@
            &&& r.1@.subrange(cke_rec@.len() as int, (cke_rec@.len() + 6) as int) == seq![0x14u8, 0x03u8, 0x00u8, 0x00u8, 0x01u8, 0x01u8]
            &&& fin_rec == encrypt_spec(
                RecordState {
                    cmac: kb.subrange(0, 20),
                    smac: kb.subrange(20, 40),
                    ckey: kb.subrange(40, 72),
                    skey: kb.subrange(72, 104),
                    civ: kb.subrange(104, 120),
                    siv: kb.subrange(120, 136),
                    sseq: 0,
                    rseq: 0,
                },
                0x16,
                fin,
            ).1
            &&& sealed_for(kb.subrange(40, 72), kb.subrange(104, 120), fin_rec, 0x16, fin)
        }),
{
    let master = ssl3_prf(premaster, client_random, server_random, 48);
    let kb = ssl3_prf(&master, server_random, client_random, 136);
    let mut rec = Record::new(&kb);

    let mut transcript: Vec<u8> = Vec::new();
    push_all(&mut transcript, ch_hs);
    push_all(&mut transcript, sh_hs);
    push_all(&mut transcript, cke_hs);
    let fin_body = ssl3_finished(&master, &transcript, &FINISHED_LABEL);
    let mut fin_hs: Vec<u8> = Vec::new();
    fin_hs.push(0x14);
    fin_hs.push(0x00);
    fin_hs.push(0x00);
    fin_hs.push(0x24);
    push_all(&mut fin_hs, &fin_body);
    assert(fin_hs@ =~= finished_handshake(master@, ch_hs@ + sh_hs@ + cke_hs@));
    let ghost s0 = rec@;
    let fin_rec = rec.encrypt(0x16, &fin_hs);

    let mut flight: Vec<u8> = Vec::new();
    push_all(&mut flight, cke_rec);
    push_all(&mut flight, &CHANGE_CIPHER_SPEC);
    push_all(&mut flight, &fin_rec);
    proof {
        let n = cke_rec@.len();
        assert(flight@ =~= cke_rec@ + CHANGE_CIPHER_SPEC@ + fin_rec@);
        assert(flight@.subrange(0, n as int) =~= cke_rec@);
        assert(flight@.subrange(n as int, (n + 6) as int) =~= CHANGE_CIPHER_SPEC@);
        assert(flight@.subrange((n + 6) as int, flight@.len() as int) =~= fin_rec@);
        assert(s0 =~= RecordState {
            cmac: kb@.subrange(0, 20),
            smac: kb@.subrange(20, 40),
            ckey: kb@.subrange(40, 72),
            skey: kb@.subrange(72, 104),
            civ: kb@.subrange(104, 120),
            siv: kb@.subrange(120, 136),
            sseq: 0,
            rseq: 0,
        });
    }
    (rec, flight)
}

/// Every complete record of the server's answer from `off` on that is not a
/// ChangeCipherSpec (type `0x14`) is one `decrypt` accepts without panicking.
pub open spec fn server_records_decryptable(resp: Seq<u8>, off: nat) -> bool
    decreases resp.len() - off,
{
    if off + 5 > resp.len() {
        true
    } else {
        let end = off + 5 + be16_at(resp, off + 3int);
        if end > resp.len() {
            true
        } else {
            &&& (resp[off as int] != 0x14 ==> decryptable(resp.subrange(off as int, end as int)))
            &&& server_records_decryptable(resp, end)
        }
    }
}

/// The record layer after walking the server's answer from `off`: each
/// complete record is decrypted in order (ChangeCipherSpec records skipped),
/// whether or not it opens; an incomplete tail ends the walk.
pub open spec fn sync_receive(s: RecordState, resp: Seq<u8>, off: nat) -> RecordState
    decreases resp.len() - off,
{
    if off + 5 > resp.len() {
        s
    } else {
        let end = off + 5 + be16_at(resp, off + 3int);
        if end > resp.len() {
            s
        } else {
            let s1 = if resp[off as int] != 0x14 {
                decrypt_spec(s, resp.subrange(off as int, end as int)).0
            } else {
                s
            };
            sync_receive(s1, resp, end)
        }
    }
}

/// The walk over an answer from offset `pre.len() + j` of `pre + rest` is the
/// walk over `rest` from `j`: what came before is never read again.
proof fn lemma_sync_receive_shift(s: RecordState, pre: Seq<u8>, rest: Seq<u8>, j: nat)
    ensures
        sync_receive(s, pre + rest, pre.len() + j) == sync_receive(s, rest, j),
    decreases rest.len() - j,
{
    let resp = pre + rest;
    let off = pre.len() + j;
    if j + 5 <= rest.len() {
        assert(resp[off + 3int] == rest[j + 3int]);
        assert(resp[off + 4int] == rest[j + 4int]);
        assert(resp[off as int] == rest[j as int]);
        let end = j + 5 + be16_at(rest, j + 3int);
        if end <= rest.len() {
            assert(resp.subrange(off as int, (pre.len() + end) as int) =~= rest.subrange(j as int, end as int));
            let s1 = if rest[j as int] != 0x14 {
                decrypt_spec(s, rest.subrange(j as int, end as int)).0
            } else {
                s
            };
            lemma_sync_receive_shift(s1, pre, rest, end);
        }
    }
}

proof fn lemma_sync_receive_sealed(
    a0: RecordState,
    b0: RecordState,
    ts: Seq<u8>,
    ds: Seq<Seq<u8>>,
    ws: Seq<Seq<u8>>,
    k: nat,
)
    requires
        k <= ws.len(),
        sealed_in_order(a0, ts, ds, ws),
        forall|i: int| 0 <= i < ts.len() ==> ts[i] != 0x14,
    ensures
        sync_receive(run_ops(b0, decrypt_ops(ws), k), ws.subrange(k as int, ws.len() as int).flatten(), 0)
            == run_ops(b0, decrypt_ops(ws), ws.len()),
    decreases ws.len() - k,
{
    let rest = ws.subrange(k as int, ws.len() as int);
    if k == ws.len() {
        assert(rest =~= Seq::<Seq<u8>>::empty());
        assert(rest.flatten() =~= Seq::<u8>::empty());
    } else {
        let w = ws[k as int];
        let tail = ws.subrange(k + 1int, ws.len() as int);
        assert(rest.drop_first() =~= tail);
        assert(rest.first() == w);
        let flat = rest.flatten();
        assert(flat == w + tail.flatten());
        // the record is whole and not a ChangeCipherSpec
        assert(sealed_for(
            run_ops(a0, encrypt_ops(ts, ds), k).ckey,
            run_ops(a0, encrypt_ops(ts, ds), k).civ,
            w,
            ts[k as int],
            ds[k as int],
        ));
        assert(flat[0] == w[0]);
        assert(flat[3] == w[3]);
        assert(flat[4] == w[4]);
        let end = 5 + be16_at(flat, 3);
        assert(end == w.len());
        assert(flat.subrange(0, end as int) =~= w);
        let b = run_ops(b0, decrypt_ops(ws), k);
        assert(decrypt_ops(ws)[k as int] == RecordOp::Decrypt(w));
        let b1 = decrypt_spec(b, w).0;
        assert(b1 == run_ops(b0, decrypt_ops(ws), k + 1));
        lemma_sync_receive_shift(b1, w, tail.flatten(), 0);
        lemma_sync_receive_sealed(a0, b0, ts, ds, ws, k + 1);
    }
}

/// The server's answer to the Finished flight is consumed whole: when it is a
/// ChangeCipherSpec followed by records `ws` that the server sealed in
/// order (none of them a ChangeCipherSpec), under the key and IV this record
/// layer receives with, walking it decrypts every one of them, so the
/// receive sequence number advances by the number of records and the server
/// IV ends at the last block of the last record; nothing else changes.
pub proof fn lemma_handshake_answer_consumed(
    a0: RecordState,
    b0: RecordState,
    ts: Seq<u8>,
    ds: Seq<Seq<u8>>,
    ws: Seq<Seq<u8>>,
)
    requires
        sealed_in_order(a0, ts, ds, ws),
        forall|i: int| 0 <= i < ts.len() ==> ts[i] != 0x14,
        b0.wf(),
        b0.skey == a0.ckey,
        b0.siv == a0.civ,
        b0.rseq + ws.len() < u64::MAX,
    ensures
        sync_receive(b0, CHANGE_CIPHER_SPEC@ + ws.flatten(), 0).rseq == b0.rseq + ws.len(),
        ws.len() > 0 ==> sync_receive(b0, CHANGE_CIPHER_SPEC@ + ws.flatten(), 0).siv == last_block(ws.last()),
        ws.len() == 0 ==> sync_receive(b0, CHANGE_CIPHER_SPEC@ + ws.flatten(), 0).siv == b0.siv,
        sync_receive(b0, CHANGE_CIPHER_SPEC@ + ws.flatten(), 0).skey == b0.skey,
        sync_receive(b0, CHANGE_CIPHER_SPEC@ + ws.flatten(), 0).smac == b0.smac,
        sync_receive(b0, CHANGE_CIPHER_SPEC@ + ws.flatten(), 0).cmac == b0.cmac,
        sync_receive(b0, CHANGE_CIPHER_SPEC@ + ws.flatten(), 0).ckey == b0.ckey,
        sync_receive(b0, CHANGE_CIPHER_SPEC@ + ws.flatten(), 0).civ == b0.civ,
        sync_receive(b0, CHANGE_CIPHER_SPEC@ + ws.flatten(), 0).sseq == b0.sseq,
{
    let ccs = CHANGE_CIPHER_SPEC@;
    let resp = ccs + ws.flatten();
    assert(ccs =~= seq![0x14u8, 0x03u8, 0x00u8, 0x00u8, 0x01u8, 0x01u8]);
    assert(resp[0] == 0x14);
    assert(resp[3] == 0 && resp[4] == 1);
    assert(5 + be16_at(resp, 3) == 6);
    assert(sync_receive(b0, resp, 0) == sync_receive(b0, resp, 6));
    lemma_sync_receive_shift(b0, ccs, ws.flatten(), 0);
    assert(ws.subrange(0, ws.len() as int) =~= ws);
    lemma_sync_receive_sealed(a0, b0, ts, ds, ws, 0);
    lemma_open_in_order_upto(a0, b0, ts, ds, ws, ws.len());
}

/// Whether `complete_handshake` can walk the server's answer: every complete
/// non-ChangeCipherSpec record in it carries whole cipher blocks.
pub fn server_answer_decryptable(resp: &[u8]) -> (ok: bool)
    ensures
        ok == server_records_decryptable(resp@, 0),
{
    let mut off: usize = 0;
    while resp.len() >= 5 && off <= resp.len() - 5
        invariant
            off <= resp@.len(),
            server_records_decryptable(resp@, 0) == server_records_decryptable(resp@, off as nat),
        ensures
            server_records_decryptable(resp@, 0) == server_records_decryptable(resp@, off as nat),
            off + 5 > resp@.len() || off + 5 + be16_at(resp@, off + 3int) > resp@.len(),
        decreases resp@.len() - off,
    {
        let ln: usize = resp[off + 3] as usize * 256 + resp[off + 4] as usize;
        if ln > resp.len() - off - 5 {
            break;
        }
        let end: usize = off + 5 + ln;
        if resp[off] != 0x14 && resp[off + 1] == 3 && resp[off + 2] == 0 && (ln < 16 || ln % 16 != 0) {
            assert(resp@.subrange(off as int, end as int)[1] == resp@[off + 1]);
            assert(resp@.subrange(off as int, end as int)[2] == resp@[off + 2]);
            assert(resp@.subrange(off as int, end as int)[3] == resp@[off + 3]);
            assert(resp@.subrange(off as int, end as int)[4] == resp@[off + 4]);
            return false;
        }
        proof {
            let r = resp@.subrange(off as int, end as int);
            assert(r[1] == resp@[off + 1]);
            assert(r[2] == resp@[off + 2]);
            assert(r[3] == resp@[off + 3]);
            assert(r[4] == resp@[off + 4]);
        }
        off = end;
    }
    true
}

/// The verdict on the server's answer to the Finished flight: nothing is an
/// error; an alert (`0x15`) carries its last two bytes as level and
/// description; a ChangeCipherSpec or handshake record (`0x14`/`0x16`) means
/// the session is up; anything else is unexpected.
pub open spec fn handshake_verdict(resp: Seq<u8>) -> Result<(), HandshakeError> {
    if resp.len() == 0 {
        Err(HandshakeError::NoResponse)
    } else if resp[0] == 0x15 {
        Err(HandshakeError::Alert { level: resp[resp.len() - 2], desc: resp[resp.len() - 1] })
    } else if resp[0] == 0x14 || resp[0] == 0x16 {
        Ok(())
    } else {
        Err(HandshakeError::UnexpectedRecord(resp[0]))
    }
}

/// Judge the server's answer to the Finished flight. On success the server's
/// post-CCS records (its encrypted Finished) are consumed through the record
/// layer so the receive sequence number and CBC IV chain advance to their
/// post-handshake state; a record that does not open is passed over.
pub fn complete_handshake(rec: Record, resp: &[u8]) -> (r: Result<Record, HandshakeError>)
    requires
        resp@.len() > 0 && resp@[0] == 0x15 ==> resp@.len() >= 2,
        handshake_verdict(resp@) is Ok ==> server_records_decryptable(resp@, 0),
        rec@.wf(),
        rec@.rseq + resp@.len() < u64::MAX,
    ensures
        r is Ok <==> handshake_verdict(resp@) is Ok,
        r matches Err(e) ==> handshake_verdict(resp@) == Err::<(), HandshakeError>(e),
        r matches Ok(r2) ==> r2@ == sync_receive(rec@, resp@, 0) && r2@.wf(),
{
    if resp.len() == 0 {
        return Err(HandshakeError::NoResponse);
    }
    let t: u8 = resp[0];
    if t == 0x15 {
        return Err(HandshakeError::Alert { level: resp[resp.len() - 2], desc: resp[resp.len() - 1] });
    }
    if !(t == 0x14 || t == 0x16) {
        return Err(HandshakeError::UnexpectedRecord(t));
    }
    assert(handshake_verdict(resp@) is Ok);
    let mut rec = rec;
    let ghost s0 = rec@;
    let mut off: usize = 0;
    while resp.len() >= 5 && off <= resp.len() - 5
        invariant
            off <= resp@.len(),
            server_records_decryptable(resp@, off as nat),
            sync_receive(rec@, resp@, off as nat) == sync_receive(s0, resp@, 0),
            rec@.rseq <= s0.rseq + off,
            s0.rseq + resp@.len() < u64::MAX,
            rec@.wf(),
        ensures
            rec@ == sync_receive(s0, resp@, 0),
            rec@.wf(),
        decreases resp@.len() - off,
    {
        let rtype: u8 = resp[off];
        let ln: usize = resp[off + 3] as usize * 256 + resp[off + 4] as usize;
        if ln > resp.len() - off - 5 {
            break;
        }
        let end: usize = off + 5 + ln;
        if rtype != 0x14 {
            let _ = rec.decrypt(&resp[off..end]);
        }
        off = end;
    }
    Ok(rec)
}

} // verus!
