//! Validity's proprietary SSLv3-RSA crypto.
//!
//! Quirks against textbook SSLv3, all confirmed on the device:
//!   * the RSA modulus is interpreted **little-endian** (wire bytes stay big-endian);
//!   * the record MAC **omits the length field**;
//!   * cipher suite 0x0044 = AES-256-CBC + SHA-1.

use vstd::prelude::*;
use vstd::arithmetic::power::pow;
use crate::bytes::{
    be16, be16_at, be64, u16_be, u64_be, be_value, le_value, lemma_be_value_zero_prefix, lemma_minimal_be_fits, push_all, repeat,
    repeat_byte, to_vec,
};
use crate::primitives::{
    aes256_cbc_decrypt, aes256_cbc_encrypt, cbc_decrypt, cbc_encrypt, fill_random, md5, md5_of, modpow_be, random_nonzero_byte, sha1, sha1_of,
};

verus! {

// ---------------------------------------------------------------------------
// Key derivation
// ---------------------------------------------------------------------------

/// The salt of the `i`-th KDF block: the letter `'A' + i`, repeated `i + 1` times.
pub open spec fn prf_salt(i: nat) -> Seq<u8> {
    repeat_byte((0x41 + i) as u8, i + 1)
}

/// The `i`-th 16-byte KDF block:
/// `MD5(secret + SHA1(salt_i + secret + seed_a + seed_b))`.
pub open spec fn prf_block(secret: Seq<u8>, seed_a: Seq<u8>, seed_b: Seq<u8>, i: nat) -> Seq<u8> {
    md5_of(secret + sha1_of(prf_salt(i) + secret + seed_a + seed_b))
}

/// The first `nbytes` bytes of the KDF stream: block 0, block 1, ... laid end to end.
pub open spec fn ssl3_prf_output(secret: Seq<u8>, seed_a: Seq<u8>, seed_b: Seq<u8>, nbytes: nat) -> Seq<u8> {
    Seq::new(nbytes, |j: int| prf_block(secret, seed_a, seed_b, (j / 16) as nat)[j % 16])
}

/// The largest output the KDF produces before its salt letter runs past `0xff`.
pub const PRF_MAX_BYTES: usize = 3056;

/// SSLv3 KDF: for `i = 0..`, `salt = ('A' + i)` repeated `i + 1` times;
/// `block = MD5(secret + SHA1(salt + secret + seed_a + seed_b))`; the blocks are
/// concatenated and cut to `nbytes`.
pub fn ssl3_prf(secret: &[u8], seed_a: &[u8], seed_b: &[u8], nbytes: usize) -> (out: Vec<u8>)
    requires
        nbytes <= PRF_MAX_BYTES,
    ensures
        out@ == ssl3_prf_output(secret@, seed_a@, seed_b@, nbytes as nat),
        out@.len() == nbytes,
{
    let mut out: Vec<u8> = Vec::with_capacity(nbytes + 16);
    let mut i: usize = 0;
    while out.len() < nbytes
        invariant
            nbytes <= PRF_MAX_BYTES,
            out@.len() == 16 * i,
            16 * i < nbytes + 16,
            forall|j: int|
                0 <= j < out@.len() ==> #[trigger] out@[j] == prf_block(
                    secret@,
                    seed_a@,
                    seed_b@,
                    (j / 16) as nat,
                )[j % 16],
        decreases nbytes + 16 - out@.len(),
    {
        let letter: u8 = 0x41 + i as u8;
        let salt = repeat(letter, i + 1);
        let mut inner: Vec<u8> = Vec::new();
        push_all(&mut inner, &salt);
        push_all(&mut inner, secret);
        push_all(&mut inner, seed_a);
        push_all(&mut inner, seed_b);
        assert(salt@ == prf_salt(i as nat));
        let sha = sha1(&inner);
        let mut outer = to_vec(secret);
        push_all(&mut outer, &sha);
        let block = md5(&outer);
        assert(block@ == prf_block(secret@, seed_a@, seed_b@, i as nat));
        let ghost before = out@;
        push_all(&mut out, &block);
        assert forall|j: int| 0 <= j < out@.len() implies #[trigger] out@[j] == prf_block(
            secret@,
            seed_a@,
            seed_b@,
            (j / 16) as nat,
        )[j % 16] by {
            if j >= before.len() {
                assert(j / 16 == i as int);
                assert(j % 16 == j - 16 * i);
            } else {
                assert(out@[j] == before[j]);
            }
        }
        i = i + 1;
    }
    out.truncate(nbytes);
    assert(out@ =~= ssl3_prf_output(secret@, seed_a@, seed_b@, nbytes as nat));
    out
}

/// The KDF is one stream cut to length: a shorter output is a prefix of a
/// longer one for the same secret and seeds.
pub proof fn lemma_prf_prefix(secret: Seq<u8>, seed_a: Seq<u8>, seed_b: Seq<u8>, n: nat, m: nat)
    requires
        n <= m,
    ensures
        ssl3_prf_output(secret, seed_a, seed_b, n) == ssl3_prf_output(secret, seed_a, seed_b, m).subrange(0, n as int),
{
    assert(ssl3_prf_output(secret, seed_a, seed_b, n) =~= ssl3_prf_output(secret, seed_a, seed_b, m).subrange(0, n as int));
}

// ---------------------------------------------------------------------------
// Finished message
// ---------------------------------------------------------------------------

/// The MD5 leg of the SSLv3 Finished payload.
pub open spec fn finished_md5_leg(master: Seq<u8>, hs: Seq<u8>, label: Seq<u8>) -> Seq<u8> {
    md5_of(master + repeat_byte(0x5c, 48) + md5_of(hs + label + master + repeat_byte(0x36, 48)))
}

/// The SHA-1 leg of the SSLv3 Finished payload.
pub open spec fn finished_sha1_leg(master: Seq<u8>, hs: Seq<u8>, label: Seq<u8>) -> Seq<u8> {
    sha1_of(master + repeat_byte(0x5c, 40) + sha1_of(hs + label + master + repeat_byte(0x36, 40)))
}

fn leg_md5(master: &[u8], hs: &[u8], label: &[u8]) -> (d: Vec<u8>)
    ensures
        d@ == finished_md5_leg(master@, hs@, label@),
        d@.len() == 16,
{
    let pad: usize = 48;
    let mut inner: Vec<u8> = Vec::new();
    push_all(&mut inner, hs);
    push_all(&mut inner, label);
    push_all(&mut inner, master);
    let ipad = repeat(0x36, pad);
    push_all(&mut inner, &ipad);
    let ih = md5(&inner);
    let mut outer: Vec<u8> = Vec::new();
    push_all(&mut outer, master);
    let opad = repeat(0x5c, pad);
    push_all(&mut outer, &opad);
    push_all(&mut outer, &ih);
    md5(&outer)
}

fn leg_sha1(master: &[u8], hs: &[u8], label: &[u8]) -> (d: Vec<u8>)
    ensures
        d@ == finished_sha1_leg(master@, hs@, label@),
        d@.len() == 20,
{
    let pad: usize = 40;
    let mut inner: Vec<u8> = Vec::new();
    push_all(&mut inner, hs);
    push_all(&mut inner, label);
    push_all(&mut inner, master);
    let ipad = repeat(0x36, pad);
    push_all(&mut inner, &ipad);
    let ih = sha1(&inner);
    let mut outer: Vec<u8> = Vec::new();
    push_all(&mut outer, master);
    let opad = repeat(0x5c, pad);
    push_all(&mut outer, &opad);
    push_all(&mut outer, &ih);
    sha1(&outer)
}

/// SSLv3 `Finished` payload: the MD5 leg followed by the SHA-1 leg over the
/// handshake transcript, 36 bytes in all.
pub fn ssl3_finished(master: &[u8], hs_msgs: &[u8], label: &[u8]) -> (out: Vec<u8>)
    ensures
        out@ == finished_md5_leg(master@, hs_msgs@, label@) + finished_sha1_leg(master@, hs_msgs@, label@),
        out@.len() == 36,
        out@.subrange(0, 16) == finished_md5_leg(master@, hs_msgs@, label@),
        out@.subrange(16, 36) == finished_sha1_leg(master@, hs_msgs@, label@),
{
    let mut out: Vec<u8> = Vec::with_capacity(36);
    let a = leg_md5(master, hs_msgs, label);
    let b = leg_sha1(master, hs_msgs, label);
    push_all(&mut out, &a);
    push_all(&mut out, &b);
    assert(out@ =~= a@ + b@);
    assert(out@.subrange(0, 16) =~= a@);
    assert(out@.subrange(16, 36) =~= b@);
    out
}

// ---------------------------------------------------------------------------
// RSA (PKCS#1 v1.5 type 2, little-endian modulus)
// ---------------------------------------------------------------------------

/// The PKCS#1 v1.5 type-2 block `00 02 <ps> 00 <msg>`.
pub open spec fn pkcs1_type2(ps: Seq<u8>, msg: Seq<u8>) -> Seq<u8> {
    seq![0u8, 2u8] + ps + seq![0u8] + msg
}

/// The RSA encryption of the type-2 block built from padding `ps` and `msg`,
/// the modulus read little-endian, as a big-endian number `k` bytes wide
/// (`k` the modulus length).
pub open spec fn rsa_ciphertext_ok(wire: Seq<u8>, modulus_be: Seq<u8>, exponent: u64, ps: Seq<u8>, msg: Seq<u8>) -> bool {
    &&& wire.len() == modulus_be.len()
    &&& be_value(wire) == pow(be_value(pkcs1_type2(ps, msg)) as int, exponent as nat) % (le_value(modulus_be) as int)
}

/// RSA-encrypts `msg` with the given non-zero padding string: builds the
/// type-2 block, raises it to `exponent` modulo the little-endian modulus, and
/// writes the result big-endian, left-padded with zeros to the modulus width.
pub fn rsa_encrypt_with_padding(modulus_be: &[u8], exponent: u64, msg: &[u8], ps: &[u8]) -> (wire: Vec<u8>)
    requires
        le_value(modulus_be@) > 0,
    ensures
        rsa_ciphertext_ok(wire@, modulus_be@, exponent, ps@, msg@),
{
    let k: usize = modulus_be.len();
    let mut em: Vec<u8> = Vec::new();
    em.push(0x00);
    em.push(0x02);
    push_all(&mut em, ps);
    em.push(0x00);
    push_all(&mut em, msg);
    assert(em@ =~= pkcs1_type2(ps@, msg@));
    let c = modpow_be(&em, exponent, modulus_be);
    proof {
        let v = pow(be_value(em@) as int, exponent as nat);
        let n = le_value(modulus_be@) as int;
        assert(v % n < n) by (nonlinear_arith)
            requires
                n > 0,
        ;
        lemma_minimal_be_fits(c@, modulus_be@);
    }
    let mut wire = repeat(0, k - c.len());
    push_all(&mut wire, &c);
    proof {
        lemma_be_value_zero_prefix((k - c@.len()) as nat, c@);
    }
    wire
}

/// PKCS#1 v1.5 type-2 RSA encryption. The modulus is interpreted
/// **little-endian**; the ciphertext on the wire is big-endian, `k` bytes wide.
/// The padding string is `k - 3 - len(msg)` random non-zero bytes.
pub fn rsa_encrypt(modulus_be: &[u8], exponent: u64, msg: &[u8]) -> (wire: Vec<u8>)
    requires
        msg@.len() + 3 <= modulus_be@.len(),
        le_value(modulus_be@) > 0,
    ensures
        exists|ps: Seq<u8>|
            #![trigger pkcs1_type2(ps, msg@)]
            ps.len() == modulus_be@.len() - 3 - msg@.len() && (forall|i: int| 0 <= i < ps.len() ==> ps[i] != 0)
                && rsa_ciphertext_ok(wire@, modulus_be@, exponent, ps, msg@),
{
    let ps_len: usize = modulus_be.len() - 3 - msg.len();
    let mut ps: Vec<u8> = Vec::with_capacity(ps_len);
    while ps.len() < ps_len
        invariant
            ps@.len() <= ps_len,
            forall|i: int| 0 <= i < ps@.len() ==> ps@[i] != 0,
        decreases ps_len - ps@.len(),
    {
        let b: u8 = random_nonzero_byte();
        ps.push(b);
    }
    let wire = rsa_encrypt_with_padding(modulus_be, exponent, msg, &ps);
    wire
}

/// `n` random bytes (for `ClientHello.client_random` and the premaster secret).
pub fn random_bytes(n: usize) -> (v: Vec<u8>)
    ensures
        v@.len() == n,
{
    let mut v = repeat(0, n);
    fill_random(&mut v);
    v
}

// ---------------------------------------------------------------------------
// Record layer
// ---------------------------------------------------------------------------

/// Why a wire record could not be opened.
#[derive(Debug, Clone, Copy, PartialEq, Eq)]
pub enum RecordError {
    /// Fewer than the five header bytes.
    TooShort,
    /// The version bytes are not `03 00`.
    BadVersion,
    /// The header's length runs past the end of the buffer.
    LengthOverrun,
    /// The decrypted padding length leaves no room for the 20-byte MAC.
    PadUnderflow,
}

/// The abstract state of a record layer: MAC secrets, keys and current CBC
/// IVs for each direction, and the send and receive sequence numbers.
pub ghost struct RecordState {
    pub cmac: Seq<u8>,
    pub smac: Seq<u8>,
    pub ckey: Seq<u8>,
    pub skey: Seq<u8>,
    pub civ: Seq<u8>,
    pub siv: Seq<u8>,
    pub sseq: u64,
    pub rseq: u64,
}

impl RecordState {
    /// Secrets, keys and IVs have their AES-256-CBC + SHA-1 sizes.
    pub open spec fn wf(self) -> bool {
        &&& self.cmac.len() == 20
        &&& self.smac.len() == 20
        &&& self.ckey.len() == 32
        &&& self.skey.len() == 32
        &&& self.civ.len() == 16
        &&& self.siv.len() == 16
    }
}

/// The record layer a 136-byte SSLv3 key block sets up: MACs, keys and IVs
/// for client and server, in that order, with both sequence numbers at zero.
pub open spec fn record_from_key_block(kb: Seq<u8>) -> RecordState {
    RecordState {
        cmac: kb.subrange(0, 20),
        smac: kb.subrange(20, 40),
        ckey: kb.subrange(40, 72),
        skey: kb.subrange(72, 104),
        civ: kb.subrange(104, 120),
        siv: kb.subrange(120, 136),
        sseq: 0,
        rseq: 0,
    }
}

/// The length-less SSLv3 MAC (Validity variant):
/// `SHA1(key + 5c*40 + SHA1(key + 36*40 + seq_be64 + rtype + data))`.
pub open spec fn record_mac(key: Seq<u8>, seq: u64, rtype: u8, data: Seq<u8>) -> Seq<u8> {
    sha1_of(key + repeat_byte(0x5c, 40) + sha1_of(key + repeat_byte(0x36, 40) + be64(seq) + seq![rtype] + data))
}

/// SSLv3 block padding after `n` bytes: `p` bytes of value `p - 1`, where
/// `p = 16 - n % 16` (so between 1 and 16 bytes).
pub open spec fn cbc_padding(n: nat) -> Seq<u8> {
    repeat_byte((16 - n % 16 - 1) as u8, (16 - n % 16) as nat)
}

/// The plaintext that gets encrypted: data, its MAC, and block padding.
pub open spec fn sealed_plaintext(s: RecordState, rtype: u8, data: Seq<u8>) -> Seq<u8> {
    let body = data + record_mac(s.cmac, s.sseq, rtype, data);
    body + cbc_padding(body.len())
}

/// The last 16 bytes of a ciphertext: the next CBC IV.
pub open spec fn last_block(ct: Seq<u8>) -> Seq<u8> {
    ct.subrange(ct.len() - 16, ct.len() as int)
}

/// What `encrypt` does: the new state (send sequence advanced, client IV
/// moved to the last ciphertext block) and the wire record
/// `rtype 03 00 <len16 be> <ciphertext>`.
pub open spec fn encrypt_spec(s: RecordState, rtype: u8, data: Seq<u8>) -> (RecordState, Seq<u8>) {
    let ct = aes256_cbc_encrypt(s.ckey, s.civ, sealed_plaintext(s, rtype, data));
    (
        RecordState { sseq: (s.sseq + 1) as u64, civ: last_block(ct), ..s },
        seq![rtype, 3u8, 0u8] + be16(ct.len()) + ct,
    )
}

/// The length field of a record header.
pub open spec fn record_len(rec: Seq<u8>) -> nat {
    be16_at(rec, 3)
}

/// The header is complete, has version `03 00`, and its length fits the buffer.
pub open spec fn record_header_ok(rec: Seq<u8>) -> bool {
    &&& rec.len() >= 5
    &&& rec[1] == 3 && rec[2] == 0
    &&& 5 + record_len(rec) <= rec.len()
}

/// A record whose header is accepted carries whole cipher blocks, at least one.
/// (On other records with an accepted header, decryption panics in the block
/// cipher or when taking the last block.)
pub open spec fn decryptable(rec: Seq<u8>) -> bool {
    record_header_ok(rec) ==> (record_len(rec) >= 16 && record_len(rec) % 16 == 0)
}

/// The view of `decrypt`'s result.
pub open spec fn opened_view(r: Result<(u8, Vec<u8>), RecordError>) -> Result<(u8, Seq<u8>), RecordError> {
    match r {
        Ok((t, v)) => Ok((t, v@)),
        Err(e) => Err(e),
    }
}

/// What `decrypt` does. The header is checked first (state unchanged on
/// failure); then the ciphertext is decrypted and the server IV moves to its
/// last block; the padding length is the last plaintext byte plus one, and if
/// the padding and a 20-byte MAC fit, the data before them is returned and the
/// receive sequence advances. The MAC itself is not checked.
pub open spec fn decrypt_spec(s: RecordState, rec: Seq<u8>) -> (RecordState, Result<(u8, Seq<u8>), RecordError>) {
    if rec.len() < 5 {
        (s, Err(RecordError::TooShort))
    } else if !(rec[1] == 3 && rec[2] == 0) {
        (s, Err(RecordError::BadVersion))
    } else if 5 + record_len(rec) > rec.len() {
        (s, Err(RecordError::LengthOverrun))
    } else {
        let ct = rec.subrange(5, 5 + record_len(rec) as int);
        let pt = aes256_cbc_decrypt(s.skey, s.siv, ct);
        let s1 = RecordState { siv: last_block(ct), ..s };
        let padlen = pt.last() as nat + 1;
        if padlen + 20 > pt.len() {
            (s1, Err(RecordError::PadUnderflow))
        } else {
            (
                RecordState { rseq: (s.rseq + 1) as u64, ..s1 },
                Ok((rec[0], pt.subrange(0, pt.len() - padlen - 20))),
            )
        }
    }
}

/// `rec` is a record of type `rtype` whose ciphertext, under `key` and `iv`,
/// decrypts to `data`, a 20-byte MAC, and SSLv3 block padding.
pub open spec fn sealed_for(key: Seq<u8>, iv: Seq<u8>, rec: Seq<u8>, rtype: u8, data: Seq<u8>) -> bool {
    let ct = rec.subrange(5, rec.len() as int);
    let pt = aes256_cbc_decrypt(key, iv, ct);
    let padn = 16 - (data.len() + 20) % 16;
    &&& rec.len() >= 5
    &&& rec[0] == rtype && rec[1] == 3 && rec[2] == 0
    &&& record_len(rec) + 5 == rec.len()
    &&& ct.len() == data.len() + 20 + padn
    &&& pt.len() == ct.len()
    &&& pt.subrange(0, data.len() as int) == data
    &&& pt.last() as int == padn - 1
}

/// A sealed record opens: a record layer whose server key and IV are the key
/// and IV a record was sealed under decrypts it to the type and data it was sealed with,
/// moves its IV to the record's last ciphertext block (the same block the
/// sender's IV moved to), and advances its receive sequence by one.
pub proof fn lemma_sealed_record_opens(s: RecordState, rec: Seq<u8>, rtype: u8, data: Seq<u8>)
    requires
        s.wf(),
        s.rseq < u64::MAX,
        sealed_for(s.skey, s.siv, rec, rtype, data),
    ensures
        decryptable(rec),
        decrypt_spec(s, rec) == (
            RecordState { siv: last_block(rec), rseq: (s.rseq + 1) as u64, ..s },
            Ok::<(u8, Seq<u8>), RecordError>((rtype, data)),
        ),
{
    let ct = rec.subrange(5, rec.len() as int);
    assert(rec.subrange(5, 5 + record_len(rec) as int) =~= ct);
    assert(last_block(ct) =~= last_block(rec));
    let pt = aes256_cbc_decrypt(s.skey, s.siv, ct);
    let padn = 16 - (data.len() + 20) % 16;
    assert(pt.subrange(0, pt.len() - padn - 20) =~= pt.subrange(0, data.len() as int));
}

/// Whether `decrypt` can take `rec` without panicking: a record whose header
/// is accepted must carry whole cipher blocks, at least one.
pub fn is_decryptable(rec: &[u8]) -> (ok: bool)
    ensures
        ok == decryptable(rec@),
{
    if rec.len() < 5 || !(rec[1] == 3 && rec[2] == 0) {
        return true;
    }
    let ln: usize = rec[3] as usize * 256 + rec[4] as usize;
    if 5 + ln > rec.len() {
        return true;
    }
    ln >= 16 && ln % 16 == 0
}

/// An SSLv3 record layer once the AES-256-CBC + SHA-1 cipher is active.
pub struct Record {
    cmac: Vec<u8>,
    smac: Vec<u8>,
    ckey: Vec<u8>,
    skey: Vec<u8>,
    civ: Vec<u8>,
    siv: Vec<u8>,
    sseq: u64,
    rseq: u64,
}

impl View for Record {
    type V = RecordState;

    closed spec fn view(&self) -> RecordState {
        RecordState {
            cmac: self.cmac@,
            smac: self.smac@,
            ckey: self.ckey@,
            skey: self.skey@,
            civ: self.civ@,
            siv: self.siv@,
            sseq: self.sseq,
            rseq: self.rseq,
        }
    }
}

impl Record {
    #[verifier::type_invariant]
    closed spec fn inv(self) -> bool {
        self@.wf()
    }

    /// Split a 136-byte SSLv3 key block into MACs, keys and IVs.
    pub fn new(kb: &[u8]) -> (r: Record)
        requires
            kb@.len() >= 136,
        ensures
            r@ == record_from_key_block(kb@),
            r@.wf(),
    {
        let r = Record {
            cmac: to_vec(&kb[0..20]),
            smac: to_vec(&kb[20..40]),
            ckey: to_vec(&kb[40..72]),
            skey: to_vec(&kb[72..104]),
            civ: to_vec(&kb[104..120]),
            siv: to_vec(&kb[120..136]),
            sseq: 0,
            rseq: 0,
        };
        assert(r@ =~= record_from_key_block(kb@));
        r
    }

    /// The sequence number of the next record sent.
    pub fn send_seq(&self) -> (n: u64)
        ensures
            n == self@.sseq,
    {
        self.sseq
    }

    /// The sequence number of the next record received.
    pub fn recv_seq(&self) -> (n: u64)
        ensures
            n == self@.rseq,
    {
        self.rseq
    }

    /// Length-less SSLv3 MAC (Validity variant): the record length is omitted.
    fn mac(key: &[u8], seq: u64, rtype: u8, data: &[u8]) -> (m: Vec<u8>)
        ensures
            m@ == record_mac(key@, seq, rtype, data@),
            m@.len() == 20,
    {
        let mut hdr: Vec<u8> = Vec::with_capacity(9);
        let seq_bytes = u64_be(seq);
        push_all(&mut hdr, &seq_bytes);
        hdr.push(rtype);
        let mut inner: Vec<u8> = Vec::new();
        push_all(&mut inner, key);
        let ipad = repeat(0x36, 40);
        push_all(&mut inner, &ipad);
        push_all(&mut inner, &hdr);
        push_all(&mut inner, data);
        assert(inner@ =~= key@ + repeat_byte(0x36, 40) + be64(seq) + seq![rtype] + data@);
        let ih = sha1(&inner);
        let mut outer: Vec<u8> = Vec::new();
        push_all(&mut outer, key);
        let opad = repeat(0x5c, 40);
        push_all(&mut outer, &opad);
        push_all(&mut outer, &ih);
        sha1(&outer)
    }

    /// Encrypt one plaintext handshake/appdata record; returns the full wire record.
    pub fn encrypt(&mut self, rtype: u8, data: &[u8]) -> (rec: Vec<u8>)
        requires
            old(self)@.sseq < u64::MAX,
            data@.len() + 64 <= usize::MAX,
        ensures
            (final(self)@, rec@) == encrypt_spec(old(self)@, rtype, data@),
            final(self)@.wf(),
            record_mac(old(self)@.cmac, old(self)@.sseq, rtype, data@).len() == 20,
            rec@.len() == 5 + sealed_plaintext(old(self)@, rtype, data@).len(),
            rec@.len() == 5 + data@.len() + 20 + (16 - (data@.len() + 20) % 16),
            data@.len() + 36 < 65536 ==> sealed_for(old(self)@.ckey, old(self)@.civ, rec@, rtype, data@),
    {
        proof {
            use_type_invariant(&*self);
        }
        let ghost s0 = self@;
        let mac = Self::mac(&self.cmac, self.sseq, rtype, data);
        self.sseq = self.sseq + 1;

        let mut body: Vec<u8> = Vec::with_capacity(data.len() + 20 + 16);
        push_all(&mut body, data);
        push_all(&mut body, &mac);
        let pad: usize = 16 - (body.len() % 16);
        let padding = repeat((pad - 1) as u8, pad);
        push_all(&mut body, &padding);
        assert(body@ =~= sealed_plaintext(s0, rtype, data@));

        let ct = cbc_encrypt(&self.ckey, &self.civ, &body);
        let n: usize = ct.len();
        self.civ = to_vec(&ct[n - 16..n]);

        let mut rec: Vec<u8> = Vec::with_capacity(5 + n);
        rec.push(rtype);
        rec.push(3);
        rec.push(0);
        let len_bytes = u16_be(n);
        push_all(&mut rec, &len_bytes);
        push_all(&mut rec, &ct);
        proof {
            assert(rec@ =~= seq![rtype, 3u8, 0u8] + be16(n as nat) + ct@);
            assert(self@ =~= encrypt_spec(s0, rtype, data@).0);
            if data@.len() + 36 < 65536 {
                let padn = 16 - (data@.len() + 20) % 16;
                assert(rec@.subrange(5, rec@.len() as int) =~= ct@);
                assert(body@.subrange(0, data@.len() as int) =~= data@);
                assert(body@.last() as int == padn - 1);
                assert(record_len(rec@) == n);
            }
        }
        rec
    }

    /// Decrypt one wire record; returns (record_type, plaintext_appdata).
    ///
    /// The MAC of the peer's records is not re-verified here; integrity is
    /// anchored by the mutual Finished exchange.
    pub fn decrypt(&mut self, rec: &[u8]) -> (r: Result<(u8, Vec<u8>), RecordError>)
        requires
            decryptable(rec@),
            old(self)@.rseq < u64::MAX,
        ensures
            (final(self)@, opened_view(r)) == decrypt_spec(old(self)@, rec@),
            final(self)@.wf(),
            record_header_ok(rec@) ==> aes256_cbc_decrypt(old(self)@.skey, old(self)@.siv,
                rec@.subrange(5, 5 + record_len(rec@) as int)).len() == record_len(rec@),
            r matches Ok((_, d)) ==> d@.len() + 21 <= record_len(rec@),
    {
        proof {
            use_type_invariant(&*self);
        }
        if rec.len() < 5 {
            return Err(RecordError::TooShort);
        }
        if !(rec[1] == 3 && rec[2] == 0) {
            return Err(RecordError::BadVersion);
        }
        let ln: usize = rec[3] as usize * 256 + rec[4] as usize;
        if 5 + ln > rec.len() {
            return Err(RecordError::LengthOverrun);
        }
        let ct = &rec[5..5 + ln];
        let ghost s0 = self@;

        let pt = cbc_decrypt(&self.skey, &self.siv, ct);
        self.siv = to_vec(&ct[ln - 16..ln]);

        let padlen: usize = pt[pt.len() - 1] as usize + 1;
        if padlen + 20 > pt.len() {
            proof {
                assert(self@ =~= decrypt_spec(s0, rec@).0);
            }
            return Err(RecordError::PadUnderflow);
        }
        let data = to_vec(&pt[0..pt.len() - padlen - 20]);
        self.rseq = self.rseq + 1;
        proof {
            assert(self@ =~= decrypt_spec(s0, rec@).0);
        }
        Ok((rec[0], data))
    }
}


// ---------------------------------------------------------------------------
// Laws over sequences of record-layer calls
// ---------------------------------------------------------------------------

/// One call on a record layer: `encrypt(rtype, data)` or `decrypt(record)`.
pub ghost enum RecordOp {
    Encrypt(u8, Seq<u8>),
    Decrypt(Seq<u8>),
}

/// The record layer after one call.
pub open spec fn apply_op(s: RecordState, op: RecordOp) -> RecordState {
    match op {
        RecordOp::Encrypt(t, d) => encrypt_spec(s, t, d).0,
        RecordOp::Decrypt(w) => decrypt_spec(s, w).0,
    }
}

/// The record layer after the first `n` calls of `ops`, in order.
pub open spec fn run_ops(s: RecordState, ops: Seq<RecordOp>, n: nat) -> RecordState
    decreases n,
{
    if n == 0 {
        s
    } else {
        apply_op(run_ops(s, ops, (n - 1) as nat), ops[n - 1])
    }
}

/// How many of the first `n` calls of `ops` are encryptions.
pub open spec fn encrypt_count(ops: Seq<RecordOp>, n: nat) -> nat
    decreases n,
{
    if n == 0 {
        0
    } else {
        encrypt_count(ops, (n - 1) as nat) + if ops[n - 1] is Encrypt { 1nat } else { 0nat }
    }
}

/// How many of the first `n` calls of `ops`, run from `s`, are decryptions
/// that returned `Ok`.
pub open spec fn opened_count(s: RecordState, ops: Seq<RecordOp>, n: nat) -> nat
    decreases n,
{
    if n == 0 {
        0
    } else {
        let before = run_ops(s, ops, (n - 1) as nat);
        let opened = match ops[n - 1] {
            RecordOp::Decrypt(w) => decrypt_spec(before, w).1 is Ok,
            RecordOp::Encrypt(_, _) => false,
        };
        opened_count(s, ops, (n - 1) as nat) + if opened { 1nat } else { 0nat }
    }
}

proof fn lemma_run_counts(s: RecordState, ops: Seq<RecordOp>, n: nat)
    requires
        n <= ops.len(),
        s.sseq + n < u64::MAX,
        s.rseq + n < u64::MAX,
    ensures
        run_ops(s, ops, n).sseq == s.sseq + encrypt_count(ops, n),
        run_ops(s, ops, n).rseq == s.rseq + opened_count(s, ops, n),
        encrypt_count(ops, n) <= n,
        opened_count(s, ops, n) <= n,
        run_ops(s, ops, n).cmac == s.cmac,
        run_ops(s, ops, n).smac == s.smac,
        run_ops(s, ops, n).ckey == s.ckey,
        run_ops(s, ops, n).skey == s.skey,
    decreases n,
{
    if n > 0 {
        lemma_run_counts(s, ops, (n - 1) as nat);
    }
}

/// Starting from the record layer that `Record::new(kb)` builds, after any
/// sequence of `encrypt` and `decrypt` calls the send sequence number is the
/// number of encryptions, the receive sequence number is the number of
/// decryptions that returned `Ok`, and the MAC secrets and keys are those of
/// the key block.
pub proof fn lemma_record_counters(kb: Seq<u8>, ops: Seq<RecordOp>)
    requires
        kb.len() >= 136,
        ops.len() < u64::MAX,
    ensures
        run_ops(record_from_key_block(kb), ops, ops.len()).sseq == encrypt_count(ops, ops.len()),
        run_ops(record_from_key_block(kb), ops, ops.len()).rseq
            == opened_count(record_from_key_block(kb), ops, ops.len()),
        run_ops(record_from_key_block(kb), ops, ops.len()).cmac == kb.subrange(0, 20),
        run_ops(record_from_key_block(kb), ops, ops.len()).smac == kb.subrange(20, 40),
        run_ops(record_from_key_block(kb), ops, ops.len()).ckey == kb.subrange(40, 72),
        run_ops(record_from_key_block(kb), ops, ops.len()).skey == kb.subrange(72, 104),
{
    lemma_run_counts(record_from_key_block(kb), ops, ops.len());
}

/// The key block of the other end of a session: client and server halves of
/// each pair (MAC secrets, keys, IVs) swapped.
pub open spec fn swap_directions(kb: Seq<u8>) -> Seq<u8> {
    kb.subrange(20, 40) + kb.subrange(0, 20) + kb.subrange(72, 104) + kb.subrange(40, 72) + kb.subrange(120, 136)
        + kb.subrange(104, 120)
}

/// The calls `encrypt(ts[i], ds[i])`, in order.
pub open spec fn encrypt_ops(ts: Seq<u8>, ds: Seq<Seq<u8>>) -> Seq<RecordOp> {
    Seq::new(ts.len(), |i: int| RecordOp::Encrypt(ts[i], ds[i]))
}

/// The calls `decrypt(ws[i])`, in order.
pub open spec fn decrypt_ops(ws: Seq<Seq<u8>>) -> Seq<RecordOp> {
    Seq::new(ws.len(), |i: int| RecordOp::Decrypt(ws[i]))
}

/// `ws[i]` is the record that the `i`-th of the calls `encrypt(ts[i], ds[i])`,
/// made in order from `s`, returned, with what `encrypt` ensures of it.
pub open spec fn sealed_in_order(s: RecordState, ts: Seq<u8>, ds: Seq<Seq<u8>>, ws: Seq<Seq<u8>>) -> bool {
    &&& ts.len() == ds.len()
    &&& ds.len() == ws.len()
    &&& forall|i: int|
        #![trigger ws[i]]
        0 <= i < ws.len() ==> {
            let si = run_ops(s, encrypt_ops(ts, ds), i as nat);
            &&& ws[i] == encrypt_spec(si, ts[i], ds[i]).1
            &&& sealed_for(si.ckey, si.civ, ws[i], ts[i], ds[i])
        }
}

/// A receiver whose server key and IV are the sender's client key and IV
/// opens the first `n` records the sender sealed in order, each to the type
/// and data it was sealed with; its receive sequence number advances by `n`,
/// and its IV follows the sender's to the last block of the last record.
pub proof fn lemma_open_in_order_upto(
    a0: RecordState,
    b0: RecordState,
    ts: Seq<u8>,
    ds: Seq<Seq<u8>>,
    ws: Seq<Seq<u8>>,
    n: nat,
)
    requires
        n <= ws.len(),
        b0.rseq + ws.len() < u64::MAX,
        sealed_in_order(a0, ts, ds, ws),
        b0.wf(),
        b0.skey == a0.ckey,
        b0.siv == a0.civ,
    ensures
        run_ops(b0, decrypt_ops(ws), n).wf(),
        run_ops(b0, decrypt_ops(ws), n).rseq == b0.rseq + n,
        n > 0 ==> run_ops(b0, decrypt_ops(ws), n).siv == last_block(ws[n - 1]),
        run_ops(b0, decrypt_ops(ws), n).cmac == b0.cmac,
        run_ops(b0, decrypt_ops(ws), n).smac == b0.smac,
        run_ops(b0, decrypt_ops(ws), n).ckey == b0.ckey,
        run_ops(b0, decrypt_ops(ws), n).civ == b0.civ,
        run_ops(b0, decrypt_ops(ws), n).sseq == b0.sseq,
        run_ops(b0, decrypt_ops(ws), n).skey == a0.ckey,
        run_ops(a0, encrypt_ops(ts, ds), n).ckey == a0.ckey,
        run_ops(b0, decrypt_ops(ws), n).siv == run_ops(a0, encrypt_ops(ts, ds), n).civ,
        forall|i: int|
            0 <= i < n ==> #[trigger] decrypt_spec(run_ops(b0, decrypt_ops(ws), i as nat), ws[i]).1 == Ok::<
                (u8, Seq<u8>),
                RecordError,
            >((ts[i], ds[i])),
    decreases n,
{
    if n > 0 {
        let k = (n - 1) as nat;
        lemma_open_in_order_upto(a0, b0, ts, ds, ws, k);
        let a = run_ops(a0, encrypt_ops(ts, ds), k);
        let b = run_ops(b0, decrypt_ops(ws), k);
        let w = ws[k as int];
        assert(w == encrypt_spec(a, ts[k as int], ds[k as int]).1);
        assert(sealed_for(a.ckey, a.civ, w, ts[k as int], ds[k as int]));
        lemma_sealed_record_opens(b, w, ts[k as int], ds[k as int]);
        assert(decrypt_ops(ws)[k as int] == RecordOp::Decrypt(w));
        assert(encrypt_ops(ts, ds)[k as int] == RecordOp::Encrypt(ts[k as int], ds[k as int]));
        let ct = aes256_cbc_encrypt(a.ckey, a.civ, sealed_plaintext(a, ts[k as int], ds[k as int]));
        let hdr = seq![ts[k as int], 3u8, 0u8] + be16(ct.len());
        assert(w == hdr + ct);
        assert(hdr.len() == 5);
        assert(w.subrange(5, w.len() as int) =~= ct);
        assert(last_block(w) =~= last_block(ct));
    }
}

/// What one end seals, the other end opens, call after call: with the key
/// block `kb` on the sending side and the same block with its directions
/// swapped on the receiving side, decrypting the records of a sequence of
/// `encrypt` calls in the order they were made gives back each type and
/// data; the receiver's CBC IV then follows the sender's and its receive
/// sequence number counts the records.
pub proof fn lemma_records_open_in_order(kb: Seq<u8>, ts: Seq<u8>, ds: Seq<Seq<u8>>, ws: Seq<Seq<u8>>)
    requires
        kb.len() >= 136,
        ws.len() < u64::MAX,
        sealed_in_order(record_from_key_block(kb), ts, ds, ws),
    ensures
        forall|i: int|
            0 <= i < ws.len() ==> #[trigger] decrypt_spec(
                run_ops(record_from_key_block(swap_directions(kb)), decrypt_ops(ws), i as nat),
                ws[i],
            ).1 == Ok::<(u8, Seq<u8>), RecordError>((ts[i], ds[i])),
        run_ops(record_from_key_block(swap_directions(kb)), decrypt_ops(ws), ws.len()).rseq == ws.len(),
        run_ops(record_from_key_block(swap_directions(kb)), decrypt_ops(ws), ws.len()).siv
            == run_ops(record_from_key_block(kb), encrypt_ops(ts, ds), ws.len()).civ,
{
    let a0 = record_from_key_block(kb);
    let kb2 = swap_directions(kb);
    let b0 = record_from_key_block(kb2);
    assert(kb2.len() == 136);
    assert(kb2.subrange(0, 20) =~= kb.subrange(20, 40));
    assert(kb2.subrange(20, 40) =~= kb.subrange(0, 20));
    assert(kb2.subrange(40, 72) =~= kb.subrange(72, 104));
    assert(kb2.subrange(72, 104) =~= kb.subrange(40, 72));
    assert(kb2.subrange(104, 120) =~= kb.subrange(120, 136));
    assert(kb2.subrange(120, 136) =~= kb.subrange(104, 120));
    lemma_open_in_order_upto(a0, b0, ts, ds, ws, ws.len());
}

/// Bytes after the length that a record's header declares are not read:
/// decrypting the record gives what decrypting its declared extent gives.
pub proof fn lemma_decrypt_ignores_trailing(s: RecordState, rec: Seq<u8>)
    requires
        rec.len() >= 5,
        5 + record_len(rec) <= rec.len(),
    ensures
        decrypt_spec(s, rec) == decrypt_spec(s, rec.subrange(0, 5 + record_len(rec) as int)),
        decryptable(rec) == decryptable(rec.subrange(0, 5 + record_len(rec) as int)),
{
    let cut = rec.subrange(0, 5 + record_len(rec) as int);
    assert(record_len(cut) == record_len(rec));
    assert(cut.subrange(5, 5 + record_len(cut) as int) =~= rec.subrange(5, 5 + record_len(rec) as int));
}

/// The peer's MAC secret plays no part in decryption: two record layers that
/// differ only in it open every record alike and still differ only in it.
pub proof fn lemma_decrypt_ignores_peer_mac(s: RecordState, rec: Seq<u8>, other_smac: Seq<u8>)
    ensures
        decrypt_spec(RecordState { smac: other_smac, ..s }, rec).1 == decrypt_spec(s, rec).1,
        decrypt_spec(RecordState { smac: other_smac, ..s }, rec).0 == (RecordState {
            smac: other_smac,
            ..decrypt_spec(s, rec).0
        }),
{
}

} // verus!
