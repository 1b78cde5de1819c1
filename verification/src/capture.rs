//! In-session capture decisions.
//!
//! Once the handshake completes, the sensor speaks plain SSLv3 AppData records
//! (`17 03 00 <len> <ct>`) directly on EP1 (no tunnel) and streams the
//! plaintext image on EP2. Every in-session command is an AppData record; each
//! reply plaintext starts with a little-endian status word. This module holds
//! how replies are read and judged, how one command exchange proceeds (write
//! retries, re-acquiring a re-enumerated device, reply reads), when draining
//! EP2 stops, and how a capture run keeps track of the first command the
//! sensor rejects.

use vstd::prelude::*;
use crate::bytes::{le16_at, push_all};
use crate::primitives::{hex_decoded, trim_end_spec, trim_start_spec};
use crate::session::decode_hex_text;
use vstd::string::StringSliceAdditionalSpecFns;

verus! {

/// Record type of in-session commands and replies.
pub const APPDATA: u8 = 0x17;

/// The status word and payload length of a decrypted in-session reply:
/// `[0..2]` is a little-endian status, the rest is payload. A reply shorter
/// than the status word reads as status `0xffff` with no payload.
pub open spec fn reply_spec(plain: Seq<u8>) -> (u16, nat) {
    if plain.len() < 2 {
        (0xffff, 0)
    } else {
        (le16_at(plain, 0) as u16, (plain.len() - 2) as nat)
    }
}

/// A reply's status word is its first two bytes read little-endian, and the
/// payload is everything after them; a reply shorter than the status word
/// reads as status `0xffff` with no payload.
pub proof fn lemma_reply_fields(plain: Seq<u8>)
    ensures
        plain.len() < 2 ==> reply_spec(plain) == (0xffffu16, 0nat),
        plain.len() >= 2 ==> reply_spec(plain).0 == plain[0] + 256 * plain[1] && reply_spec(plain).1 == plain.len()
            - 2,
{
}

/// Decode the sensor status word from a decrypted in-session reply.
///
/// A bare ack is exactly 2 bytes (`00 00` = status 0x0000 = OK); a data reply
/// carries a payload after the status word. Returns `(status, payload_len)`.
pub fn parse_reply(plain: &[u8]) -> (r: (u16, usize))
    ensures
        (r.0, r.1 as nat) == reply_spec(plain@),
        plain@.len() < 2 ==> r == (0xffffu16, 0usize),
        plain@.len() >= 2 ==> r.0 == plain@[0] + 256 * plain@[1] && r.1 == plain@.len() - 2,
{
    if plain.len() < 2 {
        return (0xffff, 0);
    }
    let status: u16 = plain[0] as u16 + plain[1] as u16 * 256;
    (status, plain.len() - 2)
}

/// `0x0000`/`0x0412` mean OK; otherwise any value with bit `0x0400` set is an error.
pub open spec fn status_ok_spec(status: u16) -> bool {
    status == 0x0000 || status == 0x0412 || (status & 0x0400) == 0
}

/// Whether a reply status means success.
pub fn status_is_ok(status: u16) -> (ok: bool)
    ensures
        ok == status_ok_spec(status),
        ok <==> (status == 0 || status == 0x0412 || (status / 1024) % 2 == 0),
{
    proof {
        lemma_status_ok_bit(status);
    }
    status == 0x0000 || status == 0x0412 || (status & 0x0400) == 0
}

/// A reply status means success exactly when it is `0x0000`, `0x0412`, or
/// has bit 10 (`0x0400`) clear.
pub proof fn lemma_status_ok_bit(status: u16)
    ensures
        status_ok_spec(status) <==> (status == 0 || status == 0x0412 || (status / 1024) % 2 == 0),
{
    assert(((status & 0x0400) == 0) == ((status / 1024) % 2 == 0)) by (bit_vector);
}

/// The payload part of a reply: everything after the status word.
pub open spec fn reply_payload(plain: Seq<u8>) -> Seq<u8> {
    if plain.len() > 2 {
        plain.subrange(2, plain.len() as int)
    } else {
        Seq::empty()
    }
}

/// Fold one decrypted reply into the joined reply payload of a command: its
/// payload (status word stripped) is appended; its status is returned.
pub fn absorb_reply(payload: &mut Vec<u8>, plain_reply: &[u8]) -> (status: u16)
    ensures
        status == reply_spec(plain_reply@).0,
        final(payload)@ == old(payload)@ + reply_payload(plain_reply@),
{
    let (status, _plen) = parse_reply(plain_reply);
    if plain_reply.len() > 2 {
        push_all(payload, &plain_reply[2..plain_reply.len()]);
    } else {
        assert(old(payload)@ + reply_payload(plain_reply@) =~= old(payload)@);
    }
    status
}

/// Counts consecutive empty reads while draining the EP2 image stream.
pub struct QuietCounter {
    pub empties: usize,
}

impl QuietCounter {
    /// No empty read seen yet.
    pub fn new() -> (q: QuietCounter)
        ensures
            q.empties == 0,
    {
        QuietCounter { empties: 0 }
    }

    /// Note a chunk of `chunk_len` bytes; returns whether draining goes on.
    /// A non-empty chunk resets the count; draining stops once `quiet_reads`
    /// empty reads have come in a row.
    pub fn note_chunk(&mut self, chunk_len: usize, quiet_reads: usize) -> (more: bool)
        requires
            old(self).empties < usize::MAX,
        ensures
            chunk_len == 0 ==> final(self).empties == old(self).empties + 1 && more == (final(self).empties < quiet_reads),
            chunk_len != 0 ==> final(self).empties == 0 && more,
    {
        if chunk_len == 0 {
            self.empties = self.empties + 1;
            self.empties < quiet_reads
        } else {
            self.empties = 0;
            true
        }
    }
}

/// Decode the in-session command sequence (plaintext commands in hex,
/// surrounding white space ignored); the first bad entry is the error.
pub fn decode_sequence(hexes: &Vec<String>) -> (r: Result<Vec<Vec<u8>>, hex::FromHexError>)
    ensures
        r is Ok <==> forall|i: int|
            0 <= i < hexes@.len() ==> (#[trigger] hex_decoded(trim_end_spec(trim_start_spec(hexes@[i]@)))) is Some,
        r matches Ok(seq) ==> seq@.len() == hexes@.len() && forall|i: int|
            0 <= i < hexes@.len() ==> Some(#[trigger] seq@[i]@) == hex_decoded(trim_end_spec(trim_start_spec(hexes@[i]@))),
{
    let mut out: Vec<Vec<u8>> = Vec::new();
    let mut i: usize = 0;
    while i < hexes.len()
        invariant
            i <= hexes@.len(),
            out@.len() == i,
            forall|j: int| 0 <= j < i ==> (#[trigger] hex_decoded(trim_end_spec(trim_start_spec(hexes@[j]@)))) is Some,
            forall|j: int| 0 <= j < i ==> Some(#[trigger] out@[j]@) == hex_decoded(trim_end_spec(trim_start_spec(hexes@[j]@))),
        decreases hexes@.len() - i,
    {
        match decode_hex_text(hexes[i].as_str()) {
            Ok(v) => out.push(v),
            Err(e) => return Err(e),
        }
        i = i + 1;
    }
    Ok(out)
}

// ---------------------------------------------------------------------------
// Sending one in-session command
// ---------------------------------------------------------------------------

/// Times a command write is tried before giving up.
pub const WRITE_ATTEMPTS: u32 = 6;
/// Reply records read at most per command.
pub const READ_ATTEMPTS: u32 = 4;
/// How long to wait for the first reply record (the sensor may be imaging).
pub const FIRST_REPLY_TIMEOUT_MS: u64 = 3000;
/// How long to wait for each further reply record.
pub const NEXT_REPLY_TIMEOUT_MS: u64 = 200;
/// Pause after a failed write that was not a disappearing device.
pub const RETRY_PAUSE_MS: u64 = 50;

/// The next thing to do for a command exchange.
#[derive(Debug, Clone, Copy, PartialEq, Eq)]
pub enum ExchangeStep {
    /// Write the encrypted command record.
    Write,
    /// The sensor re-enumerated: re-acquire the USB handle (the session is kept).
    Reopen,
    /// Wait this many milliseconds before retrying.
    Pause(u64),
    /// Read one reply record, waiting at most this many milliseconds.
    Read(u64),
    /// The exchange is over.
    Done,
}

/// The state of one command exchange: how many writes were tried, whether
/// one went through, how many reply records were read, and the next step.
pub ghost struct ExchangeState {
    pub step: ExchangeStep,
    pub writes: nat,
    pub wrote: bool,
    pub reads: nat,
}

/// Drives the exchange of one in-session command: the write is retried up
/// to [`WRITE_ATTEMPTS`] times (re-acquiring the handle when the device went
/// away, pausing otherwise); once written, up to [`READ_ATTEMPTS`] reply
/// records are read, the first with a long timeout, until a read fails.
pub struct Exchange {
    step: ExchangeStep,
    writes: u32,
    wrote: bool,
    reads: u32,
}

impl View for Exchange {
    type V = ExchangeState;

    closed spec fn view(&self) -> ExchangeState {
        ExchangeState { step: self.step, writes: self.writes as nat, wrote: self.wrote, reads: self.reads as nat }
    }
}

impl Exchange {
    #[verifier::type_invariant]
    closed spec fn inv(self) -> bool {
        &&& self.writes <= WRITE_ATTEMPTS
        &&& self.reads <= READ_ATTEMPTS
        &&& self.step == ExchangeStep::Write ==> self.writes < WRITE_ATTEMPTS && !self.wrote
        &&& (self.step == ExchangeStep::Reopen || self.step matches ExchangeStep::Pause(_)) ==> !self.wrote
        &&& self.step matches ExchangeStep::Read(_) ==> self.reads < READ_ATTEMPTS && self.wrote
    }

    /// A fresh exchange: the first step is the write.
    pub fn new() -> (ex: Exchange)
        ensures
            ex@ == (ExchangeState { step: ExchangeStep::Write, writes: 0, wrote: false, reads: 0 }),
    {
        Exchange { step: ExchangeStep::Write, writes: 0, wrote: false, reads: 0 }
    }

    /// The next step.
    pub fn step(&self) -> (s: ExchangeStep)
        ensures
            s == self@.step,
    {
        self.step
    }

    /// Whether the command was written.
    pub fn wrote(&self) -> (w: bool)
        ensures
            w == self@.wrote,
    {
        self.wrote
    }

    /// The write went through: read the first reply with the long timeout.
    pub fn write_done(&mut self)
        requires
            old(self)@.step == ExchangeStep::Write,
        ensures
            final(self)@ == (ExchangeState {
                step: ExchangeStep::Read(FIRST_REPLY_TIMEOUT_MS),
                writes: old(self)@.writes + 1,
                wrote: true,
                reads: 0,
            }),
    {
        proof {
            use_type_invariant(&*self);
        }
        *self = Exchange { step: ExchangeStep::Read(FIRST_REPLY_TIMEOUT_MS), writes: self.writes + 1, wrote: true, reads: 0 };
    }

    /// The write failed: re-acquire the handle if the device went away,
    /// otherwise pause before the next try.
    pub fn write_failed(&mut self, device_gone: bool)
        requires
            old(self)@.step == ExchangeStep::Write,
        ensures
            final(self)@ == (ExchangeState {
                step: if device_gone { ExchangeStep::Reopen } else { ExchangeStep::Pause(RETRY_PAUSE_MS) },
                writes: old(self)@.writes + 1,
                ..old(self)@
            }),
    {
        proof {
            use_type_invariant(&*self);
        }
        let step = if device_gone { ExchangeStep::Reopen } else { ExchangeStep::Pause(RETRY_PAUSE_MS) };
        *self = Exchange { step, writes: self.writes + 1, wrote: self.wrote, reads: self.reads };
    }

    /// The reopen or pause is over: try the write again, unless all
    /// attempts are used up.
    pub fn resumed(&mut self)
        requires
            old(self)@.step == ExchangeStep::Reopen || old(self)@.step matches ExchangeStep::Pause(_),
        ensures
            final(self)@ == (ExchangeState {
                step: if old(self)@.writes < WRITE_ATTEMPTS { ExchangeStep::Write } else { ExchangeStep::Done },
                ..old(self)@
            }),
    {
        proof {
            use_type_invariant(&*self);
        }
        let step = if self.writes < WRITE_ATTEMPTS { ExchangeStep::Write } else { ExchangeStep::Done };
        *self = Exchange { step, writes: self.writes, wrote: self.wrote, reads: self.reads };
    }

    /// A reply record came in: read the next one with the short timeout,
    /// unless all reads are used up.
    pub fn record_read(&mut self)
        requires
            old(self)@.step matches ExchangeStep::Read(_),
        ensures
            final(self)@ == (ExchangeState {
                step: if old(self)@.reads + 1 < READ_ATTEMPTS {
                    ExchangeStep::Read(NEXT_REPLY_TIMEOUT_MS)
                } else {
                    ExchangeStep::Done
                },
                reads: old(self)@.reads + 1,
                ..old(self)@
            }),
    {
        proof {
            use_type_invariant(&*self);
        }
        let reads: u32 = self.reads + 1;
        let step = if reads < READ_ATTEMPTS { ExchangeStep::Read(NEXT_REPLY_TIMEOUT_MS) } else { ExchangeStep::Done };
        *self = Exchange { step, writes: self.writes, wrote: self.wrote, reads };
    }

    /// No further reply record: the exchange is over.
    pub fn read_failed(&mut self)
        requires
            old(self)@.step matches ExchangeStep::Read(_),
        ensures
            final(self)@ == (ExchangeState { step: ExchangeStep::Done, ..old(self)@ }),
    {
        proof {
            use_type_invariant(&*self);
        }
        self.step = ExchangeStep::Done;
    }
}

/// `needle` occurs somewhere in `hay`.
pub open spec fn occurs_in(hay: Seq<u8>, needle: Seq<u8>) -> bool {
    exists|i: int| 0 <= i && i + needle.len() <= hay.len() && #[trigger] hay.subrange(i, i + needle.len()) == needle
}

fn find_bytes(hay: &[u8], needle: &[u8]) -> (found: bool)
    ensures
        found == occurs_in(hay@, needle@),
{
    if needle.len() > hay.len() {
        return false;
    }
    let hl: usize = hay.len();
    let mut i: usize = 0;
    while i <= hay.len() - needle.len()
        invariant
            hl == hay@.len(),
            needle@.len() <= hay@.len(),
            i <= hay@.len() - needle@.len() + 1,
            forall|k: int| 0 <= k < i ==> #[trigger] hay@.subrange(k, k + needle@.len()) != needle@,
        decreases hay@.len() - needle@.len() + 1 - i,
    {
        let mut j: usize = 0;
        while j < needle.len() && hay[i + j] == needle[j]
            invariant
                hl == hay@.len(),
                needle@.len() <= hay@.len(),
                i + needle@.len() <= hay@.len(),
                j <= needle@.len(),
                forall|t: int| 0 <= t < j ==> hay@[i + t] == needle@[t],
            decreases needle@.len() - j,
        {
            j = j + 1;
        }
        if j == needle.len() {
            assert(hay@.subrange(i as int, i + needle@.len()) =~= needle@);
            return true;
        }
        assert(hay@.subrange(i as int, i + needle@.len())[j as int] != needle@[j as int]);
        i = i + 1;
    }
    proof {
        assert forall|k: int| 0 <= k && k + needle@.len() <= hay@.len() implies #[trigger] hay@.subrange(
            k,
            k + needle@.len(),
        ) != needle@ by {
            assert(k < i);
        }
    }
    false
}

/// The text of a USB error that says the device is gone ("No such device").
pub const NO_SUCH_DEVICE: [u8; 14] = [0x4e, 0x6f, 0x20, 0x73, 0x75, 0x63, 0x68, 0x20, 0x64, 0x65, 0x76, 0x69, 0x63, 0x65];

/// The name of the USB error for a vanished device ("NoDevice").
pub const NO_DEVICE: [u8; 8] = [0x4e, 0x6f, 0x44, 0x65, 0x76, 0x69, 0x63, 0x65];

/// A write error (by its message's UTF-8 bytes) that means the sensor
/// re-enumerated on the bus.
pub open spec fn device_gone_text(msg: Seq<u8>) -> bool {
    occurs_in(msg, NO_SUCH_DEVICE@) || occurs_in(msg, NO_DEVICE@)
}

/// Whether a write error message says the sensor re-enumerated on the bus.
pub fn device_gone(msg: &str) -> (gone: bool)
    ensures
        gone == device_gone_text(msg.spec_bytes()),
{
    let b = msg.as_bytes();
    find_bytes(b, &NO_SUCH_DEVICE) || find_bytes(b, &NO_DEVICE)
}

/// Whether reading the EP2 image stream is over: it has been quiet for
/// longer than `quiet_ms` since the last data (once some data has come), or
/// it has run for longer than `max_ms`. Times are in nanoseconds.
pub fn ep2_stream_finished(got_chunk: bool, collected: usize, quiet_for_ns: u128, running_for_ns: u128, quiet_ms: u64, max_ms: u64) -> (done: bool)
    ensures
        done == ((!got_chunk && collected > 0 && quiet_for_ns > quiet_ms as int * 1_000_000) || running_for_ns
            > max_ms as int * 1_000_000),
{
    let quiet_limit: u128 = quiet_ms as u128 * 1_000_000;
    let max_limit: u128 = max_ms as u128 * 1_000_000;
    (!got_chunk && collected > 0 && quiet_for_ns > quiet_limit) || running_for_ns > max_limit
}

/// The first rejected command of a capture run: its index in the sequence,
/// its command byte, and the status the sensor answered.
#[derive(Debug, Clone, Copy, PartialEq, Eq)]
pub struct Reject {
    pub index: usize,
    pub op: u8,
    pub status: u16,
}

/// What a capture run has learnt so far.
pub struct CaptureLog {
    pub first_reject: Option<Reject>,
}

impl CaptureLog {
    /// A run with no reply judged yet.
    pub fn new() -> (log: CaptureLog)
        ensures
            log.first_reject is None,
    {
        CaptureLog { first_reject: None }
    }

    /// Judge the decrypted reply to command `index` (command byte `op`):
    /// returns whether its status is OK, and records it if it is the run's
    /// first reject.
    pub fn note_reply(&mut self, index: usize, op: u8, plain_reply: &[u8]) -> (ok: bool)
        ensures
            ok == status_ok_spec(reply_spec(plain_reply@).0),
            final(self).first_reject == (if !ok && old(self).first_reject is None {
                Some(Reject { index, op, status: reply_spec(plain_reply@).0 })
            } else {
                old(self).first_reject
            }),
    {
        let (status, _plen) = parse_reply(plain_reply);
        let ok = status_is_ok(status);
        if !ok && self.first_reject.is_none() {
            self.first_reject = Some(Reject { index, op, status });
        }
        ok
    }

    /// The run stops at its first reject: the status there is the datum wanted.
    pub fn should_stop(&self) -> (stop: bool)
        ensures
            stop == (self.first_reject is Some),
    {
        self.first_reject.is_some()
    }
}


/// Why the poll probe cannot start.
#[derive(Debug, Clone, Copy, PartialEq, Eq)]
pub enum PollError {
    /// The poll index names no command of the sequence.
    IndexOutOfRange,
}

/// The poll probe's plan over a sequence of `n` commands: how many leading
/// commands are replayed first (`prefix`, or all of them when there are
/// fewer) and which command is polled. Refused when `poll_idx` names no
/// command.
pub fn poll_plan(n: usize, prefix: usize, poll_idx: usize) -> (r: Result<(usize, usize), PollError>)
    ensures
        r is Ok <==> poll_idx < n,
        r is Err ==> r == Err::<(usize, usize), PollError>(PollError::IndexOutOfRange),
        r matches Ok((k, p)) ==> k == (if prefix < n { prefix } else { n }) && p == poll_idx,
{
    if poll_idx >= n {
        return Err(PollError::IndexOutOfRange);
    }
    let k: usize = if prefix < n { prefix } else { n };
    Ok((k, poll_idx))
}

/// Whether a poll reply's payload differs from the one before it (never for
/// the first reply).
pub fn poll_payload_changed(prev: Option<&[u8]>, cur: &[u8]) -> (changed: bool)
    ensures
        changed == (match prev {
            Some(p) => p@ != cur@,
            None => false,
        }),
{
    match prev {
        None => false,
        Some(p) => {
            if p.len() != cur.len() {
                return true;
            }
            let mut i: usize = 0;
            while i < p.len()
                invariant
                    prev == Some(p),
                    p@.len() == cur@.len(),
                    i <= p@.len(),
                    forall|j: int| 0 <= j < i ==> p@[j] == cur@[j],
                decreases p@.len() - i,
            {
                if p[i] != cur[i] {
                    assert(p@[i as int] != cur@[i as int]);
                    return true;
                }
                i = i + 1;
            }
            assert(p@ =~= cur@);
            false
        }
    }
}

} // verus!
