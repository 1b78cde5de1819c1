//! USB framing for the VFS495.
//!
//! Interface 0, vendor-specific. Endpoints (confirmed by descriptor dump):
//!   * EP1 OUT  (0x01) bulk 64  - command channel
//!   * EP1 IN   (0x81) bulk 64  - command replies
//!   * EP2 IN   (0x82) bulk 64  - plaintext image stream
//!
//! In-session replies are `<type> 03 00 <len16-be> <ciphertext>` records that
//! can span several 64-byte bulk packets; this module decides when the bytes
//! gathered so far hold a whole record.

use vstd::prelude::*;
use crate::bytes::{be16_at, to_vec};

verus! {

pub const VID: u16 = 0x138a;
pub const PID: u16 = 0x003f;
pub const EP_OUT: u8 = 0x01;
pub const EP_IN: u8 = 0x81;
pub const EP_IMG: u8 = 0x82;

/// Bytes needed before a record gathered in `acc` is whole: the 5-byte header
/// first, then the header plus the length it announces.
pub open spec fn record_need(acc: Seq<u8>) -> nat {
    if acc.len() < 5 {
        5
    } else {
        5 + be16_at(acc, 3)
    }
}

/// A record is gathered up to the length its header announces: once the
/// five header bytes are in, the bytes needed are the header plus the
/// 16-bit big-endian length in its fourth and fifth bytes.
pub proof fn lemma_record_need_reads_header(acc: Seq<u8>)
    ensures
        acc.len() < 5 ==> record_need(acc) == 5,
        acc.len() >= 5 ==> record_need(acc) == 5 + acc[3] * 256 + acc[4],
{
}

/// A whole record of `n` body bytes, whatever follows it, needs exactly its
/// own `5 + n` bytes: the gathered bytes are cut at the record's end.
pub proof fn lemma_record_need_of_record(t: u8, body: Seq<u8>, rest: Seq<u8>)
    requires
        body.len() < 65536,
    ensures
        record_need(seq![t, 3u8, 0u8, (body.len() / 256) as u8, (body.len() % 256) as u8] + body + rest) == 5 + body.len(),
{
    let acc = seq![t, 3u8, 0u8, (body.len() / 256) as u8, (body.len() % 256) as u8] + body + rest;
    assert(acc[3] == (body.len() / 256) as u8);
    assert(acc[4] == (body.len() % 256) as u8);
}

/// How many bytes the record being gathered in `acc` needs in all.
pub fn record_bytes_needed(acc: &[u8]) -> (need: usize)
    ensures
        need == record_need(acc@),
        acc@.len() < 5 ==> need == 5,
        acc@.len() >= 5 ==> need == 5 + acc@[3] * 256 + acc@[4],
{
    if acc.len() < 5 {
        5
    } else {
        5 + (acc[3] as usize * 256 + acc[4] as usize)
    }
}

/// The first whole record in `acc`, once enough bytes have arrived.
pub fn complete_record(acc: &[u8]) -> (r: Option<Vec<u8>>)
    ensures
        r is Some <==> acc@.len() >= record_need(acc@),
        r matches Some(rec) ==> rec@ == acc@.subrange(0, record_need(acc@) as int),
        acc@.len() >= 5 ==> (r is Some <==> acc@.len() >= 5 + acc@[3] * 256 + acc@[4]),
        r matches Some(rec) ==> acc@.len() >= 5 && rec@.len() == 5 + acc@[3] * 256 + acc@[4] && rec@
            =~= acc@.subrange(0, rec@.len() as int),
{
    let need = record_bytes_needed(acc);
    if acc.len() >= need {
        Some(to_vec(&acc[0..need]))
    } else {
        None
    }
}

} // verus!
