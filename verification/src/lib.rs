//! Open-source userspace driver for the Validity **VFS495** swipe fingerprint
//! sensor (USB `138a:003f`), as found in the HP EliteBook 820 G3: the verified
//! protocol and image core.
//!
//! Pipeline: [`usb`] framing, [`session`] (open SSLv3 handshake, no pairing on
//! an unowned sensor), [`capture`] (in-session command replies), [`image`]
//! (EP2 frame decode and PGM), [`virtimage`] (messages for libfprint's
//! `virtual_image`). The [`crypto`] module holds the Validity SSLv3 KDF,
//! Finished, RSA and record layer; [`check_skey_dump`] checks it offline
//! against a recorded key dump.

use vstd::prelude::*;
use crate::crypto::{ssl3_prf, ssl3_prf_output};
use crate::primitives::{hex_decode, hex_decoded, hex_encode, hex_lower};

pub mod bytes;
pub mod primitives;
pub mod crypto;
pub mod session;
pub mod capture;
pub mod usb;
pub mod virtimage;
pub mod image;

verus! {

/// A recorded key dump: premaster, both randoms, and the master secret and
/// key block the sensor vendor's stack derived from them, all in hex.
pub struct SKeyDump {
    pub premaster: String,
    pub client_random: String,
    pub server_random: String,
    pub master: String,
    pub keyblock: String,
}

/// The outcome of the offline crypto self-test.
pub struct SelftestReport {
    /// The master secret derived here.
    pub master: Vec<u8>,
    /// The key block derived here.
    pub keyblock: Vec<u8>,
    /// The derived master secret, in lower-case hex, equals the recorded one.
    pub master_ok: bool,
    /// The derived key block, in lower-case hex, equals the recorded one.
    pub keyblock_ok: bool,
}

/// Which input of the key dump is not valid hex.
pub enum SelftestError {
    Premaster(hex::FromHexError),
    ClientRandom(hex::FromHexError),
    ServerRandom(hex::FromHexError),
}

/// Offline crypto self-test: derive the master secret and key block from the
/// recorded premaster and randoms, and compare them byte-exact (as lower-case
/// hex) with the recorded values. The test passes when both match.
pub fn check_skey_dump(d: &SKeyDump) -> (r: Result<SelftestReport, SelftestError>)
    ensures
        r is Ok <==> (hex_decoded(d.premaster@) is Some && hex_decoded(d.client_random@) is Some && hex_decoded(
            d.server_random@,
        ) is Some),
        r matches Err(e) ==> match e {
            SelftestError::Premaster(_) => hex_decoded(d.premaster@) is None,
            SelftestError::ClientRandom(_) => hex_decoded(d.premaster@) is Some && hex_decoded(d.client_random@) is None,
            SelftestError::ServerRandom(_) => hex_decoded(d.premaster@) is Some && hex_decoded(d.client_random@) is Some
                && hex_decoded(d.server_random@) is None,
        },
        r matches Ok(rep) ==> {
            let pre = hex_decoded(d.premaster@).unwrap();
            let c_rand = hex_decoded(d.client_random@).unwrap();
            let s_rand = hex_decoded(d.server_random@).unwrap();
            &&& rep.master@ == ssl3_prf_output(pre, c_rand, s_rand, 48)
            &&& rep.keyblock@ == ssl3_prf_output(rep.master@, s_rand, c_rand, 136)
            &&& rep.master_ok == (hex_lower(rep.master@) == d.master@)
            &&& rep.keyblock_ok == (hex_lower(rep.keyblock@) == d.keyblock@)
        },
{
    let pre = match hex_decode(d.premaster.as_str()) {
        Ok(v) => v,
        Err(e) => return Err(SelftestError::Premaster(e)),
    };
    let c_rand = match hex_decode(d.client_random.as_str()) {
        Ok(v) => v,
        Err(e) => return Err(SelftestError::ClientRandom(e)),
    };
    let s_rand = match hex_decode(d.server_random.as_str()) {
        Ok(v) => v,
        Err(e) => return Err(SelftestError::ServerRandom(e)),
    };

    let master = ssl3_prf(&pre, &c_rand, &s_rand, 48);
    let keyblock = ssl3_prf(&master, &s_rand, &c_rand, 136);

    let master_hex = hex_encode(&master);
    let keyblock_hex = hex_encode(&keyblock);
    let master_ok = master_hex == d.master;
    let keyblock_ok = keyblock_hex == d.keyblock;
    Ok(SelftestReport { master, keyblock, master_ok, keyblock_ok })
}

} // verus!
