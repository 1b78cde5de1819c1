# vfs495

A verified core for an open userspace driver of the Validity VFS495 swipe
fingerprint sensor (USB `138a:003f`).

* `src/` is the library, checked by Verus: the Validity SSLv3 crypto (KDF,
  Finished, RSA with a little-endian modulus, the AES-256-CBC + SHA-1 record
  layer), every message and decision of the open handshake, in-session reply
  handling, EP2 frame extraction, the PGM format and the `virtual_image`
  message. `src/primitives.rs` holds the calls into the digest, cipher,
  big-number, random and hex crates; their contracts are trusted.
* `app/` is the command-line driver: USB transport (`rusb`), files, sockets,
  the float image filter, and the loops that move bytes between the sensor
  and the library.
* `tests/` exercises the library on concrete values.
