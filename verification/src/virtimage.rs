//! libfprint `virtual_image` message framing.
//!
//! libfprint's `virtual_image` driver listens on the UNIX socket named by
//! `$FP_VIRTUAL_IMAGE`; a client connects and sends one image per scan as
//! `<i32 width LE><i32 height LE><width*height grayscale bytes>`.

use vstd::prelude::*;
use crate::bytes::{le32, push_all};

verus! {

/// The pixel buffer does not hold `width * height` bytes.
#[derive(Debug, Clone, Copy, PartialEq, Eq)]
pub struct SizeMismatch {
    pub pixels: usize,
    pub width: u32,
    pub height: u32,
}

/// The message for one image: width and height as little-endian 32-bit
/// integers, then the pixels.
pub open spec fn image_message_spec(pixels: Seq<u8>, width: u32, height: u32) -> Seq<u8> {
    le32(width as nat) + le32(height as nat) + pixels
}

/// The four bytes of `le32(x)` are the base-256 digits of `x`, least
/// significant first.
pub proof fn lemma_le32_digits(x: u32)
    ensures
        le32(x as nat).len() == 4,
        le32(x as nat)[0] + 256 * le32(x as nat)[1] + 65536 * le32(x as nat)[2] + 16777216 * le32(x as nat)[3] == x,
{
    let b0 = x % 256;
    let b1 = (x / 256) % 256;
    let b2 = (x / 65536) % 256;
    let b3 = (x / 16777216) % 256;
    assert(b0 + 256 * b1 + 65536 * b2 + 16777216 * b3 == x) by (bit_vector)
        requires
            b0 == x % 256,
            b1 == (x / 256) % 256,
            b2 == (x / 65536) % 256,
            b3 == (x / 16777216) % 256,
    ;
}

/// An image message opens with the image's width and then its height, each
/// as a 32-bit little-endian integer, and carries the pixels unchanged after
/// those eight bytes.
pub proof fn lemma_image_message_layout(pixels: Seq<u8>, width: u32, height: u32)
    ensures
        image_message_spec(pixels, width, height).len() == 8 + pixels.len(),
        image_message_spec(pixels, width, height)[0] + 256 * image_message_spec(pixels, width, height)[1] + 65536
            * image_message_spec(pixels, width, height)[2] + 16777216 * image_message_spec(pixels, width, height)[3]
            == width,
        image_message_spec(pixels, width, height)[4] + 256 * image_message_spec(pixels, width, height)[5] + 65536
            * image_message_spec(pixels, width, height)[6] + 16777216 * image_message_spec(pixels, width, height)[7]
            == height,
        image_message_spec(pixels, width, height).subrange(8, 8 + pixels.len() as int) == pixels,
{
    lemma_le32_digits(width);
    lemma_le32_digits(height);
    let msg = image_message_spec(pixels, width, height);
    let w = le32(width as nat);
    let h = le32(height as nat);
    assert(msg =~= w + h + pixels);
    assert(msg[0] == w[0] && msg[1] == w[1] && msg[2] == w[2] && msg[3] == w[3]);
    assert(msg[4] == h[0] && msg[5] == h[1] && msg[6] == h[2] && msg[7] == h[3]);
    assert(msg.subrange(8, 8 + pixels.len() as int) =~= pixels);
}

fn u32_le(x: u32) -> (b: [u8; 4])
    ensures
        b@ == le32(x as nat),
{
    let b = [
        (x % 256) as u8,
        ((x / 256) % 256) as u8,
        ((x / 65536) % 256) as u8,
        ((x / 16777216) % 256) as u8,
    ];
    assert(b@ =~= le32(x as nat));
    b
}

/// Frame one grayscale image for the virtual_image socket; the buffer must
/// hold exactly `width * height` pixels.
pub fn image_message(pixels: &[u8], width: u32, height: u32) -> (r: Result<Vec<u8>, SizeMismatch>)
    ensures
        r is Ok <==> pixels@.len() == width as int * height as int,
        r matches Ok(msg) ==> msg@ == image_message_spec(pixels@, width, height),
        r matches Ok(msg) ==> {
            &&& msg@.len() == 8 + pixels@.len()
            &&& msg@[0] + 256 * msg@[1] + 65536 * msg@[2] + 16777216 * msg@[3] == width
            &&& msg@[4] + 256 * msg@[5] + 65536 * msg@[6] + 16777216 * msg@[7] == height
            &&& msg@.subrange(8, msg@.len() as int) == pixels@
        },
        r matches Err(e) ==> e == (SizeMismatch { pixels: pixels@.len() as usize, width, height }),
{
    assert(width as int * height as int <= 0xffff_ffff * 0xffff_ffff) by (nonlinear_arith)
        requires
            width <= 0xffff_ffff,
            height <= 0xffff_ffff,
    ;
    let area: u64 = width as u64 * height as u64;
    if pixels.len() as u64 != area {
        return Err(SizeMismatch { pixels: pixels.len(), width, height });
    }
    let mut msg: Vec<u8> = Vec::new();
    let w = u32_le(width);
    let h = u32_le(height);
    push_all(&mut msg, &w);
    push_all(&mut msg, &h);
    push_all(&mut msg, pixels);
    assert(msg@ =~= image_message_spec(pixels@, width, height));
    proof {
        lemma_image_message_layout(pixels@, width, height);
    }
    Ok(msg)
}

} // verus!
