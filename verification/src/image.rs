//! Open decode of the VFS495 raw EP2 DLI stream into scan lines, and the
//! binary PGM (P5) format the decoded images are stored in.
//!
//! Frame format (reverse-engineered, confirmed on captures):
//!   `01 fe <seq:u16 LE> <f4> <f5> <width:u8> 00` then `<payload>` pixel bytes.
//! Frames are FIXED size: 8-byte header + `payload` pixels, delimited by `01 fe`
//! and spaced `stride` apart. The width byte is NOT the frame length.
//!
//! Column descramble for the main image is a per-line reversal (equivalently
//! `perm[i] = width-1-i`); an explicit permutation table may be supplied.

use vstd::prelude::*;
use crate::bytes::{push_all, to_vec};

verus! {

// ---------------------------------------------------------------------------
// Frame extraction
// ---------------------------------------------------------------------------

/// A decoded, unreconstructed line matrix (row-major pixel intensities).
pub struct Lines {
    pub data: Vec<u8>,
    pub rows: usize,
    pub cols: usize,
}

/// The view of an optional column permutation.
pub open spec fn perm_view(perm: Option<&[usize]>) -> Option<Seq<usize>> {
    match perm {
        Some(p) => Some(p@),
        None => None,
    }
}

/// A frame marker `01 fe` starts at `i`.
pub open spec fn is_marker(buf: Seq<u8>, i: int) -> bool {
    0 <= i && i + 1 < buf.len() && buf[i] == 0x01 && buf[i + 1] == 0xfe
}

/// The marker positions below `n`, in increasing order.
pub open spec fn marks_below(buf: Seq<u8>, n: nat) -> Seq<usize>
    decreases n,
{
    if n == 0 {
        Seq::empty()
    } else if is_marker(buf, n - 1) {
        marks_below(buf, (n - 1) as nat).push((n - 1) as usize)
    } else {
        marks_below(buf, (n - 1) as nat)
    }
}

/// All marker positions of the stream.
pub open spec fn frame_marks(buf: Seq<u8>) -> Seq<usize> {
    marks_below(buf, buf.len())
}

/// How many marks, starting at `k`, follow one another exactly `stride` apart.
pub open spec fn run_len(m: Seq<usize>, stride: usize, k: nat) -> nat
    decreases m.len() - k,
{
    if k + 1 < m.len() && m[k + 1int] - m[k as int] == stride {
        1 + run_len(m, stride, k + 1)
    } else {
        1
    }
}

/// The longest run of stride-spaced marks from index `k` on, given the best
/// `(start, len)` so far; an earlier run wins a tie.
pub open spec fn best_run_from(m: Seq<usize>, stride: usize, k: nat, bs: nat, bl: nat) -> (nat, nat)
    decreases m.len() - k,
{
    if k >= m.len() {
        (bs, bl)
    } else {
        let l = run_len(m, stride, k);
        proof {
            lemma_run_len_bound(m, stride, k);
        }
        if l > bl {
            best_run_from(m, stride, k + l, k, l)
        } else {
            best_run_from(m, stride, k + l, bs, bl)
        }
    }
}

/// The longest run of stride-spaced marks: `(first mark index, number of marks)`.
pub open spec fn best_run(m: Seq<usize>, stride: usize) -> (nat, nat) {
    best_run_from(m, stride, 0, 0, 0)
}

/// The source column of output column `c`: the permutation entry, or the
/// reversed column when none is given.
pub open spec fn source_col(payload: usize, perm: Option<Seq<usize>>, c: int) -> int {
    match perm {
        Some(p) => p[c] as int,
        None => payload - 1 - c,
    }
}

/// The frame at mark `mark` is complete: its header and `payload` pixels fit.
pub open spec fn frame_fits(buf: Seq<u8>, mark: usize, payload: usize) -> bool {
    mark + 8 + payload <= buf.len()
}

/// The descrambled pixel line of the frame whose marker is at `mark`.
pub open spec fn frame_line(buf: Seq<u8>, mark: usize, payload: usize, perm: Option<Seq<usize>>) -> Seq<u8> {
    Seq::new(payload as nat, |c: int| buf[mark + 8 + source_col(payload, perm, c)])
}

/// The lines of the complete frames among marks `lo..hi`, concatenated.
pub open spec fn frames_data(buf: Seq<u8>, m: Seq<usize>, payload: usize, perm: Option<Seq<usize>>, lo: nat, hi: nat) -> Seq<u8>
    decreases hi,
{
    if hi <= lo {
        Seq::empty()
    } else if frame_fits(buf, m[hi - 1], payload) {
        frames_data(buf, m, payload, perm, lo, (hi - 1) as nat) + frame_line(buf, m[hi - 1], payload, perm)
    } else {
        frames_data(buf, m, payload, perm, lo, (hi - 1) as nat)
    }
}

/// How many of the marks `lo..hi` start a complete frame.
pub open spec fn frames_count(buf: Seq<u8>, m: Seq<usize>, payload: usize, lo: nat, hi: nat) -> nat
    decreases hi,
{
    if hi <= lo {
        0
    } else if frame_fits(buf, m[hi - 1], payload) {
        frames_count(buf, m, payload, lo, (hi - 1) as nat) + 1
    } else {
        frames_count(buf, m, payload, lo, (hi - 1) as nat)
    }
}

/// Every permutation entry used by a complete frame of the chosen run names a
/// byte inside the stream (with no permutation, columns stay in the frame).
pub open spec fn perm_in_bounds(buf: Seq<u8>, payload: usize, stride: usize, perm: Option<Seq<usize>>) -> bool {
    match perm {
        Some(p) => perm_entries_in_bounds(buf, payload, stride, p),
        None => true,
    }
}

/// Every entry of permutation `p` used by a complete frame of the chosen run
/// names a byte inside the stream.
pub open spec fn perm_entries_in_bounds(buf: Seq<u8>, payload: usize, stride: usize, p: Seq<usize>) -> bool {
    let m = frame_marks(buf);
    let bs = best_run(m, stride).0;
    let bl = best_run(m, stride).1;
    forall|idx: int, c: int|
        #![trigger m[idx], p[c]]
        bs <= idx < bs + bl && frame_fits(buf, m[idx], payload) && 0 <= c < payload ==> c < p.len() && m[idx] + 8
            + p[c] < buf.len()
}

proof fn lemma_perm_entry(buf: Seq<u8>, payload: usize, stride: usize, p: Seq<usize>, idx: int, c: int)
    requires
        perm_entries_in_bounds(buf, payload, stride, p),
        best_run(frame_marks(buf), stride).0 <= idx < best_run(frame_marks(buf), stride).0 + best_run(frame_marks(buf), stride).1,
        frame_fits(buf, frame_marks(buf)[idx], payload),
        0 <= c < payload,
    ensures
        c < p.len(),
        frame_marks(buf)[idx] + 8 + p[c] < buf.len(),
{
    let m = frame_marks(buf);
    let bs = best_run(m, stride).0;
    let bl = best_run(m, stride).1;
    assert(bs <= idx < bs + bl && frame_fits(buf, m[idx], payload) && 0 <= c < payload ==> c < p.len() && m[idx] + 8
            + p[c] < buf.len());
    assert(bs <= idx < bs + bl);
    assert(c < p.len());
}

proof fn lemma_marks_below(buf: Seq<u8>, n: nat)
    requires
        n <= buf.len(),
        buf.len() <= usize::MAX,
    ensures
        forall|a: int| 0 <= a < marks_below(buf, n).len() ==> #[trigger] marks_below(buf, n)[a] < n
            && is_marker(buf, marks_below(buf, n)[a] as int),
        forall|a: int, b: int|
            0 <= a < b < marks_below(buf, n).len() ==> #[trigger] marks_below(buf, n)[a]
                < #[trigger] marks_below(buf, n)[b],
    decreases n,
{
    if n > 0 {
        lemma_marks_below(buf, (n - 1) as nat);
        let prev = marks_below(buf, (n - 1) as nat);
        if is_marker(buf, n - 1) {
            let cur = prev.push((n - 1) as usize);
            assert(cur == marks_below(buf, n));
            assert forall|a: int| 0 <= a < cur.len() implies #[trigger] cur[a] < n && is_marker(buf, cur[a] as int) by {
                if a < prev.len() {
                    assert(cur[a] == prev[a]);
                }
            }
            assert forall|a: int, b: int| 0 <= a < b < cur.len() implies #[trigger] cur[a] < #[trigger] cur[b] by {
                assert(cur[a] == prev[a]);
                if b < prev.len() {
                    assert(cur[b] == prev[b]);
                }
            }
        }
    }
}

/// A run of stride-spaced marks has at least one mark and stays inside the marks.
pub proof fn lemma_run_len_bound(m: Seq<usize>, stride: usize, k: nat)
    requires
        k < m.len(),
    ensures
        1 <= run_len(m, stride, k),
        k + run_len(m, stride, k) <= m.len(),
    decreases m.len() - k,
{
    if k + 1 < m.len() && m[k + 1int] - m[k as int] == stride {
        lemma_run_len_bound(m, stride, k + 1);
    }
}

proof fn lemma_best_run_from_bound(m: Seq<usize>, stride: usize, k: nat, bs: nat, bl: nat)
    requires
        bs + bl <= m.len(),
    ensures
        best_run_from(m, stride, k, bs, bl).0 + best_run_from(m, stride, k, bs, bl).1 <= m.len(),
    decreases m.len() - k,
{
    if k < m.len() {
        lemma_run_len_bound(m, stride, k);
        let l = run_len(m, stride, k);
        if l > bl {
            lemma_best_run_from_bound(m, stride, k + l, k, l);
        } else {
            lemma_best_run_from_bound(m, stride, k + l, bs, bl);
        }
    }
}

/// Marks `i .. i + l` (at least one) follow one another exactly `stride` apart.
pub open spec fn is_run(m: Seq<usize>, stride: usize, i: nat, l: nat) -> bool {
    &&& 1 <= l
    &&& i + l <= m.len()
    &&& forall|j: int| i <= j < i + l - 1 ==> #[trigger] m[j + 1] - m[j] == stride
}

proof fn lemma_run_len_maximal(m: Seq<usize>, stride: usize, k: nat)
    requires
        k < m.len(),
    ensures
        is_run(m, stride, k, run_len(m, stride, k)),
        k + run_len(m, stride, k) < m.len() ==> m[(k + run_len(m, stride, k)) as int] - m[k + run_len(m, stride, k) - 1]
            != stride,
    decreases m.len() - k,
{
    lemma_run_len_bound(m, stride, k);
    if k + 1 < m.len() && m[k + 1int] - m[k as int] == stride {
        lemma_run_len_maximal(m, stride, k + 1);
        let l = run_len(m, stride, k);
        assert forall|j: int| k <= j < k + l - 1 implies #[trigger] m[j + 1] - m[j] == stride by {
            if j > k {
                assert(k + 1 <= j < (k + 1) + run_len(m, stride, k + 1) - 1);
            }
        }
    }
}

proof fn lemma_run_stays_in_segment(m: Seq<usize>, stride: usize, k: nat, i: nat, l: nat)
    requires
        k < m.len(),
        k <= i < k + run_len(m, stride, k),
        is_run(m, stride, i, l),
    ensures
        i + l <= k + run_len(m, stride, k),
{
    lemma_run_len_maximal(m, stride, k);
    let e = k + run_len(m, stride, k);
    if i + l > e {
        assert(i <= e - 1 < i + l - 1);
        assert(m[(e - 1) + 1] - m[e - 1] == stride);
    }
}

proof fn lemma_best_run_from_is_best(m: Seq<usize>, stride: usize, k: nat, bs: nat, bl: nat)
    requires
        k <= m.len(),
        k == 0 || k == m.len() || m[k as int] - m[k - 1] != stride,
        bs <= k,
        bl == 0 ==> k == 0,
        bl > 0 ==> is_run(m, stride, bs, bl),
        forall|i: nat, l: nat| i < k && #[trigger] is_run(m, stride, i, l) ==> l <= bl,
        forall|i: nat| i < k && #[trigger] is_run(m, stride, i, bl) ==> bs <= i,
    ensures
        m.len() > 0 ==> is_run(m, stride, best_run_from(m, stride, k, bs, bl).0, best_run_from(m, stride, k, bs, bl).1),
        forall|i: nat, l: nat| #[trigger] is_run(m, stride, i, l) ==> l <= best_run_from(m, stride, k, bs, bl).1,
        forall|i: nat| #[trigger] is_run(m, stride, i, best_run_from(m, stride, k, bs, bl).1) ==> best_run_from(
            m,
            stride,
            k,
            bs,
            bl,
        ).0 <= i,
    decreases m.len() - k,
{
    if k >= m.len() {
        assert forall|i: nat, l: nat| #[trigger] is_run(m, stride, i, l) implies l <= bl by {
            assert(i < k);
        }
        assert forall|i: nat| #[trigger] is_run(m, stride, i, bl) implies bs <= i by {
            assert(i < k);
        }
    } else {
        lemma_run_len_maximal(m, stride, k);
        let l = run_len(m, stride, k);
        let e = k + l;
        let (nbs, nbl) = if l > bl { (k, l) } else { (bs, bl) };
        assert forall|i: nat, l2: nat| i < e && #[trigger] is_run(m, stride, i, l2) implies l2 <= nbl by {
            if i >= k {
                lemma_run_stays_in_segment(m, stride, k, i, l2);
            }
        }
        assert forall|i: nat| i < e && #[trigger] is_run(m, stride, i, nbl) implies nbs <= i by {
            if i >= k {
                lemma_run_stays_in_segment(m, stride, k, i, nbl);
            } else {
                if l > bl {
                    assert(nbl <= bl);
                }
            }
        }
        lemma_best_run_from_is_best(m, stride, e, nbs, nbl);
    }
}

/// `best_run` finds the earliest longest run: when there is any mark, the
/// result is a run of stride-spaced marks, no run is longer, and no run of
/// the same length starts earlier.
pub proof fn lemma_best_run_is_earliest_longest(m: Seq<usize>, stride: usize)
    requires
        m.len() > 0,
    ensures
        is_run(m, stride, best_run(m, stride).0, best_run(m, stride).1),
        forall|i: nat, l: nat| #[trigger] is_run(m, stride, i, l) ==> l <= best_run(m, stride).1,
        forall|i: nat| #[trigger] is_run(m, stride, i, best_run(m, stride).1) ==> best_run(m, stride).0 <= i,
{
    lemma_best_run_from_is_best(m, stride, 0, 0, 0);
}

proof fn lemma_marks_below_complete(buf: Seq<u8>, n: nat)
    requires
        buf.len() <= usize::MAX,
    ensures
        forall|i: int| 0 <= i < n && is_marker(buf, i) ==> #[trigger] marks_below(buf, n).contains(i as usize),
    decreases n,
{
    if n > 0 {
        lemma_marks_below_complete(buf, (n - 1) as nat);
        let prev = marks_below(buf, (n - 1) as nat);
        assert forall|i: int| 0 <= i < n && is_marker(buf, i) implies #[trigger] marks_below(buf, n).contains(i as usize) by {
            if is_marker(buf, n - 1) {
                let cur = prev.push((n - 1) as usize);
                if i == n - 1 {
                    assert(cur[prev.len() as int] == (n - 1) as usize);
                } else {
                    assert(prev.contains(i as usize));
                    let w = choose|w: int| 0 <= w < prev.len() && prev[w] == i as usize;
                    assert(cur[w] == prev[w]);
                }
            } else {
                assert(i != n - 1);
            }
        }
    }
}

/// The frame marks are exactly the positions of the bytes `01 fe` in the
/// stream, in increasing order.
pub proof fn lemma_frame_marks_exact(buf: Seq<u8>)
    requires
        buf.len() <= usize::MAX,
    ensures
        forall|a: int, b: int|
            0 <= a < b < frame_marks(buf).len() ==> #[trigger] frame_marks(buf)[a] < #[trigger] frame_marks(buf)[b],
        forall|a: int|
            0 <= a < frame_marks(buf).len() ==> {
                &&& #[trigger] frame_marks(buf)[a] + 1 < buf.len()
                &&& buf[frame_marks(buf)[a] as int] == 0x01
                &&& buf[frame_marks(buf)[a] + 1] == 0xfe
            },
        forall|i: int|
            0 <= i && i + 1 < buf.len() && buf[i] == 0x01 && buf[i + 1] == 0xfe ==> #[trigger] frame_marks(buf).contains(
                i as usize,
            ),
{
    lemma_marks_below(buf, buf.len());
    lemma_marks_below_complete(buf, buf.len());
    assert forall|i: int|
        0 <= i && i + 1 < buf.len() && buf[i] == 0x01 && buf[i + 1] == 0xfe implies #[trigger] frame_marks(buf).contains(
            i as usize,
        ) by {
        assert(is_marker(buf, i));
    }
}

proof fn lemma_frames_data_len(buf: Seq<u8>, m: Seq<usize>, payload: usize, perm: Option<Seq<usize>>, lo: nat, hi: nat)
    ensures
        frames_data(buf, m, payload, perm, lo, hi).len() == frames_count(buf, m, payload, lo, hi) * payload,
    decreases hi,
{
    if hi <= lo {
        assert(frames_count(buf, m, payload, lo, hi) == 0);
        assert(0 * payload == 0) by (nonlinear_arith);
    } else {
        lemma_frames_data_len(buf, m, payload, perm, lo, (hi - 1) as nat);
        let c = frames_count(buf, m, payload, lo, (hi - 1) as nat);
        if frame_fits(buf, m[hi - 1], payload) {
            assert(frames_data(buf, m, payload, perm, lo, hi) == frames_data(buf, m, payload, perm, lo, (hi - 1) as nat)
                + frame_line(buf, m[hi - 1], payload, perm));
            assert(frames_count(buf, m, payload, lo, hi) == c + 1);
            assert(frame_line(buf, m[hi - 1], payload, perm).len() == payload);
            assert((c + 1) * payload == c * payload + payload) by (nonlinear_arith);
        }
    }
}

proof fn lemma_frames_data_prefix(buf: Seq<u8>, m: Seq<usize>, payload: usize, perm: Option<Seq<usize>>, lo: nat, a: nat, b: nat)
    requires
        a <= b,
    ensures
        frames_data(buf, m, payload, perm, lo, a).len() <= frames_data(buf, m, payload, perm, lo, b).len(),
        frames_data(buf, m, payload, perm, lo, b).subrange(0, frames_data(buf, m, payload, perm, lo, a).len() as int)
            == frames_data(buf, m, payload, perm, lo, a),
    decreases b,
{
    if a < b {
        lemma_frames_data_prefix(buf, m, payload, perm, lo, a, (b - 1) as nat);
        let da = frames_data(buf, m, payload, perm, lo, a);
        let d1 = frames_data(buf, m, payload, perm, lo, (b - 1) as nat);
        let db = frames_data(buf, m, payload, perm, lo, b);
        if b > lo {
            if frame_fits(buf, m[b - 1], payload) {
                assert(db == d1 + frame_line(buf, m[b - 1], payload, perm));
                assert(db.subrange(0, da.len() as int) =~= d1.subrange(0, da.len() as int));
            } else {
                assert(db == d1);
            }
        } else {
            assert(db == d1);
        }
    } else {
        assert(frames_data(buf, m, payload, perm, lo, b).subrange(0, frames_data(buf, m, payload, perm, lo, a).len() as int)
            =~= frames_data(buf, m, payload, perm, lo, a));
    }
}

/// Each complete frame of marks `lo..hi` contributes one line, placed after
/// the lines of the complete frames before it: the `payload` bytes starting
/// at `k * payload`, where `k` counts those earlier frames, are the frame's
/// pixels (the bytes after its 8-byte header) read in reverse order, or in
/// the order the permutation gives.
pub proof fn lemma_frames_data_line(
    buf: Seq<u8>,
    m: Seq<usize>,
    payload: usize,
    perm: Option<Seq<usize>>,
    lo: nat,
    hi: nat,
    idx: nat,
)
    requires
        lo <= idx < hi,
        frame_fits(buf, m[idx as int], payload),
    ensures
        (frames_count(buf, m, payload, lo, idx) + 1) * payload <= frames_data(buf, m, payload, perm, lo, hi).len(),
        frames_data(buf, m, payload, perm, lo, hi).subrange(
            frames_count(buf, m, payload, lo, idx) * payload,
            frames_count(buf, m, payload, lo, idx) * payload + payload,
        ) == Seq::new(
            payload as nat,
            |c: int|
                buf[m[idx as int] + 8 + match perm {
                    Some(p) => p[c] as int,
                    None => payload - 1 - c,
                }],
        ),
{
    let k = frames_count(buf, m, payload, lo, idx);
    let d0 = frames_data(buf, m, payload, perm, lo, idx);
    let d1 = frames_data(buf, m, payload, perm, lo, idx + 1);
    let line = frame_line(buf, m[idx as int], payload, perm);
    lemma_frames_data_len(buf, m, payload, perm, lo, idx);
    assert(d1 == d0 + line);
    assert(d0.len() == k * payload);
    assert((k + 1) * payload == k * payload + payload) by (nonlinear_arith);
    assert(d1.subrange(k * payload, k * payload + payload) =~= line);
    assert(line =~= Seq::new(
        payload as nat,
        |c: int|
            buf[m[idx as int] + 8 + match perm {
                Some(p) => p[c] as int,
                None => payload - 1 - c,
            }],
    ));
    lemma_frames_data_prefix(buf, m, payload, perm, lo, idx + 1, hi);
    let dh = frames_data(buf, m, payload, perm, lo, hi);
    assert(dh.subrange(k * payload, k * payload + payload) =~= d1.subrange(k * payload, k * payload + payload));
}

/// The column permutation that reverses a line of `payload` pixels.
pub open spec fn reversing_perm(payload: usize) -> Seq<usize> {
    Seq::new(payload as nat, |c: int| (payload - 1 - c) as usize)
}

/// With no permutation given, lines are descrambled exactly as with the
/// explicit reversing permutation `perm[i] = payload - 1 - i`.
pub proof fn lemma_default_descramble_is_reversal(buf: Seq<u8>, m: Seq<usize>, payload: usize, lo: nat, hi: nat)
    ensures
        frames_data(buf, m, payload, None, lo, hi) == frames_data(buf, m, payload, Some(reversing_perm(payload)), lo, hi),
    decreases hi,
{
    if hi > lo {
        lemma_default_descramble_is_reversal(buf, m, payload, lo, (hi - 1) as nat);
        assert(frame_line(buf, m[hi - 1], payload, None) =~= frame_line(buf, m[hi - 1], payload, Some(reversing_perm(payload))));
    }
}

/// Extract the longest run of fixed-stride frames from a raw EP2 byte stream:
/// find every `01 fe` marker, take the longest run of markers exactly `stride`
/// apart (the first of equally long runs), and emit the descrambled `payload`
/// pixels of each complete frame in it as one line.
pub fn parse_frames(buf: &[u8], payload: usize, stride: usize, perm: Option<&[usize]>) -> (lines: Lines)
    requires
        buf@.len() + 8 + payload <= usize::MAX,
        perm_in_bounds(buf@, payload, stride, perm_view(perm)),
    ensures
        ({
            let m = frame_marks(buf@);
            let (bs, bl) = best_run(m, stride);
            &&& lines.data@ == frames_data(buf@, m, payload, perm_view(perm), bs, bs + bl)
            &&& lines.rows == frames_count(buf@, m, payload, bs, bs + bl)
            &&& forall|idx: int|
                #![trigger frame_fits(buf@, m[idx], payload)]
                bs <= idx < bs + bl && frame_fits(buf@, m[idx], payload) ==> {
                    let k = frames_count(buf@, m, payload, bs, idx as nat);
                    &&& (k + 1) * payload <= lines.data@.len()
                    &&& lines.data@.subrange(k * payload, k * payload + payload) == Seq::new(
                        payload as nat,
                        |c: int|
                            buf@[m[idx] + 8 + match perm_view(perm) {
                                Some(p) => p[c] as int,
                                None => payload - 1 - c,
                            }],
                    )
                }
        }),
        lines.cols == payload,
        lines.data@.len() == lines.rows * lines.cols,
{
    let ghost pv = perm_view(perm);
    // find all 01 fe markers
    let mut marks: Vec<usize> = Vec::new();
    let blen: usize = buf.len();
    let mut i: usize = 0;
    while i + 1 < buf.len()
        invariant
            blen == buf@.len(),
            i <= buf@.len(),
            buf@.len() > 0 ==> i < buf@.len(),
            marks@ == marks_below(buf@, i as nat),
        decreases buf@.len() - i,
    {
        if buf[i] == 0x01 && buf[i + 1] == 0xfe {
            marks.push(i);
        }
        i = i + 1;
    }
    proof {
        if buf@.len() > 0 {
            assert(!is_marker(buf@, buf@.len() - 1));
            assert(marks_below(buf@, buf@.len()) == marks_below(buf@, (buf@.len() - 1) as nat));
        }
        lemma_marks_below(buf@, buf@.len());
    }
    let ghost m = marks@;
    assert(m == frame_marks(buf@));

    // longest contiguous run whose neighbours are exactly `stride` apart
    let mut best_start: usize = 0;
    let mut best_len: usize = 0;
    let mut k: usize = 0;
    while k < marks.len()
        invariant
            m == marks@,
            m == frame_marks(buf@),
            forall|a: int, b: int| 0 <= a < b < m.len() ==> #[trigger] m[a] < #[trigger] m[b],
            k <= m.len(),
            best_start + best_len <= m.len(),
            best_run_from(m, stride, k as nat, best_start as nat, best_len as nat) == best_run(m, stride),
        decreases m.len() - k,
    {
        let mut j: usize = k;
        while j + 1 < marks.len() && marks[j + 1] - marks[j] == stride
            invariant
                m == marks@,
                forall|a: int, b: int| 0 <= a < b < m.len() ==> #[trigger] m[a] < #[trigger] m[b],
                k <= j < m.len(),
                run_len(m, stride, k as nat) == (j - k) + run_len(m, stride, j as nat),
            decreases m.len() - j,
        {
            j = j + 1;
        }
        assert(run_len(m, stride, j as nat) == 1);
        if j - k + 1 > best_len {
            best_len = j - k + 1;
            best_start = k;
        }
        k = j + 1;
    }
    proof {
        lemma_best_run_from_bound(m, stride, 0, 0, 0);
    }

    let nmarks: usize = marks.len();
    assert(best_start + best_len <= nmarks);
    let mut data: Vec<u8> = Vec::new();
    let mut rows: usize = 0;
    if best_len > 0 {
        let mut idx: usize = best_start;
        while idx < best_start + best_len
            invariant
                m == marks@,
                m == frame_marks(buf@),
                (best_start as nat, best_len as nat) == best_run(m, stride),
                best_start + best_len <= m.len(),
                best_start <= idx <= best_start + best_len,
                buf@.len() + 8 + payload <= usize::MAX,
                forall|a: int| 0 <= a < m.len() ==> #[trigger] m[a] < buf@.len(),
                perm_in_bounds(buf@, payload, stride, pv),
                pv == perm_view(perm),
                data@ == frames_data(buf@, m, payload, pv, best_start as nat, idx as nat),
                rows == frames_count(buf@, m, payload, best_start as nat, idx as nat),
                rows <= idx - best_start,
            decreases best_start + best_len - idx,
        {
            let body: usize = marks[idx] + 8;
            if body + payload <= buf.len() {
                let ghost before = data@;
                let mut c: usize = 0;
                while c < payload
                    invariant
                        m == marks@,
                        best_start <= idx < best_start + best_len,
                        (best_start as nat, best_len as nat) == best_run(m, stride),
                        m == frame_marks(buf@),
                        body == m[idx as int] + 8,
                        body + payload <= buf@.len(),
                        buf@.len() + 8 + payload <= usize::MAX,
                        perm_in_bounds(buf@, payload, stride, pv),
                        pv == perm_view(perm),
                        c <= payload,
                        data@ == before + frame_line(buf@, m[idx as int], payload, pv).subrange(0, c as int),
                    decreases payload - c,
                {
                    let src: usize = match perm {
                        Some(p) => {
                            assert(frame_fits(buf@, m[idx as int], payload));
                            assert(pv == Some(p@));
                            proof {
                                lemma_perm_entry(buf@, payload, stride, p@, idx as int, c as int);
                            }
                            assert(c < p@.len() && m[idx as int] + 8 + p@[c as int] < buf@.len());
                            let v: usize = p[c];
                            assert(body + v < buf@.len());
                            v
                        },
                        None => {
                            let v: usize = payload - 1 - c;
                            assert(body + v < buf@.len());
                            v
                        },
                    };
                    assert(body + src < buf@.len());
                    data.push(buf[body + src]);
                    c = c + 1;
                    assert(data@ =~= before + frame_line(buf@, m[idx as int], payload, pv).subrange(0, c as int));
                }
                assert(frame_line(buf@, m[idx as int], payload, pv).subrange(0, payload as int) =~= frame_line(buf@, m[idx as int], payload, pv));
                rows = rows + 1;
            }
            idx = idx + 1;
        }
    }
    proof {
        lemma_frames_data_len(buf@, m, payload, pv, best_start as nat, (best_start + best_len) as nat);
        if best_len == 0 {
            assert(data@ =~= frames_data(buf@, m, payload, pv, best_start as nat, (best_start + best_len) as nat));
        }
        let bs = best_start as nat;
        let be = (best_start + best_len) as nat;
        assert forall|idx: int|
            #![trigger frame_fits(buf@, m[idx], payload)]
            bs <= idx < be && frame_fits(buf@, m[idx], payload) implies {
                let k = frames_count(buf@, m, payload, bs, idx as nat);
                &&& (k + 1) * payload <= data@.len()
                &&& data@.subrange(k * payload, k * payload + payload) == Seq::new(
                    payload as nat,
                    |c: int|
                        buf@[m[idx] + 8 + match pv {
                            Some(p) => p[c] as int,
                            None => payload - 1 - c,
                        }],
                )
            } by {
            lemma_frames_data_line(buf@, m, payload, pv, bs, be, idx as nat);
        }
    }
    Lines { data, rows, cols: payload }
}

// ---------------------------------------------------------------------------
// Binary PGM (P5)
// ---------------------------------------------------------------------------

/// The decimal digits of `n`, most significant first, no leading zeros.
pub open spec fn decimal(n: nat) -> Seq<u8>
    decreases n,
{
    if n < 10 {
        seq![(48 + n) as u8]
    } else {
        decimal(n / 10).push((48 + n % 10) as u8)
    }
}

/// A P5 image: `P5\n<cols> <rows>\n255\n` and the pixels.
pub open spec fn pgm_spec(pixels: Seq<u8>, cols: nat, rows: nat) -> Seq<u8> {
    seq![0x50u8, 0x35u8, 0x0au8] + decimal(cols) + seq![0x20u8] + decimal(rows) + seq![0x0au8, 0x32u8, 0x35u8, 0x35u8, 0x0au8]
        + pixels
}

fn push_decimal(v: &mut Vec<u8>, n: usize)
    ensures
        final(v)@ == old(v)@ + decimal(n as nat),
    decreases n,
{
    if n >= 10 {
        push_decimal(v, n / 10);
    }
    v.push((48 + n % 10) as u8);
    proof {
        if n < 10 {
            assert(n % 10 == n);
        }
        assert(final(v)@ =~= old(v)@ + decimal(n as nat)) by {
            if n >= 10 {
                assert(old(v)@ + decimal(n as nat) =~= (old(v)@ + decimal((n / 10) as nat)).push((48 + n % 10) as u8));
            }
        }
    }
}

/// Encode a P5 (binary) PGM: header `P5\n<cols> <rows>\n255\n`, then the pixels.
pub fn pgm_bytes(pixels: &[u8], cols: usize, rows: usize) -> (out: Vec<u8>)
    ensures
        out@ == pgm_spec(pixels@, cols as nat, rows as nat),
{
    let mut out: Vec<u8> = Vec::new();
    out.push(0x50);
    out.push(0x35);
    out.push(0x0a);
    push_decimal(&mut out, cols);
    out.push(0x20);
    push_decimal(&mut out, rows);
    out.push(0x0a);
    out.push(0x32);
    out.push(0x35);
    out.push(0x35);
    out.push(0x0a);
    push_all(&mut out, pixels);
    assert(out@ =~= pgm_spec(pixels@, cols as nat, rows as nat));
    out
}

/// The bytes a PGM header treats as white space: those whose Latin-1
/// character is white space (`\t \n \x0b \x0c \r`, space, NEL and NBSP).
pub open spec fn is_pgm_space(b: u8) -> bool {
    (9 <= b <= 13) || b == 32 || b == 0x85 || b == 0xa0
}

/// The first position from `pos` on that is not white space.
pub open spec fn skip_space(raw: Seq<u8>, pos: nat) -> nat
    decreases raw.len() - pos,
{
    if pos < raw.len() && is_pgm_space(raw[pos as int]) {
        skip_space(raw, pos + 1)
    } else {
        pos
    }
}

/// The first position from `pos` on that is white space (or the end).
pub open spec fn token_end(raw: Seq<u8>, pos: nat) -> nat
    decreases raw.len() - pos,
{
    if pos < raw.len() && !is_pgm_space(raw[pos as int]) {
        token_end(raw, pos + 1)
    } else {
        pos
    }
}

/// Up to `k` header tokens read from `pos`, as `(start, end)` spans, and the
/// position after the last one. Each token skips white space, then runs to
/// the next white space; reading stops at the end of the input.
pub open spec fn header_tokens(raw: Seq<u8>, pos: nat, k: nat) -> (Seq<(nat, nat)>, nat)
    decreases k,
{
    if k == 0 || pos >= raw.len() {
        (Seq::empty(), pos)
    } else {
        let s = skip_space(raw, pos);
        let e = token_end(raw, s);
        let rest = header_tokens(raw, e, (k - 1) as nat);
        (seq![(s, e)] + rest.0, rest.1)
    }
}

/// An ASCII digit.
pub open spec fn is_digit(b: u8) -> bool {
    48 <= b <= 57
}

/// The value of a string of ASCII decimal digits.
pub open spec fn decimal_value(d: Seq<u8>) -> nat
    decreases d.len(),
{
    if d.len() == 0 {
        0
    } else {
        decimal_value(d.drop_last()) * 10 + (d.last() - 48) as nat
    }
}

/// `u32::from_str` on a header token: an optional `+`, then one or more
/// decimal digits whose value fits in a `u32`.
pub open spec fn parse_u32_spec(tok: Seq<u8>) -> Option<u32> {
    parse_digits_spec(strip_plus(tok))
}

/// A token without its leading `+`, if it has one.
pub open spec fn strip_plus(tok: Seq<u8>) -> Seq<u8> {
    if tok.len() > 0 && tok[0] == 0x2b {
        tok.drop_first()
    } else {
        tok
    }
}

/// One or more decimal digits whose value fits in a `u32`.
pub open spec fn parse_digits_spec(d: Seq<u8>) -> Option<u32> {
    if d.len() > 0 && (forall|i: int| 0 <= i < d.len() ==> is_digit(#[trigger] d[i])) && decimal_value(d)
        <= u32::MAX {
        Some(decimal_value(d) as u32)
    } else {
        None
    }
}

/// Why a PGM could not be read.
#[derive(Debug, Clone, Copy, PartialEq, Eq)]
pub enum PgmError {
    /// Fewer than four header tokens, or the first is not `P5`.
    NotP5,
    /// The width is not a `u32` number.
    BadWidth,
    /// The height is not a `u32` number.
    BadHeight,
    /// Fewer pixel bytes than width * height.
    Truncated,
}

/// The text of token `t`.
pub open spec fn token_text(raw: Seq<u8>, t: (nat, nat)) -> Seq<u8> {
    raw.subrange(t.0 as int, t.1 as int)
}

/// The first four header tokens start with `P5` and the next two are numbers:
/// the image's width and height.
pub open spec fn pgm_dims(raw: Seq<u8>) -> Option<(u32, u32)> {
    let toks = header_tokens(raw, 0, 4).0;
    if toks.len() < 4 || token_text(raw, toks[0]) != seq![0x50u8, 0x35u8] {
        None
    } else {
        match (parse_u32_spec(token_text(raw, toks[1])), parse_u32_spec(token_text(raw, toks[2]))) {
            (Some(w), Some(h)) => Some((w, h)),
            _ => None,
        }
    }
}

/// The pixels after a header whose last token ends at `pos`: one separator
/// byte, then `w * h` bytes (any further bytes are ignored).
pub open spec fn pgm_pixels(raw: Seq<u8>, w: u32, h: u32, pos: nat) -> Result<(Seq<u8>, u32, u32), PgmError> {
    let start = pos + 1;
    let need = w as nat * h as nat;
    if start + need > raw.len() {
        Err(PgmError::Truncated)
    } else {
        Ok((raw.subrange(start as int, (start + need) as int), w, h))
    }
}

/// Reading a P5 PGM: four header tokens (`P5`, width, height, maxval; the
/// maxval is not looked at), one byte after the maxval, then width * height
/// pixel bytes (any further bytes are ignored).
pub open spec fn parse_pgm_spec(raw: Seq<u8>) -> Result<(Seq<u8>, u32, u32), PgmError> {
    let (toks, pos) = header_tokens(raw, 0, 4);
    if toks.len() < 4 || token_text(raw, toks[0]) != seq![0x50u8, 0x35u8] {
        Err(PgmError::NotP5)
    } else {
        match parse_u32_spec(token_text(raw, toks[1])) {
            None => Err(PgmError::BadWidth),
            Some(w) => match parse_u32_spec(token_text(raw, toks[2])) {
                None => Err(PgmError::BadHeight),
                Some(h) => pgm_pixels(raw, w, h, pos),
            },
        }
    }
}

/// The width * height product of a PGM's header fits in a `u32` (on larger
/// products the `u32` multiplication overflows and panics).
pub open spec fn pgm_area_fits(raw: Seq<u8>) -> bool {
    pgm_dims(raw) matches Some((w, h)) ==> w as nat * h as nat <= u32::MAX
}

/// The view of `parse_pgm`'s result.
pub open spec fn pgm_view(r: Result<(Vec<u8>, u32, u32), PgmError>) -> Result<(Seq<u8>, u32, u32), PgmError> {
    match r {
        Ok((px, w, h)) => Ok((px@, w, h)),
        Err(e) => Err(e),
    }
}

fn skip_space_exec(raw: &[u8], pos: usize) -> (p: usize)
    requires
        pos <= raw@.len(),
    ensures
        p == skip_space(raw@, pos as nat),
        pos <= p <= raw@.len(),
{
    let mut p: usize = pos;
    while p < raw.len() && (9 <= raw[p] && raw[p] <= 13 || raw[p] == 32 || raw[p] == 0x85 || raw[p] == 0xa0)
        invariant
            pos <= p <= raw@.len(),
            skip_space(raw@, p as nat) == skip_space(raw@, pos as nat),
        decreases raw@.len() - p,
    {
        p = p + 1;
    }
    p
}

fn token_end_exec(raw: &[u8], pos: usize) -> (p: usize)
    requires
        pos <= raw@.len(),
    ensures
        p == token_end(raw@, pos as nat),
        pos <= p <= raw@.len(),
{
    let mut p: usize = pos;
    while p < raw.len() && !(9 <= raw[p] && raw[p] <= 13 || raw[p] == 32 || raw[p] == 0x85 || raw[p] == 0xa0)
        invariant
            pos <= p <= raw@.len(),
            token_end(raw@, p as nat) == token_end(raw@, pos as nat),
        decreases raw@.len() - p,
    {
        p = p + 1;
    }
    p
}

proof fn lemma_decimal_value_prefix(d: Seq<u8>, i: int)
    requires
        0 <= i <= d.len(),
        forall|j: int| 0 <= j < d.len() ==> is_digit(#[trigger] d[j]),
    ensures
        decimal_value(d.subrange(0, i)) <= decimal_value(d),
    decreases d.len() - i,
{
    if i < d.len() {
        lemma_decimal_value_prefix(d, i + 1);
        assert(d.subrange(0, i + 1).drop_last() =~= d.subrange(0, i));
    } else {
        assert(d.subrange(0, i) =~= d);
    }
}

/// `u32::from_str` on a header token.
fn parse_u32_token(tok: &[u8]) -> (r: Option<u32>)
    ensures
        r == parse_u32_spec(tok@),
{
    let start: usize = if tok.len() > 0 && tok[0] == 0x2b { 1 } else { 0 };
    let ghost d = strip_plus(tok@);
    assert(d =~= tok@.subrange(start as int, tok@.len() as int));
    if start >= tok.len() {
        return None;
    }
    let mut i: usize = start;
    let mut acc: u64 = 0;
    while i < tok.len()
        invariant
            start <= i <= tok@.len(),
            d == strip_plus(tok@),
            d =~= tok@.subrange(start as int, tok@.len() as int),
            forall|j: int| 0 <= j < i - start ==> is_digit(#[trigger] d[j]),
            acc == decimal_value(d.subrange(0, i - start)),
            acc <= u32::MAX,
        decreases tok@.len() - i,
    {
        let b: u8 = tok[i];
        if !(48 <= b && b <= 57) {
            assert(!is_digit(d[i - start]));
            assert(!(forall|k: int| 0 <= k < d.len() ==> is_digit(#[trigger] d[k])));
            assert(parse_u32_spec(tok@) is None);
            return None;
        }
        assert(d.subrange(0, i + 1 - start).drop_last() =~= d.subrange(0, i - start));
        acc = acc * 10 + (b - 48) as u64;
        i = i + 1;
        if acc > 0xffff_ffff {
            proof {
                if forall|k: int| 0 <= k < d.len() ==> is_digit(#[trigger] d[k]) {
                    lemma_decimal_value_prefix(d, i - start);
                    assert(decimal_value(d) > u32::MAX);
                }
                assert(parse_u32_spec(tok@) is None);
            }
            return None;
        }
    }
    assert(d.subrange(0, i - start) =~= d);
    Some(acc as u32)
}

/// Read the header of a P5 PGM: its width, height, and the position where
/// its last token ends.
fn read_pgm_header(raw: &[u8]) -> (r: Result<(u32, u32, usize), PgmError>)
    ensures
        r matches Err(e) ==> parse_pgm_spec(raw@) == Err::<(Seq<u8>, u32, u32), PgmError>(e) && pgm_dims(raw@) is None,
        r matches Ok((w, h, pos)) ==> pgm_dims(raw@) == Some((w, h)) && pos <= raw@.len() && parse_pgm_spec(raw@)
            == pgm_pixels(raw@, w, h, pos as nat),
{
    let ghost full = header_tokens(raw@, 0, 4);
    let mut starts: Vec<usize> = Vec::new();
    let mut ends: Vec<usize> = Vec::new();
    let mut pos: usize = 0;
    while starts.len() < 4 && pos < raw.len()
        invariant
            starts@.len() == ends@.len(),
            starts@.len() <= 4,
            pos <= raw@.len(),
            forall|t: int| #![trigger starts@[t]] 0 <= t < starts@.len() ==> starts@[t] <= ends@[t] <= raw@.len(),
            full.1 == header_tokens(raw@, pos as nat, (4 - starts@.len()) as nat).1,
            full.0 == Seq::new(starts@.len(), |t: int| (starts@[t] as nat, ends@[t] as nat))
                + header_tokens(raw@, pos as nat, (4 - starts@.len()) as nat).0,
        decreases 4 - starts@.len(),
    {
        let s: usize = skip_space_exec(raw, pos);
        let e: usize = token_end_exec(raw, s);
        let ghost before = Seq::new(starts@.len(), |t: int| (starts@[t] as nat, ends@[t] as nat));
        let ghost rest = header_tokens(raw@, e as nat, (4 - starts@.len() - 1) as nat);
        assert(header_tokens(raw@, pos as nat, (4 - starts@.len()) as nat).0 == seq![(s as nat, e as nat)] + rest.0);
        starts.push(s);
        ends.push(e);
        pos = e;
        assert(Seq::new(starts@.len(), |t: int| (starts@[t] as nat, ends@[t] as nat)) =~= before.push((s as nat, e as nat)));
        assert(full.0 =~= Seq::new(starts@.len(), |t: int| (starts@[t] as nat, ends@[t] as nat)) + rest.0);
    }
    let ghost toks = Seq::new(starts@.len(), |t: int| (starts@[t] as nat, ends@[t] as nat));
    assert(header_tokens(raw@, pos as nat, (4 - starts@.len()) as nat).0 =~= Seq::<(nat, nat)>::empty());
    assert(full.0 =~= toks);
    if starts.len() < 4 {
        return Err(PgmError::NotP5);
    }
    let s0: usize = starts[0];
    let e0: usize = ends[0];
    if !(e0 - s0 == 2 && raw[s0] == 0x50 && raw[s0 + 1] == 0x35) {
        proof {
            if token_text(raw@, toks[0]) == seq![0x50u8, 0x35u8] {
                assert(token_text(raw@, toks[0]).len() == 2);
                assert(token_text(raw@, toks[0])[0] == raw@[s0 as int]);
                assert(token_text(raw@, toks[0])[1] == raw@[s0 + 1]);
            }
        }
        return Err(PgmError::NotP5);
    }
    assert(token_text(raw@, toks[0]) =~= seq![0x50u8, 0x35u8]);
    let w: u32 = match parse_u32_token(&raw[starts[1]..ends[1]]) {
        Some(w) => w,
        None => {
            assert(raw@.subrange(starts@[1] as int, ends@[1] as int) == token_text(raw@, toks[1]));
            return Err(PgmError::BadWidth);
        },
    };
    assert(raw@.subrange(starts@[1] as int, ends@[1] as int) == token_text(raw@, toks[1]));
    let h: u32 = match parse_u32_token(&raw[starts[2]..ends[2]]) {
        Some(h) => h,
        None => {
            assert(raw@.subrange(starts@[2] as int, ends@[2] as int) == token_text(raw@, toks[2]));
            return Err(PgmError::BadHeight);
        },
    };
    assert(raw@.subrange(starts@[2] as int, ends@[2] as int) == token_text(raw@, toks[2]));
    assert(pgm_dims(raw@) == Some((w, h)));
    Ok((w, h, pos))
}

/// Whether `parse_pgm` can read `raw`: the header's width * height, if it
/// has both, fits in a `u32`.
pub fn pgm_area_ok(raw: &[u8]) -> (ok: bool)
    ensures
        ok == pgm_area_fits(raw@),
{
    match read_pgm_header(raw) {
        Ok((w, h, _pos)) => {
            assert(w as int * h as int <= 0xffff_ffff * 0xffff_ffff) by (nonlinear_arith)
                requires
                    w <= 0xffff_ffff,
                    h <= 0xffff_ffff,
            ;
            (w as u64) * (h as u64) <= 0xffff_ffff
        },
        Err(_) => true,
    }
}

/// Read a binary P5 PGM: returns the pixels, the width and the height.
pub fn parse_pgm(raw: &[u8]) -> (r: Result<(Vec<u8>, u32, u32), PgmError>)
    requires
        pgm_area_fits(raw@),
    ensures
        pgm_view(r) == parse_pgm_spec(raw@),
{
    let (w, h, pos) = read_pgm_header(raw)?;
    let need: u32 = w * h;
    if pos >= raw.len() || need as usize > raw.len() - pos - 1 {
        return Err(PgmError::Truncated);
    }
    let start: usize = pos + 1;
    let pixels = to_vec(&raw[start..start + need as usize]);
    Ok((pixels, w, h))
}

proof fn lemma_decimal(n: nat)
    ensures
        decimal(n).len() >= 1,
        forall|i: int| 0 <= i < decimal(n).len() ==> is_digit(#[trigger] decimal(n)[i]),
        decimal_value(decimal(n)) == n,
    decreases n,
{
    if n >= 10 {
        lemma_decimal(n / 10);
        let d = decimal(n / 10);
        assert(decimal(n).drop_last() =~= d);
        assert forall|i: int| 0 <= i < decimal(n).len() implies is_digit(#[trigger] decimal(n)[i]) by {
            if i < d.len() {
                assert(decimal(n)[i] == d[i]);
            }
        }
        assert(decimal(n).last() == (48 + n % 10) as u8);
        assert((n / 10) * 10 + n % 10 == n);
    } else {
        assert(decimal(n).drop_last() =~= Seq::<u8>::empty());
        assert(decimal_value(Seq::<u8>::empty()) == 0);
    }
}

proof fn lemma_token_end_run(raw: Seq<u8>, a: nat, b: nat)
    requires
        a <= b <= raw.len(),
        forall|i: int| a <= i < b ==> !is_pgm_space(#[trigger] raw[i]),
        b == raw.len() || is_pgm_space(raw[b as int]),
    ensures
        token_end(raw, a) == b,
    decreases b - a,
{
    if a < b {
        lemma_token_end_run(raw, a + 1, b);
    }
}

/// Reading back a written PGM gives the written image: for pixels that fill
/// `cols * rows` (a product that fits in a `u32`), parsing the output of
/// `pgm_bytes` returns the same pixels, width and height.
pub proof fn lemma_pgm_roundtrip(pixels: Seq<u8>, cols: u32, rows: u32)
    requires
        pixels.len() == cols as nat * rows as nat,
        cols as nat * rows as nat <= u32::MAX,
    ensures
        pgm_area_fits(pgm_spec(pixels, cols as nat, rows as nat)),
        parse_pgm_spec(pgm_spec(pixels, cols as nat, rows as nat)) == Ok::<(Seq<u8>, u32, u32), PgmError>(
            (pixels, cols, rows),
        ),
{
    let d1 = decimal(cols as nat);
    let d2 = decimal(rows as nat);
    lemma_decimal(cols as nat);
    lemma_decimal(rows as nat);
    let raw = pgm_spec(pixels, cols as nat, rows as nat);
    let l1: int = d1.len() as int;
    let l2: int = d2.len() as int;
    assert(raw.len() == 9 + l1 + l2 + pixels.len());
    assert(raw[0] == 0x50 && raw[1] == 0x35 && raw[2] == 0x0a);
    assert forall|i: int| 3 <= i < 3 + l1 implies raw[i] == d1[i - 3] by {}
    assert(raw[3 + l1] == 0x20);
    assert forall|i: int| 4 + l1 <= i < 4 + l1 + l2 implies raw[i] == d2[i - 4 - l1] by {}
    assert(raw[4 + l1 + l2] == 0x0a);
    assert(raw[5 + l1 + l2] == 0x32 && raw[6 + l1 + l2] == 0x35 && raw[7 + l1 + l2] == 0x35);
    assert(raw[8 + l1 + l2] == 0x0a);
    assert(raw.subrange(0, 2) =~= seq![0x50u8, 0x35u8]);
    assert(raw.subrange(3, 3 + l1) =~= d1);
    assert(raw.subrange(4 + l1, 4 + l1 + l2) =~= d2);
    assert(raw.subrange(9 + l1 + l2, 9 + l1 + l2 + pixels.len() as int) =~= pixels);

    // token 0: `P5`
    assert(skip_space(raw, (0) as nat) == 0);
    lemma_token_end_run(raw, (0) as nat, (2) as nat);
    // token 1: the width
    assert(skip_space(raw, (3) as nat) == 3) by {
        assert(raw[3] == d1[0]);
    }
    assert(skip_space(raw, (2) as nat) == 3);
    assert forall|i: int| 3 <= i < 3 + l1 implies !is_pgm_space(#[trigger] raw[i]) by {
        assert(raw[i] == d1[i - 3]);
        assert(is_digit(d1[i - 3]));
    }
    lemma_token_end_run(raw, (3) as nat, (3 + l1) as nat);
    // token 2: the height
    assert(skip_space(raw, (4 + l1) as nat) == 4 + l1) by {
        assert(raw[4 + l1] == d2[0]);
    }
    assert(skip_space(raw, (3 + l1) as nat) == 4 + l1);
    assert forall|i: int| 4 + l1 <= i < 4 + l1 + l2 implies !is_pgm_space(#[trigger] raw[i]) by {
        assert(raw[i] == d2[i - 4 - l1]);
        assert(is_digit(d2[i - 4 - l1]));
    }
    lemma_token_end_run(raw, (4 + l1) as nat, (4 + l1 + l2) as nat);
    // token 3: the maxval `255`
    assert(skip_space(raw, (5 + l1 + l2) as nat) == 5 + l1 + l2);
    assert(skip_space(raw, (4 + l1 + l2) as nat) == 5 + l1 + l2);
    lemma_token_end_run(raw, (5 + l1 + l2) as nat, (8 + l1 + l2) as nat);

    let t3 = header_tokens(raw, (8 + l1 + l2) as nat, 0);
    let t2 = header_tokens(raw, (4 + l1 + l2) as nat, 1);
    let t1 = header_tokens(raw, (3 + l1) as nat, 2);
    let t0 = header_tokens(raw, (2) as nat, 3);
    let t = header_tokens(raw, (0) as nat, 4);
    assert(t3.1 == 8 + l1 + l2);
    assert(t2.1 == 8 + l1 + l2);
    assert(t1.1 == 8 + l1 + l2);
    assert(t0.1 == 8 + l1 + l2);
    assert(t.1 == 8 + l1 + l2);
    assert(t.0[0] == (0nat, 2nat));
    assert(t.0[1] == (3nat, (3 + l1) as nat));
    assert(t.0[2] == ((4 + l1) as nat, (4 + l1 + l2) as nat));
    assert(t.0.len() == 4);
    assert(token_text(raw, t.0[0]) == seq![0x50u8, 0x35u8]);
    assert(token_text(raw, t.0[1]) == d1);
    assert(token_text(raw, t.0[2]) == d2);
    assert(strip_plus(d1) == d1);
    assert(strip_plus(d2) == d2);
    assert(parse_u32_spec(d1) == Some(cols));
    assert(parse_u32_spec(d2) == Some(rows));
}

} // verus!
