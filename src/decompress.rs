//! The decompressor: a state machine over the instructions of the stream,
//! proved to compute [`decode`].
use vstd::prelude::*;

use crate::format::{
    copy_match, decode, lemma_copy_match_len, literals, match_then_literals, run, step, zero_run, zeros_from, LitState,
    Step, MAX_ZERO_RUN,
};
use crate::DecompressError;

verus! {

/// Where one decoded instruction leaves the decoder.
enum Progress {
    /// Go on at this source position, in this state, with this much output.
    Next(usize, LitState, usize),
    /// The end-of-stream instruction ends at this source position.
    End(usize),
    /// The instruction is rejected.
    Fail(DecompressError),
}

/// `r` is what the model's step `s` gives, and `dst` holds the output so far.
spec fn agrees(r: Progress, s: Step, src_len: nat, dst: Seq<u8>) -> bool {
    match s {
        Step::Next { pos, state, out } => {
            &&& r == Progress::Next(pos as usize, state, out.len() as usize)
            &&& pos <= src_len
            &&& out.len() <= dst.len()
            &&& dst.subrange(0, out.len() as int) == out
        },
        Step::End { pos, out } => {
            &&& r == Progress::End(pos as usize)
            &&& pos <= src_len
            &&& out.len() <= dst.len()
            &&& dst.subrange(0, out.len() as int) == out
        },
        Step::Fail { err } => r == Progress::Fail(err),
    }
}

/// Reads a length extension at `p`: zero bytes, then a non-zero byte.
pub(crate) fn read_zero_run(src: &[u8], p: usize, base: usize) -> (r: Option<(usize, usize)>)
    requires
        p <= src@.len(),
        base <= 33,
    ensures
        match zero_run(src@, p as nat, base as nat) {
            None => r is None,
            Some((v, q)) => r matches Some((a, b)) && a == v && b == q && q <= src@.len(),
        },
{
    let mut q = p;
    while q < src.len() && src[q] == 0
        invariant
            p <= q <= src@.len(),
            zeros_from(src@, p as int) == (q - p) + zeros_from(src@, q as int),
        decreases src@.len() - q,
    {
        q += 1;
    }
    if q >= src.len() {
        return None;
    }
    let k = q - p;
    if k > MAX_ZERO_RUN {
        return None;
    }
    assert(k * 255 <= MAX_ZERO_RUN * 255) by (nonlinear_arith)
        requires
            k <= MAX_ZERO_RUN,
    ;
    Some((k * 255 + src[q] as usize + base, q + 1))
}

/// Copies `n` bytes of `src` from `sp` on into `dst` from `dp` on.
fn copy_literals(src: &[u8], sp: usize, dst: &mut [u8], dp: usize, n: usize)
    requires
        sp + n <= src@.len(),
        dp + n <= old(dst)@.len(),
    ensures
        final(dst)@.len() == old(dst)@.len(),
        final(dst)@.subrange(0, dp + n) == old(dst)@.subrange(0, dp as int) + src@.subrange(
            sp as int,
            sp + n,
        ),
{
    let ghost d0 = dst@;
    let dlen = dst.len();
    let mut i: usize = 0;
    while i < n
        invariant
            i <= n,
            dst@.len() == dlen,
            src@.len() == src.len(),
            sp + n <= src@.len(),
            dp + n <= dst@.len(),
            dst@.len() == d0.len(),
            dst@.subrange(0, dp + i) == d0.subrange(0, dp as int) + src@.subrange(
                sp as int,
                sp + i,
            ),
        decreases n - i,
    {
        let ghost before = dst@;
        dst[dp + i] = src[sp + i];
        assert(dst@.subrange(0, dp + i + 1) =~= before.subrange(0, dp + i).push(src@[sp + i]));
        assert(src@.subrange(sp as int, sp + i + 1) =~= src@.subrange(sp as int, sp + i).push(
            src@[sp + i],
        ));
        i += 1;
    }
}

/// Appends `len` bytes to the output, each a copy of the byte `dist` before it.
fn copy_back(dst: &mut [u8], dp: usize, dist: usize, len: usize)
    requires
        1 <= dist <= dp,
        dp + len <= old(dst)@.len(),
    ensures
        final(dst)@.len() == old(dst)@.len(),
        final(dst)@.subrange(0, dp + len) == copy_match(
            old(dst)@.subrange(0, dp as int),
            dist as nat,
            len as nat,
        ),
{
    let ghost out = dst@.subrange(0, dp as int);
    let dlen = dst.len();
    let mut i: usize = 0;
    while i < len
        invariant
            i <= len,
            1 <= dist <= dp,
            dp + len <= dst@.len(),
            dst@.len() == old(dst)@.len(),
            dst@.len() == dlen,
            out.len() == dp,
            dst@.subrange(0, dp + i) == copy_match(out, dist as nat, i as nat),
        decreases len - i,
    {
        let ghost before = dst@;
        proof {
            lemma_copy_match_len(out, dist as nat, i as nat);
        }
        let b = dst[dp + i - dist];
        assert(b == copy_match(out, dist as nat, i as nat)[dp + i - dist]);
        dst[dp + i] = b;
        assert(dst@.subrange(0, dp + i + 1) =~= before.subrange(0, dp + i).push(b));
        i += 1;
    }
}

/// Decodes a literal run of `n` bytes at `p`.
fn take_literals(src: &[u8], p: usize, n: usize, dst: &mut [u8], dp: usize, next: LitState) -> (r:
    Progress)
    requires
        p <= src@.len(),
        dp <= old(dst)@.len(),
    ensures
        final(dst)@.len() == old(dst)@.len(),
        agrees(
            r,
            literals(
                src@,
                p as nat,
                n as nat,
                old(dst)@.subrange(0, dp as int),
                old(dst)@.len() as nat,
                next,
            ),
            src@.len(),
            final(dst)@,
        ),
        r matches Progress::Next(q, _, _) ==> p <= q,
{
    if n > src.len() - p {
        return Progress::Fail(DecompressError::InvalidInput);
    }
    if n > dst.len() - dp {
        return Progress::Fail(DecompressError::OutputLength);
    }
    copy_literals(src, p, dst, dp, n);
    Progress::Next(p + n, next, dp + n)
}

/// Decodes a match of `len` bytes at distance `dist`, then the trailing
/// literals counted by the low two bits of `sub`, which start at `p`.
fn finish_match(
    src: &[u8],
    p: usize,
    len: usize,
    dist: usize,
    sub: u8,
    dst: &mut [u8],
    dp: usize,
) -> (r: Progress)
    requires
        p <= src@.len(),
        dp <= old(dst)@.len(),
        dist >= 1,
    ensures
        final(dst)@.len() == old(dst)@.len(),
        agrees(
            r,
            match_then_literals(
                src@,
                p as nat,
                len as nat,
                dist as nat,
                sub,
                old(dst)@.subrange(0, dp as int),
                old(dst)@.len() as nat,
            ),
            src@.len(),
            final(dst)@,
        ),
        r matches Progress::Next(q, _, _) ==> p <= q,
{
    if dist > dp {
        return Progress::Fail(DecompressError::InvalidInput);
    }
    if len > dst.len() - dp {
        return Progress::Fail(DecompressError::OutputLength);
    }
    copy_back(dst, dp, dist, len);
    proof {
        lemma_copy_match_len(dst@.subrange(0, dp as int), dist as nat, len as nat);
    }
    let n = (sub % 4) as usize;
    if n == 0 {
        Progress::Next(p, LitState::Zero, dp + len)
    } else {
        let ghost mid = dst@;
        let r = take_literals(src, p, n, dst, dp + len, LitState::Short);
        assert(mid.subrange(0, dp + len) =~= copy_match(
            old(dst)@.subrange(0, dp as int),
            dist as nat,
            len as nat,
        ));
        r
    }
}

/// Decodes the instruction at `pos`.
fn decode_step(src: &[u8], pos: usize, st: LitState, dst: &mut [u8], dp: usize) -> (r: Progress)
    requires
        pos <= src@.len(),
        dp <= old(dst)@.len(),
    ensures
        final(dst)@.len() == old(dst)@.len(),
        agrees(
            r,
            step(src@, pos as nat, st, old(dst)@.subrange(0, dp as int), old(dst)@.len() as nat),
            src@.len(),
            final(dst)@,
        ),
        r matches Progress::Next(q, _, _) ==> pos < q,
        step(src@, pos as nat, st, old(dst)@.subrange(0, dp as int), old(dst)@.len() as nat) matches Step::End { out, .. } ==> out == old(dst)@.subrange(0, dp as int),
{
    reveal(step);
    if pos >= src.len() {
        return Progress::Fail(DecompressError::InvalidInput);
    }
    let insn = src[pos];
    let p = pos + 1;
    if insn < 16 {
        match st {
            LitState::Zero => {
                let (n, q) = if insn == 0 {
                    match read_zero_run(src, p, 18) {
                        Some(t) => t,
                        None => {
                            return Progress::Fail(DecompressError::InvalidInput);
                        },
                    }
                } else {
                    (insn as usize + 3, p)
                };
                take_literals(src, q, n, dst, dp, LitState::Long)
            },
            _ => {
                if p >= src.len() {
                    return Progress::Fail(DecompressError::InvalidInput);
                }
                let (len, base): (usize, usize) = if st == LitState::Short {
                    (2, 1)
                } else {
                    (3, 2049)
                };
                let dist = src[p] as usize * 4 + (insn / 4) as usize + base;
                finish_match(src, p + 1, len, dist, insn, dst, dp)
            },
        }
    } else if insn < 64 {
        let long = insn < 32;
        let mask: u8 = if long {
            8
        } else {
            32
        };
        let (len, q) = if insn % mask == 0 {
            match read_zero_run(
                src,
                p,
                if long {
                    9
                } else {
                    33
                },
            ) {
                Some(t) => t,
                None => {
                    return Progress::Fail(DecompressError::InvalidInput);
                },
            }
        } else {
            ((insn % mask) as usize + 2, p)
        };
        if src.len() - q < 2 {
            return Progress::Fail(DecompressError::InvalidInput);
        }
        let d0 = src[q];
        let d1 = src[q + 1];
        if long {
            let dist = ((insn / 8) % 2) as usize * 16384 + d1 as usize * 64 + (d0 / 4) as usize
                + 16384;
            if dist == 16384 {
                return Progress::End(q + 2);
            }
            finish_match(src, q + 2, len, dist, d0, dst, dp)
        } else {
            let dist = d1 as usize * 64 + (d0 / 4) as usize + 1;
            finish_match(src, q + 2, len, dist, d0, dst, dp)
        }
    } else {
        if p >= src.len() {
            return Progress::Fail(DecompressError::InvalidInput);
        }
        let len = if insn < 128 {
            3 + ((insn / 32) % 2) as usize
        } else {
            5 + ((insn / 32) % 4) as usize
        };
        let dist = src[p] as usize * 8 + ((insn / 4) % 8) as usize + 1;
        finish_match(src, p + 1, len, dist, insn, dst, dp)
    }
}

/// Decompresses `src` into `dst`, which must have exactly the decoded length.
///
/// On success `dst` holds what `src` decodes to; on failure its contents are
/// unspecified.
pub fn decompress(src: &[u8], dst: &mut [u8]) -> (r: Result<(), DecompressError>)
    ensures
        final(dst)@.len() == old(dst)@.len(),
        match decode(src@, old(dst)@.len() as nat) {
            Ok(out) => r is Ok && final(dst)@ == out,
            Err(e) => r == Err::<(), DecompressError>(e),
        },
{
    let ghost cap = dst@.len() as nat;
    if src.len() == 0 {
        return Err(DecompressError::InvalidInput);
    }
    let first = src[0];
    let (mut pos, mut state, mut dp) = if first <= 17 {
        (0usize, LitState::Zero, 0usize)
    } else {
        let next = if first <= 20 {
            LitState::Short
        } else {
            LitState::Long
        };
        match take_literals(src, 1, (first - 17) as usize, dst, 0, next) {
            Progress::Next(q, s, d) => (q, s, d),
            Progress::End(_) => {
                return Err(DecompressError::InvalidInput);
            },
            Progress::Fail(e) => {
                return Err(e);
            },
        }
    };
    assert(dst@.subrange(0, 0) =~= Seq::<u8>::empty());
    let slen = src.len();
    let dlen = dst.len();
    loop
        invariant
            src@.len() == slen,
            dst@.len() == dlen,
            pos <= src@.len(),
            dp <= dst@.len(),
            dst@.len() == cap,
            cap == old(dst)@.len(),
            run(src@, pos as nat, state, dst@.subrange(0, dp as int), cap) == decode(src@, cap),
        decreases src@.len() - pos,
    {
        let ghost prefix = dst@.subrange(0, dp as int);
        let r = decode_step(src, pos, state, dst, dp);
        proof {
            if let Progress::Next(q, s, d) = r {
                if let Step::Next { pos: q1, state: s1, out: o1 } = step(
                    src@,
                    pos as nat,
                    state,
                    prefix,
                    cap,
                ) {
                    assert(q1 == q && s1 == s && o1.len() == d);
                    assert(run(src@, pos as nat, state, prefix, cap) == run(src@, q1, s1, o1, cap));
                }
            }
            if let Progress::End(q) = r {
                if let Step::End { pos: q1, out: o1 } = step(src@, pos as nat, state, prefix, cap) {
                    assert(q1 == q && o1 == prefix);
                }
            }
        }
        match r {
            Progress::Next(q, s, d) => {
                pos = q;
                state = s;
                dp = d;
            },
            Progress::End(q) => {
                if q != src.len() {
                    return Err(DecompressError::InvalidInput);
                }
                if dp != dst.len() {
                    return Err(DecompressError::OutputLength);
                }
                assert(dst@ =~= dst@.subrange(0, dp as int));
                return Ok(());
            },
            Progress::Fail(e) => {
                return Err(e);
            },
        }
    }
}

} // verus!
