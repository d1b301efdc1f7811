//! The LZO1X instruction grammar, as a model of decoding.
//!
//! A stream is decoded instruction by instruction; the meaning of an
//! instruction byte below 16 depends on the length class of the literal run
//! that came just before it ([`LitState`]).
use vstd::prelude::*;

use crate::DecompressError;

verus! {

/// Longest zero run accepted inside a length extension.
pub const MAX_ZERO_RUN: usize = usize::MAX / 255 - 2;

/// Largest distance of a two-byte match after a short literal run.
pub const M1_MAX_OFFSET: usize = 0x0400;
/// Largest distance of a tiny or small match (instruction 64..255).
pub const M2_MAX_OFFSET: usize = 0x0800;
/// Largest distance of a medium match (instruction 32..63).
pub const M3_MAX_OFFSET: usize = 0x4000;
/// Largest distance of a long match (instruction 16..31).
pub const M4_MAX_OFFSET: usize = 0xbfff;
/// Largest distance of a three-byte match after a long literal run.
pub const MX_MAX_OFFSET: usize = 0x0c00;
/// Shortest match that the tiny/small forms hold.
pub const M2_MIN_LEN: usize = 3;
/// Longest match that the tiny/small forms hold.
pub const M2_MAX_LEN: usize = 8;
/// Longest medium match without a length extension.
pub const M3_MAX_LEN: usize = 33;
/// Longest long match without a length extension.
pub const M4_MAX_LEN: usize = 9;
/// First byte of a medium match.
pub const M3_MARKER: u8 = 32;
/// First byte of a long match.
pub const M4_MARKER: u8 = 16;

/// Length class of the literal run that precedes an instruction.
#[derive(Clone, Copy, Debug, PartialEq, Eq, Structural)]
pub enum LitState {
    /// No literal bytes.
    Zero,
    /// One to three literal bytes.
    Short,
    /// Four or more literal bytes.
    Long,
}

/// Outcome of decoding one instruction.
pub enum Step {
    /// The instruction was decoded; decoding goes on at `pos`.
    Next { pos: nat, state: LitState, out: Seq<u8> },
    /// The end-of-stream instruction ends at `pos`.
    End { pos: nat, out: Seq<u8> },
    /// The instruction is rejected.
    Fail { err: DecompressError },
}

/// Number of zero bytes of `s` from `p` on.
pub open spec fn zeros_from(s: Seq<u8>, p: int) -> nat
    decreases s.len() - p,
{
    if 0 <= p < s.len() && s[p] == 0 {
        1 + zeros_from(s, p + 1)
    } else {
        0
    }
}

/// A length extension at `p`: `k` zero bytes and then a non-zero byte `r`
/// give `k * 255 + r + base`. Returns the value and the position after it.
pub open spec fn zero_run(s: Seq<u8>, p: nat, base: nat) -> Option<(nat, nat)> {
    let k = zeros_from(s, p as int);
    if p + k >= s.len() || k > MAX_ZERO_RUN {
        None
    } else {
        Some(((k * 255 + s[p + k as int] + base) as nat, (p + k + 1) as nat))
    }
}

/// `out` followed by `len` bytes, each copied from `dist` bytes before it.
pub open spec fn copy_match(out: Seq<u8>, dist: nat, len: nat) -> Seq<u8>
    decreases len,
{
    if len == 0 {
        out
    } else {
        let o = copy_match(out, dist, (len - 1) as nat);
        o.push(o[o.len() - dist])
    }
}

/// A match adds exactly its length to the output.
pub proof fn lemma_copy_match_len(out: Seq<u8>, dist: nat, len: nat)
    ensures
        copy_match(out, dist, len).len() == out.len() + len,
    decreases len,
{
    if len > 0 {
        lemma_copy_match_len(out, dist, (len - 1) as nat);
    }
}

/// `n` literal bytes at `p` appended to `out`, with the state that follows.
pub open spec fn literals(
    s: Seq<u8>,
    p: nat,
    n: nat,
    out: Seq<u8>,
    cap: nat,
    next: LitState,
) -> Step {
    if n > s.len() - p {
        Step::Fail { err: DecompressError::InvalidInput }
    } else if out.len() + n > cap {
        Step::Fail { err: DecompressError::OutputLength }
    } else {
        Step::Next { pos: p + n, state: next, out: out + s.subrange(p as int, p + n as int) }
    }
}

/// A match of `len` bytes at distance `dist`, then the trailing literals that
/// the low two bits of `sub` count; `p` is the position after the match bytes.
pub open spec fn match_then_literals(
    s: Seq<u8>,
    p: nat,
    len: nat,
    dist: nat,
    sub: u8,
    out: Seq<u8>,
    cap: nat,
) -> Step {
    if dist > out.len() {
        Step::Fail { err: DecompressError::InvalidInput }
    } else if out.len() + len > cap {
        Step::Fail { err: DecompressError::OutputLength }
    } else {
        let o = copy_match(out, dist, len);
        let n = (sub % 4) as nat;
        if n == 0 {
            Step::Next { pos: p, state: LitState::Zero, out: o }
        } else {
            literals(s, p, n, o, cap, LitState::Short)
        }
    }
}

/// The length of a match whose instruction keeps it under `mask`, extended by
/// a zero run when those bits are all zero.
pub open spec fn match_length(s: Seq<u8>, p: nat, insn: u8, mask: nat, base: nat) -> Option<(nat, nat)> {
    if insn as nat % mask == 0 {
        zero_run(s, p, base)
    } else {
        Some(((insn as nat % mask) + 2, p))
    }
}

/// Decodes the instruction at `pos`, with `out` decoded so far and room for
/// `cap` bytes in all.
#[verifier::opaque]
pub open spec fn step(s: Seq<u8>, pos: nat, st: LitState, out: Seq<u8>, cap: nat) -> Step {
    if pos >= s.len() {
        Step::Fail { err: DecompressError::InvalidInput }
    } else {
        let insn = s[pos as int];
        let p = pos + 1;
        if insn < 16 {
            match st {
                LitState::Zero => {
                    let run = if insn == 0 {
                        zero_run(s, p, 18)
                    } else {
                        Some(((insn + 3) as nat, p))
                    };
                    match run {
                        None => Step::Fail { err: DecompressError::InvalidInput },
                        Some((n, q)) => literals(s, q, n, out, cap, LitState::Long),
                    }
                },
                _ => {
                    if p >= s.len() {
                        Step::Fail { err: DecompressError::InvalidInput }
                    } else {
                        let (len, base) = if st == LitState::Short {
                            (2nat, 1nat)
                        } else {
                            (3nat, 2049nat)
                        };
                        let dist = (s[p as int] * 4 + insn / 4 + base) as nat;
                        match_then_literals(s, p + 1, len, dist, insn, out, cap)
                    }
                },
            }
        } else if insn < 64 {
            let long = insn < 32;
            match match_length(s, p, insn, if long { 8 } else { 32 }, if long { 9 } else { 33 }) {
                None => Step::Fail { err: DecompressError::InvalidInput },
                Some((len, q)) => {
                    if q + 2 > s.len() {
                        Step::Fail { err: DecompressError::InvalidInput }
                    } else {
                        let d0 = s[q as int];
                        let d1 = s[q + 1int];
                        if long {
                            let dist = ((insn / 8) % 2 * 16384 + d1 * 64 + d0 / 4 + 16384) as nat;
                            if dist == 16384 {
                                Step::End { pos: q + 2, out }
                            } else {
                                match_then_literals(s, q + 2, len, dist, d0, out, cap)
                            }
                        } else {
                            let dist = (d1 * 64 + d0 / 4 + 1) as nat;
                            match_then_literals(s, q + 2, len, dist, d0, out, cap)
                        }
                    }
                },
            }
        } else if p >= s.len() {
            Step::Fail { err: DecompressError::InvalidInput }
        } else {
            let len = if insn < 128 {
                (3 + (insn / 32) % 2) as nat
            } else {
                (5 + (insn / 32) % 4) as nat
            };
            let dist = (s[p as int] * 8 + (insn / 4) % 8 + 1) as nat;
            match_then_literals(s, p + 1, len, dist, insn, out, cap)
        }
    }
}

/// Decodes instructions from `pos` on until the end-of-stream instruction,
/// which must be the last bytes of `s` and leave exactly `cap` bytes.
pub open spec fn run(s: Seq<u8>, pos: nat, st: LitState, out: Seq<u8>, cap: nat) -> Result<
    Seq<u8>,
    DecompressError,
>
    decreases s.len() - pos,
{
    match step(s, pos, st, out, cap) {
        Step::Next { pos: q, state, out: o } => {
            if pos < q <= s.len() {
                run(s, q, state, o, cap)
            } else {
                Err(DecompressError::InvalidInput)
            }
        },
        Step::End { pos: q, out: o } => {
            if q != s.len() {
                Err(DecompressError::InvalidInput)
            } else if o.len() != cap {
                Err(DecompressError::OutputLength)
            } else {
                Ok(o)
            }
        },
        Step::Fail { err } => Err(err),
    }
}

/// What the stream `s` decodes to, for an output buffer of `cap` bytes.
///
/// A first byte above 17 is a literal run of `s[0] - 17` bytes; any other
/// first byte starts an ordinary instruction.
pub open spec fn decode(s: Seq<u8>, cap: nat) -> Result<Seq<u8>, DecompressError> {
    if s.len() == 0 {
        Err(DecompressError::InvalidInput)
    } else if s[0] <= 17 {
        run(s, 0, LitState::Zero, Seq::empty(), cap)
    } else {
        let n = (s[0] - 17) as nat;
        if n > s.len() - 1 {
            Err(DecompressError::InvalidInput)
        } else if n > cap {
            Err(DecompressError::OutputLength)
        } else {
            let st = if s[0] <= 20 {
                LitState::Short
            } else {
                LitState::Long
            };
            run(s, 1 + n, st, s.subrange(1, 1 + n as int), cap)
        }
    }
}

} // verus!
