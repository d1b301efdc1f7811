//! The output emitter shared by both compressors: literal runs and matches,
//! each written in its shortest form.
use vstd::prelude::*;

use crate::format::{
    M1_MAX_OFFSET, M2_MAX_LEN, M2_MAX_OFFSET, M2_MIN_LEN, M3_MARKER, M3_MAX_LEN, M3_MAX_OFFSET,
    M4_MARKER, M4_MAX_LEN, M4_MAX_OFFSET, MX_MAX_OFFSET,
};

verus! {

/// A length extension: one zero byte per 255 taken off `v`, then the rest.
pub open spec fn zero_ext(v: nat) -> Seq<u8>
    decreases v,
{
    if v > 255 {
        seq![0u8] + zero_ext((v - 255) as nat)
    } else {
        seq![v as u8]
    }
}

/// The instruction that starts a literal run of `t >= 4` bytes.
pub open spec fn run_header(t: nat) -> Seq<u8> {
    if t <= 18 {
        seq![(t - 3) as u8]
    } else {
        seq![0u8] + zero_ext((t - 18) as nat)
    }
}

/// `out` after the literal run `lits` is stored: a one-byte header at the
/// start of the stream, the low bits of the previous match for one to three
/// bytes, and a run instruction otherwise.
pub open spec fn with_run(out: Seq<u8>, lits: Seq<u8>) -> Seq<u8> {
    let t = lits.len();
    if out.len() == 0 && t <= 238 {
        seq![(17 + t) as u8] + lits
    } else if t <= 3 {
        out.update(out.len() - 2, out[out.len() - 2] | (t as u8)) + lits
    } else {
        out + run_header(t) + lits
    }
}

/// The two distance bytes of a medium or long match: low six bits, then the
/// next eight.
pub open spec fn distance_bytes(o: nat) -> Seq<u8> {
    seq![((o % 64) * 4) as u8, ((o / 64) % 256) as u8]
}

/// The instruction for a match of `len` bytes at distance `off`, after a
/// literal run of `r1_lit` bytes (0 when the match follows a match).
pub open spec fn match_code(len: nat, off: nat, r1_lit: nat) -> Seq<u8> {
    if len == 2 {
        let o = (off - 1) as nat;
        seq![((o % 4) * 4) as u8, (o / 4) as u8]
    } else if len <= M2_MAX_LEN && off <= M2_MAX_OFFSET {
        let o = (off - 1) as nat;
        seq![((len - 1) * 32 + (o % 8) * 4) as u8, (o / 8) as u8]
    } else if len == M2_MIN_LEN && off <= MX_MAX_OFFSET && r1_lit >= 4 {
        let o = (off - 1 - M2_MAX_OFFSET) as nat;
        seq![((o % 4) * 4) as u8, (o / 4) as u8]
    } else if off <= M3_MAX_OFFSET {
        let o = (off - 1) as nat;
        let head = if len <= M3_MAX_LEN {
            seq![(M3_MARKER + len - 2) as u8]
        } else {
            seq![M3_MARKER] + zero_ext((len - M3_MAX_LEN) as nat)
        };
        head + distance_bytes(o)
    } else {
        let o = (off - 0x4000) as nat;
        let k = ((o / 0x4000) % 2) * 8;
        let head = if len <= M4_MAX_LEN {
            seq![(M4_MARKER + k + len - 2) as u8]
        } else {
            seq![(M4_MARKER + k) as u8] + zero_ext((len - M4_MAX_LEN) as nat)
        };
        head + distance_bytes(o)
    }
}

/// A match that `match_code` can write.
pub open spec fn codable(len: nat, off: nat) -> bool {
    &&& len >= 2
    &&& 1 <= off <= M4_MAX_OFFSET
    &&& len == 2 ==> off <= M1_MAX_OFFSET
}

/// The emitter: the output written so far, and what the last run and match
/// were.
pub struct Compress {
    pub(crate) out: Vec<u8>,
    /// Length of the literal run stored before the last match, or 0.
    pub(crate) r1_lit: usize,
    /// Length of the match that followed that run, or 0.
    pub(crate) r1_m_len: usize,
    pub(crate) last_m_len: usize,
    pub(crate) last_m_off: usize,
}

impl Compress {
    /// An emitter with no output yet.
    pub(crate) fn new() -> (r: Self)
        ensures
            r.out@.len() == 0,
            r.r1_lit == 0,
    {
        Compress { out: Vec::new(), r1_lit: 0, r1_m_len: 0, last_m_len: 0, last_m_off: 0 }
    }

    /// Writes the end-of-stream instruction and hands back the stream.
    pub(crate) fn finish(self) -> (r: Vec<u8>)
        ensures
            r@ == self.out@ + seq![0x11u8, 0u8, 0u8],
    {
        let mut out = self.out;
        out.push(0x11);
        out.push(0);
        out.push(0);
        assert(out@ =~= self.out@ + seq![0x11u8, 0u8, 0u8]);
        out
    }
}

/// Appends the length extension of `n`.
fn push_zero_ext(out: &mut Vec<u8>, n: usize)
    requires
        n >= 1,
    ensures
        final(out)@ == old(out)@ + zero_ext(n as nat),
{
    let ghost o0 = out@;
    let mut v = n;
    while v > 255
        invariant
            v >= 1,
            out@ + zero_ext(v as nat) == o0 + zero_ext(n as nat),
        decreases v,
    {
        let ghost before = out@;
        v -= 255;
        out.push(0);
        assert(before + zero_ext((v + 255) as nat) =~= out@ + zero_ext(v as nat));
    }
    let ghost before = out@;
    out.push(v as u8);
    assert(out@ =~= before + zero_ext(v as nat));
}

/// Stores the literal run `src[ii..ii + t]`.
pub(crate) fn store_run(c: &mut Compress, src: &[u8], ii: usize, t: usize)
    requires
        1 <= t,
        ii + t <= src@.len(),
        t <= 3 ==> old(c).out@.len() != 1,
    ensures
        final(c).out@ == with_run(old(c).out@, src@.subrange(ii as int, ii + t)),
        final(c).r1_lit == old(c).r1_lit,
        final(c).r1_m_len == old(c).r1_m_len,
        final(c).last_m_len == old(c).last_m_len,
        final(c).last_m_off == old(c).last_m_off,
{
    let ghost o0 = c.out@;
    if c.out.len() == 0 && t <= 238 {
        c.out.push((17 + t) as u8);
    } else if t <= 3 {
        let i = c.out.len() - 2;
        let b = c.out[i] | (t as u8);
        c.out.set(i, b);
    } else if t <= 18 {
        c.out.push((t - 3) as u8);
    } else {
        c.out.push(0);
        push_zero_ext(&mut c.out, t - 18);
    }
    let ghost head = c.out@;
    let slen = src.len();
    let mut i: usize = 0;
    while i < t
        invariant
            i <= t,
            src@.len() == slen,
            ii + t <= src@.len(),
            c.out@ == head + src@.subrange(ii as int, ii + i),
            c.r1_lit == old(c).r1_lit,
            c.r1_m_len == old(c).r1_m_len,
            c.last_m_len == old(c).last_m_len,
            c.last_m_off == old(c).last_m_off,
        decreases t - i,
    {
        c.out.push(src[ii + i]);
        assert(src@.subrange(ii as int, ii + i + 1) =~= src@.subrange(ii as int, ii + i).push(
            src@[ii + i],
        ));
        assert(c.out@ =~= head + src@.subrange(ii as int, ii + i + 1));
        i += 1;
    }
    proof {
        let lits = src@.subrange(ii as int, ii + t);
        if !(o0.len() == 0 && t <= 238) && t > 18 {
            assert(head =~= o0 + run_header(t as nat));
        }
        if !(o0.len() == 0 && t <= 238) && 3 < t <= 18 {
            assert(head =~= o0 + run_header(t as nat));
        }
        if o0.len() == 0 && t <= 238 {
            assert(head =~= seq![(17 + t) as u8]);
        }
        assert(c.out@ =~= with_run(o0, lits));
    }
}

/// Writes a match of `m_len` bytes at distance `m_off`.
pub(crate) fn code_match(c: &mut Compress, m_len: usize, m_off: usize)
    requires
        codable(m_len as nat, m_off as nat),
    ensures
        final(c).out@ == old(c).out@ + match_code(m_len as nat, m_off as nat, old(c).r1_lit as nat),
        final(c).r1_lit == old(c).r1_lit,
        final(c).r1_m_len == old(c).r1_m_len,
        final(c).last_m_len == m_len,
        final(c).last_m_off == m_off,
{
    let ghost o0 = c.out@;
    let ghost code = match_code(m_len as nat, m_off as nat, c.r1_lit as nat);
    if m_len == 2 {
        let o = m_off - 1;
        c.out.push(((o % 4) * 4) as u8);
        c.out.push((o / 4) as u8);
    } else if m_len <= M2_MAX_LEN && m_off <= M2_MAX_OFFSET {
        let o = m_off - 1;
        c.out.push(((m_len - 1) * 32 + (o % 8) * 4) as u8);
        c.out.push((o / 8) as u8);
    } else if m_len == M2_MIN_LEN && m_off <= MX_MAX_OFFSET && c.r1_lit >= 4 {
        let o = m_off - 1 - M2_MAX_OFFSET;
        c.out.push(((o % 4) * 4) as u8);
        c.out.push((o / 4) as u8);
    } else if m_off <= M3_MAX_OFFSET {
        let o = m_off - 1;
        if m_len <= M3_MAX_LEN {
            c.out.push((M3_MARKER as usize + m_len - 2) as u8);
        } else {
            c.out.push(M3_MARKER);
            push_zero_ext(&mut c.out, m_len - M3_MAX_LEN);
        }
        c.out.push(((o % 64) * 4) as u8);
        c.out.push(((o / 64) % 256) as u8);
    } else {
        let o = m_off - 0x4000;
        let k = ((o / 0x4000) % 2) * 8;
        if m_len <= M4_MAX_LEN {
            c.out.push((M4_MARKER as usize + k + m_len - 2) as u8);
        } else {
            c.out.push((M4_MARKER as usize + k) as u8);
            push_zero_ext(&mut c.out, m_len - M4_MAX_LEN);
        }
        c.out.push(((o % 64) * 4) as u8);
        c.out.push(((o / 64) % 256) as u8);
    }
    assert(c.out@ =~= o0 + code);
    c.last_m_len = m_len;
    c.last_m_off = m_off;
}

/// Stores the pending literal run, if any, before a match of `m_len` bytes,
/// and records it for the choice of that match's form.
pub(crate) fn code_run(c: &mut Compress, src: &[u8], ii: usize, lit: usize, m_len: usize)
    requires
        lit > 0 ==> ii + lit <= src@.len(),
        lit > 0 && lit <= 3 ==> old(c).out@.len() != 1,
    ensures
        lit > 0 ==> final(c).out@ == with_run(old(c).out@, src@.subrange(ii as int, ii + lit)),
        lit == 0 ==> final(c).out@ == old(c).out@,
        final(c).r1_lit == lit,
        final(c).r1_m_len == (if lit > 0 { m_len } else { 0 }),
        final(c).last_m_len == old(c).last_m_len,
        final(c).last_m_off == old(c).last_m_off,
{
    if lit > 0 {
        store_run(c, src, ii, lit);
        c.r1_m_len = m_len;
        c.r1_lit = lit;
    } else {
        c.r1_m_len = 0;
        c.r1_lit = 0;
    }
}

/// A length extension of `v` has at most one zero byte per 255 in `v`.
pub proof fn lemma_zero_ext_size(v: nat)
    requires
        v >= 1,
    ensures
        zero_ext(v).len() >= 1,
        255 * (zero_ext(v).len() - 1) < v,
{
    crate::stream::lemma_zero_ext_shape(v);
}

/// Storing a run of `t` literals costs them plus at most one byte and one
/// more per 16 of them, and at most two bytes and one more per 255.
pub proof fn lemma_run_cost(out: Seq<u8>, lits: Seq<u8>)
    requires
        lits.len() >= 1,
        lits.len() <= 3 ==> out.len() != 1,
    ensures
        with_run(out, lits).len() <= out.len() + lits.len() + 1 + lits.len() / 16,
        with_run(out, lits).len() <= out.len() + lits.len() + 2 + lits.len() / 255,
{
    let t = lits.len();
    if !(out.len() == 0 && t <= 238) && t > 18 {
        let v = (t - 18) as nat;
        lemma_zero_ext_size(v);
        let z = (zero_ext(v).len() - 1) as nat;
        assert(run_header(t).len() == 2 + z);
        assert(16 * (1 + z) <= t) by (nonlinear_arith)
            requires
                255 * z < v,
                v == t - 18,
        ;
        assert(255 * z <= t) by (nonlinear_arith)
            requires
                255 * z < v,
                v == t - 18,
        ;
    }
}

/// A match of four bytes or more is written in fewer bytes than it holds.
pub proof fn lemma_match_saves(len: nat, off: nat, r1: nat)
    requires
        len >= 4,
    ensures
        match_code(len, off, r1).len() + 1 <= len,
{
    if len > M3_MAX_LEN {
        lemma_zero_ext_size((len - M3_MAX_LEN) as nat);
    }
    if len > M4_MAX_LEN {
        lemma_zero_ext_size((len - M4_MAX_LEN) as nat);
    }
}

/// A match is never written in more bytes than it holds, and in fewer where
/// it is four bytes or more, or a three-byte match with a short form.
pub proof fn lemma_match_cost(len: nat, off: nat, r1: nat)
    requires
        len >= 2,
    ensures
        match_code(len, off, r1).len() <= len,
        (len >= 4 || (len == 3 && off <= M2_MAX_OFFSET) || (len == 3 && off <= MX_MAX_OFFSET
            && r1 >= 4)) ==> match_code(len, off, r1).len() + 1 <= len,
{
    if len >= 4 {
        lemma_match_saves(len, off, r1);
    }
}

/// One instruction as the emitter writes it.
pub enum Token {
    /// A literal run.
    Run { lits: Seq<u8> },
    /// A match of `len` bytes at distance `off`, in the form chosen after a
    /// run of `r1` bytes.
    Match { len: nat, off: nat, r1: nat },
}

/// `out` with the token `t` written after it.
pub open spec fn write_token(out: Seq<u8>, t: Token) -> Seq<u8> {
    match t {
        Token::Run { lits } => with_run(out, lits),
        Token::Match { len, off, r1 } => out + match_code(len, off, r1),
    }
}

/// The bytes the emitter writes for `toks`, in order.
pub open spec fn encode(toks: Seq<Token>) -> Seq<u8>
    decreases toks.len(),
{
    if toks.len() == 0 {
        Seq::empty()
    } else {
        write_token(encode(toks.drop_last()), toks.last())
    }
}

/// How many bytes a token stands for.
pub open spec fn token_len(t: Token) -> nat {
    match t {
        Token::Run { lits } => lits.len(),
        Token::Match { len, .. } => len,
    }
}

/// How many bytes `toks` stand for.
pub open spec fn tokens_len(toks: Seq<Token>) -> nat
    decreases toks.len(),
{
    if toks.len() == 0 {
        0
    } else {
        tokens_len(toks.drop_last()) + token_len(toks.last())
    }
}

/// Writing one more token.
pub proof fn lemma_encode_push(toks: Seq<Token>, t: Token)
    ensures
        encode(toks.push(t)) == write_token(encode(toks), t),
        tokens_len(toks.push(t)) == tokens_len(toks) + token_len(t),
{
    assert(toks.push(t).drop_last() =~= toks);
}

} // verus!
