//! Why the emitter's output decodes to what it was given: each instruction
//! that the emitter writes, read back by the decoding model, appends exactly
//! its bytes to the output.
use vstd::prelude::*;

use crate::DecompressError;
use crate::emit::{codable, distance_bytes, match_code, run_header, with_run, zero_ext};
use crate::format::{
    copy_match, decode, lemma_copy_match_len, match_length, match_then_literals, run, step, zero_run,
    zeros_from, LitState, Step, M2_MAX_OFFSET, MAX_ZERO_RUN, MX_MAX_OFFSET,
};

verus! {

/// Longest literal run or match whose length extension the decoder accepts.
pub open spec fn max_extent() -> nat {
    (255 * MAX_ZERO_RUN) as nat
}

/// Decoding any stream that starts with `e` reaches the end of `e` in state
/// `st`, having produced `out`.
pub open spec fn reaches(e: Seq<u8>, st: LitState, out: Seq<u8>, cap: nat) -> bool {
    forall|t: Seq<u8>| #[trigger] decode(e + t, cap) == run(e + t, e.len(), st, out, cap)
}

/// What the emitter wrote last.
pub enum Tail {
    /// Nothing yet.
    Empty,
    /// A literal run, after which decoding is in state `st`.
    Run { st: LitState },
    /// A match of `len` bytes at `off`, written from `start` on after a point
    /// that decoding reaches in state `st0`; its trailing literal bits are 0.
    Match { start: nat, st0: LitState, len: nat, off: nat },
}

/// The state in which a match written after `tail` is decoded.
pub open spec fn state_after(tail: Tail) -> LitState {
    match tail {
        Tail::Run { st } => st,
        _ => LitState::Zero,
    }
}

/// The forms that depend on the state are met in the state they need: a
/// two-byte match after a short run, a far three-byte one after a long run.
pub open spec fn fits_state(st: LitState, len: nat, off: nat, r1: nat) -> bool {
    &&& len == 2 ==> st == LitState::Short
    &&& (len == 3 && M2_MAX_OFFSET < off <= MX_MAX_OFFSET && r1 >= 4) ==> st == LitState::Long
    &&& (len == 3 && M2_MAX_OFFSET < off <= MX_MAX_OFFSET && st == LitState::Long) ==> r1 >= 4
}

/// `e` is what the emitter wrote, with `tail` last and `r1` the run length it
/// chose its last match form by; `e` followed by an end marker decodes to
/// `out`, with room for `cap` bytes.
pub open spec fn emitted(e: Seq<u8>, tail: Tail, r1: nat, out: Seq<u8>, cap: nat) -> bool {
    &&& out.len() <= cap
    &&& match tail {
        Tail::Empty => e.len() == 0 && out.len() == 0,
        Tail::Run { st } => st != LitState::Zero && e.len() >= 2 && reaches(e, st, out, cap),
        Tail::Match { start, st0, len, off } => {
            let out0 = out.subrange(0, (out.len() - len) as int);
            &&& start <= e.len()
            &&& len <= out.len()
            &&& reaches(e.subrange(0, start as int), st0, out0, cap)
            &&& e.subrange(start as int, e.len() as int) == match_code(len, off, r1)
            &&& codable(len, off)
            &&& off <= out0.len()
            &&& out == copy_match(out0, off, len)
            &&& fits_state(st0, len, off, r1)
            &&& len <= max_extent()
        },
    }
}

proof fn lemma_or_low(b: u8, k: u8)
    requires
        b % 4 == 0,
        k <= 3,
    ensures
        b | k == b + k,
{
    assert(b % 4 == 0 && k <= 3 ==> b | k == b + k) by (bit_vector);
}

proof fn lemma_or_zero(b: u8)
    ensures
        b | 0u8 == b,
{
    assert(b | 0u8 == b) by (bit_vector);
}

/// A length extension is zeros and then a non-zero byte that, with 255 for
/// each zero, makes up the value.
pub proof fn lemma_zero_ext_shape(v: nat)
    requires
        v >= 1,
    ensures
        zero_ext(v).len() >= 1,
        forall|i: int| 0 <= i < zero_ext(v).len() - 1 ==> zero_ext(v)[i] == 0,
        zero_ext(v)[zero_ext(v).len() - 1] != 0,
        zero_ext(v)[zero_ext(v).len() - 1] + 255 * (zero_ext(v).len() - 1) == v,
    decreases v,
{
    if v > 255 {
        lemma_zero_ext_shape((v - 255) as nat);
        let z = zero_ext((v - 255) as nat);
        assert(zero_ext(v) == seq![0u8] + z);
        assert forall|i: int| 0 <= i < zero_ext(v).len() - 1 implies zero_ext(v)[i] == 0 by {
            if i > 0 {
                assert(zero_ext(v)[i] == z[i - 1]);
            }
        }
        assert(zero_ext(v)[zero_ext(v).len() - 1] == z[z.len() - 1]);
    }
}

proof fn lemma_zeros_count(s: Seq<u8>, p: int, m: nat)
    requires
        0 <= p,
        p + m < s.len(),
        forall|i: int| p <= i < p + m ==> s[i] == 0,
        s[p + m] != 0,
    ensures
        zeros_from(s, p) == m,
    decreases m,
{
    if m > 0 {
        lemma_zeros_count(s, p + 1, (m - 1) as nat);
    }
}

/// A length extension of `v` at `p` reads back as `v + base`.
proof fn lemma_read_ext(s: Seq<u8>, p: nat, v: nat, base: nat)
    requires
        1 <= v <= max_extent(),
        p + zero_ext(v).len() <= s.len(),
        s.subrange(p as int, (p + zero_ext(v).len()) as int) == zero_ext(v),
    ensures
        zero_run(s, p, base) == Some(((v + base) as nat, p + zero_ext(v).len())),
{
    lemma_zero_ext_shape(v);
    let z = zero_ext(v);
    let m = (z.len() - 1) as nat;
    assert forall|i: int| p <= i < p + m implies s[i] == 0 by {
        assert(s[i] == z[i - p]);
    }
    assert(s[p + m as int] == z[m as int]);
    lemma_zeros_count(s, p as int, m);
    assert(255 * m < v);
    assert(m < MAX_ZERO_RUN) by (nonlinear_arith)
        requires
            255 * m < v,
            v <= 255 * MAX_ZERO_RUN,
    ;
}

/// A literal run instruction of `lits.len() >= 4` bytes at `p`, in state
/// `Zero`.
pub proof fn lemma_run_instr(s: Seq<u8>, p: nat, lits: Seq<u8>, out: Seq<u8>, cap: nat)
    requires
        4 <= lits.len() <= max_extent(),
        p + run_header(lits.len()).len() + lits.len() <= s.len(),
        s.subrange(p as int, (p + run_header(lits.len()).len()) as int) == run_header(lits.len()),
        s.subrange(
            (p + run_header(lits.len()).len()) as int,
            (p + run_header(lits.len()).len() + lits.len()) as int) == lits,
        out.len() + lits.len() <= cap,
    ensures
        step(s, p, LitState::Zero, out, cap) == (Step::Next {
            pos: p + run_header(lits.len()).len() + lits.len(),
            state: LitState::Long,
            out: out + lits,
        }),
{
    reveal(step);
    let t = lits.len();
    let h = run_header(t);
    assert(s[p as int] == h[0]);
    if t > 18 {
        let z = zero_ext((t - 18) as nat);
        assert(h == seq![0u8] + z);
        assert(s.subrange((p + 1) as int, (p + 1 + z.len()) as int) =~= z) by {
            assert forall|i: int| 0 <= i < z.len() implies s.subrange((p + 1) as int, (p + 1 + z.len()) as int)[i]
                == z[i] by {
                assert(s[p + 1 + i] == h[1 + i]);
            }
        }
        lemma_read_ext(s, p + 1, (t - 18) as nat, 18);
    }
}

/// The match part of an instruction is decoded: the copy, then the `k`
/// trailing literals that the low bits of `sub` announce.
proof fn lemma_match_tail(
    s: Seq<u8>,
    q: nat,
    len: nat,
    off: nat,
    sub: u8,
    k: nat,
    lits: Seq<u8>,
    out: Seq<u8>,
    cap: nat,
)
    requires
        sub % 4 == k,
        lits.len() == k,
        q + k <= s.len(),
        s.subrange(q as int, (q + k) as int) == lits,
        1 <= off <= out.len(),
        out.len() + len + k <= cap,
    ensures
        match_then_literals(s, q, len, off, sub, out, cap) == (Step::Next {
            pos: q + k,
            state: if k == 0 {
                LitState::Zero
            } else {
                LitState::Short
            },
            out: copy_match(out, off, len) + lits,
        }),
{
    lemma_copy_match_len(out, off, len);
    let o = copy_match(out, off, len);
    if k == 0 {
        assert(o + lits =~= o);
    }
}

/// `s` holds at `p` the instruction `code`, with `k` added to its
/// second-to-last byte.
pub open spec fn holds_patched(s: Seq<u8>, p: nat, code: Seq<u8>, k: nat) -> bool {
    &&& code.len() >= 2
    &&& p + code.len() <= s.len()
    &&& forall|i: int| 0 <= i < code.len() && i != code.len() - 2 ==> s[p + i] == code[i]
    &&& s[p + code.len() - 2] == code[code.len() - 2] + k
}

/// A two-byte match after a short run (instruction 0..15 in that state).
proof fn lemma_pair_form(s: Seq<u8>, p: nat, off: nat, k: nat, out: Seq<u8>, cap: nat)
    requires
        1 <= off <= 0x400,
        k <= 3,
        p + 2 <= s.len(),
        s[p as int] == ((off - 1) as nat % 4) * 4 + k,
        s[p + 1int] == (off - 1) as nat / 4,
    ensures
        step(s, p, LitState::Short, out, cap) == match_then_literals(
            s,
            p + 2,
            2,
            off,
            s[p as int],
            out,
            cap,
        ),
        s[p as int] % 4 == k,
{
    reveal(step);
}

/// A far three-byte match after a long run (instruction 0..15 in that state).
proof fn lemma_far_form(s: Seq<u8>, p: nat, off: nat, k: nat, out: Seq<u8>, cap: nat)
    requires
        0x800 < off <= 0xc00,
        k <= 3,
        p + 2 <= s.len(),
        s[p as int] == ((off - 1 - 0x800) as nat % 4) * 4 + k,
        s[p + 1int] == (off - 1 - 0x800) as nat / 4,
    ensures
        step(s, p, LitState::Long, out, cap) == match_then_literals(
            s,
            p + 2,
            3,
            off,
            s[p as int],
            out,
            cap,
        ),
        s[p as int] % 4 == k,
{
    reveal(step);
}

/// A tiny or small match (instruction 64..255), in any state.
#[verifier::spinoff_prover]
#[verifier::rlimit(50)]
proof fn lemma_small_form(
    s: Seq<u8>,
    p: nat,
    len: nat,
    off: nat,
    k: nat,
    st0: LitState,
    out: Seq<u8>,
    cap: nat,
)
    requires
        3 <= len <= 8,
        1 <= off <= 0x800,
        k <= 3,
        p + 2 <= s.len(),
        s[p as int] == (len - 1) * 32 + ((off - 1) as nat % 8) * 4 + k,
        s[p + 1int] == (off - 1) as nat / 8,
    ensures
        step(s, p, st0, out, cap) == match_then_literals(s, p + 2, len, off, s[p as int], out, cap),
        s[p as int] % 4 == k,
{
    let o = (off - 1) as nat;
    lemma_small_arith(len, o, k);
    reveal(step);
}

proof fn lemma_small_arith(len: nat, o: nat, k: nat)
    requires
        3 <= len <= 8,
        k <= 3,
        o < 0x800,
    ensures
        ((len - 1) * 32 + (o % 8) * 4 + k) / 32 == len - 1,
        (((len - 1) * 32 + (o % 8) * 4 + k) / 4) % 8 == o % 8,
        ((len - 1) * 32 + (o % 8) * 4 + k) % 4 == k,
        (o / 8) * 8 + o % 8 == o,
{
    let x = (o % 8) * 4 + k;
    assert(x < 32);
    assert(((len - 1) * 32 + x) / 32 == len - 1);
    assert(((len - 1) * 32 + x) / 4 == (len - 1) * 8 + o % 8);
}

proof fn lemma_long_arith(o: nat)
    requires
        o < 0x8000,
    ensures
        (o / 0x4000) % 2 * 16384 + ((o / 64) % 256) * 64 + o % 64 == o,
{
}

/// Two-byte forms: a match of two bytes after a short run, a tiny or small
/// match, and a far three-byte match after a long run.
#[verifier::spinoff_prover]
#[verifier::rlimit(50)]
proof fn lemma_short_form(
    s: Seq<u8>,
    p: nat,
    len: nat,
    off: nat,
    r1: nat,
    k: nat,
    st0: LitState,
    out: Seq<u8>,
    cap: nat,
)
    requires
        codable(len, off),
        fits_state(st0, len, off, r1),
        match_code(len, off, r1).len() == 2,
        holds_patched(s, p, match_code(len, off, r1), k),
        k <= 3,
    ensures
        step(s, p, st0, out, cap) == match_then_literals(
            s,
            p + 2,
            len,
            off,
            s[p as int],
            out,
            cap,
        ),
        s[p as int] % 4 == k,
{
    let code = match_code(len, off, r1);
    assert(s[p + 1int] == code[1]);
    assert(s[p as int] == code[0] + k);
    if len == 2 {
        lemma_pair_form(s, p, off, k, out, cap);
    } else if len <= 8 && off <= 0x800 {
        lemma_small_form(s, p, len, off, k, st0, out, cap);
    } else {
        lemma_far_form(s, p, off, k, out, cap);
    }
}

/// Medium matches (instruction 32..63), with or without a length extension.
#[verifier::spinoff_prover]
#[verifier::rlimit(50)]
proof fn lemma_medium_form(
    s: Seq<u8>,
    p: nat,
    len: nat,
    off: nat,
    r1: nat,
    k: nat,
    st0: LitState,
    out: Seq<u8>,
    cap: nat,
)
    requires
        codable(len, off),
        len <= max_extent(),
        len >= 3,
        !(len <= 8 && off <= 0x800),
        !(len == 3 && off <= 0xc00 && r1 >= 4),
        off <= 0x4000,
        holds_patched(s, p, match_code(len, off, r1), k),
        k <= 3,
    ensures
        step(s, p, st0, out, cap) == match_then_literals(
            s,
            p + match_code(len, off, r1).len(),
            len,
            off,
            s[p + match_code(len, off, r1).len() - 2],
            out,
            cap,
        ),
        s[p + match_code(len, off, r1).len() - 2] % 4 == k,
{
    reveal(step);
    let code = match_code(len, off, r1);
    let o = (off - 1) as nat;
    let n = code.len();
    let d = distance_bytes(o);
    assert(s[p + n - 2] == (o % 64) * 4 + k);
    assert(s[p + n - 1] == code[n - 1]);
    assert(code[n - 1] == (o / 64) % 256);
    if len <= 33 {
        assert(code =~= seq![(32 + len - 2) as u8] + d);
        assert(s[p as int] == 30 + len);
    } else {
        let v = (len - 33) as nat;
        let z = zero_ext(v);
        assert(code =~= (seq![32u8] + z) + d);
        assert(s[p as int] == 32);
        assert(s.subrange((p + 1) as int, (p + 1 + z.len()) as int) =~= z) by {
            assert forall|i: int| 0 <= i < z.len() implies s.subrange((p + 1) as int, (p + 1 + z.len()) as int)[i]
                == z[i] by {
                assert(s[p + 1 + i] == code[1 + i]);
            }
        }
        lemma_read_ext(s, p + 1, v, 33);
        assert(match_length(s, p + 1, 32, 32, 33) == Some((len, p + 1 + z.len())));
    }
}

/// Long matches (instruction 16..31), with or without a length extension.
#[verifier::spinoff_prover]
#[verifier::rlimit(50)]
proof fn lemma_long_form(
    s: Seq<u8>,
    p: nat,
    len: nat,
    off: nat,
    r1: nat,
    k: nat,
    st0: LitState,
    out: Seq<u8>,
    cap: nat,
)
    requires
        codable(len, off),
        len <= max_extent(),
        len >= 3,
        off > 0x4000,
        holds_patched(s, p, match_code(len, off, r1), k),
        k <= 3,
    ensures
        step(s, p, st0, out, cap) == match_then_literals(
            s,
            p + match_code(len, off, r1).len(),
            len,
            off,
            s[p + match_code(len, off, r1).len() - 2],
            out,
            cap,
        ),
        s[p + match_code(len, off, r1).len() - 2] % 4 == k,
{
    reveal(step);
    let code = match_code(len, off, r1);
    let o = (off - 0x4000) as nat;
    let hb = ((o / 0x4000) % 2) * 8;
    let n = code.len();
    let d = distance_bytes(o);
    assert(s[p + n - 2] == (o % 64) * 4 + k);
    assert(s[p + n - 1] == code[n - 1]);
    assert(code[n - 1] == (o / 64) % 256);
    lemma_long_arith(o);
    if len <= 9 {
        assert(code =~= seq![(16 + hb + len - 2) as u8] + d);
        assert(s[p as int] == 16 + hb + len - 2);
    } else {
        let v = (len - 9) as nat;
        let z = zero_ext(v);
        assert(code =~= (seq![(16 + hb) as u8] + z) + d);
        assert(s[p as int] == 16 + hb);
        assert(s.subrange((p + 1) as int, (p + 1 + z.len()) as int) =~= z) by {
            assert forall|i: int| 0 <= i < z.len() implies s.subrange((p + 1) as int, (p + 1 + z.len()) as int)[i]
                == z[i] by {
                assert(s[p + 1 + i] == code[1 + i]);
            }
        }
        lemma_read_ext(s, p + 1, v, 9);
        assert(match_length(s, p + 1, s[p as int], 8, 9) == Some((len, p + 1 + z.len())));
    }
}

/// A match instruction at `p`, with trailing-literal bits `k` and the `k`
/// literals `lits` after it, in the state `st0` that it fits.
#[verifier::spinoff_prover]
#[verifier::rlimit(50)]
pub proof fn lemma_match_instr(
    s: Seq<u8>,
    p: nat,
    len: nat,
    off: nat,
    r1: nat,
    k: nat,
    lits: Seq<u8>,
    st0: LitState,
    out: Seq<u8>,
    cap: nat,
)
    requires
        codable(len, off),
        fits_state(st0, len, off, r1),
        len <= max_extent(),
        off <= out.len(),
        out.len() + len + k <= cap,
        k <= 3,
        lits.len() == k,
        p + match_code(len, off, r1).len() + k <= s.len(),
        s.subrange(p as int, (p + match_code(len, off, r1).len()) as int) == ({
            let code = match_code(len, off, r1);
            code.update(code.len() - 2, code[code.len() - 2] | (k as u8))
        }),
        s.subrange(
            (p + match_code(len, off, r1).len()) as int,
            (p + match_code(len, off, r1).len() + k) as int) == lits,
    ensures
        step(s, p, st0, out, cap) == (Step::Next {
            pos: p + match_code(len, off, r1).len() + k,
            state: if k == 0 {
                LitState::Zero
            } else {
                LitState::Short
            },
            out: copy_match(out, off, len) + lits,
        }),
{
    let code = match_code(len, off, r1);
    let n = code.len();
    let b = code[n - 2];
    assert(n >= 2);
    assert(b % 4 == 0);
    lemma_or_low(b, k as u8);
    assert forall|i: int| 0 <= i < n implies #[trigger] s[p + i] == code.update(n - 2, b | (k as u8))[i] by {
        assert(s.subrange(p as int, (p + n) as int)[i] == s[p + i]);
    }
    assert(s[p + (n - 2)] == b + k);
    assert forall|i: int| 0 <= i < n && i != n - 2 implies #[trigger] s[p + i] == code[i] by {
        assert(s[p + i] == code.update(n - 2, b | (k as u8))[i]);
    }
    assert(holds_patched(s, p, code, k));
    let q = p + n;
    if n == 2 {
        lemma_short_form(s, p, len, off, r1, k, st0, out, cap);
    } else if off <= 0x4000 {
        lemma_medium_form(s, p, len, off, r1, k, st0, out, cap);
    } else {
        lemma_long_form(s, p, len, off, r1, k, st0, out, cap);
    }
    lemma_match_tail(s, q, len, off, s[q - 2], k, lits, out, cap);
}

/// Decoding a stream that starts with `e ++ b` reaches the end of `b` when
/// decoding from the end of `e` steps over `b` whatever follows.
proof fn lemma_reaches_step(
    e: Seq<u8>,
    b: Seq<u8>,
    st: LitState,
    out: Seq<u8>,
    st2: LitState,
    out2: Seq<u8>,
    cap: nat,
)
    requires
        reaches(e, st, out, cap),
        b.len() > 0,
        forall|t: Seq<u8>|
            #[trigger] step(e + b + t, e.len(), st, out, cap) == (Step::Next {
                pos: e.len() + b.len(),
                state: st2,
                out: out2,
            }),
    ensures
        reaches(e + b, st2, out2, cap),
{
    assert forall|t: Seq<u8>| #[trigger]
        decode((e + b) + t, cap) == run((e + b) + t, (e + b).len(), st2, out2, cap) by {
        assert((e + b) + t =~= e + (b + t));
        assert(step(e + b + t, e.len(), st, out, cap) == Step::Next {
            pos: e.len() + b.len(),
            state: st2,
            out: out2,
        });
        assert(decode(e + (b + t), cap) == run(e + (b + t), e.len(), st, out, cap));
    }
}

/// A match keeps what was decoded before it.
pub proof fn lemma_copy_match_prefix(out: Seq<u8>, dist: nat, len: nat)
    ensures
        copy_match(out, dist, len).len() == out.len() + len,
        copy_match(out, dist, len).subrange(0, out.len() as int) == out,
    decreases len,
{
    lemma_copy_match_len(out, dist, len);
    if len > 0 {
        lemma_copy_match_prefix(out, dist, (len - 1) as nat);
        let o = copy_match(out, dist, (len - 1) as nat);
        assert(o.push(o[o.len() - dist]).subrange(0, out.len() as int) =~= o.subrange(
            0,
            out.len() as int,
        ));
    }
}

/// A match at `pos` in `s` copies the bytes that follow `pos`.
pub proof fn lemma_copy_match_source(s: Seq<u8>, pos: nat, off: nat, len: nat)
    requires
        1 <= off <= pos,
        pos + len <= s.len(),
        forall|i: int| 0 <= i < len ==> s[pos + i] == #[trigger] s[pos - off + i],
    ensures
        copy_match(s.subrange(0, pos as int), off, len) == s.subrange(0, (pos + len) as int),
    decreases len,
{
    if len > 0 {
        lemma_copy_match_source(s, pos, off, (len - 1) as nat);
        let o = s.subrange(0, (pos + len - 1) as int);
        assert(s[pos + (len - 1)] == s[pos - off + (len - 1)]);
        assert(o.push(o[o.len() - off]) =~= s.subrange(0, (pos + len) as int));
    }
}

/// The end-of-stream instruction, in any state.
proof fn lemma_end_instr(s: Seq<u8>, p: nat, st: LitState, out: Seq<u8>, cap: nat)
    requires
        p + 3 <= s.len(),
        s[p as int] == 0x11,
        s[p + 1int] == 0,
        s[p + 2int] == 0,
    ensures
        step(s, p, st, out, cap) == (Step::End { pos: p + 3, out }),
{
    reveal(step);
}

/// After a match with no trailing literals, decoding reaches its end in state
/// `Zero`.
proof fn lemma_close_match(e: Seq<u8>, tail: Tail, r1: nat, out: Seq<u8>, cap: nat)
    requires
        emitted(e, tail, r1, out, cap),
        tail is Match,
    ensures
        reaches(e, LitState::Zero, out, cap),
{
    if let Tail::Match { start, st0, len, off } = tail {
        let e0 = e.subrange(0, start as int);
        let code = match_code(len, off, r1);
        let out0 = out.subrange(0, (out.len() - len) as int);
        lemma_copy_match_prefix(out0, off, len);
        lemma_or_zero(code[code.len() - 2]);
        assert(code.update(code.len() - 2, code[code.len() - 2] | 0u8) =~= code);
        assert forall|t: Seq<u8>| #[trigger]
            step(e0 + code + t, e0.len(), st0, out0, cap) == (Step::Next {
                pos: e0.len() + code.len(),
                state: LitState::Zero,
                out: out,
            }) by {
            let s = e0 + code + t;
            assert(s.subrange(e0.len() as int, (e0.len() + code.len()) as int) =~= code);
            assert(s.subrange(
                (e0.len() + code.len()) as int,
                (e0.len() + code.len()) as int,
            ) =~= Seq::<u8>::empty());
            lemma_match_instr(s, e0.len(), len, off, r1, 0, Seq::empty(), st0, out0, cap);
            assert(out + Seq::<u8>::empty() =~= out);
        }
        lemma_reaches_step(e0, code, st0, out0, LitState::Zero, out, cap);
        assert(e0 + code =~= e);
    }
}

/// Storing a literal run keeps the emitted stream decodable.
#[verifier::spinoff_prover]
#[verifier::rlimit(50)]
pub proof fn lemma_emit_run(
    e: Seq<u8>,
    tail: Tail,
    r1: nat,
    out: Seq<u8>,
    cap: nat,
    lits: Seq<u8>,
    r1_next: nat,
)
    requires
        emitted(e, tail, r1, out, cap),
        !(tail is Run),
        1 <= lits.len() <= max_extent(),
        out.len() + lits.len() <= cap,
    ensures
        emitted(
            with_run(e, lits),
            Tail::Run {
                st: if lits.len() <= 3 {
                    LitState::Short
                } else {
                    LitState::Long
                },
            },
            r1_next,
            out + lits,
            cap,
        ),
{
    let t = lits.len();
    let e2 = with_run(e, lits);
    let st = if t <= 3 {
        LitState::Short
    } else {
        LitState::Long
    };
    if e.len() == 0 && t <= 238 {
        assert(out =~= Seq::<u8>::empty());
        assert forall|u: Seq<u8>| #[trigger]
            decode(e2 + u, cap) == run(e2 + u, e2.len(), st, out + lits, cap) by {
            let s = e2 + u;
            assert(s[0] == 17 + t);
            assert(s.subrange(1, 1 + t as int) =~= lits);
            assert(out + lits =~= lits);
        }
    } else if e.len() == 0 {
        let h = run_header(t);
        assert(tail is Empty);
        assert(out =~= Seq::<u8>::empty());
        assert(e2 =~= h + lits);
        assert forall|u: Seq<u8>| #[trigger]
            decode(e2 + u, cap) == run(e2 + u, e2.len(), st, out + lits, cap) by {
            let s = e2 + u;
            assert(s[0] == h[0]);
            assert(s.subrange(0, h.len() as int) =~= h);
            assert(s.subrange(h.len() as int, (h.len() + t) as int) =~= lits);
            lemma_run_instr(s, 0, lits, out, cap);
        }
    } else if let Tail::Match { start, st0, len, off } = tail {
        let e0 = e.subrange(0, start as int);
        let code = match_code(len, off, r1);
        let out0 = out.subrange(0, (out.len() - len) as int);
        lemma_copy_match_prefix(out0, off, len);
        if t <= 3 {
            let pc = code.update(code.len() - 2, code[code.len() - 2] | (t as u8));
            let b = pc + lits;
            assert(e2 =~= e0 + b);
            assert forall|u: Seq<u8>| #[trigger]
                step(e0 + b + u, e0.len(), st0, out0, cap) == (Step::Next {
                    pos: e0.len() + b.len(),
                    state: LitState::Short,
                    out: out + lits,
                }) by {
                let s = e0 + b + u;
                assert(s.subrange(e0.len() as int, (e0.len() + code.len()) as int) =~= pc);
                assert(s.subrange(
                    (e0.len() + code.len()) as int,
                    (e0.len() + code.len() + t) as int,
                ) =~= lits);
                lemma_match_instr(s, e0.len(), len, off, r1, t, lits, st0, out0, cap);
            }
            lemma_reaches_step(e0, b, st0, out0, LitState::Short, out + lits, cap);
        } else {
            lemma_close_match(e, tail, r1, out, cap);
            let h = run_header(t);
            let b = h + lits;
            assert(e2 =~= e + b);
            assert forall|u: Seq<u8>| #[trigger]
                step(e + b + u, e.len(), LitState::Zero, out, cap) == (Step::Next {
                    pos: e.len() + b.len(),
                    state: LitState::Long,
                    out: out + lits,
                }) by {
                let s = e + b + u;
                assert(s.subrange(e.len() as int, (e.len() + h.len()) as int) =~= h);
                assert(s.subrange((e.len() + h.len()) as int, (e.len() + h.len() + t) as int)
                    =~= lits);
                lemma_run_instr(s, e.len(), lits, out, cap);
            }
            lemma_reaches_step(e, b, LitState::Zero, out, LitState::Long, out + lits, cap);
        }
    }
}

/// Writing a match, in the form chosen by `r1_next`, keeps the emitted
/// stream decodable.
pub proof fn lemma_emit_match(
    e: Seq<u8>,
    tail: Tail,
    r1: nat,
    r1_next: nat,
    out: Seq<u8>,
    cap: nat,
    len: nat,
    off: nat,
)
    requires
        emitted(e, tail, r1, out, cap),
        !(tail is Empty),
        codable(len, off),
        fits_state(state_after(tail), len, off, r1_next),
        off <= out.len(),
        out.len() + len <= cap,
        len <= max_extent(),
    ensures
        emitted(
            e + match_code(len, off, r1_next),
            Tail::Match { start: e.len(), st0: state_after(tail), len, off },
            r1_next,
            copy_match(out, off, len),
            cap,
        ),
{
    if tail is Match {
        lemma_close_match(e, tail, r1, out, cap);
    }
    let e2 = e + match_code(len, off, r1_next);
    let o2 = copy_match(out, off, len);
    lemma_copy_match_prefix(out, off, len);
    assert(e2.subrange(0, e.len() as int) =~= e);
    assert(e2.subrange(e.len() as int, e2.len() as int) =~= match_code(len, off, r1_next));
    assert(o2.subrange(0, (o2.len() - len) as int) =~= out);
}

/// The end-of-stream instruction after the emitted stream: decoding yields
/// exactly `out` when it fills the buffer.
pub proof fn lemma_emit_end(e: Seq<u8>, tail: Tail, r1: nat, out: Seq<u8>, cap: nat)
    requires
        emitted(e, tail, r1, out, cap),
        out.len() == cap,
    ensures
        decode(e + seq![0x11u8, 0u8, 0u8], cap) == Ok::<Seq<u8>, DecompressError>(out),
{
    let f = seq![0x11u8, 0u8, 0u8];
    let s = e + f;
    assert(s[e.len() as int] == 0x11 && s[e.len() + 1int] == 0 && s[e.len() + 2int] == 0);
    match tail {
        Tail::Empty => {
            assert(s =~= f);
            lemma_end_instr(s, 0, LitState::Zero, out, cap);
            assert(out =~= Seq::<u8>::empty());
        },
        Tail::Run { st } => {
            assert(decode(e + f, cap) == run(e + f, e.len(), st, out, cap));
            lemma_end_instr(s, e.len(), st, out, cap);
        },
        Tail::Match { .. } => {
            lemma_close_match(e, tail, r1, out, cap);
            assert(decode(e + f, cap) == run(e + f, e.len(), LitState::Zero, out, cap));
            lemma_end_instr(s, e.len(), LitState::Zero, out, cap);
        },
    }
}

/// A slice never holds more bytes than a literal run or match can announce.
pub proof fn lemma_slice_extent(n: nat)
    requires
        n <= isize::MAX,
    ensures
        n <= max_extent(),
{
}

} // verus!
