//! The optimizer: rewrites a compressed stream in place, turning short
//! matches between literal runs into literals where that lets two runs share
//! one instruction.
use vstd::prelude::*;

use crate::decompress::{decompress, read_zero_run};
use crate::format::{copy_match, decode, lemma_copy_match_len, zero_run, LitState};
use crate::{filled, DecompressError};

verus! {

/// Writes the two match bytes that start at `m_pos` of the decoded output into
/// `src` at `i`; `off` is the match distance, and a distance of 1 repeats one
/// byte.
fn copy2(src: &mut Vec<u8>, i: usize, dst: &Vec<u8>, m_pos: usize, off: usize)
    requires
        i + 2 <= old(src).len(),
        m_pos + (if off == 1 {
            1usize
        } else {
            2usize
        }) <= dst.len(),
    ensures
        final(src)@ == old(src)@.update(i as int, dst@[m_pos as int]).update(
            i + 1,
            if off == 1 {
                dst@[m_pos as int]
            } else {
                dst@[m_pos + 1]
            },
        ),
{
    src.set(i, dst[m_pos]);
    if off == 1 {
        src.set(i + 1, dst[m_pos]);
    } else {
        src.set(i + 1, dst[m_pos + 1]);
    }
}

/// Writes the three match bytes that start at `m_pos` of the decoded output
/// into `src` at `i`; `off` is the match distance, and distances of 1 and 2
/// repeat their pattern.
fn copy3(src: &mut Vec<u8>, i: usize, dst: &Vec<u8>, m_pos: usize, off: usize)
    requires
        i + 3 <= old(src).len(),
        m_pos + (if off == 1 {
            1usize
        } else if off == 2 {
            2usize
        } else {
            3usize
        }) <= dst.len(),
    ensures
        final(src)@ == old(src)@.update(i as int, dst@[m_pos as int]).update(
            i + 1,
            if off == 1 {
                dst@[m_pos as int]
            } else {
                dst@[m_pos + 1]
            },
        ).update(
            i + 2,
            if off == 1 {
                dst@[m_pos as int]
            } else if off == 2 {
                dst@[m_pos as int]
            } else {
                dst@[m_pos + 2]
            },
        ),
{
    src.set(i, dst[m_pos]);
    if off == 1 {
        src.set(i + 1, dst[m_pos]);
        src.set(i + 2, dst[m_pos]);
    } else if off == 2 {
        src.set(i + 1, dst[m_pos + 1]);
        src.set(i + 2, dst[m_pos]);
    } else {
        src.set(i + 1, dst[m_pos + 1]);
        src.set(i + 2, dst[m_pos + 2]);
    }
}

/// The bytes that `copy2` writes.
pub open spec fn set2(s: Seq<u8>, i: int, dst: Seq<u8>, m_pos: int, off: int) -> Seq<u8> {
    s.update(i, dst[m_pos]).update(
        i + 1,
        if off == 1 {
            dst[m_pos]
        } else {
            dst[m_pos + 1]
        },
    )
}

/// The bytes that `copy3` writes.
pub open spec fn set3(s: Seq<u8>, i: int, dst: Seq<u8>, m_pos: int, off: int) -> Seq<u8> {
    s.update(i, dst[m_pos]).update(
        i + 1,
        if off == 1 {
            dst[m_pos]
        } else {
            dst[m_pos + 1]
        },
    ).update(
        i + 2,
        if off <= 2 {
            dst[m_pos]
        } else {
            dst[m_pos + 2]
        },
    )
}

/// `out` with `k` literal bytes of `s` from `ip` written at `op`.
pub open spec fn put_lits(out: Seq<u8>, op: int, s: Seq<u8>, ip: int, k: int) -> Seq<u8> {
    out.subrange(0, op) + s.subrange(ip, ip + k) + out.subrange(op + k, out.len() as int)
}

/// `out` with a match of `k` bytes at distance `back` written at `op`.
pub open spec fn put_back(out: Seq<u8>, op: int, back: int, k: int) -> Seq<u8> {
    copy_match(out.subrange(0, op), back as nat, k as nat) + out.subrange(op + k, out.len() as int)
}

/// `s` with the `lit` bytes at `p` moved one place on.
pub open spec fn shifted(s: Seq<u8>, p: int, lit: int) -> Seq<u8> {
    s.subrange(0, p + 1) + s.subrange(p, p + lit) + s.subrange(p + lit + 1, s.len() as int)
}

/// Where the optimizer stands between two instructions: the stream as
/// rewritten so far, the output decoded so far, the two cursors, the byte
/// that holds the count of the last literal run and that count, the trailing
/// count of a match whose bytes were rewritten, and the decoding state.
pub struct OptState {
    pub s: Seq<u8>,
    pub out: Seq<u8>,
    pub ip: int,
    pub op: int,
    pub litp: int,
    pub has_litp: bool,
    pub lit: int,
    pub next_lit: Option<int>,
    pub st: LitState,
}

/// What one instruction does to the optimizer.
pub enum OptStep {
    /// Go on from this state.
    Go(OptState),
    /// The end of the stream; the rewritten stream.
    Done(Seq<u8>),
    /// The stream does not read as expected; nothing is rewritten.
    Stop,
}

/// The end of a match of `m_len` bytes at distance `back`: the copy, then its
/// trailing literals.
pub open spec fn opt_finish(x: OptState, m_len: int, back: int) -> OptStep {
    if !(1 <= back <= x.op && x.op + m_len <= x.out.len()) {
        OptStep::Stop
    } else {
        let out = put_back(x.out, x.op, back, m_len);
        let op = x.op + m_len;
        let (tl, litp, has_litp, lit) = match x.next_lit {
            Some(v) => (v, x.litp, x.has_litp, x.lit),
            None => (
                (x.s[x.ip - 2] % 4) as int,
                x.ip - 2,
                true,
                (x.s[x.ip - 2] % 4) as int,
            ),
        };
        if tl == 0 {
            OptStep::Go(
                OptState {
                    out,
                    op,
                    litp,
                    has_litp,
                    lit,
                    next_lit: None,
                    st: LitState::Zero,
                    ..x
                },
            )
        } else if !(x.ip + tl <= x.s.len() && op + tl <= out.len()) {
            OptStep::Stop
        } else {
            OptStep::Go(
                OptState {
                    out: put_lits(out, op, x.s, x.ip, tl),
                    op: op + tl,
                    ip: x.ip + tl,
                    litp,
                    has_litp,
                    lit,
                    next_lit: None,
                    st: LitState::Short,
                    ..x
                },
            )
        }
    }
}

/// A match of `k` bytes (at `m_pos`, distance `back`) and the literal run of
/// `nx + 3` bytes after it join the short run before them: its count byte is
/// cleared, the run's bytes move one place on, and a run instruction takes
/// their old place.
pub open spec fn opt_join(x: OptState, k: int, nx: int, m_pos: int, back: int) -> OptStep {
    let ip = x.ip + 1;
    let s1 = x.s.update(x.litp, ((x.s[x.litp] / 4) * 4) as u8);
    let s2 = if k == 2 {
        set2(s1, ip - 2, x.out, m_pos, back)
    } else {
        set3(s1, ip - 3, x.out, m_pos, back)
    };
    let litp = x.litp + 2;
    if litp >= x.s.len() || x.s.len() - litp < x.lit + 1 {
        OptStep::Stop
    } else {
        let s3 = if x.lit > 0 {
            shifted(s2, litp, x.lit)
        } else {
            s2
        };
        let lit = x.lit + k + nx + 3;
        let s4 = s3.update(litp, (lit - 3) as u8);
        if !(1 <= back <= x.op && x.op + k <= x.out.len()) {
            OptStep::Stop
        } else {
            let out = put_back(x.out, x.op, back, k);
            let op = x.op + k;
            if !(ip + nx + 3 <= x.s.len() && op + nx + 3 <= out.len()) {
                OptStep::Stop
            } else {
                OptStep::Go(
                    OptState {
                        s: s4,
                        out: put_lits(out, op, s4, ip, nx + 3),
                        ip: ip + nx + 3,
                        op: op + nx + 3,
                        litp,
                        lit,
                        st: LitState::Long,
                        ..x
                    },
                )
            }
        }
    }
}

/// A literal run instruction `t` whose count follows at `x.ip`.
pub open spec fn opt_run_instr(x: OptState, t: int) -> OptStep {
    let r = if t == 0 {
        zero_run(x.s, x.ip as nat, 18)
    } else {
        Some(((t + 3) as nat, x.ip as nat))
    };
    match r {
        None => OptStep::Stop,
        Some((len, q)) => {
            if !(q + len <= x.s.len() && x.op + len <= x.out.len()) {
                OptStep::Stop
            } else {
                OptStep::Go(
                    OptState {
                        out: put_lits(x.out, x.op, x.s, q as int, len as int),
                        ip: (q + len) as int,
                        op: x.op + len,
                        litp: x.ip - 1,
                        has_litp: true,
                        lit: len as int,
                        st: LitState::Long,
                        ..x
                    },
                )
            }
        },
    }
}

/// An instruction `t` below 16 after literals: a two-byte match after a short
/// run, or a far three-byte match after a long one.
pub open spec fn opt_m1(x: OptState, t: int) -> OptStep {
    if x.ip >= x.s.len() {
        OptStep::Stop
    } else {
        let d = x.s[x.ip] as int;
        let x = OptState { ip: x.ip + 1, ..x };
        if x.st == LitState::Long {
            opt_finish(OptState { lit: 0, ..x }, 3, 1 + 0x800 + t / 4 + d * 4)
        } else {
            let back = 1 + t / 4 + d * 4;
            if back > x.op || x.out.len() - (x.op - back) < 2 {
                OptStep::Stop
            } else if !x.has_litp {
                opt_finish(x, 2, back)
            } else if x.ip >= x.s.len() {
                OptStep::Stop
            } else {
                let m_pos = x.op - back;
                let nl = t % 4;
                let nx = x.s[x.ip] as int;
                if nl == 0 && x.lit == 1 && nx >= 16 {
                    let lit = x.lit + 2;
                    let s1 = x.s.update(x.litp, ((x.s[x.litp] / 4) * 4 + lit) as u8);
                    let s2 = set2(s1, x.ip - 2, x.out, m_pos, back);
                    opt_finish(OptState { s: s2, lit, next_lit: Some(0), ..x }, 2, back)
                } else if nl == 0 && nx < 16 && nx != 0 && x.lit < 16 && x.lit + 2 + nx < 16 {
                    opt_join(x, 2, nx, m_pos, back)
                } else {
                    opt_finish(x, 2, back)
                }
            }
        }
    }
}

/// A tiny or small match `t` (64..255).
pub open spec fn opt_m2(x: OptState, t: int) -> OptStep {
    if x.ip >= x.s.len() {
        OptStep::Stop
    } else {
        let d = x.s[x.ip] as int;
        let x = OptState { ip: x.ip + 1, ..x };
        let m_len = t / 32 + 1;
        let back = 1 + (t / 4) % 8 + d * 8;
        if !(x.has_litp && m_len == 3 && x.lit > 3) {
            opt_finish(x, m_len, back)
        } else if x.ip >= x.s.len() {
            OptStep::Stop
        } else {
            let nl = t % 4;
            let nx = x.s[x.ip] as int;
            if nl == 0 && nx < 16 && nx != 0 && x.lit < 16 && x.lit + 3 + nx < 16 {
                if back > x.op || x.out.len() - (x.op - back) < 3 {
                    OptStep::Stop
                } else {
                    let m_pos = x.op - back;
                    let ip = x.ip + 1;
                    let s1 = set3(x.s, ip - 3, x.out, m_pos, back);
                    let lit = x.lit + 3 + nx + 3;
                    let s2 = s1.update(x.litp, (lit - 3) as u8);
                    if !(1 <= back <= x.op && x.op + 3 <= x.out.len()) {
                        OptStep::Stop
                    } else {
                        let out = put_back(x.out, x.op, back, 3);
                        let op = x.op + 3;
                        if !(ip + nx + 3 <= x.s.len() && op + nx + 3 <= out.len()) {
                            OptStep::Stop
                        } else {
                            OptStep::Go(
                                OptState {
                                    s: s2,
                                    out: put_lits(out, op, s2, ip, nx + 3),
                                    ip: ip + nx + 3,
                                    op: op + nx + 3,
                                    lit,
                                    st: LitState::Long,
                                    ..x
                                },
                            )
                        }
                    }
                }
            } else {
                opt_finish(x, m_len, back)
            }
        }
    }
}

/// A medium or long match `t` (16..63), or the end of the stream.
pub open spec fn opt_m34(x: OptState, t: int) -> OptStep {
    let long = t < 32;
    let mask: int = if long {
        8
    } else {
        32
    };
    let r = if t % mask == 0 {
        zero_run(
            x.s,
            x.ip as nat,
            if long {
                9
            } else {
                33
            },
        )
    } else {
        Some(((t % mask + 2) as nat, x.ip as nat))
    };
    match r {
        None => OptStep::Stop,
        Some((m_len, q)) => {
            if x.s.len() - q < 2 {
                OptStep::Stop
            } else {
                let d0 = x.s[q as int] as int;
                let d1 = x.s[q + 1int] as int;
                let ip = q + 2;
                let dist = (t / 8) % 2 * 0x4000 + d0 / 4 + d1 * 64;
                if long && dist == 0 {
                    OptStep::Done(x.s)
                } else {
                    let back = if long {
                        dist + 0x4000
                    } else {
                        1 + d0 / 4 + d1 * 64
                    };
                    let x = OptState { ip: ip as int, ..x };
                    if !(x.has_litp && m_len == 3 && x.lit <= 3) {
                        opt_finish(x, m_len as int, back)
                    } else if ip >= x.s.len() {
                        OptStep::Stop
                    } else if back > x.op || x.out.len() - (x.op - back) < 3 {
                        OptStep::Stop
                    } else {
                        let m_pos = x.op - back;
                        let nl = d0 % 4;
                        let nx = x.s[ip as int] as int;
                        if x.lit == 0 && nl == 0 && nx >= 16 {
                            let lit = x.lit + 3;
                            let s1 = x.s.update(x.litp, ((x.s[x.litp] / 4) * 4 + lit) as u8);
                            let s2 = set3(s1, ip - 3, x.out, m_pos, back);
                            opt_finish(
                                OptState { s: s2, lit, next_lit: Some(0), ..x },
                                m_len as int,
                                back,
                            )
                        } else if nl == 0 && nx < 16 && nx != 0 && x.lit < 16 && x.lit + 3 + nx
                            < 16 {
                            opt_join(x, 3, nx, m_pos, back)
                        } else {
                            opt_finish(x, m_len as int, back)
                        }
                    }
                }
            }
        },
    }
}

/// One instruction of the optimizer.
#[verifier::opaque]
pub open spec fn opt_step(x: OptState) -> OptStep {
    if x.ip >= x.s.len() {
        OptStep::Stop
    } else {
        let t = x.s[x.ip] as int;
        let y = OptState { ip: x.ip + 1, ..x };
        if t < 16 && x.st == LitState::Zero {
            opt_run_instr(y, t)
        } else if t < 16 {
            opt_m1(y, t)
        } else if t >= 64 {
            opt_m2(y, t)
        } else {
            opt_m34(y, t)
        }
    }
}

/// The optimizer from `x` to the end of the stream: the rewritten stream, or
/// `None` where it stops.
pub open spec fn opt_from(x: OptState) -> Option<Seq<u8>>
    decreases x.s.len() - x.ip,
{
    if x.ip < 0 {
        None
    } else {
        match opt_step(x) {
            OptStep::Go(y) => {
                if x.ip < y.ip <= x.s.len() && y.s.len() == x.s.len() {
                    opt_from(y)
                } else {
                    None
                }
            },
            OptStep::Done(t) => Some(t),
            OptStep::Stop => None,
        }
    }
}

/// The stream `s`, which decodes to `n` bytes, after the merge rules: a
/// two-byte match after a one-byte run and before a match becomes two more
/// literals of that run; a three-byte medium or long match after a match
/// without literals and before a match becomes three literals; and a two- or
/// three-byte match between a short literal run (or, for a three-byte tiny
/// match, a long run of at most 15 bytes) and a literal run joins both into
/// one run, where the joined run fits one instruction byte. `None` where the
/// stream does not read as expected.
pub open spec fn optimized(s: Seq<u8>, n: nat) -> Option<Seq<u8>> {
    let out0 = Seq::new(n, |i: int| 0u8);
    let x0 = OptState {
        s,
        out: out0,
        ip: 0,
        op: 0,
        litp: 0,
        has_litp: false,
        lit: 0,
        next_lit: None,
        st: LitState::Zero,
    };
    if s.len() == 0 {
        None
    } else if s[0] > 17 {
        let t = s[0] - 17;
        if !(1 + t <= s.len() && t <= n) {
            None
        } else {
            opt_from(
                OptState {
                    out: put_lits(out0, 0, s, 1, t),
                    ip: 1 + t,
                    op: t,
                    st: if t < 4 {
                        LitState::Short
                    } else {
                        LitState::Long
                    },
                    ..x0
                },
            )
        }
    } else {
        opt_from(x0)
    }
}

/// The optimizer's working state.
struct Opt {
    s: Vec<u8>,
    out: Vec<u8>,
    ip: usize,
    op: usize,
    litp: usize,
    has_litp: bool,
    lit: usize,
    next_lit: Option<usize>,
    st: LitState,
}

impl Opt {
    spec fn view(&self) -> OptState {
        OptState {
            s: self.s@,
            out: self.out@,
            ip: self.ip as int,
            op: self.op as int,
            litp: self.litp as int,
            has_litp: self.has_litp,
            lit: self.lit as int,
            next_lit: match self.next_lit {
                Some(v) => Some(v as int),
                None => None,
            },
            st: self.st,
        }
    }

    /// The cursors lie within their buffers.
    spec fn inv(&self) -> bool {
        &&& self.ip <= self.s@.len()
        &&& self.op <= self.out@.len()
        &&& self.s@.len() <= usize::MAX
        &&& self.out@.len() <= usize::MAX
        &&& self.has_litp ==> self.litp < self.ip
        &&& self.next_lit matches Some(v) ==> v == 0
        &&& self.lit <= usize::MAX
    }
}

/// `r` reports `e`, and on `Go` the state `x` is the one it gives.
spec fn reports(r: u8, x: &Opt, e: OptStep, n: nat, m: nat) -> bool {
    match e {
        OptStep::Go(y) => r == 0 && x.view() == y && x.inv() && x.s@.len() == n && x.out@.len()
            == m,
        OptStep::Done(t) => r == 1 && x.s@ == t && x.s@.len() == n,
        OptStep::Stop => r == 2,
    }
}

/// Copies `k` literal bytes of `s` at `ip` to the output at `op`; false where
/// either side is too short.
fn take_lits(s: &Vec<u8>, ip: usize, out: &mut Vec<u8>, op: usize, k: usize) -> (r: bool)
    ensures
        final(out)@.len() == old(out)@.len(),
        r == (ip + k <= s@.len() && op + k <= old(out)@.len()),
        r ==> final(out)@ == put_lits(old(out)@, op as int, s@, ip as int, k as int),
        !r ==> final(out)@ == old(out)@,
{
    if ip > s.len() || k > s.len() - ip || op > out.len() || k > out.len() - op {
        return false;
    }
    let ghost o0 = out@;
    let mut i: usize = 0;
    while i < k
        invariant
            i <= k,
            ip + k <= s.len(),
            op + k <= out.len(),
            out@.len() == o0.len(),
            out@ == o0.subrange(0, op as int) + s@.subrange(ip as int, ip + i) + o0.subrange(
                op + i,
                o0.len() as int,
            ),
        decreases k - i,
    {
        out.set(op + i, s[ip + i]);
        i += 1;
        assert(out@ =~= o0.subrange(0, op as int) + s@.subrange(ip as int, ip + i) + o0.subrange(
            op + i,
            o0.len() as int,
        ));
    }
    true
}

/// Copies `k` bytes to the output at `op` from `back` bytes before it; false
/// where the distance or the length does not fit.
fn take_back(out: &mut Vec<u8>, op: usize, back: usize, k: usize) -> (r: bool)
    ensures
        final(out)@.len() == old(out)@.len(),
        r == (1 <= back <= op && op + k <= old(out)@.len()),
        r ==> final(out)@ == put_back(old(out)@, op as int, back as int, k as int),
        !r ==> final(out)@ == old(out)@,
{
    if back == 0 || back > op || op > out.len() || k > out.len() - op {
        return false;
    }
    let ghost o0 = out@;
    let ghost pre = o0.subrange(0, op as int);
    let mut i: usize = 0;
    while i < k
        invariant
            i <= k,
            1 <= back <= op,
            op + k <= out.len(),
            out@.len() == o0.len(),
            pre.len() == op,
            out@ == copy_match(pre, back as nat, i as nat) + o0.subrange(op + i, o0.len() as int),
        decreases k - i,
    {
        proof {
            lemma_copy_match_len(pre, back as nat, i as nat);
        }
        let b = out[op + i - back];
        out.set(op + i, b);
        i += 1;
        proof {
            lemma_copy_match_len(pre, back as nat, i as nat);
        }
        assert(out@ =~= copy_match(pre, back as nat, i as nat) + o0.subrange(
            op + i,
            o0.len() as int,
        ));
    }
    true
}

/// Moves the `lit` bytes at `p` one place on.
fn shift_literals(s: &mut Vec<u8>, p: usize, lit: usize)
    requires
        p + lit + 1 <= old(s).len(),
    ensures
        final(s)@ == shifted(old(s)@, p as int, lit as int),
{
    let ghost s0 = s@;
    let mut j = lit;
    while j > 0
        invariant
            j <= lit,
            p + lit + 1 <= s.len(),
            s@.len() == s0.len(),
            s@ == s0.subrange(0, p + j + 1) + s0.subrange(p + j, p + lit) + s0.subrange(
                p + lit + 1,
                s0.len() as int,
            ),
        decreases j,
    {
        let ghost a = s0.subrange(0, p + j + 1);
        let ghost rest = s0.subrange(p + j, p + lit) + s0.subrange(p + lit + 1, s0.len() as int);
        assert(s@ =~= a + rest);
        j -= 1;
        let b = s[p + j];
        assert(s@[p + j] == (a + rest)[p + j]);
        assert(b == a[p + j]);
        s.set(p + j + 1, b);
        assert(s@ =~= s0.subrange(0, p + j + 1) + s0.subrange(p + j, p + lit) + s0.subrange(
            p + lit + 1,
            s0.len() as int,
        ));
    }
}

/// The end of a match: the copy, then its trailing literals.
fn finish(x: &mut Opt, m_len: usize, back: usize) -> (r: u8)
    requires
        old(x).inv(),
        old(x).ip >= 2,
    ensures
        reports(
            r,
            final(x),
            opt_finish(old(x).view(), m_len as int, back as int),
            old(x).s@.len(),
            old(x).out@.len(),
        ),
{
    if !take_back(&mut x.out, x.op, back, m_len) {
        return 2;
    }
    x.op = x.op + m_len;
    let tl = match x.next_lit {
        Some(v) => v,
        None => {
            x.litp = x.ip - 2;
            x.has_litp = true;
            x.lit = (x.s[x.ip - 2] % 4) as usize;
            x.lit
        },
    };
    x.next_lit = None;
    if tl == 0 {
        x.st = LitState::Zero;
    } else {
        if !take_lits(&x.s, x.ip, &mut x.out, x.op, tl) {
            return 2;
        }
        x.ip = x.ip + tl;
        x.op = x.op + tl;
        x.st = LitState::Short;
    }
    0
}

/// Joins a match of `k` bytes and the next literal run to the short run
/// before them.
fn join(x: &mut Opt, k: usize, nx: usize, m_pos: usize, back: usize) -> (r: u8)
    requires
        old(x).inv(),
        old(x).has_litp,
        k == 2 || k == 3,
        old(x).ip >= k,
        old(x).ip < old(x).s@.len(),
        m_pos + k <= old(x).out@.len(),
        nx < 16,
        old(x).lit < 16,
    ensures
        reports(
            r,
            final(x),
            opt_join(old(x).view(), k as int, nx as int, m_pos as int, back as int),
            old(x).s@.len(),
            old(x).out@.len(),
        ),
{
    let n = x.s.len();
    x.ip = x.ip + 1;
    let b = (x.s[x.litp] / 4) * 4;
    x.s.set(x.litp, b);
    if k == 2 {
        copy2(&mut x.s, x.ip - 2, &x.out, m_pos, back);
    } else {
        copy3(&mut x.s, x.ip - 3, &x.out, m_pos, back);
    }
    x.litp = x.litp + 2;
    if x.litp >= n || n - x.litp < x.lit + 1 {
        return 2;
    }
    if x.lit > 0 {
        shift_literals(&mut x.s, x.litp, x.lit);
    }
    x.lit = x.lit + k + nx + 3;
    x.s.set(x.litp, (x.lit - 3) as u8);
    if !take_back(&mut x.out, x.op, back, k) {
        return 2;
    }
    x.op = x.op + k;
    if !take_lits(&x.s, x.ip, &mut x.out, x.op, nx + 3) {
        return 2;
    }
    x.ip = x.ip + nx + 3;
    x.op = x.op + nx + 3;
    x.st = LitState::Long;
    0
}

/// A literal run instruction `t`.
fn run_instr(x: &mut Opt, t: u8) -> (r: u8)
    requires
        old(x).inv(),
        old(x).ip >= 1,
        t < 16,
    ensures
        reports(
            r,
            final(x),
            opt_run_instr(old(x).view(), t as int),
            old(x).s@.len(),
            old(x).out@.len(),
        ),
{
    let (len, q) = if t == 0 {
        match read_zero_run(x.s.as_slice(), x.ip, 18) {
            Some(v) => v,
            None => {
                return 2;
            },
        }
    } else {
        (t as usize + 3, x.ip)
    };
    if !take_lits(&x.s, q, &mut x.out, x.op, len) {
        return 2;
    }
    x.litp = x.ip - 1;
    x.has_litp = true;
    x.lit = len;
    x.ip = q + len;
    x.op = x.op + len;
    x.st = LitState::Long;
    0
}

/// An instruction `t` below 16 after literals.
fn m1(x: &mut Opt, t: u8) -> (r: u8)
    requires
        old(x).inv(),
        old(x).ip >= 1,
        t < 16,
    ensures
        reports(r, final(x), opt_m1(old(x).view(), t as int), old(x).s@.len(), old(x).out@.len()),
{
    let n = x.s.len();
    if x.ip >= n {
        return 2;
    }
    let d = x.s[x.ip] as usize;
    x.ip = x.ip + 1;
    if x.st == LitState::Long {
        x.lit = 0;
        return finish(x, 3, 1 + 0x800 + (t / 4) as usize + d * 4);
    }
    let back = 1 + (t / 4) as usize + d * 4;
    if back > x.op || x.out.len() - (x.op - back) < 2 {
        return 2;
    }
    if !x.has_litp {
        return finish(x, 2, back);
    }
    if x.ip >= n {
        return 2;
    }
    let m_pos = x.op - back;
    let nl = t % 4;
    let nx = x.s[x.ip] as usize;
    if nl == 0 && x.lit == 1 && nx >= 16 {
        x.lit = x.lit + 2;
        let b = (x.s[x.litp] / 4) * 4 + x.lit as u8;
        x.s.set(x.litp, b);
        copy2(&mut x.s, x.ip - 2, &x.out, m_pos, back);
        x.next_lit = Some(0);
        finish(x, 2, back)
    } else if nl == 0 && nx < 16 && nx != 0 && x.lit < 16 && x.lit + 2 + nx < 16 {
        join(x, 2, nx, m_pos, back)
    } else {
        finish(x, 2, back)
    }
}

/// A tiny or small match `t`.
fn m2(x: &mut Opt, t: u8) -> (r: u8)
    requires
        old(x).inv(),
        old(x).ip >= 1,
        t >= 64,
    ensures
        reports(r, final(x), opt_m2(old(x).view(), t as int), old(x).s@.len(), old(x).out@.len()),
{
    let n = x.s.len();
    if x.ip >= n {
        return 2;
    }
    let d = x.s[x.ip] as usize;
    x.ip = x.ip + 1;
    let m_len = (t / 32) as usize + 1;
    let back = 1 + ((t / 4) % 8) as usize + d * 8;
    if !(x.has_litp && m_len == 3 && x.lit > 3) {
        return finish(x, m_len, back);
    }
    if x.ip >= n {
        return 2;
    }
    let nl = t % 4;
    let nx = x.s[x.ip] as usize;
    if nl == 0 && nx < 16 && nx != 0 && x.lit < 16 && x.lit + 3 + nx < 16 {
        if back > x.op || x.out.len() - (x.op - back) < 3 {
            return 2;
        }
        let m_pos = x.op - back;
        x.ip = x.ip + 1;
        copy3(&mut x.s, x.ip - 3, &x.out, m_pos, back);
        x.lit = x.lit + 3 + nx + 3;
        x.s.set(x.litp, (x.lit - 3) as u8);
        if !take_back(&mut x.out, x.op, back, 3) {
            return 2;
        }
        x.op = x.op + 3;
        if !take_lits(&x.s, x.ip, &mut x.out, x.op, nx + 3) {
            return 2;
        }
        x.ip = x.ip + nx + 3;
        x.op = x.op + nx + 3;
        x.st = LitState::Long;
        0
    } else {
        finish(x, m_len, back)
    }
}

/// A medium or long match `t`, or the end of the stream.
fn m34(x: &mut Opt, t: u8) -> (r: u8)
    requires
        old(x).inv(),
        old(x).ip >= 1,
        16 <= t < 64,
    ensures
        reports(r, final(x), opt_m34(old(x).view(), t as int), old(x).s@.len(), old(x).out@.len()),
{
    let n = x.s.len();
    let long = t < 32;
    let mask: u8 = if long {
        8
    } else {
        32
    };
    let (m_len, q) = if t % mask == 0 {
        match read_zero_run(
            x.s.as_slice(),
            x.ip,
            if long {
                9
            } else {
                33
            },
        ) {
            Some(v) => v,
            None => {
                return 2;
            },
        }
    } else {
        ((t % mask) as usize + 2, x.ip)
    };
    if n - q < 2 {
        return 2;
    }
    let d0 = x.s[q] as usize;
    let d1 = x.s[q + 1] as usize;
    let ip = q + 2;
    let dist = ((t / 8) % 2) as usize * 0x4000 + d0 / 4 + d1 * 64;
    if long && dist == 0 {
        return 1;
    }
    let back = if long {
        dist + 0x4000
    } else {
        1 + d0 / 4 + d1 * 64
    };
    x.ip = ip;
    if !(x.has_litp && m_len == 3 && x.lit <= 3) {
        return finish(x, m_len, back);
    }
    if ip >= n {
        return 2;
    }
    if back > x.op || x.out.len() - (x.op - back) < 3 {
        return 2;
    }
    let m_pos = x.op - back;
    let nl = d0 % 4;
    let nx = x.s[ip] as usize;
    if x.lit == 0 && nl == 0 && nx >= 16 {
        x.lit = x.lit + 3;
        let b = (x.s[x.litp] / 4) * 4 + x.lit as u8;
        x.s.set(x.litp, b);
        copy3(&mut x.s, ip - 3, &x.out, m_pos, back);
        x.next_lit = Some(0);
        finish(x, m_len, back)
    } else if nl == 0 && nx < 16 && nx != 0 && x.lit < 16 && x.lit + 3 + nx < 16 {
        join(x, 3, nx, m_pos, back)
    } else {
        finish(x, m_len, back)
    }
}

/// One instruction.
fn step_opt(x: &mut Opt) -> (r: u8)
    requires
        old(x).inv(),
    ensures
        reports(r, final(x), opt_step(old(x).view()), old(x).s@.len(), old(x).out@.len()),
{
    reveal(opt_step);
    if x.ip >= x.s.len() {
        return 2;
    }
    let t = x.s[x.ip];
    x.ip = x.ip + 1;
    if t < 16 && x.st == LitState::Zero {
        run_instr(x, t)
    } else if t < 16 {
        m1(x, t)
    } else if t >= 64 {
        m2(x, t)
    } else {
        m34(x, t)
    }
}

/// Rewrites `s` by the merge rules while decoding it into a scratch buffer of
/// `dst_len` bytes: exactly [`optimized`], and `s` as it was where that is
/// `None`.
fn rewrite(s: Vec<u8>, dst_len: usize) -> (r: Option<Vec<u8>>)
    ensures
        r is Some <==> optimized(s@, dst_len as nat) is Some,
        r matches Some(v) ==> v@ == optimized(s@, dst_len as nat)->Some_0,
        r matches Some(v) ==> v@.len() == s@.len(),
{
    let ghost s0 = s@;
    let n = s.len();
    let out = filled(0u8, dst_len);
    assert(out@ =~= Seq::new(dst_len as nat, |i: int| 0u8));
    if n == 0 {
        return None;
    }
    let first = s[0];
    let dl = out.len();
    let mut x = Opt {
        s,
        out,
        ip: 0,
        op: 0,
        litp: 0,
        has_litp: false,
        lit: 0,
        next_lit: None,
        st: LitState::Zero,
    };
    if first > 17 {
        let t = (first - 17) as usize;
        if !take_lits(&x.s, 1, &mut x.out, 0, t) {
            return None;
        }
        x.ip = 1 + t;
        x.op = t;
        x.st = if t < 4 {
            LitState::Short
        } else {
            LitState::Long
        };
    }
    loop
        invariant
            x.inv(),
            x.s@.len() == n,
            x.out@.len() == dst_len,
            n == s0.len(),
            s0 == s@,
            optimized(s0, dst_len as nat) == opt_from(x.view()),
        decreases n - x.ip,
    {
        let ghost before = x.view();
        let ip0 = x.ip;
        let r = step_opt(&mut x);
        proof {
            assert(before.ip >= 0);
            match opt_step(before) {
                OptStep::Go(y) => {
                    assert(r == 0);
                    assert(x.view() == y);
                },
                OptStep::Done(t) => {
                    assert(opt_from(before) == Some(t));
                },
                OptStep::Stop => {
                    assert(opt_from(before) is None);
                },
            }
        }
        if r == 1 {
            assert(x.s@ == optimized(s0, dst_len as nat)->Some_0);
            return Some(x.s);
        } else if r == 2 {
            return None;
        }
        if x.ip <= ip0 {
            return None;
        }
    }
}

/// `a` and `b` hold the same bytes.
fn same_bytes(a: &Vec<u8>, b: &Vec<u8>) -> (r: bool)
    ensures
        r == (a@ == b@),
{
    if a.len() != b.len() {
        return false;
    }
    let mut i: usize = 0;
    while i < a.len()
        invariant
            a@.len() == b@.len(),
            i <= a@.len(),
            forall|j: int| 0 <= j < i ==> a@[j] == b@[j],
        decreases a@.len() - i,
    {
        if a[i] != b[i] {
            return false;
        }
        i += 1;
    }
    assert(a@ =~= b@);
    true
}

/// Optimizes the compressed stream `src` in place, where `dst_len` is the
/// length it decodes to: short matches between literal runs become literals
/// where that lets the runs share one instruction.
///
/// The stream becomes [`optimized`]`(src, dst_len)` where that reads through
/// and decodes to the same bytes, and stays as it was otherwise; either way it
/// keeps its length and what it decodes to. A stream that does not decode to
/// `dst_len` bytes is left as it is, with the error of [`decompress`].
pub fn optimize(src: &mut [u8], dst_len: usize) -> (r: Result<(), DecompressError>)
    ensures
        final(src)@.len() == old(src)@.len(),
        decode(final(src)@, dst_len as nat) == decode(old(src)@, dst_len as nat),
        match decode(old(src)@, dst_len as nat) {
            Ok(_) => r is Ok && final(src)@ == (if optimized(old(src)@, dst_len as nat) is Some
                && decode(optimized(old(src)@, dst_len as nat)->Some_0, dst_len as nat) == decode(
                old(src)@,
                dst_len as nat,
            ) {
                optimized(old(src)@, dst_len as nat)->Some_0
            } else {
                old(src)@
            }),
            Err(e) => r == Err::<(), DecompressError>(e) && final(src)@ == old(src)@,
        },
{
    let mut expected: Vec<u8> = vec![0u8; dst_len];
    let d = decompress(src, expected.as_mut_slice());
    if let Err(e) = d {
        return Err(e);
    }
    let mut work: Vec<u8> = Vec::new();
    let mut i: usize = 0;
    while i < src.len()
        invariant
            i <= src@.len(),
            work@ == src@.subrange(0, i as int),
        decreases src@.len() - i,
    {
        work.push(src[i]);
        assert(src@.subrange(0, i + 1) =~= src@.subrange(0, i as int).push(src@[i as int]));
        i += 1;
    }
    // The rewrite works on a copy, which replaces `src` only once it is seen
    // to decode to the same bytes; otherwise `src` stays as it was, which is
    // as good a stream as before.
    assert(work@ =~= src@);
    let ghost want = decode(src@, dst_len as nat);
    assert(want == Ok::<Seq<u8>, DecompressError>(expected@));
    let work = match rewrite(work, dst_len) {
        Some(w) => w,
        None => {
            return Ok(());
        },
    };
    let mut got: Vec<u8> = vec![0u8; dst_len];
    let d2 = decompress(work.as_slice(), got.as_mut_slice());
    if d2.is_err() {
        assert(decode(work@, dst_len as nat) != want);
        return Ok(());
    }
    if !same_bytes(&got, &expected) {
        assert(decode(work@, dst_len as nat) == Ok::<Seq<u8>, DecompressError>(got@));
        assert(decode(work@, dst_len as nat) != want);
        return Ok(());
    }
    assert(decode(work@, dst_len as nat) == want);
    let mut j: usize = 0;
    while j < src.len()
        invariant
            src@.len() == work@.len(),
            j <= src@.len(),
            forall|k: int| 0 <= k < j ==> src@[k] == work@[k],
        decreases src@.len() - j,
    {
        src[j] = work[j];
        j += 1;
    }
    assert(src@ =~= work@);
    Ok(())
}

} // verus!
