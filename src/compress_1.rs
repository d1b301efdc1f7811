//! The fast compressor (LZO1X-1): one pass, a hash table of recent
//! positions, and a skip step that grows on incompressible input.
use vstd::prelude::*;

use crate::emit::{
    match_code, with_run, code_match, encode, lemma_encode_push, lemma_match_saves, lemma_run_cost, store_run, tokens_len,
    Compress, Token,
};
use crate::format::{decode, LitState};
use crate::stream::{
    emitted, lemma_copy_match_source, lemma_emit_end, lemma_emit_match, lemma_emit_run,
    lemma_slice_extent, max_extent, state_after, Tail,
};
use crate::{filled, DecompressError};

verus! {

/// Largest block that shares one hash table.
pub const WINDOW: usize = 49152;

/// Bytes at the end of a block that are never searched.
pub const TAIL: usize = 20;

/// The match at `i` of a fast stream holds four bytes or more, and copies
/// from within the block of 49152 input bytes where it stands.
pub open spec fn fast_match_ok(toks: Seq<Token>, i: int) -> bool {
    toks[i] matches Token::Match { len, off, .. } ==> {
        let p = tokens_len(toks.take(i)) as int;
        &&& len >= 4
        &&& 1 <= off <= p
        &&& (p - off) / (WINDOW as int) == p / (WINDOW as int)
    }
}

/// Every match of `toks` keeps the rules of the fast compressor.
pub open spec fn fast_rules(toks: Seq<Token>) -> bool {
    forall|i: int| 0 <= i < toks.len() ==> #[trigger] fast_match_ok(toks, i)
}

proof fn lemma_fast_push(toks: Seq<Token>, t: Token)
    requires
        fast_rules(toks),
        fast_match_ok(toks.push(t), toks.len() as int),
    ensures
        fast_rules(toks.push(t)),
{
    let u = toks.push(t);
    assert forall|i: int| 0 <= i < u.len() implies #[trigger] fast_match_ok(u, i) by {
        if i < toks.len() {
            assert(u[i] == toks[i]);
            assert(u.take(i) =~= toks.take(i));
            assert(fast_match_ok(toks, i));
        }
    }
}

/// Rounding down each part of a sum loses at least as much as rounding down
/// the sum.
proof fn lemma_floor_sum(a: int, b: int, d: int)
    requires
        a >= 0,
        b >= 0,
        d > 0,
    ensures
        a / d + b / d <= (a + b) / d,
{
    assert(a / d + b / d <= (a + b) / d) by (nonlinear_arith)
        requires
            a >= 0,
            b >= 0,
            d > 0,
    ;
}

/// The hash of the four bytes at `p`, as an index below `size`.
pub open spec fn hash_of(s: Seq<u8>, p: int, d_bits: u32, size: int) -> int {
    let dv = (s[p] + s[p + 1] * 0x100 + s[p + 2] * 0x10000 + s[p + 3] * 0x1000000) as u32;
    ((0x1824429du32.wrapping_mul(dv) >> (32 - d_bits)) as int) % size
}

/// The length of the match at `ip` against `m`, grown from `m_len`, where the
/// bound `lim` is looked at after every eight bytes (`k` counts them).
pub open spec fn extend(s: Seq<u8>, ip: int, m: int, lim: int, m_len: int, k: int) -> int
    decreases s.len() - ip - m_len,
{
    if !(0 <= ip + m_len < s.len() && 0 <= m + m_len < s.len()) || s[ip + m_len] != s[m
        + m_len] {
        m_len
    } else if k + 1 == 8 {
        if ip + m_len + 1 >= lim {
            m_len + 1
        } else {
            extend(s, ip, m, lim, m_len + 1, 0)
        }
    } else {
        extend(s, ip, m, lim, m_len + 1, k + 1)
    }
}

#[verifier::opaque]
/// The search inside the block `[ws, end)` from `ip`, with the literals from
/// `ii` not yet written, the table `dict` and the output `out` so far: the
/// start of the literals left over and the output at the end of the block.
pub open spec fn fast_block(
    s: Seq<u8>,
    d_bits: u32,
    size: int,
    ws: int,
    end: int,
    ip: int,
    ii: int,
    dict: Seq<u16>,
    out: Seq<u8>,
) -> (int, Seq<u8>)
    decreases s.len() - ip,
{
    if !(0 <= ip < end - TAIL && end <= s.len()) {
        (ii, out)
    } else {
        let h = hash_of(s, ip, d_bits, size);
        let m = ws + dict[h];
        let dict2 = dict.update(h, (ip - ws) as u16);
        if s[m] == s[ip] && s[m + 1] == s[ip + 1] && s[m + 2] == s[ip + 2] && s[m + 3] == s[ip
            + 3] {
            let out1 = if ip > ii {
                with_run(out, s.subrange(ii, ip))
            } else {
                out
            };
            let m_len = extend(s, ip, m, end - TAIL, 4, 0);
            let out2 = out1 + match_code(m_len as nat, (ip - m) as nat, 0);
            if m_len < 1 || ip + m_len > s.len() {
                (ii, out)
            } else {
                fast_block(s, d_bits, size, ws, end, ip + m_len, ip + m_len, dict2, out2)
            }
        } else {
            let lit_start = if ii > ws {
                ii
            } else {
                ws
            };
            let skip = 1 + (ip - lit_start) / 32;
            if skip < 1 || skip >= end - TAIL - ip {
                (ii, out)
            } else {
                fast_block(s, d_bits, size, ws, end, ip + skip, ii, dict2, out)
            }
        }
    }
}

#[verifier::opaque]
/// The blocks of the fast compressor from `ws` on, with the literals from
/// `ii` not yet written and the output `out` so far.
pub open spec fn fast_blocks(s: Seq<u8>, d_bits: u32, size: int, ws: int, ii: int, out: Seq<u8>) -> (
    int,
    Seq<u8>,
)
    decreases s.len() - ws,
{
    if !(0 <= ws < s.len() && s.len() - ws > TAIL) {
        (ii, out)
    } else {
        let ll = if s.len() - ws < WINDOW {
            s.len() - ws
        } else {
            WINDOW as int
        };
        if (ws - ii) + ll < 32 {
            (ii, out)
        } else {
            let end = ws + ll;
            let ti = ws - ii;
            let ip0 = if ti < 4 {
                ws + (4 - ti)
            } else {
                ws
            };
            let ip1 = ip0 + 1 + (ip0 - ws) / 32;
            let (ii2, out2) = fast_block(
                s,
                d_bits,
                size,
                ws,
                end,
                ip1,
                ii,
                Seq::new(size as nat, |i: int| 0u16),
                out,
            );
            fast_blocks(s, d_bits, size, end, ii2, out2)
        }
    }
}

/// The table size for `d_bits`.
pub open spec fn table_size(d_bits: u32) -> int {
    if d_bits == 11 {
        2048
    } else if d_bits == 12 {
        4096
    } else if d_bits == 14 {
        16384
    } else {
        32768
    }
}

/// What the fast compressor writes for `s` with a table of `1 << d_bits`
/// entries: the blocks, the literals left over, and the end marker.
pub open spec fn fast_output(s: Seq<u8>, d_bits: u32) -> Seq<u8> {
    let (ii, out) = fast_blocks(s, d_bits, table_size(d_bits), 0, 0, Seq::empty());
    (if s.len() > ii {
        with_run(out, s.subrange(ii, s.len() as int))
    } else {
        out
    }) + seq![0x11u8, 0u8, 0u8]
}

/// The hash of the four bytes at `p`, an index below `size`.
fn hash4(src: &[u8], p: usize, d_bits: u32, size: usize) -> (r: usize)
    requires
        p + 4 <= src@.len(),
        11 <= d_bits <= 15,
        size > 0,
    ensures
        r < size,
        r == hash_of(src@, p as int, d_bits, size as int),
{
    let dv = src[p] as u32 + (src[p + 1] as u32) * 0x100 + (src[p + 2] as u32) * 0x10000 + (
    src[p + 3] as u32) * 0x1000000;
    let h = (0x1824429du32.wrapping_mul(dv) >> (32 - d_bits)) as usize;
    h % size
}

/// Compresses `src` with the fast matcher and a hash table of `1 << d_bits`
/// entries.
#[verifier::spinoff_prover]
#[verifier::rlimit(100)]
pub(crate) fn compress(src: &[u8], d_bits: u32) -> (r: Vec<u8>)
    requires
        d_bits == 11 || d_bits == 12 || d_bits == 14 || d_bits == 15,
        src@.len() <= isize::MAX,
    ensures
        r@ == fast_output(src@, d_bits),
        decode(r@, src@.len() as nat) == Ok::<Seq<u8>, DecompressError>(src@),
        r@.len() >= 3,
        r@.subrange(r@.len() - 3, r@.len() as int) == seq![0x11u8, 0u8, 0u8],
        src@.len() == 0 ==> r@ == seq![0x11u8, 0u8, 0u8],
        r@.len() <= src@.len() + src@.len() / 16 + 67,
        exists|toks: Seq<Token>|
            r@ == #[trigger] encode(toks) + seq![0x11u8, 0u8, 0u8] && fast_rules(toks),
        src@.len() <= 20 ==> r@ == (if src@.len() == 0 {
            Seq::<u8>::empty()
        } else {
            seq![(17 + src@.len()) as u8]
        }) + src@ + seq![0x11u8, 0u8, 0u8],
{
    let n = src.len();
    assert(src@.subrange(0, n as int) =~= src@);
    let size: usize = if d_bits == 11 {
        2048
    } else if d_bits == 12 {
        4096
    } else if d_bits == 14 {
        16384
    } else {
        32768
    };
    let mut c = Compress::new();
    let ghost mut tail = Tail::Empty;
    // The instructions written so far.
    let ghost mut toks: Seq<Token> = Seq::empty();
    proof {
        lemma_slice_extent(n as nat);
        assert(src@.subrange(0, 0) =~= Seq::<u8>::empty());
    }
    // Start of the literal run not yet stored.
    let mut ii: usize = 0;
    // Start of the current block.
    let mut ws: usize = 0;
    assert(c.out@ =~= Seq::<u8>::empty());
    loop
        invariant
            n == src@.len(),
            11 <= d_bits <= 15,
            size > 0,
            ii <= ws <= n,
            c.out@.len() != 1,
            ii == 0 ==> c.out@.len() == 0,
            n <= TAIL ==> ii == 0,
            c.out@ == encode(toks),
            fast_rules(toks),
            tokens_len(toks) == ii,
            ws % WINDOW == 0 || ws == n,
            c.r1_lit == 0,
            n <= max_extent(),
            c.out@.len() <= ii + ii / 16,
            !(tail is Run),
            emitted(c.out@, tail, 0, src@.subrange(0, ii as int), n as nat),
            size as int == table_size(d_bits),
            fast_blocks(src@, d_bits, size as int, ws as int, ii as int, c.out@) == fast_blocks(
                src@,
                d_bits,
                size as int,
                0,
                0,
                Seq::empty(),
            ),
        ensures
            (ii as int, c.out@) == fast_blocks(src@, d_bits, size as int, 0, 0, Seq::empty()),
        decreases n - ws,
    {
        if n - ws <= TAIL {
            assert(fast_blocks(src@, d_bits, size as int, ws as int, ii as int, c.out@) == (
            ii as int, c.out@)) by {
                reveal(fast_blocks);
            }
            break;
        }
        let ll = if n - ws < WINDOW {
            n - ws
        } else {
            WINDOW
        };
        if (ws - ii) + ll < 32 {
            assert(fast_blocks(src@, d_bits, size as int, ws as int, ii as int, c.out@) == (
            ii as int, c.out@)) by {
                reveal(fast_blocks);
            }
            break;
        }
        let end = ws + ll;
        let mut dict = filled(0u16, size);
        assert(dict@ =~= Seq::new(size as nat, |i: int| 0u16));
        let ti = ws - ii;
        let mut ip = ws;
        if ti < 4 {
            ip += 4 - ti;
        }
        ip += 1 + (ip - ws) / 32;
        let ghost block = fast_block(
            src@,
            d_bits,
            size as int,
            ws as int,
            end as int,
            ip as int,
            ii as int,
            dict@,
            c.out@,
        );
        assert(fast_blocks(src@, d_bits, size as int, ws as int, ii as int, c.out@) == fast_blocks(
            src@,
            d_bits,
            size as int,
            end as int,
            block.0,
            block.1,
        )) by {
            reveal(fast_blocks);
        }
        loop
            invariant_except_break
                forall|i: int| 0 <= i < size ==> ws + dict@[i] < ip,
                fast_block(
                    src@,
                    d_bits,
                    size as int,
                    ws as int,
                    end as int,
                    ip as int,
                    ii as int,
                    dict@,
                    c.out@,
                ) == block,
            invariant
                n == src@.len(),
                11 <= d_bits <= 15,
                size > 0,
                ii <= ip,
                ws < ip,
                ll > TAIL,
                ii <= end,
                ws + ll == end,
                ll <= WINDOW,
                end <= n,
                end - TAIL <= n - TAIL,
                ip <= end - TAIL + 12,
                dict@.len() == size,
                c.out@.len() != 1,
                ii == 0 ==> c.out@.len() == 0,
                c.out@ == encode(toks),
                fast_rules(toks),
                tokens_len(toks) == ii,
                ws % WINDOW == 0,
                size as int == table_size(d_bits),
                c.r1_lit == 0,
                n <= max_extent(),
                c.out@.len() <= ii + ii / 16,
                !(tail is Run),
                emitted(c.out@, tail, 0, src@.subrange(0, ii as int), n as nat),
            ensures
                (ii as int, c.out@) == block,
            decreases n - ip,
        {
            if ip >= end - TAIL {
                assert(fast_block(
                    src@,
                    d_bits,
                    size as int,
                    ws as int,
                    end as int,
                    ip as int,
                    ii as int,
                    dict@,
                    c.out@,
                ) == (ii as int, c.out@)) by {
                    reveal(fast_block);
                }
                break;
            }
            let ghost ip0 = ip;
            let ghost ii0 = ii;
            let ghost d0 = dict@;
            let ghost o0 = c.out@;
            let h = hash4(src, ip, d_bits, size);
            let m = ws + dict[h] as usize;
            dict.set(h, (ip - ws) as u16);
            if src[m] == src[ip] && src[m + 1] == src[ip + 1] && src[m + 2] == src[ip + 2] && src[m
                + 3] == src[ip + 3] {
                let ghost e0 = c.out@;
                if ip > ii {
                    store_run(&mut c, src, ii, ip - ii);
                    proof {
                        lemma_run_cost(e0, src@.subrange(ii as int, ip as int));
                        lemma_floor_sum(ii as int, (ip - ii) as int, 16);
                        assert(c.out@.len() <= ip + ip / 16 + 1);
                        lemma_emit_run(
                            e0,
                            tail,
                            0,
                            src@.subrange(0, ii as int),
                            n as nat,
                            src@.subrange(ii as int, ip as int),
                            0,
                        );
                        assert(src@.subrange(0, ii as int) + src@.subrange(ii as int, ip as int)
                            =~= src@.subrange(0, ip as int));
                        let rt = Token::Run { lits: src@.subrange(ii as int, ip as int) };
                        lemma_encode_push(toks, rt);
                        lemma_fast_push(toks, rt);
                        toks = toks.push(rt);
                        tail = Tail::Run {
                            st: if ip - ii <= 3 {
                                LitState::Short
                            } else {
                                LitState::Long
                            },
                        };
                    }
                }
                // Extend the match; the bound is looked at after every eight bytes.
                let mut m_len: usize = 4;
                let mut k: usize = 0;
                loop
                    invariant_except_break
                        ip + m_len - k <= end - TAIL + 3,
                        extend(src@, ip as int, m as int, (end - TAIL) as int, m_len as int, k as int)
                            == extend(src@, ip as int, m as int, (end - TAIL) as int, 4, 0),
                    invariant
                        n == src@.len(),
                        m < ip,
                        ip < end - TAIL,
                        end <= n,
                        4 <= m_len,
                        k < 8,
                        ip + m_len <= end - TAIL + 12,
                        forall|i: int| 0 <= i < m_len ==> src@[ip + i] == #[trigger] src@[m + i],
                    ensures
                        m_len == extend(src@, ip as int, m as int, (end - TAIL) as int, 4, 0),
                    decreases n - ip - m_len,
                {
                    if src[ip + m_len] != src[m + m_len] {
                        break;
                    }
                    m_len += 1;
                    k += 1;
                    if k == 8 {
                        k = 0;
                        if ip + m_len >= end - TAIL {
                            break;
                        }
                    }
                }
                let m_off = ip - m;
                let ghost e1 = c.out@;
                code_match(&mut c, m_len, m_off);
                proof {
                    lemma_match_saves(m_len as nat, m_off as nat, 0);
                    assert(e1.len() <= ip + ip / 16 + 1);
                    lemma_emit_match(
                        e1,
                        tail,
                        0,
                        0,
                        src@.subrange(0, ip as int),
                        n as nat,
                        m_len as nat,
                        m_off as nat,
                    );
                    lemma_copy_match_source(src@, ip as nat, m_off as nat, m_len as nat);
                    let mt = Token::Match { len: m_len as nat, off: m_off as nat, r1: 0 };
                    lemma_encode_push(toks, mt);
                    assert(toks.push(mt).take(toks.len() as int) =~= toks);
                    assert(m / WINDOW == ip / WINDOW) by (nonlinear_arith)
                        requires
                            ws % WINDOW == 0,
                            ws <= m < ip,
                            ip < ws + WINDOW,
                    ;
                    assert(fast_match_ok(toks.push(mt), toks.len() as int));
                    lemma_fast_push(toks, mt);
                    toks = toks.push(mt);
                    tail = Tail::Match {
                        start: e1.len(),
                        st0: state_after(tail),
                        len: m_len as nat,
                        off: m_off as nat,
                    };
                }
                ip += m_len;
                ii = ip;
                assert(fast_block(
                    src@,
                    d_bits,
                    size as int,
                    ws as int,
                    end as int,
                    ip0 as int,
                    ii0 as int,
                    d0,
                    o0,
                ) == fast_block(
                    src@,
                    d_bits,
                    size as int,
                    ws as int,
                    end as int,
                    ip as int,
                    ii as int,
                    dict@,
                    c.out@,
                )) by {
                    reveal(fast_block);
                }
            } else {
                let lit_start = if ii > ws {
                    ii
                } else {
                    ws
                };
                let skip = 1 + (ip - lit_start) / 32;
                if skip >= end - TAIL - ip {
                    assert(fast_block(
                        src@,
                        d_bits,
                        size as int,
                        ws as int,
                        end as int,
                        ip0 as int,
                        ii0 as int,
                        d0,
                        o0,
                    ) == (ii as int, c.out@)) by {
                        reveal(fast_block);
                    }
                    break;
                }
                ip += skip;
                assert(fast_block(
                    src@,
                    d_bits,
                    size as int,
                    ws as int,
                    end as int,
                    ip0 as int,
                    ii0 as int,
                    d0,
                    o0,
                ) == fast_block(
                    src@,
                    d_bits,
                    size as int,
                    ws as int,
                    end as int,
                    ip as int,
                    ii as int,
                    dict@,
                    c.out@,
                )) by {
                    reveal(fast_block);
                }
            }
        }
        ws = end;
    }
    if n > ii {
        let ghost e0 = c.out@;
        store_run(&mut c, src, ii, n - ii);
        proof {
            lemma_run_cost(e0, src@.subrange(ii as int, n as int));
            lemma_floor_sum(ii as int, (n - ii) as int, 16);
            assert((n - ii) / 255 <= (n - ii) / 16) by (nonlinear_arith)
                requires
                    n >= ii,
            ;
            lemma_emit_run(
                e0,
                tail,
                0,
                src@.subrange(0, ii as int),
                n as nat,
                src@.subrange(ii as int, n as int),
                0,
            );
            assert(src@.subrange(0, ii as int) + src@.subrange(ii as int, n as int) =~= src@);
            let rt = Token::Run { lits: src@.subrange(ii as int, n as int) };
            lemma_encode_push(toks, rt);
            lemma_fast_push(toks, rt);
            toks = toks.push(rt);
            tail = Tail::Run {
                st: if n - ii <= 3 {
                    LitState::Short
                } else {
                    LitState::Long
                },
            };
        }
    }
    proof {
        assert(src@.subrange(0, n as int) =~= src@);
        lemma_emit_end(c.out@, tail, 0, src@, n as nat);
    }
    let ghost body = c.out@;
    let r = c.finish();
    proof {
        assert(r@ == encode(toks) + seq![0x11u8, 0u8, 0u8]);
        assert(r@ =~= fast_output(src@, d_bits));
        if n <= TAIL && n > 0 {
            assert(src@.subrange(0, n as int) =~= src@);
            assert(body =~= seq![(17 + n) as u8] + src@);
        }
        if n == 0 {
            assert(body =~= Seq::<u8>::empty());
        }
        if n <= TAIL {
            assert(r@ =~= (if n == 0 {
                Seq::<u8>::empty()
            } else {
                seq![(17 + n) as u8]
            }) + src@ + seq![0x11u8, 0u8, 0u8]);
        }
    }
    assert(r@.subrange(r@.len() - 3, r@.len() as int) =~= seq![0x11u8, 0u8, 0u8]);
    r
}

/// Compresses `src` with the fast matcher at its default table size.
pub fn compress_1(src: &[u8]) -> (r: Vec<u8>)
    requires
        src@.len() <= isize::MAX,
    ensures
        r@ == fast_output(src@, 14),
        decode(r@, src@.len() as nat) == Ok::<Seq<u8>, DecompressError>(src@),
        r@.len() >= 3,
        r@.subrange(r@.len() - 3, r@.len() as int) == seq![0x11u8, 0u8, 0u8],
        src@.len() == 0 ==> r@ == seq![0x11u8, 0u8, 0u8],
        r@.len() <= src@.len() + src@.len() / 16 + 67,
        exists|toks: Seq<Token>|
            r@ == #[trigger] encode(toks) + seq![0x11u8, 0u8, 0u8] && fast_rules(toks),
        src@.len() <= 20 ==> r@ == (if src@.len() == 0 {
            Seq::<u8>::empty()
        } else {
            seq![(17 + src@.len()) as u8]
        }) + src@ + seq![0x11u8, 0u8, 0u8],
{
    compress(src, 14)
}

} // verus!
