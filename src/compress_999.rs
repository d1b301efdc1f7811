//! The slow compressor (LZO1X-999): the sliding window dictionary, lazy
//! matching, and a bias towards distances that cost fewer bytes.
use vstd::prelude::*;

use crate::emit::{
    code_match, code_run, codable, encode, lemma_encode_push, lemma_match_cost, Token, lemma_run_cost, match_code, store_run, with_run,
    zero_ext, Compress,
};
use crate::format::{
    decode, LitState, M1_MAX_OFFSET, M2_MAX_LEN, M2_MAX_OFFSET, M2_MIN_LEN, M3_MAX_LEN, M3_MAX_OFFSET,
    M4_MAX_LEN, M4_MAX_OFFSET, MX_MAX_OFFSET,
};
use crate::swd::{find_match, is_match, Swd, SWD_F, SWD_MAX_CHAIN, SWD_N};
use crate::stream::{
    emitted, lemma_copy_match_source, lemma_emit_end, lemma_emit_match, lemma_emit_run,
    lemma_slice_extent, max_extent, Tail,
};
use crate::DecompressError;

verus! {

/// Bytes that a match of `len` at distance `off` takes, after a literal run of
/// `lit` bytes; 0 where no instruction holds it.
pub open spec fn coded_len(len: nat, off: nat, lit: nat) -> nat {
    if len < 2 {
        0
    } else if len == 2 {
        if off <= M1_MAX_OFFSET && 0 < lit < 4 {
            2
        } else {
            0
        }
    } else if len <= M2_MAX_LEN && off <= M2_MAX_OFFSET {
        2
    } else if len == M2_MIN_LEN && off <= MX_MAX_OFFSET && lit >= 4 {
        2
    } else if off <= M3_MAX_OFFSET {
        if len <= M3_MAX_LEN {
            3
        } else {
            3 + zero_ext((len - M3_MAX_LEN) as nat).len()
        }
    } else if off <= M4_MAX_OFFSET {
        if len <= M4_MAX_LEN {
            3
        } else {
            3 + zero_ext((len - M4_MAX_LEN) as nat).len()
        }
    } else {
        0
    }
}

/// The least gain in length that makes a match found `ahead` bytes later
/// worth taking instead of the current one.
pub open spec fn lazy_gain(ahead: nat, lit1: nat, lit2: nat, l1: nat, l2: nat, l3: nat) -> nat {
    let extra: int = if lit1 <= 3 {
        if lit2 <= 3 {
            0
        } else {
            2
        }
    } else if lit1 <= 18 {
        if lit2 <= 18 {
            0
        } else {
            1
        }
    } else {
        0
    };
    let g: int = ahead + extra + (l2 - l1) * 2 - (if l3 != 0 {
        (ahead - l3) * 2
    } else {
        0
    });
    if g < 0 {
        0
    } else {
        g as nat
    }
}

/// The match that takes the place of `len` bytes at `off`, given the nearest
/// distance `best[k]` seen for each length `k`: one or two bytes shorter, where
/// that buys a cheaper form.
pub open spec fn better(best: Seq<usize>, len: nat, off: nat) -> (nat, nat) {
    if len <= M2_MIN_LEN || off <= M2_MAX_OFFSET {
        (len, off)
    } else if len <= M2_MAX_LEN + 1 && best[len - 1] != 0 && best[len - 1] <= M2_MAX_OFFSET {
        ((len - 1) as nat, best[len - 1] as nat)
    } else if off > M3_MAX_OFFSET && M4_MAX_LEN + 1 <= len <= M2_MAX_LEN + 2 && best[len - 2] != 0
        && best[len - 2] <= M2_MAX_OFFSET {
        ((len - 2) as nat, best[len - 2] as nat)
    } else if off > M3_MAX_OFFSET && M4_MAX_LEN + 1 <= len <= M3_MAX_LEN + 1 && best[len - 1] != 0
        && best[len - 1] <= M3_MAX_OFFSET {
        ((len - 1) as nat, best[len - 1] as nat)
    } else {
        (len, off)
    }
}

/// Substitutes a shorter match at a nearer distance where that is cheaper.
fn better_match(best: &Vec<usize>, m_len: &mut usize, m_off: &mut usize)
    requires
        *old(m_len) < best@.len(),
    ensures
        (*final(m_len) as nat, *final(m_off) as nat) == better(
            best@,
            *old(m_len) as nat,
            *old(m_off) as nat,
        ),
{
    if *m_len <= M2_MIN_LEN {
        return;
    }
    if *m_off <= M2_MAX_OFFSET {
        return;
    }
    if *m_len <= M2_MAX_LEN + 1 && best[*m_len - 1] != 0 && best[*m_len - 1] <= M2_MAX_OFFSET {
        *m_len -= 1;
        *m_off = best[*m_len];
        return;
    }
    if *m_off > M3_MAX_OFFSET && *m_len > M4_MAX_LEN && *m_len <= M2_MAX_LEN + 2 && best[*m_len
        - 2] != 0 && best[*m_len - 2] <= M2_MAX_OFFSET {
        *m_len -= 2;
        *m_off = best[*m_len];
        return;
    }
    if *m_off > M3_MAX_OFFSET && *m_len > M4_MAX_LEN && *m_len <= M3_MAX_LEN + 1 && best[*m_len
        - 1] != 0 && best[*m_len - 1] <= M3_MAX_OFFSET {
        *m_len -= 1;
        *m_off = best[*m_len];
    }
}

/// How many bytes of `zero_ext(v)` there are, and a bound on them.
proof fn lemma_zero_ext_len(v: nat)
    ensures
        1 <= zero_ext(v).len() <= v + 1,
    decreases v,
{
    if v > 255 {
        lemma_zero_ext_len((v - 255) as nat);
    }
}

/// An instruction is never longer than the match it holds, plus four.
proof fn lemma_coded_len_bound(len: nat, off: nat, lit: nat)
    ensures
        coded_len(len, off, lit) <= len + 4,
{
    if len > M3_MAX_LEN {
        lemma_zero_ext_len((len - M3_MAX_LEN) as nat);
    }
    if len > M4_MAX_LEN {
        lemma_zero_ext_len((len - M4_MAX_LEN) as nat);
    }
}

/// The length of the instruction for a match of `m_len` at `m_off` after a
/// literal run of `lit` bytes, or 0 where none holds it.
fn len_of_coded_match(m_len: usize, m_off: usize, lit: usize) -> (r: usize)
    ensures
        r == coded_len(m_len as nat, m_off as nat, lit as nat),
        r > 0 ==> r == match_code(m_len as nat, m_off as nat, lit as nat).len(),
{
    if m_len < 2 {
        return 0;
    }
    if m_len == 2 {
        return if m_off <= M1_MAX_OFFSET && lit > 0 && lit < 4 {
            2
        } else {
            0
        };
    }
    if m_len <= M2_MAX_LEN && m_off <= M2_MAX_OFFSET {
        return 2;
    }
    if m_len == M2_MIN_LEN && m_off <= MX_MAX_OFFSET && lit >= 4 {
        return 2;
    }
    if m_off > M4_MAX_OFFSET {
        return 0;
    }
    let limit = if m_off <= M3_MAX_OFFSET {
        M3_MAX_LEN
    } else {
        M4_MAX_LEN
    };
    if m_len <= limit {
        return 3;
    }
    let ghost v0 = (m_len - limit) as nat;
    let mut v = m_len - limit;
    let mut n: usize = 4;
    proof {
        lemma_zero_ext_len(v0);
    }
    while v > 255
        invariant
            v >= 1,
            v <= v0,
            n + zero_ext(v as nat).len() == 4 + zero_ext(v0).len(),
            zero_ext(v0).len() <= v0 + 1,
            v0 <= usize::MAX,
            n <= 4 + (v0 - v),
        decreases v,
    {
        v -= 255;
        n += 1;
    }
    n
}

/// The least gain in length for which a later match replaces the current
/// one, from the deferred literals and the costs `l1`, `l2`, `l3` of the two
/// matches and of the skipped bytes as a match of their own.
fn min_gain(ahead: usize, lit1: usize, lit2: usize, l1: usize, l2: usize, l3: usize) -> (r: usize)
    requires
        lazy_gain(ahead as nat, lit1 as nat, lit2 as nat, l1 as nat, l2 as nat, l3 as nat)
            <= usize::MAX,
    ensures
        r == lazy_gain(ahead as nat, lit1 as nat, lit2 as nat, l1 as nat, l2 as nat, l3 as nat),
{
    let extra: u128 = if lit1 <= 3 {
        if lit2 <= 3 {
            0
        } else {
            2
        }
    } else if lit1 <= 18 {
        if lit2 <= 18 {
            0
        } else {
            1
        }
    } else {
        0
    };
    let mut plus: u128 = ahead as u128 + extra + (l2 as u128) * 2;
    let mut minus: u128 = (l1 as u128) * 2;
    if l3 != 0 {
        plus = plus + (l3 as u128) * 2;
        minus = minus + (ahead as u128) * 2;
    }
    if plus > minus {
        (plus - minus) as usize
    } else {
        0
    }
}

/// The match at `i` of a slow stream keeps the rules for short matches: it
/// is not first and holds two bytes or more; two bytes only after a run of
/// one to three literals and within 1024 bytes; three bytes after a run of
/// four or more only within 2048 bytes.
pub open spec fn slow_match_ok(toks: Seq<Token>, i: int) -> bool {
    toks[i] matches Token::Match { len, off, .. } ==> {
        &&& i >= 1
        &&& len >= 2
        &&& len == 2 ==> (toks[i - 1] matches Token::Run { lits } && 1 <= lits.len() <= 3)
            && off <= M1_MAX_OFFSET
        &&& (len == 3 && (toks[i - 1] matches Token::Run { lits } && lits.len() >= 4)) ==> off
            <= M2_MAX_OFFSET
    }
}

/// Every match of `toks` keeps the rules for short matches.
pub open spec fn slow_rules(toks: Seq<Token>) -> bool {
    forall|i: int| 0 <= i < toks.len() ==> #[trigger] slow_match_ok(toks, i)
}

proof fn lemma_slow_push(toks: Seq<Token>, t: Token)
    requires
        slow_rules(toks),
        slow_match_ok(toks.push(t), toks.len() as int),
    ensures
        slow_rules(toks.push(t)),
{
    let u = toks.push(t);
    assert forall|i: int| 0 <= i < u.len() implies #[trigger] slow_match_ok(u, i) by {
        if i < toks.len() {
            assert(u[i] == toks[i]);
            if i >= 1 {
                assert(u[i - 1] == toks[i - 1]);
            }
            assert(slow_match_ok(toks, i));
        }
    }
}

/// The pending run, if any, and then a match, as tokens.
proof fn lemma_tokens_run_match(toks: Seq<Token>, lits: Seq<u8>, len: nat, off: nat) -> (res:
    Seq<Token>)
    requires
        slow_rules(toks),
        lits.len() == 0 ==> toks.len() > 0 && toks.last() is Match,
        len >= 2,
        len == 2 ==> 1 <= lits.len() <= 3 && off <= M1_MAX_OFFSET,
        (len == 3 && lits.len() >= 4) ==> off <= M2_MAX_OFFSET,
    ensures
        slow_rules(res),
        res.len() > 0 && res.last() is Match,
        encode(res) == (if lits.len() > 0 {
            with_run(encode(toks), lits)
        } else {
            encode(toks)
        }) + match_code(len, off, lits.len()),
{
    let t1 = if lits.len() > 0 {
        let r = Token::Run { lits };
        lemma_encode_push(toks, r);
        lemma_slow_push(toks, r);
        toks.push(r)
    } else {
        toks
    };
    let m = Token::Match { len, off, r1: lits.len() };
    lemma_encode_push(t1, m);
    let res = t1.push(m);
    assert(res[t1.len() as int] == m);
    assert(res[t1.len() - 1] == t1.last());
    lemma_slow_push(t1, m);
    res
}

/// Rounding down each part of a sum loses at least as much as rounding down
/// the sum.
proof fn lemma_floor_sum(a: int, b: int, d: int)
    requires
        a >= 0,
        b >= 0,
        d > 0,
    ensures
        a / d + b / d <= (a + b) / d,
{
    assert(a / d + b / d <= (a + b) / d) by (nonlinear_arith)
        requires
            a >= 0,
            b >= 0,
            d > 0,
    ;
}

/// A run of `lits` and a match of `len` cost no more than the bytes they
/// stand for, plus one per 16 of them; a stream that starts with them may be
/// one byte longer.
proof fn lemma_pair_cost(e: Seq<u8>, done: nat, lits: Seq<u8>, len: nat, off: nat)
    requires
        e.len() <= done + done / 16 + 1,
        e.len() == 0 ==> done == 0 && lits.len() >= 1,
        e.len() != 1,
        len >= 2,
        lits.len() >= 4 ==> len >= 4 || (len == 3 && off <= M2_MAX_OFFSET),
        len == 2 ==> 1 <= lits.len() <= 3,
    ensures
        ({
            let e1 = if lits.len() > 0 {
                with_run(e, lits)
            } else {
                e
            };
            let d2 = done + lits.len() + len;
            (e1 + match_code(len, off, lits.len())).len() <= d2 + d2 / 16 + 1
        }),
{
    let t = lits.len();
    lemma_match_cost(len, off, t);
    lemma_floor_sum(done as int, t as int, 16);
    lemma_floor_sum((done + t) as int, len as int, 16);
    if t > 0 {
        lemma_run_cost(e, lits);
    }
}

/// Storing a run after a match keeps what was written before that match.
proof fn lemma_run_keeps_prefix(e: Seq<u8>, first: Seq<u8>, start: nat, lits: Seq<u8>)
    requires
        first.len() <= start,
        start + 2 <= e.len(),
        e.subrange(0, first.len() as int) == first,
        lits.len() >= 1,
    ensures
        with_run(e, lits).subrange(0, first.len() as int) == first,
        with_run(e, lits).len() >= e.len(),
{
    let w = with_run(e, lits);
    assert(w.subrange(0, first.len() as int) =~= e.subrange(0, first.len() as int));
}

/// Where a run of `lit` bytes at `done` and then `code` follow `e`, the
/// opening run stays in front, or is that run when `e` is empty.
proof fn lemma_first_kept(
    e: Seq<u8>,
    tail: Tail,
    r1: nat,
    s: Seq<u8>,
    done: nat,
    lit: nat,
    first: Seq<u8>,
    fk: int,
    code: Seq<u8>,
) -> (res: (Seq<u8>, int))
    requires
        emitted(e, tail, r1, s.subrange(0, done as int), s.len()),
        e.len() == 0 <==> tail is Empty,
        e.len() > 0 ==> 1 <= fk <= s.len() && first == opening_run(s, fk) && first.len() <= e.len()
            && e.subrange(0, first.len() as int) == first,
        tail is Match ==> tail->start >= first.len(),
        !(tail is Run),
        lit > 0 || !(tail is Empty),
        done + lit <= s.len(),
    ensures
        ({
            let e1 = if lit > 0 {
                with_run(e, s.subrange(done as int, (done + lit) as int))
            } else {
                e
            };
            let w = e1 + code;
            &&& 1 <= res.1 <= s.len()
            &&& res.0 == opening_run(s, res.1)
            &&& res.0.len() <= e1.len()
            &&& w.subrange(0, res.0.len() as int) == res.0
        }),
{
    let lits = s.subrange(done as int, (done + lit) as int);
    let e1 = if lit > 0 {
        with_run(e, lits)
    } else {
        e
    };
    if e.len() == 0 {
        assert(done == 0);
        assert(lits =~= s.subrange(0, lit as int));
        assert((e1 + code).subrange(0, e1.len() as int) =~= e1);
        (e1, lit as int)
    } else {
        if let Tail::Match { start, .. } = tail {
            assert(e.len() - start == match_code(tail->len, tail->off, r1).len());
            if lit > 0 {
                lemma_run_keeps_prefix(e, first, start, lits);
            }
        }
        assert((e1 + code).subrange(0, first.len() as int) =~= e1.subrange(0, first.len() as int));
        (first, fk)
    }
}

/// The literal run that opens a stream of `src`: its first `k` bytes, in the
/// form the emitter gives a run at the start.
pub open spec fn opening_run(src: Seq<u8>, k: int) -> Seq<u8> {
    with_run(Seq::empty(), src.subrange(0, k))
}

/// Storing the pending run of `lit` bytes and then a match keeps the emitted
/// stream decodable, up to the end of the match.
proof fn lemma_code_run_match(
    e: Seq<u8>,
    tail: Tail,
    r1: nat,
    s: Seq<u8>,
    done: nat,
    lit: nat,
    len: nat,
    off: nat,
) -> (tail2: Tail)
    requires
        emitted(e, tail, r1, s.subrange(0, done as int), s.len()),
        !(tail is Run),
        s.len() <= max_extent(),
        done + lit + len <= s.len(),
        lit > 0 || !(tail is Empty),
        codable(len, off),
        off <= done + lit,
        forall|i: int| 0 <= i < len ==> s[done + lit + i] == #[trigger] s[done + lit - off + i],
        len == 2 ==> 1 <= lit <= 3,
    ensures
        tail2 is Match,
        tail2->start == (if lit > 0 {
            with_run(e, s.subrange(done as int, (done + lit) as int))
        } else {
            e
        }).len(),
        emitted(
            (if lit > 0 {
                with_run(e, s.subrange(done as int, (done + lit) as int))
            } else {
                e
            }) + match_code(len, off, lit),
            tail2,
            lit,
            s.subrange(0, (done + lit + len) as int),
            s.len(),
        ),
{
    let n = s.len();
    let out = s.subrange(0, done as int);
    let lits = s.subrange(done as int, (done + lit) as int);
    assert(out + lits =~= s.subrange(0, (done + lit) as int));
    lemma_copy_match_source(s, done + lit, off, len);
    if lit > 0 {
        let st = if lit <= 3 {
            LitState::Short
        } else {
            LitState::Long
        };
        lemma_emit_run(e, tail, r1, out, n, lits, lit);
        let e1 = with_run(e, lits);
        lemma_emit_match(e1, Tail::Run { st }, lit, lit, out + lits, n, len, off);
        Tail::Match { start: e1.len(), st0: st, len, off }
    } else {
        assert(out + lits =~= out);
        lemma_emit_match(e, tail, r1, 0, out, n, len, off);
        Tail::Match { start: e.len(), st0: LitState::Zero, len, off }
    }
}

/// Compresses `src` with the dictionary and the given search parameters;
/// a parameter of 0 takes its default.
#[verifier::spinoff_prover]
#[verifier::rlimit(100)]
pub(crate) fn compress_internal(
    src: &[u8],
    try_lazy: usize,
    good_length: usize,
    max_lazy: usize,
    nice_length: usize,
    max_chain: usize,
    use_best_off: bool,
) -> (r: Vec<u8>)
    requires
        try_lazy <= 2,
        src@.len() <= isize::MAX,
    ensures
        decode(r@, src@.len() as nat) == Ok::<Seq<u8>, DecompressError>(src@),
        r@.len() >= 3,
        r@.subrange(r@.len() - 3, r@.len() as int) == seq![0x11u8, 0u8, 0u8],
        src@.len() == 0 ==> r@ == seq![0x11u8, 0u8, 0u8],
        r@.len() <= src@.len() + src@.len() / 16 + 67,
        exists|toks: Seq<Token>|
            r@ == #[trigger] encode(toks) + seq![0x11u8, 0u8, 0u8] && slow_rules(toks),
        src@.len() > 0 ==> exists|k: int|
            1 <= k <= src@.len() && opening_run(src@, k).len() <= r@.len() && r@.subrange(
                0,
                opening_run(src@, k).len() as int,
            )
                == #[trigger] opening_run(src@, k),
{
    let good_length = if good_length == 0 {
        32
    } else {
        good_length
    };
    let max_lazy = if max_lazy == 0 {
        32
    } else {
        max_lazy
    };
    let nice_length = if nice_length == 0 {
        SWD_F
    } else {
        nice_length
    };
    let max_chain = if max_chain == 0 {
        SWD_MAX_CHAIN
    } else {
        max_chain
    };
    let n = src.len();
    let mut c = Compress::new();
    let ghost mut tail = Tail::Empty;
    // The run that opens the stream, once written, and its length.
    let ghost mut first: Seq<u8> = Seq::empty();
    let ghost mut fk: int = 0;
    // The instructions written so far.
    let ghost mut toks: Seq<Token> = Seq::empty();
    proof {
        lemma_slice_extent(n as nat);
        assert(src@.subrange(0, 0) =~= Seq::<u8>::empty());
    }
    let mut swd = Swd::new(max_chain, nice_length, use_best_off);
    // The current position, and the literals pending before it.
    let mut pos: usize = 0;
    let mut lit: usize = 0;
    let (mut cur_len, mut cur_off) = if n > 0 {
        find_match(&mut swd, src, 0)
    } else {
        (0, 0)
    };
    while pos < n
        invariant
            n == src@.len(),
            try_lazy <= 2,
            lit <= pos <= n,
            swd.wf(),
            swd.use_best_off == use_best_off,
            pos < n ==> swd.best_ok(src@, pos as int),
            pos < n ==> (cur_len == 0 || (2 <= cur_len <= SWD_F && cur_off <= SWD_N && is_match(
                src@,
                pos as int,
                cur_off as int,
                cur_len as int,
            ))),
            c.out@.len() != 1,
            c.out@.len() == 0 ==> pos - lit == 0,
            pos == 0 ==> c.out@.len() == 0,
            n <= max_extent(),
            !(tail is Run),
            emitted(c.out@, tail, c.r1_lit as nat, src@.subrange(0, (pos - lit) as int), n as nat),
            c.out@.len() == 0 <==> tail is Empty,
            c.out@.len() <= (pos - lit) + (pos - lit) / 16 + 1,
            c.out@ == encode(toks),
            slow_rules(toks),
            toks.len() > 0 ==> toks.last() is Match,
            c.out@.len() > 0 ==> 1 <= fk <= n && first == opening_run(src@, fk) && first.len()
                <= c.out@.len() && c.out@.subrange(0, first.len() as int) == first,
            tail is Match ==> tail->start >= first.len(),
        decreases n - pos,
    {
        let mut m_len = cur_len;
        let mut m_off = cur_off;
        if m_len < 2 || (m_len == 2 && (m_off > M1_MAX_OFFSET || lit == 0 || lit >= 4)) || (m_len
            == 2 && c.out.len() == 0) || (c.out.len() == 0 && lit == 0) || (m_len == M2_MIN_LEN
            && m_off > M2_MAX_OFFSET && lit >= 4) {
            lit += 1;
            pos += 1;
            swd.set_max_chain(max_chain);
            if pos < n {
                let (l, o) = find_match(&mut swd, src, pos);
                cur_len = l;
                cur_off = o;
            }
            continue;
        }
        if use_best_off {
            better_match(&swd.best_off, &mut m_len, &mut m_off);
        }
        assert(is_match(src@, pos as int, m_off as int, m_len as int));
        let l1 = if try_lazy == 0 || m_len >= max_lazy {
            0
        } else {
            len_of_coded_match(m_len, m_off, lit)
        };
        let max_ahead = if l1 == 0 {
            0
        } else if try_lazy < l1 - 1 {
            try_lazy
        } else {
            l1 - 1
        };
        proof {
            lemma_coded_len_bound(m_len as nat, m_off as nat, lit as nat);
        }
        let mut ahead: usize = 0;
        // Where a better match was met, and that match.
        let mut found: usize = 0;
        let mut found_len: usize = 0;
        let mut found_off: usize = 0;
        while ahead < max_ahead && n - pos > m_len
            invariant_except_break
                found == 0,
            invariant
                n == src@.len(),
                lit <= pos < n,
                2 <= m_len <= SWD_F,
                max_ahead < m_len,
                ahead <= max_ahead,
                max_ahead <= 2,
                found <= ahead,
                l1 <= SWD_F + 4,
                codable(m_len as nat, m_off as nat),
                is_match(src@, pos as int, m_off as int, m_len as int),
                swd.wf(),
                swd.use_best_off == use_best_off,
                found == 0 || (1 <= found <= ahead && pos + found < n && 2 <= found_len <= SWD_F
                    && found_off <= SWD_N && is_match(
                    src@,
                    (pos + found) as int,
                    found_off as int,
                    found_len as int,
                ) && swd.best_ok(src@, (pos + found) as int)),
            ensures
                found <= 2,
                found == 0 || (1 <= found < m_len && pos + found < n && 2 <= found_len <= SWD_F
                    && found_off <= SWD_N && is_match(
                    src@,
                    (pos + found) as int,
                    found_off as int,
                    found_len as int,
                ) && swd.best_ok(src@, (pos + found) as int)),
            decreases max_ahead - ahead,
        {
            swd.set_max_chain(
                if m_len >= good_length {
                    max_chain / 4
                } else {
                    max_chain
                },
            );
            ahead += 1;
            let (mut l, mut o) = find_match(&mut swd, src, pos + ahead);
            if l < m_len {
                continue;
            }
            if l == m_len && o >= m_off {
                continue;
            }
            if use_best_off {
                better_match(&swd.best_off, &mut l, &mut o);
            }
            let l2 = len_of_coded_match(l, o, lit + ahead);
            if l2 == 0 {
                continue;
            }
            let l3 = if c.out.len() == 0 {
                0
            } else {
                len_of_coded_match(ahead, m_off, lit)
            };
            proof {
                lemma_coded_len_bound(l as nat, o as nat, (lit + ahead) as nat);
                lemma_coded_len_bound(ahead as nat, m_off as nat, lit as nat);
            }
            let gain = min_gain(ahead, lit, lit + ahead, l1, l2, l3);
            if l >= m_len && l - m_len >= gain {
                found = ahead;
                found_len = l;
                found_off = o;
                break;
            }
        }
        if found > 0 {
            // The skipped bytes go out as a match of their own where that
            // can be written, else as literals.
            if c.out.len() != 0 && len_of_coded_match(found, m_off, lit) != 0 {
                let ghost e0 = c.out@;
                let ghost r10 = c.r1_lit as nat;
                code_run(&mut c, src, pos - lit, lit, found);
                code_match(&mut c, found, m_off);
                proof {
                    let t0 = tail;
                    tail = lemma_code_run_match(
                        e0,
                        tail,
                        r10,
                        src@,
                        (pos - lit) as nat,
                        lit as nat,
                        found as nat,
                        m_off as nat,
                    );
                    let (f2, k2) = lemma_first_kept(e0, t0, r10, src@, (pos - lit) as nat, lit as nat, first, fk, match_code(found as nat, m_off as nat, lit as nat));
                    lemma_pair_cost(
                        e0,
                        (pos - lit) as nat,
                        src@.subrange((pos - lit) as int, pos as int),
                        found as nat,
                        m_off as nat,
                    );
                    first = f2;
                    fk = k2;
                    toks = lemma_tokens_run_match(
                        toks,
                        src@.subrange((pos - lit) as int, pos as int),
                        found as nat,
                        m_off as nat,
                    );
                }
                lit = 0;
            } else {
                lit += found;
            }
            pos += found;
            cur_len = found_len;
            cur_off = found_off;
        } else {
            let ghost e0 = c.out@;
            let ghost r10 = c.r1_lit as nat;
            code_run(&mut c, src, pos - lit, lit, m_len);
            code_match(&mut c, m_len, m_off);
            proof {
                let t0 = tail;
                tail = lemma_code_run_match(
                    e0,
                    tail,
                    r10,
                    src@,
                    (pos - lit) as nat,
                    lit as nat,
                    m_len as nat,
                    m_off as nat,
                );
                let (f2, k2) = lemma_first_kept(e0, t0, r10, src@, (pos - lit) as nat, lit as nat, first, fk, match_code(m_len as nat, m_off as nat, lit as nat));
                lemma_pair_cost(
                    e0,
                    (pos - lit) as nat,
                    src@.subrange((pos - lit) as int, pos as int),
                    m_len as nat,
                    m_off as nat,
                );
                first = f2;
                fk = k2;
                toks = lemma_tokens_run_match(
                    toks,
                    src@.subrange((pos - lit) as int, pos as int),
                    m_len as nat,
                    m_off as nat,
                );
            }
            lit = 0;
            pos += m_len;
            swd.set_max_chain(max_chain);
            if pos < n {
                let (l, o) = find_match(&mut swd, src, pos);
                cur_len = l;
                cur_off = o;
            }
        }
    }
    if lit > 0 {
        let ghost e0 = c.out@;
        store_run(&mut c, src, pos - lit, lit);
        proof {
            lemma_emit_run(
                e0,
                tail,
                c.r1_lit as nat,
                src@.subrange(0, (pos - lit) as int),
                n as nat,
                src@.subrange((pos - lit) as int, n as int),
                c.r1_lit as nat,
            );
            assert(src@.subrange(0, (pos - lit) as int) + src@.subrange((pos - lit) as int, n as int)
                =~= src@);
            let (f2, k2) = lemma_first_kept(e0, tail, c.r1_lit as nat, src@, (pos - lit) as nat, lit as nat, first, fk, Seq::empty());
            lemma_run_cost(e0, src@.subrange((pos - lit) as int, n as int));
            let rt = Token::Run { lits: src@.subrange((pos - lit) as int, n as int) };
            lemma_encode_push(toks, rt);
            lemma_slow_push(toks, rt);
            toks = toks.push(rt);
            lemma_floor_sum((pos - lit) as int, lit as int, 16);
            assert(lit / 255 <= lit / 16);
            first = f2;
            fk = k2;
            assert(c.out@ =~= with_run(e0, src@.subrange((pos - lit) as int, (pos - lit + lit) as int)) + Seq::<u8>::empty());
            tail = Tail::Run {
                st: if lit <= 3 {
                    LitState::Short
                } else {
                    LitState::Long
                },
            };
        }
    }
    proof {
        assert(src@.subrange(0, n as int) =~= src@);
        lemma_emit_end(c.out@, tail, c.r1_lit as nat, src@, n as nat);
    }
    let ghost body = c.out@;
    let r = c.finish();
    proof {
        if n > 0 {
            assert(r@.subrange(0, first.len() as int) =~= body.subrange(0, first.len() as int));
            assert(src@.subrange(0, fk) == src@.subrange(0, fk));
        }
        assert(r@ == encode(toks) + seq![0x11u8, 0u8, 0u8]);
    }
    assert(r@.subrange(r@.len() - 3, r@.len() as int) =~= seq![0x11u8, 0u8, 0u8]);
    r
}

/// Compresses `src` with the slow compressor: lazy matching two bytes ahead,
/// and the bias towards distances that cost fewer bytes.
pub fn compress_999(src: &[u8]) -> (r: Vec<u8>)
    requires
        src@.len() <= isize::MAX,
    ensures
        decode(r@, src@.len() as nat) == Ok::<Seq<u8>, DecompressError>(src@),
        r@.len() >= 3,
        r@.subrange(r@.len() - 3, r@.len() as int) == seq![0x11u8, 0u8, 0u8],
        src@.len() == 0 ==> r@ == seq![0x11u8, 0u8, 0u8],
        r@.len() <= src@.len() + src@.len() / 16 + 67,
        exists|toks: Seq<Token>|
            r@ == #[trigger] encode(toks) + seq![0x11u8, 0u8, 0u8] && slow_rules(toks),
        src@.len() > 0 ==> exists|k: int|
            1 <= k <= src@.len() && opening_run(src@, k).len() <= r@.len() && r@.subrange(
                0,
                opening_run(src@, k).len() as int,
            )
                == #[trigger] opening_run(src@, k),
{
    compress_internal(src, 2, 32, 128, SWD_F, 2048, true)
}

} // verus!
