//! The sliding window dictionary of the slow compressor: hash chains over
//! the positions of the last `SWD_N` bytes, kept in index arenas.
use vstd::prelude::*;

use crate::filled;

verus! {

/// Size of the window: how far back a match may start.
pub const SWD_N: usize = 16384;
/// Longest match that the dictionary reports.
pub const SWD_F: usize = 2048;
/// Default number of chain links followed per search.
pub const SWD_MAX_CHAIN: usize = 2048;
/// Slots of the chain arena; more than the window, so no live link is reused.
pub(crate) const RING: usize = 18432;
pub(crate) const HASH3_SIZE: usize = 16384;
pub(crate) const HASH2_SIZE: usize = 65536;

/// `s[pos..pos + len]` equals the bytes `off` before it.
pub open spec fn is_match(s: Seq<u8>, pos: int, off: int, len: int) -> bool {
    &&& 1 <= off <= pos
    &&& pos + len <= s.len()
    &&& forall|i: int| 0 <= i < len ==> s[pos + i] == #[trigger] s[pos - off + i]
}

/// The dictionary. Each table holds a position plus one, or 0 for none.
pub(crate) struct Swd {
    pub(crate) head3: Vec<usize>,
    pub(crate) head2: Vec<usize>,
    pub(crate) chain: Vec<usize>,
    pub(crate) inserted: usize,
    pub(crate) max_chain: usize,
    pub(crate) nice_length: usize,
    pub(crate) use_best_off: bool,
    /// For each length, the smallest distance at which the last search met a
    /// match of exactly that length, or 0.
    pub(crate) best_off: Vec<usize>,
    pub(crate) best_max: usize,
}

impl Swd {
    /// The tables have their sizes, and `best_off` is clear above `best_max`.
    pub(crate) open spec fn wf(&self) -> bool {
        &&& self.head3@.len() == HASH3_SIZE
        &&& self.head2@.len() == HASH2_SIZE
        &&& self.chain@.len() == RING
        &&& self.best_off@.len() == SWD_F + 1
        &&& self.best_max <= SWD_F
        &&& forall|k: int| self.best_max < k <= SWD_F ==> #[trigger] self.best_off@[k] == 0
    }

    /// Every distance in `best_off` is a match at `pos` of its length.
    pub(crate) open spec fn best_ok(&self, s: Seq<u8>, pos: int) -> bool {
        forall|k: int|
            0 <= k < self.best_off@.len() && #[trigger] self.best_off@[k] != 0 ==> {
                &&& is_match(s, pos, self.best_off@[k] as int, k)
                &&& self.best_off@[k] <= SWD_N
            }
    }

    /// An empty dictionary.
    pub(crate) fn new(max_chain: usize, nice_length: usize, use_best_off: bool) -> (r: Self)
        ensures
            r.wf(),
            r.max_chain == max_chain,
            r.nice_length == nice_length,
            r.use_best_off == use_best_off,
            forall|s: Seq<u8>, pos: int| r.best_ok(s, pos),
    {
        let r = Swd {
            head3: filled(0usize, HASH3_SIZE),
            head2: filled(0usize, HASH2_SIZE),
            chain: filled(0usize, RING),
            inserted: 0,
            max_chain,
            nice_length,
            use_best_off,
            best_off: filled(0usize, SWD_F + 1),
            best_max: 0,
        };
        r
    }

    /// Sets how many chain links a search follows.
    pub(crate) fn set_max_chain(&mut self, max_chain: usize)
        ensures
            final(self).wf() == old(self).wf(),
            final(self).max_chain == max_chain,
            final(self).nice_length == old(self).nice_length,
            final(self).use_best_off == old(self).use_best_off,
            final(self).best_off == old(self).best_off,
    {
        self.max_chain = max_chain;
    }

    /// Enters the position `p` into the hash chains.
    fn insert(&mut self, s: &[u8], p: usize)
        requires
            old(self).wf(),
            p < s@.len(),
        ensures
            final(self).wf(),
            final(self).best_off == old(self).best_off,
            final(self).best_max == old(self).best_max,
            final(self).max_chain == old(self).max_chain,
            final(self).nice_length == old(self).nice_length,
            final(self).use_best_off == old(self).use_best_off,
    {
        if s.len() - p >= 3 {
            let h = (s[p] as usize * 1024 + s[p + 1] as usize * 32 + s[p + 2] as usize)
                % HASH3_SIZE;
            let prev = self.head3[h];
            self.chain.set(p % RING, prev);
            self.head3.set(h, p + 1);
        }
        if s.len() - p >= 2 {
            let k = s[p] as usize * 256 + s[p + 1] as usize;
            self.head2.set(k, p + 1);
        }
    }

    /// Searches the window for the longest match at `pos`, as [`search`]
    /// says: along the 3-byte chain, then the 2-byte table.
    fn find_best(&mut self, s: &[u8], pos: usize) -> (r: (usize, usize))
        requires
            old(self).wf(),
            pos < s@.len(),
        ensures
            final(self).wf(),
            final(self).max_chain == old(self).max_chain,
            final(self).nice_length == old(self).nice_length,
            final(self).use_best_off == old(self).use_best_off,
            final(self).head3 == old(self).head3,
            final(self).head2 == old(self).head2,
            final(self).chain == old(self).chain,
            final(self).best_ok(s@, pos as int),
            r.0 == 0 || (2 <= r.0 <= SWD_F && r.1 <= SWD_N && is_match(
                s@,
                pos as int,
                r.1 as int,
                r.0 as int,
            )),
            (r.0 as int, r.1 as int) == search(*old(self), s@, pos as int).0,
            final(self).best_off@ == search(*old(self), s@, pos as int).1,
    {
        let ghost sw = *self;
        let n = s.len();
        let mut k: usize = 0;
        while k <= self.best_max
            invariant
                self.wf(),
                k <= self.best_max + 1,
                forall|j: int| 0 <= j < k ==> #[trigger] self.best_off@[j] == 0,
                self.max_chain == sw.max_chain,
                self.nice_length == sw.nice_length,
                self.use_best_off == sw.use_best_off,
                self.head3 == sw.head3,
                self.head2 == sw.head2,
                self.chain == sw.chain,
            decreases self.best_max + 1 - k,
        {
            self.best_off.set(k, 0);
            k += 1;
        }
        self.best_max = 0;
        assert(self.best_off@ =~= zero_table());
        let limit = if n - pos < SWD_F {
            n - pos
        } else {
            SWD_F
        };
        let mut best_len: usize = 0;
        let mut best_off: usize = 0;
        if limit >= 3 {
            let h = (s[pos] as usize * 1024 + s[pos + 1] as usize * 32 + s[pos + 2] as usize)
                % HASH3_SIZE;
            let mut v = self.head3[h];
            let mut steps: usize = 0;
            // The last position met; each link must go further back.
            let mut last = pos;
            while v != 0 && steps < self.max_chain
                invariant
                    self.wf(),
                    self.best_ok(s@, pos as int),
                    n == s@.len(),
                    pos < n,
                    limit <= SWD_F,
                    pos + limit <= n,
                    best_len <= limit,
                    best_len == 0 || (best_off <= SWD_N && is_match(
                        s@,
                        pos as int,
                        best_off as int,
                        best_len as int,
                    )),
                    self.max_chain == sw.max_chain,
                    self.nice_length == sw.nice_length,
                    self.use_best_off == sw.use_best_off,
                    self.head3 == sw.head3,
                    self.head2 == sw.head2,
                    self.chain == sw.chain,
                    last <= pos,
                    walk(sw, s@, pos as int, limit as int, v as int, last as int, steps as int,
                        best_len as int, best_off as int, self.best_off@) == walk(sw, s@, pos as int,
                        limit as int, sw.head3@[h as int] as int, pos as int, 0, 0, 0, zero_table()),
            ensures
                walk(sw, s@, pos as int, limit as int, v as int, last as int, steps as int,
                    best_len as int, best_off as int, self.best_off@) == (best_len as int, best_off as int,
                    self.best_off@),
            decreases self.max_chain - steps,
            {
                let c = v - 1;
                if c >= last || pos - c > SWD_N {
                    break;
                }
                let l = common_length(s, c, pos, limit);
                let off = pos - c;
                let ghost bl0 = best_len;
                let ghost bo0 = best_off;
                let ghost tab0 = self.best_off@;
                if l > best_len {
                    best_len = l;
                    best_off = off;
                }
                if self.use_best_off && l >= 2 && self.best_off[l] == 0 {
                    self.best_off.set(l, off);
                    if l > self.best_max {
                        self.best_max = l;
                    }
                }
                if l >= self.nice_length {
                    proof {
                        assert(self.best_off@[l as int] != 0 || !(sw.use_best_off && l >= 2));
                    }
                    break;
                }
                v = self.chain[c % RING];
                last = c;
                steps += 1;
            }
        }
        let ghost chain_len = best_len;
        let ghost chain_off = best_off;
        if best_len < 2 && limit >= 2 {
            let v = self.head2[s[pos] as usize * 256 + s[pos + 1] as usize];
            if v != 0 {
                let c = v - 1;
                if c < pos && pos - c <= SWD_N && s[c] == s[pos] && s[c + 1] == s[pos + 1] {
                    best_len = 2;
                    best_off = pos - c;
                    assert(is_match(s@, pos as int, best_off as int, 2));
                }
            }
        }
        if best_len < 2 {
            (0, 0)
        } else {
            (best_len, best_off)
        }
    }
}

/// The `best_off` table with no entry.
pub(crate) open spec fn zero_table() -> Seq<usize> {
    Seq::new((SWD_F + 1) as nat, |i: int| 0usize)
}

/// How many bytes from `a` and from `b` agree, counting on from `l` and
/// stopping at `limit`.
pub(crate) open spec fn common_from(s: Seq<u8>, a: int, b: int, limit: int, l: int) -> int
    decreases limit - l,
{
    if l < limit && s[a + l] == s[b + l] {
        common_from(s, a, b, limit, l + 1)
    } else {
        l
    }
}

/// The walk along the 3-byte chain of `pos`: from link `v` (a position plus
/// one) after `steps` links, with the best length and distance so far and the
/// table of the nearest distance met for each length. It stops at an empty
/// link, after `max_chain` links, at a position outside the window or not
/// before the last one met (`last`), or at a match of `nice_length`; a longer match replaces the best, so among equal
/// lengths the first met stays.
pub(crate) open spec fn walk(
    sw: Swd,
    s: Seq<u8>,
    pos: int,
    limit: int,
    v: int,
    last: int,
    steps: int,
    bl: int,
    bo: int,
    tab: Seq<usize>,
) -> (int, int, Seq<usize>)
    decreases sw.max_chain - steps,
{
    if !(v != 0 && steps < sw.max_chain) {
        (bl, bo, tab)
    } else {
        let c = v - 1;
        if c >= last || pos - c > SWD_N {
            (bl, bo, tab)
        } else {
            let l = common_from(s, c, pos, limit, 0);
            let off = pos - c;
            let (bl2, bo2) = if l > bl {
                (l, off)
            } else {
                (bl, bo)
            };
            let tab2 = if sw.use_best_off && l >= 2 && tab[l] == 0 {
                tab.update(l, off as usize)
            } else {
                tab
            };
            if l >= sw.nice_length {
                (bl2, bo2, tab2)
            } else {
                walk(
                    sw,
                    s,
                    pos,
                    limit,
                    sw.chain@[c % (RING as int)] as int,
                    c,
                    steps + 1,
                    bl2,
                    bo2,
                    tab2,
                )
            }
        }
    }
}

/// What a search at `pos` finds in `sw`: the longest match along the 3-byte
/// chain, or else a 2-byte match from the 2-byte table, as `(length,
/// distance)` with `(0, 0)` for none; and the table of nearest distances.
pub(crate) open spec fn search(sw: Swd, s: Seq<u8>, pos: int) -> ((int, int), Seq<usize>) {
    let limit = if s.len() - pos < SWD_F {
        s.len() - pos
    } else {
        SWD_F as int
    };
    let (bl, bo, tab) = if limit >= 3 {
        let h = (s[pos] * 1024 + s[pos + 1] * 32 + s[pos + 2]) % (HASH3_SIZE as int);
        walk(sw, s, pos, limit, sw.head3@[h] as int, pos, 0, 0, 0, zero_table())
    } else {
        (0, 0, zero_table())
    };
    let (bl, bo) = if bl < 2 && limit >= 2 {
        let v = sw.head2@[s[pos] * 256 + s[pos + 1]] as int;
        let c = v - 1;
        if v != 0 && c < pos && pos - c <= SWD_N && s[c] == s[pos] && s[c + 1] == s[pos + 1] {
            (2, pos - c)
        } else {
            (bl, bo)
        }
    } else {
        (bl, bo)
    };
    (
        if bl < 2 {
            (0, 0)
        } else {
            (bl, bo)
        },
        tab,
    )
}

/// How many bytes from `a` and from `b` agree, up to `limit`.
fn common_length(s: &[u8], a: usize, b: usize, limit: usize) -> (l: usize)
    requires
        a < b,
        b + limit <= s@.len(),
    ensures
        l <= limit,
        forall|i: int| 0 <= i < l ==> s@[b + i] == #[trigger] s@[a + i],
        l == common_from(s@, a as int, b as int, limit as int, 0),
{
    let n = s.len();
    let mut l: usize = 0;
    while l < limit && s[a + l] == s[b + l]
        invariant
            n == s@.len(),
            l <= limit,
            a < b,
            b + limit <= s@.len(),
            forall|i: int| 0 <= i < l ==> s@[b + i] == #[trigger] s@[a + i],
            common_from(s@, a as int, b as int, limit as int, l as int) == common_from(
                s@,
                a as int,
                b as int,
                limit as int,
                0,
            ),
        decreases limit - l,
    {
        l += 1;
    }
    l
}

/// Enters the positions before `pos` into `swd`, then searches at `pos`: of
/// the chain positions examined, the longest match at the smallest distance
/// for its length, else a 2-byte match from the 2-byte table.
pub(crate) fn find_match(swd: &mut Swd, s: &[u8], pos: usize) -> (r: (usize, usize))
    requires
        old(swd).wf(),
        pos < s@.len(),
    ensures
        final(swd).wf(),
        final(swd).max_chain == old(swd).max_chain,
        final(swd).nice_length == old(swd).nice_length,
        final(swd).use_best_off == old(swd).use_best_off,
        final(swd).best_ok(s@, pos as int),
        r.0 == 0 || (2 <= r.0 <= SWD_F && r.1 <= SWD_N && is_match(
            s@,
            pos as int,
            r.1 as int,
            r.0 as int,
        )),
        (r.0 as int, r.1 as int) == search(*final(swd), s@, pos as int).0,
        final(swd).best_off@ == search(*final(swd), s@, pos as int).1,
        forall|i: int|
            0 <= i < search_examined(*final(swd), s@, pos as int).len() ==> {
                let c = #[trigger] search_examined(*final(swd), s@, pos as int)[i];
                let l = common_from(s@, c, pos as int, search_limit(s@, pos as int), 0);
                &&& l <= r.0 || (r.0 == 0 && l < 2)
                &&& (l == r.0 && l >= 2) ==> r.1 <= pos - c
                &&& (final(swd).use_best_off && l >= 2) ==> final(swd).best_off@[l] != 0
                    && final(swd).best_off@[l] <= pos - c
            },
{
    while swd.inserted < pos
        invariant
            swd.wf(),
            pos < s@.len(),
            swd.max_chain == old(swd).max_chain,
            swd.nice_length == old(swd).nice_length,
            swd.use_best_off == old(swd).use_best_off,
        decreases pos - swd.inserted,
    {
        let p = swd.inserted;
        swd.insert(s, p);
        swd.inserted = p + 1;
    }
    let ghost mid = *swd;
    let r = swd.find_best(s, pos);
    proof {
        lemma_search_tables(mid, *swd, s@, pos as int);
        lemma_search_best(*swd, s@, pos as int);
    }
    r
}

/// The walk reads only the chain, the search parameters and the bytes.
proof fn lemma_walk_tables(
    a: Swd,
    b: Swd,
    s: Seq<u8>,
    pos: int,
    limit: int,
    v: int,
    last: int,
    steps: int,
    bl: int,
    bo: int,
    tab: Seq<usize>,
)
    requires
        a.chain == b.chain,
        a.max_chain == b.max_chain,
        a.nice_length == b.nice_length,
        a.use_best_off == b.use_best_off,
    ensures
        walk(a, s, pos, limit, v, last, steps, bl, bo, tab) == walk(
            b,
            s,
            pos,
            limit,
            v,
            last,
            steps,
            bl,
            bo,
            tab,
        ),
    decreases a.max_chain - steps,
{
    if v != 0 && steps < a.max_chain {
        let c = v - 1;
        if !(c >= last || pos - c > SWD_N) {
            let l = common_from(s, c, pos, limit, 0);
            let off = pos - c;
            let (bl2, bo2) = if l > bl {
                (l, off)
            } else {
                (bl, bo)
            };
            let tab2 = if a.use_best_off && l >= 2 && tab[l] == 0 {
                tab.update(l, off as usize)
            } else {
                tab
            };
            lemma_walk_tables(
                a,
                b,
                s,
                pos,
                limit,
                a.chain@[c % (RING as int)] as int,
                c,
                steps + 1,
                bl2,
                bo2,
                tab2,
            );
        }
    }
}

/// The search reads only the tables, the search parameters and the bytes.
proof fn lemma_search_tables(a: Swd, b: Swd, s: Seq<u8>, pos: int)
    requires
        a.chain == b.chain,
        a.head3 == b.head3,
        a.head2 == b.head2,
        a.max_chain == b.max_chain,
        a.nice_length == b.nice_length,
        a.use_best_off == b.use_best_off,
    ensures
        search(a, s, pos) == search(b, s, pos),
{
    if 0 <= pos < s.len() && s.len() - pos >= 3 {
        let limit = if s.len() - pos < SWD_F {
            s.len() - pos
        } else {
            SWD_F as int
        };
        let h = (s[pos] * 1024 + s[pos + 1] * 32 + s[pos + 2]) % (HASH3_SIZE as int);
        lemma_walk_tables(a, b, s, pos, limit, a.head3@[h] as int, pos, 0, 0, 0, zero_table());
    }
}

/// The positions that the walk examines, in the order met.
pub(crate) open spec fn examined(
    sw: Swd,
    s: Seq<u8>,
    pos: int,
    limit: int,
    v: int,
    last: int,
    steps: int,
) -> Seq<int>
    decreases sw.max_chain - steps,
{
    if !(v != 0 && steps < sw.max_chain) {
        Seq::empty()
    } else {
        let c = v - 1;
        if c >= last || pos - c > SWD_N {
            Seq::empty()
        } else if common_from(s, c, pos, limit, 0) >= sw.nice_length {
            seq![c]
        } else {
            seq![c] + examined(sw, s, pos, limit, sw.chain@[c % (RING as int)] as int, c, steps + 1)
        }
    }
}

/// How many bytes a search at `pos` compares at most.
pub(crate) open spec fn search_limit(s: Seq<u8>, pos: int) -> int {
    if s.len() - pos < SWD_F {
        s.len() - pos
    } else {
        SWD_F as int
    }
}

/// The chain positions that a search at `pos` examines.
pub(crate) open spec fn search_examined(sw: Swd, s: Seq<u8>, pos: int) -> Seq<int> {
    let limit = search_limit(s, pos);
    if limit >= 3 {
        let h = (s[pos] * 1024 + s[pos + 1] * 32 + s[pos + 2]) % (HASH3_SIZE as int);
        examined(sw, s, pos, limit, sw.head3@[h] as int, pos, 0)
    } else {
        Seq::empty()
    }
}

/// A comparison never counts past its limit.
proof fn lemma_common_bound(s: Seq<u8>, a: int, b: int, limit: int, l: int)
    requires
        l <= limit,
    ensures
        l <= common_from(s, a, b, limit, l) <= limit,
    decreases limit - l,
{
    if l < limit && s[a + l] == s[b + l] {
        lemma_common_bound(s, a, b, limit, l + 1);
    }
}

/// Along the walk, each position lies further back than the one before, so
/// the first match met at a length is the nearest: the walk ends with the
/// longest length met, at the smallest distance met for it, and the table
/// holds for each length the smallest distance met for it.
proof fn lemma_walk_best(
    sw: Swd,
    s: Seq<u8>,
    pos: int,
    limit: int,
    v: int,
    last: int,
    steps: int,
    bl: int,
    bo: int,
    tab: Seq<usize>,
)
    requires
        0 <= limit <= SWD_F,
        last <= pos,
        bl >= 0,
        bl > 0 ==> bo <= pos - last,
        tab.len() == SWD_F + 1,
        forall|k: int| 0 <= k < tab.len() && tab[k] != 0 ==> tab[k] <= pos - last,
    ensures
        ({
            let (bl2, bo2, tab2) = walk(sw, s, pos, limit, v, last, steps, bl, bo, tab);
            let cs = examined(sw, s, pos, limit, v, last, steps);
            &&& bl2 >= bl
            &&& bl2 == bl ==> bo2 == bo
            &&& tab2.len() == tab.len()
            &&& forall|k: int| 0 <= k < tab.len() && tab[k] != 0 ==> tab2[k] == tab[k]
            &&& forall|i: int|
                0 <= i < cs.len() ==> {
                    let l = common_from(s, #[trigger] cs[i], pos, limit, 0);
                    &&& l <= bl2
                    &&& (l == bl2 && bl2 > 0) ==> bo2 <= pos - cs[i]
                    &&& (sw.use_best_off && l >= 2) ==> tab2[l] != 0 && tab2[l] <= pos - cs[i]
                }
        }),
    decreases sw.max_chain - steps,
{
    if v != 0 && steps < sw.max_chain {
        let c = v - 1;
        if !(c >= last || pos - c > SWD_N) {
            let l = common_from(s, c, pos, limit, 0);
            lemma_common_bound(s, c, pos, limit, 0);
            let off = pos - c;
            let (bl2, bo2) = if l > bl {
                (l, off)
            } else {
                (bl, bo)
            };
            let tab2 = if sw.use_best_off && l >= 2 && tab[l] == 0 {
                tab.update(l, off as usize)
            } else {
                tab
            };
            if l < sw.nice_length {
                let nv = sw.chain@[c % (RING as int)] as int;
                lemma_walk_best(sw, s, pos, limit, nv, c, steps + 1, bl2, bo2, tab2);
                let rest = examined(sw, s, pos, limit, nv, c, steps + 1);
                let cs = examined(sw, s, pos, limit, v, last, steps);
                assert(cs =~= seq![c] + rest);
                assert forall|i: int| 1 <= i < cs.len() implies cs[i] == rest[i - 1] by {}
            }
        }
    }
}

/// The positions examined read only the chain, the search parameters and the
/// bytes.
proof fn lemma_examined_tables(
    a: Swd,
    b: Swd,
    s: Seq<u8>,
    pos: int,
    limit: int,
    v: int,
    last: int,
    steps: int,
)
    requires
        a.chain == b.chain,
        a.max_chain == b.max_chain,
        a.nice_length == b.nice_length,
    ensures
        examined(a, s, pos, limit, v, last, steps) == examined(b, s, pos, limit, v, last, steps),
    decreases a.max_chain - steps,
{
    if v != 0 && steps < a.max_chain {
        let c = v - 1;
        if !(c >= last || pos - c > SWD_N) {
            lemma_examined_tables(a, b, s, pos, limit, a.chain@[c % (RING as int)] as int, c, steps + 1);
        }
    }
}

/// Among the positions a search examines, none gives a longer match than the
/// one found, none at that length lies nearer, and the table holds the
/// nearest distance met for each length.
proof fn lemma_search_best(sw: Swd, s: Seq<u8>, pos: int)
    requires
        0 <= pos < s.len(),
    ensures
        forall|i: int|
            0 <= i < search_examined(sw, s, pos).len() ==> {
                let c = #[trigger] search_examined(sw, s, pos)[i];
                let l = common_from(s, c, pos, search_limit(s, pos), 0);
                let r = search(sw, s, pos);
                &&& l <= r.0.0 || (r.0.0 == 0 && l < 2)
                &&& (l == r.0.0 && l >= 2) ==> r.0.1 <= pos - c
                &&& (sw.use_best_off && l >= 2) ==> r.1[l] != 0 && r.1[l] <= pos - c
            },
{
    let limit = search_limit(s, pos);
    if limit >= 3 {
        let h = (s[pos] * 1024 + s[pos + 1] * 32 + s[pos + 2]) % (HASH3_SIZE as int);
        lemma_walk_best(sw, s, pos, limit, sw.head3@[h] as int, pos, 0, 0, 0, zero_table());
    }
}

} // verus!
