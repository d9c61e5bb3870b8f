//! The whole set: a chunk list with strictly ascending keys and no empty
//! container.
use vstd::prelude::*;
use crate::chunks::{
    Chunk, chunks_seq, chunks_wf, in_chunks, join, key_of, lemma_chunks_seq, lemma_in_chunk_at,
    lemma_insert_chunk, lemma_join, lemma_no_chunk, lemma_remove_chunk, lemma_split,
    lemma_update_chunk, low_of, lemma_chunks_count, lemma_chunks_prefix, lemma_chunks_split,
    lemma_chunks_single, lemma_chunks_sub, lemma_join_order, lemma_member_key, lift, lemma_in_chunks_push, lemma_chunks_push,
};
use crate::container::{BITMAP_BYTES, chosen_encoding, Container, Encoding};
use crate::runs::{Interval, interval_seq, run_count, runs_seq};
use crate::codec::{
    COOKIE_NO_RUNS, COOKIE_RUNS, OFFSETS_FROM, encode, has_runs, header_len, lemma_encode_len, lemma_payloads_len, lemma_payloads_push, payload_size, payloads, put16, put32,
    put_payload, put_run_flags, descriptors, offsets, FormatError, get16, get32, read_container,
    same_bytes, encodes, canonical, canonical_of, lemma_canonical_unique, same_reps, same_rep, lemma_same_rep, lemma_same_reps_encode,
    desc_start, read_header, read_chunk, read_so_far,
};
use crate::setop::SetOp;
use crate::order::{ascending32, lemma_ascending16_set_len, splits32};

verus! {

/// A set of 32-bit unsigned integers in compressed form.
pub struct RoaringBitmap {
    chunks: Vec<Chunk>,
}

impl View for RoaringBitmap {
    type V = Seq<u32>;

    /// The members in ascending order.
    closed spec fn view(&self) -> Seq<u32> {
        chunks_seq(self.chunks@)
    }
}

impl RoaringBitmap {
    /// The chunk list is well formed.
    pub closed spec fn wf(&self) -> bool {
        chunks_wf(self.chunks@)
    }

    /// The members as a set.
    pub open spec fn members(&self) -> Set<u32> {
        self@.to_set()
    }

    /// A well-formed bitmap lists its members in strictly ascending order.
    pub proof fn lemma_ascending(&self)
        requires
            self.wf(),
        ensures
            ascending32(self@),
    {
        lemma_chunks_seq(self.chunks@);
    }

    /// Where the chunk for `key` is, or would go.
    fn find_key(&self, key: u16) -> (r: usize)
        requires
            self.wf(),
        ensures
            r <= self.chunks@.len(),
            forall|i: int| 0 <= i < r ==> self.chunks@[i].key < key,
            forall|i: int| r <= i < self.chunks@.len() ==> self.chunks@[i].key >= key,
    {
        let mut lo: usize = 0;
        let mut hi: usize = self.chunks.len();
        while lo < hi
            invariant
                lo <= hi <= self.chunks@.len(),
                self.wf(),
                forall|i: int| 0 <= i < lo ==> self.chunks@[i].key < key,
                forall|i: int| hi <= i < self.chunks@.len() ==> self.chunks@[i].key >= key,
            decreases hi - lo,
        {
            let mid = lo + (hi - lo) / 2;
            if self.chunks[mid].key < key {
                lo = mid + 1;
            } else {
                hi = mid;
            }
        }
        lo
    }

    /// An empty bitmap.
    pub fn new() -> (r: RoaringBitmap)
        ensures
            r.wf(),
            r@ == Seq::<u32>::empty(),
    {
        RoaringBitmap { chunks: Vec::new() }
    }

    /// Whether `v` is a member.
    pub fn contains(&self, v: u32) -> (r: bool)
        requires
            self.wf(),
        ensures
            r == self@.contains(v),
    {
        proof {
            lemma_chunks_seq(self.chunks@);
        }
        let key = (v / 65536) as u16;
        let low = (v % 65536) as u16;
        let pos = self.find_key(key);
        if pos < self.chunks.len() && self.chunks[pos].key == key {
            self.chunks[pos].container.contains(low)
        } else {
            proof {
                if in_chunks(self.chunks@, v) {
                    let k = choose|k: int|
                        0 <= k < self.chunks@.len() && (#[trigger] self.chunks@[k]).key == key_of(v)
                            && self.chunks@[k].container@.contains(low_of(v));
                    assert(k == pos);
                }
            }
            false
        }
    }

    /// Adds `v`; true if it was not a member.
    pub fn insert(&mut self, v: u32) -> (r: bool)
        requires
            old(self).wf(),
        ensures
            final(self).wf(),
            r == !old(self)@.contains(v),
            final(self).members() == old(self).members().insert(v),
    {
        let ghost before = self.chunks@;
        proof {
            lemma_chunks_seq(before);
            lemma_split(v);
        }
        let key = (v / 65536) as u16;
        let low = (v % 65536) as u16;
        let pos = self.find_key(key);
        let r;
        let ghost found = pos < before.len() && before[pos as int].key == key;
        if pos < self.chunks.len() && self.chunks[pos].key == key {
            proof {
                lemma_in_chunk_at(before, pos as int, v);
            }
            r = self.chunks[pos].container.insert(low);
            proof {
                assert(self.chunks@ == before.update(pos as int, self.chunks@[pos as int]));
                assert(self.chunks@[pos as int].container@.contains(low)) by {
                    assert(self.chunks@[pos as int].container@.to_set().contains(low));
                }
                lemma_update_chunk(before, pos as int, self.chunks@[pos as int]);
            }
        } else {
            let mut lows: Vec<u16> = Vec::new();
            lows.push(low);
            let c = Chunk { key, container: Container::Array(lows) };
            proof {
                assert(c.container@.contains(low)) by {
                    assert(c.container@[0] == low);
                }
                assert forall|i: int| pos <= i < before.len() implies before[i].key > key by {
                    if i > pos {
                        assert(before[pos as int].key < before[i].key);
                    }
                }
                assert forall|i: int| 0 <= i < before.len() implies before[i].key != key_of(v) by {}
                lemma_no_chunk(before, v);
                lemma_insert_chunk(before, pos as int, c);
            }
            self.chunks.insert(pos, c);
            r = true;
        }
        proof {
            lemma_chunks_seq(self.chunks@);
            assert forall|u: u32| #[trigger]
                self.members().contains(u) == old(self).members().insert(v).contains(u) by {
                lemma_split(u);
                lemma_join(key_of(u), low_of(u));
                assert(self.members().contains(u) == in_chunks(self.chunks@, u));
                assert(old(self).members().contains(u) == in_chunks(before, u));
                if key_of(u) == key && found {
                    lemma_in_chunk_at(before, pos as int, u);
                    assert(self.chunks@[pos as int].container@.to_set().contains(low_of(u))
                        == before[pos as int].container@.to_set().insert(low).contains(low_of(u)));
                }
            }
            assert(self.members() =~= old(self).members().insert(v));
        }
        r
    }

    /// Removes `v`; true if it was a member. A container left empty leaves
    /// the list.
    pub fn remove(&mut self, v: u32) -> (r: bool)
        requires
            old(self).wf(),
        ensures
            final(self).wf(),
            r == old(self)@.contains(v),
            final(self).members() == old(self).members().remove(v),
    {
        let ghost before = self.chunks@;
        proof {
            lemma_chunks_seq(before);
            lemma_split(v);
        }
        let key = (v / 65536) as u16;
        let low = (v % 65536) as u16;
        let pos = self.find_key(key);
        if pos >= self.chunks.len() || self.chunks[pos].key != key {
            proof {
                assert forall|i: int| 0 <= i < before.len() implies before[i].key != key_of(v) by {
                    if i > pos {
                        assert(before[pos as int].key < before[i].key);
                    }
                }
                lemma_no_chunk(before, v);
                assert(self.members() =~= old(self).members().remove(v));
            }
            return false;
        }
        proof {
            lemma_in_chunk_at(before, pos as int, v);
        }
        let r = self.chunks[pos].container.remove(low);
        let ghost mid = self.chunks@;
        proof {
            assert(mid == before.update(pos as int, mid[pos as int]));
        }
        if self.chunks[pos].container.len() == 0 {
            self.chunks.remove(pos);
            proof {
                assert forall|u: u32| key_of(u) == key implies !mid[pos as int].container@.contains(
                    low_of(u),
                ) by {
                    assert(mid[pos as int].container@.len() == 0);
                }
                lemma_remove_chunk(before, pos as int);
                assert(self.chunks@ =~= before.remove(pos as int));
            }
        } else {
            proof {
                lemma_update_chunk(before, pos as int, mid[pos as int]);
            }
        }
        proof {
            lemma_chunks_seq(self.chunks@);
            assert forall|u: u32| #[trigger]
                self.members().contains(u) == old(self).members().remove(v).contains(u) by {
                lemma_split(u);
                lemma_join(key_of(u), low_of(u));
                if key_of(u) == key {
                    lemma_in_chunk_at(before, pos as int, u);
                    assert(mid[pos as int].container@.to_set().contains(low_of(u))
                        == before[pos as int].container@.to_set().remove(low).contains(low_of(u)));
                }
            }
            assert(self.members() =~= old(self).members().remove(v));
        }
        r
    }

    /// Sums the container sizes of the first `k` chunks.
    fn prefix_len(&self, k: usize) -> (n: u64)
        requires
            self.wf(),
            k <= self.chunks@.len(),
        ensures
            n == chunks_seq(self.chunks@.subrange(0, k as int)).len(),
            n <= 65536 * k,
    {
        let mut total: u64 = 0;
        let mut i: usize = 0;
        proof {
            lemma_chunks_count(self.chunks@);
            assert(self.chunks@.subrange(0, 0) =~= Seq::<Chunk>::empty());
        }
        while i < k
            invariant
                self.wf(),
                i <= k <= self.chunks@.len() <= 65536,
                total == chunks_seq(self.chunks@.subrange(0, i as int)).len(),
                total <= 65536 * i,
            decreases k - i,
        {
            proof {
                lemma_chunks_prefix(self.chunks@, i as int);
                self.chunks@[i as int].container.lemma_view();
            }
            total = total + self.chunks[i].container.len() as u64;
            i = i + 1;
        }
        total
    }

    /// The number of members.
    pub fn len(&self) -> (n: u64)
        requires
            self.wf(),
        ensures
            n == self@.len(),
    {
        let n = self.prefix_len(self.chunks.len());
        assert(self.chunks@.subrange(0, self.chunks@.len() as int) =~= self.chunks@);
        n
    }

    /// Whether there are no members.
    pub fn is_empty(&self) -> (r: bool)
        requires
            self.wf(),
        ensures
            r == (self@.len() == 0),
    {
        proof {
            if self.chunks@.len() > 0 {
                let c = self.chunks@[0];
                let x = c.container@[0];
                lemma_chunks_seq(self.chunks@);
                lemma_join(c.key, x);
                assert(c.container@.contains(x));
                assert(in_chunks(self.chunks@, join(c.key, x)));
                assert(self@.contains(join(c.key, x)));
            }
        }
        self.chunks.len() == 0
    }

    /// Whether every 32-bit value is a member.
    pub fn is_full(&self) -> (r: bool)
        requires
            self.wf(),
        ensures
            r == (self@.len() == 0x1_0000_0000),
            r == (forall|v: u32| self@.contains(v)),
    {
        proof {
            self.lemma_ascending();
            crate::order::lemma_ascending32_full(self@);
        }
        self.len() == 0x1_0000_0000u64
    }

    /// Removes every member.
    pub fn clear(&mut self)
        ensures
            final(self).wf(),
            final(self)@.len() == 0,
    {
        self.chunks = Vec::new();
    }

    /// The smallest member, if any.
    pub fn min(&self) -> (r: Option<u32>)
        requires
            self.wf(),
        ensures
            r == if self@.len() == 0 { None } else { Some(self@[0]) },
    {
        if self.is_empty() {
            return None;
        }
        let c = &self.chunks[0];
        let low = c.container.min();
        proof {
            let cs = self.chunks@;
            lemma_chunks_split(cs, 1);
            assert(cs.subrange(0, 1) =~= seq![cs[0]]);
            lemma_chunks_single(cs[0]);
            lemma_join(c.key, low);
        }
        Some((c.key as u32) * 65536 + (low as u32))
    }

    /// The largest member, if any.
    pub fn max(&self) -> (r: Option<u32>)
        requires
            self.wf(),
        ensures
            r == if self@.len() == 0 { None } else { Some(self@.last()) },
    {
        if self.is_empty() {
            return None;
        }
        let c = &self.chunks[self.chunks.len() - 1];
        let low = c.container.max();
        proof {
            lemma_join(c.key, low);
        }
        Some((c.key as u32) * 65536 + (low as u32))
    }

    /// The member at position `n` in ascending order, if there is one.
    pub fn select(&self, n: u32) -> (r: Option<u32>)
        requires
            self.wf(),
        ensures
            r == if n < self@.len() { Some(self@[n as int]) } else { None },
    {
        let ghost cs = self.chunks@;
        let mut acc: u64 = 0;
        let mut k: usize = 0;
        proof {
            lemma_chunks_count(cs);
            assert(cs.subrange(0, 0) =~= Seq::<Chunk>::empty());
        }
        while k < self.chunks.len()
            invariant
                self.wf(),
                cs == self.chunks@,
                k <= cs.len() <= 65536,
                acc == chunks_seq(cs.subrange(0, k as int)).len(),
                acc <= n,
                acc <= 65536 * k,
            decreases cs.len() - k,
        {
            let c = &self.chunks[k];
            proof {
                lemma_chunks_prefix(cs, k as int);
                c.container.lemma_view();
                lemma_lift_index(c.key, c.container@);
            }
            let m = c.container.len() as u64;
            if (n as u64) < acc + m {
                let low = c.container.select((n as u64 - acc) as u32);
                proof {
                    lemma_chunks_split(cs, k + 1);
                    lemma_join(c.key, low);
                    assert(self@[n as int] == chunks_seq(cs.subrange(0, k + 1))[n as int]);
                }
                return Some((c.key as u32) * 65536 + (low as u32));
            }
            acc = acc + m;
            k = k + 1;
        }
        assert(cs.subrange(0, k as int) =~= cs);
        None
    }

    /// The number of members at most `v`.
    pub fn rank(&self, v: u32) -> (r: u64)
        requires
            self.wf(),
        ensures
            splits32(self@, v as int, r as int),
    {
        let ghost cs = self.chunks@;
        let key = (v / 65536) as u16;
        let low = (v % 65536) as u16;
        let pos = self.find_key(key);
        let before = self.prefix_len(pos);
        let found = pos < self.chunks.len() && self.chunks[pos].key == key;
        let within: u64 = if found {
            proof {
                self.chunks@[pos as int].container.lemma_view();
            }
            self.chunks[pos].container.rank(low) as u64
        } else {
            0
        };
        proof {
            lemma_chunks_count(cs);
            assert(within <= 65536);
            assert(before <= 65536 * 65536) by (nonlinear_arith)
                requires
                    before <= 65536 * pos,
                    pos <= 65536,
            ;
            lemma_split(v);
            lemma_chunks_seq(cs);
            let p = cs.subrange(0, pos as int);
            let next = if found { pos + 1 } else { pos as int };
            let q = cs.subrange(0, next);
            let t = cs.subrange(next, cs.len() as int);
            lemma_chunks_split(cs, next);
            lemma_chunks_sub(cs, 0, pos as int);
            lemma_chunks_sub(cs, next, cs.len() as int);
            lemma_chunks_seq(p);
            lemma_chunks_seq(t);
            if found {
                lemma_chunks_prefix(cs, pos as int);
                cs[pos as int].container.lemma_view();
                lemma_lift_index(key, cs[pos as int].container@);
            } else {
                assert(q =~= p);
            }
            let sp = chunks_seq(p);
            let sq = chunks_seq(q);
            let st = chunks_seq(t);
            assert forall|i: int| 0 <= i < sp.len() implies sp[i] < v by {
                assert(sp.contains(sp[i]));
                lemma_member_key(p, sp[i]);
                let kk = choose|kk: int| 0 <= kk < p.len() && (#[trigger] p[kk]).key == key_of(sp[i]);
                assert(p[kk] == cs[kk]);
                lemma_split(sp[i]);
                lemma_join_order(key_of(sp[i]), low_of(sp[i]), key, low);
            }
            assert forall|i: int| 0 <= i < st.len() implies st[i] > v by {
                assert(st.contains(st[i]));
                lemma_member_key(t, st[i]);
                let kk = choose|kk: int| 0 <= kk < t.len() && (#[trigger] t[kk]).key == key_of(st[i]);
                assert(t[kk] == cs[next + kk]);
                if !found {
                    assert(cs[next + kk].key != key);
                } else {
                    assert(cs[pos as int].key < cs[next + kk].key);
                }
                lemma_split(st[i]);
                lemma_join_order(key, low, key_of(st[i]), low_of(st[i]));
            }
            if found {
                let lows = cs[pos as int].container@;
                assert forall|i: int| 0 <= i < lows.len() implies (lift(key, lows)[i] <= v <==> lows[i]
                    <= low) by {
                    lemma_join_order(key, lows[i], key, low);
                }
            }
        }
        before + within
    }

    /// The members in ascending order.
    pub fn to_vec(&self) -> (r: Vec<u32>)
        requires
            self.wf(),
        ensures
            r@ == self@,
    {
        let ghost cs = self.chunks@;
        let mut out: Vec<u32> = Vec::new();
        let mut k: usize = 0;
        assert(cs.subrange(0, 0) =~= Seq::<Chunk>::empty());
        while k < self.chunks.len()
            invariant
                self.wf(),
                cs == self.chunks@,
                k <= cs.len(),
                out@ == chunks_seq(cs.subrange(0, k as int)),
            decreases cs.len() - k,
        {
            let c = &self.chunks[k];
            let lows = c.container.to_array();
            let ghost base = out@;
            let mut j: usize = 0;
            while j < lows.len()
                invariant
                    j <= lows@.len(),
                    out@ == base + lift(c.key, lows@.subrange(0, j as int)),
                decreases lows@.len() - j,
            {
                proof {
                    lemma_join(c.key, lows@[j as int]);
                }
                out.push((c.key as u32) * 65536 + (lows[j] as u32));
                assert(out@ =~= base + lift(c.key, lows@.subrange(0, j + 1)));
                j = j + 1;
            }
            proof {
                assert(lows@.subrange(0, j as int) =~= lows@);
                lemma_chunks_prefix(cs, k as int);
            }
            k = k + 1;
        }
        assert(cs.subrange(0, k as int) =~= cs);
        out
    }

    /// The bitmap of the values that `op` keeps from `self` and `other`:
    /// a merge-join over the keys, with the containers of shared keys
    /// combined and the rest copied or dropped as `op` asks.
    pub fn combine(&self, other: &RoaringBitmap, op: SetOp) -> (r: RoaringBitmap)
        requires
            self.wf(),
            other.wf(),
        ensures
            r.wf(),
            r.members() == op.apply(self.members(), other.members()),
    {
        let ghost a = self.chunks@;
        let ghost b = other.chunks@;
        let mut out: Vec<Chunk> = Vec::new();
        let mut i: usize = 0;
        let mut j: usize = 0;
        proof {
            assert forall|v: u32| #[trigger] in_chunks(out@, v) == op.selects(
                in_chunks(a.subrange(0, 0), v),
                in_chunks(b.subrange(0, 0), v),
            ) by {
                assert(a.subrange(0, 0).len() == 0);
                assert(b.subrange(0, 0).len() == 0);
            }
        }
        while i < self.chunks.len() || j < other.chunks.len()
            invariant
                self.wf(),
                other.wf(),
                a == self.chunks@,
                b == other.chunks@,
                i <= a.len(),
                j <= b.len(),
                chunks_wf(out@),
                i < a.len() ==> forall|q: int| 0 <= q < j ==> b[q].key < a[i as int].key,
                j < b.len() ==> forall|p: int| 0 <= p < i ==> a[p].key < b[j as int].key,
                forall|k: int|
                    0 <= k < out@.len() ==> (i < a.len() ==> out@[k].key < a[i as int].key) && (j
                        < b.len() ==> out@[k].key < b[j as int].key),
                forall|v: u32| #[trigger]
                    in_chunks(out@, v) == op.selects(
                        in_chunks(a.subrange(0, i as int), v),
                        in_chunks(b.subrange(0, j as int), v),
                    ),
            decreases a.len() + b.len() - i - j,
        {
            let ghost a0 = a.subrange(0, i as int);
            let ghost b0 = b.subrange(0, j as int);
            let ghost out0 = out@;
            let take_a = j >= other.chunks.len() || (i < self.chunks.len()
                && self.chunks[i].key <= other.chunks[j].key);
            let take_b = i >= self.chunks.len() || (j < other.chunks.len()
                && other.chunks[j].key <= self.chunks[i].key);
            let key = if take_a { self.chunks[i].key } else { other.chunks[j].key };
            let ghost contribution = |l: u16|
                op.selects(
                    take_a && a[i as int].container@.contains(l),
                    take_b && b[j as int].container@.contains(l),
                );
            let made: Option<Container> = if take_a && take_b {
                let c = self.chunks[i].container.combine(&other.chunks[j].container, op);
                if c.len() > 0 {
                    Some(c)
                } else {
                    proof {
                        assert forall|l: u16| !#[trigger] contribution(l) by {
                            if contribution(l) {
                                assert(c@.contains(l));
                            }
                        }
                    }
                    None
                }
            } else if take_a {
                if op.keeps(true, false) {
                    Some(self.chunks[i].container.duplicate())
                } else {
                    None
                }
            } else {
                if op.keeps(false, true) {
                    Some(other.chunks[j].container.duplicate())
                } else {
                    None
                }
            };
            let ghost pushed = made is Some;
            match made {
                Some(c) => {
                    let ch = Chunk { key, container: c };
                    proof {
                        assert forall|l: u16| #[trigger] ch.container@.contains(l) == contribution(l)
                            by {
                        }
                        assert(chunks_wf(out0.push(ch))) by {
                            let n = out0.push(ch);
                            assert forall|p: int, q: int| 0 <= p < q < n.len() implies n[p].key
                                < n[q].key by {
                                if q == out0.len() {
                                    assert(n[p] == out0[p]);
                                }
                            }
                            assert forall|p: int| 0 <= p < n.len() implies (#[trigger] n[p]).container.wf()
                                && n[p].container@.len() > 0 by {
                                if p < out0.len() {
                                    assert(n[p] == out0[p]);
                                }
                            }
                        }
                    }
                    out.push(ch);
                    proof {
                        assert forall|v: u32| #[trigger]
                            in_chunks(out@, v) == (in_chunks(out0, v) || (key_of(v) == key
                                && contribution(low_of(v)))) by {
                            lemma_in_chunks_push(out0, ch, v);
                        }
                    }
                },
                None => {
                    proof {
                        assert forall|l: u16| !#[trigger] contribution(l) by {}
                        assert forall|v: u32| #[trigger]
                            in_chunks(out@, v) == (in_chunks(out0, v) || (key_of(v) == key
                                && contribution(low_of(v)))) by {}
                    }
                },
            }
            if take_a {
                proof {
                    assert(a.subrange(0, i + 1) =~= a0.push(a[i as int]));
                }
                i = i + 1;
            }
            if take_b {
                proof {
                    assert(b.subrange(0, j + 1) =~= b0.push(b[j as int]));
                }
                j = j + 1;
            }
            proof {
                assert forall|v: u32| #[trigger]
                    in_chunks(out@, v) == op.selects(
                        in_chunks(a.subrange(0, i as int), v),
                        in_chunks(b.subrange(0, j as int), v),
                    ) by {
                    if take_a {
                        lemma_in_chunks_push(a0, a[i - 1], v);
                    } else {
                        assert(a.subrange(0, i as int) == a0);
                    }
                    if take_b {
                        lemma_in_chunks_push(b0, b[j - 1], v);
                    } else {
                        assert(b.subrange(0, j as int) == b0);
                    }
                    if key_of(v) == key {
                        assert forall|p: int| 0 <= p < a0.len() implies (#[trigger] a0[p]).key
                            != key_of(v) by {
                            assert(a0[p] == a[p]);
                        }
                        assert forall|q: int| 0 <= q < b0.len() implies (#[trigger] b0[q]).key
                            != key_of(v) by {
                            assert(b0[q] == b[q]);
                        }
                        lemma_no_chunk(a0, v);
                        lemma_no_chunk(b0, v);
                        lemma_no_chunk(out0, v);
                        assert(!in_chunks(out0, v));
                        assert(in_chunks(out@, v) == contribution(low_of(v)));
                    } else {
                        if !pushed {
                            assert(out@ == out0);
                        }
                        assert(in_chunks(out@, v) == in_chunks(out0, v));
                        assert(in_chunks(a.subrange(0, i as int), v) == in_chunks(a0, v));
                        assert(in_chunks(b.subrange(0, j as int), v) == in_chunks(b0, v));
                    }
                }
            }
        }
        proof {
            assert(a.subrange(0, i as int) =~= a);
            assert(b.subrange(0, j as int) =~= b);
        }
        let r = RoaringBitmap { chunks: out };
        proof {
            lemma_chunks_seq(a);
            lemma_chunks_seq(b);
            lemma_chunks_seq(r.chunks@);
            assert(r.members() =~= op.apply(self.members(), other.members()));
        }
        r
    }

    /// How many values `op` keeps from `self` and `other`, counted key by
    /// key without building any container.
    pub fn combine_len(&self, other: &RoaringBitmap, op: SetOp) -> (n: u64)
        requires
            self.wf(),
            other.wf(),
        ensures
            n == op.apply(self.members(), other.members()).len(),
    {
        let ghost a = self.chunks@;
        let ghost b = other.chunks@;
        let mut count: u64 = 0;
        let ghost mut acc: Set<u32> = Set::empty();
        let mut i: usize = 0;
        let mut j: usize = 0;
        proof {
            lemma_chunks_count(a);
            lemma_chunks_count(b);
            assert forall|v: u32| #[trigger] acc.contains(v) == op.selects(
                in_chunks(a.subrange(0, 0), v),
                in_chunks(b.subrange(0, 0), v),
            ) by {
                assert(a.subrange(0, 0).len() == 0);
                assert(b.subrange(0, 0).len() == 0);
            }
        }
        while i < self.chunks.len() || j < other.chunks.len()
            invariant
                self.wf(),
                other.wf(),
                a == self.chunks@,
                b == other.chunks@,
                a.len() <= 65536,
                b.len() <= 65536,
                i <= a.len(),
                j <= b.len(),
                i < a.len() ==> forall|q: int| 0 <= q < j ==> b[q].key < a[i as int].key,
                j < b.len() ==> forall|p: int| 0 <= p < i ==> a[p].key < b[j as int].key,
                acc.finite(),
                count == acc.len(),
                count <= (i + j) * 0x1_0000_0000,
                forall|v: u32| #[trigger]
                    acc.contains(v) == op.selects(
                        in_chunks(a.subrange(0, i as int), v),
                        in_chunks(b.subrange(0, j as int), v),
                    ),
                forall|v: u32|
                    #![trigger acc.contains(v)]
                    acc.contains(v) ==> (i < a.len() ==> key_of(v) < a[i as int].key) && (j
                        < b.len() ==> key_of(v) < b[j as int].key),
            decreases a.len() + b.len() - i - j,
        {
            let ghost a0 = a.subrange(0, i as int);
            let ghost b0 = b.subrange(0, j as int);
            let take_a = j >= other.chunks.len() || (i < self.chunks.len()
                && self.chunks[i].key <= other.chunks[j].key);
            let take_b = i >= self.chunks.len() || (j < other.chunks.len()
                && other.chunks[j].key <= self.chunks[i].key);
            let key = if take_a { self.chunks[i].key } else { other.chunks[j].key };
            let ghost sa: Set<u16> = if take_a { a[i as int].container@.to_set() } else { Set::empty() };
            let ghost sb: Set<u16> = if take_b { b[j as int].container@.to_set() } else { Set::empty() };
            let ghost s = op.apply(sa, sb);
            proof {
                if take_a {
                    a[i as int].container.lemma_view();
                    lemma_ascending16_set_len(a[i as int].container@);
                }
                if take_b {
                    b[j as int].container.lemma_view();
                    lemma_ascending16_set_len(b[j as int].container@);
                }
                if !take_b {
                    assert(s =~= if op.selects(true, false) { sa } else { Set::empty() });
                }
                if !take_a {
                    assert(s =~= if op.selects(false, true) { sb } else { Set::empty() });
                }
            }
            let add: u64 = if take_a && take_b {
                self.chunks[i].container.combine_len(&other.chunks[j].container, op) as u64
            } else if take_a {
                if op.keeps(true, false) {
                    self.chunks[i].container.len() as u64
                } else {
                    0
                }
            } else {
                if op.keeps(false, true) {
                    other.chunks[j].container.len() as u64
                } else {
                    0
                }
            };
            let ghost f = |l: u16| join(key, l);
            let ghost lifted = s.map(f);
            proof {
                assert(s.finite());
                assert(add == s.len());
                assert forall|x: u16, y: u16| s.contains(x) && s.contains(y) && #[trigger] f(x)
                    == #[trigger] f(y) implies x == y by {
                    lemma_join(key, x);
                    lemma_join(key, y);
                }
                vstd::set_lib::lemma_map_size(s, lifted, f);
                assert forall|v: u32| #[trigger] lifted.contains(v) == (key_of(v) == key && s.contains(
                    low_of(v),
                )) by {
                    lemma_split(v);
                    if lifted.contains(v) {
                        let l = choose|l: u16| s.contains(l) && f(l) == v;
                        lemma_join(key, l);
                    }
                    if key_of(v) == key && s.contains(low_of(v)) {
                        assert(f(low_of(v)) == v);
                    }
                }
                assert(acc.disjoint(lifted));
                vstd::set_lib::lemma_set_disjoint_lens(acc, lifted);
            }
            count = count + add;
            proof {
                acc = acc + lifted;
            }
            if take_a {
                proof {
                    assert(a.subrange(0, i + 1) =~= a0.push(a[i as int]));
                }
                i = i + 1;
            }
            if take_b {
                proof {
                    assert(b.subrange(0, j + 1) =~= b0.push(b[j as int]));
                }
                j = j + 1;
            }
            proof {
                assert forall|v: u32| #[trigger]
                    acc.contains(v) == op.selects(
                        in_chunks(a.subrange(0, i as int), v),
                        in_chunks(b.subrange(0, j as int), v),
                    ) by {
                    if take_a {
                        lemma_in_chunks_push(a0, a[i - 1], v);
                    } else {
                        assert(a.subrange(0, i as int) == a0);
                    }
                    if take_b {
                        lemma_in_chunks_push(b0, b[j - 1], v);
                    } else {
                        assert(b.subrange(0, j as int) == b0);
                    }
                    if key_of(v) == key {
                        assert forall|p: int| 0 <= p < a0.len() implies (#[trigger] a0[p]).key
                            != key_of(v) by {
                            assert(a0[p] == a[p]);
                        }
                        assert forall|q: int| 0 <= q < b0.len() implies (#[trigger] b0[q]).key
                            != key_of(v) by {
                            assert(b0[q] == b[q]);
                        }
                        lemma_no_chunk(a0, v);
                        lemma_no_chunk(b0, v);
                    }
                }
            }
        }
        proof {
            assert(a.subrange(0, i as int) =~= a);
            assert(b.subrange(0, j as int) =~= b);
            lemma_chunks_seq(a);
            lemma_chunks_seq(b);
            assert(acc =~= op.apply(self.members(), other.members()));
        }
        count
    }

    /// The members of either bitmap.
    pub fn union(&self, other: &RoaringBitmap) -> (r: RoaringBitmap)
        requires
            self.wf(),
            other.wf(),
        ensures
            r.wf(),
            r.members() == self.members().union(other.members()),
    {
        self.combine(other, SetOp::Union)
    }

    /// The members of both bitmaps.
    pub fn intersection(&self, other: &RoaringBitmap) -> (r: RoaringBitmap)
        requires
            self.wf(),
            other.wf(),
        ensures
            r.wf(),
            r.members() == self.members().intersect(other.members()),
    {
        self.combine(other, SetOp::Intersection)
    }

    /// The members of `self` that are not members of `other`.
    pub fn difference(&self, other: &RoaringBitmap) -> (r: RoaringBitmap)
        requires
            self.wf(),
            other.wf(),
        ensures
            r.wf(),
            r.members() == self.members().difference(other.members()),
    {
        self.combine(other, SetOp::Difference)
    }

    /// The members of exactly one of the bitmaps.
    pub fn symmetric_difference(&self, other: &RoaringBitmap) -> (r: RoaringBitmap)
        requires
            self.wf(),
            other.wf(),
        ensures
            r.wf(),
            r.members() == self.members().union(other.members()).difference(
                self.members().intersect(other.members()),
            ),
    {
        self.combine(other, SetOp::SymmetricDifference)
    }

    /// The size of the union, without building it.
    pub fn union_len(&self, other: &RoaringBitmap) -> (n: u64)
        requires
            self.wf(),
            other.wf(),
        ensures
            n == self.members().union(other.members()).len(),
    {
        self.combine_len(other, SetOp::Union)
    }

    /// The size of the intersection, without building it.
    pub fn intersection_len(&self, other: &RoaringBitmap) -> (n: u64)
        requires
            self.wf(),
            other.wf(),
        ensures
            n == self.members().intersect(other.members()).len(),
    {
        self.combine_len(other, SetOp::Intersection)
    }

    /// The size of the difference, without building it.
    pub fn difference_len(&self, other: &RoaringBitmap) -> (n: u64)
        requires
            self.wf(),
            other.wf(),
        ensures
            n == self.members().difference(other.members()).len(),
    {
        self.combine_len(other, SetOp::Difference)
    }

    /// The size of the symmetric difference, without building it.
    pub fn symmetric_difference_len(&self, other: &RoaringBitmap) -> (n: u64)
        requires
            self.wf(),
            other.wf(),
        ensures
            n == self.members().union(other.members()).difference(
                self.members().intersect(other.members()),
            ).len(),
    {
        self.combine_len(other, SetOp::SymmetricDifference)
    }

    /// Replaces `self` by the result of `op` on `self` and `other`.
    pub fn combine_with(&mut self, other: &RoaringBitmap, op: SetOp)
        requires
            old(self).wf(),
            other.wf(),
        ensures
            final(self).wf(),
            final(self).members() == op.apply(old(self).members(), other.members()),
    {
        let r = self.combine(other, op);
        *self = r;
    }

    /// Adds the members of `other`.
    pub fn union_with(&mut self, other: &RoaringBitmap)
        requires
            old(self).wf(),
            other.wf(),
        ensures
            final(self).wf(),
            final(self).members() == old(self).members().union(other.members()),
    {
        self.combine_with(other, SetOp::Union)
    }

    /// Keeps only the members that `other` also has.
    pub fn intersect_with(&mut self, other: &RoaringBitmap)
        requires
            old(self).wf(),
            other.wf(),
        ensures
            final(self).wf(),
            final(self).members() == old(self).members().intersect(other.members()),
    {
        self.combine_with(other, SetOp::Intersection)
    }

    /// Drops the members that `other` has.
    pub fn difference_with(&mut self, other: &RoaringBitmap)
        requires
            old(self).wf(),
            other.wf(),
        ensures
            final(self).wf(),
            final(self).members() == old(self).members().difference(other.members()),
    {
        self.combine_with(other, SetOp::Difference)
    }

    /// Keeps the values that exactly one of `self` and `other` has.
    pub fn symmetric_difference_with(&mut self, other: &RoaringBitmap)
        requires
            old(self).wf(),
            other.wf(),
        ensures
            final(self).wf(),
            final(self).members() == old(self).members().union(other.members()).difference(
                old(self).members().intersect(other.members()),
            ),
    {
        self.combine_with(other, SetOp::SymmetricDifference)
    }

    /// Whether the bitmaps share no member.
    pub fn is_disjoint(&self, other: &RoaringBitmap) -> (r: bool)
        requires
            self.wf(),
            other.wf(),
        ensures
            r == self.members().disjoint(other.members()),
    {
        let n = self.intersection_len(other);
        proof {
            self.lemma_finite();
            let i = self.members().intersect(other.members());
            assert(i.finite());
            if n != 0 {
                let x = i.choose();
                assert(i.contains(x));
            } else {
                i.lemma_len0_is_empty();
                assert forall|x: u32| !(self.members().contains(x) && other.members().contains(x)) by {
                    assert(!i.contains(x));
                }
            }
        }
        n == 0
    }

    /// Whether every member of `self` is a member of `other`.
    pub fn is_subset(&self, other: &RoaringBitmap) -> (r: bool)
        requires
            self.wf(),
            other.wf(),
        ensures
            r == self.members().subset_of(other.members()),
    {
        let n = self.difference_len(other);
        proof {
            self.lemma_finite();
            let d = self.members().difference(other.members());
            if n != 0 {
                let x = d.choose();
                assert(d.contains(x));
            } else {
                assert(d =~= Set::empty());
                assert forall|x: u32| self.members().contains(x) implies other.members().contains(
                    x,
                ) by {
                    assert(!d.contains(x));
                }
            }
        }
        n == 0
    }

    /// Whether every member of `other` is a member of `self`.
    pub fn is_superset(&self, other: &RoaringBitmap) -> (r: bool)
        requires
            self.wf(),
            other.wf(),
        ensures
            r == other.members().subset_of(self.members()),
    {
        other.is_subset(self)
    }

    /// Whether the bitmaps have the same members.
    pub fn equals(&self, other: &RoaringBitmap) -> (r: bool)
        requires
            self.wf(),
            other.wf(),
        ensures
            r == (self@ == other@),
    {
        let r = self.is_subset(other) && other.is_subset(self);
        proof {
            if r {
                self.lemma_ascending();
                other.lemma_ascending();
                assert forall|x: u32| self@.contains(x) <==> other@.contains(x) by {
                    assert(self.members().contains(x) == self@.contains(x));
                    assert(other.members().contains(x) == other@.contains(x));
                }
                crate::order::lemma_ascending32_unique(self@, other@);
            }
        }
        r
    }

    /// The members form a finite set.
    pub proof fn lemma_finite(&self)
        ensures
            self.members().finite(),
    {
        vstd::seq_lib::seq_to_set_is_finite(self@);
    }

    /// Adds every value of `values`; returns how many were not members.
    pub fn insert_many(&mut self, values: &Vec<u32>) -> (n: u32)
        requires
            old(self).wf(),
            values@.len() <= u32::MAX,
        ensures
            final(self).wf(),
            final(self).members() == old(self).members().union(values@.to_set()),
            n == final(self).members().len() - old(self).members().len(),
    {
        let ghost start = self.members();
        let mut n: u32 = 0;
        let mut k: usize = 0;
        proof {
            self.lemma_finite();
            assert(values@.subrange(0, 0).to_set() =~= Set::<u32>::empty());
            assert(start.union(Set::<u32>::empty()) =~= start);
        }
        while k < values.len()
            invariant
                self.wf(),
                k <= values@.len() <= u32::MAX,
                start.finite(),
                self.members() == start.union(values@.subrange(0, k as int).to_set()),
                n == self.members().len() - start.len(),
                n <= k,
            decreases values@.len() - k,
        {
            let ghost before = self.members();
            let added = self.insert(values[k]);
            proof {
                self.lemma_finite();
                let pre = values@.subrange(0, k as int);
                assert(values@.subrange(0, k + 1) =~= pre.push(values@[k as int]));
                crate::order::lemma_push_contains(pre, values@[k as int]);
                assert(pre.push(values@[k as int]).to_set() =~= pre.to_set().insert(
                    values@[k as int],
                ));
                assert(self.members() =~= start.union(values@.subrange(0, k + 1).to_set()));
                vstd::set_lib::lemma_len_subset(start, before);
                if added {
                    assert(!before.contains(values@[k as int]));
                } else {
                    assert(before.insert(values@[k as int]) =~= before);
                }
            }
            if added {
                n = n + 1;
            }
            k = k + 1;
        }
        proof {
            assert(values@.subrange(0, k as int) =~= values@);
        }
        n
    }

    /// A bitmap of the values of `values`, each container in its chosen
    /// encoding.
    pub fn from_values(values: &Vec<u32>) -> (r: RoaringBitmap)
        ensures
            r.wf(),
            r.members() == values@.to_set(),
            r.optimized(),
    {
        let mut r = RoaringBitmap::new();
        let mut k: usize = 0;
        proof {
            assert(r.members() =~= values@.subrange(0, 0).to_set());
        }
        while k < values.len()
            invariant
                r.wf(),
                k <= values@.len(),
                r.members() == values@.subrange(0, k as int).to_set(),
            decreases values@.len() - k,
        {
            r.insert(values[k]);
            proof {
                let pre = values@.subrange(0, k as int);
                assert(values@.subrange(0, k + 1) =~= pre.push(values@[k as int]));
                crate::order::lemma_push_contains(pre, values@[k as int]);
                assert(r.members() =~= values@.subrange(0, k + 1).to_set());
            }
            k = k + 1;
        }
        proof {
            assert(values@.subrange(0, k as int) =~= values@);
        }
        let ghost members = r.members();
        r.run_optimize();
        proof {
            assert(r.members() == members);
        }
        r
    }

    /// Every container is in the encoding that `chosen_encoding` picks for
    /// its members.
    pub closed spec fn optimized(&self) -> bool {
        forall|k: int|
            0 <= k < self.chunks@.len() ==> (#[trigger] self.chunks@[k]).container.encoding()
                == chosen_encoding(
                self.chunks@[k].container@.len(),
                run_count(self.chunks@[k].container@),
            )
    }

    /// Re-encodes every container as `chosen_encoding` picks; the members
    /// stay as they are.
    pub fn run_optimize(&mut self)
        requires
            old(self).wf(),
        ensures
            final(self).wf(),
            final(self)@ == old(self)@,
            final(self).optimized(),
    {
        let ghost cs = self.chunks@;
        let mut k: usize = 0;
        while k < self.chunks.len()
            invariant
                chunks_wf(self.chunks@),
                k <= self.chunks@.len() == cs.len(),
                forall|i: int|
                    0 <= i < cs.len() ==> (#[trigger] self.chunks@[i]).key == cs[i].key
                        && self.chunks@[i].container@ == cs[i].container@,
                forall|i: int|
                    0 <= i < k ==> (#[trigger] self.chunks@[i]).container.encoding()
                        == chosen_encoding(
                        self.chunks@[i].container@.len(),
                        run_count(self.chunks@[i].container@),
                    ),
            decreases cs.len() - k,
        {
            proof {
                self.chunks@[k as int].container.lemma_view();
            }
            let lows = self.chunks[k].container.to_array();
            let c = Container::from_sorted(lows);
            let key = self.chunks[k].key;
            let ghost before = self.chunks@;
            self.chunks.set(k, Chunk { key, container: c });
            proof {
                lemma_update_chunk(before, k as int, self.chunks@[k as int]);
            }
            k = k + 1;
        }
        proof {
            assert(chunks_seq(self.chunks@) == chunks_seq(cs)) by {
                lemma_same_views(self.chunks@, cs);
            }
        }
    }

    /// The number of containers.
    pub closed spec fn container_count(&self) -> nat {
        self.chunks@.len()
    }

    /// The encoding of the `k`-th container in key order.
    pub closed spec fn encoding_at(&self, k: int) -> Encoding {
        self.chunks@[k].container.encoding()
    }

    /// Which encoding each container uses, in key order.
    pub fn encodings(&self) -> (r: Vec<Encoding>)
        ensures
            r@.len() == self.container_count(),
            forall|k: int| 0 <= k < r@.len() ==> r@[k] == self.encoding_at(k),
    {
        let mut r: Vec<Encoding> = Vec::new();
        let mut k: usize = 0;
        while k < self.chunks.len()
            invariant
                k <= self.chunks@.len(),
                r@.len() == k,
                forall|i: int| 0 <= i < k ==> r@[i] == self.chunks@[i].container.encoding(),
            decreases self.chunks@.len() - k,
        {
            r.push(self.chunks[k].container.kind());
            k = k + 1;
        }
        r
    }

    /// Every 32-bit value: 65,536 containers, each one run over all low parts.
    pub fn full() -> (r: RoaringBitmap)
        ensures
            r.wf(),
            r@.len() == 0x1_0000_0000,
            forall|v: u32| r@.contains(v),
    {
        let mut chunks: Vec<Chunk> = Vec::new();
        let mut k: u32 = 0;

        while k < 65536
            invariant
                k <= 65536,
                chunks@.len() == k,
                chunks_wf(chunks@),
                forall|i: int| 0 <= i < k ==> (#[trigger] chunks@[i]).key == i,
                forall|i: int| 0 <= i < k ==> forall|l: u16| (#[trigger] chunks@[i]).container@.contains(l),
                chunks_seq(chunks@).len() == 65536 * k,
            decreases 65536 - k,
        {
            let mut runs: Vec<Interval> = Vec::new();
            runs.push(Interval { start: 0, end: 65535 });
            let c = Chunk { key: k as u16, container: Container::Run(runs) };
            let ghost iv = Interval { start: 0, end: 65535 };
            proof {
                assert(runs@ =~= seq![iv]);
                lemma_full_interval();
                crate::runs::lemma_runs_seq(runs@);
                assert(c.container@.len() == 65536);
                lemma_chunks_push(chunks@, c);
                crate::chunks::lemma_lift(c.key, c.container@);
            }
            chunks.push(c);
            k = k + 1;
        }
        let r = RoaringBitmap { chunks };
        proof {
            lemma_chunks_seq(r.chunks@);
            assert forall|v: u32| r@.contains(v) by {
                let key = key_of(v);
                assert(r.chunks@[key as int].key == key);
                assert(r.chunks@[key as int].container@.contains(low_of(v)));
            }
        }
        r
    }

    /// The serialized form of the bitmap: the layout of the canonical chunk
    /// list of its members, each container in its chosen encoding. It
    /// depends on the members alone.
    pub open spec fn serialized(&self) -> Seq<u8> {
        encode(canonical_of(self@))
    }

    /// The members have a canonical chunk list (which `serialize` and
    /// `byte_size` build, and so establish).
    pub open spec fn serializable(&self) -> bool {
        canonical(canonical_of(self@)) && chunks_seq(canonical_of(self@)) == self@
    }

    /// Whether some container is a run list.
    fn any_runs(&self) -> (r: bool)
        ensures
            r == has_runs(self.chunks@),
    {
        let mut k: usize = 0;
        while k < self.chunks.len()
            invariant
                k <= self.chunks@.len(),
                forall|i: int| 0 <= i < k ==> !(self.chunks@[i].container is Run),
            decreases self.chunks@.len() - k,
        {
            match self.chunks[k].container {
                Container::Run(_) => {
                    return true;
                },
                _ => {},
            }
            k = k + 1;
        }
        false
    }

    /// Bytes before the first payload.
    fn header_size(&self, runs: bool) -> (n: usize)
        requires
            self.wf(),
            runs == has_runs(self.chunks@),
        ensures
            n == header_len(self.chunks@),
            n <= 16 + 9 * 65536,
    {
        proof {
            lemma_chunks_count(self.chunks@);
        }
        let n = self.chunks.len();
        if !runs {
            8 + 8 * n
        } else if n < OFFSETS_FROM {
            4 + (n + 7) / 8 + 4 * n
        } else {
            4 + (n + 7) / 8 + 8 * n
        }
    }

    /// The length of the layout of the chunk list as it stands, computed
    /// from the container sizes.
    fn layout_size(&self) -> (n: usize)
        requires
            self.wf(),
        ensures
            n == encode(self.chunks@).len(),
    {
        let ghost cs = self.chunks@;
        let runs = self.any_runs();
        let header = self.header_size(runs);
        let mut total: usize = header;
        let mut k: usize = 0;
        proof {
            lemma_chunks_count(cs);
            assert(cs.subrange(0, 0) =~= Seq::<Chunk>::empty());
        }
        while k < self.chunks.len()
            invariant
                self.wf(),
                cs == self.chunks@,
                cs.len() <= 65536,
                k <= cs.len(),
                header <= 16 + 9 * 65536,
                total == header + payloads(cs.subrange(0, k as int)).len(),
                payloads(cs.subrange(0, k as int)).len() <= BITMAP_BYTES * k,
            decreases cs.len() - k,
        {
            let m = payload_size(&self.chunks[k].container);
            proof {
                assert(cs.subrange(0, k + 1) =~= cs.subrange(0, k as int).push(cs[k as int]));
                lemma_payloads_push(cs.subrange(0, k as int), cs[k as int]);
            }
            total = total + m as usize;
            k = k + 1;
        }
        proof {
            assert(cs.subrange(0, k as int) =~= cs);
            lemma_encode_len(cs);
        }
        total
    }

    /// The layout of the chunk list as it stands.
    fn write(&self) -> (r: Vec<u8>)
        requires
            self.wf(),
        ensures
            r@ == encode(self.chunks@),
    {
        let ghost cs = self.chunks@;
        proof {
            lemma_chunks_count(cs);
            lemma_payloads_len(cs);
        }
        let n = self.chunks.len();
        let runs = self.any_runs();
        let header = self.header_size(runs);
        let mut out: Vec<u8> = Vec::new();
        if !runs {
            put32(&mut out, COOKIE_NO_RUNS);
            put32(&mut out, n as u32);
        } else {
            proof {
                let k = choose|k: int| 0 <= k < cs.len() && (#[trigger] cs[k]).container is Run;
            }
            put32(&mut out, COOKIE_RUNS + 65536 * (n - 1) as u32);
            put_run_flags(&mut out, &self.chunks);
        }
        let ghost head = out@;
        let mut k: usize = 0;
        assert(cs.subrange(0, 0) =~= Seq::<Chunk>::empty());
        while k < n
            invariant
                self.wf(),
                cs == self.chunks@,
                n == cs.len(),
                k <= n,
                out@ == head + descriptors(cs.subrange(0, k as int)),
            decreases n - k,
        {
            let c = &self.chunks[k];
            proof {
                assert(cs[k as int].container@.len() > 0);
                c.container.lemma_view();
            }
            put16(&mut out, c.key);
            put16(&mut out, (c.container.len() - 1) as u16);
            proof {
                assert(cs.subrange(0, k + 1) =~= cs.subrange(0, k as int).push(cs[k as int]));
                lemma_payloads_push(cs.subrange(0, k as int), cs[k as int]);
            }
            k = k + 1;
        }
        assert(cs.subrange(0, k as int) =~= cs);
        let ghost head2 = out@;
        if !runs || n >= OFFSETS_FROM {
            let mut pos: usize = header;
            k = 0;
            while k < n
                invariant
                    self.wf(),
                    cs == self.chunks@,
                    n == cs.len() <= 65536,
                    k <= n,
                    header == header_len(cs) <= 16 + 9 * 65536,
                    pos == header + payloads(cs.subrange(0, k as int)).len(),
                    payloads(cs.subrange(0, k as int)).len() <= BITMAP_BYTES * k,
                    out@ == head2 + offsets(cs.subrange(0, k as int), header as int),
                decreases n - k,
            {
                proof {
                    assert(cs.subrange(0, k + 1) =~= cs.subrange(0, k as int).push(cs[k as int]));
                    lemma_payloads_push(cs.subrange(0, k as int), cs[k as int]);
                }
                put32(&mut out, pos as u32);
                let m = payload_size(&self.chunks[k].container);
                pos = pos + m as usize;
                k = k + 1;
            }
            assert(cs.subrange(0, k as int) =~= cs);
        }
        let ghost head3 = out@;
        k = 0;
        while k < n
            invariant
                self.wf(),
                cs == self.chunks@,
                n == cs.len(),
                k <= n,
                out@ == head3 + payloads(cs.subrange(0, k as int)),
            decreases n - k,
        {
            put_payload(&mut out, &self.chunks[k].container);
            proof {
                assert(cs.subrange(0, k + 1) =~= cs.subrange(0, k as int).push(cs[k as int]));
                lemma_payloads_push(cs.subrange(0, k as int), cs[k as int]);
            }
            k = k + 1;
        }
        assert(cs.subrange(0, k as int) =~= cs);
        assert(out@ =~= encode(cs)) by {
            reveal(encode);
        }
        out
    }

    /// A copy with every container re-encoded as `chosen_encoding` picks.
    fn canonical_copy(&self) -> (c: RoaringBitmap)
        requires
            self.wf(),
        ensures
            c.wf(),
            c@ == self@,
            canonical(c.chunks@),
    {
        let ghost cs = self.chunks@;
        let mut out: Vec<Chunk> = Vec::new();
        let mut k: usize = 0;
        while k < self.chunks.len()
            invariant
                self.wf(),
                cs == self.chunks@,
                k <= cs.len(),
                out@.len() == k,
                forall|i: int|
                    0 <= i < k ==> (#[trigger] out@[i]).key == cs[i].key && out@[i].container@
                        == cs[i].container@ && out@[i].container.wf()
                        && out@[i].container.encoding() == chosen_encoding(
                        out@[i].container@.len(),
                        run_count(out@[i].container@),
                    ),
            decreases cs.len() - k,
        {
            proof {
                cs[k as int].container.lemma_view();
            }
            let lows = self.chunks[k].container.to_array();
            let c = Container::from_sorted(lows);
            out.push(Chunk { key: self.chunks[k].key, container: c });
            k = k + 1;
        }
        proof {
            assert forall|i: int| 0 <= i < out@.len() implies (#[trigger] out@[i]).key == cs[i].key
                && out@[i].container@ == cs[i].container@ by {}
            lemma_same_views(out@, cs);
            assert forall|i: int, j: int| 0 <= i < j < out@.len() implies out@[i].key < out@[j].key by {
                assert(out@[i].key == cs[i].key);
                assert(out@[j].key == cs[j].key);
            }
        }
        RoaringBitmap { chunks: out }
    }

    /// The exact length of `serialize`'s output, computed from the sizes of
    /// the containers in their chosen encodings, without writing bytes.
    pub fn byte_size(&self) -> (n: usize)
        requires
            self.wf(),
        ensures
            n == self.serialized().len(),
            self.serializable(),
    {
        let c = self.canonical_copy();
        let n = c.layout_size();
        proof {
            let t = canonical_of(self@);
            assert(canonical(c.chunks@) && chunks_seq(c.chunks@) == self@);
            lemma_canonical_unique(c.chunks@, t);
        }
        n
    }

    /// The serialized form: every container written in its chosen
    /// encoding, so the bytes depend on the members alone; see the codec
    /// module for the layout.
    pub fn serialize(&self) -> (r: Vec<u8>)
        requires
            self.wf(),
        ensures
            r@ == self.serialized(),
            self.serializable(),
    {
        let c = self.canonical_copy();
        let r = c.write();
        proof {
            let t = canonical_of(self@);
            assert(canonical(c.chunks@) && chunks_seq(c.chunks@) == self@);
            lemma_canonical_unique(c.chunks@, t);
        }
        r
    }

    /// Decodes the chunk list that `bytes` lays out, checking what keeps it
    /// well formed. The serialized form of any chunk list decodes to that
    /// very list.
    fn parse(bytes: &Vec<u8>) -> (r: Result<RoaringBitmap, FormatError>)
        ensures
            r matches Ok(b) ==> b.wf(),
            forall|t: Seq<Chunk>| #[trigger]
                encodes(bytes@, t) ==> (r matches Ok(b) && same_reps(b.chunks@, t)),
    {
        let (n, runs, desc, h) = match read_header(bytes) {
            Ok(x) => x,
            Err(e) => {
                return Err(e);
            },
        };
        let mut cursor = h;
        let mut chunks: Vec<Chunk> = Vec::new();
        let mut k: usize = 0;
        let mut prev: u16 = 0;
        proof {
            assert forall|t: Seq<Chunk>| #[trigger] encodes(bytes@, t) implies same_reps(
                chunks@,
                t.subrange(0, 0),
            ) && cursor == header_len(t) + payloads(t.subrange(0, 0)).len() by {
                assert(t.subrange(0, 0) =~= Seq::<Chunk>::empty());
            }
        }
        while k < n
            invariant
                n <= 65536,
                desc + 4 * n <= bytes@.len(),
                runs ==> 4 + (n + 7) / 8 <= desc,
                cursor <= bytes@.len(),
                k <= n,
                chunks@.len() == k,
                chunks_wf(chunks@),
                k > 0 ==> prev == chunks@[k - 1].key,
                forall|t: Seq<Chunk>| #[trigger]
                    encodes(bytes@, t) ==> t.len() == n && has_runs(t) == runs && desc == desc_start(t)
                        && cursor == header_len(t) + payloads(t.subrange(0, k as int)).len()
                        && same_reps(chunks@, t.subrange(0, k as int)),
            decreases n - k,
        {
            proof {
                assert forall|t: Seq<Chunk>| #[trigger] encodes(bytes@, t) implies read_so_far(
                    bytes@,
                    t,
                    n as int,
                    runs,
                    desc as int,
                    k as int,
                    cursor as int,
                    prev,
                ) by {
                    if k > 0 {
                        assert(chunks@[k - 1].key == t.subrange(0, k as int)[k - 1].key);
                    }
                }
            }
            match read_chunk(bytes, n, runs, desc, k, cursor, prev) {
                Some((ch, q)) => {
                    proof {
                        let old_chunks = chunks@;
                        let n2 = old_chunks.push(ch);
                        assert forall|i: int, j: int| 0 <= i < j < n2.len() implies n2[i].key
                            < n2[j].key by {
                            if j == k {
                                assert(n2[i] == old_chunks[i]);
                                if i < k - 1 {
                                    assert(old_chunks[i].key < old_chunks[k - 1].key);
                                }
                            }
                        }
                        assert forall|i: int| 0 <= i < n2.len() implies (#[trigger] n2[i]).container.wf()
                            && n2[i].container@.len() > 0 by {
                            if i < k {
                                assert(n2[i] == old_chunks[i]);
                            }
                        }
                        assert forall|t: Seq<Chunk>| #[trigger] encodes(bytes@, t) implies same_reps(
                            n2,
                            t.subrange(0, k + 1),
                        ) by {
                            assert(read_so_far(
                                bytes@,
                                t,
                                n as int,
                                runs,
                                desc as int,
                                k as int,
                                cursor as int,
                                prev,
                            ));
                            let pre = t.subrange(0, k as int);
                            assert forall|i: int| 0 <= i < n2.len() implies (#[trigger] n2[i]).key
                                == t.subrange(0, k + 1)[i].key && same_rep(
                                n2[i].container,
                                t.subrange(0, k + 1)[i].container,
                            ) by {
                                if i < k {
                                    assert(n2[i] == old_chunks[i]);
                                    assert(old_chunks[i].key == pre[i].key);
                                }
                            }
                        }
                    }
                    prev = ch.key;
                    chunks.push(ch);
                    cursor = q;
                },
                None => {
                    proof {
                        assert forall|t: Seq<Chunk>| #[trigger] encodes(bytes@, t) implies false by {
                            assert(read_so_far(
                                bytes@,
                                t,
                                n as int,
                                runs,
                                desc as int,
                                k as int,
                                cursor as int,
                                prev,
                            ));
                        }
                    }
                    return Err(FormatError::BadContainer);
                },
            }
            k = k + 1;
        }
        proof {
            assert forall|t: Seq<Chunk>| #[trigger] encodes(bytes@, t) implies same_reps(chunks@, t) by {
                assert(t.subrange(0, k as int) =~= t);
            }
        }
        Ok(RoaringBitmap { chunks })
    }

    /// Decodes serialized bytes. It succeeds exactly when `bytes` is the
    /// layout of some well-formed chunk list (in any encodings), and then
    /// gives a bitmap of that list's members; nothing partial or
    /// inconsistent is accepted. In particular the serialized form of a
    /// bitmap decodes to a bitmap with the same members.
    pub fn deserialize(bytes: &Vec<u8>) -> (r: Result<RoaringBitmap, FormatError>)
        ensures
            r matches Ok(b) ==> b.wf() && exists|t: Seq<Chunk>| #[trigger]
                encodes(bytes@, t) && chunks_seq(t) == b@,
            forall|t: Seq<Chunk>| #[trigger]
                encodes(bytes@, t) ==> (r matches Ok(b) && b@ == chunks_seq(t)),
            forall|a: RoaringBitmap|
                a.serializable() && #[trigger] a.serialized() == bytes@ ==> (r matches Ok(b) && b@
                    == a@),
    {
        let parsed = match RoaringBitmap::parse(bytes) {
            Ok(b) => b,
            Err(e) => {
                proof {
                    assert forall|a: RoaringBitmap| a.serializable() && #[trigger] a.serialized()
                        == bytes@ implies false by {
                        assert(encodes(bytes@, canonical_of(a@)));
                    }
                }
                return Err(e);
            },
        };
        let again = parsed.write();
        proof {
            assert forall|t: Seq<Chunk>| #[trigger] encodes(bytes@, t) implies again@ == bytes@
                && parsed@ == chunks_seq(t) by {
                lemma_same_reps_encode(parsed.chunks@, t);
                lemma_same_reps_views(parsed.chunks@, t);
            }
            assert forall|a: RoaringBitmap| a.serializable() && #[trigger] a.serialized() == bytes@ implies encodes(
                bytes@,
                canonical_of(a@),
            ) by {}
        }
        if same_bytes(&again, bytes) {
            proof {
                assert(encodes(bytes@, parsed.chunks@));
            }
            Ok(parsed)
        } else {
            Err(FormatError::Inconsistent)
        }
    }
}

/// The run over every low part holds each of them.
proof fn lemma_full_interval()
    ensures
        runs_seq(seq![Interval { start: 0, end: 65535 }]).len() == 65536,
        forall|l: u16| #[trigger] runs_seq(seq![Interval { start: 0, end: 65535 }]).contains(l),
{
    let iv = Interval { start: 0, end: 65535 };
    let r = seq![iv];
    assert(r.drop_last() =~= Seq::<Interval>::empty());
    assert(runs_seq(Seq::<Interval>::empty()) == Seq::<u16>::empty());
    assert(runs_seq(r) =~= interval_seq(iv));
    assert forall|l: u16| #[trigger] runs_seq(r).contains(l) by {
        assert(interval_seq(iv)[l as int] == l);
    }
}

/// Lists with the same keys and representations hold the same members.
proof fn lemma_same_reps_views(x: Seq<Chunk>, y: Seq<Chunk>)
    requires
        same_reps(x, y),
    ensures
        chunks_seq(x) == chunks_seq(y),
{
    assert forall|i: int| 0 <= i < x.len() implies (#[trigger] x[i]).key == y[i].key
        && x[i].container@ == y[i].container@ by {
        lemma_same_rep(x[i].container, y[i].container);
    }
    lemma_same_views(x, y);
}

/// Lists with the same keys and container members hold the same members.
proof fn lemma_same_views(x: Seq<Chunk>, y: Seq<Chunk>)
    requires
        x.len() == y.len(),
        forall|i: int|
            0 <= i < x.len() ==> (#[trigger] x[i]).key == y[i].key && x[i].container@
                == y[i].container@,
    ensures
        chunks_seq(x) == chunks_seq(y),
    decreases x.len(),
{
    if x.len() > 0 {
        lemma_same_views(x.drop_last(), y.drop_last());
        assert(x.last() == x[x.len() - 1]);
    }
}

/// The lifted members of a well-formed container, index by index.
proof fn lemma_lift_index(key: u16, lows: Seq<u16>)
    requires
        crate::order::ascending16(lows),
    ensures
        lift(key, lows).len() == lows.len(),
        forall|i: int| 0 <= i < lows.len() ==> #[trigger] lift(key, lows)[i] == join(key, lows[i]),
{
    crate::chunks::lemma_lift(key, lows);
}

} // verus!
