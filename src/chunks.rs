//! The chunk list: containers ordered by key, and the ascending sequence of
//! 32-bit members that they spell.
use vstd::prelude::*;
use crate::container::Container;
use crate::order::{ascending16, ascending32};

verus! {

/// The container of every member whose high 16 bits are `key`.
pub struct Chunk {
    pub key: u16,
    pub container: Container,
}

/// The high 16 bits of a value.
pub open spec fn key_of(v: u32) -> u16 {
    (v / 65536) as u16
}

/// The low 16 bits of a value.
pub open spec fn low_of(v: u32) -> u16 {
    (v % 65536) as u16
}

/// The value with high bits `key` and low bits `low`.
pub open spec fn join(key: u16, low: u16) -> u32 {
    (key * 65536 + low) as u32
}

/// The members of one container, as 32-bit values under `key`.
pub open spec fn lift(key: u16, lows: Seq<u16>) -> Seq<u32> {
    lows.map_values(|x: u16| join(key, x))
}

/// The members of a chunk list, in list order.
pub open spec fn chunks_seq(cs: Seq<Chunk>) -> Seq<u32>
    decreases cs.len(),
{
    if cs.len() == 0 {
        Seq::empty()
    } else {
        chunks_seq(cs.drop_last()) + lift(cs.last().key, cs.last().container@)
    }
}

/// Every container is well formed and non-empty, and keys strictly ascend.
pub open spec fn chunks_wf(cs: Seq<Chunk>) -> bool {
    &&& forall|i: int|
        0 <= i < cs.len() ==> (#[trigger] cs[i]).container.wf() && cs[i].container@.len() > 0
    &&& forall|i: int, j: int| 0 <= i < j < cs.len() ==> cs[i].key < cs[j].key
}

/// `v` is held by the chunk of its key.
pub open spec fn in_chunks(cs: Seq<Chunk>, v: u32) -> bool {
    exists|k: int|
        0 <= k < cs.len() && (#[trigger] cs[k]).key == key_of(v) && cs[k].container@.contains(
            low_of(v),
        )
}

/// Splitting a value into key and low part, and joining them back.
pub proof fn lemma_join(key: u16, low: u16)
    ensures
        key_of(join(key, low)) == key,
        low_of(join(key, low)) == low,
        join(key, low) == key * 65536 + low,
{
}

/// Every value is the join of its key and low part.
pub proof fn lemma_split(v: u32)
    ensures
        join(key_of(v), low_of(v)) == v,
{
}

/// Joined values order by key first, then by low part.
pub proof fn lemma_join_order(k1: u16, l1: u16, k2: u16, l2: u16)
    ensures
        join(k1, l1) < join(k2, l2) <==> (k1 < k2 || (k1 == k2 && l1 < l2)),
{
    lemma_join(k1, l1);
    lemma_join(k2, l2);
}

/// A lifted container is ascending and holds exactly the joins of its members.
pub proof fn lemma_lift(key: u16, lows: Seq<u16>)
    requires
        ascending16(lows),
    ensures
        ascending32(lift(key, lows)),
        lift(key, lows).len() == lows.len(),
        forall|i: int|
            0 <= i < lows.len() ==> #[trigger] lift(key, lows)[i] == join(key, lows[i]),
        forall|v: u32| #[trigger]
            lift(key, lows).contains(v) <==> (key_of(v) == key && lows.contains(low_of(v))),
{
    let s = lift(key, lows);
    assert forall|i: int, j: int| 0 <= i < j < s.len() implies s[i] < s[j] by {
        lemma_join_order(key, lows[i], key, lows[j]);
    }
    assert forall|v: u32| #[trigger] s.contains(v) <==> (key_of(v) == key && lows.contains(low_of(v))) by {
        if s.contains(v) {
            let i = choose|i: int| 0 <= i < s.len() && s[i] == v;
            lemma_join(key, lows[i]);
        }
        if key_of(v) == key && lows.contains(low_of(v)) {
            let i = choose|i: int| 0 <= i < lows.len() && lows[i] == low_of(v);
            lemma_split(v);
            assert(s[i] == v);
        }
    }
}

/// The members of a well-formed chunk list are ascending, exactly the
/// values held by the chunk of their key, and below the last key's range.
pub proof fn lemma_chunks_seq(cs: Seq<Chunk>)
    requires
        chunks_wf(cs),
    ensures
        ascending32(chunks_seq(cs)),
        forall|v: u32| #[trigger] chunks_seq(cs).contains(v) <==> in_chunks(cs, v),
        cs.len() > 0 ==> forall|i: int|
            0 <= i < chunks_seq(cs).len() ==> key_of(#[trigger] chunks_seq(cs)[i]) <= cs.last().key,
    decreases cs.len(),
{
    if cs.len() > 0 {
        let p = cs.drop_last();
        assert(chunks_wf(p));
        lemma_chunks_seq(p);
        let c = cs.last();
        assert(c == cs[cs.len() - 1]);
        c.container.lemma_view();
        lemma_lift(c.key, c.container@);
        let a = chunks_seq(p);
        let b = lift(c.key, c.container@);
        assert(chunks_seq(cs) == a + b);
        assert forall|i: int, j: int| 0 <= i < j < (a + b).len() implies (a + b)[i] < (a + b)[j] by {
            if i < a.len() && j >= a.len() {
                let x = a[i];
                let y = b[j - a.len()];
                assert(key_of(x) <= p.last().key);
                assert(p.last() == cs[cs.len() - 2]);
                assert(key_of(y) == c.key);
                lemma_split(x);
                lemma_split(y);
                lemma_join_order(key_of(x), low_of(x), key_of(y), low_of(y));
            }
        }
        assert forall|v: u32| #[trigger] (a + b).contains(v) <==> in_chunks(cs, v) by {
            if (a + b).contains(v) {
                let i = choose|i: int| 0 <= i < (a + b).len() && (a + b)[i] == v;
                if i < a.len() {
                    assert(a.contains(v));
                    let k = choose|k: int|
                        0 <= k < p.len() && (#[trigger] p[k]).key == key_of(v)
                            && p[k].container@.contains(low_of(v));
                    assert(cs[k] == p[k]);
                } else {
                    assert(b[i - a.len()] == v);
                    assert(b.contains(v));
                    assert(cs[cs.len() - 1] == c);
                }
            }
            if in_chunks(cs, v) {
                let k = choose|k: int|
                    0 <= k < cs.len() && (#[trigger] cs[k]).key == key_of(v)
                        && cs[k].container@.contains(low_of(v));
                if k < p.len() {
                    assert(p[k] == cs[k]);
                    assert(in_chunks(p, v));
                    assert(a.contains(v));
                    let i = choose|i: int| 0 <= i < a.len() && a[i] == v;
                    assert((a + b)[i] == v);
                } else {
                    assert(b.contains(v));
                    let i = choose|i: int| 0 <= i < b.len() && b[i] == v;
                    assert((a + b)[a.len() + i] == v);
                }
            }
        }
        assert forall|i: int| 0 <= i < (a + b).len() implies key_of(#[trigger] (a + b)[i]) <= c.key by {
            if i < a.len() {
                assert(p.last() == cs[cs.len() - 2]);
            } else {
                let y = b[i - a.len()];
                assert(b.contains(y));
            }
        }
    }
}

/// A chunk list's members are those of a prefix followed by the rest.
pub proof fn lemma_chunks_split(cs: Seq<Chunk>, k: int)
    requires
        0 <= k <= cs.len(),
    ensures
        chunks_seq(cs) == chunks_seq(cs.subrange(0, k)) + chunks_seq(cs.subrange(k, cs.len() as int)),
    decreases cs.len(),
{
    if k == cs.len() {
        assert(cs.subrange(0, k) =~= cs);
        assert(chunks_seq(cs.subrange(k, cs.len() as int)) =~= Seq::<u32>::empty());
        assert(chunks_seq(cs) + Seq::<u32>::empty() =~= chunks_seq(cs));
    } else {
        let p = cs.drop_last();
        lemma_chunks_split(p, k);
        assert(p.subrange(0, k) =~= cs.subrange(0, k));
        let t = cs.subrange(k, cs.len() as int);
        assert(t.drop_last() =~= p.subrange(k, p.len() as int));
        assert(t.last() == cs.last());
        assert(chunks_seq(cs) =~= chunks_seq(cs.subrange(0, k)) + chunks_seq(t));
    }
}

/// One more chunk at the end adds its lifted members at the end.
pub proof fn lemma_chunks_push(cs: Seq<Chunk>, c: Chunk)
    ensures
        chunks_seq(cs.push(c)) == chunks_seq(cs) + lift(c.key, c.container@),
{
    assert(cs.push(c).drop_last() =~= cs);
}

/// In a well-formed list, the chunk at `k` alone decides the members with
/// its key.
pub proof fn lemma_in_chunk_at(cs: Seq<Chunk>, k: int, v: u32)
    requires
        chunks_wf(cs),
        0 <= k < cs.len(),
        cs[k].key == key_of(v),
    ensures
        in_chunks(cs, v) == cs[k].container@.contains(low_of(v)),
{
    if in_chunks(cs, v) {
        let j = choose|j: int|
            0 <= j < cs.len() && (#[trigger] cs[j]).key == key_of(v) && cs[j].container@.contains(
                low_of(v),
            );
        assert(j == k);
    }
}

/// A value whose key no chunk has is not held.
pub proof fn lemma_no_chunk(cs: Seq<Chunk>, v: u32)
    requires
        forall|i: int| 0 <= i < cs.len() ==> (#[trigger] cs[i]).key != key_of(v),
    ensures
        !in_chunks(cs, v),
{
}

/// Replacing the container of one chunk changes only the members of its key.
pub proof fn lemma_update_chunk(cs: Seq<Chunk>, pos: int, c: Chunk)
    requires
        chunks_wf(cs),
        0 <= pos < cs.len(),
        c.key == cs[pos].key,
        c.container.wf(),
        c.container@.len() > 0,
    ensures
        chunks_wf(cs.update(pos, c)),
        forall|v: u32| #[trigger]
            in_chunks(cs.update(pos, c), v) == if key_of(v) == c.key {
                c.container@.contains(low_of(v))
            } else {
                in_chunks(cs, v)
            },
{
    let n = cs.update(pos, c);
    assert(chunks_wf(n)) by {
        assert forall|i: int, j: int| 0 <= i < j < n.len() implies n[i].key < n[j].key by {
            assert(n[i].key == cs[i].key);
            assert(n[j].key == cs[j].key);
        }
    }
    assert forall|v: u32| #[trigger]
        in_chunks(n, v) == if key_of(v) == c.key {
            c.container@.contains(low_of(v))
        } else {
            in_chunks(cs, v)
        } by {
        if key_of(v) == c.key {
            lemma_in_chunk_at(n, pos, v);
        } else {
            if in_chunks(n, v) {
                let k = choose|k: int|
                    0 <= k < n.len() && (#[trigger] n[k]).key == key_of(v)
                        && n[k].container@.contains(low_of(v));
                assert(cs[k] == n[k]);
            }
            if in_chunks(cs, v) {
                let k = choose|k: int|
                    0 <= k < cs.len() && (#[trigger] cs[k]).key == key_of(v)
                        && cs[k].container@.contains(low_of(v));
                assert(cs[k] == n[k]);
            }
        }
    }
}

/// Inserting a chunk at its place adds the members of its key.
pub proof fn lemma_insert_chunk(cs: Seq<Chunk>, pos: int, c: Chunk)
    requires
        chunks_wf(cs),
        0 <= pos <= cs.len(),
        forall|i: int| 0 <= i < pos ==> cs[i].key < c.key,
        forall|i: int| pos <= i < cs.len() ==> cs[i].key > c.key,
        c.container.wf(),
        c.container@.len() > 0,
    ensures
        chunks_wf(cs.insert(pos, c)),
        forall|v: u32| #[trigger]
            in_chunks(cs.insert(pos, c), v) == if key_of(v) == c.key {
                c.container@.contains(low_of(v))
            } else {
                in_chunks(cs, v)
            },
{
    let n = cs.insert(pos, c);
    cs.insert_ensures(pos, c);
    assert(chunks_wf(n)) by {
        assert forall|i: int| 0 <= i < n.len() implies (#[trigger] n[i]).container.wf()
            && n[i].container@.len() > 0 by {
            if i > pos {
                assert(n[i] == cs[i - 1]);
            }
        }
        assert forall|i: int, j: int| 0 <= i < j < n.len() implies n[i].key < n[j].key by {
            if j > pos {
                assert(n[j] == cs[j - 1]);
            }
            if i > pos {
                assert(n[i] == cs[i - 1]);
            }
        }
    }
    assert forall|v: u32| #[trigger]
        in_chunks(n, v) == if key_of(v) == c.key {
            c.container@.contains(low_of(v))
        } else {
            in_chunks(cs, v)
        } by {
        if key_of(v) == c.key {
            lemma_in_chunk_at(n, pos, v);
        } else {
            if in_chunks(n, v) {
                let k = choose|k: int|
                    0 <= k < n.len() && (#[trigger] n[k]).key == key_of(v)
                        && n[k].container@.contains(low_of(v));
                if k < pos {
                    assert(cs[k] == n[k]);
                } else {
                    assert(cs[k - 1] == n[k]);
                }
            }
            if in_chunks(cs, v) {
                let k = choose|k: int|
                    0 <= k < cs.len() && (#[trigger] cs[k]).key == key_of(v)
                        && cs[k].container@.contains(low_of(v));
                if k < pos {
                    assert(cs[k] == n[k]);
                } else {
                    assert(cs[k] == n[k + 1]);
                }
            }
        }
    }
}

/// Removing a chunk drops the members of its key.
pub proof fn lemma_remove_chunk(cs: Seq<Chunk>, pos: int)
    requires
        chunks_wf(cs),
        0 <= pos < cs.len(),
    ensures
        chunks_wf(cs.remove(pos)),
        forall|v: u32| #[trigger]
            in_chunks(cs.remove(pos), v) == (key_of(v) != cs[pos].key && in_chunks(cs, v)),
{
    let n = cs.remove(pos);
    cs.remove_ensures(pos);
    assert(chunks_wf(n)) by {
        assert forall|i: int| 0 <= i < n.len() implies (#[trigger] n[i]).container.wf()
            && n[i].container@.len() > 0 by {
            if i >= pos {
                assert(n[i] == cs[i + 1]);
            }
        }
        assert forall|i: int, j: int| 0 <= i < j < n.len() implies n[i].key < n[j].key by {
            if j >= pos {
                assert(n[j] == cs[j + 1]);
            }
            if i >= pos {
                assert(n[i] == cs[i + 1]);
            }
        }
    }
    assert forall|v: u32| #[trigger]
        in_chunks(n, v) == (key_of(v) != cs[pos].key && in_chunks(cs, v)) by {
        if in_chunks(n, v) {
            let k = choose|k: int|
                0 <= k < n.len() && (#[trigger] n[k]).key == key_of(v) && n[k].container@.contains(
                    low_of(v),
                );
            if k < pos {
                assert(cs[k] == n[k]);
            } else {
                assert(cs[k + 1] == n[k]);
            }
        }
        if key_of(v) != cs[pos].key && in_chunks(cs, v) {
            let k = choose|k: int|
                0 <= k < cs.len() && (#[trigger] cs[k]).key == key_of(v)
                    && cs[k].container@.contains(low_of(v));
            assert(k != pos);
            if k < pos {
                assert(cs[k] == n[k]);
            } else {
                assert(cs[k] == n[k - 1]);
            }
        }
    }
}

/// A list of one chunk holds that chunk's lifted members.
pub proof fn lemma_chunks_single(c: Chunk)
    ensures
        chunks_seq(seq![c]) == lift(c.key, c.container@),
{
    assert(seq![c].drop_last() =~= Seq::<Chunk>::empty());
    assert(chunks_seq(Seq::<Chunk>::empty()) + lift(c.key, c.container@) =~= lift(
        c.key,
        c.container@,
    ));
}

/// The members of the first `k + 1` chunks are those of the first `k`,
/// then the lifted members of chunk `k`.
pub proof fn lemma_chunks_prefix(cs: Seq<Chunk>, k: int)
    requires
        0 <= k < cs.len(),
    ensures
        chunks_seq(cs.subrange(0, k + 1)) == chunks_seq(cs.subrange(0, k)) + lift(
            cs[k].key,
            cs[k].container@,
        ),
{
    assert(cs.subrange(0, k + 1) =~= cs.subrange(0, k).push(cs[k]));
    lemma_chunks_push(cs.subrange(0, k), cs[k]);
}

/// A well-formed list has at most one chunk per key.
pub proof fn lemma_chunks_count(cs: Seq<Chunk>)
    requires
        chunks_wf(cs),
    ensures
        cs.len() <= 65536,
{
    if cs.len() > 0 {
        assert forall|i: int| 0 <= i < cs.len() implies cs[i].key >= i by {
            lemma_key_floor(cs, i);
        }
        assert(cs[cs.len() - 1].key >= cs.len() - 1);
    }
}

proof fn lemma_key_floor(cs: Seq<Chunk>, i: int)
    requires
        chunks_wf(cs),
        0 <= i < cs.len(),
    ensures
        cs[i].key >= i,
    decreases i,
{
    if i > 0 {
        lemma_key_floor(cs, i - 1);
    }
}

/// Every member of a well-formed list lies in the chunk of its key.
pub proof fn lemma_member_key(cs: Seq<Chunk>, v: u32)
    requires
        chunks_wf(cs),
        chunks_seq(cs).contains(v),
    ensures
        exists|k: int| 0 <= k < cs.len() && (#[trigger] cs[k]).key == key_of(v),
{
    lemma_chunks_seq(cs);
    assert(in_chunks(cs, v));
}

/// A prefix of a well-formed list is well formed.
pub proof fn lemma_chunks_sub(cs: Seq<Chunk>, lo: int, hi: int)
    requires
        chunks_wf(cs),
        0 <= lo <= hi <= cs.len(),
    ensures
        chunks_wf(cs.subrange(lo, hi)),
{
    let s = cs.subrange(lo, hi);
    assert forall|i: int| 0 <= i < s.len() implies (#[trigger] s[i]).container.wf()
        && s[i].container@.len() > 0 by {
        assert(s[i] == cs[lo + i]);
    }
}

/// One more chunk holds the members of its key that its container holds.
pub proof fn lemma_in_chunks_push(cs: Seq<Chunk>, c: Chunk, v: u32)
    ensures
        in_chunks(cs.push(c), v) == (in_chunks(cs, v) || (key_of(v) == c.key
            && c.container@.contains(low_of(v)))),
{
    let n = cs.push(c);
    if in_chunks(n, v) {
        let k = choose|k: int|
            0 <= k < n.len() && (#[trigger] n[k]).key == key_of(v) && n[k].container@.contains(
                low_of(v),
            );
        if k < cs.len() {
            assert(cs[k] == n[k]);
        }
    }
    if in_chunks(cs, v) {
        let k = choose|k: int|
            0 <= k < cs.len() && (#[trigger] cs[k]).key == key_of(v) && cs[k].container@.contains(
                low_of(v),
            );
        assert(cs[k] == n[k]);
    }
    if key_of(v) == c.key && c.container@.contains(low_of(v)) {
        assert(n[cs.len() as int] == c);
    }
}

/// The last member of a non-empty well-formed list lies under its last key.
proof fn lemma_last_key(cs: Seq<Chunk>)
    requires
        chunks_wf(cs),
        cs.len() > 0,
    ensures
        chunks_seq(cs).len() > 0,
        key_of(chunks_seq(cs).last()) == cs.last().key,
        chunks_seq(cs).len() == chunks_seq(cs.drop_last()).len() + cs.last().container@.len(),
{
    let c = cs.last();
    assert(c == cs[cs.len() - 1]);
    c.container.lemma_view();
    lemma_lift(c.key, c.container@);
    let v = c.container@;
    let n = v.len() - 1;
    lemma_join(c.key, v[n]);
}

/// Well-formed lists with the same members have the same keys and the
/// same container members, chunk by chunk.
pub proof fn lemma_chunks_unique(x: Seq<Chunk>, y: Seq<Chunk>)
    requires
        chunks_wf(x),
        chunks_wf(y),
        chunks_seq(x) == chunks_seq(y),
    ensures
        x.len() == y.len(),
        forall|k: int|
            0 <= k < x.len() ==> (#[trigger] x[k]).key == y[k].key && x[k].container@ == y[k].container@,
    decreases x.len() + y.len(),
{
    if x.len() == 0 || y.len() == 0 {
        if x.len() > 0 {
            lemma_last_key(x);
        }
        if y.len() > 0 {
            lemma_last_key(y);
        }
    } else {
        lemma_last_key(x);
        lemma_last_key(y);
        let s = chunks_seq(x);
        let px = x.drop_last();
        let py = y.drop_last();
        assert(chunks_wf(px));
        assert(chunks_wf(py));
        let k = x.last().key;
        assert(y.last().key == k);
        let ax = chunks_seq(px);
        let ay = chunks_seq(py);
        let lx = lift(k, x.last().container@);
        let ly = lift(k, y.last().container@);
        assert(s == ax + lx);
        assert(s == ay + ly);
        lemma_chunks_seq(px);
        lemma_chunks_seq(py);
        assert(x.last() == x[x.len() - 1]);
        assert(y.last() == y[y.len() - 1]);
        x.last().container.lemma_view();
        y.last().container.lemma_view();
        lemma_lift(k, x.last().container@);
        lemma_lift(k, y.last().container@);
        if px.len() > 0 {
            assert(px.last() == x[x.len() - 2]);
        }
        if py.len() > 0 {
            assert(py.last() == y[y.len() - 2]);
        }
        if ax.len() < ay.len() {
            let i = ax.len() as int;
            assert(s[i] == lx[0]);
            lemma_join(k, x.last().container@[0]);
            assert(s[i] == ay[i]);
        }
        if ay.len() < ax.len() {
            let i = ay.len() as int;
            assert(s[i] == ly[0]);
            lemma_join(k, y.last().container@[0]);
            assert(s[i] == ax[i]);
        }
        assert(ax.len() == ay.len());
        assert(ax =~= s.subrange(0, ax.len() as int));
        assert(ay =~= s.subrange(0, ay.len() as int));
        assert(lx =~= s.subrange(ax.len() as int, s.len() as int));
        assert(ly =~= s.subrange(ay.len() as int, s.len() as int));
        assert(lx =~= ly);
        assert(x.last().container@ =~= y.last().container@) by {
            assert forall|i: int| 0 <= i < x.last().container@.len() implies x.last().container@[i]
                == y.last().container@[i] by {
                assert(lx[i] == ly[i]);
                lemma_join(k, x.last().container@[i]);
                lemma_join(k, y.last().container@[i]);
            }
        }
        lemma_chunks_unique(px, py);
        assert forall|j: int| 0 <= j < x.len() implies (#[trigger] x[j]).key == y[j].key
            && x[j].container@ == y[j].container@ by {
            if j < x.len() - 1 {
                assert(x[j] == px[j]);
                assert(y[j] == py[j]);
            }
        }
    }
}

} // verus!
