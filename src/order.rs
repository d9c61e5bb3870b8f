//! Ascending sequences: the ordered model that every container and the
//! whole bitmap are specified against.
use vstd::prelude::*;

verus! {

/// `s` is strictly ascending (so also free of duplicates).
pub open spec fn ascending16(s: Seq<u16>) -> bool {
    forall|i: int, j: int| 0 <= i < j < s.len() ==> s[i] < s[j]
}

/// `s` is strictly ascending (so also free of duplicates).
pub open spec fn ascending32(s: Seq<u32>) -> bool {
    forall|i: int, j: int| 0 <= i < j < s.len() ==> s[i] < s[j]
}

/// `k` splits the ascending `s` at `v`: the first `k` members are at most
/// `v`, the rest exceed it. For an ascending `s`, `k` is the rank of `v`.
pub open spec fn splits16(s: Seq<u16>, v: int, k: int) -> bool {
    &&& 0 <= k <= s.len()
    &&& forall|i: int| 0 <= i < k ==> s[i] <= v
    &&& forall|i: int| k <= i < s.len() ==> s[i] > v
}

/// `k` splits the ascending `s` at `v` (see `splits16`).
pub open spec fn splits32(s: Seq<u32>, v: int, k: int) -> bool {
    &&& 0 <= k <= s.len()
    &&& forall|i: int| 0 <= i < k ==> s[i] <= v
    &&& forall|i: int| k <= i < s.len() ==> s[i] > v
}

/// Two ascending sequences with the same members are the same sequence.
pub proof fn lemma_ascending16_unique(a: Seq<u16>, b: Seq<u16>)
    requires
        ascending16(a),
        ascending16(b),
        forall|x: u16| a.contains(x) <==> b.contains(x),
    ensures
        a == b,
    decreases a.len(),
{
    if a.len() == 0 {
        if b.len() > 0 {
            assert(b.contains(b[0]));
        }
        assert(a =~= b);
    } else {
        assert(a.contains(a[0]));
        assert(b.len() > 0);
        assert(b.contains(b[0]));
        assert(a[0] == b[0]) by {
            let j = choose|j: int| 0 <= j < b.len() && b[j] == a[0];
            let i = choose|i: int| 0 <= i < a.len() && a[i] == b[0];
            assert(b[0] <= b[j]);
            assert(a[0] <= a[i]);
        }
        let a1 = a.drop_first();
        let b1 = b.drop_first();
        assert forall|x: u16| a1.contains(x) <==> b1.contains(x) by {
            if a1.contains(x) {
                let i = choose|i: int| 0 <= i < a1.len() && a1[i] == x;
                assert(a[i + 1] == x);
                assert(b.contains(x));
                let j = choose|j: int| 0 <= j < b.len() && b[j] == x;
                assert(j != 0);
                assert(b1[j - 1] == x);
            }
            if b1.contains(x) {
                let i = choose|i: int| 0 <= i < b1.len() && b1[i] == x;
                assert(b[i + 1] == x);
                assert(a.contains(x));
                let j = choose|j: int| 0 <= j < a.len() && a[j] == x;
                assert(j != 0);
                assert(a1[j - 1] == x);
            }
        }
        lemma_ascending16_unique(a1, b1);
        assert forall|i: int| 0 <= i < a.len() implies a[i] == b[i] by {
            if i > 0 {
                assert(a1[i - 1] == b1[i - 1]);
            }
        }
        assert(a =~= b);
    }
}

/// Two ascending sequences with the same members are the same sequence.
pub proof fn lemma_ascending32_unique(a: Seq<u32>, b: Seq<u32>)
    requires
        ascending32(a),
        ascending32(b),
        forall|x: u32| a.contains(x) <==> b.contains(x),
    ensures
        a == b,
    decreases a.len(),
{
    if a.len() == 0 {
        if b.len() > 0 {
            assert(b.contains(b[0]));
        }
        assert(a =~= b);
    } else {
        assert(a.contains(a[0]));
        assert(b.len() > 0);
        assert(b.contains(b[0]));
        assert(a[0] == b[0]) by {
            let j = choose|j: int| 0 <= j < b.len() && b[j] == a[0];
            let i = choose|i: int| 0 <= i < a.len() && a[i] == b[0];
            assert(b[0] <= b[j]);
            assert(a[0] <= a[i]);
        }
        let a1 = a.drop_first();
        let b1 = b.drop_first();
        assert forall|x: u32| a1.contains(x) <==> b1.contains(x) by {
            if a1.contains(x) {
                let i = choose|i: int| 0 <= i < a1.len() && a1[i] == x;
                assert(a[i + 1] == x);
                assert(b.contains(x));
                let j = choose|j: int| 0 <= j < b.len() && b[j] == x;
                assert(j != 0);
                assert(b1[j - 1] == x);
            }
            if b1.contains(x) {
                let i = choose|i: int| 0 <= i < b1.len() && b1[i] == x;
                assert(b[i + 1] == x);
                assert(a.contains(x));
                let j = choose|j: int| 0 <= j < a.len() && a[j] == x;
                assert(j != 0);
                assert(a1[j - 1] == x);
            }
        }
        lemma_ascending32_unique(a1, b1);
        assert forall|i: int| 0 <= i < a.len() implies a[i] == b[i] by {
            if i > 0 {
                assert(a1[i - 1] == b1[i - 1]);
            }
        }
        assert(a =~= b);
    }
}

/// Finds where `x` belongs in the ascending `v`: the number of members
/// below `x`.
pub fn lower_bound16(v: &Vec<u16>, x: u16) -> (r: usize)
    requires
        ascending16(v@),
    ensures
        r <= v@.len(),
        forall|i: int| 0 <= i < r ==> v@[i] < x,
        forall|i: int| r <= i < v@.len() ==> v@[i] >= x,
{
    let mut lo: usize = 0;
    let mut hi: usize = v.len();
    while lo < hi
        invariant
            lo <= hi <= v@.len(),
            ascending16(v@),
            forall|i: int| 0 <= i < lo ==> v@[i] < x,
            forall|i: int| hi <= i < v@.len() ==> v@[i] >= x,
        decreases hi - lo,
    {
        let mid = lo + (hi - lo) / 2;
        if v[mid] < x {
            lo = mid + 1;
        } else {
            hi = mid;
        }
    }
    lo
}

/// Membership in a sequence grown by one element.
pub proof fn lemma_push_contains<A>(s: Seq<A>, v: A)
    ensures
        forall|x: A| #[trigger] s.push(v).contains(x) <==> (s.contains(x) || x == v),
{
    assert forall|x: A| #[trigger] s.push(v).contains(x) <==> (s.contains(x) || x == v) by {
        if s.push(v).contains(x) {
            let k = choose|k: int| 0 <= k < s.push(v).len() && s.push(v)[k] == x;
            if k < s.len() {
                assert(s[k] == x);
            }
        }
        if s.contains(x) {
            let k = choose|k: int| 0 <= k < s.len() && s[k] == x;
            assert(s.push(v)[k] == x);
        }
        if x == v {
            assert(s.push(v)[s.len() as int] == v);
        }
    }
}

/// The `i`-th member of an ascending sequence is at least `i`.
pub proof fn lemma_ascending16_floor(s: Seq<u16>, i: int)
    requires
        ascending16(s),
        0 <= i < s.len(),
    ensures
        s[i] >= i,
    decreases i,
{
    if i > 0 {
        lemma_ascending16_floor(s, i - 1);
    }
}

/// An ascending sequence of 16-bit values has at most 65,536 members.
pub proof fn lemma_ascending16_len(s: Seq<u16>)
    requires
        ascending16(s),
    ensures
        s.len() <= 65536,
{
    if s.len() > 0 {
        lemma_ascending16_floor(s, s.len() - 1);
    }
}

/// An ascending sequence has as many members as its set.
pub proof fn lemma_ascending16_set_len(s: Seq<u16>)
    requires
        ascending16(s),
    ensures
        s.to_set().len() == s.len(),
        s.to_set().finite(),
{
    assert(s.no_duplicates());
    s.unique_seq_to_set();
    vstd::seq_lib::seq_to_set_is_finite(s);
}

/// An ascending sequence has as many members as its set.
pub proof fn lemma_ascending32_set_len(s: Seq<u32>)
    requires
        ascending32(s),
    ensures
        s.to_set().len() == s.len(),
        s.to_set().finite(),
{
    assert(s.no_duplicates());
    s.unique_seq_to_set();
    vstd::seq_lib::seq_to_set_is_finite(s);
}

/// The `i`-th member of an ascending sequence is at least `i`.
pub proof fn lemma_ascending32_floor(s: Seq<u32>, i: int)
    requires
        ascending32(s),
        0 <= i < s.len(),
    ensures
        s[i] >= i,
    decreases i,
{
    if i > 0 {
        lemma_ascending32_floor(s, i - 1);
    }
}

/// The `i`-th member of an ascending sequence leaves room for the rest.
pub proof fn lemma_ascending32_ceiling(s: Seq<u32>, i: int)
    requires
        ascending32(s),
        0 <= i < s.len(),
    ensures
        s[i] <= 0xFFFF_FFFF - (s.len() - 1 - i),
    decreases s.len() - i,
{
    if i < s.len() - 1 {
        lemma_ascending32_ceiling(s, i + 1);
    }
}

/// In an ascending sequence that holds every value, position `i` holds `i`.
proof fn lemma_ascending32_all_at(s: Seq<u32>, i: int)
    requires
        ascending32(s),
        forall|v: u32| s.contains(v),
        0 <= i < s.len(),
        i <= 0xFFFF_FFFF,
    ensures
        s[i] == i,
    decreases i,
{
    lemma_ascending32_floor(s, i);
    assert(s.contains(i as u32));
    let j = choose|j: int| 0 <= j < s.len() && s[j] == i as u32;
    if i > 0 {
        lemma_ascending32_all_at(s, i - 1);
        if j < i {
            assert(s[j] <= s[i - 1]);
        }
    }
    if j > i {
        assert(s[i] < s[j]);
    }
}

/// An ascending sequence of 32-bit values holds every value exactly when
/// it has 2^32 members.
pub proof fn lemma_ascending32_full(s: Seq<u32>)
    requires
        ascending32(s),
    ensures
        (s.len() == 0x1_0000_0000) == (forall|v: u32| s.contains(v)),
{
    if s.len() > 0 {
        lemma_ascending32_floor(s, s.len() - 1);
    }
    if s.len() == 0x1_0000_0000 {
        assert forall|v: u32| s.contains(v) by {
            lemma_ascending32_floor(s, v as int);
            lemma_ascending32_ceiling(s, v as int);
            assert(s[v as int] == v);
        }
    }
    if forall|v: u32| s.contains(v) {
        assert(s.contains(0xFFFF_FFFFu32));
        let j = choose|j: int| 0 <= j < s.len() && s[j] == 0xFFFF_FFFFu32;
        lemma_ascending32_all_at(s, j);
    }
}

} // verus!
