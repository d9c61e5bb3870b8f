//! One container: the low parts of every member that shares a key, in one
//! of three encodings.
use vstd::prelude::*;
use crate::bits::{bit_at, BitStore, combine_words, count_bits};
use crate::order::{ascending16, lemma_ascending16_len, lower_bound16, splits16};
use crate::runs::{
    Interval, lemma_runs_seq, run_count, runs_contains, runs_from_sorted, runs_insert, runs_len,
    runs_intersect, runs_rank, runs_union, runs_remove, runs_select, runs_seq, runs_to_array, runs_wf,
};
use crate::setop::{merge, merge_len, SetOp};

verus! {

/// Largest number of members held in the array encoding.
pub const ARRAY_MAX: usize = 4096;

/// Bytes of the dense encoding.
pub const BITMAP_BYTES: usize = 8192;

/// The three encodings of a container.
#[derive(Clone, Copy, Debug, PartialEq, Eq, Structural)]
pub enum Encoding {
    Array,
    Bitmap,
    Run,
}

/// The encoding chosen for a container of `card` members that form `runs`
/// maximal runs. Up to 4,096 members: runs when they are highly
/// compressible, their cost `4 + 4 * runs` bytes at most half the array's
/// `2 * card`; else the array. Above: runs when their cost is below the
/// dense 8,192 bytes; else the dense vector.
pub open spec fn chosen_encoding(card: nat, runs: nat) -> Encoding {
    if card <= ARRAY_MAX {
        if 4 + 4 * runs <= card {
            Encoding::Run
        } else {
            Encoding::Array
        }
    } else if 4 + 4 * runs < BITMAP_BYTES {
        Encoding::Run
    } else {
        Encoding::Bitmap
    }
}

/// The low parts of the members that share one key.
pub enum Container {
    /// Ascending, duplicate-free low parts.
    Array(Vec<u16>),
    /// One bit per possible low part.
    Bitmap(BitStore),
    /// Maximal intervals of low parts.
    Run(Vec<Interval>),
}

impl View for Container {
    type V = Seq<u16>;

    /// The members' low parts in ascending order.
    open spec fn view(&self) -> Seq<u16> {
        match self {
            Container::Array(v) => v@,
            Container::Bitmap(b) => b@,
            Container::Run(r) => runs_seq(r@),
        }
    }
}

/// Number of members at most `low`, in the ascending `v`.
fn rank_in(v: &Vec<u16>, low: u16) -> (r: usize)
    requires
        ascending16(v@),
    ensures
        splits16(v@, low as int, r as int),
{
    let pos = lower_bound16(v, low);
    if pos < v.len() && v[pos] == low {
        pos + 1
    } else {
        pos
    }
}

/// A copy of `v`, element by element.
fn copy_vec<T: Copy>(v: &Vec<T>) -> (r: Vec<T>)
    ensures
        r@ == v@,
{
    let mut r: Vec<T> = Vec::new();
    let mut i: usize = 0;
    while i < v.len()
        invariant
            i <= v@.len(),
            r@ == v@.subrange(0, i as int),
        decreases v@.len() - i,
    {
        r.push(v[i]);
        assert(r@ =~= v@.subrange(0, i + 1));
        i = i + 1;
    }
    assert(r@ =~= v@);
    r
}

/// Inserts `low`, absent from the ascending `v`, at its place.
fn sorted_insert(v: &mut Vec<u16>, low: u16)
    requires
        ascending16(old(v)@),
        !old(v)@.contains(low),
    ensures
        ascending16(final(v)@),
        final(v)@.to_set() == old(v)@.to_set().insert(low),
        final(v)@.len() == old(v)@.len() + 1,
{
    let pos = lower_bound16(v, low);
    let ghost s = v@;
    v.insert(pos, low);
    proof {
        s.insert_ensures(pos as int, low);
        assert forall|i: int, j: int| 0 <= i < j < v@.len() implies v@[i] < v@[j] by {
            if j < pos {
            } else if j == pos {
            } else if i < pos {
                assert(v@[j] == s[j - 1]);
            } else if i == pos {
                assert(v@[j] == s[j - 1]);
                assert(s[j - 1] != low);
            } else {
                assert(v@[j] == s[j - 1]);
                assert(v@[i] == s[i - 1]);
            }
        }
        assert forall|x: u16| #[trigger]
            v@.to_set().contains(x) == s.to_set().insert(low).contains(x) by {
            if v@.contains(x) {
                let i = choose|i: int| 0 <= i < v@.len() && v@[i] == x;
                if i < pos {
                    assert(s[i] == x);
                } else if i > pos {
                    assert(s[i - 1] == x);
                }
            }
            if s.contains(x) {
                let i = choose|i: int| 0 <= i < s.len() && s[i] == x;
                if i < pos {
                    assert(v@[i] == x);
                } else {
                    assert(v@[i + 1] == x);
                }
            }
            if x == low {
                assert(v@[pos as int] == low);
            }
        }
        assert(v@.to_set() =~= s.to_set().insert(low));
    }
}

/// Removes `low`, present in the ascending `v`.
fn sorted_remove(v: &mut Vec<u16>, low: u16)
    requires
        ascending16(old(v)@),
        old(v)@.contains(low),
    ensures
        ascending16(final(v)@),
        final(v)@.to_set() == old(v)@.to_set().remove(low),
        final(v)@.len() == old(v)@.len() - 1,
{
    let pos = lower_bound16(v, low);
    let ghost s = v@;
    proof {
        let i = choose|i: int| 0 <= i < s.len() && s[i] == low;
        assert(i >= pos);
        if i > pos {
            assert(s[pos as int] < s[i]);
        }
    }
    v.remove(pos);
    proof {
        s.remove_ensures(pos as int);
        assert forall|i: int, j: int| 0 <= i < j < v@.len() implies v@[i] < v@[j] by {
            if j < pos {
            } else if i < pos {
                assert(v@[j] == s[j + 1]);
            } else {
                assert(v@[j] == s[j + 1]);
                assert(v@[i] == s[i + 1]);
            }
        }
        assert forall|x: u16| #[trigger]
            v@.to_set().contains(x) == s.to_set().remove(low).contains(x) by {
            if v@.contains(x) {
                let i = choose|i: int| 0 <= i < v@.len() && v@[i] == x;
                if i < pos {
                    assert(s[i] == x);
                } else {
                    assert(s[i + 1] == x);
                }
            }
            if s.contains(x) && x != low {
                let i = choose|i: int| 0 <= i < s.len() && s[i] == x;
                if i < pos {
                    assert(v@[i] == x);
                } else {
                    assert(i != pos);
                    assert(v@[i - 1] == x);
                }
            }
        }
        assert(v@.to_set() =~= s.to_set().remove(low));
    }
}

/// The members of the ascending `v` whose membership in `other` is
/// `keep_in`, in order.
fn filter_array(v: &Vec<u16>, other: &Container, keep_in: bool) -> (r: Vec<u16>)
    requires
        ascending16(v@),
        other.wf(),
    ensures
        ascending16(r@),
        forall|x: u16| #[trigger] r@.contains(x) == (v@.contains(x) && other@.contains(x) == keep_in),
{
    let mut r: Vec<u16> = Vec::new();
    let mut i: usize = 0;
    while i < v.len()
        invariant
            ascending16(v@),
            other.wf(),
            i <= v@.len(),
            ascending16(r@),
            forall|k: int| 0 <= k < r@.len() ==> (i < v@.len() ==> r@[k] < v@[i as int]),
            forall|x: u16| #[trigger]
                r@.contains(x) == (v@.subrange(0, i as int).contains(x) && other@.contains(x)
                    == keep_in),
        decreases v@.len() - i,
    {
        let x = v[i];
        let ghost pre = v@.subrange(0, i as int);
        let ghost before = r@;
        if other.contains(x) == keep_in {
            r.push(x);
            proof {
                crate::order::lemma_push_contains(before, x);
            }
        }
        proof {
            assert(v@.subrange(0, i + 1) =~= pre.push(x));
            crate::order::lemma_push_contains(pre, x);
        }
        i = i + 1;
    }
    assert(v@.subrange(0, i as int) =~= v@);
    r
}

impl Container {
    /// The encoding's own invariant holds, and the encoding fits the size:
    /// an array holds at most `ARRAY_MAX` members, a dense vector more, and
    /// a run list costs less than the dense vector.
    pub open spec fn wf(&self) -> bool {
        match self {
            Container::Array(v) => ascending16(v@) && v@.len() <= ARRAY_MAX,
            Container::Bitmap(b) => b.wf() && b.count > ARRAY_MAX,
            Container::Run(r) => runs_wf(r@) && 4 + 4 * r@.len() < BITMAP_BYTES,
        }
    }

    /// Which encoding is in use.
    pub open spec fn encoding(&self) -> Encoding {
        match self {
            Container::Array(_) => Encoding::Array,
            Container::Bitmap(_) => Encoding::Bitmap,
            Container::Run(_) => Encoding::Run,
        }
    }

    /// A well-formed container's members are ascending, at most 65,536.
    pub proof fn lemma_view(&self)
        requires
            self.wf(),
        ensures
            ascending16(self@),
            self@.len() <= 65536,
    {
        match self {
            Container::Array(v) => {},
            Container::Bitmap(b) => {
                b.lemma_view();
            },
            Container::Run(r) => {
                lemma_runs_seq(r@);
            },
        }
        lemma_ascending16_len(self@);
    }

    /// Which encoding is in use.
    pub fn kind(&self) -> (e: Encoding)
        ensures
            e == self.encoding(),
    {
        match self {
            Container::Array(_) => Encoding::Array,
            Container::Bitmap(_) => Encoding::Bitmap,
            Container::Run(_) => Encoding::Run,
        }
    }

    /// The container for the ascending `v`, in the encoding that
    /// `chosen_encoding` picks.
    pub fn from_sorted(v: Vec<u16>) -> (r: Container)
        requires
            ascending16(v@),
        ensures
            r.wf(),
            r@ == v@,
            r.encoding() == chosen_encoding(v@.len(), run_count(v@)),
    {
        proof {
            lemma_ascending16_len(v@);
            crate::runs::lemma_run_count_le(v@);
        }
        let runs = runs_from_sorted(&v);
        let n = v.len();
        let run_cost = 4 + 4 * runs.len();
        if n <= ARRAY_MAX {
            if run_cost <= n {
                Container::Run(runs)
            } else {
                Container::Array(v)
            }
        } else if run_cost < BITMAP_BYTES {
            Container::Run(runs)
        } else {
            Container::Bitmap(BitStore::from_sorted(&v))
        }
    }

    /// The number of members.
    pub fn len(&self) -> (n: u32)
        requires
            self.wf(),
        ensures
            n == self@.len(),
    {
        proof {
            self.lemma_view();
        }
        match self {
            Container::Array(v) => v.len() as u32,
            Container::Bitmap(b) => b.count,
            Container::Run(r) => runs_len(r),
        }
    }

    /// Whether `low` is a member.
    pub fn contains(&self, low: u16) -> (b: bool)
        requires
            self.wf(),
        ensures
            b == self@.contains(low),
    {
        match self {
            Container::Array(v) => {
                let pos = lower_bound16(v, low);
                pos < v.len() && v[pos] == low
            },
            Container::Bitmap(b) => b.contains(low),
            Container::Run(r) => runs_contains(r, low),
        }
    }

    /// The members in ascending order.
    pub fn to_array(&self) -> (r: Vec<u16>)
        requires
            self.wf(),
        ensures
            r@ == self@,
    {
        match self {
            Container::Array(v) => copy_vec(v),
            Container::Bitmap(b) => b.to_array(),
            Container::Run(r) => runs_to_array(r),
        }
    }

    /// A container with the same members and encoding.
    pub fn duplicate(&self) -> (r: Container)
        requires
            self.wf(),
        ensures
            r.wf(),
            r@ == self@,
            r.encoding() == self.encoding(),
    {
        match self {
            Container::Array(v) => Container::Array(copy_vec(v)),
            Container::Bitmap(b) => Container::Bitmap(
                BitStore { words: copy_vec(&b.words), count: b.count },
            ),
            Container::Run(r) => Container::Run(copy_vec(r)),
        }
    }
    /// Adds `low`; true if it was not a member. An array that would exceed
    /// `ARRAY_MAX` becomes a dense vector; a run list changes in place, and
    /// goes back through `from_sorted` only when a new interval would make
    /// it as costly as a dense vector.
    pub fn insert(&mut self, low: u16) -> (r: bool)
        requires
            old(self).wf(),
        ensures
            final(self).wf(),
            r == !old(self)@.contains(low),
            final(self)@.to_set() == old(self)@.to_set().insert(low),
    {
        if self.contains(low) {
            assert(self@.to_set() =~= self@.to_set().insert(low));
            return false;
        }
        let mut grown: Vec<u16> = match self {
            Container::Bitmap(b) => {
                b.insert(low);
                return true;
            },
            Container::Array(v) => {
                if v.len() < ARRAY_MAX {
                    sorted_insert(v, low);
                    return true;
                }
                let mut b = BitStore::from_sorted(v);
                b.insert(low);
                *self = Container::Bitmap(b);
                return true;
            },
            Container::Run(r) => {
                let ghost o = r@;
                proof {
                    lemma_runs_seq(o);
                }
                if runs_insert(r, low) {
                    proof {
                        lemma_runs_seq(r@);
                        assert(runs_seq(r@).to_set() =~= runs_seq(o).to_set().insert(low));
                    }
                    return true;
                }
                runs_to_array(r)
            },
        };
        sorted_insert(&mut grown, low);
        *self = Container::from_sorted(grown);
        true
    }

    /// Removes `low`; true if it was a member. A dense container that falls
    /// to `ARRAY_MAX` members goes back through `from_sorted`; a run list
    /// changes in place, and goes back through `from_sorted` only when a
    /// split would make it as costly as a dense vector.
    pub fn remove(&mut self, low: u16) -> (r: bool)
        requires
            old(self).wf(),
        ensures
            final(self).wf(),
            r == old(self)@.contains(low),
            final(self)@.to_set() == old(self)@.to_set().remove(low),
    {
        if !self.contains(low) {
            assert(self@.to_set() =~= self@.to_set().remove(low));
            return false;
        }
        let shrunk: Vec<u16> = match self {
            Container::Array(v) => {
                sorted_remove(v, low);
                return true;
            },
            Container::Bitmap(b) => {
                b.remove(low);
                if b.count as usize > ARRAY_MAX {
                    return true;
                }
                proof {
                    b.lemma_view();
                }
                b.to_array()
            },
            Container::Run(r) => {
                let ghost o = r@;
                proof {
                    lemma_runs_seq(o);
                }
                if runs_remove(r, low) {
                    proof {
                        lemma_runs_seq(r@);
                        assert(runs_seq(r@).to_set() =~= runs_seq(o).to_set().remove(low));
                    }
                    return true;
                }
                let mut a = runs_to_array(r);
                sorted_remove(&mut a, low);
                a
            },
        };
        *self = Container::from_sorted(shrunk);
        true
    }

    /// The number of members at most `low`.
    pub fn rank(&self, low: u16) -> (r: u32)
        requires
            self.wf(),
        ensures
            splits16(self@, low as int, r as int),
    {
        proof {
            self.lemma_view();
        }
        match self {
            Container::Array(v) => rank_in(v, low) as u32,
            Container::Bitmap(b) => b.rank(low),
            Container::Run(r) => runs_rank(r, low),
        }
    }

    /// The member at position `n` in ascending order.
    pub fn select(&self, n: u32) -> (r: u16)
        requires
            self.wf(),
            n < self@.len(),
        ensures
            r == self@[n as int],
    {
        match self {
            Container::Array(v) => v[n as usize],
            Container::Bitmap(b) => b.select(n),
            Container::Run(r) => runs_select(r, n),
        }
    }

    /// The smallest member.
    pub fn min(&self) -> (r: u16)
        requires
            self.wf(),
            self@.len() > 0,
        ensures
            r == self@[0],
    {
        match self {
            Container::Run(r) => {
                proof {
                    crate::runs::lemma_runs_first(r@);
                }
                r[0].start
            },
            _ => self.select(0),
        }
    }

    /// The largest member.
    pub fn max(&self) -> (r: u16)
        requires
            self.wf(),
            self@.len() > 0,
        ensures
            r == self@.last(),
    {
        match self {
            Container::Run(r) => r[r.len() - 1].end,
            _ => {
                let n = self.len();
                self.select(n - 1)
            },
        }
    }

    /// The ascending low parts that `op` keeps from `self` and `other`.
    /// Arrays merge; dense vectors combine word by word; an array met by
    /// an intersection or a difference is filtered by probing the other
    /// container; any other pairing merges the two member lists.
    fn combine_lows(&self, other: &Container, op: SetOp) -> (r: Vec<u16>)
        requires
            self.wf(),
            other.wf(),
        ensures
            ascending16(r@),
            forall|x: u16| #[trigger] r@.contains(x) == op.selects(self@.contains(x), other@.contains(x)),
    {
        proof {
            self.lemma_view();
            other.lemma_view();
        }
        match (self, other) {
            (Container::Array(a), Container::Array(b)) => merge(a, b, op),
            (Container::Bitmap(a), Container::Bitmap(b)) => {
                let words = combine_words(&a.words, &b.words, op);
                let count = count_bits(&words);
                let store = BitStore { words, count };
                proof {
                    store.lemma_view();
                    a.lemma_view();
                    b.lemma_view();
                    assert forall|x: u16| #[trigger] store@.contains(x) == op.selects(
                        self@.contains(x),
                        other@.contains(x),
                    ) by {
                        assert(bit_at(store.words@, x as int) == op.selects(
                            bit_at(a.words@, x as int),
                            bit_at(b.words@, x as int),
                        ));
                    }
                }
                store.to_array()
            },
            (Container::Array(a), _) => {
                if op == SetOp::Intersection {
                    filter_array(a, other, true)
                } else if op == SetOp::Difference {
                    filter_array(a, other, false)
                } else {
                    let b = other.to_array();
                    merge(a, &b, op)
                }
            },
            (_, Container::Array(b)) => {
                if op == SetOp::Intersection {
                    filter_array(b, self, true)
                } else {
                    let a = self.to_array();
                    merge(&a, b, op)
                }
            },
            _ => {
                let a = self.to_array();
                let b = other.to_array();
                merge(&a, &b, op)
            },
        }
    }

    /// The container of the low parts that `op` keeps from `self` and
    /// `other` (possibly empty). Two run lists intersect or unite by a
    /// sweep and stay a run list when that is the cheaper encoding; every
    /// other result goes through `from_sorted`.
    pub fn combine(&self, other: &Container, op: SetOp) -> (r: Container)
        requires
            self.wf(),
            other.wf(),
        ensures
            r.wf(),
            forall|x: u16| #[trigger] r@.contains(x) == op.selects(self@.contains(x), other@.contains(x)),
            r.encoding() == chosen_encoding(r@.len(), run_count(r@)),
    {
        if op == SetOp::Intersection || op == SetOp::Union {
            match (self, other) {
                (Container::Run(a), Container::Run(b)) => {
                    let r = if op == SetOp::Intersection {
                        runs_intersect(a, b)
                    } else {
                        runs_union(a, b)
                    };
                    proof {
                        lemma_runs_seq(a@);
                        lemma_runs_seq(b@);
                        lemma_runs_seq(r@);
                        crate::runs::lemma_run_list_len(r@);
                        lemma_ascending16_len(runs_seq(r@));
                        crate::runs::lemma_run_count_of_runs(r@);
                    }
                    let card = runs_len(&r) as usize;
                    let cost = 4 + 4 * r.len();
                    if (card <= ARRAY_MAX && cost <= card) || (card > ARRAY_MAX && cost < BITMAP_BYTES) {
                        return Container::Run(r);
                    }
                    let lows = runs_to_array(&r);
                    return Container::from_sorted(lows);
                },
                _ => {},
            }
        }
        let lows = self.combine_lows(other, op);
        Container::from_sorted(lows)
    }

    /// How many low parts `op` keeps from `self` and `other`, counted
    /// without building them.
    pub fn combine_len(&self, other: &Container, op: SetOp) -> (n: u32)
        requires
            self.wf(),
            other.wf(),
        ensures
            n == op.apply(self@.to_set(), other@.to_set()).len(),
    {
        proof {
            self.lemma_view();
            other.lemma_view();
        }
        if op == SetOp::Intersection || op == SetOp::Union {
            match (self, other) {
                (Container::Run(a), Container::Run(b)) => {
                    let r = if op == SetOp::Intersection {
                        runs_intersect(a, b)
                    } else {
                        runs_union(a, b)
                    };
                    proof {
                        lemma_runs_seq(a@);
                        lemma_runs_seq(b@);
                        lemma_runs_seq(r@);
                        assert(runs_seq(r@).to_set() =~= op.apply(self@.to_set(), other@.to_set()));
                        crate::order::lemma_ascending16_set_len(runs_seq(r@));
                    }
                    return runs_len(&r);
                },
                _ => {},
            }
        }
        match (self, other) {
            (Container::Array(a), Container::Array(b)) => merge_len(a, b, op),
            (Container::Bitmap(a), Container::Bitmap(b)) => {
                let words = combine_words(&a.words, &b.words, op);
                let count = count_bits(&words);
                let store = BitStore { words, count };
                proof {
                    store.lemma_view();
                    a.lemma_view();
                    b.lemma_view();
                    assert forall|x: u16| #[trigger] store@.to_set().contains(x) == op.apply(
                        self@.to_set(),
                        other@.to_set(),
                    ).contains(x) by {
                        assert(bit_at(store.words@, x as int) == op.selects(
                            bit_at(a.words@, x as int),
                            bit_at(b.words@, x as int),
                        ));
                    }
                    assert(store@.to_set() =~= op.apply(self@.to_set(), other@.to_set()));
                    crate::order::lemma_ascending16_set_len(store@);
                }
                count
            },
            _ => {
                let a = self.to_array();
                let b = other.to_array();
                merge_len(&a, &b, op)
            },
        }
    }
}

} // verus!
