//! The four set operations, and their merge over ascending arrays of low
//! parts.
use vstd::prelude::*;
use crate::order::{ascending16, lemma_ascending16_len, lemma_ascending16_set_len, lemma_push_contains};

verus! {

/// Which of the four binary set operations to perform.
#[derive(Clone, Copy, Debug, PartialEq, Eq, Structural)]
pub enum SetOp {
    Union,
    Intersection,
    Difference,
    SymmetricDifference,
}

impl SetOp {
    /// Whether a value that is (or is not) in each operand is in the result.
    pub open spec fn selects(self, in_a: bool, in_b: bool) -> bool {
        match self {
            SetOp::Union => in_a || in_b,
            SetOp::Intersection => in_a && in_b,
            SetOp::Difference => in_a && !in_b,
            SetOp::SymmetricDifference => in_a != in_b,
        }
    }

    /// The operation on sets.
    pub open spec fn apply<A>(self, a: Set<A>, b: Set<A>) -> Set<A> {
        match self {
            SetOp::Union => a.union(b),
            SetOp::Intersection => a.intersect(b),
            SetOp::Difference => a.difference(b),
            SetOp::SymmetricDifference => a.union(b).difference(a.intersect(b)),
        }
    }

    /// Whether a value that is (or is not) in each operand is in the result.
    pub fn keeps(&self, in_a: bool, in_b: bool) -> (r: bool)
        ensures
            r == self.selects(in_a, in_b),
    {
        match self {
            SetOp::Union => in_a || in_b,
            SetOp::Intersection => in_a && in_b,
            SetOp::Difference => in_a && !in_b,
            SetOp::SymmetricDifference => in_a != in_b,
        }
    }
}

/// The members of `a` and `b` that `op` keeps, read off two sequences.
pub open spec fn merged16(op: SetOp, a: Seq<u16>, b: Seq<u16>, x: u16) -> bool {
    op.selects(a.contains(x), b.contains(x))
}

/// Merges two ascending arrays under `op`, giving the ascending array of
/// exactly the values that `op` keeps.
pub fn merge(a: &Vec<u16>, b: &Vec<u16>, op: SetOp) -> (r: Vec<u16>)
    requires
        ascending16(a@),
        ascending16(b@),
    ensures
        ascending16(r@),
        forall|x: u16| r@.contains(x) == merged16(op, a@, b@, x),
{
    let mut out: Vec<u16> = Vec::new();
    let mut i: usize = 0;
    let mut j: usize = 0;
    while i < a.len() || j < b.len()
        invariant
            ascending16(a@),
            ascending16(b@),
            ascending16(out@),
            i <= a@.len(),
            j <= b@.len(),
            i < a@.len() ==> forall|q: int| 0 <= q < j ==> b@[q] < a@[i as int],
            j < b@.len() ==> forall|p: int| 0 <= p < i ==> a@[p] < b@[j as int],
            forall|k: int|
                0 <= k < out@.len() ==> (i < a@.len() ==> out@[k] < a@[i as int]) && (j
                    < b@.len() ==> out@[k] < b@[j as int]),
            forall|x: u16| #[trigger]
                out@.contains(x) == merged16(
                    op,
                    a@.subrange(0, i as int),
                    b@.subrange(0, j as int),
                    x,
                ),
        decreases a@.len() + b@.len() - i - j,
    {
        let ghost a0 = a@.subrange(0, i as int);
        let ghost b0 = b@.subrange(0, j as int);
        let ghost out0 = out@;
        let take_a = j >= b.len() || (i < a.len() && a[i] <= b[j]);
        let take_b = i >= a.len() || (j < b.len() && b[j] <= a[i]);
        let x = if take_a { a[i] } else { b[j] };
        let keep = op.keeps(take_a, take_b);
        if keep {
            out.push(x);
            proof {
                lemma_push_contains(out0, x);
            }
        }
        if take_a {
            assert(a@.subrange(0, i + 1) =~= a0.push(x));
            proof {
                lemma_push_contains(a0, x);
            }
            i = i + 1;
        }
        if take_b {
            assert(b@.subrange(0, j + 1) =~= b0.push(x));
            proof {
                lemma_push_contains(b0, x);
            }
            j = j + 1;
        }
        proof {
            assert(!out0.contains(x));
            if !take_a {
                assert(!a0.contains(x));
                assert(a@.subrange(0, i as int) == a0);
            }
            if !take_b {
                assert(!b0.contains(x));
                assert(b@.subrange(0, j as int) == b0);
            }
        }
    }
    assert(a@.subrange(0, i as int) =~= a@);
    assert(b@.subrange(0, j as int) =~= b@);
    out
}

/// Counts the values that `op` keeps from two ascending arrays, walking them
/// as `merge` does but building nothing.
pub fn merge_len(a: &Vec<u16>, b: &Vec<u16>, op: SetOp) -> (n: u32)
    requires
        ascending16(a@),
        ascending16(b@),
    ensures
        n == op.apply(a@.to_set(), b@.to_set()).len(),
{
    let mut count: u32 = 0;
    let ghost mut out: Seq<u16> = Seq::empty();
    let mut i: usize = 0;
    let mut j: usize = 0;
    while i < a.len() || j < b.len()
        invariant
            ascending16(a@),
            ascending16(b@),
            ascending16(out),
            count == out.len(),
            i <= a@.len(),
            j <= b@.len(),
            i < a@.len() ==> forall|q: int| 0 <= q < j ==> b@[q] < a@[i as int],
            j < b@.len() ==> forall|p: int| 0 <= p < i ==> a@[p] < b@[j as int],
            forall|k: int|
                0 <= k < out.len() ==> (i < a@.len() ==> out[k] < a@[i as int]) && (j < b@.len()
                    ==> out[k] < b@[j as int]),
            forall|x: u16| #[trigger]
                out.contains(x) == merged16(
                    op,
                    a@.subrange(0, i as int),
                    b@.subrange(0, j as int),
                    x,
                ),
        decreases a@.len() + b@.len() - i - j,
    {
        let ghost a0 = a@.subrange(0, i as int);
        let ghost b0 = b@.subrange(0, j as int);
        let ghost out0 = out;
        let take_a = j >= b.len() || (i < a.len() && a[i] <= b[j]);
        let take_b = i >= a.len() || (j < b.len() && b[j] <= a[i]);
        let x = if take_a { a[i] } else { b[j] };
        let keep = op.keeps(take_a, take_b);
        if keep {
            proof {
                lemma_ascending16_len(out0.push(x));
                out = out0.push(x);
                lemma_push_contains(out0, x);
            }
            count = count + 1;
        }
        if take_a {
            assert(a@.subrange(0, i + 1) =~= a0.push(x));
            proof {
                lemma_push_contains(a0, x);
            }
            i = i + 1;
        }
        if take_b {
            assert(b@.subrange(0, j + 1) =~= b0.push(x));
            proof {
                lemma_push_contains(b0, x);
            }
            j = j + 1;
        }
        proof {
            assert(!out0.contains(x));
            if !take_a {
                assert(!a0.contains(x));
                assert(a@.subrange(0, i as int) == a0);
            }
            if !take_b {
                assert(!b0.contains(x));
                assert(b@.subrange(0, j as int) == b0);
            }
        }
    }
    proof {
        assert(a@.subrange(0, i as int) =~= a@);
        assert(b@.subrange(0, j as int) =~= b@);
        assert(out.to_set() =~= op.apply(a@.to_set(), b@.to_set()));
        lemma_ascending16_set_len(out);
    }
    count
}

} // verus!
