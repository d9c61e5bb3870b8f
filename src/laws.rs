//! Laws that relate the operations of `RoaringBitmap` to one another,
//! stated over the contracts of those operations.
use vstd::prelude::*;
use crate::bitmap::RoaringBitmap;
use crate::order::{ascending32, lemma_ascending32_set_len, lemma_ascending32_unique, splits32};

verus! {

/// A well-formed bitmap has as many members as its member set.
pub proof fn lemma_members_len(a: &RoaringBitmap)
    requires
        a.wf(),
    ensures
        a.members().len() == a@.len(),
        a.members().finite(),
{
    a.lemma_ascending();
    lemma_ascending32_set_len(a@);
}

/// Bitmaps with the same member set list the same members.
pub proof fn lemma_same_members(a: &RoaringBitmap, b: &RoaringBitmap)
    requires
        a.wf(),
        b.wf(),
        a.members() == b.members(),
    ensures
        a@ == b@,
{
    a.lemma_ascending();
    b.lemma_ascending();
    assert forall|x: u32| a@.contains(x) <==> b@.contains(x) by {
        assert(a.members().contains(x) == a@.contains(x));
        assert(b.members().contains(x) == b@.contains(x));
    }
    lemma_ascending32_unique(a@, b@);
}

/// Inclusion and exclusion: the union of `a` and `b` has as many members
/// as `a` and `b` together, less those of their intersection.
pub proof fn law_union_cardinality(
    a: &RoaringBitmap,
    b: &RoaringBitmap,
    union: &RoaringBitmap,
    intersection: &RoaringBitmap,
)
    requires
        a.wf(),
        b.wf(),
        union.wf(),
        intersection.wf(),
        union.members() == a.members().union(b.members()),
        intersection.members() == a.members().intersect(b.members()),
    ensures
        union@.len() == a@.len() + b@.len() - intersection@.len(),
{
    lemma_members_len(a);
    lemma_members_len(b);
    lemma_members_len(union);
    lemma_members_len(intersection);
    vstd::set_lib::lemma_set_intersect_union_lens(a.members(), b.members());
}

/// After inserting `v` it is a member; after removing it, it is not.
pub proof fn law_insert_then_contains(
    before: &RoaringBitmap,
    inserted: &RoaringBitmap,
    removed: &RoaringBitmap,
    v: u32,
)
    requires
        before.wf(),
        inserted.wf(),
        removed.wf(),
        inserted.members() == before.members().insert(v),
        removed.members() == before.members().remove(v),
    ensures
        inserted@.contains(v),
        !removed@.contains(v),
{
    assert(inserted.members().contains(v));
    assert(!removed.members().contains(v));
}

/// In a non-empty bitmap the rank of the largest member is the number of
/// members, and the member at position 0 is the smallest.
pub proof fn law_rank_of_max(a: &RoaringBitmap, rank: int)
    requires
        a.wf(),
        a@.len() > 0,
        splits32(a@, a@.last() as int, rank),
    ensures
        rank == a@.len(),
        forall|i: int| 0 <= i < a@.len() ==> a@[0] <= #[trigger] a@[i],
{
    a.lemma_ascending();
    if rank < a@.len() {
        assert(a@[rank] > a@.last());
        if rank < a@.len() - 1 {
            assert(a@[rank] < a@[a@.len() - 1]);
        }
    }
    assert forall|i: int| 0 <= i < a@.len() implies a@[0] <= #[trigger] a@[i] by {
        if i > 0 {
            assert(a@[0] < a@[i]);
        }
    }
}

/// The union and the intersection of a bitmap with itself are that bitmap,
/// and its difference with itself is empty.
pub proof fn law_idempotence(
    a: &RoaringBitmap,
    union: &RoaringBitmap,
    intersection: &RoaringBitmap,
    difference: &RoaringBitmap,
)
    requires
        a.wf(),
        union.wf(),
        intersection.wf(),
        difference.wf(),
        union.members() == a.members().union(a.members()),
        intersection.members() == a.members().intersect(a.members()),
        difference.members() == a.members().difference(a.members()),
    ensures
        union@ == a@,
        intersection@ == a@,
        difference@.len() == 0,
{
    assert(union.members() =~= a.members());
    assert(intersection.members() =~= a.members());
    assert(difference.members() =~= Set::<u32>::empty());
    lemma_same_members(union, a);
    lemma_same_members(intersection, a);
    lemma_members_len(difference);
}

/// Bitmaps with the same members have the same serialized form, whatever
/// encodings their containers have in memory.
pub proof fn law_serialized_by_members(a: &RoaringBitmap, b: &RoaringBitmap)
    requires
        a@ == b@,
    ensures
        a.serialized() == b.serialized(),
{
}

} // verus!
