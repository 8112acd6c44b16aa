//! The bag generator: every kind once, in a shuffled order.

use crate::block::{block_shape, catalog_shape, shape_view, BlockKind, BlockShape};
use rand::seq::SliceRandom;
use std::collections::VecDeque;
use vstd::prelude::*;

verus! {

/// Whether some element of `s` is the canonical shape of kind `k`.
pub open spec fn holds_kind(s: Seq<BlockShape>, k: int) -> bool {
    exists|i: int| 0 <= i < s.len() && #[trigger] shape_view(s[i]) == catalog_shape(k)
}

/// Whether `b` is the canonical shape of one of the seven kinds.
pub open spec fn is_catalog_shape(b: BlockShape) -> bool {
    exists|k: int| 0 <= k < 7 && shape_view(b) == #[trigger] catalog_shape(k)
}

/// Whether `s` is one bag: each of the seven canonical shapes exactly once.
pub open spec fn is_bag(s: Seq<BlockShape>) -> bool {
    &&& s.len() == 7
    &&& s.no_duplicates()
    &&& forall|k: int| 0 <= k < 7 ==> #[trigger] holds_kind(s, k)
    &&& forall|i: int| 0 <= i < 7 ==> #[trigger] is_catalog_shape(s[i])
}

/// Relies on rand's `SliceRandom::shuffle` with the thread-local generator: it
/// only swaps elements, so the result is a permutation of the input.
#[verifier::external_body]
fn shuffle(v: &mut Vec<usize>)
    ensures
        final(v)@.to_multiset() == old(v)@.to_multiset(),
{
    v.shuffle(&mut rand::thread_rng());
}

/// The seven catalog indices in order.
spec fn all_kinds() -> Seq<usize> {
    seq![0usize, 1, 2, 3, 4, 5, 6]
}

proof fn lemma_permutation_of_kinds(p: Seq<usize>)
    requires
        p.to_multiset() == all_kinds().to_multiset(),
    ensures
        p.len() == 7,
        p.no_duplicates(),
        forall|i: int| 0 <= i < 7 ==> p[i] < 7,
        forall|k: usize| k < 7 ==> p.contains(k),
{
    broadcast use vstd::seq_lib::group_to_multiset_ensures;

    let a = all_kinds();
    assert(a.len() == 7);
    assert(p.to_multiset().len() == p.len());
    assert(a.to_multiset().len() == a.len());
    assert(p.len() == 7);
    assert(a.no_duplicates());
    a.lemma_multiset_has_no_duplicates();
    p.lemma_multiset_has_no_duplicates_conv();
    assert forall|i: int| 0 <= i < 7 implies p[i] < 7 by {
        assert(p.contains(p[i]));
        assert(p.to_multiset().count(p[i]) > 0);
        assert(a.to_multiset().count(p[i]) > 0);
        assert(a.contains(p[i]));
    }
    assert forall|k: usize| k < 7 implies p.contains(k) by {
        assert(a[k as int] == k);
        assert(a.contains(k));
        assert(a.to_multiset().count(k) > 0);
        assert(p.to_multiset().count(k) > 0);
    }
}

proof fn lemma_catalog_distinct(j: int, k: int)
    requires
        0 <= j < 7,
        0 <= k < 7,
        j != k,
    ensures
        catalog_shape(j) != catalog_shape(k),
{
    assert(catalog_shape(j)[2][1] != catalog_shape(k)[2][1]);
}

/// The pieces for a drawn order: the catalog shape of each index, in order.
pub fn bag_from_order(order: &Vec<usize>) -> (r: VecDeque<BlockShape>)
    requires
        order@.len() == 7,
        forall|i: int| 0 <= i < 7 ==> order@[i] < 7,
    ensures
        r@.len() == 7,
        forall|i: int| 0 <= i < 7 ==> shape_view(#[trigger] r@[i]) == catalog_shape(order@[i] as int),
{
    let mut r: VecDeque<BlockShape> = VecDeque::new();
    let mut i: usize = 0;
    while i < 7
        invariant
            order@.len() == 7,
            0 <= i <= 7,
            r@.len() == i,
            forall|j: int| 0 <= j < 7 ==> order@[j] < 7,
            forall|j: int| 0 <= j < i ==> shape_view(#[trigger] r@[j]) == catalog_shape(order@[j] as int),
        decreases 7 - i,
    {
        let b = block_shape(BlockKind::from_index(order[i]));
        r.push_back(b);
        i = i + 1;
    }
    r
}

/// A freshly shuffled bag holding each of the seven shapes once.
pub fn gen_block_7() -> (r: VecDeque<BlockShape>)
    ensures
        is_bag(r@),
{
    let mut kinds: Vec<usize> = vec![0, 1, 2, 3, 4, 5, 6];
    proof {
        assert(kinds@ =~= all_kinds());
    }
    shuffle(&mut kinds);
    proof {
        lemma_permutation_of_kinds(kinds@);
    }
    let r = bag_from_order(&kinds);
    proof {
        let p = kinds@;
        let s = r@;
        assert forall|a: int, b: int| 0 <= a < 7 && 0 <= b < 7 && a != b implies s[a] != s[b] by {
            assert(p[a] != p[b]);
            lemma_catalog_distinct(p[a] as int, p[b] as int);
        }
        assert forall|k: int| 0 <= k < 7 implies holds_kind(s, k) by {
            assert(p.contains(k as usize));
            let i = choose|i: int| 0 <= i < p.len() && p[i] == k as usize;
            assert(shape_view(s[i]) == catalog_shape(k));
        }
        assert forall|i: int| 0 <= i < 7 implies is_catalog_shape(s[i]) by {
            assert(shape_view(s[i]) == catalog_shape(p[i] as int));
        }
    }
    r
}

} // verus!
