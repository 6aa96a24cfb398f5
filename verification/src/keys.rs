//! Walking ordered maps by their keys.
use std::collections::{BTreeMap, BTreeSet};
use vstd::prelude::*;

verus! {

broadcast use vstd::std_specs::btree::group_btree_axioms;

/// In an increasing run of 32-bit keys each is smaller than those after it.
proof fn lemma_increasing_u32(ks: Seq<&u32>)
    requires
        vstd::std_specs::btree::increasing_seq(ks),
    ensures
        forall|i: int, j: int| 0 <= i < j < ks.len() ==> *ks[i] < *ks[j],
{
    reveal(vstd::laws_eq::obeys_eq_spec_properties);
    reveal(vstd::laws_cmp::obeys_partial_cmp_spec_properties);
    reveal(vstd::laws_cmp::obeys_cmp_partial_ord);
    reveal(vstd::laws_cmp::obeys_cmp_ord);
    assert(vstd::laws_cmp::obeys_cmp::<&u32>());
    assert forall|i: int, j: int| 0 <= i < j < ks.len() implies *ks[i] < *ks[j] by {
        assert(vstd::std_specs::cmp::OrdSpec::cmp_spec(&ks[i], &ks[j]) is Less);
    }
}

/// In an increasing run of 64-bit keys each is smaller than those after it.
proof fn lemma_increasing_u64(ks: Seq<&u64>)
    requires
        vstd::std_specs::btree::increasing_seq(ks),
    ensures
        forall|i: int, j: int| 0 <= i < j < ks.len() ==> *ks[i] < *ks[j],
{
    reveal(vstd::laws_eq::obeys_eq_spec_properties);
    reveal(vstd::laws_cmp::obeys_partial_cmp_spec_properties);
    reveal(vstd::laws_cmp::obeys_cmp_partial_ord);
    reveal(vstd::laws_cmp::obeys_cmp_ord);
    assert(vstd::laws_cmp::obeys_cmp::<&u64>());
    assert forall|i: int, j: int| 0 <= i < j < ks.len() implies *ks[i] < *ks[j] by {
        assert(vstd::std_specs::cmp::OrdSpec::cmp_spec(&ks[i], &ks[j]) is Less);
    }
}

/// `r` lists the keys of `m`, smallest first.
pub open spec fn lists_keys_u32<V>(r: Seq<u32>, m: Map<u32, V>) -> bool {
    &&& r.to_set() == m.dom()
    &&& forall|i: int, j: int| 0 <= i < j < r.len() ==> r[i] < r[j]
    &&& r.len() == m.dom().len()
}

/// `r` lists the keys of `m`, smallest first.
pub open spec fn lists_keys_u64<V>(r: Seq<u64>, m: Map<u64, V>) -> bool {
    &&& r.to_set() == m.dom()
    &&& forall|i: int, j: int| 0 <= i < j < r.len() ==> r[i] < r[j]
    &&& r.len() == m.dom().len()
}

/// The keys of `m`, smallest first.
pub fn sorted_keys_u32<V>(m: &BTreeMap<u32, V>) -> (r: Vec<u32>)
    ensures
        lists_keys_u32(r@, m@),
{
    let mut r: Vec<u32> = Vec::new();
    let ghost ks = vstd::std_specs::iter::IteratorSpec::remaining(
        &vstd::std_specs::btree::spec_keys_iter(m),
    );
    for k in it: m.keys()
        invariant
            it.seq() == ks,
            r@ == ks.take(it.index() as int).unref(),
    {
        r.push(*k);
    }
    assert(r@ =~= ks.unref());
    proof {
        lemma_increasing_u32(ks);
    }
    r
}

/// The members of `m`, smallest first.
pub fn sorted_members(m: &BTreeSet<u32>) -> (r: Vec<u32>)
    ensures
        r@.to_set() == m@,
        forall|i: int, j: int| 0 <= i < j < r@.len() ==> r@[i] < r@[j],
{
    let mut r: Vec<u32> = Vec::new();
    let ghost ks = vstd::std_specs::iter::IteratorSpec::remaining(
        &vstd::std_specs::btree::spec_btree_keys_iter(m),
    );
    for k in it: m.iter()
        invariant
            it.seq() == ks,
            r@ == ks.take(it.index() as int).unref(),
    {
        r.push(*k);
    }
    assert(r@ =~= ks.unref());
    proof {
        lemma_increasing_u32(ks);
    }
    r
}

/// The keys of `m`, smallest first.
pub fn sorted_keys_u64<V>(m: &BTreeMap<u64, V>) -> (r: Vec<u64>)
    ensures
        lists_keys_u64(r@, m@),
{
    let mut r: Vec<u64> = Vec::new();
    let ghost ks = vstd::std_specs::iter::IteratorSpec::remaining(
        &vstd::std_specs::btree::spec_keys_iter(m),
    );
    for k in it: m.keys()
        invariant
            it.seq() == ks,
            r@ == ks.take(it.index() as int).unref(),
    {
        r.push(*k);
    }
    assert(r@ =~= ks.unref());
    proof {
        lemma_increasing_u64(ks);
    }
    r
}

/// A list of the keys of a map holds each of them once, smaller ones first, and nothing else.
pub proof fn law_keys_are_listed<V>(
    a: Seq<u32>,
    m: Map<u32, V>,
    b: Seq<u64>,
    n: Map<u64, V>,
    i: int,
    j: int,
)
    requires
        lists_keys_u32(a, m),
        lists_keys_u64(b, n),
    ensures
        forall|k: u32| #[trigger] m.contains_key(k) <==> a.contains(k),
        forall|k: u64| #[trigger] n.contains_key(k) <==> b.contains(k),
        0 <= i < j < a.len() ==> a[i] < a[j],
        0 <= i < j < b.len() ==> b[i] < b[j],
{
    assert forall|k: u32| #[trigger] m.contains_key(k) <==> a.contains(k) by {
        assert(a.to_set().contains(k) <==> a.contains(k));
    }
    assert forall|k: u64| #[trigger] n.contains_key(k) <==> b.contains(k) by {
        assert(b.to_set().contains(k) <==> b.contains(k));
    }
}

} // verus!
