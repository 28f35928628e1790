//! How dictionary lookups address their files: the trie a reading belongs to, and the shards
//! and slots that hold the entries of trie nodes.
use vstd::prelude::*;

use crate::dictionary::louds::CharacterIdMap;
use crate::text::{graphemes, spec_graphemes, views};

verus! {

/// The number of low bits of a node that select its slot within a shard.
pub const SHARD_SHIFT: usize = 11;

/// The low bits of a node that select its slot within a shard.
pub const SHARD_MASK: usize = 2047;

/// The shard that holds the entries of `node`.
pub open spec fn shard_of(node: usize) -> usize {
    node >> 11usize
}

/// The slot of `node` within its shard.
pub open spec fn slot_of(node: usize) -> usize {
    node & 2047usize
}

/// The slots, in order, of the nodes of `nodes` that lie in shard `shard`.
pub open spec fn slots_in(nodes: Seq<usize>, shard: usize) -> Seq<usize>
    decreases nodes.len(),
{
    if nodes.len() == 0 {
        Seq::empty()
    } else if shard_of(nodes.last()) == shard {
        slots_in(nodes.drop_last(), shard).push(slot_of(nodes.last()))
    } else {
        slots_in(nodes.drop_last(), shard)
    }
}

proof fn lemma_slots_absent(nodes: Seq<usize>, shard: usize)
    requires
        forall|j: int| 0 <= j < nodes.len() ==> shard_of(#[trigger] nodes[j]) != shard,
    ensures
        slots_in(nodes, shard) == Seq::<usize>::empty(),
    decreases nodes.len(),
{
    if nodes.len() > 0 {
        let p = nodes.drop_last();
        assert forall|j: int| 0 <= j < p.len() implies shard_of(#[trigger] p[j]) != shard by {
            assert(p[j] == nodes[j]);
        }
        lemma_slots_absent(p, shard);
    }
}

/// Every node's shard has a group.
pub open spec fn every_shard_grouped(nodes: Seq<usize>, groups: Seq<(usize, Vec<usize>)>) -> bool {
    forall|j: int| 0 <= j < nodes.len() ==> has_group(groups, shard_of(#[trigger] nodes[j]))
}

/// Some group is that of `shard`.
pub open spec fn has_group(groups: Seq<(usize, Vec<usize>)>, shard: usize) -> bool {
    exists|a: int| 0 <= a < groups.len() && (#[trigger] groups[a]).0 == shard
}

/// Groups nodes by shard: one group for each shard that some node lies in, in increasing
/// order of shard, holding the slots of its nodes in the order the nodes come.
pub fn shard_groups(nodes: &[usize]) -> (out: Vec<(usize, Vec<usize>)>)
    ensures
        forall|a: int, b: int| 0 <= a < b < out@.len() ==> (#[trigger] out@[a]).0 < (
        #[trigger] out@[b]).0,
        forall|a: int|
            0 <= a < out@.len() ==> (#[trigger] out@[a]).1@ == slots_in(nodes@, out@[a].0)
                && out@[a].1@.len() > 0,
        every_shard_grouped(nodes@, out@),
{
    let mut out: Vec<(usize, Vec<usize>)> = Vec::new();
    let mut k: usize = 0;
    while k < nodes.len()
        invariant
            k <= nodes@.len(),
            forall|a: int, b: int| 0 <= a < b < out@.len() ==> (#[trigger] out@[a]).0 < (
            #[trigger] out@[b]).0,
            forall|a: int|
                0 <= a < out@.len() ==> (#[trigger] out@[a]).1@ == slots_in(
                    nodes@.take(k as int),
                    out@[a].0,
                ) && out@[a].1@.len() > 0,
            forall|j: int| 0 <= j < k ==> has_group(out@, shard_of(#[trigger] nodes@[j])),
        decreases nodes@.len() - k,
    {
        let node = nodes[k];
        let shard = node >> SHARD_SHIFT;
        let slot = node & SHARD_MASK;
        let ghost before = nodes@.take(k as int);
        let ghost after = nodes@.take(k + 1);
        assert(after.drop_last() == before);
        assert(after.last() == node);
        let mut p: usize = 0;
        while p < out.len() && out[p].0 < shard
            invariant
                p <= out@.len(),
                forall|a: int| 0 <= a < p ==> (#[trigger] out@[a]).0 < shard,
            decreases out@.len() - p,
        {
            p = p + 1;
        }
        let ghost old_out = out@;
        if p < out.len() && out[p].0 == shard {
            let (key, mut group) = out.remove(p);
            group.push(slot);
            out.insert(p, (key, group));
            proof {
                assert forall|a: int| 0 <= a < out@.len() implies (#[trigger] out@[a]).1@
                    == slots_in(after, out@[a].0) && out@[a].1@.len() > 0 by {
                    if a != p {
                        assert(out@[a] == old_out[a]);
                    }
                }
                assert forall|a: int, b: int| 0 <= a < b < out@.len() implies (
                #[trigger] out@[a]).0 < (#[trigger] out@[b]).0 by {
                    assert(out@[a].0 == old_out[a].0 && out@[b].0 == old_out[b].0);
                    assert(old_out[a].0 < old_out[b].0);
                }
                assert forall|j: int| 0 <= j < k + 1 implies has_group(
                    out@,
                    shard_of(#[trigger] nodes@[j]),
                ) by {
                    if j == k {
                        assert(out@[p as int].0 == shard_of(nodes@[j]));
                    } else {
                        let a = choose|a: int|
                            0 <= a < old_out.len() && (#[trigger] old_out[a]).0 == shard_of(
                                #[trigger] nodes@[j],
                            );
                        assert(out@[a].0 == old_out[a].0);
                    }
                }
            }
        } else {
            proof {
                assert forall|j: int| 0 <= j < before.len() implies shard_of(#[trigger] before[j])
                    != shard by {
                    assert(before[j] == nodes@[j]);
                    let a = choose|a: int|
                        0 <= a < old_out.len() && (#[trigger] old_out[a]).0 == shard_of(
                            #[trigger] nodes@[j],
                        );
                    if a > p {
                        assert(old_out[p as int].0 < old_out[a].0);
                    }
                }
                lemma_slots_absent(before, shard);
            }
            let mut group: Vec<usize> = Vec::new();
            group.push(slot);
            out.insert(p, (shard, group));
            proof {
                assert(slots_in(after, shard) =~= seq![slot]);
                assert forall|a: int, b: int| 0 <= a < b < out@.len() implies (
                #[trigger] out@[a]).0 < (#[trigger] out@[b]).0 by {
                    if a < p && b == p {
                        assert(out@[a] == old_out[a]);
                    } else if a < p && b > p {
                        assert(out@[a] == old_out[a] && out@[b] == old_out[b - 1]);
                        assert(old_out[a].0 < old_out[b - 1].0);
                    } else if a == p {
                        assert(out@[b] == old_out[b - 1]);
                        if b - 1 > p {
                            assert(old_out[p as int].0 < old_out[b - 1].0);
                        }
                    } else if a > p {
                        assert(out@[a] == old_out[a - 1] && out@[b] == old_out[b - 1]);
                        assert(old_out[a - 1].0 < old_out[b - 1].0);
                    }
                }
                assert forall|a: int| 0 <= a < out@.len() implies (#[trigger] out@[a]).1@
                    == slots_in(after, out@[a].0) && out@[a].1@.len() > 0 by {
                    if a < p {
                        assert(out@[a] == old_out[a]);
                    } else if a > p {
                        assert(out@[a] == old_out[a - 1]);
                    }
                }
                assert forall|j: int| 0 <= j < k + 1 implies has_group(
                    out@,
                    shard_of(#[trigger] nodes@[j]),
                ) by {
                    if j == k {
                        assert(out@[p as int].0 == shard_of(nodes@[j]));
                    } else {
                        let a = choose|a: int|
                            0 <= a < old_out.len() && (#[trigger] old_out[a]).0 == shard_of(
                                #[trigger] nodes@[j],
                            );
                        if a < p {
                            assert(out@[a] == old_out[a]);
                        } else {
                            assert(out@[a + 1] == old_out[a]);
                        }
                    }
                }
            }
        }
        k = k + 1;
    }
    assert(nodes@.take(k as int) == nodes@);
    out
}

/// The trie a reading belongs to, named by its first grapheme cluster, with the identifiers
/// of all its clusters; `None` for an empty reading or one with a cluster that has no
/// identifier.
pub fn lookup_key(character_ids: &CharacterIdMap, ruby: &str) -> (r: Option<(String, Vec<u8>)>)
    ensures
        match r {
            Some((identifier, ids)) => {
                &&& spec_graphemes(ruby@).len() > 0
                &&& identifier@ == spec_graphemes(ruby@)[0]
                &&& forall|i: int|
                    0 <= i < spec_graphemes(ruby@).len() ==> character_ids@.contains_key(
                        #[trigger] spec_graphemes(ruby@)[i],
                    )
                &&& ids@ == spec_graphemes(ruby@).map_values(|g: Seq<char>| character_ids@[g])
            },
            None => spec_graphemes(ruby@).len() == 0 || exists|i: int|
                0 <= i < spec_graphemes(ruby@).len() && !character_ids@.contains_key(
                    #[trigger] spec_graphemes(ruby@)[i],
                ),
        },
{
    let gs = graphemes(ruby);
    if gs.len() == 0 {
        return None;
    }
    assert(views(gs@)[0] == gs@[0]@);
    let identifier = gs[0].clone();
    match character_ids.encode(ruby) {
        Some(ids) => Some((identifier, ids)),
        None => None,
    }
}

} // verus!
