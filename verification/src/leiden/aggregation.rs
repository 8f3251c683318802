use vstd::prelude::*;

use std::collections::HashMap;

use crate::leiden::local_moving::count_in;

verus! {

/// The 0-based node index `i` as stored in a community's node list
/// (saturating at `u32::MAX`).
pub open spec fn stored_index(i: int) -> u32 {
    if i <= u32::MAX {
        i as u32
    } else {
        u32::MAX
    }
}

/// The node indices of community `c`, in increasing order.
pub open spec fn nodes_of(membership: Seq<u32>, c: u32) -> Seq<u32>
    decreases membership.len(),
{
    if membership.len() == 0 {
        Seq::empty()
    } else {
        let prev = nodes_of(membership.drop_last(), c);
        if membership.last() == c {
            prev.push(stored_index(membership.len() - 1))
        } else {
            prev
        }
    }
}

/// Builds a mapping from community ID to node indices.
///
/// Every community that occurs in `membership` is a key; its value lists the
/// indices of its nodes in increasing order.
pub fn build_community_mapping(membership: &[u32]) -> (mapping: HashMap<u32, Vec<u32>>)
    ensures
        forall|c: u32|
            #[trigger] mapping@.contains_key(c) <==> exists|i: int|
                0 <= i < membership@.len() && membership@[i] == c,
        forall|c: u32| #[trigger] mapping@.contains_key(c) ==> mapping@[c]@ == nodes_of(membership@, c),
{
    let mut mapping: HashMap<u32, Vec<u32>> = HashMap::new();
    let len = membership.len();
    let mut i: usize = 0;
    while i < len
        invariant
            i <= len,
            len == membership@.len(),
            forall|c: u32|
                #[trigger] mapping@.contains_key(c) <==> exists|j: int|
                    0 <= j < i && membership@[j] == c,
            forall|c: u32|
                #[trigger] mapping@.contains_key(c) ==> mapping@[c]@ == nodes_of(
                    membership@.take(i as int),
                    c,
                ),
        decreases len - i,
    {
        let c = membership[i];
        let idx: u32 = if i <= u32::MAX as usize {
            i as u32
        } else {
            u32::MAX
        };
        let ghost prefix = membership@.take(i as int);
        let ghost next = membership@.take(i + 1);
        assert(next.drop_last() =~= prefix);
        assert(next.last() == c);
        proof {
            assert forall|d: u32| d != c implies nodes_of(next, d) == nodes_of(prefix, d) by {}
            if !mapping@.contains_key(c) {
                assert forall|j: int| 0 <= j < i implies membership@[j] != c by {}
                lemma_nodes_of_absent(prefix, c);
            }
        }
        match mapping.remove(&c) {
            Some(nodes) => {
                let mut nodes = nodes;
                nodes.push(idx);
                mapping.insert(c, nodes);
            },
            None => {
                let mut nodes: Vec<u32> = Vec::new();
                nodes.push(idx);
                mapping.insert(c, nodes);
            },
        }
        proof {
            assert forall|d: u32|
                #[trigger] mapping@.contains_key(d) <==> exists|j: int|
                    0 <= j < i + 1 && membership@[j] == d by {
                if d != c && mapping@.contains_key(d) {
                    let j = choose|j: int| 0 <= j < i && membership@[j] == d;
                }
            }
        }
        i = i + 1;
    }
    assert(membership@.take(len as int) =~= membership@);
    mapping
}

proof fn lemma_nodes_of_absent(membership: Seq<u32>, c: u32)
    requires
        forall|j: int| 0 <= j < membership.len() ==> membership[j] != c,
    ensures
        nodes_of(membership, c) == Seq::<u32>::empty(),
    decreases membership.len(),
{
    if membership.len() > 0 {
        lemma_nodes_of_absent(membership.drop_last(), c);
    }
}

proof fn lemma_nodes_of_bounded(membership: Seq<u32>, c: u32)
    requires
        membership.len() <= u32::MAX,
    ensures
        forall|k: int|
            0 <= k < nodes_of(membership, c).len() ==> #[trigger] nodes_of(membership, c)[k]
                < membership.len(),
    decreases membership.len(),
{
    if membership.len() > 0 {
        let init = membership.drop_last();
        lemma_nodes_of_bounded(init, c);
        let prev = nodes_of(init, c);
        let now = nodes_of(membership, c);
        assert forall|k: int| 0 <= k < now.len() implies #[trigger] now[k] < membership.len() by {
            if k < prev.len() {
                assert(now[k] == prev[k]);
            }
        }
    }
}

/// The node lists of a community mapping partition the nodes: node `i` is
/// listed under community `c` exactly when it belongs to `c`, every list is
/// strictly increasing, and it holds as many nodes as the community has
/// members (the count that `count_members` and `community_size_map` report).
pub proof fn lemma_nodes_of_partition(membership: Seq<u32>, c: u32)
    requires
        membership.len() <= u32::MAX,
    ensures
        forall|i: int|
            0 <= i < membership.len() ==> (nodes_of(membership, c).contains(i as u32) <==> #[trigger] membership[i]
                == c),
        forall|j: int, k: int|
            0 <= j < k < nodes_of(membership, c).len() ==> #[trigger] nodes_of(membership, c)[j]
                < #[trigger] nodes_of(membership, c)[k],
        nodes_of(membership, c).len() == count_in(membership, c),
    decreases membership.len(),
{
    if membership.len() > 0 {
        let init = membership.drop_last();
        let last = (membership.len() - 1) as int;
        lemma_nodes_of_partition(init, c);
        lemma_nodes_of_bounded(init, c);
        let prev = nodes_of(init, c);
        let now = nodes_of(membership, c);
        assert forall|i: int| 0 <= i < membership.len() implies (now.contains(i as u32) <==> #[trigger] membership[i]
            == c) by {
            if i < last {
                assert(init[i] == membership[i]);
                if now.contains(i as u32) {
                    let k = choose|k: int| 0 <= k < now.len() && now[k] == i as u32;
                    if k < prev.len() {
                        assert(prev[k] == i as u32);
                    }
                }
                if prev.contains(i as u32) {
                    let k = choose|k: int| 0 <= k < prev.len() && prev[k] == i as u32;
                    assert(now[k] == i as u32);
                }
            } else {
                if membership[i] == c {
                    assert(now[now.len() - 1] == i as u32);
                }
                if now.contains(i as u32) {
                    let k = choose|k: int| 0 <= k < now.len() && now[k] == i as u32;
                    if k < prev.len() {
                        assert(prev[k] < init.len());
                    }
                }
            }
        }
        assert forall|j: int, k: int| 0 <= j < k < now.len() implies #[trigger] now[j] < #[trigger] now[k] by {
            if k < prev.len() {
                assert(now[j] == prev[j] && now[k] == prev[k]);
            } else {
                assert(now[j] == prev[j]);
                assert(prev[j] < init.len());
            }
        }
    }
}

/// `labels` numbers the communities of `membership` in order of first
/// appearance: a community met for the first time at node `i` gets the number
/// of distinct communities met before `i` (so the first one gets 0, the next
/// new one 1, and so on), and every node gets the number of its community.
pub open spec fn numbered_by_first_appearance(membership: Seq<u32>, labels: Seq<u32>) -> bool {
    &&& labels.len() == membership.len()
    &&& forall|i: int, j: int|
        0 <= i < labels.len() && 0 <= j < labels.len() ==> (#[trigger] labels[i] == #[trigger] labels[j]
            <==> membership[i] == membership[j])
    &&& forall|i: int|
        0 <= i < labels.len() && !membership.take(i).contains(membership[i]) ==> #[trigger] labels[i]
            == membership.take(i).to_set().len()
}

proof fn lemma_first_occurrence(membership: Seq<u32>, i: int) -> (f: int)
    requires
        0 <= i < membership.len(),
    ensures
        0 <= f <= i,
        membership[f] == membership[i],
        !membership.take(f).contains(membership[f]),
    decreases i,
{
    if !membership.take(i).contains(membership[i]) {
        i
    } else {
        let j = choose|j: int| 0 <= j < membership.take(i).len() && membership.take(i)[j] == membership[i];
        lemma_first_occurrence(membership, j)
    }
}

/// There is only one numbering by first appearance: two of them are equal.
pub proof fn lemma_first_appearance_unique(membership: Seq<u32>, a: Seq<u32>, b: Seq<u32>)
    requires
        numbered_by_first_appearance(membership, a),
        numbered_by_first_appearance(membership, b),
    ensures
        a == b,
{
    assert forall|i: int| 0 <= i < a.len() implies a[i] == b[i] by {
        let f = lemma_first_occurrence(membership, i);
        assert(a[f] == membership.take(f).to_set().len());
        assert(b[f] == membership.take(f).to_set().len());
        assert(a[f] == a[i]);
        assert(b[f] == b[i]);
    }
    assert(a =~= b);
}

/// Renumbers the communities of `membership` densely, in order of first
/// appearance: the first community met becomes 0, the next new one 1, and so
/// on. Returns the renumbered membership and the number of communities.
pub fn dense_membership(membership: &[u32]) -> (r: (Vec<u32>, usize))
    requires
        membership@.len() <= u32::MAX,
    ensures
        numbered_by_first_appearance(membership@, r.0@),
        r.1 == membership@.to_set().len(),
        forall|i: int| 0 <= i < r.0@.len() ==> #[trigger] r.0@[i] < r.1,
{
    let mut numbers: HashMap<u32, u32> = HashMap::new();
    let mut labels: Vec<u32> = Vec::new();
    let len = membership.len();
    let mut next: u32 = 0;
    let mut i: usize = 0;
    while i < len
        invariant
            i <= len,
            len == membership@.len(),
            len <= u32::MAX,
            next as nat == numbers@.len(),
            next <= i,
            numbers@.dom() == membership@.take(i as int).to_set(),
            forall|c: u32| #[trigger] numbers@.contains_key(c) ==> numbers@[c] < next,
            forall|a: u32, b: u32|
                numbers@.contains_key(a) && numbers@.contains_key(b) && a != b ==> #[trigger] numbers@[a]
                    != #[trigger] numbers@[b],
            labels@.len() == i,
            forall|j: int| 0 <= j < i ==> #[trigger] labels@[j] == numbers@[membership@[j]],
            forall|j: int|
                0 <= j < i && !membership@.take(j).contains(membership@[j]) ==> #[trigger] labels@[j]
                    == membership@.take(j).to_set().len(),
        decreases len - i,
    {
        let c = membership[i];
        let ghost prefix = membership@.take(i as int);
        assert(membership@.take(i + 1) =~= prefix.push(c));
        proof {
            prefix.lemma_push_to_set_commute(c);
        }
        let ghost old_numbers = numbers@;
        let label = match numbers.get(&c) {
            Some(n) => *n,
            None => {
                let n = next;
                proof {
                    assert(!numbers@.dom().contains(c));
                    lemma_map_len_insert(numbers@, c, n);
                }
                numbers.insert(c, n);
                next = next + 1;
                n
            },
        };
        labels.push(label);
        proof {
            if !prefix.contains(c) {
                assert(!old_numbers.dom().contains(c));
                assert(label == old_numbers.len());
                assert(old_numbers.dom() == prefix.to_set());
            }
            assert forall|j: int|
                0 <= j < i + 1 && !membership@.take(j).contains(membership@[j]) implies #[trigger] labels@[j]
                == membership@.take(j).to_set().len() by {
                if j < i {
                    assert(labels@[j] == labels@.drop_last()[j]);
                } else {
                    assert(membership@.take(j) == prefix);
                }
            }
            assert(numbers@.dom() =~= membership@.take(i + 1).to_set());
            assert forall|j: int| 0 <= j < i + 1 implies #[trigger] labels@[j] == numbers@[membership@[j]] by {
                assert(membership@.take(i + 1)[j] == membership@[j]);
                assert(membership@.take(i + 1).to_set().contains(membership@[j]));
                if j < i {
                    assert(labels@[j] == labels@.drop_last()[j]);
                    assert(old_numbers.contains_key(membership@[j]));
                    if !old_numbers.contains_key(c) {
                        assert(membership@[j] != c);
                    }
                }
            }
        }
        i = i + 1;
    }
    proof {
        assert(membership@.take(len as int) =~= membership@);
        assert forall|j: int| 0 <= j < len implies #[trigger] labels@[j] < next by {
            assert(membership@.to_set().contains(membership@[j]));
            assert(numbers@.contains_key(membership@[j]));
            assert(numbers@[membership@[j]] < next);
        }
    }
    (labels, next as usize)
}

proof fn lemma_map_len_insert(m: Map<u32, u32>, k: u32, v: u32)
    requires
        m.dom().finite(),
        !m.dom().contains(k),
    ensures
        m.insert(k, v).len() == m.len() + 1,
{
}

} // verus!
