//! A B-tree node of `i32` keys. Search walks down from the root; insertion
//! places the key in the leaf it belongs to and splits a leaf that grows past
//! `MAX_KEYS`. A node's disk record holds its address, its key count, its keys
//! and its children's addresses, in the machine's byte order.

use crate::codec::{
    lemma_u32_in_at, lemma_u64_in_at, native_is_little, native_little, push_u32_in, push_u64_in, read_u32_in_at,
    read_u64_in_at, u32_in, u32_in_at, u64_in, u64_in_at,
};
use crate::post::lemma_i32_bits;
use vstd::bytes::{lemma_auto_spec_u32_to_from_le_bytes, lemma_auto_spec_u64_to_from_le_bytes};
use vstd::prelude::*;

verus! {

/// A leaf holding more keys than this is split in two.
pub const MAX_KEYS: usize = 4;

pub struct Node {
    pub address: u64,
    pub keys: Vec<i32>,
    pub children: Vec<Node>,
}

/// The abstract value of a node: its address, its keys and the values of its
/// children.
pub struct NodeModel {
    pub address: u64,
    pub keys: Seq<i32>,
    pub children: Seq<NodeModel>,
}

impl Node {
    /// The abstract value of this node and everything below it.
    pub open spec fn model(&self) -> NodeModel
        decreases self,
    {
        NodeModel {
            address: self.address,
            keys: self.keys@,
            children: Seq::new(
                self.children@.len(),
                |j: int|
                    if 0 <= j < self.children@.len() {
                        self.children@[j].model()
                    } else {
                        NodeModel { address: 0, keys: Seq::empty(), children: Seq::empty() }
                    },
            ),
        }
    }
}

impl View for Node {
    type V = NodeModel;

    open spec fn view(&self) -> NodeModel {
        self.model()
    }
}

/// The position where `key` belongs among `keys`: the first key that is not
/// smaller than `key`, or the end.
pub open spec fn slot(keys: Seq<i32>, key: i32) -> int
    decreases keys.len(),
{
    if keys.len() == 0 {
        0
    } else if key > keys[0] {
        1 + slot(keys.drop_first(), key)
    } else {
        0
    }
}

/// `slot` is the first position whose key is not smaller than `key`.
pub proof fn lemma_slot(keys: Seq<i32>, key: i32, i: int)
    requires
        0 <= i <= keys.len(),
        forall|j: int| 0 <= j < i ==> key > #[trigger] keys[j],
        i < keys.len() ==> key <= keys[i],
    ensures
        slot(keys, key) == i,
    decreases keys.len(),
{
    if keys.len() > 0 && i > 0 {
        let rest = keys.drop_first();
        assert forall|j: int| 0 <= j < i - 1 implies key > #[trigger] rest[j] by {
            assert(rest[j] == keys[j + 1]);
        }
        lemma_slot(rest, key, i - 1);
    }
}

/// Whether `key` is found by searching from `m`: at its slot in `m`'s keys,
/// or else in the child at that slot.
pub open spec fn spec_search(m: NodeModel, key: i32) -> bool
    decreases m,
{
    let i = slot(m.keys, key);
    if 0 <= i < m.keys.len() && m.keys[i] == key {
        true
    } else if 0 <= i < m.children.len() {
        spec_search(m.children[i], key)
    } else {
        false
    }
}

/// Whether inserting `key` below `m` stays within each node's children: the
/// descent never looks for a child past the last one.
pub open spec fn insertable(m: NodeModel, key: i32) -> bool
    decreases m,
{
    let i = slot(m.keys, key);
    m.children.len() > 0 ==> 0 <= i < m.children.len() && insertable(m.children[i], key)
}

/// Inserting `key` into a leaf: the keys with `key` at its slot, and, past
/// `MAX_KEYS`, the two halves they split into (the right half starts at the
/// middle position).
pub open spec fn leaf_keys_after(m: NodeModel, key: i32) -> Seq<i32> {
    m.keys.insert(slot(m.keys, key), key)
}

/// Where a grown leaf splits.
pub open spec fn split_at(len: nat) -> int {
    len as int / 2
}

/// The leaf that insertion into `m` reaches splits: the halves written to
/// disk, left (keeping the leaf's address) then right (at address 0).
pub open spec fn spec_split(m: NodeModel, key: i32) -> Option<(NodeModel, NodeModel)>
    decreases m,
{
    let i = slot(m.keys, key);
    if m.children.len() > 0 {
        if 0 <= i < m.children.len() {
            spec_split(m.children[i], key)
        } else {
            None
        }
    } else {
        let ks = leaf_keys_after(m, key);
        if ks.len() > MAX_KEYS {
            let h = split_at(ks.len());
            Some(
                (
                    NodeModel { address: m.address, keys: ks.take(h), children: m.children },
                    NodeModel { address: 0, keys: ks.skip(h), children: Seq::empty() },
                ),
            )
        } else {
            None
        }
    }
}

/// Inserting `key` below `m`, where `written` tells whether the halves of a
/// split leaf reached the disk: the new value of `m`, and the new parent that
/// a split hands up.
///
/// A leaf takes the key at its slot; past `MAX_KEYS` it keeps the left half,
/// and, when the halves were written, hands up a parent at address 0 holding
/// the right half's first key over the two halves. An inner node inserts into
/// a copy of the child at the key's slot, so the copy's other changes are
/// dropped; when that copy hands up a parent, the node takes its key at the
/// slot, its right half at the slot and its left half just after.
pub open spec fn spec_insert(m: NodeModel, key: i32, written: bool) -> (NodeModel, Option<NodeModel>)
    decreases m,
{
    let i = slot(m.keys, key);
    if m.children.len() > 0 {
        if 0 <= i < m.children.len() {
            match spec_insert(m.children[i], key, written).1 {
                Some(nc) => (
                    NodeModel {
                        address: m.address,
                        keys: m.keys.insert(i, nc.keys[0]),
                        children: m.children.insert(i + 1, nc.children[0]).update(i, nc.children[1]),
                    },
                    None,
                ),
                None => (m, None),
            }
        } else {
            (m, None)
        }
    } else {
        let ks = leaf_keys_after(m, key);
        if ks.len() > MAX_KEYS {
            let h = split_at(ks.len());
            let left = NodeModel { address: m.address, keys: ks.take(h), children: m.children };
            let right = NodeModel { address: 0, keys: ks.skip(h), children: Seq::empty() };
            if written {
                (left, Some(NodeModel { address: 0, keys: seq![ks[h]], children: seq![left, right] }))
            } else {
                (left, None)
            }
        } else {
            (NodeModel { keys: ks, ..m }, None)
        }
    }
}

/// A parent handed up by insertion holds one key over two leaves.
pub proof fn lemma_handed_up_shape(m: NodeModel, key: i32, written: bool)
    ensures
        spec_insert(m, key, written).1 matches Some(nc) ==> nc.keys.len() == 1 && nc.children.len() == 2,
    decreases m,
{
    let i = slot(m.keys, key);
    if m.children.len() > 0 && 0 <= i < m.children.len() {
        lemma_handed_up_shape(m.children[i], key, written);
    }
}

/// Whether `key` is held anywhere in the tree below `m`.
pub open spec fn tree_contains(m: NodeModel, key: i32) -> bool
    decreases m,
{
    m.keys.contains(key) || children_contain(m.children, key)
}

/// Whether `key` is held under any of the given nodes.
pub open spec fn children_contain(cs: Seq<NodeModel>, key: i32) -> bool
    decreases cs,
{
    if cs.len() == 0 {
        false
    } else {
        children_contain(cs.drop_last(), key) || tree_contains(cs.last(), key)
    }
}

/// Some node among `cs` holds `key` exactly when `children_contain` says so.
pub proof fn lemma_children_contain(cs: Seq<NodeModel>, key: i32)
    ensures
        children_contain(cs, key) <==> exists|j: int| 0 <= j < cs.len() && #[trigger] tree_contains(cs[j], key),
    decreases cs.len(),
{
    if cs.len() > 0 {
        let init = cs.drop_last();
        lemma_children_contain(init, key);
        assert(children_contain(cs, key) == (children_contain(init, key) || tree_contains(cs.last(), key)));
        assert(cs.last() == cs[cs.len() - 1]);
        if children_contain(init, key) {
            let j = choose|j: int| 0 <= j < init.len() && #[trigger] tree_contains(init[j], key);
            assert(cs[j] == init[j]);
        }
        if exists|j: int| 0 <= j < cs.len() && #[trigger] tree_contains(cs[j], key) {
            let j = choose|j: int| 0 <= j < cs.len() && #[trigger] tree_contains(cs[j], key);
            if j < cs.len() - 1 {
                assert(init[j] == cs[j]);
            }
        }
    }
}

/// The exclusive lower bound on the keys under child `j` of a node with these keys.
pub open spec fn child_lo(keys: Seq<i32>, j: int, lo: int) -> int {
    if j == 0 {
        lo
    } else {
        keys[j - 1] as int
    }
}

/// The exclusive upper bound on the keys under child `j` of a node with these keys.
pub open spec fn child_hi(keys: Seq<i32>, j: int, hi: int) -> int {
    if j == keys.len() {
        hi
    } else {
        keys[j] as int
    }
}

/// A search tree whose keys lie strictly between `lo` and `hi`: each node's
/// keys strictly increase, a node has no children or one more child than
/// keys, and child `j` holds only keys between the node's keys `j - 1` and `j`.
pub open spec fn bounded_tree(m: NodeModel, lo: int, hi: int) -> bool
    decreases m,
{
    &&& forall|a: int, b: int| 0 <= a < b < m.keys.len() ==> m.keys[a] < m.keys[b]
    &&& forall|a: int| 0 <= a < m.keys.len() ==> lo < #[trigger] m.keys[a] < hi
    &&& (m.children.len() == 0 || m.children.len() == m.keys.len() + 1)
    &&& children_bounded(m.children, m.keys, lo, hi)
}

/// Each of the nodes `cs`, as children of a node with keys `keys`, is a
/// search tree within its bounds.
pub open spec fn children_bounded(cs: Seq<NodeModel>, keys: Seq<i32>, lo: int, hi: int) -> bool
    decreases cs,
{
    if cs.len() == 0 {
        true
    } else {
        children_bounded(cs.drop_last(), keys, lo, hi) && bounded_tree(
            cs.last(),
            child_lo(keys, cs.len() - 1, lo),
            child_hi(keys, cs.len() - 1, hi),
        )
    }
}

/// `children_bounded` holds exactly when every child is bounded.
pub proof fn lemma_children_bounded(cs: Seq<NodeModel>, keys: Seq<i32>, lo: int, hi: int)
    ensures
        children_bounded(cs, keys, lo, hi) <==> forall|j: int|
            0 <= j < cs.len() ==> #[trigger] bounded_tree(cs[j], child_lo(keys, j, lo), child_hi(keys, j, hi)),
    decreases cs.len(),
{
    if cs.len() > 0 {
        let init = cs.drop_last();
        lemma_children_bounded(init, keys, lo, hi);
        assert(cs.last() == cs[cs.len() - 1]);
        assert(children_bounded(cs, keys, lo, hi) == (children_bounded(init, keys, lo, hi) && bounded_tree(
            cs.last(),
            child_lo(keys, cs.len() - 1, lo),
            child_hi(keys, cs.len() - 1, hi),
        )));
        if forall|j: int|
            0 <= j < cs.len() ==> #[trigger] bounded_tree(cs[j], child_lo(keys, j, lo), child_hi(keys, j, hi)) {
            assert forall|j: int| 0 <= j < init.len() implies #[trigger] bounded_tree(
                init[j],
                child_lo(keys, j, lo),
                child_hi(keys, j, hi),
            ) by {
                assert(init[j] == cs[j]);
            }
        }
        if children_bounded(cs, keys, lo, hi) {
            assert forall|j: int| 0 <= j < cs.len() implies #[trigger] bounded_tree(
                cs[j],
                child_lo(keys, j, lo),
                child_hi(keys, j, hi),
            ) by {
                if j < cs.len() - 1 {
                    assert(init[j] == cs[j]);
                }
            }
        }
    }
}

/// A search tree over all of `i32`.
pub open spec fn search_tree(m: NodeModel) -> bool {
    bounded_tree(m, i32::MIN - 1, i32::MAX + 1)
}

/// Every key held in a bounded tree lies within its bounds.
pub proof fn lemma_contains_within(m: NodeModel, lo: int, hi: int, key: i32)
    requires
        bounded_tree(m, lo, hi),
        tree_contains(m, key),
    ensures
        lo < key < hi,
    decreases m,
{
    if !m.keys.contains(key) {
        lemma_children_contain(m.children, key);
        lemma_children_bounded(m.children, m.keys, lo, hi);
        let j = choose|j: int| 0 <= j < m.children.len() && #[trigger] tree_contains(m.children[j], key);
        assert(bounded_tree(m.children[j], child_lo(m.keys, j, lo), child_hi(m.keys, j, hi)));
        lemma_contains_within(m.children[j], child_lo(m.keys, j, lo), child_hi(m.keys, j, hi), key);
        if j > 0 {
            assert(lo < m.keys[j - 1]);
        }
        if j < m.keys.len() {
            assert(m.keys[j] < hi);
        }
    } else {
        let p = choose|p: int| 0 <= p < m.keys.len() && m.keys[p] == key;
        assert(lo < m.keys[p] < hi);
    }
}

/// What search finds is held in the tree.
pub proof fn lemma_search_sound(m: NodeModel, key: i32)
    ensures
        spec_search(m, key) ==> tree_contains(m, key),
    decreases m,
{
    let i = slot(m.keys, key);
    if 0 <= i < m.keys.len() && m.keys[i] == key {
        assert(m.keys.contains(key));
    } else if 0 <= i < m.children.len() {
        lemma_search_sound(m.children[i], key);
        lemma_children_contain(m.children, key);
    }
}

/// In a bounded tree, search finds exactly the keys the tree holds.
pub proof fn lemma_search_bounded(m: NodeModel, lo: int, hi: int, key: i32)
    requires
        bounded_tree(m, lo, hi),
    ensures
        spec_search(m, key) == tree_contains(m, key),
    decreases m,
{
    lemma_search_sound(m, key);
    if tree_contains(m, key) {
        if m.keys.contains(key) {
            let p = choose|p: int| 0 <= p < m.keys.len() && m.keys[p] == key;
            assert forall|a: int| 0 <= a < p implies key > #[trigger] m.keys[a] by {
                assert(m.keys[a] < m.keys[p]);
            }
            lemma_slot(m.keys, key, p);
        } else {
            lemma_children_contain(m.children, key);
            lemma_children_bounded(m.children, m.keys, lo, hi);
            let j = choose|j: int| 0 <= j < m.children.len() && #[trigger] tree_contains(m.children[j], key);
            assert(bounded_tree(m.children[j], child_lo(m.keys, j, lo), child_hi(m.keys, j, hi)));
            lemma_contains_within(m.children[j], child_lo(m.keys, j, lo), child_hi(m.keys, j, hi), key);
            assert forall|a: int| 0 <= a < j implies key > #[trigger] m.keys[a] by {
                if a < j - 1 {
                    assert(m.keys[a] < m.keys[j - 1]);
                }
            }
            lemma_slot(m.keys, key, j);
            lemma_search_bounded(m.children[j], child_lo(m.keys, j, lo), child_hi(m.keys, j, hi), key);
        }
    }
}

/// On a search tree, search finds a key exactly when the tree holds it.
pub proof fn lemma_search_finds_exactly_held_keys(m: NodeModel, key: i32)
    requires
        search_tree(m),
    ensures
        spec_search(m, key) == tree_contains(m, key),
{
    lemma_search_bounded(m, i32::MIN - 1, i32::MAX + 1, key);
}

/// Keys in strictly increasing order.
pub open spec fn strictly_sorted(keys: Seq<i32>) -> bool {
    forall|a: int, b: int| 0 <= a < b < keys.len() ==> keys[a] < keys[b]
}

/// The node that stands at the top after inserting into `m`: the parent
/// handed up, if any, else `m`'s new value.
pub open spec fn top_after_insert(m: NodeModel, key: i32, written: bool) -> NodeModel {
    match spec_insert(m, key, written).1 {
        Some(p) => p,
        None => spec_insert(m, key, written).0,
    }
}

/// The keys before the slot are smaller than `key`, the key at the slot is
/// not.
pub proof fn lemma_slot_bounds(keys: Seq<i32>, key: i32)
    ensures
        0 <= slot(keys, key) <= keys.len(),
        forall|j: int| 0 <= j < slot(keys, key) ==> #[trigger] keys[j] < key,
        slot(keys, key) < keys.len() ==> key <= keys[slot(keys, key)],
    decreases keys.len(),
{
    if keys.len() > 0 && key > keys[0] {
        let rest = keys.drop_first();
        lemma_slot_bounds(rest, key);
        assert forall|j: int| 0 <= j < slot(keys, key) implies #[trigger] keys[j] < key by {
            if j > 0 {
                assert(keys[j] == rest[j - 1]);
            }
        }
        if slot(keys, key) < keys.len() {
            assert(keys[slot(keys, key)] == rest[slot(rest, key)]);
        }
    }
}

/// On a leaf with strictly increasing keys, search finds exactly its keys.
pub proof fn lemma_leaf_search(m: NodeModel, key: i32)
    requires
        m.children.len() == 0,
        strictly_sorted(m.keys),
    ensures
        spec_search(m, key) == m.keys.contains(key),
{
    assert(children_bounded(m.children, m.keys, i32::MIN - 1, i32::MAX + 1));
    assert(search_tree(m));
    lemma_search_finds_exactly_held_keys(m, key);
    assert(!children_contain(m.children, key));
}

/// Inserting a key that a leaf does not hold yet into that leaf, whose keys
/// strictly increase, leaves a top node on which search finds exactly the old
/// keys and the new one, whether or not the leaf split, provided that a split
/// leaf's halves were written.
pub proof fn lemma_insert_into_leaf_then_search(m: NodeModel, key: i32, written: bool, k: i32)
    requires
        m.children.len() == 0,
        strictly_sorted(m.keys),
        !m.keys.contains(key),
        written || spec_split(m, key) is None,
    ensures
        spec_search(top_after_insert(m, key, written), k) <==> (k == key || m.keys.contains(k)),
{
    let i = slot(m.keys, key);
    let ks = leaf_keys_after(m, key);
    lemma_slot_bounds(m.keys, key);
    assert(ks.len() == m.keys.len() + 1);
    assert forall|a: int, b: int| 0 <= a < b < ks.len() implies ks[a] < ks[b] by {
        if a < i {
            assert(ks[a] == m.keys[a]);
        } else if a == i {
            assert(ks[a] == key);
        } else {
            assert(ks[a] == m.keys[a - 1]);
        }
        if b < i {
            assert(ks[b] == m.keys[b]);
        } else if b == i {
            assert(ks[b] == key);
        } else {
            assert(ks[b] == m.keys[b - 1]);
            if i < m.keys.len() {
                assert(key <= m.keys[i]);
                assert(m.keys[i] != key);
                if i < b - 1 {
                    assert(m.keys[i] < m.keys[b - 1]);
                }
            }
        }
    }
    assert(ks.contains(k) <==> (k == key || m.keys.contains(k))) by {
        if ks.contains(k) {
            let p = choose|p: int| 0 <= p < ks.len() && ks[p] == k;
            if p < i {
                assert(m.keys[p] == k);
            } else if p > i {
                assert(m.keys[p - 1] == k);
            }
        }
        if m.keys.contains(k) {
            let p = choose|p: int| 0 <= p < m.keys.len() && m.keys[p] == k;
            if p < i {
                assert(ks[p] == k);
            } else {
                assert(ks[p + 1] == k);
            }
        }
        if k == key {
            assert(ks[i] == k);
        }
    }
    if ks.len() > MAX_KEYS {
        let h = split_at(ks.len());
        let left = NodeModel { address: m.address, keys: ks.take(h), children: m.children };
        let right = NodeModel { address: 0, keys: ks.skip(h), children: Seq::empty() };
        let top = NodeModel { address: 0, keys: seq![ks[h]], children: seq![left, right] };
        assert(top_after_insert(m, key, written) == top);
        lemma_leaf_search(left, k);
        lemma_leaf_search(right, k);
        assert(slot(top.keys, k) == if k > ks[h] { 1int } else { 0int }) by {
            reveal_with_fuel(slot, 2);
            assert(top.keys.drop_first() =~= Seq::<i32>::empty());
        }
        if k == ks[h] {
        } else if k < ks[h] {
            assert(spec_search(top, k) == spec_search(left, k));
            if ks.contains(k) {
                let p = choose|p: int| 0 <= p < ks.len() && ks[p] == k;
                if p >= h {
                    if p > h {
                        assert(ks[h] < ks[p]);
                    }
                }
                assert(left.keys[p] == k);
            }
            if left.keys.contains(k) {
                let p = choose|p: int| 0 <= p < left.keys.len() && left.keys[p] == k;
                assert(ks[p] == k);
            }
        } else {
            assert(spec_search(top, k) == spec_search(right, k));
            if ks.contains(k) {
                let p = choose|p: int| 0 <= p < ks.len() && ks[p] == k;
                if p < h {
                    assert(ks[p] < ks[h]);
                }
                assert(right.keys[p - h] == k);
            }
            if right.keys.contains(k) {
                let p = choose|p: int| 0 <= p < right.keys.len() && right.keys[p] == k;
                assert(ks[p + h] == k);
            }
        }
    } else {
        let n = NodeModel { keys: ks, ..m };
        assert(top_after_insert(m, key, written) == n);
        lemma_leaf_search(n, k);
    }
}

/// Only a leaf hands up a parent, exactly when it splits and its halves were
/// written, and that parent's two children are the halves that were written,
/// left then right. A node whose child at the key's slot is such a leaf takes
/// the right half at that slot and the left half just after it.
pub proof fn lemma_handed_up_holds_written_halves(m: NodeModel, key: i32, written: bool)
    ensures
        spec_insert(m, key, written).1 is Some <==> (m.children.len() == 0 && written && spec_split(
            m,
            key,
        ) is Some),
        spec_insert(m, key, written).1 matches Some(p) ==> spec_split(m, key) == Some(
            (p.children[0], p.children[1]),
        ),
        ({
            let i = slot(m.keys, key);
            (0 <= i < m.children.len() && m.children[i].children.len() == 0 && written
                && spec_split(m, key) is Some) ==> {
                let (l, r) = spec_split(m, key).unwrap();
                &&& spec_insert(m, key, written).0.children[i] == r
                &&& spec_insert(m, key, written).0.children[i + 1] == l
            }
        }),
{
    let i = slot(m.keys, key);
    if m.children.len() > 0 && 0 <= i < m.children.len() {
        let c = m.children[i];
        if c.children.len() == 0 && written && spec_split(c, key) is Some {
            let (l, r) = spec_split(c, key).unwrap();
            let nc = spec_insert(c, key, written).1.unwrap();
            assert(nc.children == seq![l, r]);
            let cs = m.children.insert(i + 1, nc.children[0]).update(i, nc.children[1]);
            assert(spec_insert(m, key, written).0.children == cs);
            assert(cs[i] == r);
            assert(cs[i + 1] == l);
        }
    }
}

/// When the child of an inner node at position `i` (the first position whose
/// key is not smaller than `key`) hands up a parent `p`, the node's keys keep
/// their places before `i`, `p`'s key takes position `i`, and the keys from
/// `i` on move one place right.
pub proof fn lemma_inner_node_takes_handed_up_key(m: NodeModel, key: i32, written: bool, i: int)
    requires
        m.children.len() > 0,
        0 <= i < m.children.len(),
        i <= m.keys.len(),
        forall|j: int| 0 <= j < i ==> #[trigger] m.keys[j] < key,
        i < m.keys.len() ==> key <= m.keys[i],
    ensures
        spec_insert(m.children[i], key, written).1 matches Some(p) ==> {
            let n = spec_insert(m, key, written).0;
            &&& n.keys.len() == m.keys.len() + 1
            &&& forall|j: int| 0 <= j < i ==> #[trigger] n.keys[j] == m.keys[j]
            &&& n.keys[i] == p.keys[0]
            &&& forall|j: int| i <= j < m.keys.len() ==> n.keys[j + 1] == #[trigger] m.keys[j]
        },
{
    assert forall|j: int| 0 <= j < i implies key > #[trigger] m.keys[j] by {}
    lemma_slot(m.keys, key, i);
}

/// In a search tree of two levels, inserting a key the tree does not hold
/// keeps the root's keys strictly increasing, whether or not the leaf it
/// reaches splits.
pub proof fn lemma_inner_keys_stay_sorted(m: NodeModel, lo: int, hi: int, key: i32, written: bool)
    requires
        bounded_tree(m, lo, hi),
        m.children.len() > 0,
        forall|j: int| 0 <= j < m.children.len() ==> (#[trigger] m.children[j]).children.len() == 0,
        !tree_contains(m, key),
        lo < key < hi,
    ensures
        strictly_sorted(spec_insert(m, key, written).0.keys),
{
    let i = slot(m.keys, key);
    lemma_slot_bounds(m.keys, key);
    lemma_children_bounded(m.children, m.keys, lo, hi);
    lemma_children_contain(m.children, key);
    let c = m.children[i];
    let clo = child_lo(m.keys, i, lo);
    let chi = child_hi(m.keys, i, hi);
    assert(bounded_tree(c, clo, chi));
    if i < m.keys.len() {
        assert(m.keys[i] != key) by {
            if m.keys[i] == key {
                assert(m.keys.contains(key));
            }
        }
    }
    assert(clo < key < chi);
    assert(!c.keys.contains(key)) by {
        if c.keys.contains(key) {
            assert(tree_contains(c, key));
        }
    }
    match spec_insert(c, key, written).1 {
        Some(p) => {
            let sc = slot(c.keys, key);
            lemma_slot_bounds(c.keys, key);
            let ks = leaf_keys_after(c, key);
            let h = split_at(ks.len());
            assert(p.keys[0] == ks[h]);
            assert(clo < ks[h] < chi) by {
                if h < sc {
                    assert(ks[h] == c.keys[h]);
                } else if h > sc {
                    assert(ks[h] == c.keys[h - 1]);
                }
            }
            let n = spec_insert(m, key, written).0;
            assert(n.keys == m.keys.insert(i, ks[h]));
            assert forall|a: int, b: int| 0 <= a < b < n.keys.len() implies n.keys[a] < n.keys[b] by {
                if a < i {
                    assert(n.keys[a] == m.keys[a]);
                    assert(m.keys[a] <= m.keys[i - 1] || a == i - 1);
                } else if a > i {
                    assert(n.keys[a] == m.keys[a - 1]);
                }
                if b < i {
                    assert(n.keys[b] == m.keys[b]);
                } else if b > i {
                    assert(n.keys[b] == m.keys[b - 1]);
                    assert(m.keys[i] <= m.keys[b - 1] || b - 1 == i);
                }
            }
        },
        None => {},
    }
}

/// Finds the slot of `key` among `keys`.
fn find_slot(keys: &Vec<i32>, key: i32) -> (i: usize)
    ensures
        i == slot(keys@, key),
        i <= keys@.len(),
{
    let mut i: usize = 0;
    while i < keys.len() && key > keys[i]
        invariant
            0 <= i <= keys@.len(),
            forall|j: int| 0 <= j < i ==> key > #[trigger] keys@[j],
        decreases keys@.len() - i,
    {
        i = i + 1;
    }
    proof {
        lemma_slot(keys@, key, i as int);
    }
    i
}

impl Node {
    /// An empty leaf at the given address.
    pub fn new(address: u64) -> (n: Node)
        ensures
            n@ == (NodeModel { address, keys: Seq::empty(), children: Seq::empty() }),
    {
        let n = Node { address, keys: Vec::new(), children: Vec::new() };
        assert(n@.children =~= Seq::<NodeModel>::empty());
        n
    }

    /// Whether `key` is found searching down from this node.
    pub fn search(&self, key: i32) -> (r: bool)
        ensures
            r == spec_search(self@, key),
        decreases self,
    {
        let i = find_slot(&self.keys, key);
        if i < self.keys.len() && self.keys[i] == key {
            return true;
        }
        if i < self.children.len() {
            assert(decreases_to!(self => self.children@[i as int]));
            return self.children[i].search(key);
        }
        false
    }
}

impl Node {
    /// Whether inserting `key` below this node stays within each node's
    /// children.
    pub fn can_insert(&self, key: i32) -> (r: bool)
        ensures
            r == insertable(self@, key),
        decreases self,
    {
        let i = find_slot(&self.keys, key);
        if self.children.len() == 0 {
            return true;
        }
        if i >= self.children.len() {
            return false;
        }
        assert(decreases_to!(self => self.children@[i as int]));
        self.children[i].can_insert(key)
    }

    /// The two halves that inserting `key` writes to disk, left then right,
    /// when the leaf it reaches splits.
    pub fn pending_writes(&self, key: i32) -> (r: Option<(Node, Node)>)
        requires
            insertable(self@, key),
        ensures
            match spec_split(self@, key) {
                Some((l, rt)) => r matches Some((a, b)) && a@ == l && b@ == rt,
                None => r is None,
            },
        decreases self,
    {
        let i = find_slot(&self.keys, key);
        if self.children.len() > 0 {
            assert(decreases_to!(self => self.children@[i as int]));
            return self.children[i].pending_writes(key);
        }
        let mut keys = self.keys.clone();
        assert(keys@ =~= self.keys@);
        keys.insert(i, key);
        if keys.len() > MAX_KEYS {
            let split_idx = keys.len() / 2;
            let right_keys = keys.split_off(split_idx);
            let left = Node { address: self.address, keys, children: Vec::new() };
            let right = Node { address: 0, keys: right_keys, children: Vec::new() };
            assert(left@.children =~= self@.children);
            assert(right@.children =~= Seq::<NodeModel>::empty());
            Some((left, right))
        } else {
            None
        }
    }

    /// Inserts `key` below this node; `written` tells whether the two halves
    /// of a leaf split reached the disk (see `pending_writes`). Returns the
    /// new parent that a split hands up.
    pub fn insert(&mut self, key: i32, written: bool) -> (r: Option<Node>)
        requires
            insertable(old(self)@, key),
        ensures
            final(self)@ == spec_insert(old(self)@, key, written).0,
            match spec_insert(old(self)@, key, written).1 {
                Some(nc) => r matches Some(n) && n@ == nc,
                None => r is None,
            },
        decreases old(self)@,
    {
        let i = find_slot(&self.keys, key);
        if self.children.len() > 0 {
            let mut child = self.children[i].clone();
            assert(child@ == old(self)@.children[i as int]);
            let new_child = child.insert(key, written);
            proof {
                lemma_handed_up_shape(old(self)@.children[i as int], key, written);
            }
            if let Some(nc) = new_child {
                let ghost before = self.children@;
                let k0 = nc.keys[0];
                self.keys.insert(i, k0);
                let left = nc.children[0].clone();
                let right = nc.children[1].clone();
                self.children.insert(i + 1, left);
                self.children[i] = right;
                assert(self@.children =~= old(self)@.children.insert(i + 1, nc@.children[0]).update(
                    i as int,
                    nc@.children[1],
                ));
            }
            return None;
        }
        let ghost ks = leaf_keys_after(old(self)@, key);
        self.keys.insert(i, key);
        if self.keys.len() > MAX_KEYS {
            let split_idx = self.keys.len() / 2;
            let right_keys = self.keys.split_off(split_idx);
            let new_node = Node { address: 0, keys: right_keys, children: Vec::new() };
            assert(new_node@.children =~= Seq::<NodeModel>::empty());
            let new_key = new_node.keys[0];
            if !written {
                return None;
            }
            let left = self.clone();
            let root = Node { address: 0, keys: vec![new_key], children: vec![left, new_node] };
            assert(root@.keys =~= seq![ks[split_at(ks.len()) as int]]);
            assert(root@.children =~= seq![self@, new_node@]);
            return Some(root);
        }
        None
    }
}

/// Keys stored one after another, each as four bytes in the given order.
pub open spec fn keys_bytes(keys: Seq<i32>, little: bool) -> Seq<u8>
    decreases keys.len(),
{
    if keys.len() == 0 {
        Seq::empty()
    } else {
        keys_bytes(keys.drop_last(), little) + u32_in(keys.last() as u32, little)
    }
}

/// Addresses stored one after another, each as eight bytes in the given order.
pub open spec fn addrs_bytes(addrs: Seq<u64>, little: bool) -> Seq<u8>
    decreases addrs.len(),
{
    if addrs.len() == 0 {
        Seq::empty()
    } else {
        addrs_bytes(addrs.drop_last(), little) + u64_in(addrs.last(), little)
    }
}

/// The addresses of a node's children.
pub open spec fn child_addresses(m: NodeModel) -> Seq<u64> {
    Seq::new(m.children.len(), |j: int| m.children[j].address)
}

/// The disk record of a node in the given byte order: its address, its key
/// count (truncated to 32 bits), its keys and its children's addresses.
pub open spec fn disk_record(m: NodeModel, little: bool) -> Seq<u8> {
    u64_in(m.address, little) + u32_in(m.keys.len() as u32, little) + keys_bytes(m.keys, little)
        + addrs_bytes(child_addresses(m), little)
}

/// `n` keys stored from `pos` in the given order, if the bytes are there.
pub open spec fn keys_at(b: Seq<u8>, pos: int, n: nat, little: bool) -> Option<Seq<i32>> {
    if 0 <= pos && pos + 4 * n <= b.len() {
        Some(Seq::new(n, |j: int| u32_in_at(b, pos + 4 * j, little).unwrap() as i32))
    } else {
        None
    }
}

/// `n` addresses stored from `pos` in the given order, if the bytes are there.
pub open spec fn addrs_at(b: Seq<u8>, pos: int, n: nat, little: bool) -> Option<Seq<u64>> {
    if 0 <= pos && pos + 8 * n <= b.len() {
        Some(Seq::new(n, |j: int| u64_in_at(b, pos + 8 * j, little).unwrap()))
    } else {
        None
    }
}

/// What reading a node at `pos` finds: a key count `n`, then `n` keys, then
/// `n + 1` child addresses.
pub open spec fn record_at(b: Seq<u8>, pos: int, little: bool) -> Option<(Seq<i32>, Seq<u64>)> {
    match u32_in_at(b, pos, little) {
        Some(n) => match (keys_at(b, pos + 4, n as nat, little), addrs_at(b, pos + 4 + 4 * n, (n + 1) as nat, little)) {
            (Some(keys), Some(addrs)) => Some((keys, addrs)),
            _ => None,
        },
        None => None,
    }
}

impl Node {
    /// The disk record of this node in the given byte order.
    pub fn to_disk_bytes_in(&self, little: bool) -> (r: Vec<u8>)
        ensures
            r@ == disk_record(self@, little),
    {
        let mut out: Vec<u8> = Vec::new();
        push_u64_in(&mut out, self.address, little);
        push_u32_in(&mut out, #[verifier::truncate] (self.keys.len() as u32), little);
        let ghost head = out@;
        let mut j: usize = 0;
        while j < self.keys.len()
            invariant
                0 <= j <= self.keys@.len(),
                out@ == head + keys_bytes(self.keys@.take(j as int), little),
            decreases self.keys@.len() - j,
        {
            push_u32_in(&mut out, #[verifier::truncate] (self.keys[j] as u32), little);
            assert(self.keys@.take(j + 1).drop_last() =~= self.keys@.take(j as int));
            j = j + 1;
        }
        assert(self.keys@.take(self.keys@.len() as int) =~= self.keys@);
        let ghost mid = out@;
        let ghost addrs = child_addresses(self@);
        assert forall|k: int| 0 <= k < addrs.len() implies #[trigger] addrs[k] == self.children@[k].address by {
            assert(self@.children[k] == self.children@[k]@);
        }
        let mut c: usize = 0;
        while c < self.children.len()
            invariant
                0 <= c <= self.children@.len(),
                addrs == child_addresses(self@),
                addrs.len() == self.children@.len(),
                forall|k: int| 0 <= k < addrs.len() ==> #[trigger] addrs[k] == self.children@[k].address,
                out@ == mid + addrs_bytes(addrs.take(c as int), little),
            decreases self.children@.len() - c,
        {
            push_u64_in(&mut out, self.children[c].address, little);
            assert(addrs.take(c + 1).drop_last() =~= addrs.take(c as int));
            c = c + 1;
        }
        assert(addrs.take(addrs.len() as int) =~= addrs);
        assert(out@ =~= disk_record(self@, little));
        out
    }

    /// The disk record of this node in the machine's byte order.
    pub fn to_disk_bytes(&self) -> (r: Vec<u8>)
        ensures
            r@ == disk_record(self@, native_little()),
    {
        self.to_disk_bytes_in(native_is_little())
    }

    /// Reads the node stored at `address` in `file`, in the given byte order:
    /// its keys and its children's addresses, or `None` when the file ends
    /// first.
    pub fn read_record(file: &[u8], address: u64, little: bool) -> (r: Option<(Vec<i32>, Vec<u64>)>)
        ensures
            match record_at(file@, address as int, little) {
                Some((keys, addrs)) => r matches Some((k, a)) && k@ == keys && a@ == addrs,
                None => r is None,
            },
    {
        if address > file.len() as u64 {
            return None;
        }
        let pos = address as usize;
        let n = match read_u32_in_at(file, pos, little) {
            Some(n) => n,
            None => return None,
        };
        let nk = n as usize;
        let start = pos + 4;
        if nk > (file.len() - start) / 4 {
            return None;
        }
        let room: usize = file.len() - start;
        assert(nk * 4 <= room) by (nonlinear_arith)
            requires
                nk <= room / 4,
        ;
        let mut keys: Vec<i32> = Vec::new();
        let mut j: usize = 0;
        while j < nk
            invariant
                start == pos + 4,
                pos + 4 <= file@.len(),
                file@.len() <= usize::MAX,
                nk * 4 <= file@.len() - start,
                0 <= j <= nk,
                keys@.len() == j,
                forall|k: int| 0 <= k < j ==> #[trigger] keys@[k] == u32_in_at(file@, start + 4 * k, little).unwrap() as i32,
            decreases nk - j,
        {
            assert(4 * j + 4 <= 4 * nk);
            assert(start + 4 * j + 4 <= file@.len());
            let w = read_u32_in_at(file, start + 4 * j, little).unwrap();
            keys.push(#[verifier::truncate] (w as i32));
            j = j + 1;
        }
        assert(keys@ =~= keys_at(file@, pos + 4, n as nat, little).unwrap());
        let astart = start + 4 * nk;
        let na = nk + 1;
        if na > (file.len() - astart) / 8 {
            assert(addrs_at(file@, pos + 4 + 4 * n, (n + 1) as nat, little) is None);
            return None;
        }
        let aroom: usize = file.len() - astart;
        assert(na * 8 <= aroom) by (nonlinear_arith)
            requires
                na <= aroom / 8,
        ;
        let mut addrs: Vec<u64> = Vec::new();
        let mut c: usize = 0;
        while c < na
            invariant
                astart <= file@.len(),
                file@.len() <= usize::MAX,
                na * 8 <= file@.len() - astart,
                0 <= c <= na,
                addrs@.len() == c,
                forall|k: int| 0 <= k < c ==> #[trigger] addrs@[k] == u64_in_at(file@, astart + 8 * k, little).unwrap(),
            decreases na - c,
        {
            assert(8 * c + 8 <= 8 * na);
            let a = read_u64_in_at(file, astart + 8 * c, little).unwrap();
            addrs.push(a);
            c = c + 1;
        }
        assert(addrs@ =~= addrs_at(file@, pos + 4 + 4 * n, (n + 1) as nat, little).unwrap());
        Some((keys, addrs))
    }
}

/// The byte forms of a `u32` and a `u64` are four and eight bytes long.
pub proof fn lemma_word_lengths(x: u32, y: u64, little: bool)
    ensures
        u32_in(x, little).len() == 4,
        u64_in(y, little).len() == 8,
{
    lemma_auto_spec_u32_to_from_le_bytes();
    lemma_auto_spec_u64_to_from_le_bytes();
    assert(vstd::bytes::spec_u32_to_le_bytes(x).len() == 4);
    assert(vstd::bytes::spec_u64_to_le_bytes(y).len() == 8);
}

/// Stored keys take four bytes each, the `j`-th at offset `4 * j`.
pub proof fn lemma_keys_bytes(s: Seq<i32>, little: bool)
    ensures
        keys_bytes(s, little).len() == 4 * s.len(),
        forall|j: int|
            0 <= j < s.len() ==> #[trigger] keys_bytes(s, little).subrange(4 * j, 4 * j + 4) == u32_in(
                s[j] as u32,
                little,
            ),
    decreases s.len(),
{
    if s.len() > 0 {
        let init = s.drop_last();
        lemma_keys_bytes(init, little);
        let a = keys_bytes(init, little);
        let t = u32_in(s.last() as u32, little);
        lemma_word_lengths(s.last() as u32, 0, little);
        assert(keys_bytes(s, little) == a + t);
        assert forall|j: int| 0 <= j < s.len() implies #[trigger] keys_bytes(s, little).subrange(
            4 * j,
            4 * j + 4,
        ) == u32_in(s[j] as u32, little) by {
            if j < s.len() - 1 {
                assert((a + t).subrange(4 * j, 4 * j + 4) =~= a.subrange(4 * j, 4 * j + 4));
                assert(init[j] == s[j]);
            } else {
                assert((a + t).subrange(4 * j, 4 * j + 4) =~= t);
            }
        }
    }
}

/// Stored addresses take eight bytes each, the `j`-th at offset `8 * j`.
pub proof fn lemma_addrs_bytes(s: Seq<u64>, little: bool)
    ensures
        addrs_bytes(s, little).len() == 8 * s.len(),
        forall|j: int|
            0 <= j < s.len() ==> #[trigger] addrs_bytes(s, little).subrange(8 * j, 8 * j + 8) == u64_in(
                s[j],
                little,
            ),
    decreases s.len(),
{
    if s.len() > 0 {
        let init = s.drop_last();
        lemma_addrs_bytes(init, little);
        let a = addrs_bytes(init, little);
        let t = u64_in(s.last(), little);
        lemma_word_lengths(0, s.last(), little);
        assert(addrs_bytes(s, little) == a + t);
        assert forall|j: int| 0 <= j < s.len() implies #[trigger] addrs_bytes(s, little).subrange(
            8 * j,
            8 * j + 8,
        ) == u64_in(s[j], little) by {
            if j < s.len() - 1 {
                assert((a + t).subrange(8 * j, 8 * j + 8) =~= a.subrange(8 * j, 8 * j + 8));
                assert(init[j] == s[j]);
            } else {
                assert((a + t).subrange(8 * j, 8 * j + 8) =~= t);
            }
        }
    }
}

/// Keys stored at `p` read back as the same keys.
pub proof fn lemma_keys_at(b: Seq<u8>, p: int, s: Seq<i32>, little: bool)
    requires
        0 <= p,
        p + 4 * s.len() <= b.len(),
        b.subrange(p, p + 4 * s.len()) == keys_bytes(s, little),
    ensures
        keys_at(b, p, s.len(), little) == Some(s),
{
    lemma_keys_bytes(s, little);
    let got = keys_at(b, p, s.len(), little).unwrap();
    assert forall|j: int| 0 <= j < s.len() implies got[j] == s[j] by {
        let kb = keys_bytes(s, little);
        assert(b.subrange(p + 4 * j, p + 4 * j + 4) =~= kb.subrange(4 * j, 4 * j + 4));
        assert(kb.subrange(4 * j, 4 * j + 4) == u32_in(s[j] as u32, little));
        lemma_u32_in_at(b, p + 4 * j, s[j] as u32, little);
        lemma_i32_bits(s[j]);
    }
    assert(got =~= s);
}

/// Addresses stored at `p` read back as the same addresses.
pub proof fn lemma_addrs_at(b: Seq<u8>, p: int, s: Seq<u64>, little: bool)
    requires
        0 <= p,
        p + 8 * s.len() <= b.len(),
        b.subrange(p, p + 8 * s.len()) == addrs_bytes(s, little),
    ensures
        addrs_at(b, p, s.len(), little) == Some(s),
{
    lemma_addrs_bytes(s, little);
    let got = addrs_at(b, p, s.len(), little).unwrap();
    assert forall|j: int| 0 <= j < s.len() implies got[j] == s[j] by {
        let ab = addrs_bytes(s, little);
        assert(b.subrange(p + 8 * j, p + 8 * j + 8) =~= ab.subrange(8 * j, 8 * j + 8));
        assert(ab.subrange(8 * j, 8 * j + 8) == u64_in(s[j], little));
        lemma_u64_in_at(b, p + 8 * j, s[j], little);
    }
    assert(got =~= s);
}

/// A node's disk record, read back in the same byte order from just past the
/// address it starts with, gives its keys and its children's addresses, for a
/// node with one more child than keys.
pub proof fn lemma_record_roundtrip(m: NodeModel, little: bool, b: Seq<u8>, pos: int)
    requires
        m.children.len() == m.keys.len() + 1,
        m.keys.len() <= u32::MAX,
        0 <= pos,
        pos + disk_record(m, little).len() <= b.len(),
        b.subrange(pos, pos + disk_record(m, little).len()) == disk_record(m, little),
    ensures
        record_at(b, pos + 8, little) == Some((m.keys, child_addresses(m))),
{
    let n = m.keys.len() as u32;
    let addrs = child_addresses(m);
    let a = u64_in(m.address, little);
    let c = u32_in(n, little);
    let kb = keys_bytes(m.keys, little);
    let ab = addrs_bytes(addrs, little);
    lemma_word_lengths(n, m.address, little);
    lemma_keys_bytes(m.keys, little);
    lemma_addrs_bytes(addrs, little);
    let r = disk_record(m, little);
    assert(r == a + c + kb + ab);
    assert(b.subrange(pos + 8, pos + 12) =~= r.subrange(8, 12));
    assert(r.subrange(8, 12) =~= c);
    lemma_u32_in_at(b, pos + 8, n, little);
    let kstart = pos + 12;
    let nk: int = m.keys.len() as int;
    let na: int = addrs.len() as int;
    assert(b.subrange(kstart, kstart + 4 * nk) =~= r.subrange(12, 12 + 4 * nk));
    assert(r.subrange(12, 12 + 4 * nk) =~= kb);
    lemma_keys_at(b, kstart, m.keys, little);
    let astart = kstart + 4 * m.keys.len();
    assert(b.subrange(astart, astart + 8 * na) =~= r.subrange(12 + 4 * nk, 12 + 4 * nk + 8 * na));
    assert(r.subrange(12 + 4 * nk, 12 + 4 * nk + 8 * na) =~= ab);
    lemma_addrs_at(b, astart, addrs, little);
    assert(n as nat == m.keys.len());
    assert(((n + 1) as nat) == addrs.len());
}

/// What a node writes in the machine's byte order, read back in the byte
/// order the machine reports, from just past the address it starts with,
/// gives the node's keys and its children's addresses, for a node with one
/// more child than keys.
pub proof fn lemma_native_record_roundtrip(m: NodeModel, rest: Seq<u8>)
    requires
        m.children.len() == m.keys.len() + 1,
        m.keys.len() <= u32::MAX,
    ensures
        record_at(disk_record(m, native_little()) + rest, 8, native_little()) == Some(
            (m.keys, child_addresses(m)),
        ),
{
    let r = disk_record(m, native_little());
    assert((r + rest).subrange(0, r.len() as int) =~= r);
    lemma_record_roundtrip(m, native_little(), r + rest, 0);
}

impl Clone for Node {
    fn clone(&self) -> (r: Node)
        ensures
            r@ == self@,
        decreases self,
    {
        let mut children: Vec<Node> = Vec::new();
        let mut j: usize = 0;
        while j < self.children.len()
            invariant
                0 <= j <= self.children@.len(),
                children@.len() == j,
                forall|k: int| 0 <= k < j ==> (#[trigger] children@[k])@ == self.children@[k]@,
            decreases self.children@.len() - j,
        {
            assert(decreases_to!(self => self.children@[j as int]));
            let c = self.children[j].clone();
            children.push(c);
            j = j + 1;
        }
        let r = Node { address: self.address, keys: self.keys.clone(), children };
        assert(r.keys@ =~= self.keys@);
        assert(r@.children =~= self@.children);
        r
    }
}

} // verus!
