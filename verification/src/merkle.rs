//! The Merkle commitment of a block: one hash that stands for an ordered list
//! of encoded transactions.

use crate::digest::{sha256, sha256_digest};
use crate::error::LedgerError;
use crate::octets::byte_rows;
use vstd::prelude::*;

verus! {

/// The leaf level: the digest of each item, in order.
pub open spec fn leaf_hashes(datas: Seq<Seq<u8>>) -> Seq<Seq<u8>> {
    Seq::new(datas.len(), |i: int| sha256(datas[i]))
}

/// A level of odd length gets its last hash once more.
pub open spec fn pad_even(level: Seq<Seq<u8>>) -> Seq<Seq<u8>> {
    if level.len() % 2 == 1 {
        level.push(level.last())
    } else {
        level
    }
}

/// The level above one of even length: the digest of each adjacent pair.
pub open spec fn pair_up(level: Seq<Seq<u8>>) -> Seq<Seq<u8>> {
    Seq::new(level.len() / 2, |i: int| sha256(level[2 * i] + level[2 * i + 1]))
}

/// Pairs a level up, padding it first when needed, until one hash is left.
pub open spec fn reduce(level: Seq<Seq<u8>>) -> Seq<u8>
    decreases level.len(),
{
    if level.len() == 0 {
        Seq::empty()
    } else if level.len() == 1 {
        level[0]
    } else {
        reduce(pair_up(pad_even(level)))
    }
}

/// The root over an ordered list of items. The leaf level is padded to even
/// length before the first pairing round, so a single item is paired with
/// itself.
pub open spec fn merkle_root(datas: Seq<Seq<u8>>) -> Seq<u8> {
    reduce(pad_even(leaf_hashes(datas)))
}

/// The hashes held by a level of nodes.
pub open spec fn node_hashes(level: Seq<MerkleNode>) -> Seq<Seq<u8>> {
    Seq::new(level.len(), |i: int| level[i].data@)
}

/// A node of the tree. A leaf holds the digest of an item; an inner node
/// holds the digest of its two children's hashes, joined.
#[derive(Debug, PartialEq, Eq)]
pub struct MerkleNode {
    pub left: Box<Option<MerkleNode>>,
    pub right: Box<Option<MerkleNode>>,
    pub data: Vec<u8>,
}

/// The tree over one block's transactions.
#[derive(Debug, PartialEq, Eq)]
pub struct MerkleTree {
    pub root: MerkleNode,
}

/// A list of odd length has the root of the list with its last item once
/// more: the leaf level is padded before the first pairing round.
pub proof fn law_odd_list_is_padded(datas: Seq<Seq<u8>>)
    requires
        datas.len() % 2 == 1,
    ensures
        merkle_root(datas) == merkle_root(datas.push(datas.last())),
{
    assert(leaf_hashes(datas.push(datas.last())) =~= pad_even(leaf_hashes(datas)));
}

/// The root over a list is what pairing rounds leave of its leaf level.
proof fn lemma_root_after_first_round(datas: Seq<Seq<u8>>)
    requires
        datas.len() > 0,
    ensures
        merkle_root(datas) == reduce(pair_up(pad_even(leaf_hashes(datas)))),
{
    let padded = pad_even(leaf_hashes(datas));
    assert(pad_even(padded) == padded);
}

impl MerkleNode {
    /// A node is well formed when it is a leaf, or has two well-formed
    /// children and holds the digest of their hashes, joined.
    pub open spec fn wf(&self) -> bool
        decreases self,
    {
        match (*self.left, *self.right) {
            (None, None) => true,
            (Some(l), Some(r)) => l.wf() && r.wf() && self.data@ == sha256(l.data@ + r.data@),
            _ => false,
        }
    }

    /// Whether every leaf under this node holds one of `hashes`.
    pub open spec fn leaves_among(&self, hashes: Seq<Seq<u8>>) -> bool
        decreases self,
    {
        match (*self.left, *self.right) {
            (None, None) => hashes.contains(self.data@),
            (Some(l), Some(r)) => l.leaves_among(hashes) && r.leaves_among(hashes),
            _ => false,
        }
    }

    /// A leaf over `data` when no child is given, an inner node over the
    /// children when both are. `None` when a leaf comes without data or an
    /// inner node with one child only.
    pub fn new(left: Option<MerkleNode>, right: Option<MerkleNode>, data: Option<Vec<u8>>) -> (node: Option<
        MerkleNode,
    >)
        ensures
            match (left, right) {
                (None, None) => match data {
                    Some(d) => node matches Some(n) && n.data@ == sha256(d@) && *n.left is None && *n.right is None,
                    None => node.is_none(),
                },
                (Some(l), Some(r)) => node matches Some(n) && n.data@ == sha256(l.data@ + r.data@) && *n.left
                    == Some(l) && *n.right == Some(r),
                _ => node.is_none(),
            },
    {
        match (left, right) {
            (None, None) => match data {
                Some(d) => Some(MerkleNode::leaf(d.as_slice())),
                None => None,
            },
            (Some(l), Some(r)) => Some(MerkleNode::branch(l, r)),
            _ => None,
        }
    }

    /// The leaf over one item.
    pub fn leaf(data: &[u8]) -> (node: MerkleNode)
        ensures
            node.data@ == sha256(data@),
            *node.left is None,
            *node.right is None,
            node.wf(),
    {
        MerkleNode { left: Box::new(None), right: Box::new(None), data: sha256_digest(data) }
    }

    /// The inner node over two children.
    pub fn branch(left: MerkleNode, right: MerkleNode) -> (node: MerkleNode)
        ensures
            node.data@ == sha256(left.data@ + right.data@),
            *node.left == Some(left),
            *node.right == Some(right),
    {
        let mut merged: Vec<u8> = Vec::new();
        merged.extend_from_slice(left.data.as_slice());
        merged.extend_from_slice(right.data.as_slice());
        assert(merged@ =~= left.data@ + right.data@);
        let data = sha256_digest(merged.as_slice());
        MerkleNode { left: Box::new(Some(left)), right: Box::new(Some(right)), data }
    }

    /// A copy of the node and all that is under it.
    pub fn duplicate(&self) -> (copy: MerkleNode)
        ensures
            copy.data@ == self.data@,
            copy.wf() == self.wf(),
            forall|hashes: Seq<Seq<u8>>| #[trigger] copy.leaves_among(hashes) == self.leaves_among(hashes),
        decreases self,
    {
        let left = match &*self.left {
            Some(child) => Some(child.duplicate()),
            None => None,
        };
        let right = match &*self.right {
            Some(child) => Some(child.duplicate()),
            None => None,
        };
        let data = crate::octets::copy_bytes(self.data.as_slice());
        let copy = MerkleNode { left: Box::new(left), right: Box::new(right), data };
        assert forall|hashes: Seq<Seq<u8>>| #[trigger] copy.leaves_among(hashes) == self.leaves_among(hashes) by {
            match (*self.left, *self.right) {
                (Some(l), Some(r)) => {
                    assert(left.unwrap().leaves_among(hashes) == l.leaves_among(hashes));
                    assert(right.unwrap().leaves_among(hashes) == r.leaves_among(hashes));
                },
                _ => {},
            }
        }
        copy
    }
}

impl MerkleTree {
    /// Builds the tree over `datas`, in their order: every leaf holds the
    /// digest of an item, and the root holds the root over the list. An
    /// empty list has no tree.
    pub fn new(datas: Vec<Vec<u8>>) -> (tree: Result<MerkleTree, LedgerError>)
        ensures
            match tree {
                Ok(t) => {
                    &&& datas@.len() > 0
                    &&& t.root.wf()
                    &&& t.root.data@ == merkle_root(byte_rows(datas@))
                    &&& t.root.leaves_among(leaf_hashes(byte_rows(datas@)))
                },
                Err(e) => datas@.len() == 0 && e == LedgerError::EmptyBlock,
            },
    {
        let count: usize = datas.len();
        if count == 0 {
            return Err(LedgerError::EmptyBlock);
        }
        let ghost items = byte_rows(datas@);
        let ghost leaves = leaf_hashes(items);
        let mut level: Vec<MerkleNode> = Vec::new();
        let mut i: usize = 0;
        while i < count
            invariant
                i <= count,
                count == datas@.len(),
                items == byte_rows(datas@),
                leaves == leaf_hashes(items),
                level@.len() == i,
                forall|k: int|
                    0 <= k < i ==> {
                        &&& (#[trigger] level@[k]).data@ == leaves[k]
                        &&& level@[k].wf()
                        &&& level@[k].leaves_among(leaves)
                    },
            decreases count - i,
        {
            let node = MerkleNode::leaf(datas[i].as_slice());
            assert(leaves[i as int] == node.data@);
            level.push(node);
            i = i + 1;
        }
        assert(node_hashes(level@) =~= leaves);
        level = MerkleTree::pair_level(level, Ghost(leaves));
        proof {
            lemma_root_after_first_round(items);
        }
        while level.len() > 1
            invariant
                level@.len() >= 1,
                reduce(node_hashes(level@)) == merkle_root(items),
                forall|k: int|
                    0 <= k < level@.len() ==> (#[trigger] level@[k]).wf() && level@[k].leaves_among(leaves),
            decreases level@.len(),
        {
            level = MerkleTree::pair_level(level, Ghost(leaves));
        }
        match level.pop() {
            Some(root) => Ok(MerkleTree { root }),
            None => Err(LedgerError::EmptyBlock),
        }
    }

    /// One pairing round: each two neighbours get a parent; a node left over
    /// at the end is paired with a copy of itself.
    fn pair_level(level: Vec<MerkleNode>, Ghost(leaves): Ghost<Seq<Seq<u8>>>) -> (next: Vec<MerkleNode>)
        requires
            level@.len() > 0,
            forall|k: int| 0 <= k < level@.len() ==> (#[trigger] level@[k]).wf() && level@[k].leaves_among(leaves),
        ensures
            node_hashes(next@) == pair_up(pad_even(node_hashes(level@))),
            next@.len() == (level@.len() + 1) / 2,
            forall|k: int| 0 <= k < next@.len() ==> (#[trigger] next@[k]).wf() && next@[k].leaves_among(leaves),
    {
        let ghost below = node_hashes(level@);
        let ghost nodes = level@;
        let mut next: Vec<MerkleNode> = Vec::new();
        let mut held: Option<MerkleNode> = None;
        for node in iter: level
            invariant
                iter.seq() == nodes,
                below == node_hashes(nodes),
                forall|k: int| 0 <= k < nodes.len() ==> (#[trigger] nodes[k]).wf() && nodes[k].leaves_among(leaves),
                next@.len() == iter.index() / 2,
                held.is_some() == (iter.index() % 2 == 1),
                held matches Some(h) ==> h == nodes[iter.index() - 1],
                forall|k: int|
                    0 <= k < next@.len() ==> {
                        &&& (#[trigger] next@[k]).data@ == sha256(below[2 * k] + below[2 * k + 1])
                        &&& next@[k].wf()
                        &&& next@[k].leaves_among(leaves)
                    },
        {
            match held {
                None => {
                    held = Some(node);
                },
                Some(left) => {
                    next.push(MerkleNode::branch(left, node));
                    held = None;
                },
            }
        }
        match held {
            None => {},
            Some(last) => {
                let copy = last.duplicate();
                assert(last.wf() && last.leaves_among(leaves));
                assert(copy.leaves_among(leaves) == last.leaves_among(leaves));
                let parent = MerkleNode::branch(last, copy);
                assert(parent.wf());
                assert(parent.leaves_among(leaves));
                next.push(parent);
            },
        }
        proof {
            let padded = pad_even(below);
            assert forall|k: int| 0 <= k < padded.len() / 2 implies node_hashes(next@)[k] == pair_up(padded)[k] by {
                assert(next@[k].data@ == sha256(padded[2 * k] + padded[2 * k + 1]));
            }
            assert(node_hashes(next@) =~= pair_up(padded));
        }
        next
    }
}

} // verus!
