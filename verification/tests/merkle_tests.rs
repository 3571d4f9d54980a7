use powchain::error::LedgerError;
use powchain::merkle::{MerkleNode, MerkleTree};
use sha2::{Digest, Sha256};

fn sha(data: &[u8]) -> Vec<u8> {
    Sha256::digest(data).to_vec()
}

fn join(left: &[u8], right: &[u8]) -> Vec<u8> {
    let mut both = left.to_vec();
    both.extend_from_slice(right);
    sha(&both)
}

fn root_of(items: &[&[u8]]) -> Vec<u8> {
    let rows: Vec<Vec<u8>> = items.iter().map(|item| item.to_vec()).collect();
    MerkleTree::new(rows).unwrap().root.data
}

#[test]
fn merkle_empty_input_is_an_error() {
    assert!(matches!(MerkleTree::new(Vec::new()), Err(LedgerError::EmptyBlock)));
}

#[test]
fn merkle_single_item_is_paired_with_itself() {
    let leaf = sha(b"a");
    assert_eq!(root_of(&[b"a"]), join(&leaf, &leaf));
}

#[test]
fn merkle_two_items() {
    assert_eq!(root_of(&[b"a", b"b"]), join(&sha(b"a"), &sha(b"b")));
}

#[test]
fn merkle_three_items_duplicate_the_last() {
    let left = join(&sha(b"a"), &sha(b"b"));
    let right = join(&sha(b"c"), &sha(b"c"));
    assert_eq!(root_of(&[b"a", b"b", b"c"]), join(&left, &right));
    assert_eq!(root_of(&[b"a", b"b", b"c"]), root_of(&[b"a", b"b", b"c", b"c"]));
}

#[test]
fn merkle_six_items_pad_the_odd_inner_level() {
    let ab = join(&sha(b"a"), &sha(b"b"));
    let cd = join(&sha(b"c"), &sha(b"d"));
    let ef = join(&sha(b"e"), &sha(b"f"));
    let left = join(&ab, &cd);
    let right = join(&ef, &ef);
    assert_eq!(root_of(&[b"a", b"b", b"c", b"d", b"e", b"f"]), join(&left, &right));
}

#[test]
fn merkle_root_depends_on_order() {
    assert_ne!(root_of(&[b"a", b"b"]), root_of(&[b"b", b"a"]));
}

#[test]
fn merkle_root_changes_with_any_byte_of_any_item() {
    let items: Vec<Vec<u8>> = vec![b"first".to_vec(), b"second".to_vec(), b"third".to_vec(), b"fourth".to_vec(),
        b"fifth".to_vec(), b"sixth".to_vec()];
    let root = MerkleTree::new(items.clone()).unwrap().root.data;
    for which in 0..items.len() {
        for at in 0..items[which].len() {
            let mut changed = items.clone();
            changed[which][at] ^= 1;
            assert_ne!(MerkleTree::new(changed).unwrap().root.data, root);
        }
    }
}

#[test]
fn merkle_node_leaf_and_branch() {
    let left = MerkleNode::new(None, None, Some(b"l".to_vec())).unwrap();
    let right = MerkleNode::new(None, None, Some(b"r".to_vec())).unwrap();
    assert_eq!(left.data, sha(b"l"));
    assert!(left.left.is_none() && left.right.is_none());
    assert_eq!(left, MerkleNode::leaf(b"l"));
    let parent = MerkleNode::new(Some(left.duplicate()), Some(right.duplicate()), None).unwrap();
    assert_eq!(parent.data, join(&sha(b"l"), &sha(b"r")));
    assert_eq!(*parent.left, Some(left.duplicate()));
    assert_eq!(*parent.right, Some(right.duplicate()));
    assert_eq!(parent, MerkleNode::branch(left.duplicate(), right.duplicate()));
    assert_eq!(parent.duplicate(), parent);
    assert!(MerkleNode::new(None, None, None).is_none());
    assert!(MerkleNode::new(Some(left), None, Some(b"x".to_vec())).is_none());
    assert!(MerkleNode::new(None, Some(right), None).is_none());
}

#[test]
fn merkle_tree_has_the_items_at_its_leaves() {
    let tree = MerkleTree::new(vec![b"a".to_vec(), b"b".to_vec(), b"c".to_vec()]).unwrap();
    let left = (*tree.root.left).as_ref().unwrap();
    let right = (*tree.root.right).as_ref().unwrap();
    assert_eq!(left.data, join(&sha(b"a"), &sha(b"b")));
    assert_eq!(right.data, join(&sha(b"c"), &sha(b"c")));
    assert_eq!((*left.left).as_ref().unwrap(), &MerkleNode::leaf(b"a"));
    assert_eq!((*left.right).as_ref().unwrap(), &MerkleNode::leaf(b"b"));
    assert_eq!((*right.left).as_ref().unwrap(), &MerkleNode::leaf(b"c"));
    assert_eq!((*right.right).as_ref().unwrap(), &MerkleNode::leaf(b"c"));
}
