use std::sync::Arc;

use crop::ByteMetric;
use crop::Count;
use crop::GapBuffer;
use crop::Inode;
use crop::Leaf;
use crop::Lnode;
use crop::Node;
use crop::LineMetric;
use crop::RawLineMetric;
use crop::SummaryOps;
use crop::Tree;

#[test]
fn easy() {
    let leaves: Vec<usize> = (0..20).collect();
    let tree = Tree::<4, usize>::from_leaves(leaves);
    assert_eq!(190, tree.summary().count);
}

#[test]
fn empty_leaf_stream_gives_default_leaf() {
    let tree = Tree::<4, usize>::from_leaves(Vec::new());
    assert_eq!(tree.leaf_count(), 1);
    assert_eq!(tree.summary(), Count { count: 0, leaves: 1 });
}

#[test]
fn single_text_leaf() {
    let chunk = GapBuffer::<4>::from_str("ab");
    let tree = Tree::<2, GapBuffer<4>>::from_leaves(vec![chunk]);
    assert_eq!(tree.leaf_count(), 1);
    let s = tree.summary();
    assert_eq!(s.bytes, 2);
    assert_eq!(s.line_breaks, 0);
    let (leaf, offset) = tree.leaf_at_measure::<ByteMetric>(1);
    assert_eq!(leaf.to_bytes(), b"ab".to_vec());
    assert_eq!(offset, 0);
}

#[test]
fn two_leaves_newline_split() {
    let l1 = GapBuffer::<4>::from_str("ab\n");
    let l2 = GapBuffer::<4>::from_str("cd");
    let tree = Tree::<2, GapBuffer<4>>::from_leaves(vec![l1, l2]);
    assert_eq!(tree.leaf_count(), 2);
    let s = tree.summary();
    assert_eq!(s.bytes, 5);
    assert_eq!(s.line_breaks, 1);
    let slice = tree.slice::<ByteMetric>(0, 3);
    let cut = Tree::from_slice(slice);
    let leaves = cut.leaves();
    let mut bytes: Vec<u8> = Vec::new();
    for l in &leaves {
        bytes.extend_from_slice(&l.to_bytes());
    }
    assert_eq!(bytes, b"ab\n".to_vec());
}

#[test]
fn interior_slice_rebalances() {
    let leaves = vec![
        GapBuffer::<4>::from_str("abcd"),
        GapBuffer::<4>::from_str("efgh"),
        GapBuffer::<4>::from_str("ij"),
    ];
    let tree = Tree::<2, GapBuffer<4>>::from_leaves(leaves);
    tree.assert_invariants();
    let slice = tree.slice::<ByteMetric>(1, 9);
    let cut = Tree::from_slice(slice);
    cut.assert_invariants();
    let mut bytes: Vec<u8> = Vec::new();
    for l in &cut.leaves() {
        bytes.extend_from_slice(&l.to_bytes());
    }
    assert_eq!(bytes, b"bcdefghi".to_vec());
    assert_eq!(cut.base_measure(), 8);
}

#[test]
fn whole_range_slice_shares_root() {
    let leaves = vec![
        GapBuffer::<4>::from_str("abcd"),
        GapBuffer::<4>::from_str("efgh"),
        GapBuffer::<4>::from_str("ij"),
    ];
    let tree = Tree::<2, GapBuffer<4>>::from_leaves(leaves);
    let len = tree.base_measure();
    let slice = tree.slice::<ByteMetric>(0, len);
    let cut = Tree::from_slice(slice);
    assert!(cut.shares_root_with(&tree));
}

#[test]
fn convert_measure_is_identity_on_one_metric() {
    let leaves = vec![
        GapBuffer::<4>::from_str("abcd"),
        GapBuffer::<4>::from_str("efgh"),
        GapBuffer::<4>::from_str("ij"),
    ];
    let tree = Tree::<2, GapBuffer<4>>::from_leaves(leaves);
    for k in 0..=10 {
        assert_eq!(tree.convert_measure::<ByteMetric, ByteMetric>(k), k);
    }
}

#[test]
fn leaf_aligned_slice_is_those_leaves() {
    let leaves = vec![
        GapBuffer::<4>::from_str("abcd"),
        GapBuffer::<4>::from_str("efgh"),
        GapBuffer::<4>::from_str("ij"),
    ];
    let tree = Tree::<2, GapBuffer<4>>::from_leaves(leaves);
    let slice = tree.slice::<ByteMetric>(4, 8);
    let slice_summary = slice.summary();
    let cut = Tree::from_slice(slice);
    assert_eq!(cut.summary(), slice_summary);
    let mut bytes: Vec<u8> = Vec::new();
    for l in &cut.leaves() {
        bytes.extend_from_slice(&l.to_bytes());
    }
    assert_eq!(bytes, b"efgh".to_vec());
}

#[test]
fn pull_up_root_removes_single_child_chain() {
    let value = GapBuffer::<4>::from_str("ab");
    let summary = value.summarize();
    let leaf = Arc::new(Node::<2, GapBuffer<4>>::Leaf(Lnode { value, summary }));
    let inner = Arc::new(Node::<2, GapBuffer<4>>::Internal(Inode {
        children: vec![leaf],
        summary,
    }));
    let mut tree = Tree::<2, GapBuffer<4>> {
        root: Arc::new(Node::Internal(Inode { children: vec![inner], summary })),
    };
    tree.pull_up_root();
    assert_eq!(tree.leaf_count(), 1);
    assert!(matches!(&*tree.root, Node::Leaf(_)));
    assert_eq!(summary.get_va(), 2);
}

#[test]
fn materialized_slice_repairs_edge_fragments() {
    let leaves = vec![
        GapBuffer::<16>::from_str("abcdefgh"),
        GapBuffer::<16>::from_str("ijklmnop"),
        GapBuffer::<16>::from_str("qrstuvwx"),
        GapBuffer::<16>::from_str("yz012345"),
    ];
    let tree = Tree::<2, GapBuffer<16>>::from_leaves(leaves);
    tree.assert_invariants();
    // both edge fragments ("gh" and "yz") fall below the minimum fill of 5
    let slice = tree.slice::<ByteMetric>(6, 26);
    let cut = Tree::from_slice(slice);
    cut.assert_invariants();
    let cut_leaves = cut.leaves();
    assert_eq!(cut_leaves.len(), 2);
    for l in &cut_leaves {
        assert!(l.len() >= 5);
    }
    let mut bytes: Vec<u8> = Vec::new();
    for l in &cut_leaves {
        bytes.extend_from_slice(&l.to_bytes());
    }
    assert_eq!(bytes, b"ghijklmnopqrstuvwxyz".to_vec());
}

#[test]
fn tree_units_by_raw_lines() {
    let leaves = vec![GapBuffer::<4>::from_str("a\nb\n"), GapBuffer::<4>::from_str("c\nd")];
    let tree = Tree::<2, GapBuffer<4>>::from_leaves(leaves);
    let units = tree.units::<RawLineMetric>();
    let mut texts: Vec<Vec<u8>> = Vec::new();
    for u in &units {
        let mut bytes: Vec<u8> = Vec::new();
        for l in &u.leaves() {
            bytes.extend_from_slice(&l.to_bytes());
        }
        texts.push(bytes);
    }
    assert_eq!(
        texts,
        vec![b"a\n".to_vec(), b"b\n".to_vec(), b"c\n".to_vec(), b"d".to_vec()]
    );
}

#[test]
fn tree_units_by_lines_strip_newlines() {
    let leaves = vec![GapBuffer::<4>::from_str("a\nb\n"), GapBuffer::<4>::from_str("c\nd")];
    let tree = Tree::<2, GapBuffer<4>>::from_leaves(leaves);
    let units = tree.units::<LineMetric>();
    let mut texts: Vec<Vec<u8>> = Vec::new();
    for u in &units {
        let mut bytes: Vec<u8> = Vec::new();
        for l in &u.leaves() {
            bytes.extend_from_slice(&l.to_bytes());
        }
        texts.push(bytes);
    }
    assert_eq!(
        texts,
        vec![b"a".to_vec(), b"b".to_vec(), b"c".to_vec(), b"d".to_vec()]
    );
}

#[test]
fn tree_units_by_lines_for_terminated_text() {
    let leaves = vec![GapBuffer::<4>::from_str("a\nb\n"), GapBuffer::<4>::from_str("c\n")];
    let tree = Tree::<2, GapBuffer<4>>::from_leaves(leaves);
    let units = tree.units::<LineMetric>();
    let mut texts: Vec<Vec<u8>> = Vec::new();
    for u in &units {
        let mut bytes: Vec<u8> = Vec::new();
        for l in &u.leaves() {
            bytes.extend_from_slice(&l.to_bytes());
        }
        texts.push(bytes);
    }
    assert_eq!(texts, vec![b"a".to_vec(), b"b".to_vec(), b"c".to_vec()]);
}
