use editor_core::chunk_tree::{ChunkTree, ChunkTreeError};
use std::sync::Arc;

#[test]
fn test_empty_tree() {
    let tree = ChunkTree::<2>::new();
    assert!(tree.is_empty());
    assert_eq!(tree.len(), 0);
    assert_eq!(tree.collect_bytes(), Vec::<u8>::new());
}

#[test]
fn test_from_slice() {
    let data = b"Hello World!";
    let tree = ChunkTree::<2>::from_slice(data);
    assert!(!tree.is_empty());
    assert_eq!(tree.len(), data.len());
    assert_eq!(tree.collect_bytes(), b"Hello World!");
}

#[test]
fn test_insert_middle() {
    let tree = ChunkTree::<2>::from_slice(b"Hello World!");
    let tree = tree.insert(5, b" beautiful").unwrap();
    assert_eq!(tree.collect_bytes(), b"Hello beautiful World!");
}

#[test]
fn test_insert_start() {
    let tree = ChunkTree::<2>::from_slice(b"World!");
    let tree = tree.insert(0, b"Hello ").unwrap();
    assert_eq!(tree.collect_bytes(), b"Hello World!");
}

#[test]
fn test_insert_end() {
    let tree = ChunkTree::<2>::from_slice(b"Hello");
    let tree = tree.insert(5, b" World!").unwrap();
    assert_eq!(tree.collect_bytes(), b"Hello World!");
}

#[test]
fn test_remove_middle() {
    let tree = ChunkTree::<2>::from_slice(b"Hello beautiful World!");
    let tree = tree.remove(5..15).unwrap();
    assert_eq!(tree.collect_bytes(), b"Hello World!");
}

#[test]
fn test_remove_start() {
    let tree = ChunkTree::<2>::from_slice(b"Hello World!");
    let tree = tree.remove(0..6).unwrap();
    assert_eq!(tree.collect_bytes(), b"World!");
}

#[test]
fn test_remove_end() {
    let tree = ChunkTree::<2>::from_slice(b"Hello World!");
    let tree = tree.remove(5..12).unwrap();
    assert_eq!(tree.collect_bytes(), b"Hello");
}

#[test]
#[should_panic]
fn test_insert_out_of_bounds() {
    let tree = ChunkTree::<2>::from_slice(b"Hello");
    tree.insert(6, b" World!").unwrap();
}

#[test]
#[should_panic]
fn test_remove_invalid_range() {
    let tree = ChunkTree::<2>::from_slice(b"Hello");
    tree.remove(3..6).unwrap();
}

#[test]
fn insert_beyond_end_is_index_out_of_range() {
    let tree = ChunkTree::<2>::from_slice(b"Hello");
    let refused = tree.insert(6, b" World!");
    assert_eq!(refused.err(), Some(ChunkTreeError::IndexOutOfRange { index: 6, len: 5 }));
    assert_eq!(tree.len(), 5);
    assert_eq!(tree.collect_bytes(), b"Hello");
}

#[test]
fn insert_beyond_end_of_single_leaf_is_index_out_of_range() {
    let tree = ChunkTree::<8>::from_slice(b"Hello");
    assert!(matches!(*tree, ChunkTree::Leaf { .. }));
    let refused = tree.insert(7, b"!");
    assert_eq!(refused.err(), Some(ChunkTreeError::IndexOutOfRange { index: 7, len: 5 }));
    assert_eq!(tree.collect_bytes(), b"Hello");
}

#[test]
fn insert_far_beyond_end_is_refused_without_overflow() {
    let tree = ChunkTree::<2>::from_slice(b"Hello");
    let refused = tree.insert(usize::MAX, b"x");
    assert_eq!(refused.err(), Some(ChunkTreeError::IndexOutOfRange { index: usize::MAX, len: 5 }));
}

#[test]
fn remove_beyond_end_is_invalid_range() {
    let tree = ChunkTree::<2>::from_slice(b"Hello");
    let refused = tree.remove(3..6);
    assert_eq!(refused.err(), Some(ChunkTreeError::InvalidRange { start: 3, end: 6, len: 5 }));
    assert_eq!(tree.len(), 5);
    assert_eq!(tree.collect_bytes(), b"Hello");
}

#[test]
fn remove_starting_beyond_end_is_invalid_range() {
    let tree = ChunkTree::<2>::from_slice(b"Hello");
    let refused = tree.remove(6..7);
    assert_eq!(refused.err(), Some(ChunkTreeError::InvalidRange { start: 6, end: 7, len: 5 }));
}

#[test]
fn remove_of_a_range_that_ends_before_it_starts_is_invalid_range() {
    let tree = ChunkTree::<2>::from_slice(b"Hello");
    let refused = tree.remove(4..1);
    assert_eq!(refused.err(), Some(ChunkTreeError::InvalidRange { start: 4, end: 1, len: 5 }));
    let leaf = ChunkTree::<8>::from_slice(b"Hello");
    let refused = leaf.remove(4..1);
    assert_eq!(refused.err(), Some(ChunkTreeError::InvalidRange { start: 4, end: 1, len: 5 }));
}

#[test]
fn from_slice_gives_back_its_input_for_every_threshold() {
    let data: Vec<u8> = (0u8..=200).collect();
    assert_eq!(ChunkTree::<1>::from_slice(&data).collect_bytes(), data);
    assert_eq!(ChunkTree::<2>::from_slice(&data).collect_bytes(), data);
    assert_eq!(ChunkTree::<3>::from_slice(&data).collect_bytes(), data);
    assert_eq!(ChunkTree::<7>::from_slice(&data).collect_bytes(), data);
    assert_eq!(ChunkTree::<200>::from_slice(&data).collect_bytes(), data);
    assert_eq!(ChunkTree::<201>::from_slice(&data).collect_bytes(), data);
    assert_eq!(ChunkTree::<1000>::from_slice(&data).collect_bytes(), data);
}

#[test]
fn from_slice_halves_until_the_leaves_fit() {
    let tree = ChunkTree::<2>::from_slice(b"abcde");
    let ChunkTree::Internal { left, mid, right, size } = &*tree else {
        panic!("five bytes do not fit one leaf of two");
    };
    assert_eq!(*size, 5);
    assert!(matches!(&**left, ChunkTree::Leaf { data } if *data == b"ab"));
    assert!(matches!(&**mid, ChunkTree::Leaf { data } if data.is_empty()));
    let ChunkTree::Internal { left: c, mid: none, right: de, size: three } = &**right else {
        panic!("three bytes do not fit one leaf of two");
    };
    assert_eq!(*three, 3);
    assert!(matches!(&**c, ChunkTree::Leaf { data } if *data == b"c"));
    assert!(matches!(&**none, ChunkTree::Leaf { data } if data.is_empty()));
    assert!(matches!(&**de, ChunkTree::Leaf { data } if *data == b"de"));
}

#[test]
fn from_slice_keeps_short_input_in_one_leaf() {
    let tree = ChunkTree::<5>::from_slice(b"abcde");
    assert!(matches!(&*tree, ChunkTree::Leaf { data } if *data == b"abcde"));
    let empty = ChunkTree::<5>::new();
    assert!(matches!(&*empty, ChunkTree::Leaf { data } if data.is_empty()));
}

fn with_inserted(s: &[u8], index: usize, data: &[u8]) -> Vec<u8> {
    let mut expected = s[..index].to_vec();
    expected.extend_from_slice(data);
    expected.extend_from_slice(&s[index..]);
    expected
}

fn without_range(s: &[u8], start: usize, end: usize) -> Vec<u8> {
    let mut expected = s[..start].to_vec();
    expected.extend_from_slice(&s[end..]);
    expected
}

#[test]
fn insert_puts_the_bytes_in_at_every_index() {
    let s = b"Hello World!";
    let data = b"<->";
    let tree = ChunkTree::<2>::from_slice(s);
    for index in 0..=s.len() {
        let grown = tree.insert(index, data).unwrap();
        assert_eq!(grown.collect_bytes(), with_inserted(s, index, data));
        assert_eq!(grown.len(), s.len() + data.len());
        assert_eq!(tree.collect_bytes(), s);
    }
}

#[test]
fn remove_takes_out_every_range() {
    let s = b"Hello World!";
    let tree = ChunkTree::<2>::from_slice(s);
    for start in 0..=s.len() {
        for end in start..=s.len() {
            let shrunk = tree.remove(start..end).unwrap();
            assert_eq!(shrunk.collect_bytes(), without_range(s, start, end));
            assert_eq!(shrunk.len(), s.len() - (end - start));
            assert_eq!(tree.collect_bytes(), s);
        }
    }
}

#[test]
fn len_is_the_number_of_bytes_after_every_edit() {
    let tree = ChunkTree::<3>::from_slice(b"0123456789");
    assert_eq!(tree.len(), tree.collect_bytes().len());
    let a = tree.insert(4, b"abc").unwrap();
    assert_eq!(a.len(), 13);
    assert_eq!(a.len(), a.collect_bytes().len());
    let b = a.remove(2..9).unwrap();
    assert_eq!(b.len(), 6);
    assert_eq!(b.len(), b.collect_bytes().len());
    let c = b.insert(6, b"").unwrap();
    assert_eq!(c.len(), 6);
    assert_eq!(c.len(), c.collect_bytes().len());
    let d = c.remove(0..6).unwrap();
    assert_eq!(d.len(), 0);
    assert!(d.is_empty());
    assert_eq!(d.collect_bytes(), b"");
}

#[test]
fn removing_what_was_inserted_gives_the_bytes_back() {
    let s = b"Hello World!";
    let data = b" beautiful";
    let tree = ChunkTree::<2>::from_slice(s);
    for index in 0..=s.len() {
        let grown = tree.insert(index, data).unwrap();
        let back = grown.remove(index..index + data.len()).unwrap();
        assert_eq!(back.collect_bytes(), s);
        assert_eq!(back.len(), s.len());
    }
}

#[test]
fn insert_then_remove_scenario() {
    let tree = ChunkTree::<2>::from_slice(b"Hello World!");
    let grown = tree.insert(5, b" beautiful").unwrap();
    assert_eq!(grown.collect_bytes(), b"Hello beautiful World!");
    let back = grown.remove(5..15).unwrap();
    assert_eq!(back.collect_bytes(), b"Hello World!");
}

#[test]
fn two_removals_from_one_snapshot() {
    let tree = ChunkTree::<2>::from_slice(b"Hello World!");
    let world = tree.remove(0..6).unwrap();
    assert_eq!(world.collect_bytes(), b"World!");
    let hello = tree.remove(5..12).unwrap();
    assert_eq!(hello.collect_bytes(), b"Hello");
    assert_eq!(tree.collect_bytes(), b"Hello World!");
}

#[test]
fn insert_into_a_leaf_makes_an_internal_node_of_three_parts() {
    let tree = ChunkTree::<8>::from_slice(b"Hello");
    for index in [0usize, 2, 5] {
        let grown = tree.insert(index, b"xy").unwrap();
        let ChunkTree::Internal { left, mid, right, size } = &*grown else {
            panic!("an insertion into a leaf gives an internal node");
        };
        assert_eq!(*size, 7);
        assert_eq!(left.collect_bytes(), &b"Hello"[..index]);
        assert_eq!(mid.collect_bytes(), b"xy");
        assert_eq!(right.collect_bytes(), &b"Hello"[index..]);
    }
}

#[test]
fn insert_at_a_boundary_goes_into_the_earlier_child() {
    let tree = ChunkTree::<3>::from_slice(b"abcdef");
    let ChunkTree::Internal { left, mid, right, .. } = &*tree else {
        panic!("six bytes do not fit one leaf of three");
    };
    assert_eq!(left.len(), 3);
    let grown = tree.insert(3, b"XY").unwrap();
    let ChunkTree::Internal { left: new_left, mid: new_mid, right: new_right, size } = &*grown
    else {
        panic!("an insertion gives an internal node");
    };
    assert_eq!(*size, 8);
    assert_eq!(new_left.collect_bytes(), b"abcXY");
    assert!(Arc::ptr_eq(new_mid, mid));
    assert!(Arc::ptr_eq(new_right, right));
    assert!(!Arc::ptr_eq(new_left, left));
}

#[test]
fn insert_shares_the_children_it_does_not_enter() {
    let tree = ChunkTree::<3>::from_slice(b"abcdef");
    let ChunkTree::Internal { left, mid, right, .. } = &*tree else {
        panic!("six bytes do not fit one leaf of three");
    };

    let in_left = tree.insert(1, b"-").unwrap();
    let ChunkTree::Internal { left: l, mid: m, right: r, .. } = &*in_left else {
        panic!("an insertion gives an internal node");
    };
    assert!(!Arc::ptr_eq(l, left));
    assert!(Arc::ptr_eq(m, mid));
    assert!(Arc::ptr_eq(r, right));

    let in_right = tree.insert(5, b"-").unwrap();
    let ChunkTree::Internal { left: l, mid: m, right: r, .. } = &*in_right else {
        panic!("an insertion gives an internal node");
    };
    assert!(Arc::ptr_eq(l, left));
    assert!(Arc::ptr_eq(m, mid));
    assert!(!Arc::ptr_eq(r, right));
    assert_eq!(r.collect_bytes(), b"de-f");

    let with_mid = tree.insert(3, b"-").unwrap().remove(0..3).unwrap().insert(1, b"+").unwrap();
    assert_eq!(with_mid.collect_bytes(), b"-+def");
    assert_eq!(tree.collect_bytes(), b"abcdef");
}

#[test]
fn insert_into_mid_shares_left_and_right() {
    let tree = ChunkTree::<8>::from_slice(b"Hello").insert(2, b"__").unwrap();
    let ChunkTree::Internal { left, mid, right, .. } = &*tree else {
        panic!("an insertion gives an internal node");
    };
    assert_eq!(left.len(), 2);
    assert_eq!(mid.len(), 2);
    let grown = tree.insert(3, b"?").unwrap();
    let ChunkTree::Internal { left: l, mid: m, right: r, size } = &*grown else {
        panic!("an insertion gives an internal node");
    };
    assert_eq!(*size, 8);
    assert!(Arc::ptr_eq(l, left));
    assert!(!Arc::ptr_eq(m, mid));
    assert!(Arc::ptr_eq(r, right));
    assert_eq!(m.collect_bytes(), b"_?_");
    assert_eq!(grown.collect_bytes(), b"He_?_llo");
}

#[test]
fn remove_from_a_leaf_makes_an_internal_node_with_an_empty_mid() {
    let tree = ChunkTree::<8>::from_slice(b"Hello");
    let shrunk = tree.remove(1..3).unwrap();
    let ChunkTree::Internal { left, mid, right, size } = &*shrunk else {
        panic!("a removal from a leaf gives an internal node");
    };
    assert_eq!(*size, 3);
    assert!(matches!(&**left, ChunkTree::Leaf { data } if *data == b"H"));
    assert!(matches!(&**mid, ChunkTree::Leaf { data } if data.is_empty()));
    assert!(matches!(&**right, ChunkTree::Leaf { data } if *data == b"lo"));
}

#[test]
fn remove_of_an_empty_range_keeps_the_bytes() {
    let tree = ChunkTree::<2>::from_slice(b"Hello");
    for at in 0..=5 {
        let same = tree.remove(at..at).unwrap();
        assert_eq!(same.collect_bytes(), b"Hello");
        assert_eq!(same.len(), 5);
    }
}

#[test]
fn collect_bytes_into_appends() {
    let tree = ChunkTree::<2>::from_slice(b"World");
    let mut out = b"Hello ".to_vec();
    tree.collect_bytes_into(&mut out);
    assert_eq!(out, b"Hello World");
}

#[test]
fn range_helpers_shift_and_cap() {
    assert_eq!(ChunkTree::<2>::range_shift_left(&(5..9), 3), 2..6);
    assert_eq!(ChunkTree::<2>::range_shift_left(&(5..9), 7), 0..2);
    assert_eq!(ChunkTree::<2>::range_shift_left(&(5..9), 20), 0..0);
    assert_eq!(ChunkTree::<2>::range_cap(&(5..9), 7), 5..7);
    assert_eq!(ChunkTree::<2>::range_cap(&(5..9), 3), 3..3);
    assert_eq!(ChunkTree::<2>::range_cap(&(5..9), 12), 5..9);
}

#[test]
fn edits_on_an_empty_tree() {
    let tree = ChunkTree::<2>::new();
    let grown = tree.insert(0, b"abc").unwrap();
    assert_eq!(grown.collect_bytes(), b"abc");
    let same = tree.remove(0..0).unwrap();
    assert!(same.is_empty());
    assert_eq!(
        tree.insert(1, b"abc").err(),
        Some(ChunkTreeError::IndexOutOfRange { index: 1, len: 0 })
    );
    assert_eq!(
        tree.remove(0..1).err(),
        Some(ChunkTreeError::InvalidRange { start: 0, end: 1, len: 0 })
    );
}

fn depth<const N: usize>(tree: &ChunkTree<'_, N>) -> u32 {
    match tree {
        ChunkTree::Leaf { .. } => 0,
        ChunkTree::Internal { left, mid, right, .. } => {
            1 + depth(left).max(depth(mid)).max(depth(right))
        }
    }
}

#[test]
fn from_slice_is_as_deep_as_the_halving_needs() {
    let data = [7u8; 100];
    assert_eq!(depth(&ChunkTree::<2>::from_slice(&data[..0])), 0);
    assert_eq!(depth(&ChunkTree::<2>::from_slice(&data[..2])), 0);
    assert_eq!(depth(&ChunkTree::<2>::from_slice(&data[..3])), 1);
    assert_eq!(depth(&ChunkTree::<2>::from_slice(&data[..4])), 1);
    assert_eq!(depth(&ChunkTree::<2>::from_slice(&data[..5])), 2);
    assert_eq!(depth(&ChunkTree::<2>::from_slice(&data[..8])), 2);
    assert_eq!(depth(&ChunkTree::<2>::from_slice(&data[..9])), 3);
    assert_eq!(depth(&ChunkTree::<2>::from_slice(&data[..12])), 3);
    assert_eq!(depth(&ChunkTree::<2>::from_slice(&data[..16])), 3);
    assert_eq!(depth(&ChunkTree::<2>::from_slice(&data[..17])), 4);
    assert_eq!(depth(&ChunkTree::<3>::from_slice(&data[..100])), 6);
    assert_eq!(depth(&ChunkTree::<1>::from_slice(&data[..100])), 7);
    assert_eq!(depth(&ChunkTree::<100>::from_slice(&data[..100])), 0);
    assert_eq!(depth(&ChunkTree::<99>::from_slice(&data[..100])), 1);
    for len in 0..=100usize {
        let found = depth(&ChunkTree::<3>::from_slice(&data[..len]));
        assert!(len <= 3 << found);
        assert!(found == 0 || len > 3 << (found - 1));
    }
}
