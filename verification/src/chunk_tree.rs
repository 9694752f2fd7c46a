//! A persistent tree over a sequence of bytes.
//!
//! A [`ChunkTree`] stands for a byte sequence. Leaves borrow runs of bytes, internal
//! nodes hold three shared children and the total length below them. An edit never
//! changes a node: it builds a new root and shares every subtree that it did not
//! have to rebuild, so every earlier root stays valid.

use std::ops::Range;
use std::sync::Arc;
use vstd::arithmetic::power::lemma_pow0;
use vstd::arithmetic::power2::{lemma_pow2_strictly_increases, lemma_pow2_unfold, pow2};
use vstd::prelude::*;
use vstd::slice::slice_subrange;

verus! {

/// Why an edit was refused.
#[derive(Clone, Copy, Debug, PartialEq, Eq, Structural)]
pub enum ChunkTreeError {
    /// An insertion point beyond the end of the sequence.
    IndexOutOfRange { index: usize, len: usize },
    /// A range that ends beyond the end of the sequence, or ends before it starts.
    InvalidRange { start: usize, end: usize, len: usize },
}

/// A node of the tree. `N` is the chunk threshold: the longest run of bytes that a
/// leaf made by [`ChunkTree::from_slice`] holds.
#[derive(Debug)]
pub enum ChunkTree<'a, const N: usize> {
    /// A run of bytes, borrowed.
    Leaf { data: &'a [u8] },
    /// Three shared children, and `size`, the number of bytes below them.
    Internal {
        left: Arc<ChunkTree<'a, N>>,
        mid: Arc<ChunkTree<'a, N>>,
        right: Arc<ChunkTree<'a, N>>,
        size: usize,
    },
}

/// `s` with `data` put in before position `index`.
pub open spec fn with_inserted(s: Seq<u8>, index: int, data: Seq<u8>) -> Seq<u8> {
    s.subrange(0, index) + data + s.subrange(index, s.len() as int)
}

/// `s` without the positions from `start` up to, not including, `end`.
pub open spec fn without_range(s: Seq<u8>, start: int, end: int) -> Seq<u8> {
    s.subrange(0, start) + s.subrange(end, s.len() as int)
}

/// The smaller of `x` and `max`.
pub open spec fn capped(x: int, max: int) -> int {
    if x < max {
        x
    } else {
        max
    }
}

/// `x - amount`, or 0 where that would be negative.
pub open spec fn shifted_left(x: int, amount: int) -> int {
    if x < amount {
        0
    } else {
        x - amount
    }
}

impl<'a, const N: usize> View for ChunkTree<'a, N> {
    type V = Seq<u8>;

    /// The bytes that the tree stands for.
    open spec fn view(&self) -> Seq<u8> {
        self.bytes()
    }
}

impl<'a, const N: usize> ChunkTree<'a, N> {
    /// The bytes below this node, read from left to right.
    pub open spec fn bytes(&self) -> Seq<u8>
        decreases self,
    {
        match self {
            ChunkTree::Leaf { data } => data@,
            ChunkTree::Internal { left, mid, right, .. } => left.bytes() + mid.bytes()
                + right.bytes(),
        }
    }

    /// The length that the node reports: a leaf's own length, an internal node's cached size.
    pub open spec fn spec_len(&self) -> nat {
        match self {
            ChunkTree::Leaf { data } => data@.len(),
            ChunkTree::Internal { size, .. } => size as nat,
        }
    }

    /// The number of internal nodes on the longest way from this node down to a leaf.
    pub open spec fn depth(&self) -> nat
        decreases self,
    {
        match self {
            ChunkTree::Leaf { .. } => 0,
            ChunkTree::Internal { left, mid, right, .. } => {
                let below = if left.depth() >= right.depth() {
                    left.depth()
                } else {
                    right.depth()
                };
                1 + if mid.depth() >= below {
                    mid.depth()
                } else {
                    below
                }
            },
        }
    }

    /// The threshold is positive, and every internal node's cached size is the sum of the
    /// lengths of its three children.
    pub open spec fn wf(&self) -> bool
        decreases self,
    {
        &&& N > 0
        &&& match self {
            ChunkTree::Leaf { .. } => true,
            ChunkTree::Internal { left, mid, right, size } => {
                &&& left.wf()
                &&& mid.wf()
                &&& right.wf()
                &&& size == left.spec_len() + mid.spec_len() + right.spec_len()
            },
        }
    }

    /// `self` is the tree built over `s` by halving: a single leaf where `s` is no longer
    /// than the threshold, else an internal node over the two halves of `s`, split at
    /// `s.len() / 2`, with an empty leaf between them.
    pub open spec fn is_balanced_over(&self, s: Seq<u8>) -> bool
        decreases self,
    {
        match self {
            ChunkTree::Leaf { data } => s.len() <= N && data@ =~= s,
            ChunkTree::Internal { left, mid, right, size } => {
                let half = s.len() as int / 2;
                &&& s.len() > N
                &&& size == s.len()
                &&& left.is_balanced_over(s.subrange(0, half))
                &&& **mid matches ChunkTree::Leaf { data }
                &&& data@.len() == 0
                &&& right.is_balanced_over(s.subrange(half, s.len() as int))
            },
        }
    }

    /// `out` is `self` after `data` went in before position `index`. A leaf becomes an
    /// internal node over the balanced trees of its bytes before `index`, of `data`, and of
    /// its bytes from `index` on. An internal node gets one new child, the first of left,
    /// mid, right whose span reaches `index`, and keeps the other two as they are.
    pub open spec fn insert_yields(&self, index: int, data: Seq<u8>, out: &Self) -> bool
        decreases self,
    {
        &&& out matches ChunkTree::Internal { left: out_left, mid: out_mid, right: out_right, size }
        &&& size == self.spec_len() + data.len()
        &&& match self {
            ChunkTree::Leaf { data: run } => {
                &&& out_left.is_balanced_over(run@.subrange(0, index))
                &&& out_mid.is_balanced_over(data)
                &&& out_right.is_balanced_over(run@.subrange(index, run@.len() as int))
            },
            ChunkTree::Internal { left, mid, right, .. } => {
                let l = left.spec_len() as int;
                let m = mid.spec_len() as int;
                if index <= l {
                    &&& left.insert_yields(index, data, &**out_left)
                    &&& out_mid == mid
                    &&& out_right == right
                } else if index <= l + m {
                    &&& out_left == left
                    &&& mid.insert_yields(index - l, data, &**out_mid)
                    &&& out_right == right
                } else {
                    &&& out_left == left
                    &&& out_mid == mid
                    &&& right.insert_yields(index - l - m, data, &**out_right)
                }
            },
        }
    }

    /// `out` is `self` after the bytes from `start` up to `end` went out. A leaf becomes an
    /// internal node over the balanced trees of its bytes before `start` and of its bytes
    /// from `end` on, with an empty leaf between them. An internal node has each child
    /// replaced by what is left of it, the range being moved to the child's own positions
    /// and cut to its length.
    pub open spec fn remove_yields(&self, start: int, end: int, out: &Self) -> bool
        decreases self,
    {
        &&& out matches ChunkTree::Internal { left: out_left, mid: out_mid, right: out_right, size }
        &&& size == self.spec_len() - (end - start)
        &&& match self {
            ChunkTree::Leaf { data: run } => {
                &&& out_left.is_balanced_over(run@.subrange(0, start))
                &&& out_mid.is_balanced_over(Seq::empty())
                &&& out_right.is_balanced_over(run@.subrange(end, run@.len() as int))
            },
            ChunkTree::Internal { left, mid, right, .. } => {
                let l = left.spec_len() as int;
                let m = mid.spec_len() as int;
                let r = right.spec_len() as int;
                &&& left.remove_yields(capped(start, l), capped(end, l), &**out_left)
                &&& mid.remove_yields(
                    capped(shifted_left(start, l), m),
                    capped(shifted_left(end, l), m),
                    &**out_mid,
                )
                &&& right.remove_yields(
                    capped(shifted_left(start, l + m), r),
                    capped(shifted_left(end, l + m), r),
                    &**out_right,
                )
            },
        }
    }

}

impl<'a, const N: usize> ChunkTree<'a, N> {
    /// The empty tree: a single leaf without bytes.
    pub fn new() -> (tree: Arc<ChunkTree<'a, N>>)
        requires
            N > 0,
        ensures
            tree.wf(),
            *tree matches ChunkTree::Leaf { data } && data@.len() == 0,
            tree@ == Seq::<u8>::empty(),
            tree.spec_len() == 0,
    {
        let none: &[u8] = &[];
        Self::from_slice(none)
    }

    /// Builds the balanced tree over `data`. The leaves borrow `data`; nothing is copied.
    pub fn from_slice(data: &'a [u8]) -> (tree: Arc<ChunkTree<'a, N>>)
        requires
            N > 0,
        ensures
            tree.wf(),
            tree@ == data@,
            tree.spec_len() == data@.len(),
            tree.is_balanced_over(data@),
            data@.len() <= N * pow2(tree.depth()),
            tree.depth() > 0 ==> data@.len() > N * pow2((tree.depth() - 1) as nat),
        decreases data@.len(),
    {
        if data.len() <= N {
            let leaf = Arc::new(ChunkTree::Leaf { data });
            proof {
                leaf.lemma_balanced_depth(data@);
            }
            return leaf;
        }
        let mid_index: usize = data.len() / 2;
        let left = Self::from_slice(slice_subrange(data, 0, mid_index));
        let right = Self::from_slice(slice_subrange(data, mid_index, data.len()));
        let size: usize = data.len();
        let none: &[u8] = &[];
        let tree = Arc::new(
            ChunkTree::Internal {
                left,
                mid: Arc::new(ChunkTree::Leaf { data: none }),
                right,
                size,
            },
        );
        proof {
            tree.lemma_balanced_bytes(data@);
            tree.lemma_balanced_depth(data@);
        }
        tree
    }

    /// The number of bytes, read from the root alone.
    pub fn len(&self) -> (n: usize)
        ensures
            n == self.spec_len(),
            self.wf() ==> n == self@.len(),
    {
        proof {
            if self.wf() {
                self.lemma_len_is_byte_count();
            }
        }
        match self {
            ChunkTree::Leaf { data } => data.len(),
            ChunkTree::Internal { size, .. } => *size,
        }
    }

    /// Whether the tree holds no byte, read from the root alone.
    pub fn is_empty(&self) -> (b: bool)
        ensures
            b <==> self.spec_len() == 0,
            self.wf() ==> (b <==> self@.len() == 0),
    {
        proof {
            if self.wf() {
                self.lemma_len_is_byte_count();
            }
        }
        match self {
            ChunkTree::Leaf { data } => data.is_empty(),
            ChunkTree::Internal { size, .. } => *size == 0,
        }
    }

    /// A new tree with `data` put in before position `index`; `index == len` appends.
    /// Only the nodes on the way down to the leaf that holds `index` are rebuilt: the
    /// other children are shared with `self`, which stays as it was. The new length has
    /// to fit a `usize`.
    pub fn insert(&self, index: usize, data: &'a [u8]) -> (res: Result<
        Arc<ChunkTree<'a, N>>,
        ChunkTreeError,
    >)
        requires
            self.wf(),
            index <= self.spec_len() ==> self.spec_len() + data@.len() <= usize::MAX,
        ensures
            match res {
                Ok(tree) => {
                    &&& index <= self.spec_len()
                    &&& tree.wf()
                    &&& tree@ == with_inserted(self@, index as int, data@)
                    &&& tree.spec_len() == self.spec_len() + data@.len()
                    &&& self.insert_yields(index as int, data@, &*tree)
                },
                Err(e) => {
                    &&& index > self.spec_len()
                    &&& e == (ChunkTreeError::IndexOutOfRange {
                        index,
                        len: self.spec_len() as usize,
                    })
                },
            },
        decreases self,
    {
        let tree = match self {
            ChunkTree::Leaf { data: run } => {
                if index > run.len() {
                    return Err(ChunkTreeError::IndexOutOfRange { index, len: run.len() });
                }
                let left = Self::from_slice(slice_subrange(run, 0, index));
                let mid = Self::from_slice(data);
                let right = Self::from_slice(slice_subrange(run, index, run.len()));
                Arc::new(ChunkTree::Internal { left, mid, right, size: run.len() + data.len() })
            },
            ChunkTree::Internal { left, mid, right, size } => {
                let left_size = left.len();
                let mid_size = mid.len();
                if index <= left_size {
                    let new_left = match left.insert(index, data) {
                        Ok(t) => t,
                        Err(e) => {
                            return Err(e);
                        },
                    };
                    let new_size = new_left.len() + mid_size + right.len();
                    Arc::new(
                        ChunkTree::Internal {
                            left: new_left,
                            mid: share(mid),
                            right: share(right),
                            size: new_size,
                        },
                    )
                } else if index <= left_size + mid_size {
                    let new_mid = match mid.insert(index - left_size, data) {
                        Ok(t) => t,
                        Err(e) => {
                            return Err(e);
                        },
                    };
                    let new_size = left_size + new_mid.len() + right.len();
                    Arc::new(
                        ChunkTree::Internal {
                            left: share(left),
                            mid: new_mid,
                            right: share(right),
                            size: new_size,
                        },
                    )
                } else if index <= left_size + mid_size + right.len() {
                    let new_right = match right.insert(index - left_size - mid_size, data) {
                        Ok(t) => t,
                        Err(e) => {
                            return Err(e);
                        },
                    };
                    let new_size = left_size + mid_size + new_right.len();
                    Arc::new(
                        ChunkTree::Internal {
                            left: share(left),
                            mid: share(mid),
                            right: new_right,
                            size: new_size,
                        },
                    )
                } else {
                    return Err(ChunkTreeError::IndexOutOfRange { index, len: *size });
                }
            },
        };
        proof {
            self.lemma_insert_bytes(index as int, data@, &*tree);
        }
        Ok(tree)
    }

    /// `range` moved `amount` positions towards zero, each end stopping at zero.
    pub fn range_shift_left(range: &Range<usize>, amount: usize) -> (shifted: Range<usize>)
        ensures
            shifted.start == shifted_left(range.start as int, amount as int),
            shifted.end == shifted_left(range.end as int, amount as int),
    {
        (range.start.saturating_sub(amount))..(range.end.saturating_sub(amount))
    }

    /// `range` with each end brought down to `max` where it lies above.
    pub fn range_cap(range: &Range<usize>, max: usize) -> (cut: Range<usize>)
        ensures
            cut.start == capped(range.start as int, max as int),
            cut.end == capped(range.end as int, max as int),
    {
        let start = if range.start < max {
            range.start
        } else {
            max
        };
        let end = if range.end < max {
            range.end
        } else {
            max
        };
        start..end
    }

    /// A new tree without the bytes from `range.start` up to, not including, `range.end`.
    /// Every node that `self` reaches is rebuilt; the leaves of the new tree still borrow
    /// the same bytes, and `self` stays as it was.
    pub fn remove(&self, range: Range<usize>) -> (res: Result<
        Arc<ChunkTree<'a, N>>,
        ChunkTreeError,
    >)
        requires
            self.wf(),
        ensures
            match res {
                Ok(tree) => {
                    &&& range.start <= range.end <= self.spec_len()
                    &&& tree.wf()
                    &&& tree@ == without_range(self@, range.start as int, range.end as int)
                    &&& tree.spec_len() == self.spec_len() - (range.end - range.start)
                    &&& self.remove_yields(range.start as int, range.end as int, &*tree)
                },
                Err(e) => {
                    &&& !(range.start <= range.end <= self.spec_len())
                    &&& e == (ChunkTreeError::InvalidRange {
                        start: range.start,
                        end: range.end,
                        len: self.spec_len() as usize,
                    })
                },
            },
        decreases self,
    {
        if range.start > range.end || range.end > self.len() {
            return Err(
                ChunkTreeError::InvalidRange {
                    start: range.start,
                    end: range.end,
                    len: self.len(),
                },
            );
        }
        let tree = match self {
            ChunkTree::Leaf { data } => {
                let none: &[u8] = &[];
                Arc::new(
                    ChunkTree::Internal {
                        left: Self::from_slice(slice_subrange(data, 0, range.start)),
                        mid: Self::from_slice(none),
                        right: Self::from_slice(slice_subrange(data, range.end, data.len())),
                        size: data.len() - (range.end - range.start),
                    },
                )
            },
            ChunkTree::Internal { left, mid, right, .. } => {
                let left_size = left.len();
                let mid_size = mid.len();
                let in_left = Self::range_cap(&range, left_size);
                let in_mid = Self::range_cap(&Self::range_shift_left(&range, left_size), mid_size);
                let in_right = Self::range_cap(
                    &Self::range_shift_left(&range, left_size + mid_size),
                    right.len(),
                );
                let new_left = match left.remove(in_left) {
                    Ok(t) => t,
                    Err(e) => {
                        return Err(e);
                    },
                };
                let new_mid = match mid.remove(in_mid) {
                    Ok(t) => t,
                    Err(e) => {
                        return Err(e);
                    },
                };
                let new_right = match right.remove(in_right) {
                    Ok(t) => t,
                    Err(e) => {
                        return Err(e);
                    },
                };
                let new_size = new_left.len() + new_mid.len() + new_right.len();
                assert(new_size == self.spec_len() - (range.end - range.start));
                Arc::new(
                    ChunkTree::Internal {
                        left: new_left,
                        mid: new_mid,
                        right: new_right,
                        size: new_size,
                    },
                )
            },
        };
        proof {
            self.lemma_remove_bytes(range.start as int, range.end as int, &*tree);
        }
        Ok(tree)
    }

    /// All the bytes, in order, in a vector of their own.
    pub fn collect_bytes(&self) -> (bytes: Vec<u8>)
        ensures
            bytes@ == self@,
    {
        let mut v: Vec<u8> = Vec::new();
        self.collect_bytes_into(&mut v);
        v
    }

    /// Appends all the bytes, in order, to `output`.
    pub fn collect_bytes_into(&self, output: &mut Vec<u8>)
        ensures
            final(output)@ == old(output)@ + self@,
        decreases self,
    {
        match self {
            ChunkTree::Leaf { data } => {
                output.extend_from_slice(data);
                assert(output@ =~= old(output)@ + self@);
            },
            ChunkTree::Internal { left, mid, right, size: _ } => {
                left.collect_bytes_into(output);
                mid.collect_bytes_into(output);
                right.collect_bytes_into(output);
                assert(output@ =~= old(output)@ + self@);
            },
        }
    }
}

/// `Arc::clone` of std: a second handle to the node that `node` points to. Trusted: the
/// new handle is taken to point to the same value, which is what makes a subtree shared
/// between two roots the same subtree in both.
#[verifier::external_body]
fn share<'a, const N: usize>(node: &Arc<ChunkTree<'a, N>>) -> (same: Arc<ChunkTree<'a, N>>)
    ensures
        same == *node,
{
    Arc::clone(node)
}

impl<'a, const N: usize> ChunkTree<'a, N> {
    /// In a well-formed tree the reported length is the number of bytes.
    pub proof fn lemma_len_is_byte_count(&self)
        requires
            self.wf(),
        ensures
            self.spec_len() == self@.len(),
        decreases self,
    {
        match self {
            ChunkTree::Leaf { .. } => {},
            ChunkTree::Internal { left, mid, right, .. } => {
                left.lemma_len_is_byte_count();
                mid.lemma_len_is_byte_count();
                right.lemma_len_is_byte_count();
            },
        }
    }

    /// A tree built over `s` by halving is well formed and stands for exactly `s`.
    pub proof fn lemma_balanced_bytes(&self, s: Seq<u8>)
        requires
            N > 0,
            self.is_balanced_over(s),
        ensures
            self.wf(),
            self@ == s,
            self.spec_len() == s.len(),
        decreases self,
    {
        match self {
            ChunkTree::Leaf { .. } => {},
            ChunkTree::Internal { left, mid, right, .. } => {
                let half = s.len() as int / 2;
                left.lemma_balanced_bytes(s.subrange(0, half));
                right.lemma_balanced_bytes(s.subrange(half, s.len() as int));
                assert(mid.wf());
                assert(mid@ =~= Seq::<u8>::empty());
                assert(self@ =~= s);
            },
        }
    }

    /// A tree built over `s` by halving is as deep as `s` has to be halved to fit the
    /// threshold: its depth is the least `d` with `s.len() <= N * 2^d`.
    pub proof fn lemma_balanced_depth(&self, s: Seq<u8>)
        requires
            N > 0,
            self.is_balanced_over(s),
        ensures
            s.len() <= N * pow2(self.depth()),
            self.depth() > 0 ==> s.len() > N * pow2((self.depth() - 1) as nat),
        decreases self,
    {
        match self {
            ChunkTree::Leaf { .. } => {
                lemma_pow0(2);
                assert(N * pow2(0) == N) by (nonlinear_arith)
                    requires
                        pow2(0) == 1,
                ;
            },
            ChunkTree::Internal { left, mid, right, .. } => {
                let half = s.len() as int / 2;
                let a = s.subrange(0, half);
                let b = s.subrange(half, s.len() as int);
                let dl = left.depth();
                let dr = right.depth();
                left.lemma_balanced_depth(a);
                right.lemma_balanced_depth(b);
                assert(mid.depth() == 0);
                assert(a.len() <= b.len() <= a.len() + 1);
                assert(dl <= dr) by {
                    if dl > dr {
                        lemma_scaled_pow2_grows(N as nat, dr, (dl - 1) as nat);
                    }
                }
                assert(self.depth() == dr + 1);
                lemma_pow2_unfold(dr + 1);
                assert(N * pow2(dr + 1) == 2 * (N * pow2(dr))) by (nonlinear_arith)
                    requires
                        pow2(dr + 1) == 2 * pow2(dr),
                ;
                if dr > 0 {
                    lemma_pow2_unfold(dr);
                    assert(N * pow2(dr) == 2 * (N * pow2((dr - 1) as nat))) by (nonlinear_arith)
                        requires
                            pow2(dr) == 2 * pow2((dr - 1) as nat),
                    ;
                } else {
                    lemma_pow0(2);
                    assert(N * pow2(dr) == N) by (nonlinear_arith)
                        requires
                            pow2(dr) == 1,
                    ;
                }
            },
        }
    }

    /// What an insertion builds stands for the old bytes with the new ones put in at
    /// `index`, is well formed, and is longer by the length of `data`.
    pub proof fn lemma_insert_bytes(&self, index: int, data: Seq<u8>, out: &Self)
        requires
            self.wf(),
            0 <= index <= self.spec_len(),
            self.insert_yields(index, data, out),
        ensures
            out.wf(),
            out@ == with_inserted(self@, index, data),
            out.spec_len() == self.spec_len() + data.len(),
        decreases self,
    {
        let out_left = *out->left;
        let out_mid = *out->mid;
        let out_right = *out->right;
        match self {
            ChunkTree::Leaf { data: run } => {
                out_left.lemma_balanced_bytes(run@.subrange(0, index));
                out_mid.lemma_balanced_bytes(data);
                out_right.lemma_balanced_bytes(run@.subrange(index, run@.len() as int));
            },
            ChunkTree::Internal { left, mid, right, .. } => {
                let l = left.spec_len() as int;
                let m = mid.spec_len() as int;
                left.lemma_len_is_byte_count();
                mid.lemma_len_is_byte_count();
                right.lemma_len_is_byte_count();
                if index <= l {
                    left.lemma_insert_bytes(index, data, &out_left);
                } else if index <= l + m {
                    mid.lemma_insert_bytes(index - l, data, &out_mid);
                } else {
                    right.lemma_insert_bytes(index - l - m, data, &out_right);
                }
                assert(out@ =~= with_inserted(self@, index, data));
            },
        }
    }

    /// An insertion into an internal node rebuilds one child and keeps the other two as
    /// they were: the new root shares them with the old one.
    pub proof fn lemma_insert_keeps_two_children(&self, index: int, data: Seq<u8>, out: &Self)
        requires
            self is Internal,
            self.insert_yields(index, data, out),
        ensures
            out is Internal,
            index <= self->left.spec_len() ==> out->mid == self->mid && out->right == self->right,
            index > self->left.spec_len() ==> out->left == self->left,
            index > self->left.spec_len() + self->mid.spec_len() ==> out->mid == self->mid,
            self->left.spec_len() < index <= self->left.spec_len() + self->mid.spec_len()
                ==> out->right == self->right,
    {
    }

    /// What a removal builds stands for the old bytes without those of the range, is well
    /// formed, and is shorter by the length of the range.
    pub proof fn lemma_remove_bytes(&self, start: int, end: int, out: &Self)
        requires
            self.wf(),
            0 <= start <= end <= self.spec_len(),
            self.remove_yields(start, end, out),
        ensures
            out.wf(),
            out@ == without_range(self@, start, end),
            out.spec_len() == self.spec_len() - (end - start),
        decreases self,
    {
        let out_left = *out->left;
        let out_mid = *out->mid;
        let out_right = *out->right;
        match self {
            ChunkTree::Leaf { data: run } => {
                out_left.lemma_balanced_bytes(run@.subrange(0, start));
                out_mid.lemma_balanced_bytes(Seq::empty());
                out_right.lemma_balanced_bytes(run@.subrange(end, run@.len() as int));
            },
            ChunkTree::Internal { left, mid, right, .. } => {
                let l = left.spec_len() as int;
                let m = mid.spec_len() as int;
                let r = right.spec_len() as int;
                left.lemma_len_is_byte_count();
                mid.lemma_len_is_byte_count();
                right.lemma_len_is_byte_count();
                left.lemma_remove_bytes(capped(start, l), capped(end, l), &out_left);
                mid.lemma_remove_bytes(
                    capped(shifted_left(start, l), m),
                    capped(shifted_left(end, l), m),
                    &out_mid,
                );
                right.lemma_remove_bytes(
                    capped(shifted_left(start, l + m), r),
                    capped(shifted_left(end, l + m), r),
                    &out_right,
                );
                lemma_without_range_split(left@ + mid@, right@, start, end);
                lemma_without_range_split(left@, mid@, capped(start, l + m), capped(end, l + m));
            },
        }
    }

    /// Taking out again what was just put in gives back the bytes there were before.
    pub proof fn lemma_insert_then_remove(
        &self,
        index: int,
        data: Seq<u8>,
        grown: &Self,
        out: &Self,
    )
        requires
            self.wf(),
            0 <= index <= self.spec_len(),
            self.insert_yields(index, data, grown),
            grown.remove_yields(index, index + data.len(), out),
        ensures
            out.wf(),
            out@ == self@,
            out.spec_len() == self.spec_len(),
    {
        self.lemma_len_is_byte_count();
        self.lemma_insert_bytes(index, data, grown);
        grown.lemma_remove_bytes(index, index + data.len(), out);
        lemma_without_inserted(self@, index, data);
    }
}

/// Taking the inserted positions out of `with_inserted(s, index, data)` gives `s` back.
pub proof fn lemma_without_inserted(s: Seq<u8>, index: int, data: Seq<u8>)
    requires
        0 <= index <= s.len(),
    ensures
        without_range(with_inserted(s, index, data), index, index + data.len()) == s,
{
    assert(without_range(with_inserted(s, index, data), index, index + data.len()) =~= s);
}

/// Taking a range out of `a + b` takes out of `a` the part of the range that lies in `a`,
/// and out of `b` the rest of it, counted from the start of `b`.
proof fn lemma_without_range_split(a: Seq<u8>, b: Seq<u8>, start: int, end: int)
    requires
        0 <= start <= end <= a.len() + b.len(),
    ensures
        without_range(a + b, start, end) == without_range(
            a,
            capped(start, a.len() as int),
            capped(end, a.len() as int),
        ) + without_range(
            b,
            shifted_left(start, a.len() as int),
            shifted_left(end, a.len() as int),
        ),
{
    let n = a.len() as int;
    let whole = without_range(a + b, start, end);
    let parts = without_range(a, capped(start, n), capped(end, n)) + without_range(
        b,
        shifted_left(start, n),
        shifted_left(end, n),
    );
    assert(whole.len() == parts.len());
    assert forall|i: int| 0 <= i < whole.len() implies whole[i] == parts[i] by {
        if i < start {
            assert(whole[i] == (a + b)[i]);
        } else {
            assert(whole[i] == (a + b)[i + (end - start)]);
        }
    }
    assert(whole =~= parts);
}

/// `n * 2^e` does not shrink as `e` grows.
proof fn lemma_scaled_pow2_grows(n: nat, fewer: nat, more: nat)
    requires
        fewer <= more,
    ensures
        n * pow2(fewer) <= n * pow2(more),
{
    if fewer < more {
        lemma_pow2_strictly_increases(fewer, more);
    }
    assert(n * pow2(fewer) <= n * pow2(more)) by (nonlinear_arith)
        requires
            pow2(fewer) <= pow2(more),
    ;
}

} // verus!
