use vstd::prelude::*;

use crate::branch_children::BranchChildren;
use crate::leaf_slice::LeafSlice;
use crate::measurable::Measurable;
use crate::slice_info::SliceInfo;
use crate::widths::end_wti;
use crate::widths::start_wti;
use crate::widths::lemma_width_sum_concat;
use crate::widths::width_sum;
use crate::widths::zwe_of;

verus! {

broadcast use vstd::std_specs::vec::axiom_vec_index_decreases;

/// Upper bound on the number of elements a leaf may hold.
pub const MAX_LEN: usize = 9;

/// Lower bound for non-root leaves, a little under half of `MAX_LEN` to
/// leave wiggle room at the edge of merging and splitting.
pub const MIN_LEN: usize = (MAX_LEN / 2) - (MAX_LEN / 32);

/// Upper bound on the number of children of a branch.
pub const MAX_CHILDREN: usize = 5;

/// Lower bound for non-root branches.
pub const MIN_CHILDREN: usize = MAX_CHILDREN / 2;

/// One child of a branch: the child node itself plus the cached aggregate
/// of its subtree and the cached zero-width-end flag. The caches must agree
/// with the child; that is the tree's central bookkeeping invariant.
pub struct ChildEntry<M: Measurable> {
    pub info: SliceInfo,
    pub zwe: bool,
    pub node: Box<Node<M>>,
}

/// A node of the tree: either a leaf holding elements, or a branch holding
/// child entries.
pub enum Node<M: Measurable> {
    Leaf(LeafSlice<M>),
    Branch(BranchChildren<M>),
}

/// The body of `seam_settled`'s witness at child `i`: the conditions the
/// seam fix establishes for the child holding the coordinate.
pub open spec fn seam_witness<M: Measurable>(b: BranchChildren<M>, i: int, w: int) -> bool {
    &&& 0 <= i < b.entries@.len()
    &&& b.prefix_width(i) <= w
    &&& w - b.prefix_width(i) <= width_sum(b.entries@[i].node.elems())
    &&& (b.entries@.len() > 1 ==> !b.entries@[i].node.spec_undersized())
    &&& b.entries@[i].node.seam_settled(w - b.prefix_width(i))
    &&& ((b.prefix_width(i) == w && i > 0) ==> (b.entries@.len() > 1 ==> !b.entries@[i
        - 1].node.spec_undersized()) && b.entries@[i - 1].node.seam_settled(
        width_sum(b.entries@[i - 1].node.elems()),
    ))
}

/// The caches of `e` agree with its child, and the child is not empty.
pub open spec fn entry_ok<M: Measurable>(e: ChildEntry<M>) -> bool {
    &&& e.info.len == e.node.elems().len()
    &&& e.info.width == width_sum(e.node.elems())
    &&& e.zwe == zwe_of(e.node.elems())
    &&& e.node.elems().len() > 0
}

/// The elements of children `i..j` of `b`, in order.
pub open spec fn entries_elems_range<M: Measurable>(b: BranchChildren<M>, i: int, j: int) -> Seq<
    M,
>
    decreases b, j - i,
{
    if i < 0 || i >= j || j > b.entries@.len() {
        Seq::empty()
    } else {
        b.entries@[i].node.elems() + entries_elems_range(b, i + 1, j)
    }
}

impl<M: Measurable> Node<M> {
    /// The elements of the subtree, in order: the rope's view of the node.
    pub open spec fn elems(self) -> Seq<M>
        decreases self, 0int,
    {
        match self {
            Node::Leaf(l) => l@,
            Node::Branch(b) => entries_elems_range(b, 0, b.entries@.len() as int),
        }
    }

    /// Distance to the leaves; a lone leaf has height zero.
    pub open spec fn height(self) -> nat
        decreases self,
    {
        match self {
            Node::Leaf(_) => 0,
            Node::Branch(b) => 1 + if b.entries@.len() > 0 {
                b.entries@[0].node.height()
            } else {
                0
            },
        }
    }

    /// The traversal invariant: child counts and leaf sizes within their
    /// upper bounds, caches accurate, no empty child, all children of a
    /// branch one level below it (so all leaves sit at the same depth), and
    /// totals that fit the machine.
    pub open spec fn inv(self) -> bool
        decreases self,
    {
        match self {
            Node::Leaf(l) => l@.len() <= MAX_LEN && width_sum(l@) <= usize::MAX,
            Node::Branch(b) => {
                &&& 1 <= b.entries@.len() <= MAX_CHILDREN
                &&& b.all_elems().len() <= usize::MAX
                &&& width_sum(b.all_elems()) <= usize::MAX
                &&& forall|i: int|
                    0 <= i < b.entries@.len() ==> {
                        let e = #[trigger] b.entries@[i];
                        e.node.inv() && entry_ok(e) && e.node.height() + 1 == self.height()
                    }
            },
        }
    }

    /// The minimum-size invariant: away from the root, leaves hold at least
    /// `MIN_LEN` elements and branches at least `MIN_CHILDREN` children; a
    /// root branch has at least two children.
    pub open spec fn size_ok(self, is_root: bool) -> bool
        decreases self,
    {
        match self {
            Node::Leaf(l) => is_root || MIN_LEN <= l@.len(),
            Node::Branch(b) => {
                &&& if is_root {
                    b.entries@.len() >= 2
                } else {
                    b.entries@.len() >= MIN_CHILDREN
                }
                &&& forall|i: int|
                    0 <= i < b.entries@.len() ==> (#[trigger] b.entries@[i]).node.size_ok(false)
            },
        }
    }

    /// Too small to stand away from the root.
    pub open spec fn spec_undersized(self) -> bool {
        match self {
            Node::Leaf(l) => l@.len() < MIN_LEN,
            Node::Branch(b) => b.entries@.len() < MIN_CHILDREN,
        }
    }

    /// Down the left spine, no undersized node stands beside a sibling it
    /// could merge with: what a completed left zip-fix leaves behind.
    pub open spec fn left_spine_settled(self) -> bool
        decreases self,
    {
        match self {
            Node::Leaf(_) => true,
            Node::Branch(b) => b.entries@.len() > 0 ==> ((b.entries@.len() > 1
                ==> !b.entries@[0].node.spec_undersized())
                && b.entries@[0].node.left_spine_settled()),
        }
    }

    /// The mirror image for the right spine.
    pub open spec fn right_spine_settled(self) -> bool
        decreases self,
    {
        match self {
            Node::Leaf(_) => true,
            Node::Branch(b) => b.entries@.len() > 0 ==> ((b.entries@.len() > 1
                ==> !b.entries@[b.entries@.len() - 1].node.spec_undersized())
                && b.entries@[b.entries@.len() - 1].node.right_spine_settled()),
        }
    }

    /// Along the paths holding width coordinate `w`, no undersized node
    /// stands beside a sibling it could merge with: some child whose span
    /// holds `w` is not undersized and is itself settled at the local
    /// coordinate, and when `w` sits exactly on that child's left edge, the
    /// same holds of the child before it. What a completed seam fix leaves
    /// behind.
    pub open spec fn seam_settled(self, w: int) -> bool
        decreases self,
    {
        match self {
            Node::Leaf(_) => true,
            Node::Branch(b) => exists|i: int|
                #![trigger b.entries@[i]]
                {
                    &&& 0 <= i < b.entries@.len()
                    &&& b.prefix_width(i) <= w
                    &&& w - b.prefix_width(i) <= width_sum(b.entries@[i].node.elems())
                    &&& (b.entries@.len() > 1 ==> !b.entries@[i].node.spec_undersized())
                    &&& b.entries@[i].node.seam_settled(w - b.prefix_width(i))
                    &&& ((b.prefix_width(i) == w && i > 0) ==> (b.entries@.len() > 1
                        ==> !b.entries@[i - 1].node.spec_undersized()) && b.entries@[i
                        - 1].node.seam_settled(width_sum(b.entries@[i - 1].node.elems())))
                },
        }
    }

    /// `seam_witness` at any child index establishes `seam_settled`.
    pub proof fn lemma_seam_witness(b: BranchChildren<M>, i: int, w: int)
        requires
            seam_witness(b, i, w),
        ensures
            Node::Branch(b).seam_settled(w),
    {
        assert(Node::Branch(b).seam_settled(w)) by {
            assert(0 <= i < b.entries@.len());
            assert(b.entries@[i] == b.entries@[i]);
        }
    }

    pub open spec fn as_leaf(self) -> LeafSlice<M> {
        match self {
            Node::Leaf(l) => l,
            Node::Branch(_) => vstd::pervasive::arbitrary(),
        }
    }

    pub open spec fn as_branch(self) -> BranchChildren<M> {
        match self {
            Node::Branch(b) => b,
            Node::Leaf(_) => vstd::pervasive::arbitrary(),
        }
    }
}

impl<M: Measurable> Node<M> {
    /// Creates an empty node: a leaf with nothing in it.
    pub fn new() -> (r: Self)
        ensures
            r.elems() == Seq::<M>::empty(),
            r.inv(),
            r.height() == 0,
            r is Leaf,
    {
        let r = Node::Leaf(LeafSlice::new());
        proof {
            assert(width_sum(Seq::<M>::empty()) == 0);
        }
        r
    }

    /// Total number of elements in the subtree.
    pub fn len(&self) -> (r: usize)
        requires
            self.inv(),
        ensures
            r == self.elems().len(),
    {
        match self {
            Node::Leaf(slice) => slice.len(),
            Node::Branch(children) => {
                proof {
                    assert(children.search_ready());
                }
                let info = children.combined_info();
                info.len as usize
            },
        }
    }

    /// Total width of the subtree.
    pub fn width(&self) -> (r: usize)
        requires
            self.inv(),
        ensures
            r == width_sum(self.elems()),
    {
        let info = self.slice_info();
        proof {
            crate::widths::lemma_width_sum_nonneg(self.elems());
        }
        info.width as usize
    }

    /// The subtree's aggregate, recomputed: counted from the elements at a
    /// leaf, summed from the child caches at a branch.
    pub fn slice_info(&self) -> (r: SliceInfo)
        requires
            self.inv(),
        ensures
            r.len == self.elems().len(),
            r.width == width_sum(self.elems()),
    {
        match self {
            Node::Leaf(slice) => SliceInfo::from_slice(slice.as_slice()),
            Node::Branch(children) => {
                proof {
                    assert(children.search_ready());
                }
                children.combined_info()
            },
        }
    }

    pub fn child_count(&self) -> (r: usize)
        requires
            self is Branch,
        ensures
            r == self.as_branch().entries@.len(),
    {
        match self {
            Node::Branch(children) => children.len(),
            Node::Leaf(_) => vstd::pervasive::unreached(),
        }
    }

    pub fn children(&self) -> (r: &BranchChildren<M>)
        requires
            self is Branch,
        ensures
            *r == self.as_branch(),
    {
        match self {
            Node::Branch(children) => children,
            Node::Leaf(_) => vstd::pervasive::unreached(),
        }
    }

    pub fn children_mut(&mut self) -> (r: &mut BranchChildren<M>)
        requires
            (*old(self)) is Branch,
        ensures
            *r == old(self).as_branch(),
            *final(self) == Node::<M>::Branch(*final(r)),
    {
        match self {
            Node::Branch(children) => children,
            Node::Leaf(_) => vstd::pervasive::unreached(),
        }
    }

    pub fn leaf_slice(&self) -> (r: &[M])
        requires
            self is Leaf,
        ensures
            r@ == self.elems(),
    {
        match self {
            Node::Leaf(slice) => slice.as_slice(),
            Node::Branch(_) => vstd::pervasive::unreached(),
        }
    }

    pub fn leaf_slice_mut(&mut self) -> (r: &mut LeafSlice<M>)
        requires
            (*old(self)) is Leaf,
        ensures
            *r == old(self).as_leaf(),
            *final(self) == Node::<M>::Leaf(*final(r)),
    {
        match self {
            Node::Leaf(slice) => slice,
            Node::Branch(_) => vstd::pervasive::unreached(),
        }
    }

    pub fn is_leaf(&self) -> (r: bool)
        ensures
            r == (self is Leaf),
    {
        match self {
            Node::Leaf(_) => true,
            Node::Branch(_) => false,
        }
    }

    /// Too small to stand anywhere but at the root.
    pub fn is_undersized(&self) -> (r: bool)
        ensures
            r == self.spec_undersized(),
    {
        match self {
            Node::Leaf(slice) => slice.len() < MIN_LEN,
            Node::Branch(children) => children.len() < MIN_CHILDREN,
        }
    }

    /// How many branch levels sit above the leaves. A lone leaf has depth
    /// zero.
    pub fn depth(&self) -> (r: usize)
        requires
            self.inv(),
            self.height() <= usize::MAX,
        ensures
            r == self.height(),
        decreases self,
    {
        match self {
            Node::Leaf(_) => 0,
            Node::Branch(children) => {
                proof {
                    assert(children.entries@[0].node.inv() && children.entries@[0].node.height()
                        + 1 == self.height());
                }
                let d = children.entries[0].node.depth();
                d + 1
            },
        }
    }

    /// The depth, measured up to the machine's limit: a tree deeper than a
    /// machine word can count reports the saturated maximum instead.
    pub fn depth_capped(&self) -> (r: usize)
        requires
            self.inv(),
        ensures
            r == usize::MAX || r == self.height(),
            self.height() <= usize::MAX ==> r == self.height(),
        decreases self,
    {
        match self {
            Node::Leaf(_) => 0,
            Node::Branch(children) => {
                proof {
                    assert(children.entries@[0].node.inv() && children.entries@[0].node.height()
                        + 1 == self.height());
                }
                let d = children.entries[0].node.depth_capped();
                if d == usize::MAX {
                    usize::MAX
                } else {
                    d + 1
                }
            },
        }
    }

    /// True when the subtree's last element has width zero. At a branch this
    /// is read from the cached flag of the last child.
    pub fn zero_width_end(&self) -> (r: bool)
        requires
            self.inv(),
        ensures
            r == zwe_of(self.elems()),
    {
        match self {
            Node::Leaf(leaf) => leaf.zero_width_end(),
            Node::Branch(children) => {
                let n = children.len();
                let r = children.entries[n - 1].zwe;
                proof {
                    let ghost b = self.as_branch();
                    lemma_range_split(b, 0, n - 1, n as int);
                    lemma_range_one(b, n - 1);
                    let ghost child = b.entries@[n - 1].node.elems();
                    assert(self.elems() == entries_elems_range(b, 0, n - 1) + child);
                    assert(child.len() > 0);
                    assert(self.elems().last() == child.last());
                    assert(zwe_of(self.elems()) == zwe_of(child));
                }
                r
            },
        }
    }

    /// Returns the chunk holding the start-biased boundary of `width`, with
    /// the aggregate of everything before the chunk.
    pub fn get_first_chunk_at_width(&self, width: usize) -> (r: (&[M], SliceInfo))
        requires
            self.inv(),
            width <= width_sum(self.elems()),
        ensures
            0 <= r.1.len,
            r.1.len + r.0@.len() <= self.elems().len(),
            r.0@ == self.elems().subrange(r.1.len as int, r.1.len + r.0@.len()),
            r.1.width == width_sum(self.elems().take(r.1.len as int)),
            r.1.width <= width,
            width - r.1.width <= width_sum(r.0@),
            r.0@.len() > 0 || self.elems().len() == 0,
            start_wti(self.elems(), width as int) == r.1.len + start_wti(r.0@, width - r.1.width),
            self is Leaf ==> r.1.len == 0 && r.1.width == 0 && r.0@ == self.elems(),
        decreases self,
    {
        match self {
            Node::Leaf(slice) => {
                proof {
                    assert(self.elems().subrange(0, self.elems().len() as int) =~= self.elems());
                    assert(self.elems().take(0) =~= Seq::<M>::empty());
                }
                (slice.as_slice(), SliceInfo::new())
            },
            Node::Branch(children) => {
                proof {
                    assert(children.search_ready());
                }
                let (child_i, acc) = children.search_start_width(width);
                proof {
                    lemma_child_in_all(*children, child_i as int);
                    assert(children.entries@[child_i as int].node.inv() && entry_ok(
                        children.entries@[child_i as int],
                    ));
                    children.lemma_prefix_in_bounds(child_i as int);
                    crate::widths::lemma_width_sum_nonneg(
                        children.entries@[child_i as int].node.elems(),
                    );
                }
                let w2 = width - acc.width as usize;
                let (chunk, info) = children.entries[child_i].node.get_first_chunk_at_width(w2);
                proof {
                    let ghost all = self.elems();
                    let ghost child = children.entries@[child_i as int].node.elems();
                    let ghost p = children.prefix_len(child_i as int);
                    assert(chunk@ =~= all.subrange(
                        p + info.len,
                        p + info.len + chunk@.len(),
                    ));
                    assert(all.take(p + info.len) =~= entries_elems_range(*children, 0, child_i as int)
                        + child.take(info.len as int));
                    crate::widths::lemma_width_sum_concat(
                        entries_elems_range(*children, 0, child_i as int),
                        child.take(info.len as int),
                    );
                }
                (chunk, acc.plus(info))
            },
        }
    }

    /// Returns the chunk holding the end-biased boundary of `width`, with
    /// the aggregate of everything before the chunk.
    pub fn get_last_chunk_at_width(&self, width: usize) -> (r: (&[M], SliceInfo))
        requires
            self.inv(),
            width <= width_sum(self.elems()),
        ensures
            0 <= r.1.len,
            r.1.len + r.0@.len() <= self.elems().len(),
            r.0@ == self.elems().subrange(r.1.len as int, r.1.len + r.0@.len()),
            r.1.width == width_sum(self.elems().take(r.1.len as int)),
            r.1.width <= width,
            width - r.1.width <= width_sum(r.0@),
            r.0@.len() > 0 || self.elems().len() == 0,
            end_wti(self.elems(), width as int) == r.1.len + end_wti(r.0@, width - r.1.width),
            self is Leaf ==> r.1.len == 0 && r.1.width == 0 && r.0@ == self.elems(),
        decreases self,
    {
        match self {
            Node::Leaf(slice) => {
                proof {
                    assert(self.elems().subrange(0, self.elems().len() as int) =~= self.elems());
                    assert(self.elems().take(0) =~= Seq::<M>::empty());
                }
                (slice.as_slice(), SliceInfo::new())
            },
            Node::Branch(children) => {
                proof {
                    assert(children.search_ready());
                }
                let (child_i, acc) = children.search_end_width(width);
                proof {
                    lemma_child_in_all(*children, child_i as int);
                    assert(children.entries@[child_i as int].node.inv() && entry_ok(
                        children.entries@[child_i as int],
                    ));
                    children.lemma_prefix_in_bounds(child_i as int);
                    crate::widths::lemma_width_sum_nonneg(
                        children.entries@[child_i as int].node.elems(),
                    );
                }
                let w2 = width - acc.width as usize;
                let (chunk, info) = children.entries[child_i].node.get_last_chunk_at_width(w2);
                proof {
                    let ghost all = self.elems();
                    let ghost child = children.entries@[child_i as int].node.elems();
                    let ghost p = children.prefix_len(child_i as int);
                    assert(chunk@ =~= all.subrange(
                        p + info.len,
                        p + info.len + chunk@.len(),
                    ));
                    assert(all.take(p + info.len) =~= entries_elems_range(*children, 0, child_i as int)
                        + child.take(info.len as int));
                    crate::widths::lemma_width_sum_concat(
                        entries_elems_range(*children, 0, child_i as int),
                        child.take(info.len as int),
                    );
                }
                (chunk, acc.plus(info))
            },
        }
    }

    /// Returns the chunk holding element `index`, with the aggregate of
    /// everything before the chunk.
    pub fn get_chunk_at_index(&self, index: usize) -> (r: (&[M], SliceInfo))
        requires
            self.inv(),
            index <= self.elems().len(),
        ensures
            0 <= r.1.len,
            r.1.len + r.0@.len() <= self.elems().len(),
            r.0@ == self.elems().subrange(r.1.len as int, r.1.len + r.0@.len()),
            r.1.width == width_sum(self.elems().take(r.1.len as int)),
            r.1.len <= index,
            index - r.1.len <= r.0@.len(),
            index < self.elems().len() ==> index - r.1.len < r.0@.len(),
            self is Leaf ==> r.1.len == 0 && r.1.width == 0 && r.0@ == self.elems(),
        decreases self,
    {
        match self {
            Node::Leaf(slice) => {
                proof {
                    assert(self.elems().subrange(0, self.elems().len() as int) =~= self.elems());
                    assert(self.elems().take(0) =~= Seq::<M>::empty());
                }
                (slice.as_slice(), SliceInfo::new())
            },
            Node::Branch(children) => {
                proof {
                    assert(children.search_ready());
                }
                let (child_i, acc) = children.search_index(index);
                proof {
                    lemma_child_in_all(*children, child_i as int);
                    assert(children.entries@[child_i as int].node.inv() && entry_ok(
                        children.entries@[child_i as int],
                    ));
                    children.lemma_prefix_in_bounds(child_i as int);
                }
                let i2 = index - acc.len as usize;
                let (chunk, info) = children.entries[child_i].node.get_chunk_at_index(i2);
                proof {
                    let ghost all = self.elems();
                    let ghost child = children.entries@[child_i as int].node.elems();
                    let ghost p = children.prefix_len(child_i as int);
                    assert(chunk@ =~= all.subrange(
                        p + info.len,
                        p + info.len + chunk@.len(),
                    ));
                    assert(all.take(p + info.len) =~= entries_elems_range(*children, 0, child_i as int)
                        + child.take(info.len as int));
                    crate::widths::lemma_width_sum_concat(
                        entries_elems_range(*children, 0, child_i as int),
                        child.take(info.len as int),
                    );
                    crate::widths::lemma_width_sum_take_mono(
                        all,
                        p + info.len,
                        all.len() as int,
                    );
                    assert(all.take(all.len() as int) =~= all);
                    crate::widths::lemma_width_sum_nonneg(child.take(info.len as int));
                    crate::widths::lemma_width_sum_nonneg(
                        entries_elems_range(*children, 0, child_i as int),
                    );
                }
                (chunk, acc.plus(info))
            },
        }
    }

    /// The aggregate at the start-biased boundary of `width`: how many
    /// elements lie before the boundary, and the width itself.
    pub fn start_width_to_slice_info(&self, width: usize) -> (r: SliceInfo)
        requires
            self.inv(),
            width <= width_sum(self.elems()),
        ensures
            r.len == start_wti(self.elems(), width as int),
            r.width == width,
    {
        let (chunk, info) = self.get_first_chunk_at_width(width);
        proof {
            crate::widths::lemma_width_sum_subrange_le(
                self.elems(),
                info.len as int,
                info.len + chunk@.len(),
            );
        }
        let bi = crate::widths::start_width_to_index(chunk, width - info.width as usize);
        proof {
            crate::widths::lemma_start_wti_bounds(chunk@, width - info.width);
        }
        SliceInfo { len: info.len + bi as u64, width: width as u64 }
    }

    /// The aggregate at the end-biased boundary of `width`.
    pub fn end_width_to_slice_info(&self, width: usize) -> (r: SliceInfo)
        requires
            self.inv(),
            width <= width_sum(self.elems()),
        ensures
            r.len == end_wti(self.elems(), width as int),
            r.width == width,
    {
        let (chunk, info) = self.get_last_chunk_at_width(width);
        proof {
            crate::widths::lemma_width_sum_subrange_le(
                self.elems(),
                info.len as int,
                info.len + chunk@.len(),
            );
        }
        let bi = crate::widths::end_width_to_index(chunk, width - info.width as usize);
        proof {
            crate::widths::lemma_end_wti_bounds(chunk@, width - info.width);
        }
        SliceInfo { len: info.len + bi as u64, width: width as u64 }
    }

    /// The aggregate at element `index`: the index itself, and the summed
    /// width of everything before it.
    pub fn index_to_slice_info(&self, index: usize) -> (r: SliceInfo)
        requires
            self.inv(),
            index <= self.elems().len(),
        ensures
            r.len == index,
            r.width == width_sum(self.elems().take(index as int)),
    {
        let (chunk, info) = self.get_chunk_at_index(index);
        proof {
            crate::widths::lemma_width_sum_nonneg(chunk@.take(index - info.len));
            assert(self.elems().take(index as int) =~= self.elems().take(info.len as int)
                + chunk@.take(index - info.len));
            crate::widths::lemma_width_sum_concat(
                self.elems().take(info.len as int),
                chunk@.take(index - info.len),
            );
            crate::widths::lemma_width_sum_nonneg(self.elems().take(info.len as int));
            assert(width_sum(self.elems().take(index as int)) <= width_sum(self.elems())) by {
                crate::widths::lemma_width_sum_take_mono(
                    self.elems(),
                    index as int,
                    self.elems().len() as int,
                );
                assert(self.elems().take(self.elems().len() as int) =~= self.elems());
            }
        }
        proof {
            crate::widths::lemma_width_sum_subrange_le(
                self.elems(),
                info.len as int,
                info.len + chunk@.len(),
            );
        }
        let w = crate::widths::index_to_width(chunk, index - info.len as usize);
        SliceInfo { len: index as u64, width: info.width + w as u64 }
    }

    /// Walks the tree re-deriving every cached `SliceInfo` and zero-width
    /// flag from the child it describes; under the invariant each comparison
    /// is provably an equality.
    pub fn assert_integrity(&self)
        requires
            self.inv(),
        decreases self,
    {
        match self {
            Node::Leaf(_) => {},
            Node::Branch(children) => {
                let n = children.len();
                let mut i: usize = 0;
                while i < n
                    invariant
                        0 <= i <= n,
                        n == children.entries@.len(),
                        self.inv(),
                        *self == Node::<M>::Branch(*children),
                    decreases n - i,
                {
                    proof {
                        assert(children.entries@[i as int].node.inv() && entry_ok(
                            children.entries@[i as int],
                        ));
                    }
                    let fresh = children.entries[i].node.slice_info();
                    let same_info = fresh == children.entries[i].info;
                    let same_zwe = children.entries[i].node.zero_width_end() == children.entries[
                        i
                    ].zwe;
                    proof {
                        assert(same_info);
                        assert(same_zwe);
                    }
                    children.entries[i].node.assert_integrity();
                    i = i + 1;
                }
            },
        }
    }

    /// Walks the tree checking that every leaf sits at the same depth, and
    /// returns that depth counting the leaf level itself, so a lone leaf
    /// reports 1.
    pub fn assert_balance(&self) -> (r: usize)
        requires
            self.inv(),
            self.height() < usize::MAX,
        ensures
            r == self.height() + 1,
        decreases self,
    {
        match self {
            Node::Leaf(_) => 1,
            Node::Branch(children) => {
                proof {
                    assert(children.entries@[0].node.inv() && children.entries@[0].node.height()
                        + 1 == self.height());
                }
                let first = children.entries[0].node.assert_balance();
                let n = children.len();
                let mut i: usize = 1;
                while i < n
                    invariant
                        1 <= i <= n,
                        n == children.entries@.len(),
                        self.inv(),
                        *self == Node::<M>::Branch(*children),
                        first == self.height(),
                    decreases n - i,
                {
                    proof {
                        assert(children.entries@[i as int].node.inv()
                            && children.entries@[i as int].node.height() + 1 == self.height());
                    }
                    let d = children.entries[i].node.assert_balance();
                    proof {
                        assert(d == first);
                    }
                    i = i + 1;
                }
                first + 1
            },
        }
    }

    /// Walks the tree checking the minimum-size bounds: non-root leaves
    /// hold at least `MIN_LEN` elements, non-root branches at least
    /// `MIN_CHILDREN` children, and a root branch at least two.
    pub fn assert_node_size(&self, is_root: bool)
        requires
            self.inv(),
            self.size_ok(is_root),
        decreases self,
    {
        match self {
            Node::Leaf(slice) => {
                if !is_root {
                    let big_enough = slice.len() >= MIN_LEN;
                    proof {
                        assert(big_enough);
                    }
                }
            },
            Node::Branch(children) => {
                let n = children.len();
                let enough = if is_root {
                    n >= 2
                } else {
                    n >= MIN_CHILDREN
                };
                proof {
                    assert(enough);
                }
                let mut i: usize = 0;
                while i < n
                    invariant
                        0 <= i <= n,
                        n == children.entries@.len(),
                        self.inv(),
                        self.size_ok(is_root),
                        *self == Node::<M>::Branch(*children),
                    decreases n - i,
                {
                    proof {
                        assert(children.entries@[i as int].node.inv()
                            && children.entries@[i as int].node.size_ok(false));
                    }
                    children.entries[i].node.assert_node_size(false);
                    i = i + 1;
                }
            },
        }
    }
}

/// Splitting a run of children splits their elements.
pub proof fn lemma_range_split<M: Measurable>(b: BranchChildren<M>, i: int, k: int, j: int)
    requires
        0 <= i <= k <= j <= b.entries@.len(),
    ensures
        entries_elems_range(b, i, j) == entries_elems_range(b, i, k) + entries_elems_range(b, k, j),
    decreases k - i,
{
    if i == k {
        assert(entries_elems_range(b, i, k) =~= Seq::<M>::empty());
        assert(entries_elems_range(b, i, k) + entries_elems_range(b, k, j) =~= entries_elems_range(
            b,
            k,
            j,
        ));
    } else {
        lemma_range_split(b, i + 1, k, j);
        assert(entries_elems_range(b, i, j) == b.entries@[i].node.elems() + entries_elems_range(
            b,
            i + 1,
            j,
        ));
        assert(b.entries@[i].node.elems() + (entries_elems_range(b, i + 1, k)
            + entries_elems_range(b, k, j)) =~= (b.entries@[i].node.elems() + entries_elems_range(
            b,
            i + 1,
            k,
        )) + entries_elems_range(b, k, j));
    }
}

/// A run of one child is just that child's elements.
pub proof fn lemma_range_one<M: Measurable>(b: BranchChildren<M>, i: int)
    requires
        0 <= i < b.entries@.len(),
    ensures
        entries_elems_range(b, i, i + 1) == b.entries@[i].node.elems(),
{
    assert(entries_elems_range(b, i + 1, i + 1) =~= Seq::<M>::empty());
    assert(b.entries@[i].node.elems() + Seq::<M>::empty() =~= b.entries@[i].node.elems());
}

/// Unpacks a branch's invariant into facts about its children run.
pub proof fn lemma_branch_parts<M: Measurable>(n: Node<M>)
    requires
        n.inv(),
        n is Branch,
    ensures
        n.as_branch().kids_ok(),
        n.as_branch().kids_height((n.height() - 1) as nat),
        n.as_branch().search_ready(),
        1 <= n.as_branch().entries@.len() <= MAX_CHILDREN,
        n.as_branch().all_elems() == n.elems(),
        n.as_branch().all_elems().len() <= usize::MAX,
        width_sum(n.as_branch().all_elems()) <= usize::MAX,
        n.height() >= 1,
{
    let b = n.as_branch();
    assert(forall|i: int|
        0 <= i < b.entries@.len() ==> {
            let e = #[trigger] b.entries@[i];
            e.node.inv() && entry_ok(e) && e.node.height() + 1 == n.height()
        });
}

/// Packs child-run facts back into a branch invariant.
pub proof fn lemma_branch_pack<M: Measurable>(b: BranchChildren<M>, h: nat)
    requires
        b.kids_ok(),
        b.kids_height(h),
        1 <= b.entries@.len() <= MAX_CHILDREN,
        b.all_elems().len() <= usize::MAX,
        width_sum(b.all_elems()) <= usize::MAX,
    ensures
        Node::Branch(b).inv(),
        Node::Branch(b).height() == h + 1,
        Node::Branch(b).elems() == b.all_elems(),
{
    let n = Node::Branch(b);
    assert(n.height() == h + 1);
    assert(forall|i: int|
        0 <= i < b.entries@.len() ==> {
            let e = #[trigger] b.entries@[i];
            e.node.inv() && entry_ok(e) && e.node.height() + 1 == n.height()
        });
}

/// Concatenating two children runs concatenates their elements.
pub proof fn lemma_entries_concat_elems<M: Measurable>(
    x: BranchChildren<M>,
    y: BranchChildren<M>,
    z: BranchChildren<M>,
)
    requires
        z.entries@ == x.entries@ + y.entries@,
    ensures
        z.all_elems() == x.all_elems() + y.all_elems(),
{
    let n1 = x.entries@.len() as int;
    let n2 = y.entries@.len() as int;
    lemma_range_split(z, 0, n1, n1 + n2);
    lemma_range_congruent(z, x, 0, n1, 0, n1);
    lemma_range_congruent(z, y, n1, n1 + n2, 0, n2);
}

/// Redistributing the entries of two children runs redistributes their
/// elements: the concatenation is kept.
pub proof fn lemma_entries_redistribute_elems<M: Measurable>(
    x: BranchChildren<M>,
    y: BranchChildren<M>,
    z1: BranchChildren<M>,
    z2: BranchChildren<M>,
)
    requires
        z1.entries@ + z2.entries@ == x.entries@ + y.entries@,
    ensures
        z1.all_elems() + z2.all_elems() == x.all_elems() + y.all_elems(),
{
    let n1 = x.entries@.len() as int;
    let n2 = y.entries@.len() as int;
    let t = z1.entries@.len() as int;
    let u = z2.entries@.len() as int;
    assert((z1.entries@ + z2.entries@).len() == z1.entries@.len() + z2.entries@.len());
    assert((x.entries@ + y.entries@).len() == x.entries@.len() + y.entries@.len());
    assert(t + u == n1 + n2);
    let c = x.entries@ + y.entries@;
    assert(forall|k: int| 0 <= k < t ==> (#[trigger] z1.entries@[k]) == c[k]);
    assert(forall|k: int| 0 <= k < u ==> (#[trigger] z2.entries@[k]) == c[t + k]);
    if t <= n1 {
        assert(forall|k: int|
            0 <= k < t ==> (#[trigger] z1.entries@[0 + k]).node.elems() == x.entries@[0
                + k].node.elems());
        assert(forall|k: int|
            0 <= k < n1 - t ==> (#[trigger] z2.entries@[0 + k]).node.elems() == x.entries@[t
                + k].node.elems());
        assert(forall|k: int|
            0 <= k < u - (n1 - t) ==> (#[trigger] z2.entries@[(n1 - t) + k]).node.elems()
                == y.entries@[0 + k].node.elems());
        lemma_range_congruent(z1, x, 0, t, 0, t);
        lemma_range_congruent(z2, x, 0, n1 - t, t, n1);
        lemma_range_congruent(z2, y, n1 - t, u, 0, n2);
        lemma_range_split(z2, 0, n1 - t, u);
        lemma_range_split(x, 0, t, n1);
        assert((entries_elems_range(x, 0, t) + (entries_elems_range(x, t, n1)
            + entries_elems_range(y, 0, n2))) =~= (entries_elems_range(x, 0, t)
            + entries_elems_range(x, t, n1)) + entries_elems_range(y, 0, n2));
    } else {
        assert(forall|k: int|
            0 <= k < n1 ==> (#[trigger] z1.entries@[0 + k]).node.elems() == x.entries@[0
                + k].node.elems());
        assert(forall|k: int|
            0 <= k < t - n1 ==> (#[trigger] z1.entries@[n1 + k]).node.elems() == y.entries@[0
                + k].node.elems());
        assert(forall|k: int|
            0 <= k < u ==> (#[trigger] z2.entries@[0 + k]).node.elems() == y.entries@[(t - n1)
                + k].node.elems());
        lemma_range_congruent(z1, x, 0, n1, 0, n1);
        lemma_range_congruent(z1, y, n1, t, 0, t - n1);
        lemma_range_congruent(z2, y, 0, u, t - n1, n2);
        lemma_range_split(z1, 0, n1, t);
        lemma_range_split(y, 0, t - n1, n2);
        assert(((entries_elems_range(x, 0, n1) + entries_elems_range(y, 0, t - n1))
            + entries_elems_range(y, t - n1, n2)) =~= entries_elems_range(x, 0, n1)
            + (entries_elems_range(y, 0, t - n1) + entries_elems_range(y, t - n1, n2)));
    }
}

/// Splitting one children run in two splits its elements.
pub proof fn lemma_entries_split_elems<M: Measurable>(
    x: BranchChildren<M>,
    z1: BranchChildren<M>,
    z2: BranchChildren<M>,
)
    requires
        z1.entries@ + z2.entries@ == x.entries@,
    ensures
        z1.all_elems() + z2.all_elems() == x.all_elems(),
{
    let t = z1.entries@.len() as int;
    let u = z2.entries@.len() as int;
    let n = x.entries@.len() as int;
    assert((z1.entries@ + z2.entries@).len() == z1.entries@.len() + z2.entries@.len());
    assert(forall|k: int| 0 <= k < t ==> (#[trigger] z1.entries@[0 + k]).node.elems()
        == x.entries@[0 + k].node.elems());
    assert(forall|k: int| 0 <= k < u ==> (#[trigger] z2.entries@[0 + k]).node.elems()
        == x.entries@[t + k].node.elems());
    lemma_range_congruent(z1, x, 0, t, 0, t);
    lemma_range_congruent(z2, x, 0, u, t, n);
    lemma_range_split(x, 0, t, n);
}

/// Splitting one children run in two keeps every entry's caches,
/// invariant and height.
pub proof fn lemma_kids_split<M: Measurable>(
    x: BranchChildren<M>,
    z1: BranchChildren<M>,
    z2: BranchChildren<M>,
    h: nat,
)
    requires
        z1.entries@ + z2.entries@ == x.entries@,
        x.kids_ok(),
        x.kids_height(h),
    ensures
        z1.kids_ok(),
        z2.kids_ok(),
        z1.kids_height(h),
        z2.kids_height(h),
{
    let t = z1.entries@.len() as int;
    assert((z1.entries@ + z2.entries@).len() == z1.entries@.len() + z2.entries@.len());
    assert forall|i: int| 0 <= i < z1.entries@.len() implies {
        let e = #[trigger] z1.entries@[i];
        entry_ok(e) && e.node.inv() && e.node.height() == h
    } by {
        assert(z1.entries@[i] == x.entries@[i]);
        assert(entry_ok(x.entries@[i]) && x.entries@[i].node.inv() && x.entries@[i].node.height()
            == h);
    }
    assert forall|i: int| 0 <= i < z2.entries@.len() implies {
        let e = #[trigger] z2.entries@[i];
        entry_ok(e) && e.node.inv() && e.node.height() == h
    } by {
        assert(z2.entries@[i] == x.entries@[t + i]);
        assert(entry_ok(x.entries@[t + i]) && x.entries@[t + i].node.inv() && x.entries@[t
            + i].node.height() == h);
    }
}

/// Entries moved between two sibling runs keep their caches, their
/// invariants and their height, wherever they land.
pub proof fn lemma_kids_carry<M: Measurable>(
    x: BranchChildren<M>,
    y: BranchChildren<M>,
    z1: BranchChildren<M>,
    z2: BranchChildren<M>,
    h: nat,
)
    requires
        z1.entries@ + z2.entries@ == x.entries@ + y.entries@,
        x.kids_ok(),
        y.kids_ok(),
        x.kids_height(h),
        y.kids_height(h),
    ensures
        z1.kids_ok(),
        z2.kids_ok(),
        z1.kids_height(h),
        z2.kids_height(h),
{
    let n1 = x.entries@.len() as int;
    let t = z1.entries@.len() as int;
    assert((z1.entries@ + z2.entries@).len() == z1.entries@.len() + z2.entries@.len());
    assert((x.entries@ + y.entries@).len() == x.entries@.len() + y.entries@.len());
    assert forall|i: int| 0 <= i < z1.entries@.len() implies {
        let e = #[trigger] z1.entries@[i];
        entry_ok(e) && e.node.inv() && e.node.height() == h
    } by {
        assert(z1.entries@[i] == (z1.entries@ + z2.entries@)[i]);
        if i < n1 {
            assert((x.entries@ + y.entries@)[i] == x.entries@[i]);
            assert(entry_ok(x.entries@[i]) && x.entries@[i].node.inv() && x.entries@[i].node.height() == h);
        } else {
            assert((x.entries@ + y.entries@)[i] == y.entries@[i - n1]);
            assert(entry_ok(y.entries@[i - n1]) && y.entries@[i - n1].node.inv()
                && y.entries@[i - n1].node.height() == h);
        }
    }
    assert forall|i: int| 0 <= i < z2.entries@.len() implies {
        let e = #[trigger] z2.entries@[i];
        entry_ok(e) && e.node.inv() && e.node.height() == h
    } by {
        assert(z2.entries@[i] == (z1.entries@ + z2.entries@)[t + i]);
        if t + i < n1 {
            assert((x.entries@ + y.entries@)[t + i] == x.entries@[t + i]);
            assert(entry_ok(x.entries@[t + i]) && x.entries@[t + i].node.inv()
                && x.entries@[t + i].node.height() == h);
        } else {
            assert((x.entries@ + y.entries@)[t + i] == y.entries@[t + i - n1]);
            assert(entry_ok(y.entries@[t + i - n1]) && y.entries@[t + i - n1].node.inv()
                && y.entries@[t + i - n1].node.height() == h);
        }
    }
}

/// After trimming one child in place (children before and after it kept,
/// the child replaced by its trimmed remainder or dropped when emptied),
/// the run's elements are the old ones with `[cs, ce)` cut out.
#[verifier::spinoff_prover]
#[verifier::rlimit(60)]
pub proof fn lemma_child_stitch<M: Measurable>(
    oldb: BranchChildren<M>,
    fin: BranchChildren<M>,
    l_i: int,
    mid: int,
    s_loc: int,
    e_loc: int,
    h: nat,
)
    requires
        0 <= l_i < oldb.entries@.len(),
        0 <= mid <= 1,
        oldb.kids_ok(),
        oldb.kids_height(h),
        fin.entries@.len() == oldb.entries@.len() - 1 + mid,
        0 <= s_loc <= e_loc <= oldb.entries@[l_i].node.elems().len(),
        forall|k: int|
            0 <= k < l_i ==> (#[trigger] fin.entries@[0 + k]) == oldb.entries@[0 + k],
        forall|k: int|
            0 <= k < oldb.entries@.len() - (l_i + 1) ==> (#[trigger] fin.entries@[(l_i + mid) + k])
                == oldb.entries@[(l_i + 1) + k],
        mid == 1 ==> fin.entries@[l_i].node.elems() == oldb.entries@[l_i].node.elems().take(s_loc)
            + oldb.entries@[l_i].node.elems().skip(e_loc) && entry_ok(fin.entries@[l_i])
            && fin.entries@[l_i].node.inv() && fin.entries@[l_i].node.height() == h,
        mid == 0 ==> s_loc == 0 && e_loc == oldb.entries@[l_i].node.elems().len(),
    ensures
        fin.all_elems() == oldb.all_elems().take(oldb.prefix_len(l_i) + s_loc)
            + oldb.all_elems().skip(oldb.prefix_len(l_i) + e_loc),
        fin.kids_ok(),
        fin.kids_height(h),
{
    let n0 = oldb.entries@.len() as int;
    let c_l = oldb.entries@[l_i].node.elems();
    let child_new = c_l.take(s_loc) + c_l.skip(e_loc);
    assert(forall|k: int|
        0 <= k < l_i ==> (#[trigger] fin.entries@[0 + k]).node.elems() == oldb.entries@[0
            + k].node.elems());
    assert(forall|k: int|
        0 <= k < n0 - (l_i + 1) ==> (#[trigger] fin.entries@[(l_i + mid) + k]).node.elems()
            == oldb.entries@[(l_i + 1) + k].node.elems());
    lemma_splice_elems(oldb, fin, l_i, l_i + 1, mid);
    if mid == 1 {
        lemma_range_one(fin, l_i);
    } else {
        assert(child_new =~= Seq::<M>::empty());
    }
    assert(entries_elems_range(fin, l_i, l_i + mid) == child_new);
    lemma_range_split(oldb, 0, l_i, n0);
    lemma_range_split(oldb, l_i, l_i + 1, n0);
    lemma_range_one(oldb, l_i);
    let pre = entries_elems_range(oldb, 0, l_i);
    let post = entries_elems_range(oldb, l_i + 1, n0);
    assert(oldb.all_elems() == pre + c_l + post) by {
        assert(oldb.all_elems() =~= pre + (c_l + post));
        assert(pre + (c_l + post) =~= pre + c_l + post);
    }
    crate::widths::lemma_take_skip_mid(pre, c_l, post, s_loc, e_loc);
    assert(fin.all_elems() == pre + child_new + post);
    assert(pre + child_new + post =~= pre + (c_l.take(s_loc) + c_l.skip(e_loc)) + post);
    assert forall|k: int| 0 <= k < fin.entries@.len() implies {
        let en = #[trigger] fin.entries@[k];
        entry_ok(en) && en.node.inv() && en.node.height() == h
    } by {
        if k < l_i {
            assert(fin.entries@[0 + k] == oldb.entries@[k]);
            assert(oldb.entries@[k].node.height() == h && entry_ok(oldb.entries@[k])
                && oldb.entries@[k].node.inv());
        } else if k >= l_i + mid {
            assert(fin.entries@[(l_i + mid) + (k - l_i - mid)] == oldb.entries@[l_i + 1 + (k - l_i
                - mid)]);
            assert(oldb.entries@[l_i + 1 + (k - l_i - mid)].node.height() == h && entry_ok(
                oldb.entries@[l_i + 1 + (k - l_i - mid)],
            ) && oldb.entries@[l_i + 1 + (k - l_i - mid)].node.inv());
        }
    }
}

/// After a removal spanning several children: the children strictly inside
/// the span are gone, the boundary children trimmed or gone, everything
/// else kept. The run's elements are the old ones with `[cs, ce)` cut out.
#[verifier::spinoff_prover]
#[verifier::rlimit(60)]
pub proof fn lemma_span_stitch<M: Measurable>(
    oldb: BranchChildren<M>,
    fin: BranchChildren<M>,
    l_i: int,
    r_i: int,
    l_mid: int,
    r_mid: int,
    s_loc: int,
    e_loc: int,
    h: nat,
)
    requires
        0 <= l_i < r_i < oldb.entries@.len(),
        0 <= l_mid <= 1,
        0 <= r_mid <= 1,
        oldb.kids_ok(),
        oldb.kids_height(h),
        fin.entries@.len() == l_i + l_mid + r_mid + (oldb.entries@.len() - (r_i + 1)),
        0 <= s_loc <= oldb.entries@[l_i].node.elems().len(),
        0 <= e_loc <= oldb.entries@[r_i].node.elems().len(),
        forall|k: int|
            0 <= k < l_i ==> (#[trigger] fin.entries@[0 + k]) == oldb.entries@[0 + k],
        forall|k: int|
            0 <= k < oldb.entries@.len() - (r_i + 1) ==> (#[trigger] fin.entries@[(l_i + l_mid
                + r_mid) + k]) == oldb.entries@[(r_i + 1) + k],
        l_mid == 1 ==> fin.entries@[l_i].node.elems() == oldb.entries@[l_i].node.elems().take(
            s_loc,
        ) && entry_ok(fin.entries@[l_i]) && fin.entries@[l_i].node.inv()
            && fin.entries@[l_i].node.height() == h,
        l_mid == 0 ==> s_loc == 0,
        r_mid == 1 ==> fin.entries@[l_i + l_mid].node.elems()
            == oldb.entries@[r_i].node.elems().skip(e_loc) && entry_ok(fin.entries@[l_i + l_mid])
            && fin.entries@[l_i + l_mid].node.inv() && fin.entries@[l_i + l_mid].node.height()
            == h,
        r_mid == 0 ==> e_loc == oldb.entries@[r_i].node.elems().len(),
    ensures
        fin.all_elems() == oldb.all_elems().take(oldb.prefix_len(l_i) + s_loc)
            + oldb.all_elems().skip(oldb.prefix_len(r_i) + e_loc),
        fin.kids_ok(),
        fin.kids_height(h),
{
    let n0 = oldb.entries@.len() as int;
    let c_l = oldb.entries@[l_i].node.elems();
    let c_r = oldb.entries@[r_i].node.elems();
    let left_new = c_l.take(s_loc);
    let right_new = c_r.skip(e_loc);
    let n_fin = fin.entries@.len() as int;
    assert(forall|k: int|
        0 <= k < l_i ==> (#[trigger] fin.entries@[0 + k]).node.elems() == oldb.entries@[0
            + k].node.elems());
    assert(forall|k: int|
        0 <= k < n0 - (r_i + 1) ==> (#[trigger] fin.entries@[(l_i + l_mid + r_mid)
            + k]).node.elems() == oldb.entries@[(r_i + 1) + k].node.elems());
    lemma_range_split(fin, 0, l_i, n_fin);
    lemma_range_split(fin, l_i, l_i + l_mid, n_fin);
    lemma_range_split(fin, l_i + l_mid, l_i + l_mid + r_mid, n_fin);
    lemma_range_congruent(fin, oldb, 0, l_i, 0, l_i);
    lemma_range_congruent(fin, oldb, l_i + l_mid + r_mid, n_fin, r_i + 1, n0);
    if l_mid == 1 {
        lemma_range_one(fin, l_i);
    } else {
        assert(left_new =~= Seq::<M>::empty());
    }
    if r_mid == 1 {
        lemma_range_one(fin, l_i + l_mid);
    } else {
        assert(right_new =~= Seq::<M>::empty());
    }
    assert(entries_elems_range(fin, l_i, l_i + l_mid) == left_new);
    assert(entries_elems_range(fin, l_i + l_mid, l_i + l_mid + r_mid) == right_new);
    assert(fin.all_elems() == entries_elems_range(oldb, 0, l_i) + left_new + right_new
        + entries_elems_range(oldb, r_i + 1, n0)) by {
        assert(fin.all_elems() =~= entries_elems_range(oldb, 0, l_i) + left_new + right_new
            + entries_elems_range(oldb, r_i + 1, n0));
    }
    lemma_range_split(oldb, 0, l_i, n0);
    lemma_range_split(oldb, l_i, l_i + 1, n0);
    lemma_range_split(oldb, l_i + 1, r_i, n0);
    lemma_range_split(oldb, r_i, r_i + 1, n0);
    lemma_range_one(oldb, l_i);
    lemma_range_one(oldb, r_i);
    let pre = entries_elems_range(oldb, 0, l_i);
    let mid_e = entries_elems_range(oldb, l_i + 1, r_i);
    let post = entries_elems_range(oldb, r_i + 1, n0);
    assert(oldb.all_elems() == pre + c_l + mid_e + c_r + post) by {
        assert(oldb.all_elems() =~= pre + (c_l + (mid_e + (c_r + post))));
        assert(pre + (c_l + (mid_e + (c_r + post))) =~= pre + c_l + mid_e + c_r + post);
    }
    crate::widths::lemma_take_skip_two(pre, c_l, mid_e, c_r, post, s_loc, e_loc);
    assert(fin.all_elems() == pre + left_new + right_new + post);
    assert(pre + left_new + right_new + post =~= pre + c_l.take(s_loc) + c_r.skip(e_loc) + post);
    assert(oldb.prefix_len(r_i) == pre.len() + c_l.len() + mid_e.len()) by {
        lemma_range_split(oldb, 0, l_i + 1, r_i);
        lemma_range_split(oldb, 0, l_i, l_i + 1);
        lemma_range_one(oldb, l_i);
    }
    assert forall|k: int| 0 <= k < fin.entries@.len() implies {
        let en = #[trigger] fin.entries@[k];
        entry_ok(en) && en.node.inv() && en.node.height() == h
    } by {
        if k < l_i {
            assert(fin.entries@[0 + k] == oldb.entries@[k]);
            assert(oldb.entries@[k].node.height() == h && entry_ok(oldb.entries@[k])
                && oldb.entries@[k].node.inv());
        } else if k >= l_i + l_mid + r_mid {
            assert(fin.entries@[(l_i + l_mid + r_mid) + (k - l_i - l_mid - r_mid)]
                == oldb.entries@[r_i + 1 + (k - l_i - l_mid - r_mid)]);
            assert(oldb.entries@[r_i + 1 + (k - l_i - l_mid - r_mid)].node.height() == h
                && entry_ok(oldb.entries@[r_i + 1 + (k - l_i - l_mid - r_mid)]) && oldb.entries@[r_i
                + 1 + (k - l_i - l_mid - r_mid)].node.inv());
        }
    }
}

impl<M: Measurable> Node<M> {
    /// Removes the elements between the start-biased boundary of
    /// `start_width` and the end-biased boundary of `end_width`. An empty
    /// coordinate range strictly inside an element removes nothing; at a
    /// run of zero-width elements it removes the run. Returns the node's
    /// updated aggregate and whether a seam fix should follow.
    #[verifier::spinoff_prover]
    #[verifier::rlimit(100)]
    pub fn remove_range(&mut self, start_width: usize, end_width: usize, node_info: SliceInfo) -> (r:
        (SliceInfo, bool))
        requires
            old(self).inv(),
            start_width <= end_width,
            end_width <= width_sum(old(self).elems()),
            node_info.len == old(self).elems().len(),
            node_info.width == width_sum(old(self).elems()),
        ensures
            ({
                let olde = old(self).elems();
                let cs = start_wti(olde, start_width as int);
                let ce = end_wti(olde, end_width as int);
                &&& final(self).elems() == olde.take(cs) + olde.skip(ce)
                &&& r.0.len == final(self).elems().len()
                &&& r.0.width == width_sum(final(self).elems())
            }),
            final(self).elems().len() > 0 ==> final(self).inv() && final(self).height() == old(
                self,
            ).height(),
            ({
                let olde = old(self).elems();
                let cs = start_wti(olde, start_width as int);
                (old(self).size_ok(false) && start_width == end_width && cs < olde.len()
                    && olde[cs].spec_width() > 0) ==> r.1 == false
                    && final(self).spec_undersized() == old(self).spec_undersized()
            }),
        decreases old(self).height(), 1int,
    {
        let ghost olde = old(self).elems();
        let ghost cs = start_wti(olde, start_width as int);
        let ghost ce = end_wti(olde, end_width as int);
        let ghost noop = old(self).size_ok(false) && start_width == end_width && cs < olde.len()
            && olde[cs].spec_width() > 0;
        proof {
            if noop {
                crate::widths::lemma_noop_cut(olde, start_width as int);
            }
        }
        proof {
            crate::widths::lemma_start_le_end(olde, start_width as int, end_width as int);
            crate::widths::lemma_start_wti_bounds(olde, start_width as int);
            crate::widths::lemma_end_wti_bounds(olde, end_width as int);
            crate::widths::lemma_width_sum_nonneg(olde);
        }
        match self {
            Node::Leaf(leaf) => {
                let si = crate::widths::start_width_to_index(leaf.as_slice(), start_width);
                if start_width == end_width && si < leaf.len() {
                    let positive = leaf.get(si).width() > 0;
                    if positive {
                        proof {
                            crate::widths::lemma_start_wti_stop(olde, start_width as int);
                            crate::widths::lemma_start_wti_char(olde, start_width as int);
                            assert(olde.take(cs + 1).drop_last() =~= olde.take(cs));
                            assert(olde.take(cs + 1).last() == olde[cs]);
                            assert(width_sum(olde.take(cs + 1)) == width_sum(olde.take(cs))
                                + olde[cs].spec_width());
                            crate::widths::lemma_end_wti_unique(olde, end_width as int, cs);
                            assert(olde.take(cs) + olde.skip(cs) =~= olde);
                        }
                        return (node_info, false);
                    }
                }
                let ei = crate::widths::end_width_to_index(leaf.as_slice(), end_width);
                proof {
                    crate::widths::lemma_width_sum_take_mono(olde, cs, olde.len() as int);
                    assert(olde.take(olde.len() as int) =~= olde);
                }
                leaf.remove_range(si, ei);
                proof {
                    lemma_width_sum_concat(olde.take(cs), olde.skip(ce));
                    crate::widths::lemma_cut_aggregates(olde, cs, ce);
                }
                let info = SliceInfo::from_slice(leaf.as_slice());
                (info, false)
            },
            Node::Branch(children) => {
                let ghost oldb = old(self).as_branch();
                proof {
                    lemma_branch_parts(*old(self));
                }
                let ghost h = (old(self).height() - 1) as nat;
                let ghost n0 = oldb.entries@.len() as int;
                let (l_i, l_acc) = children.search_start_width(start_width);
                let (r_i, r_acc) = children.search_end_width(end_width);
                let ghost c_l = oldb.entries@[l_i as int].node.elems();
                let ghost c_r = oldb.entries@[r_i as int].node.elems();
                let ghost s_loc = start_wti(c_l, start_width - l_acc.width);
                proof {
                    crate::widths::lemma_start_wti_bounds(c_l, start_width - l_acc.width);
                    crate::widths::lemma_end_wti_bounds(c_r, end_width - r_acc.width);
                    oldb.lemma_prefix_in_bounds(l_i as int);
                    oldb.lemma_prefix_in_bounds(r_i as int);
                    oldb.lemma_prefix_step(l_i as int);
                    oldb.lemma_prefix_step(r_i as int);
                }
                if r_i < l_i {
                    proof {
                        assert(ce <= oldb.prefix_len(r_i + 1));
                        assert(oldb.prefix_len(r_i + 1) <= oldb.prefix_len(l_i as int)) by {
                            lemma_range_split(oldb, 0, r_i + 1, l_i as int);
                        }
                        assert(cs >= oldb.prefix_len(l_i as int));
                        assert(cs == ce);
                        assert(olde.take(cs) + olde.skip(cs) =~= olde);
                    }
                    return (node_info, false);
                }
                let mut needs_fix = false;
                if l_i == r_i {
                    let e = children.remove(l_i);
                    let mut child = e.node;
                    let sw2 = start_width - l_acc.width as usize;
                    let ew2 = end_width - l_acc.width as usize;
                    proof {
                        lemma_child_in_all(oldb, l_i as int);
                        crate::widths::lemma_width_sum_subrange_le(
                            olde,
                            oldb.prefix_len(l_i as int),
                            oldb.prefix_len(l_i as int) + c_l.len(),
                        );
                    }
                    let (cinfo, cfix) = child.remove_range(sw2, ew2, e.info);
                    needs_fix = cfix;
                    let ghost e_loc2 = end_wti(c_l, ew2 as int);
                    let mut kept = false;
                    if cinfo.len > 0 {
                        children.insert(l_i, cinfo, child);
                        kept = true;
                    }
                    proof {
                        let fin = *children;
                        let mid: int = if kept {
                            1
                        } else {
                            0
                        };
                        crate::widths::lemma_start_le_end(c_l, sw2 as int, ew2 as int);
                        crate::widths::lemma_end_wti_bounds(c_l, ew2 as int);
                        crate::widths::lemma_start_wti_char(c_l, sw2 as int);
                        if mid == 0 {
                            assert(c_l.take(s_loc).len() + c_l.skip(e_loc2).len() == 0);
                            assert(s_loc == 0 && e_loc2 == c_l.len());
                        }
                        assert(forall|k: int|
                            0 <= k < l_i ==> (#[trigger] fin.entries@[0 + k]) == oldb.entries@[0
                                + k]);
                        assert(forall|k: int|
                            0 <= k < n0 - (l_i + 1) ==> (#[trigger] fin.entries@[(l_i as int + mid)
                                + k]) == oldb.entries@[(l_i + 1) + k]);
                        lemma_child_stitch(oldb, fin, l_i as int, mid, s_loc, e_loc2, h);
                        assert(cs == oldb.prefix_len(l_i as int) + s_loc);
                        assert(ce == oldb.prefix_len(l_i as int) + e_loc2);
                        assert(fin.all_elems() == olde.take(cs) + olde.skip(ce));
                        lemma_width_sum_concat(olde.take(cs), olde.skip(ce));
                        crate::widths::lemma_cut_aggregates(olde, cs, ce);
                    }
                    let ghost premerge = *children;
                    children.merge_child(l_i, Ghost(h));
                    proof {
                        if noop {
                            oldb.lemma_prefix_in_bounds(l_i + 1);
                            assert(c_l =~= olde.subrange(
                                oldb.prefix_len(l_i as int),
                                oldb.prefix_len(l_i as int) + c_l.len(),
                            ));
                            assert(olde[cs] == c_l[s_loc]);
                            assert(forall|q: int|
                                0 <= q < oldb.entries@.len() ==> (#[trigger] oldb.entries@[
                                q]).node.size_ok(false));
                            assert(!cfix);
                            assert(!premerge.entries@[l_i as int].node.spec_undersized());
                            assert(premerge.entries@.len() == oldb.entries@.len());
                            assert(forall|q: int|
                                0 <= q < premerge.entries@.len() && q != l_i ==> (
                                #[trigger] premerge.entries@[q]) == oldb.entries@[q]);
                            assert(children.entries@ == premerge.entries@);
                            assert(forall|q: int|
                                0 <= q < children.entries@.len()
                                    ==> !(#[trigger] children.entries@[q]).node.spec_undersized());
                        }
                    }
                } else {
                    proof {
                        lemma_child_in_all(oldb, l_i as int);
                        lemma_child_in_all(oldb, r_i as int);
                        if noop {
                            oldb.lemma_prefix_in_bounds(l_i + 1);
                            oldb.lemma_prefix_in_bounds(r_i as int);
                            lemma_range_split(oldb, 0, l_i + 1, r_i as int);
                            crate::widths::lemma_width_sum_nonneg(
                                entries_elems_range(oldb, l_i + 1, r_i as int),
                            );
                            crate::widths::lemma_start_wti_bounds(c_l, start_width - l_acc.width);
                            crate::widths::lemma_end_wti_bounds(c_r, end_width - r_acc.width);
                            assert(ce >= oldb.prefix_len(r_i as int));
                            assert(cs == l_acc.len + s_loc);
                            assert(s_loc < c_l.len());
                            assert(cs < oldb.prefix_len(l_i + 1));
                            assert(false);
                        }
                        crate::widths::lemma_width_sum_subrange_le(
                            olde,
                            oldb.prefix_len(l_i as int),
                            oldb.prefix_len(l_i as int) + c_l.len(),
                        );
                        crate::widths::lemma_width_sum_subrange_le(
                            olde,
                            oldb.prefix_len(r_i as int),
                            oldb.prefix_len(r_i as int) + c_r.len(),
                        );
                        lemma_width_sum_concat(olde.take(cs), olde.skip(ce));
                        crate::widths::lemma_cut_aggregates(olde, cs, ce);
                    }
                    let fix = Self::remove_span(
                        children,
                        start_width,
                        end_width,
                        l_i,
                        l_acc,
                        r_i,
                        r_acc,
                        Ghost(h),
                    );
                    needs_fix = fix;
                    proof {
                        assert(children.all_elems() == olde.take(cs) + olde.skip(ce));
                    }
                    children.merge_child(l_i + 1, Ghost(h));
                    children.merge_child(l_i, Ghost(h));
                }
                let n_now = children.len();
                if n_now == 0 {
                    proof {
                        assert(self.elems().len() == 0);
                    }
                    return (SliceInfo::new(), needs_fix);
                }
                let chk = if l_i < n_now {
                    l_i
                } else {
                    n_now - 1
                };
                if children.entries[chk].node.is_undersized() {
                    needs_fix = true;
                }
                proof {
                    assert(children.search_ready());
                }
                let info = children.combined_info();
                proof {
                    if info.len > 0 {
                        lemma_branch_pack(*children, h);
                    } else {
                        lemma_range_one(*children, 0);
                        lemma_range_split(*children, 0, 1, children.entries@.len() as int);
                        crate::widths::lemma_width_sum_nonneg(children.all_elems());
                    }
                }
                (info, needs_fix)
            },
        }
    }

    /// The part of a removal whose range spans several children: whole
    /// children strictly inside the range go, the right boundary child
    /// loses its head, the left one its tail.
    #[verifier::spinoff_prover]
    #[verifier::rlimit(100)]
    fn remove_span(
        children: &mut BranchChildren<M>,
        start_width: usize,
        end_width: usize,
        l_i: usize,
        l_acc: SliceInfo,
        r_i: usize,
        r_acc: SliceInfo,
        height: Ghost<nat>,
    ) -> (fix: bool)
        requires
            old(children).kids_ok(),
            old(children).kids_height(height@),
            old(children).all_elems().len() <= usize::MAX,
            width_sum(old(children).all_elems()) <= usize::MAX,
            l_i < r_i < old(children).entries@.len(),
            start_width <= end_width,
            l_acc.len == old(children).prefix_len(l_i as int),
            l_acc.width == old(children).prefix_width(l_i as int),
            l_acc.width <= start_width,
            start_width - l_acc.width <= width_sum(
                old(children).entries@[l_i as int].node.elems(),
            ),
            r_acc.len == old(children).prefix_len(r_i as int),
            r_acc.width == old(children).prefix_width(r_i as int),
            r_acc.width <= end_width,
            end_width - r_acc.width <= width_sum(old(children).entries@[r_i as int].node.elems()),
        ensures
            ({
                let oldb = *old(children);
                let n0 = oldb.entries@.len() as int;
                let c_l = oldb.entries@[l_i as int].node.elems();
                let c_r = oldb.entries@[r_i as int].node.elems();
                let s_loc = start_wti(c_l, start_width - l_acc.width);
                let e_loc = end_wti(c_r, end_width - r_acc.width);
                let cs = oldb.prefix_len(l_i as int) + s_loc;
                let ce = oldb.prefix_len(r_i as int) + e_loc;
                &&& final(children).all_elems() == oldb.all_elems().take(cs)
                    + oldb.all_elems().skip(ce)
            }),
            final(children).kids_ok(),
            final(children).kids_height(height@),
            final(children).entries@.len() <= old(children).entries@.len(),
        decreases height@, 2int,
    {
        let ghost h = height@;
        let ghost oldb = *old(children);
        let ghost olde = oldb.all_elems();
        let ghost n0 = oldb.entries@.len() as int;
        let ghost c_l = oldb.entries@[l_i as int].node.elems();
        let ghost c_r = oldb.entries@[r_i as int].node.elems();
        let ghost s_loc = start_wti(c_l, start_width - l_acc.width);
        let ghost e_loc = end_wti(c_r, end_width - r_acc.width);
        let ghost cs = oldb.prefix_len(l_i as int) + s_loc;
        let ghost ce = oldb.prefix_len(r_i as int) + e_loc;
        proof {
            crate::widths::lemma_start_wti_bounds(c_l, start_width - l_acc.width);
            crate::widths::lemma_end_wti_bounds(c_r, end_width - r_acc.width);
            oldb.lemma_prefix_in_bounds(l_i as int);
            oldb.lemma_prefix_in_bounds(r_i as int);
            oldb.lemma_prefix_in_bounds(r_i + 1);
            oldb.lemma_prefix_step(l_i as int);
            oldb.lemma_prefix_step(r_i as int);
            crate::widths::lemma_width_sum_nonneg(olde);
            lemma_child_in_all(oldb, l_i as int);
            lemma_child_in_all(oldb, r_i as int);
            crate::widths::lemma_width_sum_subrange_le(
                olde,
                oldb.prefix_len(l_i as int),
                oldb.prefix_len(l_i as int) + c_l.len(),
            );
            crate::widths::lemma_width_sum_subrange_le(
                olde,
                oldb.prefix_len(r_i as int),
                oldb.prefix_len(r_i as int) + c_r.len(),
            );
        }
        let mut needs_fix = false;
        let n_exec = children.len();
        let wr = children.entries[r_i].info.width;
        let r_exists = r_acc.width + wr != end_width as u64;
        let end_remove = if r_exists {
            r_i
        } else {
            r_i + 1
        };
        let ghost mids: int = end_remove - (l_i + 1);
        let mut removed: usize = 0;
        while removed < end_remove - (l_i + 1)
            invariant
                0 <= removed <= mids,
                mids == end_remove - (l_i + 1),
                l_i + 1 <= end_remove <= oldb.entries@.len(),
                children.entries@ == oldb.entries@.take(l_i + 1) + oldb.entries@.skip(
                    l_i + 1 + removed,
                ),
            decreases mids - removed,
        {
            let dropped = children.remove(l_i + 1);
            proof {
                assert(children.entries@ =~= oldb.entries@.take(l_i + 1) + oldb.entries@.skip(
                    l_i + 1 + (removed + 1),
                ));
            }
            removed = removed + 1;
        }
        // Handle the right child first so the left index stays put.
        let ghost right_new = c_r.skip(e_loc);
        let mut right_kept = false;
        if r_exists {
            proof {
                assert(children.entries@[l_i + 1] == oldb.entries@[r_i as int]);
            }
            let e = children.remove(l_i + 1);
            let mut child = e.node;
            let ew2 = end_width - r_acc.width as usize;
            proof {
                crate::widths::lemma_start_wti_zero(c_r);
                assert(children.entries@ =~= oldb.entries@.take(l_i + 1) + oldb.entries@.skip(
                    r_i + 1,
                ));
            }
            let (cinfo, cfix) = child.remove_range(0, ew2, e.info);
            needs_fix = cfix;
            proof {
                assert(child.elems() =~= right_new);
            }
            if cinfo.len > 0 {
                children.insert(l_i + 1, cinfo, child);
                right_kept = true;
            }
        } else {
            proof {
                crate::widths::lemma_end_wti_all(c_r, end_width - r_acc.width);
                assert(e_loc == c_r.len());
                assert(right_new =~= Seq::<M>::empty());
            }
        }
        proof {
            if right_kept {
                assert(children.entries@ =~= oldb.entries@.take(l_i + 1) + seq![
                    children.entries@[l_i + 1],
                ] + oldb.entries@.skip(r_i + 1));
            } else {
                assert(children.entries@ =~= oldb.entries@.take(l_i + 1) + oldb.entries@.skip(
                    r_i + 1,
                ));
            }
        }
        let ghost afterright = *children;
        // Now the left child.
        proof {
            assert(afterright.entries@[l_i as int] == oldb.entries@[l_i as int]);
        }
        let e = children.remove(l_i);
        let mut child = e.node;
        let sw2 = start_width - l_acc.width as usize;
        let wl = e.info.width;
        proof {
            crate::widths::lemma_end_wti_all(c_l, width_sum(c_l));
            crate::widths::lemma_start_wti_char(c_l, sw2 as int);
            crate::widths::lemma_start_le_end(c_l, sw2 as int, width_sum(c_l));
        }
        let (cinfo, cfix) = child.remove_range(sw2, wl as usize, e.info);
        let ghost left_new = c_l.take(s_loc);
        proof {
            assert(child.elems() =~= left_new);
        }
        if cfix {
            needs_fix = true;
        }
        let mut left_kept = false;
        if cinfo.len > 0 {
            children.insert(l_i, cinfo, child);
            left_kept = true;
        }
        proof {
            let fin = *children;
            let l_mid: int = if left_kept {
                1
            } else {
                0
            };
            let r_mid: int = if right_kept {
                1
            } else {
                0
            };
            if l_mid == 0 {
                assert(left_new.len() == 0);
                assert(s_loc == 0);
            }
            if right_kept && r_mid == 1 {
                assert(fin.entries@[l_i + l_mid] == afterright.entries@[l_i + 1]);
            }
            assert(fin.entries@.len() == l_i + l_mid + r_mid + (n0 - (r_i + 1)));
            assert(forall|k: int|
                0 <= k < l_i ==> (#[trigger] fin.entries@[0 + k]) == oldb.entries@[0 + k]);
            assert(forall|k: int|
                0 <= k < n0 - (r_i + 1) ==> (#[trigger] fin.entries@[(l_i + l_mid + r_mid) + k])
                    == oldb.entries@[(r_i + 1) + k]);
            lemma_span_stitch(oldb, fin, l_i as int, r_i as int, l_mid, r_mid, s_loc, e_loc, h);
        }
        needs_fix
    }

    /// Replaces an emptied branch shell by a fresh empty leaf; leaves any
    /// node that still holds something alone.
    fn normalize_empty(&mut self)
        requires
            (*old(self)) is Branch ==> old(self).as_branch().kids_ok() && (
            old(self).as_branch().entries@.len() > 0 ==> old(self).inv()),
            (*old(self)) is Leaf ==> old(self).inv(),
        ensures
            final(self).elems() == old(self).elems(),
            final(self).inv(),
            final(self).elems().len() > 0 ==> final(self).height() == old(self).height(),
    {
        let empty_branch = if self.is_leaf() {
            false
        } else {
            self.child_count() == 0
        };
        if empty_branch {
            *self = Node::new();
            proof {
                assert(old(self).elems() =~= Seq::<M>::empty());
            }
        }
    }

    /// Splits the node at the end-biased boundary of `width`, returning the
    /// right side; a run of zero-width elements at the coordinate stays on
    /// the left. Splitting right at a chunk boundary may settle anywhere
    /// within such a run, between the start- and end-biased boundaries.
    #[verifier::spinoff_prover]
    #[verifier::rlimit(100)]
    pub fn end_split(&mut self, width: usize) -> (r: Self)
        requires
            old(self).inv(),
            0 < width,
            (width as int) < width_sum(old(self).elems()),
        ensures
            final(self).inv(),
            r.inv(),
            exists|k: int|
                {
                    &&& start_wti(old(self).elems(), width as int) <= k <= end_wti(
                        old(self).elems(),
                        width as int,
                    )
                    &&& final(self).elems() == old(self).elems().take(k)
                    &&& #[trigger] r.elems() == old(self).elems().skip(k)
                },
            final(self).elems().len() > 0 ==> final(self).height() == old(self).height(),
            r.elems().len() > 0 ==> r.height() == old(self).height(),
            (*old(self)) is Leaf ==> final(self).elems() == old(self).elems().take(
                end_wti(old(self).elems(), width as int),
            ) && r.elems() == old(self).elems().skip(end_wti(old(self).elems(), width as int)),
        decreases old(self).height(),
    {
        let ghost olde = old(self).elems();
        proof {
            crate::widths::lemma_start_wti_bounds(olde, width as int);
            crate::widths::lemma_end_wti_bounds(olde, width as int);
            crate::widths::lemma_start_wti_char(olde, width as int);
            crate::widths::lemma_width_sum_nonneg(olde);
        }
        let mut right: Node<M> = match self {
            Node::Leaf(leaf) => {
                let idx = crate::widths::end_width_to_index(leaf.as_slice(), width);
                let tail = leaf.split_off(idx);
                proof {
                    crate::widths::lemma_width_sum_split(olde, idx as int);
                    crate::widths::lemma_width_sum_nonneg(olde.take(idx as int));
                    crate::widths::lemma_width_sum_nonneg(olde.skip(idx as int));
                }
                Node::Leaf(tail)
            },
            Node::Branch(children) => {
                let ghost oldb = old(self).as_branch();
                let ghost n0 = oldb.entries@.len() as int;
                proof {
                    lemma_branch_parts(*old(self));
                }
                let ghost h = (old(self).height() - 1) as nat;
                let (child_i, acc) = children.search_end_width(width);
                let cw = children.entries[child_i].info.width;
                proof {
                    oldb.lemma_prefix_step(child_i as int);
                    oldb.lemma_prefix_in_bounds(child_i as int);
                    oldb.lemma_prefix_in_bounds(child_i + 1);
                }
                if acc.width == width as u64 {
                    let rc = children.split_off(child_i);
                    proof {
                        Self::boundary_split_facts(oldb, *children, rc, child_i as int, width as int);
                        Self::pack_split_side(olde, *children, oldb.prefix_len(child_i as int), h);
                        Self::pack_split_side(olde, rc, oldb.prefix_len(child_i as int), h);
                    }
                    Node::Branch(rc)
                } else if acc.width + cw == width as u64 {
                    let rc = children.split_off(child_i + 1);
                    proof {
                        Self::boundary_split_facts(
                            oldb,
                            *children,
                            rc,
                            child_i + 1,
                            width as int,
                        );
                        Self::pack_split_side(olde, *children, oldb.prefix_len(child_i + 1), h);
                        Self::pack_split_side(olde, rc, oldb.prefix_len(child_i + 1), h);
                    }
                    Node::Branch(rc)
                } else {
                    let mut rc = children.split_off(child_i + 1);
                    let e = children.pop();
                    let mut child = e.node;
                    let w2 = width - acc.width as usize;
                    let ghost c_i = oldb.entries@[child_i as int].node.elems();
                    proof {
                        assert(children.entries@ =~= oldb.entries@.take(child_i as int));
                        assert(rc.entries@ =~= oldb.entries@.skip(child_i + 1));
                        assert(0 < w2 < width_sum(c_i));
                    }
                    let rnode = child.end_split(w2);
                    let mut left_kept = false;
                    if child.len() > 0 {
                        let info = child.slice_info();
                        children.push(info, child);
                        left_kept = true;
                    }
                    let mut rcb = BranchChildren::new();
                    let mut right_kept = false;
                    if rnode.len() > 0 {
                        let rinfo = rnode.slice_info();
                        rcb.push(rinfo, Box::new(rnode));
                        right_kept = true;
                    }
                    rcb.entries.append(&mut rc.entries);
                    proof {
                        let ghost kc = choose|kc: int|
                            start_wti(c_i, w2 as int) <= kc <= end_wti(c_i, w2 as int)
                                && child.elems() == c_i.take(kc) && #[trigger] rnode.elems()
                                == c_i.skip(kc);
                        Self::interior_split_facts(
                            oldb,
                            *children,
                            rcb,
                            child_i as int,
                            width as int,
                            w2 as int,
                            kc,
                            child.elems(),
                            rnode.elems(),
                            if left_kept {
                                1int
                            } else {
                                0int
                            },
                            if right_kept {
                                1int
                            } else {
                                0int
                            },
                            h,
                        );
                        if children.entries@.len() > 0 {
                            Self::pack_split_side(
                                olde,
                                *children,
                                oldb.prefix_len(child_i as int) + kc,
                                h,
                            );
                        }
                        if rcb.entries@.len() > 0 {
                            Self::pack_split_side(
                                olde,
                                rcb,
                                oldb.prefix_len(child_i as int) + kc,
                                h,
                            );
                        }
                    }
                    Node::Branch(rcb)
                }
            },
        };
        self.normalize_empty();
        right.normalize_empty();
        right
    }

    /// Splits the node at the start-biased boundary of `width`, returning
    /// the right side; a run of zero-width elements at the coordinate goes
    /// to the right. As with `end_split`, a split right at a chunk boundary
    /// may settle anywhere within such a run.
    #[verifier::spinoff_prover]
    #[verifier::rlimit(100)]
    pub fn start_split(&mut self, width: usize) -> (r: Self)
        requires
            old(self).inv(),
            0 < width,
            (width as int) < width_sum(old(self).elems()),
        ensures
            final(self).inv(),
            r.inv(),
            exists|k: int|
                {
                    &&& start_wti(old(self).elems(), width as int) <= k <= end_wti(
                        old(self).elems(),
                        width as int,
                    )
                    &&& final(self).elems() == old(self).elems().take(k)
                    &&& #[trigger] r.elems() == old(self).elems().skip(k)
                },
            final(self).elems().len() > 0 ==> final(self).height() == old(self).height(),
            r.elems().len() > 0 ==> r.height() == old(self).height(),
            (*old(self)) is Leaf ==> final(self).elems() == old(self).elems().take(
                start_wti(old(self).elems(), width as int),
            ) && r.elems() == old(self).elems().skip(start_wti(old(self).elems(), width as int)),
        decreases old(self).height(),
    {
        let ghost olde = old(self).elems();
        proof {
            crate::widths::lemma_start_wti_bounds(olde, width as int);
            crate::widths::lemma_end_wti_bounds(olde, width as int);
            crate::widths::lemma_start_wti_char(olde, width as int);
            crate::widths::lemma_width_sum_nonneg(olde);
        }
        let mut right: Node<M> = match self {
            Node::Leaf(leaf) => {
                let idx = crate::widths::start_width_to_index(leaf.as_slice(), width);
                let tail = leaf.split_off(idx);
                proof {
                    crate::widths::lemma_width_sum_split(olde, idx as int);
                    crate::widths::lemma_width_sum_nonneg(olde.take(idx as int));
                    crate::widths::lemma_width_sum_nonneg(olde.skip(idx as int));
                }
                Node::Leaf(tail)
            },
            Node::Branch(children) => {
                let ghost oldb = old(self).as_branch();
                let ghost n0 = oldb.entries@.len() as int;
                proof {
                    lemma_branch_parts(*old(self));
                }
                let ghost h = (old(self).height() - 1) as nat;
                let (child_i, acc) = children.search_start_width(width);
                let cw = children.entries[child_i].info.width;
                proof {
                    oldb.lemma_prefix_step(child_i as int);
                    oldb.lemma_prefix_in_bounds(child_i as int);
                    oldb.lemma_prefix_in_bounds(child_i + 1);
                }
                if acc.width == width as u64 {
                    let rc = children.split_off(child_i);
                    proof {
                        Self::boundary_split_facts(oldb, *children, rc, child_i as int, width as int);
                        Self::pack_split_side(olde, *children, oldb.prefix_len(child_i as int), h);
                        Self::pack_split_side(olde, rc, oldb.prefix_len(child_i as int), h);
                    }
                    Node::Branch(rc)
                } else if acc.width + cw == width as u64 {
                    let rc = children.split_off(child_i + 1);
                    proof {
                        Self::boundary_split_facts(
                            oldb,
                            *children,
                            rc,
                            child_i + 1,
                            width as int,
                        );
                        Self::pack_split_side(olde, *children, oldb.prefix_len(child_i + 1), h);
                        Self::pack_split_side(olde, rc, oldb.prefix_len(child_i + 1), h);
                    }
                    Node::Branch(rc)
                } else {
                    let mut rc = children.split_off(child_i + 1);
                    let e = children.pop();
                    let mut child = e.node;
                    let w2 = width - acc.width as usize;
                    let ghost c_i = oldb.entries@[child_i as int].node.elems();
                    proof {
                        assert(children.entries@ =~= oldb.entries@.take(child_i as int));
                        assert(rc.entries@ =~= oldb.entries@.skip(child_i + 1));
                        crate::widths::lemma_start_wti_char(c_i, w2 as int);
                        assert(0 < w2 < width_sum(c_i));
                    }
                    let rnode = child.end_split(w2);
                    let mut left_kept = false;
                    if child.len() > 0 {
                        let info = child.slice_info();
                        children.push(info, child);
                        left_kept = true;
                    }
                    let mut rcb = BranchChildren::new();
                    let mut right_kept = false;
                    if rnode.len() > 0 {
                        let rinfo = rnode.slice_info();
                        rcb.push(rinfo, Box::new(rnode));
                        right_kept = true;
                    }
                    rcb.entries.append(&mut rc.entries);
                    proof {
                        let ghost kc = choose|kc: int|
                            start_wti(c_i, w2 as int) <= kc <= end_wti(c_i, w2 as int)
                                && child.elems() == c_i.take(kc) && #[trigger] rnode.elems()
                                == c_i.skip(kc);
                        Self::interior_split_facts(
                            oldb,
                            *children,
                            rcb,
                            child_i as int,
                            width as int,
                            w2 as int,
                            kc,
                            child.elems(),
                            rnode.elems(),
                            if left_kept {
                                1int
                            } else {
                                0int
                            },
                            if right_kept {
                                1int
                            } else {
                                0int
                            },
                            h,
                        );
                        if children.entries@.len() > 0 {
                            Self::pack_split_side(
                                olde,
                                *children,
                                oldb.prefix_len(child_i as int) + kc,
                                h,
                            );
                        }
                        if rcb.entries@.len() > 0 {
                            Self::pack_split_side(
                                olde,
                                rcb,
                                oldb.prefix_len(child_i as int) + kc,
                                h,
                            );
                        }
                    }
                    Node::Branch(rcb)
                }
            },
        };
        self.normalize_empty();
        right.normalize_empty();
        right
    }

    /// Packs one side of a split back into a branch node: its elements are
    /// a `take` or `skip` of the original run's elements, so the machine
    /// bounds carry over.
    proof fn pack_split_side(olde: Seq<M>, z: BranchChildren<M>, k: int, h: nat)
        requires
            z.kids_ok(),
            z.kids_height(h),
            1 <= z.entries@.len() <= MAX_CHILDREN,
            0 <= k <= olde.len(),
            z.all_elems() == olde.take(k) || z.all_elems() == olde.skip(k),
            olde.len() <= usize::MAX,
            width_sum(olde) <= usize::MAX,
        ensures
            Node::Branch(z).inv(),
            Node::Branch(z).height() == h + 1,
            Node::Branch(z).elems() == z.all_elems(),
    {
        crate::widths::lemma_width_sum_split(olde, k);
        crate::widths::lemma_width_sum_nonneg(olde.take(k));
        crate::widths::lemma_width_sum_nonneg(olde.skip(k));
        lemma_branch_pack(z, h);
    }

    /// A split right at a child boundary: the two halves of the children
    /// run carry the two halves of the elements, and the boundary position
    /// lies between the start- and end-biased boundaries of the width.
    proof fn boundary_split_facts(
        oldb: BranchChildren<M>,
        fin: BranchChildren<M>,
        rc: BranchChildren<M>,
        cut: int,
        w: int,
    )
        requires
            oldb.kids_ok(),
            0 < cut < oldb.entries@.len(),
            fin.entries@ == oldb.entries@.take(cut),
            rc.entries@ == oldb.entries@.skip(cut),
            w == oldb.prefix_width(cut),
            w >= 0,
        ensures
            fin.all_elems() == oldb.all_elems().take(oldb.prefix_len(cut)),
            rc.all_elems() == oldb.all_elems().skip(oldb.prefix_len(cut)),
            start_wti(oldb.all_elems(), w) <= oldb.prefix_len(cut) <= end_wti(
                oldb.all_elems(),
                w,
            ),
            fin.kids_ok(),
            rc.kids_ok(),
            forall|h: nat| oldb.kids_height(h) ==> fin.kids_height(h) && rc.kids_height(h),
            fin.all_elems().len() > 0,
            rc.all_elems().len() > 0,
            1 <= fin.entries@.len(),
            1 <= rc.entries@.len(),
    {
        let n0 = oldb.entries@.len() as int;
        assert(fin.entries@ + rc.entries@ =~= oldb.entries@);
        lemma_entries_split_elems(oldb, fin, rc);
        lemma_range_congruent(fin, oldb, 0, cut, 0, cut);
        let p = oldb.prefix_len(cut);
        oldb.lemma_prefix_in_bounds(cut);
        assert(fin.all_elems() =~= oldb.all_elems().take(p));
        assert(rc.all_elems() =~= oldb.all_elems().skip(p));
        crate::widths::lemma_start_wti_le_pos(oldb.all_elems(), w, p);
        crate::widths::lemma_end_wti_ge_pos(oldb.all_elems(), w, p);
        assert forall|h: nat| oldb.kids_height(h) implies fin.kids_height(h) && rc.kids_height(
            h,
        ) by {
            assert(forall|i: int|
                0 <= i < fin.entries@.len() && oldb.kids_height(h) ==> (
                #[trigger] fin.entries@[i]).node.height() == h);
            assert(forall|i: int|
                0 <= i < rc.entries@.len() && oldb.kids_height(h) ==> (
                #[trigger] rc.entries@[i]).node == oldb.entries@[cut + i].node && oldb.entries@[cut
                + i].node.height() == h);
        }
        assert forall|i: int| 0 <= i < fin.entries@.len() implies {
            let e = #[trigger] fin.entries@[i];
            entry_ok(e) && e.node.inv()
        } by {
            assert(entry_ok(oldb.entries@[i]) && oldb.entries@[i].node.inv());
        }
        assert forall|i: int| 0 <= i < rc.entries@.len() implies {
            let e = #[trigger] rc.entries@[i];
            entry_ok(e) && e.node.inv()
        } by {
            assert(rc.entries@[i] == oldb.entries@[cut + i]);
            assert(entry_ok(oldb.entries@[cut + i]) && oldb.entries@[cut + i].node.inv());
        }
        lemma_range_one(fin, 0);
        lemma_range_split(fin, 0, 1, fin.entries@.len() as int);
        lemma_range_one(rc, 0);
        lemma_range_split(rc, 0, 1, rc.entries@.len() as int);
    }

    /// A split strictly inside child `child_i`: the left run keeps the
    /// children before it plus the child's left part, the right run starts
    /// with the child's right part and carries the children after it.
    #[verifier::spinoff_prover]
    #[verifier::rlimit(100)]
    proof fn interior_split_facts(
        oldb: BranchChildren<M>,
        fin: BranchChildren<M>,
        rcb: BranchChildren<M>,
        child_i: int,
        w: int,
        w2: int,
        kc: int,
        left_elems: Seq<M>,
        right_elems: Seq<M>,
        l_mid: int,
        r_mid: int,
        h: nat,
    )
        requires
            l_mid == (if left_elems.len() > 0 {
                1int
            } else {
                0int
            }),
            r_mid == (if right_elems.len() > 0 {
                1int
            } else {
                0int
            }),
            oldb.kids_ok(),
            oldb.kids_height(h),
            0 <= child_i < oldb.entries@.len(),
            w == oldb.prefix_width(child_i) + w2,
            0 <= w2,
            start_wti(oldb.entries@[child_i].node.elems(), w2) <= kc <= end_wti(
                oldb.entries@[child_i].node.elems(),
                w2,
            ),
            w2 <= width_sum(oldb.entries@[child_i].node.elems()),
            left_elems == oldb.entries@[child_i].node.elems().take(kc),
            right_elems == oldb.entries@[child_i].node.elems().skip(kc),
            fin.entries@.len() == child_i + l_mid,
            forall|k: int|
                0 <= k < child_i ==> (#[trigger] fin.entries@[0 + k]) == oldb.entries@[0 + k],
            left_elems.len() > 0 ==> fin.entries@[child_i as int].node.elems() == left_elems
                && entry_ok(fin.entries@[child_i as int]) && fin.entries@[child_i as int].node.inv()
                && fin.entries@[child_i as int].node.height() == h,
            rcb.entries@.len() == r_mid + (oldb.entries@.len() - (child_i + 1)),
            right_elems.len() > 0 ==> rcb.entries@[0].node.elems() == right_elems && entry_ok(
                rcb.entries@[0],
            ) && rcb.entries@[0].node.inv() && rcb.entries@[0].node.height() == h,
            forall|k: int|
                0 <= k < oldb.entries@.len() - (child_i + 1) ==> (#[trigger] rcb.entries@[r_mid
                    + k]) == oldb.entries@[(child_i + 1) + k],
        ensures
            ({
                let kg = oldb.prefix_len(child_i) + kc;
                &&& fin.all_elems() == oldb.all_elems().take(kg)
                &&& rcb.all_elems() == oldb.all_elems().skip(kg)
                &&& start_wti(oldb.all_elems(), w) <= kg <= end_wti(oldb.all_elems(), w)
            }),
            fin.kids_ok(),
            rcb.kids_ok(),
            fin.kids_height(h),
            rcb.kids_height(h),
    {
        let n0 = oldb.entries@.len() as int;
        let c_i = oldb.entries@[child_i].node.elems();
        let p = oldb.prefix_len(child_i);
        let kg = p + kc;
        crate::widths::lemma_start_wti_bounds(c_i, w2);
        crate::widths::lemma_end_wti_bounds(c_i, w2);
        if l_mid == 0 {
            assert(kc == 0);
        }
        if r_mid == 0 {
            assert(kc == c_i.len());
        }
        assert(forall|k: int|
            0 <= k < child_i ==> (#[trigger] fin.entries@[0 + k]).node.elems() == oldb.entries@[0
                + k].node.elems());
        assert(forall|k: int|
            0 <= k < n0 - (child_i + 1) ==> (#[trigger] rcb.entries@[(r_mid + k)]).node.elems()
                == oldb.entries@[(child_i + 1) + k].node.elems());
        lemma_range_split(fin, 0, child_i, fin.entries@.len() as int);
        lemma_range_congruent(fin, oldb, 0, child_i, 0, child_i);
        if l_mid == 1 {
            lemma_range_one(fin, child_i);
            assert(entries_elems_range(fin, child_i, child_i + 1) == left_elems);
        } else {
            assert(left_elems =~= Seq::<M>::empty());
        }
        assert(fin.all_elems() == entries_elems_range(oldb, 0, child_i) + left_elems) by {
            assert(fin.all_elems() =~= entries_elems_range(oldb, 0, child_i) + left_elems);
        }
        lemma_range_split(rcb, 0, r_mid, rcb.entries@.len() as int);
        lemma_range_congruent(rcb, oldb, r_mid, rcb.entries@.len() as int, child_i + 1, n0);
        if r_mid == 1 {
            lemma_range_one(rcb, 0);
        } else {
            assert(right_elems =~= Seq::<M>::empty());
        }
        assert(rcb.all_elems() == right_elems + entries_elems_range(oldb, child_i + 1, n0)) by {
            assert(rcb.all_elems() =~= right_elems + entries_elems_range(oldb, child_i + 1, n0));
        }
        lemma_range_split(oldb, 0, child_i, n0);
        lemma_range_split(oldb, child_i, child_i + 1, n0);
        lemma_range_one(oldb, child_i);
        let pre = entries_elems_range(oldb, 0, child_i);
        let post = entries_elems_range(oldb, child_i + 1, n0);
        assert(oldb.all_elems() == pre + c_i + post) by {
            assert(oldb.all_elems() =~= pre + (c_i + post));
            assert(pre + (c_i + post) =~= pre + c_i + post);
        }
        assert(fin.all_elems() =~= oldb.all_elems().take(kg));
        assert(rcb.all_elems() =~= oldb.all_elems().skip(kg));
        // The global boundaries bracket the cut.
        oldb.lemma_prefix_in_bounds(child_i);
        crate::widths::lemma_width_sum_nonneg(c_i);
        crate::widths::lemma_start_wti_concat(pre, c_i + post, w);
        crate::widths::lemma_start_wti_concat(c_i, post, w2);
        crate::widths::lemma_start_wti_bounds(pre, w);
        crate::widths::lemma_start_wti_bounds(c_i + post, w - width_sum(pre));
        crate::widths::lemma_end_wti_char(c_i, w2);
        crate::widths::lemma_width_sum_take_mono(c_i, kc, end_wti(c_i, w2));
        assert(oldb.all_elems().take(p + kc) =~= pre + c_i.take(kc));
        lemma_width_sum_concat(pre, c_i.take(kc));
        crate::widths::lemma_end_wti_ge_pos(oldb.all_elems(), w, p + kc);
        assert(start_wti(oldb.all_elems(), w) <= kg) by {
            if start_wti(pre, w) < pre.len() {
                crate::widths::lemma_width_sum_nonneg(c_i.take(kc));
            } else {
                assert(start_wti(oldb.all_elems(), w) == pre.len() + start_wti(
                    c_i + post,
                    w - width_sum(pre),
                ));
                if start_wti(c_i, w2) < c_i.len() {
                    assert(start_wti(c_i + post, w2) == start_wti(c_i, w2));
                } else {
                    crate::widths::lemma_start_wti_all(c_i, w2);
                    assert(w2 == width_sum(c_i));
                    assert(kc == c_i.len()) by {
                        crate::widths::lemma_end_wti_bounds(c_i, w2);
                    }
                    crate::widths::lemma_start_wti_zero(post);
                    assert(start_wti(c_i + post, w2) == c_i.len() + start_wti(post, 0));
                }
            }
        }
        assert forall|i: int| 0 <= i < fin.entries@.len() implies {
            let e = #[trigger] fin.entries@[i];
            entry_ok(e) && e.node.inv() && e.node.height() == h
        } by {
            if i < child_i {
                assert(fin.entries@[0 + i] == oldb.entries@[i]);
                assert(entry_ok(oldb.entries@[i]) && oldb.entries@[i].node.inv()
                    && oldb.entries@[i].node.height() == h);
            }
        }
        assert forall|i: int| 0 <= i < rcb.entries@.len() implies {
            let e = #[trigger] rcb.entries@[i];
            entry_ok(e) && e.node.inv() && e.node.height() == h
        } by {
            if i >= r_mid {
                assert(rcb.entries@[r_mid + (i - r_mid)] == oldb.entries@[child_i + 1 + (i
                    - r_mid)]);
                assert(entry_ok(oldb.entries@[child_i + 1 + (i - r_mid)]) && oldb.entries@[child_i
                    + 1 + (i - r_mid)].node.inv() && oldb.entries@[child_i + 1 + (i
                    - r_mid)].node.height() == h);
            }
        }
    }

    /// Replacing one child and keeping the rest: how the run's elements
    /// decompose around the replaced slot.
    #[verifier::spinoff_prover]
    proof fn lemma_replace_child(
        b0: BranchChildren<M>,
        joined: BranchChildren<M>,
        child_i: int,
        h: nat,
    )
        requires
            b0.kids_ok(),
            b0.kids_height(h),
            0 <= child_i < b0.entries@.len(),
            joined.entries@.len() == b0.entries@.len(),
            forall|k: int|
                0 <= k < child_i ==> (#[trigger] joined.entries@[0 + k]) == b0.entries@[0 + k],
            forall|k: int|
                0 <= k < b0.entries@.len() - (child_i + 1) ==> (#[trigger] joined.entries@[(child_i
                    + 1) + k]) == b0.entries@[(child_i + 1) + k],
            entry_ok(joined.entries@[child_i]),
            joined.entries@[child_i].node.inv(),
            joined.entries@[child_i].node.height() == h,
        ensures
            joined.all_elems() == entries_elems_range(b0, 0, child_i)
                + joined.entries@[child_i].node.elems() + entries_elems_range(
                b0,
                child_i + 1,
                b0.entries@.len() as int,
            ),
            joined.kids_ok(),
            joined.kids_height(h),
            entries_elems_range(joined, 0, child_i + 1) == entries_elems_range(b0, 0, child_i)
                + joined.entries@[child_i].node.elems(),
            entries_elems_range(joined, child_i + 1, joined.entries@.len() as int)
                == entries_elems_range(b0, child_i + 1, b0.entries@.len() as int),
    {
        let n0 = b0.entries@.len() as int;
        assert(forall|k: int|
            0 <= k < child_i ==> (#[trigger] joined.entries@[0 + k]).node.elems() == b0.entries@[0
                + k].node.elems());
        assert(forall|k: int|
            0 <= k < n0 - (child_i + 1) ==> (#[trigger] joined.entries@[(child_i + 1)
                + k]).node.elems() == b0.entries@[(child_i + 1) + k].node.elems());
        lemma_splice_elems(b0, joined, child_i, child_i + 1, 1);
        lemma_range_one(joined, child_i);
        lemma_range_split(joined, 0, child_i, child_i + 1);
        lemma_range_congruent(joined, b0, 0, child_i, 0, child_i);
        lemma_range_congruent(joined, b0, child_i + 1, n0, child_i + 1, n0);
        assert forall|k: int| 0 <= k < joined.entries@.len() implies {
            let en = #[trigger] joined.entries@[k];
            entry_ok(en) && en.node.inv() && en.node.height() == h
        } by {
            if k < child_i {
                assert(joined.entries@[0 + k] == b0.entries@[k]);
                assert(entry_ok(b0.entries@[k]) && b0.entries@[k].node.inv()
                    && b0.entries@[k].node.height() == h);
            } else if k > child_i {
                assert(joined.entries@[(child_i + 1) + (k - child_i - 1)] == b0.entries@[k]);
                assert(entry_ok(b0.entries@[k]) && b0.entries@[k].node.inv()
                    && b0.entries@[k].node.height() == h);
            }
        }
    }

    /// Concatenates `other`, a tree standing `depth` levels below this one,
    /// onto the right edge, descending the right spine to the level where
    /// the two meet. A node that no longer fits comes back as a residual
    /// right sibling for the caller to house.
    #[verifier::spinoff_prover]
    #[verifier::rlimit(100)]
    pub fn append_at_depth(&mut self, other: Box<Node<M>>, depth: usize) -> (r: Option<
        Box<Node<M>>,
    >)
        requires
            old(self).inv(),
            other.inv(),
            other.height() + depth == old(self).height(),
            old(self).elems().len() > 0,
            other.elems().len() > 0,
            old(self).elems().len() + other.elems().len() <= usize::MAX,
            width_sum(old(self).elems()) + width_sum(other.elems()) <= usize::MAX,
        ensures
            final(self).inv(),
            final(self).height() == old(self).height(),
            final(self).elems().len() > 0,
            match r {
                None => final(self).elems() == old(self).elems() + other.elems(),
                Some(n2) => final(self).elems() + n2.elems() == old(self).elems() + other.elems()
                    && n2.inv() && n2.height() == old(self).height() && n2.elems().len() > 0,
            },
            (depth == 0 && (*old(self)) is Branch) ==> {
                let cl = old(self).as_branch().entries@.len();
                let cr = other.as_branch().entries@.len();
                &&& ((*other) is Branch)
                &&& ((r is None) <==> cl + cr <= MAX_CHILDREN)
                &&& (r is None ==> final(self).as_branch().entries@.len() == cl + cr)
                &&& (r is Some ==> MIN_CHILDREN <= final(self).as_branch().entries@.len()
                    <= MAX_CHILDREN && MIN_CHILDREN <= r.unwrap().as_branch().entries@.len()
                    <= MAX_CHILDREN)
            },
        decreases depth,
    {
        let ghost ga = *old(self);
        let ghost gb = *other;
        proof {
            crate::widths::lemma_width_sum_nonneg(ga.elems());
            crate::widths::lemma_width_sum_nonneg(gb.elems());
        }
        if depth == 0 {
            match self {
                Node::Leaf(_) => Some(other),
                Node::Branch(children) => {
                    proof {
                        lemma_branch_parts(ga);
                        lemma_branch_parts(gb);
                    }
                    let ghost h = (ga.height() - 1) as nat;
                    let on = *other;
                    let mut c2 = match on {
                        Node::Branch(c) => c,
                        Node::Leaf(_) => vstd::pervasive::unreached(),
                    };
                    let ghost oldc1 = *children;
                    if children.len() + c2.len() <= MAX_CHILDREN {
                        children.entries.append(&mut c2.entries);
                        proof {
                            lemma_entries_concat_elems(oldc1, gb.as_branch(), *children);
                            assert(children.entries@ + c2.entries@ =~= oldc1.entries@
                                + gb.as_branch().entries@);
                            lemma_kids_carry(oldc1, gb.as_branch(), *children, c2, h);
                            lemma_width_sum_concat(ga.elems(), gb.elems());
                            lemma_branch_pack(*children, h);
                        }
                        None
                    } else {
                        children.distribute_with(&mut c2);
                        proof {
                            lemma_entries_redistribute_elems(oldc1, gb.as_branch(), *children, c2);
                            lemma_kids_carry(oldc1, gb.as_branch(), *children, c2, h);
                            lemma_width_sum_concat(children.all_elems(), c2.all_elems());
                            crate::widths::lemma_width_sum_nonneg(children.all_elems());
                            crate::widths::lemma_width_sum_nonneg(c2.all_elems());
                            lemma_width_sum_concat(ga.elems(), gb.elems());
                            lemma_range_one(*children, 0);
                            lemma_range_split(*children, 0, 1, children.entries@.len() as int);
                            crate::widths::lemma_width_sum_nonneg(
                                entries_elems_range(*children, 1, children.entries@.len() as int),
                            );
                            lemma_range_one(c2, 0);
                            lemma_range_split(c2, 0, 1, c2.entries@.len() as int);
                            crate::widths::lemma_width_sum_nonneg(
                                entries_elems_range(c2, 1, c2.entries@.len() as int),
                            );
                            lemma_branch_pack(*children, h);
                            lemma_branch_pack(c2, h);
                        }
                        Some(Box::new(Node::Branch(c2)))
                    }
                },
            }
        } else {
            match self {
                Node::Leaf(_) => vstd::pervasive::unreached(),
                Node::Branch(children) => {
                    proof {
                        lemma_branch_parts(ga);
                    }
                    let ghost h = (ga.height() - 1) as nat;
                    let ghost oldb = ga.as_branch();
                    let ghost n0 = oldb.entries@.len() as int;
                    let e = children.pop();
                    let mut child = e.node;
                    proof {
                        lemma_child_in_all(oldb, n0 - 1);
                        oldb.lemma_prefix_in_bounds(n0 - 1);
                        crate::widths::lemma_width_sum_subrange_le(
                            oldb.all_elems(),
                            oldb.prefix_len(n0 - 1),
                            oldb.prefix_len(n0 - 1) + oldb.entries@[n0 - 1].node.elems().len(),
                        );
                    }
                    let res = child.append_at_depth(other, depth - 1);
                    let info = child.slice_info();
                    children.push(info, child);
                    let ghost joined = *children;
                    proof {
                        assert(joined.entries@.len() == n0);
                        assert(forall|k: int|
                            0 <= k < n0 - 1 ==> (#[trigger] joined.entries@[0 + k])
                                == oldb.entries@[0 + k]);
                        lemma_splice_elems(oldb, joined, n0 - 1, n0, 1);
                        lemma_range_one(joined, n0 - 1);
                        lemma_range_split(oldb, 0, n0 - 1, n0);
                        lemma_range_one(oldb, n0 - 1);
                        assert(entries_elems_range(oldb, n0, n0) =~= Seq::<M>::empty());
                        assert(entries_elems_range(oldb, 0, n0 - 1) + entries_elems_range(
                            oldb,
                            n0 - 1,
                            n0,
                        ) + entries_elems_range(oldb, n0, n0) =~= oldb.all_elems());
                        assert forall|k: int| 0 <= k < joined.entries@.len() implies {
                            let en = #[trigger] joined.entries@[k];
                            entry_ok(en) && en.node.inv() && en.node.height() == h
                        } by {
                            if k < n0 - 1 {
                                assert(joined.entries@[0 + k] == oldb.entries@[k]);
                                assert(entry_ok(oldb.entries@[k]) && oldb.entries@[k].node.inv()
                                    && oldb.entries@[k].node.height() == h);
                            }
                        }
                        lemma_width_sum_concat(ga.elems(), gb.elems());
                    }
                    match res {
                        None => {
                            proof {
                                assert(joined.all_elems() =~= ga.elems() + gb.elems());
                                lemma_branch_pack(joined, h);
                            }
                            None
                        },
                        Some(extra) => {
                            proof {
                                let a = entries_elems_range(oldb, 0, n0 - 1);
                                assert(joined.all_elems() =~= a + child.elems());
                                assert((a + child.elems()) + extra.elems() =~= a + (child.elems()
                                    + extra.elems()));
                                assert(a + (oldb.entries@[n0 - 1].node.elems() + gb.elems()) =~= (a
                                    + oldb.entries@[n0 - 1].node.elems()) + gb.elems());
                                assert(ga.elems() =~= a + oldb.entries@[n0 - 1].node.elems());
                                assert(joined.all_elems() + extra.elems() == ga.elems()
                                    + gb.elems());
                            }
                            let einfo = extra.slice_info();
                            let n_now = children.len();
                            let r2 = children.insert_child(
                                n_now,
                                einfo,
                                extra,
                                MAX_CHILDREN,
                                Ghost(h),
                            );
                            proof {
                                assert(entries_elems_range(joined, n0, n0) =~= Seq::<M>::empty());
                                crate::widths::lemma_width_sum_nonneg(ga.elems() + gb.elems());
                            }
                            match r2 {
                                None => {
                                    proof {
                                        assert(children.all_elems() =~= ga.elems() + gb.elems());
                                        lemma_branch_pack(*children, h);
                                    }
                                    None
                                },
                                Some(rcb) => {
                                    proof {
                                        assert(children.all_elems() + rcb.all_elems() =~= ga.elems()
                                            + gb.elems());
                                        lemma_width_sum_concat(
                                            children.all_elems(),
                                            rcb.all_elems(),
                                        );
                                        crate::widths::lemma_width_sum_nonneg(
                                            children.all_elems(),
                                        );
                                        crate::widths::lemma_width_sum_nonneg(rcb.all_elems());
                                        lemma_range_one(*children, 0);
                                        lemma_range_split(
                                            *children,
                                            0,
                                            1,
                                            children.entries@.len() as int,
                                        );
                                        crate::widths::lemma_width_sum_nonneg(
                                            entries_elems_range(
                                                *children,
                                                1,
                                                children.entries@.len() as int,
                                            ),
                                        );
                                        lemma_branch_pack(*children, h);
                                        lemma_branch_pack(rcb, h);
                                    }
                                    Some(Box::new(Node::Branch(rcb)))
                                },
                            }
                        },
                    }
                },
            }
        }
    }

    /// The mirror of `append_at_depth`: concatenates `other` onto the left
    /// edge, descending the left spine.
    #[verifier::spinoff_prover]
    #[verifier::rlimit(100)]
    pub fn prepend_at_depth(&mut self, other: Box<Node<M>>, depth: usize) -> (r: Option<
        Box<Node<M>>,
    >)
        requires
            old(self).inv(),
            other.inv(),
            other.height() + depth == old(self).height(),
            old(self).elems().len() > 0,
            other.elems().len() > 0,
            old(self).elems().len() + other.elems().len() <= usize::MAX,
            width_sum(old(self).elems()) + width_sum(other.elems()) <= usize::MAX,
        ensures
            final(self).inv(),
            final(self).height() == old(self).height(),
            final(self).elems().len() > 0,
            match r {
                None => final(self).elems() == other.elems() + old(self).elems(),
                Some(n2) => n2.elems() + final(self).elems() == other.elems() + old(self).elems()
                    && n2.inv() && n2.height() == old(self).height() && n2.elems().len() > 0,
            },
            (depth == 0 && (*old(self)) is Branch) ==> {
                let cl = other.as_branch().entries@.len();
                let cr = old(self).as_branch().entries@.len();
                &&& ((*other) is Branch)
                &&& ((r is None) <==> cl + cr <= MAX_CHILDREN)
                &&& (r is None ==> final(self).as_branch().entries@.len() == cl + cr)
                &&& (r is Some ==> MIN_CHILDREN <= final(self).as_branch().entries@.len()
                    <= MAX_CHILDREN && MIN_CHILDREN <= r.unwrap().as_branch().entries@.len()
                    <= MAX_CHILDREN)
            },
        decreases depth,
    {
        let ghost ga = *old(self);
        let ghost gb = *other;
        proof {
            crate::widths::lemma_width_sum_nonneg(ga.elems());
            crate::widths::lemma_width_sum_nonneg(gb.elems());
        }
        if depth == 0 {
            match self {
                Node::Leaf(_) => Some(other),
                Node::Branch(children) => {
                    proof {
                        lemma_branch_parts(ga);
                        lemma_branch_parts(gb);
                    }
                    let ghost h = (ga.height() - 1) as nat;
                    let on = *other;
                    let mut c2 = match on {
                        Node::Branch(c) => c,
                        Node::Leaf(_) => vstd::pervasive::unreached(),
                    };
                    let ghost oldc1 = *children;
                    if children.len() + c2.len() <= MAX_CHILDREN {
                        c2.entries.append(&mut children.entries);
                        children.entries.append(&mut c2.entries);
                        proof {
                            lemma_entries_concat_elems(gb.as_branch(), oldc1, *children);
                            assert(children.entries@ + c2.entries@ =~= gb.as_branch().entries@
                                + oldc1.entries@);
                            lemma_kids_carry(gb.as_branch(), oldc1, *children, c2, h);
                            lemma_width_sum_concat(gb.elems(), ga.elems());
                            lemma_branch_pack(*children, h);
                        }
                        None
                    } else {
                        c2.distribute_with(children);
                        proof {
                            lemma_entries_redistribute_elems(gb.as_branch(), oldc1, c2, *children);
                            lemma_kids_carry(gb.as_branch(), oldc1, c2, *children, h);
                            lemma_width_sum_concat(c2.all_elems(), children.all_elems());
                            crate::widths::lemma_width_sum_nonneg(children.all_elems());
                            crate::widths::lemma_width_sum_nonneg(c2.all_elems());
                            lemma_width_sum_concat(gb.elems(), ga.elems());
                            lemma_range_one(*children, 0);
                            lemma_range_split(*children, 0, 1, children.entries@.len() as int);
                            crate::widths::lemma_width_sum_nonneg(
                                entries_elems_range(*children, 1, children.entries@.len() as int),
                            );
                            lemma_range_one(c2, 0);
                            lemma_range_split(c2, 0, 1, c2.entries@.len() as int);
                            crate::widths::lemma_width_sum_nonneg(
                                entries_elems_range(c2, 1, c2.entries@.len() as int),
                            );
                            lemma_branch_pack(*children, h);
                            lemma_branch_pack(c2, h);
                        }
                        Some(Box::new(Node::Branch(c2)))
                    }
                },
            }
        } else {
            match self {
                Node::Leaf(_) => vstd::pervasive::unreached(),
                Node::Branch(children) => {
                    proof {
                        lemma_branch_parts(ga);
                    }
                    let ghost h = (ga.height() - 1) as nat;
                    let ghost oldb = ga.as_branch();
                    let ghost n0 = oldb.entries@.len() as int;
                    let e = children.remove(0);
                    let mut child = e.node;
                    proof {
                        lemma_child_in_all(oldb, 0);
                        oldb.lemma_prefix_in_bounds(0);
                        crate::widths::lemma_width_sum_subrange_le(
                            oldb.all_elems(),
                            0,
                            oldb.entries@[0].node.elems().len() as int,
                        );
                    }
                    let res = child.prepend_at_depth(other, depth - 1);
                    let info = child.slice_info();
                    children.insert(0, info, child);
                    let ghost joined = *children;
                    proof {
                        assert(joined.entries@.len() == n0);
                        assert(forall|k: int|
                            0 <= k < n0 - 1 ==> (#[trigger] joined.entries@[1 + k])
                                == oldb.entries@[1 + k]);
                        lemma_splice_elems(oldb, joined, 0, 1, 1);
                        lemma_range_one(joined, 0);
                        assert(entries_elems_range(oldb, 0, 0) =~= Seq::<M>::empty());
                        assert forall|k: int| 0 <= k < joined.entries@.len() implies {
                            let en = #[trigger] joined.entries@[k];
                            entry_ok(en) && en.node.inv() && en.node.height() == h
                        } by {
                            if k >= 1 {
                                assert(joined.entries@[1 + (k - 1)] == oldb.entries@[1 + (k - 1)]);
                                assert(entry_ok(oldb.entries@[k]) && oldb.entries@[k].node.inv()
                                    && oldb.entries@[k].node.height() == h);
                            }
                        }
                        lemma_range_split(oldb, 0, 1, n0);
                        lemma_range_one(oldb, 0);
                        lemma_width_sum_concat(gb.elems(), ga.elems());
                    }
                    match res {
                        None => {
                            proof {
                                assert(joined.all_elems() =~= gb.elems() + ga.elems());
                                lemma_branch_pack(joined, h);
                            }
                            None
                        },
                        Some(extra) => {
                            proof {
                                let b = entries_elems_range(oldb, 1, n0);
                                assert(joined.all_elems() =~= child.elems() + b);
                                assert(extra.elems() + (child.elems() + b) =~= (extra.elems()
                                    + child.elems()) + b);
                                assert((gb.elems() + oldb.entries@[0].node.elems()) + b
                                    =~= gb.elems() + (oldb.entries@[0].node.elems() + b));
                                assert(ga.elems() =~= oldb.entries@[0].node.elems() + b);
                                assert(extra.elems() + joined.all_elems() == gb.elems()
                                    + ga.elems());
                            }
                            let einfo = extra.slice_info();
                            let r2 = children.insert_child(0, einfo, extra, MAX_CHILDREN, Ghost(h));
                            proof {
                                assert(entries_elems_range(joined, 0, 0) =~= Seq::<M>::empty());
                                crate::widths::lemma_width_sum_nonneg(gb.elems() + ga.elems());
                            }
                            match r2 {
                                None => {
                                    proof {
                                        assert(children.all_elems() =~= gb.elems() + ga.elems());
                                        lemma_branch_pack(*children, h);
                                    }
                                    None
                                },
                                Some(rcb) => {
                                    let mut keep = rcb;
                                    core::mem::swap(children, &mut keep);
                                    proof {
                                        assert(keep.all_elems() + children.all_elems()
                                            =~= gb.elems() + ga.elems());
                                        lemma_width_sum_concat(
                                            keep.all_elems(),
                                            children.all_elems(),
                                        );
                                        crate::widths::lemma_width_sum_nonneg(
                                            children.all_elems(),
                                        );
                                        crate::widths::lemma_width_sum_nonneg(keep.all_elems());
                                        lemma_range_one(keep, 0);
                                        lemma_range_split(keep, 0, 1, keep.entries@.len() as int);
                                        crate::widths::lemma_width_sum_nonneg(
                                            entries_elems_range(keep, 1, keep.entries@.len() as int),
                                        );
                                        lemma_branch_pack(*children, h);
                                        lemma_branch_pack(keep, h);
                                    }
                                    Some(Box::new(Node::Branch(keep)))
                                },
                            }
                        },
                    }
                },
            }
        }
    }

    /// Descends to the chunk at `width` and edits it in place by inserting
    /// `ins` at the end-biased boundary of the coordinate, so that a run of
    /// zero-width elements there ends up before the insertion; a chunk or
    /// branch that overflows splits, handing a residual right sibling
    /// upward. The descent deliberately uses the end-biased search rather
    /// than a plain lower bound: the plain bound would let the insertion
    /// point inside a zero-width run depend on where the chunk boundaries
    /// happen to fall, while the end bias fixes it at the run's end, which
    /// is what the exact contract below pins down. On the way down, a full
    /// branch of badly fragmented leaves is compacted first.
    #[verifier::spinoff_prover]
    #[verifier::rlimit(100)]
    pub fn edit_chunk_at_width(&mut self, width: usize, node_info: SliceInfo, ins: &[M]) -> (r: (
        SliceInfo,
        Option<(SliceInfo, Box<Node<M>>)>,
    ))
        requires
            old(self).inv(),
            width <= width_sum(old(self).elems()),
            node_info.len == old(self).elems().len(),
            node_info.width == width_sum(old(self).elems()),
            0 < ins@.len() <= MAX_LEN,
            old(self).elems().len() + ins@.len() <= usize::MAX,
            width_sum(old(self).elems()) + width_sum(ins@) <= usize::MAX,
            width_sum(ins@) >= 0,
        ensures
            final(self).inv(),
            final(self).height() == old(self).height(),
            final(self).elems().len() > 0,
            r.0.len == final(self).elems().len(),
            r.0.width == width_sum(final(self).elems()),
            ({
                let olde = old(self).elems();
                let k = end_wti(olde, width as int);
                let total = olde.take(k) + ins@ + olde.skip(k);
                match r.1 {
                    None => final(self).elems() == total,
                    Some((ri, rn)) => {
                        &&& final(self).elems() + rn.elems() == total
                        &&& rn.inv()
                        &&& ri.len == rn.elems().len()
                        &&& ri.width == width_sum(rn.elems())
                        &&& rn.height() == old(self).height()
                        &&& rn.elems().len() > 0
                    },
                }
            }),
            ((*old(self)) is Leaf && old(self).elems().len() + ins@.len() <= MAX_LEN)
                ==> (*final(self)) is Leaf && r.1 is None,
        decreases old(self).height(), 1int,
    {
        let ghost olde = old(self).elems();
        proof {
            crate::widths::lemma_end_wti_bounds(olde, width as int);
            crate::widths::lemma_width_sum_nonneg(olde);
        }
        match self {
            Node::Leaf(leaf) => {
                let idx = crate::widths::end_width_to_index(leaf.as_slice(), width);
                leaf.insert_slice(idx, ins);
                let ghost k = idx as int;
                let ghost total = olde.take(k) + ins@ + olde.skip(k);
                proof {
                    crate::widths::lemma_width_sum_split(olde, k);
                    lemma_width_sum_concat(olde.take(k) + ins@, olde.skip(k));
                    lemma_width_sum_concat(olde.take(k), ins@);
                    assert(leaf@ =~= (olde.take(k) + ins@) + olde.skip(k));
                    crate::widths::lemma_width_sum_nonneg(olde.take(k));
                    crate::widths::lemma_width_sum_nonneg(olde.skip(k));
                }
                if leaf.len() <= MAX_LEN {
                    let info = SliceInfo::from_slice(leaf.as_slice());
                    (info, None)
                } else {
                    let t = leaf.len();
                    let left = (t + 1) / 2;
                    let tail = leaf.split_off(left);
                    proof {
                        crate::widths::lemma_width_sum_split(total, left as int);
                        crate::widths::lemma_width_sum_nonneg(total.take(left as int));
                        crate::widths::lemma_width_sum_nonneg(total.skip(left as int));
                    }
                    let info = SliceInfo::from_slice(leaf.as_slice());
                    let rinfo = SliceInfo::from_slice(tail.as_slice());
                    (info, Some((rinfo, Box::new(Node::Leaf(tail)))))
                }
            },
            Node::Branch(children) => {
                proof {
                    lemma_branch_parts(*old(self));
                }
                let ghost h = (old(self).height() - 1) as nat;
                if children.is_full() && children.entries[0].node.is_leaf() {
                    let ci = children.combined_info();
                    if (ci.len as usize) < MAX_LEN * MIN_CHILDREN + MAX_LEN / 32 {
                        proof {
                            assert(children.entries@[0].node.height() == h);
                            assert(children.kids_height(0));
                        }
                        children.compact_leaves();
                        proof {
                            assert forall|i: int|
                                0 <= i < children.entries@.len() implies (
                            #[trigger] children.entries@[i]).node.height() == h by {
                                assert(children.entries@[i].node.height() == 0);
                            }
                        }
                    }
                }
                Self::edit_branch(children, width, ins, Ghost(h))
            },
        }
    }

    /// The branch half of `edit_chunk_at_width`: picks the child holding
    /// the end-biased boundary, recurses, and houses any residual.
    #[verifier::spinoff_prover]
    #[verifier::rlimit(100)]
    fn edit_branch(
        children: &mut BranchChildren<M>,
        width: usize,
        ins: &[M],
        height: Ghost<nat>,
    ) -> (r: (SliceInfo, Option<(SliceInfo, Box<Node<M>>)>))
        requires
            old(children).kids_ok(),
            old(children).kids_height(height@),
            1 <= old(children).entries@.len() <= MAX_CHILDREN,
            width <= width_sum(old(children).all_elems()),
            0 < ins@.len() <= MAX_LEN,
            old(children).all_elems().len() + ins@.len() <= usize::MAX,
            width_sum(old(children).all_elems()) + width_sum(ins@) <= usize::MAX,
            width_sum(ins@) >= 0,
        ensures
            Node::Branch(*final(children)).inv(),
            Node::Branch(*final(children)).height() == height@ + 1,
            final(children).all_elems().len() > 0,
            r.0.len == final(children).all_elems().len(),
            r.0.width == width_sum(final(children).all_elems()),
            ({
                let olde = old(children).all_elems();
                let k = end_wti(olde, width as int);
                let total = olde.take(k) + ins@ + olde.skip(k);
                match r.1 {
                    None => final(children).all_elems() == total,
                    Some((ri, rn)) => {
                        &&& final(children).all_elems() + rn.elems() == total
                        &&& rn.inv()
                        &&& ri.len == rn.elems().len()
                        &&& ri.width == width_sum(rn.elems())
                        &&& rn.height() == height@ + 1
                        &&& rn.elems().len() > 0
                    },
                }
            }),
        decreases height@, 2int,
    {
        let ghost h = height@;
        let ghost olde = old(children).all_elems();
        proof {
            crate::widths::lemma_end_wti_bounds(olde, width as int);
            crate::widths::lemma_width_sum_nonneg(olde);
        }
        let ghost b0 = *children;
        proof {
            assert(b0.all_elems() == olde);
            assert(b0.search_ready());
        }
        let (child_i, acc) = children.search_end_width(width);
        let ghost c_i = b0.entries@[child_i as int].node.elems();
        proof {
            b0.lemma_prefix_step(child_i as int);
            b0.lemma_prefix_in_bounds(child_i as int);
            b0.lemma_prefix_in_bounds(child_i + 1);
            lemma_child_in_all(b0, child_i as int);
            crate::widths::lemma_width_sum_subrange_le(
                olde,
                b0.prefix_len(child_i as int),
                b0.prefix_len(child_i as int) + c_i.len(),
            );
        }
        let e = children.remove(child_i);
        let mut child = e.node;
        let w2 = width - acc.width as usize;
        proof {
            assert(child.height() == h);
        }
        let (cinfo, cres) = child.edit_chunk_at_width(w2, e.info, ins);
        let ghost kc = end_wti(c_i, w2 as int);
        let ghost kg = b0.prefix_len(child_i as int) + kc;
        let ghost total = olde.take(kg) + ins@ + olde.skip(kg);
        proof {
            crate::widths::lemma_end_wti_bounds(c_i, w2 as int);
            assert(kg == end_wti(olde, width as int));
            let n0 = b0.entries@.len() as int;
            lemma_range_split(b0, 0, child_i as int, n0);
            lemma_range_split(b0, child_i as int, child_i + 1, n0);
            lemma_range_one(b0, child_i as int);
            let pre = entries_elems_range(b0, 0, child_i as int);
            let post = entries_elems_range(b0, child_i + 1, n0);
            assert(olde == pre + c_i + post) by {
                assert(olde =~= pre + (c_i + post));
                assert(pre + (c_i + post) =~= pre + c_i + post);
            }
            crate::widths::lemma_splice_insert(pre, c_i, post, kc, ins@);
            crate::widths::lemma_width_sum_split(olde, kg);
            crate::widths::lemma_width_sum_split(total, kg);
            lemma_width_sum_concat(olde.take(kg) + ins@, olde.skip(kg));
            lemma_width_sum_concat(olde.take(kg), ins@);
            crate::widths::lemma_width_sum_nonneg(olde.take(kg));
            crate::widths::lemma_width_sum_nonneg(olde.skip(kg));
        }
        children.insert(child_i, cinfo, child);
        let ghost joined = *children;
        proof {
            let n0 = b0.entries@.len() as int;
            assert(forall|k: int|
                0 <= k < child_i ==> (#[trigger] joined.entries@[0 + k]) == b0.entries@[0
                    + k]);
            assert(forall|k: int|
                0 <= k < n0 - (child_i + 1) ==> (#[trigger] joined.entries@[(child_i as int
                    + 1) + k]) == b0.entries@[(child_i + 1) + k]);
            Self::lemma_replace_child(b0, joined, child_i as int, h);
        }
        match cres {
            None => {
                proof {
                    let n0 = b0.entries@.len() as int;
                    let pre = entries_elems_range(b0, 0, child_i as int);
                    let post = entries_elems_range(b0, child_i + 1, n0);
                    assert(joined.all_elems() == total) by {
                        assert(joined.all_elems() =~= pre + (c_i.take(kc) + ins@ + c_i.skip(
                            kc,
                        )) + post);
                    }
                    lemma_branch_pack(joined, h);
                }
                proof {
                    assert(children.search_ready());
                }
                let info = children.combined_info();
                (info, None)
            },
            Some((ri, rn)) => {
                let r2 = children.insert_child(child_i + 1, ri, rn, MAX_CHILDREN, Ghost(h));
                proof {
                    let n0 = b0.entries@.len() as int;
                    let pre = entries_elems_range(b0, 0, child_i as int);
                    let post = entries_elems_range(b0, child_i + 1, n0);
                    lemma_range_split(joined, 0, child_i + 1, joined.entries@.len() as int);
                }
                match r2 {
                    None => {
                        proof {
                            let n0 = b0.entries@.len() as int;
                            let pre = entries_elems_range(b0, 0, child_i as int);
                            let post = entries_elems_range(b0, child_i + 1, n0);
                            assert(children.all_elems() == total) by {
                                assert(children.all_elems() =~= pre + (c_i.take(kc) + ins@
                                    + c_i.skip(kc)) + post);
                            }
                            lemma_branch_pack(*children, h);
                        }
                        proof {
                            assert(children.search_ready());
                        }
                        let info = children.combined_info();
                        (info, None)
                    },
                    Some(rcb) => {
                        proof {
                            let n0 = b0.entries@.len() as int;
                            let pre = entries_elems_range(b0, 0, child_i as int);
                            let post = entries_elems_range(b0, child_i + 1, n0);
                            assert(children.all_elems() + rcb.all_elems() == total) by {
                                assert(children.all_elems() + rcb.all_elems() =~= pre + (
                                c_i.take(kc) + ins@ + c_i.skip(kc)) + post);
                            }
                            lemma_width_sum_concat(
                                children.all_elems(),
                                rcb.all_elems(),
                            );
                            crate::widths::lemma_width_sum_nonneg(children.all_elems());
                            crate::widths::lemma_width_sum_nonneg(rcb.all_elems());
                            lemma_range_one(*children, 0);
                            lemma_range_split(
                                *children,
                                0,
                                1,
                                children.entries@.len() as int,
                            );
                            crate::widths::lemma_width_sum_nonneg(
                                entries_elems_range(
                                    *children,
                                    1,
                                    children.entries@.len() as int,
                                ),
                            );
                            crate::widths::lemma_width_sum_nonneg(total);
                            lemma_branch_pack(*children, h);
                            lemma_branch_pack(rcb, h);
                        }
                        let info = children.combined_info();
                        let rnode = Node::Branch(rcb);
                        let rinfo = rnode.slice_info();
                        (info, Some((rinfo, Box::new(rnode))))
                    },
                }
            },
        }
    }

    /// Runs one child through a rebalancing callback: takes it out,
    /// recurses, puts it back with fresh caches. The run's elements do not
    /// change.
    fn fix_child(
        children: &mut BranchChildren<M>,
        i: usize,
        w: usize,
        height: Ghost<nat>,
    ) -> (r: bool)
        requires
            old(children).kids_ok(),
            old(children).kids_height(height@),
            i < old(children).entries@.len(),
            w <= width_sum(old(children).entries@[i as int].node.elems()),
        ensures
            final(children).all_elems() == old(children).all_elems(),
            final(children).kids_ok(),
            final(children).kids_height(height@),
            final(children).entries@.len() == old(children).entries@.len(),
            forall|k: int|
                0 <= k < old(children).entries@.len() && k != i
                    ==> (#[trigger] final(children).entries@[k]) == old(children).entries@[k],
            final(children).entries@[i as int].node.elems() == old(
                children,
            ).entries@[i as int].node.elems(),
            !r ==> final(children).entries@[i as int].node.spec_undersized() == old(
                children,
            ).entries@[i as int].node.spec_undersized()
                && final(children).entries@[i as int].node.seam_settled(w as int),
        decreases height@, 3int,
    {
        let ghost b0 = *old(children);
        let ghost n0 = b0.entries@.len() as int;
        let e = children.remove(i);
        let mut child = e.node;
        proof {
            assert(child.height() == height@);
        }
        let r = child.fix_tree_seam(w);
        let info = child.slice_info();
        children.insert(i, info, child);
        proof {
            let joined = *children;
            assert(forall|k: int|
                0 <= k < i ==> (#[trigger] joined.entries@[0 + k]) == b0.entries@[0 + k]);
            assert(forall|k: int|
                0 <= k < n0 - (i + 1) ==> (#[trigger] joined.entries@[(i as int + 1) + k])
                    == b0.entries@[(i + 1) + k]);
            Self::lemma_replace_child(b0, joined, i as int, height@);
            lemma_range_split(b0, 0, i as int, n0);
            lemma_range_split(b0, i as int, i + 1, n0);
            lemma_range_one(b0, i as int);
            assert(joined.all_elems() =~= b0.all_elems());
        }
        r
    }

    /// Walks the left spine merging away undersized nodes, as far down as
    /// anything keeps changing. Returns whether this subtree changed in a
    /// way its parent might care about; a `false` answer certifies that the
    /// left spine is settled. The elements stay put.
    #[verifier::spinoff_prover]
    #[verifier::rlimit(100)]
    #[verifier::loop_isolation(false)]
    pub fn zip_fix_left(&mut self) -> (r: bool)
        requires
            old(self).inv(),
        ensures
            final(self).elems() == old(self).elems(),
            final(self).inv(),
            final(self).height() == old(self).height(),
            !r ==> final(self).spec_undersized() == old(self).spec_undersized(),
            !r ==> final(self).left_spine_settled(),
        decreases old(self).height(), 1int,
    {
        match self {
            Node::Leaf(_) => false,
            Node::Branch(children) => {
                proof {
                    lemma_branch_parts(*old(self));
                }
                let ghost h = (old(self).height() - 1) as nat;
                let info = children.combined_info();
                let mut fuel = (info.len as usize) / 2 + 2;
                let mut did = false;
                let mut progress = true;
                while progress && fuel > 0
                    invariant
                        children.kids_ok(),
                        children.kids_height(h),
                        children.all_elems() == old(self).elems(),
                        1 <= children.entries@.len() <= MAX_CHILDREN,
                        children.all_elems().len() <= usize::MAX,
                        width_sum(children.all_elems()) <= usize::MAX,
                        !did ==> children.entries@.len() == old(self).as_branch().entries@.len(),
                        !progress ==> (children.entries@.len() > 1
                            ==> !children.entries@[0].node.spec_undersized())
                            && children.entries@[0].node.left_spine_settled(),
                    decreases fuel,
                {
                    fuel = fuel - 1;
                    let n = children.len();
                    let mut fired = false;
                    if n > 1 && children.entries[0].node.is_undersized() {
                        children.merge_distribute(0, 1);
                        did = true;
                        fired = true;
                    }
                    let ghost b0 = *children;
                    let ghost n0 = b0.entries@.len() as int;
                    let e = children.remove(0);
                    let mut child = e.node;
                    proof {
                        assert(child.height() == h);
                    }
                    let cdid = child.zip_fix_left();
                    let cinfo = child.slice_info();
                    children.insert(0, cinfo, child);
                    proof {
                        let joined = *children;
                        assert(forall|k: int|
                            0 <= k < n0 - 1 ==> (#[trigger] joined.entries@[1 + k])
                                == b0.entries@[1 + k]);
                        Self::lemma_replace_child(b0, joined, 0, h);
                        lemma_range_split(b0, 0, 1, n0);
                        lemma_range_one(b0, 0);
                        assert(entries_elems_range(b0, 0, 0) =~= Seq::<M>::empty());
                        assert(joined.all_elems() =~= b0.all_elems());
                    }
                    progress = cdid || fired;
                }
                if progress {
                    did = true;
                }
                proof {
                    lemma_branch_pack(*children, h);
                }
                did
            },
        }
    }

    /// Walks the right spine merging away undersized nodes, the mirror of
    /// `zip_fix_left`: a `false` answer certifies that the right spine is
    /// settled.
    #[verifier::spinoff_prover]
    #[verifier::rlimit(100)]
    #[verifier::loop_isolation(false)]
    pub fn zip_fix_right(&mut self) -> (r: bool)
        requires
            old(self).inv(),
        ensures
            final(self).elems() == old(self).elems(),
            final(self).inv(),
            final(self).height() == old(self).height(),
            !r ==> final(self).spec_undersized() == old(self).spec_undersized(),
            !r ==> final(self).right_spine_settled(),
        decreases old(self).height(), 1int,
    {
        match self {
            Node::Leaf(_) => false,
            Node::Branch(children) => {
                proof {
                    lemma_branch_parts(*old(self));
                }
                let ghost h = (old(self).height() - 1) as nat;
                let info = children.combined_info();
                let mut fuel = (info.len as usize) / 2 + 2;
                let mut did = false;
                let mut progress = true;
                while progress && fuel > 0
                    invariant
                        children.kids_ok(),
                        children.kids_height(h),
                        children.all_elems() == old(self).elems(),
                        1 <= children.entries@.len() <= MAX_CHILDREN,
                        children.all_elems().len() <= usize::MAX,
                        width_sum(children.all_elems()) <= usize::MAX,
                        !did ==> children.entries@.len() == old(self).as_branch().entries@.len(),
                        !progress ==> (children.entries@.len() > 1 ==> !children.entries@[
                        children.entries@.len() - 1].node.spec_undersized())
                            && children.entries@[children.entries@.len()
                            - 1].node.right_spine_settled(),
                    decreases fuel,
                {
                    fuel = fuel - 1;
                    let n = children.len();
                    let mut fired = false;
                    if n > 1 && children.entries[n - 1].node.is_undersized() {
                        children.merge_distribute(n - 2, n - 1);
                        did = true;
                        fired = true;
                    }
                    let ghost b0 = *children;
                    let ghost n0 = b0.entries@.len() as int;
                    let last = children.len() - 1;
                    let e = children.remove(last);
                    let mut child = e.node;
                    proof {
                        assert(child.height() == h);
                    }
                    let cdid = child.zip_fix_right();
                    let cinfo = child.slice_info();
                    children.insert(last, cinfo, child);
                    proof {
                        let joined = *children;
                        assert(forall|k: int|
                            0 <= k < n0 - 1 ==> (#[trigger] joined.entries@[0 + k])
                                == b0.entries@[0 + k]);
                        Self::lemma_replace_child(b0, joined, n0 - 1, h);
                        lemma_range_split(b0, 0, n0 - 1, n0);
                        lemma_range_one(b0, n0 - 1);
                        assert(entries_elems_range(b0, n0, n0) =~= Seq::<M>::empty());
                        assert(joined.all_elems() =~= b0.all_elems());
                    }
                    progress = cdid || fired;
                }
                if progress {
                    did = true;
                }
                proof {
                    lemma_branch_pack(*children, h);
                }
                did
            },
        }
    }

    /// Mends the seam at width `widt` left by a removal or a
    /// concatenation: merges undersized children on either side of the
    /// coordinate and recurses along it until nothing changes. Returns
    /// whether this subtree changed in a way its parent might care about; a
    /// `false` answer certifies that the seam is settled. The elements
    /// stay put.
    #[verifier::spinoff_prover]
    #[verifier::rlimit(100)]
    #[verifier::loop_isolation(false)]
    pub fn fix_tree_seam(&mut self, widt: usize) -> (r: bool)
        requires
            old(self).inv(),
            widt <= width_sum(old(self).elems()),
        ensures
            final(self).elems() == old(self).elems(),
            final(self).inv(),
            final(self).height() == old(self).height(),
            !r ==> final(self).spec_undersized() == old(self).spec_undersized(),
            !r ==> final(self).seam_settled(widt as int),
        decreases old(self).height(), 2int,
    {
        match self {
            Node::Leaf(_) => false,
            Node::Branch(children) => {
                proof {
                    lemma_branch_parts(*old(self));
                }
                let ghost h = (old(self).height() - 1) as nat;
                let info = children.combined_info();
                let mut fuel = (info.len as usize) / 2 + 2;
                let mut did = false;
                let mut progress = true;
                while progress && fuel > 0
                    invariant
                        children.kids_ok(),
                        children.kids_height(h),
                        children.all_elems() == old(self).elems(),
                        1 <= children.entries@.len() <= MAX_CHILDREN,
                        children.all_elems().len() <= usize::MAX,
                        width_sum(children.all_elems()) <= usize::MAX,
                        widt <= width_sum(children.all_elems()),
                        !did ==> children.entries@.len() == old(self).as_branch().entries@.len(),
                        !progress ==> Node::Branch(*children).seam_settled(widt as int),
                    decreases fuel,
                {
                    fuel = fuel - 1;
                    let n = children.len();
                    let (child_i, sinfo) = children.search_start_width(widt);
                    let mut fired = false;
                    if n > 1 {
                        let mut do_merge = children.entries[child_i].node.is_undersized();
                        if child_i == 0 {
                            if do_merge {
                                children.merge_distribute(0, 1);
                                did = true;
                                fired = true;
                            }
                        } else {
                            if !do_merge {
                                do_merge = sinfo.width == widt as u64 && children.entries[child_i
                                    - 1].node.is_undersized();
                            }
                            if do_merge {
                                children.merge_distribute(child_i - 1, child_i);
                                did = true;
                                fired = true;
                            }
                        }
                    }
                    if fired {
                        continue ;
                    }
                    // The child list is as the search saw it.
                    let ghost bsearch = *children;
                    if sinfo.width == widt as u64 && child_i != 0 {
                        let tmpw = children.entries[child_i - 1].info.width;
                        let effect_1 = Self::fix_child(
                            children,
                            child_i - 1,
                            tmpw as usize,
                            Ghost(h),
                        );
                        let effect_2 = Self::fix_child(children, child_i, 0, Ghost(h));
                        progress = effect_1 || effect_2;
                        proof {
                            if !progress {
                                let fin = *children;
                                lemma_range_congruent(
                                    fin,
                                    bsearch,
                                    0,
                                    child_i as int,
                                    0,
                                    child_i as int,
                                );
                                assert(fin.prefix_width(child_i as int) == bsearch.prefix_width(
                                    child_i as int,
                                ));
                                assert(fin.entries@[child_i - 1] == bsearch.entries@[child_i - 1]
                                    || fin.entries@[child_i - 1].node.elems() == bsearch.entries@[
                                child_i - 1].node.elems());
                                assert(seam_witness(fin, child_i as int, widt as int));
                            }
                        }
                    } else {
                        let w2 = widt - sinfo.width as usize;
                        let effect = Self::fix_child(children, child_i, w2, Ghost(h));
                        progress = effect;
                        proof {
                            if !progress {
                                let fin = *children;
                                lemma_range_congruent(
                                    fin,
                                    bsearch,
                                    0,
                                    child_i as int,
                                    0,
                                    child_i as int,
                                );
                                assert(fin.prefix_width(child_i as int) == bsearch.prefix_width(
                                    child_i as int,
                                ));
                                assert(seam_witness(fin, child_i as int, widt as int));
                            }
                        }
                    }
                }
                if progress {
                    did = true;
                }
                proof {
                    lemma_branch_pack(*children, h);
                }
                did
            },
        }
    }

    /// Appends every element of the subtree, in order, to `out`.
    pub fn collect_into(&self, out: &mut Vec<M>)
        requires
            self.inv(),
        ensures
            final(out)@ == old(out)@ + self.elems(),
        decreases self,
    {
        match self {
            Node::Leaf(leaf) => {
                let s = leaf.as_slice();
                let n = s.len();
                let mut i: usize = 0;
                proof {
                    assert(out@ =~= old(out)@ + s@.take(0));
                }
                while i < n
                    invariant
                        0 <= i <= n,
                        n == s@.len(),
                        out@ == old(out)@ + s@.take(i as int),
                    decreases n - i,
                {
                    out.push(s[i]);
                    proof {
                        assert(old(out)@ + s@.take(i + 1) =~= (old(out)@ + s@.take(i as int)).push(
                            s@[i as int],
                        ));
                    }
                    i = i + 1;
                }
                proof {
                    assert(s@.take(n as int) =~= s@);
                }
            },
            Node::Branch(children) => {
                let n = children.len();
                let mut i: usize = 0;
                proof {
                    assert(out@ =~= old(out)@ + entries_elems_range(*children, 0, 0));
                }
                while i < n
                    invariant
                        0 <= i <= n,
                        n == children.entries@.len(),
                        self.inv(),
                        *self == Node::<M>::Branch(*children),
                        out@ == old(out)@ + entries_elems_range(*children, 0, i as int),
                    decreases n - i,
                {
                    proof {
                        assert(children.entries@[i as int].node.inv() && entry_ok(
                            children.entries@[i as int],
                        ));
                        children.lemma_prefix_step(i as int);
                    }
                    children.entries[i].node.collect_into(out);
                    proof {
                        assert(out@ =~= old(out)@ + entries_elems_range(*children, 0, i + 1));
                    }
                    i = i + 1;
                }
            },
        }
    }

    /// Joins two sibling subtrees of equal height: into one node when the
    /// contents fit, otherwise into two nodes that share the contents with
    /// both at a legal size.
    pub fn merge_nodes(a: Box<Node<M>>, b: Box<Node<M>>) -> (r: (
        Box<Node<M>>,
        Option<Box<Node<M>>>,
    ))
        requires
            a.inv(),
            b.inv(),
            a.height() == b.height(),
            a.elems().len() > 0,
            b.elems().len() > 0,
            a.elems().len() + b.elems().len() <= usize::MAX,
            width_sum(a.elems()) + width_sum(b.elems()) <= usize::MAX,
        ensures
            r.0.inv(),
            r.0.height() == a.height(),
            r.0.elems().len() > 0,
            a.height() == 0 && a.elems().len() + b.elems().len() <= MAX_LEN ==> r.1 is None,
            match r.1 {
                None => r.0.elems() == a.elems() + b.elems(),
                Some(n2) => {
                    &&& r.0.elems() + n2.elems() == a.elems() + b.elems()
                    &&& n2.inv()
                    &&& n2.height() == a.height()
                    &&& n2.elems().len() > 0
                    &&& !r.0.spec_undersized()
                    &&& !n2.spec_undersized()
                },
            },
    {
        let ghost ga = *a;
        let ghost gb = *b;
        proof {
            crate::widths::lemma_width_sum_nonneg(ga.elems());
            crate::widths::lemma_width_sum_nonneg(gb.elems());
            lemma_width_sum_concat(ga.elems(), gb.elems());
        }
        let an = *a;
        let bn = *b;
        match an {
            Node::Leaf(mut l1) => {
                let mut l2 = match bn {
                    Node::Leaf(l) => l,
                    Node::Branch(_) => vstd::pervasive::unreached(),
                };
                if l1.len() + l2.len() <= MAX_LEN {
                    l1.append(&mut l2);
                    (Box::new(Node::Leaf(l1)), None)
                } else {
                    let total = l1.len() + l2.len();
                    let target = (total + 1) / 2;
                    if l1.len() > target {
                        let mut t = l1.split_off(target);
                        t.append(&mut l2);
                        l2 = t;
                        proof {
                            assert(l1@ + l2@ =~= a.elems() + b.elems());
                        }
                    } else if l1.len() < target {
                        let k = target - l1.len();
                        let rest = l2.split_off(k);
                        l1.append(&mut l2);
                        l2 = rest;
                        proof {
                            assert(l1@ + l2@ =~= a.elems() + b.elems());
                        }
                    }
                    proof {
                        lemma_width_sum_concat(l1@, l2@);
                        crate::widths::lemma_width_sum_nonneg(l1@);
                        crate::widths::lemma_width_sum_nonneg(l2@);
                    }
                    (Box::new(Node::Leaf(l1)), Some(Box::new(Node::Leaf(l2))))
                }
            },
            Node::Branch(mut c1) => {
                let mut c2 = match bn {
                    Node::Branch(c) => c,
                    Node::Leaf(_) => vstd::pervasive::unreached(),
                };
                proof {
                    lemma_branch_parts(ga);
                    lemma_branch_parts(gb);
                }
                let ghost h = (ga.height() - 1) as nat;
                if c1.len() + c2.len() <= MAX_CHILDREN {
                    c1.entries.append(&mut c2.entries);
                    proof {
                        lemma_entries_concat_elems(ga.as_branch(), gb.as_branch(), c1);
                        assert(c1.entries@ + c2.entries@ =~= ga.as_branch().entries@
                            + gb.as_branch().entries@);
                        lemma_kids_carry(ga.as_branch(), gb.as_branch(), c1, c2, h);
                        lemma_branch_pack(c1, h);
                    }
                    (Box::new(Node::Branch(c1)), None)
                } else {
                    c1.distribute_with(&mut c2);
                    proof {
                        lemma_entries_redistribute_elems(ga.as_branch(), gb.as_branch(), c1, c2);
                        lemma_kids_carry(ga.as_branch(), gb.as_branch(), c1, c2, h);
                        lemma_width_sum_concat(c1.all_elems(), c2.all_elems());
                        crate::widths::lemma_width_sum_nonneg(c1.all_elems());
                        crate::widths::lemma_width_sum_nonneg(c2.all_elems());
                        lemma_range_one(c1, 0);
                        lemma_range_split(c1, 0, 1, c1.entries@.len() as int);
                        crate::widths::lemma_width_sum_nonneg(
                            entries_elems_range(c1, 1, c1.entries@.len() as int),
                        );
                        lemma_range_one(c2, 0);
                        lemma_range_split(c2, 0, 1, c2.entries@.len() as int);
                        crate::widths::lemma_width_sum_nonneg(
                            entries_elems_range(c2, 1, c2.entries@.len() as int),
                        );
                        lemma_branch_pack(c1, h);
                        lemma_branch_pack(c2, h);
                    }
                    (Box::new(Node::Branch(c1)), Some(Box::new(Node::Branch(c2))))
                }
            },
        }
    }
}

/// Splicing a children run: entries before `i` and from `j` on keep their
/// elements, with `mid` fresh entries in between.
pub proof fn lemma_splice_elems<M: Measurable>(
    oldb: BranchChildren<M>,
    newb: BranchChildren<M>,
    i: int,
    j: int,
    mid: int,
)
    requires
        0 <= i <= j <= oldb.entries@.len(),
        0 <= mid,
        i + mid <= newb.entries@.len(),
        newb.entries@.len() - (i + mid) == oldb.entries@.len() - j,
        forall|k: int|
            0 <= k < i ==> (#[trigger] newb.entries@[0 + k]).node.elems() == oldb.entries@[0
                + k].node.elems(),
        forall|k: int|
            0 <= k < oldb.entries@.len() - j ==> (#[trigger] newb.entries@[(i + mid)
                + k]).node.elems() == oldb.entries@[j + k].node.elems(),
    ensures
        newb.all_elems() == entries_elems_range(oldb, 0, i) + entries_elems_range(newb, i, i + mid)
            + entries_elems_range(oldb, j, oldb.entries@.len() as int),
{
    let n_new = newb.entries@.len() as int;
    let n_old = oldb.entries@.len() as int;
    lemma_range_congruent(newb, oldb, 0, i, 0, i);
    lemma_range_congruent(newb, oldb, i + mid, n_new, j, n_old);
    lemma_range_split(newb, 0, i, n_new);
    lemma_range_split(newb, i, i + mid, n_new);
    assert((entries_elems_range(oldb, 0, i) + (entries_elems_range(newb, i, i + mid)
        + entries_elems_range(oldb, j, n_old))) =~= (entries_elems_range(oldb, 0, i)
        + entries_elems_range(newb, i, i + mid)) + entries_elems_range(oldb, j, n_old));
}

/// A tree within the minimum-size bounds cannot be deeper than it has
/// elements: every level multiplies the content, so the height fits any
/// machine measure the length fits.
pub proof fn lemma_size_bounds_height<M: Measurable>(n: Node<M>)
    requires
        n.inv(),
        n.size_ok(true),
    ensures
        n is Branch ==> n.height() < n.elems().len(),
        n.height() <= n.elems().len(),
{
    match n {
        Node::Leaf(_) => {},
        Node::Branch(b) => {
            lemma_branch_parts(n);
            assert(b.entries@[0].node.inv() && b.entries@[0].node.size_ok(false));
            assert(b.entries@[1].node.inv() && entry_ok(b.entries@[1]));
            lemma_size_bounds_height_sub(b.entries@[0].node);
            lemma_range_split(b, 0, 1, b.entries@.len() as int);
            lemma_range_split(b, 1, 2, b.entries@.len() as int);
            lemma_range_one(b, 0);
            lemma_range_one(b, 1);
            assert(n.elems().len() >= b.entries@[0].node.elems().len()
                + b.entries@[1].node.elems().len());
        },
    }
}

/// The non-root form of the same bound.
pub proof fn lemma_size_bounds_height_sub<M: Measurable>(n: Box<Node<M>>)
    requires
        n.inv(),
        n.size_ok(false),
    ensures
        n.height() + 1 <= n.elems().len(),
    decreases *n,
{
    match *n {
        Node::Leaf(_) => {},
        Node::Branch(b) => {
            lemma_branch_parts(*n);
            assert(b.entries@.len() >= MIN_CHILDREN);
            assert(b.entries@[0].node.inv() && b.entries@[0].node.size_ok(false) && entry_ok(
                b.entries@[0],
            ));
            assert(b.entries@[1].node.inv() && entry_ok(b.entries@[1]));
            lemma_size_bounds_height_sub(b.entries@[0].node);
            lemma_range_split(b, 0, 1, b.entries@.len() as int);
            lemma_range_split(b, 1, 2, b.entries@.len() as int);
            lemma_range_one(b, 0);
            lemma_range_one(b, 1);
            assert(n.elems().len() >= b.entries@[0].node.elems().len()
                + b.entries@[1].node.elems().len());
        },
    }
}

/// A child's elements sit in the branch's elements as one contiguous run.
pub proof fn lemma_child_in_all<M: Measurable>(b: BranchChildren<M>, i: int)
    requires
        0 <= i < b.entries@.len(),
    ensures
        b.all_elems() == entries_elems_range(b, 0, i) + b.entries@[i].node.elems()
            + entries_elems_range(b, i + 1, b.entries@.len() as int),
        b.entries@[i].node.elems() == b.all_elems().subrange(
            b.prefix_len(i),
            b.prefix_len(i) + b.entries@[i].node.elems().len() as int,
        ),
{
    let n = b.entries@.len() as int;
    lemma_range_split(b, 0, i, n);
    lemma_range_split(b, i, i + 1, n);
    lemma_range_one(b, i);
    assert(b.all_elems() =~= entries_elems_range(b, 0, i) + b.entries@[i].node.elems()
        + entries_elems_range(b, i + 1, n));
    assert(b.entries@[i].node.elems() =~= b.all_elems().subrange(
        b.prefix_len(i),
        b.prefix_len(i) + b.entries@[i].node.elems().len() as int,
    ));
}

/// Runs of children with the same child nodes have the same elements.
pub proof fn lemma_range_congruent<M: Measurable>(
    b1: BranchChildren<M>,
    b2: BranchChildren<M>,
    i1: int,
    j1: int,
    i2: int,
    j2: int,
)
    requires
        0 <= i1 <= j1 <= b1.entries@.len(),
        0 <= i2 <= j2 <= b2.entries@.len(),
        j1 - i1 == j2 - i2,
        forall|k: int|
            0 <= k < j1 - i1 ==> (#[trigger] b1.entries@[i1 + k]).node.elems() == b2.entries@[i2
                + k].node.elems(),
    ensures
        entries_elems_range(b1, i1, j1) == entries_elems_range(b2, i2, j2),
    decreases j1 - i1,
{
    if i1 < j1 {
        assert(b1.entries@[i1 + 0].node.elems() == b2.entries@[i2 + 0].node.elems());
        assert(forall|k: int|
            0 <= k < j1 - (i1 + 1) ==> (#[trigger] b1.entries@[i1 + 1 + k]).node.elems()
                == b2.entries@[i2 + 1 + k].node.elems()) by {
            assert(forall|k: int|
                0 <= k < j1 - (i1 + 1) ==> (#[trigger] b1.entries@[i1 + 1 + k]).node
                    == b1.entries@[i1 + (k + 1)].node && b2.entries@[i2 + 1 + k].node
                    == b2.entries@[i2 + (k + 1)].node);
        }
        lemma_range_congruent(b1, b2, i1 + 1, j1, i2 + 1, j2);
    }
}

} // verus!
