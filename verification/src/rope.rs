use vstd::prelude::*;

use crate::measurable::Measurable;
use crate::node::Node;
use crate::node::MAX_LEN;
use crate::rope_builder::RopeBuilder;
use crate::slice_info::SliceInfo;
use crate::widths::end_wti;
use crate::widths::lemma_end_wti_all;
use crate::widths::lemma_end_wti_bounds;
use crate::widths::lemma_start_wti_bounds;
use crate::widths::lemma_start_wti_char;
use crate::widths::lemma_start_wti_zero;
use crate::widths::lemma_width_sum_concat;
use crate::widths::lemma_width_sum_nonneg;
use crate::widths::start_wti;
use crate::widths::width_sum;

verus! {

/// A rope: a thin handle on the root of the tree, offering whole-sequence
/// operations in the two coordinate spaces, element index and accumulated
/// width.
pub struct Rope<M: Measurable> {
    root: Node<M>,
}

impl<M: Measurable> View for Rope<M> {
    type V = Seq<M>;

    closed spec fn view(&self) -> Seq<M> {
        self.root.elems()
    }
}

impl<M: Measurable> Rope<M> {
    /// The rope's tree satisfies the traversal invariant: accurate caches,
    /// bounded nodes, all leaves at one depth, machine-sized totals.
    pub closed spec fn wf(self) -> bool {
        self.root.inv()
    }

    /// The whole rope sits in one chunk: the tree is a single leaf, so the
    /// chunk queries hand back everything at once.
    pub closed spec fn single_chunk(self) -> bool {
        self.root is Leaf
    }

    /// An empty rope.
    pub fn new() -> (r: Self)
        ensures
            r@ == Seq::<M>::empty(),
            r.wf(),
            r.single_chunk(),
    {
        Rope { root: Node::new() }
    }

    /// Builds a rope holding exactly the elements of `s`.
    pub fn from_slice(s: &[M]) -> (r: Self)
        requires
            width_sum(s@) <= usize::MAX,
        ensures
            r@ == s@,
            r.wf(),
            s@.len() < MAX_LEN ==> r.single_chunk(),
    {
        let n = s.len();
        RopeBuilder::new().build_at_once(s)
    }

    /// Wraps an already well-formed tree.
    pub(crate) fn from_root(root: Node<M>) -> (r: Self)
        requires
            root.inv(),
        ensures
            r@ == root.elems(),
            r.wf(),
            root is Leaf ==> r.single_chunk(),
    {
        Rope { root }
    }

    pub fn len(&self) -> (r: usize)
        requires
            self.wf(),
        ensures
            r == self@.len(),
    {
        self.root.len()
    }

    pub fn width(&self) -> (r: usize)
        requires
            self.wf(),
        ensures
            r == width_sum(self@),
    {
        self.root.width()
    }

    pub fn is_empty(&self) -> (r: bool)
        requires
            self.wf(),
        ensures
            r == (self@.len() == 0),
    {
        self.root.len() == 0
    }

    /// All elements, in order, as a fresh vector.
    pub fn to_vec(&self) -> (r: Vec<M>)
        requires
            self.wf(),
        ensures
            r@ == self@,
    {
        let mut out: Vec<M> = Vec::new();
        self.root.collect_into(&mut out);
        proof {
            assert(out@ =~= self@);
        }
        out
    }

    /// Inserts the elements of `s` at the end-biased boundary of `width`:
    /// a run of zero-width elements sitting exactly at the coordinate stays
    /// before the insertion. (The start-biased placement, before such a
    /// run, is available by inserting at `width_to_index_start`'s chunk
    /// instead; this rope commits to the end-biased side throughout its
    /// edit path.) Long slices are fed in leaf-sized chunks.
    #[verifier::spinoff_prover]
    #[verifier::rlimit(100)]
    pub fn insert_slice(&mut self, width: usize, s: &[M])
        requires
            old(self).wf(),
            width <= width_sum(old(self)@),
            old(self)@.len() + s@.len() <= usize::MAX,
            width_sum(old(self)@) + width_sum(s@) <= usize::MAX,
        ensures
            final(self).wf(),
            ({
                let k = end_wti(old(self)@, width as int);
                final(self)@ == old(self)@.take(k) + s@ + old(self)@.skip(k)
            }),
            (old(self).single_chunk() && old(self)@.len() + s@.len() <= MAX_LEN)
                ==> final(self).single_chunk(),
    {
        proof {
            lemma_width_sum_nonneg(s@);
            lemma_width_sum_nonneg(old(self)@);
            lemma_end_wti_bounds(old(self)@, width as int);
            crate::widths::lemma_end_wti_char(old(self)@, width as int);
        }
        let ghost k = end_wti(old(self)@, width as int);
        let n = s.len();
        let mut j: usize = 0;
        let mut w = width;
        proof {
            assert(old(self)@.take(k) + s@.take(0) + old(self)@.skip(k) =~= old(self)@);
            assert(s@.skip(0) =~= s@);
            assert(width_sum(s@.take(0)) == 0);
        }
        while j < n
            invariant
                0 <= j <= n,
                n == s@.len(),
                self.wf(),
                self@ == old(self)@.take(k) + s@.take(j as int) + old(self)@.skip(k),
                w == width + width_sum(s@.take(j as int)),
                end_wti(self@, w as int) == k + j,
                old(self)@.len() + s@.len() <= usize::MAX,
                width_sum(old(self)@) + width_sum(s@) <= usize::MAX,
                width <= width_sum(old(self)@),
                k == end_wti(old(self)@, width as int),
                0 <= k <= old(self)@.len(),
                (old(self).single_chunk() && old(self)@.len() + s@.len() <= MAX_LEN) ==> (
                self.single_chunk() && self@.len() == old(self)@.len() + j),
                width_sum(old(self)@.take(k)) <= width,
                k < old(self)@.len() ==> width_sum(old(self)@.take(k + 1)) > width,
            decreases n - j,
        {
            let cnt = if n - j < MAX_LEN {
                n - j
            } else {
                MAX_LEN
            };
            let chunk = &s[j..j + cnt];
            let ghost pre = self@;
            proof {
                assert(chunk@ == s@.subrange(j as int, j + cnt));
                assert(s@.take(j as int) + chunk@ =~= s@.take(j + cnt));
                lemma_width_sum_concat(s@.take(j as int), chunk@);
                crate::widths::lemma_width_sum_take_mono(s@, j + cnt, n as int);
                assert(s@.take(n as int) =~= s@);
                crate::widths::lemma_width_sum_nonneg(chunk@);
                crate::widths::lemma_width_sum_nonneg(s@.take(j as int));
                crate::widths::lemma_width_sum_split(old(self)@, k);
                crate::widths::lemma_width_sum_nonneg(old(self)@.take(k));
                crate::widths::lemma_width_sum_nonneg(old(self)@.skip(k));
                lemma_width_sum_concat(old(self)@.take(k) + s@.take(j as int), old(self)@.skip(k));
                lemma_width_sum_concat(old(self)@.take(k), s@.take(j as int));
                assert(pre =~= (old(self)@.take(k) + s@.take(j as int)) + old(self)@.skip(k));
            }
            self.insert_chunk(w, chunk);
            proof {
                assert(pre.take(k + j) =~= old(self)@.take(k) + s@.take(j as int));
                assert(pre.skip(k + j) =~= old(self)@.skip(k));
                assert(self@ =~= old(self)@.take(k) + s@.take(j + cnt) + old(self)@.skip(k));
                // The boundary for the next chunk sits right after this one.
                let w2 = w + width_sum(chunk@);
                lemma_width_sum_concat(old(self)@.take(k), s@.take(j + cnt));
                assert(self@.take(k + j + cnt) =~= old(self)@.take(k) + s@.take(j + cnt));
                assert(width_sum(self@.take(k + j + cnt)) == width_sum(old(self)@.take(k))
                    + width_sum(s@.take(j + cnt)));
                if k + j + cnt < self@.len() {
                    assert(self@[k + j + cnt] == old(self)@[k]);
                    assert(self@.take(k + j + cnt + 1) =~= self@.take(k + j + cnt).push(
                        old(self)@[k],
                    ));
                    assert(self@.take(k + j + cnt + 1).drop_last() =~= self@.take(k + j + cnt));
                    assert(width_sum(self@.take(k + j + cnt + 1)) == width_sum(
                        self@.take(k + j + cnt),
                    ) + old(self)@[k].spec_width());
                    assert(old(self)@.take(k + 1).drop_last() =~= old(self)@.take(k));
                    assert(old(self)@.take(k + 1).last() == old(self)@[k]);
                }
                crate::widths::lemma_end_wti_unique(self@, w2 as int, k + j + cnt);
            }
            proof {
                assert(chunk@.take(cnt as int) =~= chunk@);
                assert(w + width_sum(chunk@) <= usize::MAX) by {
                    lemma_width_sum_concat(s@.take(j as int), chunk@);
                    assert(s@.take(j as int) + chunk@ =~= s@.take(j + cnt));
                    crate::widths::lemma_width_sum_take_mono(s@, j + cnt, n as int);
                    assert(s@.take(n as int) =~= s@);
                }
            }
            w = w + crate::widths::index_to_width(chunk, cnt);
            j = j + cnt;
        }
        proof {
            assert(s@.take(n as int) =~= s@);
        }
    }

    /// Inserts one chunk's worth of elements at the end-biased boundary
    /// of `width`.
    fn insert_chunk(&mut self, width: usize, s: &[M])
        requires
            old(self).wf(),
            width <= width_sum(old(self)@),
            s@.len() <= MAX_LEN,
            old(self)@.len() + s@.len() <= usize::MAX,
            width_sum(old(self)@) + width_sum(s@) <= usize::MAX,
        ensures
            final(self).wf(),
            ({
                let k = end_wti(old(self)@, width as int);
                final(self)@ == old(self)@.take(k) + s@ + old(self)@.skip(k)
            }),
            (old(self).single_chunk() && old(self)@.len() + s@.len() <= MAX_LEN)
                ==> final(self).single_chunk(),
    {
        proof {
            lemma_width_sum_nonneg(s@);
            lemma_end_wti_bounds(old(self)@, width as int);
        }
        if s.len() == 0 {
            proof {
                let k = end_wti(old(self)@, width as int);
                assert(old(self)@.take(k) + s@ + old(self)@.skip(k) =~= old(self)@);
            }
            return ;
        }
        let info = self.root.slice_info();
        let (_, res) = self.root.edit_chunk_at_width(width, info, s);
        if let Some((ri, rn)) = res {
            let mut left = Node::new();
            core::mem::swap(&mut self.root, &mut left);
            let ghost lsnap = left;
            let linfo = left.slice_info();
            let mut bc = crate::branch_children::BranchChildren::new();
            bc.push(linfo, Box::new(left));
            bc.push(ri, rn);
            proof {
                let k = end_wti(old(self)@, width as int);
                let total = old(self)@.take(k) + s@ + old(self)@.skip(k);
                crate::widths::lemma_width_sum_split(old(self)@, k);
                crate::widths::lemma_width_sum_concat(old(self)@.take(k) + s@, old(self)@.skip(k));
                crate::widths::lemma_width_sum_concat(old(self)@.take(k), s@);
                crate::widths::lemma_width_sum_nonneg(old(self)@.take(k));
                crate::widths::lemma_width_sum_nonneg(old(self)@.skip(k));
                crate::node::lemma_range_one(bc, 0);
                crate::node::lemma_range_one(bc, 1);
                crate::node::lemma_range_split(bc, 0, 1, 2);
                crate::widths::lemma_width_sum_concat(lsnap.elems(), rn.elems());
                crate::widths::lemma_width_sum_nonneg(lsnap.elems());
                crate::widths::lemma_width_sum_nonneg(rn.elems());
                assert(bc.kids_ok());
                assert(bc.kids_height(lsnap.height()));
                assert(bc.all_elems() =~= lsnap.elems() + rn.elems());
                crate::node::lemma_branch_pack(bc, lsnap.height());
            }
            self.root = Node::Branch(bc);
        }
    }

    /// Inserts one element at the end-biased boundary of `width`.
    pub fn insert(&mut self, width: usize, element: M)
        requires
            old(self).wf(),
            width <= width_sum(old(self)@),
            old(self)@.len() + 1 <= usize::MAX,
            width_sum(old(self)@) + element.spec_width() <= usize::MAX,
        ensures
            final(self).wf(),
            ({
                let k = end_wti(old(self)@, width as int);
                final(self)@ == old(self)@.take(k) + seq![element] + old(self)@.skip(k)
            }),
    {
        let one: [M; 1] = [element];
        proof {
            assert(one@ =~= seq![element]);
            crate::widths::lemma_width_sum_singleton(one@);
        }
        self.insert_slice(width, one.as_slice());
    }

    /// Removes the elements between the start-biased boundary of `start`
    /// and the end-biased boundary of `end`; an empty coordinate range
    /// strictly inside an element removes nothing, while at a run of
    /// zero-width elements it removes the run.
    pub fn remove(&mut self, start: usize, end: usize)
        requires
            old(self).wf(),
            start <= end,
            end <= width_sum(old(self)@),
        ensures
            final(self).wf(),
            ({
                let cs = start_wti(old(self)@, start as int);
                let ce = end_wti(old(self)@, end as int);
                final(self)@ == old(self)@.take(cs) + old(self)@.skip(ce)
            }),
    {
        let info = self.root.slice_info();
        let (ninfo, fix) = self.root.remove_range(start, end, info);
        if ninfo.len == 0 {
            proof {
                assert(self.root.elems().len() == 0);
            }
            self.root = Node::new();
            proof {
                let cs = start_wti(old(self)@, start as int);
                let ce = end_wti(old(self)@, end as int);
                assert(old(self)@.take(cs) + old(self)@.skip(ce) =~= Seq::<M>::empty());
            }
            return ;
        }
        if fix {
            let nw = ninfo.width as usize;
            proof {
                lemma_width_sum_nonneg(self.root.elems());
            }
            let seam = if start < nw {
                start
            } else {
                nw
            };
            self.root.fix_tree_seam(seam);
        }
        self.pull_up_singular_nodes();
    }

    /// Splits the rope at the end-biased boundary of `width` and returns
    /// the right part; a run of zero-width elements at the coordinate stays
    /// left, and a split right at a chunk boundary may settle anywhere
    /// within such a run.
    pub fn split_off(&mut self, width: usize) -> (r: Self)
        requires
            old(self).wf(),
            width <= width_sum(old(self)@),
        ensures
            final(self).wf(),
            r.wf(),
            exists|k: int|
                {
                    &&& start_wti(old(self)@, width as int) <= k <= end_wti(
                        old(self)@,
                        width as int,
                    )
                    &&& final(self)@ == old(self)@.take(k)
                    &&& #[trigger] r@ == old(self)@.skip(k)
                },
            (old(self).single_chunk() && 0 < width) ==> final(self)@ == old(self)@.take(
                end_wti(old(self)@, width as int),
            ) && r@ == old(self)@.skip(end_wti(old(self)@, width as int)),
    {
        proof {
            lemma_start_wti_bounds(old(self)@, width as int);
            lemma_end_wti_bounds(old(self)@, width as int);
            lemma_start_wti_char(old(self)@, width as int);
            lemma_width_sum_nonneg(old(self)@);
        }
        if width == 0 {
            let mut other = Rope::new();
            core::mem::swap(self, &mut other);
            proof {
                lemma_start_wti_zero(old(self)@);
                assert(old(self)@.take(0) =~= Seq::<M>::empty());
                assert(old(self)@.skip(0) =~= old(self)@);
            }
            return other;
        }
        let w = self.root.width();
        if width == w {
            proof {
                lemma_end_wti_all(old(self)@, width as int);
                assert(old(self)@.take(old(self)@.len() as int) =~= old(self)@);
                assert(old(self)@.skip(old(self)@.len() as int) =~= Seq::<M>::empty());
            }
            return Rope::new();
        }
        let mut right = self.root.end_split(width);
        self.root.zip_fix_right();
        right.zip_fix_left();
        self.pull_up_singular_nodes();
        let mut out = Rope { root: right };
        out.pull_up_singular_nodes();
        out
    }

    /// Appends another rope's elements after this rope's.
    pub fn append(&mut self, other: Rope<M>)
        requires
            old(self).wf(),
            other.wf(),
            old(self)@.len() + other@.len() <= usize::MAX,
            width_sum(old(self)@) + width_sum(other@) <= usize::MAX,
        ensures
            final(self).wf(),
            final(self)@ == old(self)@ + other@,
    {
        proof {
            lemma_width_sum_nonneg(old(self)@);
            lemma_width_sum_nonneg(other@);
        }
        if other.root.len() == 0 {
            proof {
                assert(old(self)@ + other@ =~= old(self)@);
            }
            return ;
        }
        if self.root.len() == 0 {
            proof {
                assert(old(self)@ + other@ =~= other@);
            }
            *self = other;
            return ;
        }
        let d1 = self.root.depth_capped();
        let other_root = other.root;
        let d2 = other_root.depth_capped();
        if d1 == usize::MAX || d2 == usize::MAX {
            // A tree too deep to measure in a machine word cannot be
            // spliced by spine descent; rebuild from the flat elements.
            let mut all = self.to_vec();
            let mut tail: Vec<M> = Vec::new();
            other_root.collect_into(&mut tail);
            all.append(&mut tail);
            proof {
                assert(all@ == old(self)@ + other@);
                lemma_width_sum_concat(old(self)@, other@);
            }
            *self = Rope::from_slice(all.as_slice());
            return ;
        }
        if d1 >= d2 {
            let res = self.root.append_at_depth(Box::new(other_root), d1 - d2);
            if let Some(extra) = res {
                proof {
                    crate::widths::lemma_width_sum_concat(self.root.elems(), extra.elems());
                    crate::widths::lemma_width_sum_concat(old(self)@, other@);
                }
                self.raise_root(extra);
            }
        } else {
            let mut base = other_root;
            let mut this_root = Node::new();
            core::mem::swap(&mut self.root, &mut this_root);
            let res = base.prepend_at_depth(Box::new(this_root), d2 - d1);
            self.root = base;
            if let Some(extra) = res {
                proof {
                    crate::widths::lemma_width_sum_concat(extra.elems(), self.root.elems());
                    crate::widths::lemma_width_sum_concat(old(self)@, other@);
                }
                self.raise_root_left(extra);
            }
        }
        self.pull_up_singular_nodes();
    }

    /// Houses a residual right sibling of the root under a new root.
    fn raise_root(&mut self, extra: Box<Node<M>>)
        requires
            old(self).wf(),
            old(self)@.len() > 0,
            extra.inv(),
            extra.height() == old(self).root.height(),
            extra.elems().len() > 0,
            old(self)@.len() + extra.elems().len() <= usize::MAX,
            width_sum(old(self)@) + width_sum(extra.elems()) <= usize::MAX,
        ensures
            final(self).wf(),
            final(self)@ == old(self)@ + extra.elems(),
    {
        let mut left = Node::new();
        core::mem::swap(&mut self.root, &mut left);
        let ghost lsnap = left;
        let linfo = left.slice_info();
        let einfo = extra.slice_info();
        let mut bc = crate::branch_children::BranchChildren::new();
        bc.push(linfo, Box::new(left));
        bc.push(einfo, extra);
        proof {
            crate::node::lemma_range_one(bc, 0);
            crate::node::lemma_range_one(bc, 1);
            crate::node::lemma_range_split(bc, 0, 1, 2);
            crate::widths::lemma_width_sum_concat(lsnap.elems(), extra.elems());
            crate::widths::lemma_width_sum_nonneg(lsnap.elems());
            crate::widths::lemma_width_sum_nonneg(extra.elems());
            assert(bc.kids_ok());
            assert(bc.kids_height(lsnap.height()));
            crate::node::lemma_branch_pack(bc, lsnap.height());
        }
        self.root = Node::Branch(bc);
    }

    /// Houses a residual left sibling of the root under a new root.
    fn raise_root_left(&mut self, extra: Box<Node<M>>)
        requires
            old(self).wf(),
            old(self)@.len() > 0,
            extra.inv(),
            extra.height() == old(self).root.height(),
            extra.elems().len() > 0,
            old(self)@.len() + extra.elems().len() <= usize::MAX,
            width_sum(old(self)@) + width_sum(extra.elems()) <= usize::MAX,
        ensures
            final(self).wf(),
            final(self)@ == extra.elems() + old(self)@,
    {
        let mut right = Node::new();
        core::mem::swap(&mut self.root, &mut right);
        let ghost rsnap = right;
        let rinfo = right.slice_info();
        let einfo = extra.slice_info();
        let mut bc = crate::branch_children::BranchChildren::new();
        bc.push(einfo, extra);
        bc.push(rinfo, Box::new(right));
        proof {
            crate::node::lemma_range_one(bc, 0);
            crate::node::lemma_range_one(bc, 1);
            crate::node::lemma_range_split(bc, 0, 1, 2);
            crate::widths::lemma_width_sum_concat(extra.elems(), rsnap.elems());
            crate::widths::lemma_width_sum_nonneg(rsnap.elems());
            crate::widths::lemma_width_sum_nonneg(extra.elems());
            assert(bc.kids_ok());
            assert(bc.kids_height(rsnap.height()));
            crate::node::lemma_branch_pack(bc, rsnap.height());
        }
        self.root = Node::Branch(bc);
    }

    /// The root is not a branch with exactly one child.
    pub closed spec fn root_pulled_up(self) -> bool {
        self.root is Branch ==> self.root.as_branch().entries@.len() != 1
    }

    /// While the root is a branch with exactly one child, replaces it by
    /// that child.
    pub fn pull_up_singular_nodes(&mut self)
        requires
            old(self).wf(),
        ensures
            final(self).wf(),
            final(self)@ == old(self)@,
            final(self).root_pulled_up(),
            old(self).single_chunk() ==> final(self).single_chunk(),
    {
        loop
            invariant
                self.wf(),
                self@ == old(self)@,
                old(self).single_chunk() ==> self.single_chunk(),
            decreases self.root.height(),
        {
            let single = if self.root.is_leaf() {
                false
            } else {
                self.root.child_count() == 1
            };
            if !single {
                return ;
            }
            proof {
                crate::node::lemma_branch_parts(self.root);
                crate::node::lemma_range_one(self.root.as_branch(), 0);
            }
            let child = match &mut self.root {
                Node::Branch(children) => children.remove(0),
                Node::Leaf(_) => vstd::pervasive::unreached(),
            };
            self.root = *child.node;
        }
    }

    /// The summed width of the first `index` elements.
    pub fn index_to_width(&self, index: usize) -> (r: usize)
        requires
            self.wf(),
            index <= self@.len(),
        ensures
            r == width_sum(self@.take(index as int)),
    {
        let info = self.root.index_to_slice_info(index);
        proof {
            crate::widths::lemma_width_sum_nonneg(self@.take(index as int));
            crate::widths::lemma_width_sum_take_mono(self@, index as int, self@.len() as int);
            assert(self@.take(self@.len() as int) =~= self@);
        }
        info.width as usize
    }

    /// The index of the element at `width`, end-biased: a run of zero-width
    /// elements sitting exactly at the coordinate is passed over.
    pub fn width_to_index(&self, width: usize) -> (r: usize)
        requires
            self.wf(),
            width <= width_sum(self@),
        ensures
            r == end_wti(self@, width as int),
    {
        self.width_to_index_end(width)
    }

    /// The start-biased boundary of `width`: the position before any run of
    /// zero-width elements at the coordinate.
    pub fn width_to_index_start(&self, width: usize) -> (r: usize)
        requires
            self.wf(),
            width <= width_sum(self@),
        ensures
            r == start_wti(self@, width as int),
    {
        let info = self.root.start_width_to_slice_info(width);
        proof {
            lemma_start_wti_bounds(self@, width as int);
        }
        info.len as usize
    }

    /// The end-biased boundary of `width`: the position after any run of
    /// zero-width elements at the coordinate.
    pub fn width_to_index_end(&self, width: usize) -> (r: usize)
        requires
            self.wf(),
            width <= width_sum(self@),
        ensures
            r == end_wti(self@, width as int),
    {
        let info = self.root.end_width_to_slice_info(width);
        proof {
            lemma_end_wti_bounds(self@, width as int);
        }
        info.len as usize
    }

    /// The chunk holding element `index`, with the aggregate before it.
    pub fn chunk_at_index(&self, index: usize) -> (r: (&[M], SliceInfo))
        requires
            self.wf(),
            index <= self@.len(),
        ensures
            r.0@ == self@.subrange(r.1.len as int, r.1.len + r.0@.len()),
            r.1.len <= index,
            index - r.1.len <= r.0@.len(),
            self.single_chunk() ==> r.1.len == 0 && r.1.width == 0 && r.0@ == self@,
    {
        self.root.get_chunk_at_index(index)
    }

    /// The chunk holding the start-biased boundary of `width`.
    pub fn chunk_at_width_first(&self, width: usize) -> (r: (&[M], SliceInfo))
        requires
            self.wf(),
            width <= width_sum(self@),
        ensures
            r.0@ == self@.subrange(r.1.len as int, r.1.len + r.0@.len()),
            start_wti(self@, width as int) == r.1.len + start_wti(r.0@, width - r.1.width),
            self.single_chunk() ==> r.1.len == 0 && r.1.width == 0 && r.0@ == self@,
    {
        self.root.get_first_chunk_at_width(width)
    }

    /// The chunk holding the end-biased boundary of `width`: the one that
    /// absorbs a run of zero-width elements at the coordinate.
    pub fn chunk_at_width_last(&self, width: usize) -> (r: (&[M], SliceInfo))
        requires
            self.wf(),
            width <= width_sum(self@),
        ensures
            r.0@ == self@.subrange(r.1.len as int, r.1.len + r.0@.len()),
            end_wti(self@, width as int) == r.1.len + end_wti(r.0@, width - r.1.width),
            self.single_chunk() ==> r.1.len == 0 && r.1.width == 0 && r.0@ == self@,
    {
        self.root.get_last_chunk_at_width(width)
    }

    /// Walks the tree re-deriving every cached aggregate; under `wf` each
    /// comparison is provably an equality.
    pub fn assert_integrity(&self)
        requires
            self.wf(),
    {
        self.root.assert_integrity();
    }

    /// Walks the tree checking balance and the minimum-size bounds.
    pub fn assert_invariants(&self)
        requires
            self.wf(),
            self.size_ok(),
    {
        proof {
            crate::node::lemma_size_bounds_height(self.root);
        }
        let _depth = self.root.assert_balance();
        self.root.assert_node_size(true);
    }

    /// The minimum-size invariant at the whole-tree level.
    pub closed spec fn size_ok(self) -> bool {
        self.root.size_ok(true)
    }

    /// Rebuilds the rope from its own elements, leaving an equivalent rope
    /// with freshly packed leaves.
    pub fn shrink_to_fit(&mut self)
        requires
            old(self).wf(),
        ensures
            final(self).wf(),
            final(self)@ == old(self)@,
            final(self)@.len() < MAX_LEN ==> final(self).single_chunk(),
    {
        proof {
            lemma_width_sum_nonneg(old(self)@);
        }
        let v = self.to_vec();
        *self = Rope::from_slice(v.as_slice());
    }

    /// A structurally fresh rope with the same elements; the original is
    /// untouched by anything later done to the copy.
    pub fn duplicate(&self) -> (r: Self)
        requires
            self.wf(),
        ensures
            r.wf(),
            r@ == self@,
    {
        let v = self.to_vec();
        proof {
            lemma_width_sum_nonneg(self@);
        }
        Rope::from_slice(v.as_slice())
    }
}

/// The two halves a split reports always reassemble into the original
/// sequence, whichever position inside a run of zero-width elements the
/// split settled on.
pub proof fn lemma_split_reassemble<M: Measurable>(s: Seq<M>, k: int)
    requires
        0 <= k <= s.len(),
    ensures
        s.take(k) + s.skip(k) == s,
{
    assert(s.take(k) + s.skip(k) =~= s);
}

/// Feeding a builder the elements of a sequence gives the same rope, as a
/// sequence, as building from the flat slice: both construction paths
/// promise their result reads back as exactly what was fed.
pub proof fn lemma_build_paths_agree<M: Measurable>(
    built: Rope<M>,
    direct: Rope<M>,
    elements: Seq<M>,
)
    requires
        built@ == elements,
        direct@ == elements,
    ensures
        built@ == direct@,
{
}

} // verus!
