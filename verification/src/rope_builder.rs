use vstd::prelude::*;

use crate::branch_children::BranchChildren;
use crate::leaf_slice::LeafSlice;
use crate::measurable::Measurable;
use crate::node::lemma_branch_pack;
use crate::node::lemma_branch_parts;
use crate::node::Node;
use crate::node::MAX_CHILDREN;
use crate::node::MAX_LEN;
use crate::node::MIN_LEN;
use crate::rope::Rope;
use crate::slice_info::SliceInfo;
use crate::widths::lemma_width_sum_concat;
use crate::widths::lemma_width_sum_nonneg;
use crate::widths::width_sum;

verus! {

/// The elements of a run of tree levels, shallowest first: what the
/// builder's stack will read as once the levels are zipped together.
pub open spec fn nodes_elems<M: Measurable>(s: Seq<Node<M>>) -> Seq<M>
    decreases s.len(),
{
    if s.len() == 0 {
        Seq::empty()
    } else {
        nodes_elems(s.drop_last()) + s.last().elems()
    }
}

pub proof fn lemma_nodes_elems_concat<M: Measurable>(a: Seq<Node<M>>, b: Seq<Node<M>>)
    ensures
        nodes_elems(a + b) == nodes_elems(a) + nodes_elems(b),
    decreases b.len(),
{
    if b.len() == 0 {
        assert(a + b =~= a);
        assert(nodes_elems(a) + nodes_elems(b) =~= nodes_elems(a));
    } else {
        lemma_nodes_elems_concat(a, b.drop_last());
        assert((a + b).drop_last() =~= a + b.drop_last());
        assert((a + b).last() == b.last());
        assert(nodes_elems(a) + (nodes_elems(b.drop_last()) + b.last().elems())
            =~= (nodes_elems(a) + nodes_elems(b.drop_last())) + b.last().elems());
    }
}

pub proof fn lemma_nodes_elems_one<M: Measurable>(s: Seq<Node<M>>)
    requires
        s.len() == 1,
    ensures
        nodes_elems(s) == s[0].elems(),
{
    assert(s.drop_last() =~= Seq::<Node<M>>::empty());
    assert(nodes_elems(Seq::<Node<M>>::empty()) + s[0].elems() =~= s[0].elems());
    assert(s.last() == s[0]);
}

/// An incremental rope builder. Incoming elements are buffered to leaf
/// size; each emitted leaf is attached at the deepest level of a right
/// spine of unfinished tree levels, splitting and growing the spine as
/// levels fill, so that building runs in time linear in the elements fed.
pub struct RopeBuilder<M: Measurable> {
    stack: Vec<Node<M>>,
    buffer: Vec<M>,
    last_chunk_len: usize,
}

impl<M: Measurable> RopeBuilder<M> {
    /// The elements held by the spine levels, shallowest first.
    pub closed spec fn stack_fed(self) -> Seq<M> {
        nodes_elems(self.stack@)
    }

    /// Everything fed so far, in order.
    pub closed spec fn fed(self) -> Seq<M> {
        self.stack_fed() + self.buffer@
    }

    /// The right-spine invariant: at least one level; every level a valid
    /// tree; consecutive levels one height apart; every branch level keeps
    /// one child slot free for the final zip-up; with more than one level,
    /// the deepest level is the height-one branch that receives leaves.
    pub closed spec fn stack_wf(self) -> bool {
        &&& self.stack@.len() >= 1
        &&& forall|i: int| 0 <= i < self.stack@.len() ==> (#[trigger] self.stack@[i]).inv()
        &&& forall|i: int|
            0 <= i < self.stack@.len() - 1 ==> (#[trigger] self.stack@[i]).height()
                == self.stack@[i + 1].height() + 1
        &&& forall|i: int|
            0 <= i < self.stack@.len() ==> ((#[trigger] self.stack@[i]) is Branch ==> self.stack@[
            i].as_branch().entries@.len() <= MAX_CHILDREN - 1)
        &&& (self.stack@.len() > 1 ==> self.stack@[self.stack@.len() - 1].height() == 1)
        &&& (self.stack@[self.stack@.len() - 1] is Branch ==> self.stack@[self.stack@.len()
            - 1].height() == 1)
    }

    /// The builder's state is sound: a valid spine, a buffer below one
    /// chunk, and totals that fit the machine.
    pub closed spec fn wf(self) -> bool {
        &&& self.stack_wf()
        &&& self.buffer@.len() < MAX_LEN
        &&& self.fed().len() <= usize::MAX
        &&& width_sum(self.fed()) <= usize::MAX
    }

    /// Nothing has been emitted yet: the spine still holds only the empty
    /// sentinel leaf, so everything fed sits in the buffer.
    pub closed spec fn still_one_chunk(self) -> bool {
        self.stack@.len() == 1 && self.stack@[0] is Leaf && self.stack@[0].elems().len() == 0
    }

    /// The spine is one lone leaf, full or not.
    pub closed spec fn one_leaf(self) -> bool {
        self.stack@.len() == 1 && self.stack@[0] is Leaf
    }

    /// A fresh builder with nothing fed.
    pub fn new() -> (r: Self)
        ensures
            r.wf(),
            r.fed() == Seq::<M>::empty(),
            r.still_one_chunk(),
    {
        let mut stack: Vec<Node<M>> = Vec::new();
        stack.push(Node::new());
        let r = RopeBuilder { stack, buffer: Vec::new(), last_chunk_len: 0 };
        proof {
            lemma_nodes_elems_one(r.stack@);
            assert(r.fed() =~= Seq::<M>::empty());
            assert(width_sum(Seq::<M>::empty()) == 0);
        }
        r
    }

    /// Feeds one element.
    pub fn append(&mut self, element: M)
        requires
            old(self).wf(),
            old(self).fed().len() + 1 <= usize::MAX,
            width_sum(old(self).fed()) + element.spec_width() <= usize::MAX,
        ensures
            final(self).wf(),
            final(self).fed() == old(self).fed().push(element),
            (old(self).still_one_chunk() && old(self).fed().len() + 1 < MAX_LEN)
                ==> final(self).still_one_chunk(),
    {
        let one: [M; 1] = [element];
        proof {
            assert(one@ =~= seq![element]);
            crate::widths::lemma_width_sum_singleton(one@);
            assert(old(self).fed() + one@ =~= old(self).fed().push(element));
        }
        self.append_internal(one.as_slice(), false);
    }

    /// Feeds a slice of elements.
    pub fn append_slice(&mut self, chunk: &[M])
        requires
            old(self).wf(),
            old(self).fed().len() + chunk@.len() <= usize::MAX,
            width_sum(old(self).fed()) + width_sum(chunk@) <= usize::MAX,
        ensures
            final(self).wf(),
            final(self).fed() == old(self).fed() + chunk@,
            (old(self).still_one_chunk() && old(self).fed().len() + chunk@.len() < MAX_LEN)
                ==> final(self).still_one_chunk(),
    {
        self.append_internal(chunk, false);
    }

    /// Finishes the build and hands the rope over.
    pub fn finish(self) -> (r: Rope<M>)
        requires
            self.wf(),
        ensures
            r.wf(),
            r@ == self.fed(),
            (self.still_one_chunk() && self.fed().len() < MAX_LEN) ==> r.single_chunk(),
    {
        let mut this = self;
        let empty: [M; 0] = [];
        proof {
            assert(empty@ =~= Seq::<M>::empty());
            assert(width_sum(Seq::<M>::empty()) == 0);
            assert(this.fed() + empty@ =~= this.fed());
        }
        this.append_internal(empty.as_slice(), true);
        this.finish_internal(true)
    }

    /// Builds a rope from one slice in a single call, skipping the buffer
    /// bookkeeping of repeated feeding.
    pub fn build_at_once(self, chunk: &[M]) -> (r: Rope<M>)
        requires
            self.wf(),
            self.fed().len() + chunk@.len() <= usize::MAX,
            width_sum(self.fed()) + width_sum(chunk@) <= usize::MAX,
        ensures
            r.wf(),
            r@ == self.fed() + chunk@,
            (self.still_one_chunk() && self.fed().len() + chunk@.len() < MAX_LEN)
                ==> r.single_chunk(),
    {
        let mut this = self;
        this.append_internal(chunk, true);
        this.finish_internal(true)
    }

    /// The chunking loop: repeatedly carves the next leaf-sized piece off
    /// the buffered and incoming elements and attaches it to the spine; the
    /// terminal call flushes whatever remains.
    fn append_internal(&mut self, chunk: &[M], is_last: bool)
        requires
            old(self).wf(),
            old(self).fed().len() + chunk@.len() <= usize::MAX,
            width_sum(old(self).fed()) + width_sum(chunk@) <= usize::MAX,
        ensures
            final(self).wf(),
            final(self).fed() == old(self).fed() + chunk@,
            is_last ==> final(self).buffer@.len() == 0,
            (old(self).still_one_chunk() && old(self).fed().len() + chunk@.len() < MAX_LEN
                && !is_last) ==> final(self).still_one_chunk(),
            (old(self).still_one_chunk() && old(self).fed().len() + chunk@.len() < MAX_LEN)
                ==> final(self).one_leaf(),
    {
        proof {
            lemma_width_sum_nonneg(chunk@);
            lemma_width_sum_nonneg(old(self).fed());
        }
        let mut rest = chunk;
        while rest.len() > 0 || (self.buffer.len() > 0 && is_last)
            invariant
                self.stack_wf(),
                self.buffer@.len() < MAX_LEN,
                self.stack_fed() + self.buffer@ + rest@ == old(self).fed() + chunk@,
                self.fed().len() + rest@.len() <= usize::MAX,
                width_sum(self.fed()) + width_sum(rest@) <= usize::MAX,
                width_sum(rest@) >= 0,
                (old(self).still_one_chunk() && old(self).fed().len() + chunk@.len() < MAX_LEN)
                    ==> (self.fed().len() + rest@.len() < MAX_LEN && (self.still_one_chunk() || (
                is_last && self.one_leaf() && self.buffer@.len() == 0 && rest@.len() == 0))),
            decreases rest@.len(), self.buffer@.len(),
        {
            let ghost pre = *self;
            let ghost prerest = rest@;
            let (emitted, rem) = self.get_next_leaf_slice(rest, is_last);
            proof {
                lemma_width_sum_nonneg(rem@);
                lemma_width_sum_nonneg(self.buffer@);
                lemma_width_sum_nonneg(self.stack_fed());
            }
            match emitted {
                Some(leaf) => {
                    let ghost buf2 = self.buffer@;
                    proof {
                        assert(pre.buffer@ + prerest =~= leaf@ + (buf2 + rem@));
                        lemma_width_sum_concat(pre.buffer@, prerest);
                        lemma_width_sum_concat(leaf@, buf2 + rem@);
                        lemma_width_sum_concat(buf2, rem@);
                        lemma_width_sum_concat(pre.stack_fed(), pre.buffer@);
                        lemma_width_sum_concat(pre.stack_fed(), leaf@);
                        lemma_width_sum_nonneg(buf2);
                        lemma_width_sum_nonneg(leaf@);
                        lemma_width_sum_nonneg(pre.stack_fed());
                        assert(pre.stack_fed() + pre.buffer@ + prerest =~= pre.stack_fed() + (
                        pre.buffer@ + prerest));
                    }
                    self.append_leaf_node(leaf);
                    proof {
                        assert(self.stack_fed() =~= pre.stack_fed() + leaf@);
                        assert(self.stack_fed() + self.buffer@ + rem@ =~= pre.stack_fed() + (leaf@
                            + (buf2 + rem@)));
                        assert(self.stack_fed() + self.buffer@ + rem@ =~= old(self).fed()
                            + chunk@);
                        lemma_width_sum_concat(self.stack_fed(), self.buffer@);
                    }
                },
                None => {
                    proof {
                        assert(pre.buffer@ + prerest =~= Seq::<M>::empty() + self.buffer@ + rem@);
                        assert(Seq::<M>::empty() + self.buffer@ + rem@ =~= self.buffer@ + rem@);
                        assert(self.stack_fed() + self.buffer@ + rem@ =~= pre.stack_fed() + (
                        pre.buffer@ + prerest));
                        assert(pre.stack_fed() + (pre.buffer@ + prerest) =~= pre.stack_fed()
                            + pre.buffer@ + prerest);
                        assert(self.stack_fed() + self.buffer@ + rem@ =~= old(self).fed()
                            + chunk@);
                        lemma_width_sum_concat(pre.buffer@, prerest);
                        lemma_width_sum_concat(self.buffer@, rem@);
                        lemma_width_sum_concat(pre.stack_fed(), pre.buffer@);
                        lemma_width_sum_concat(self.stack_fed(), self.buffer@);
                    }
                },
            }
            rest = rem;
        }
        proof {
            assert(rest@ =~= Seq::<M>::empty());
            assert(self.stack_fed() + self.buffer@ + rest@ =~= self.fed());
        }
    }

    /// Carves the next leaf off the buffered and incoming elements: a full
    /// chunk straight from the slice when the buffer is empty, else the
    /// buffer topped up to a full chunk, else everything that is left when
    /// this is the terminal call; otherwise the slice is only buffered.
    fn get_next_leaf_slice<'a>(&mut self, slice: &'a [M], is_last: bool) -> (r: (
        Option<LeafSlice<M>>,
        &'a [M],
    ))
        requires
            old(self).buffer@.len() < MAX_LEN,
        ensures
            final(self).buffer@.len() < MAX_LEN,
            final(self).stack@ == old(self).stack@,
            ({
                let emitted = match r.0 {
                    None => Seq::<M>::empty(),
                    Some(l) => l@,
                };
                old(self).buffer@ + slice@ == emitted + final(self).buffer@ + r.1@
            }),
            r.0 matches Some(l) ==> 0 < l@.len() <= MAX_LEN,
            r.1@.len() <= slice@.len(),
            slice@.len() > 0 ==> r.1@.len() < slice@.len(),
            is_last ==> final(self).buffer@.len() == 0,
            (is_last && slice@.len() + old(self).buffer@.len() < MAX_LEN) ==> r.1@.len() == 0,
            (!is_last && slice@.len() + old(self).buffer@.len() < MAX_LEN) ==> r.0 is None,
            (r.0 is None && r.1@.len() == 0) ==> final(self).buffer@ == old(self).buffer@
                + slice@,
    {
        let n = slice.len();
        if self.buffer.len() == 0 && n >= MAX_LEN {
            // A full chunk straight off the slice; when the slice is
            // exactly one chunk, hold one element back so the loop ends on
            // a terminal carve.
            let split = if n - 1 < MAX_LEN {
                n - 1
            } else {
                MAX_LEN
            };
            let leaf = LeafSlice::from_slice(&slice[0..split]);
            proof {
                assert(old(self).buffer@ + slice@ =~= leaf@ + self.buffer@ + slice@.skip(
                    split as int,
                ));
            }
            (Some(leaf), &slice[split..n])
        } else if n >= MAX_LEN - self.buffer.len() {
            // Top the buffer up to one chunk and emit it.
            let k = MAX_LEN - self.buffer.len();
            let mut i: usize = 0;
            while i < k
                invariant
                    0 <= i <= k,
                    k <= n == slice@.len(),
                    self.buffer@ == old(self).buffer@ + slice@.take(i as int),
                    self.stack@ == old(self).stack@,
                decreases k - i,
            {
                self.buffer.push(slice[i]);
                proof {
                    assert(old(self).buffer@ + slice@.take(i + 1) =~= (old(self).buffer@
                        + slice@.take(i as int)).push(slice@[i as int]));
                }
                i = i + 1;
            }
            let leaf = LeafSlice::from_slice(self.buffer.as_slice());
            self.buffer.clear();
            proof {
                assert(old(self).buffer@ + slice@ =~= leaf@ + self.buffer@ + slice@.skip(
                    k as int,
                ));
            }
            (Some(leaf), &slice[k..n])
        } else {
            if is_last {
                if self.buffer.len() == 0 {
                    if n == 0 {
                        proof {
                            assert(old(self).buffer@ + slice@ =~= self.buffer@ + slice@.skip(
                                n as int,
                            ));
                        }
                        (None, &slice[n..n])
                    } else {
                        let leaf = LeafSlice::from_slice(slice);
                        proof {
                            assert(old(self).buffer@ + slice@ =~= leaf@ + self.buffer@
                                + slice@.skip(n as int));
                        }
                        (Some(leaf), &slice[n..n])
                    }
                } else {
                    let mut i: usize = 0;
                    while i < n
                        invariant
                            0 <= i <= n,
                            n == slice@.len(),
                            self.buffer@ == old(self).buffer@ + slice@.take(i as int),
                            self.stack@ == old(self).stack@,
                        decreases n - i,
                    {
                        self.buffer.push(slice[i]);
                        proof {
                            assert(old(self).buffer@ + slice@.take(i + 1) =~= (old(self).buffer@
                                + slice@.take(i as int)).push(slice@[i as int]));
                        }
                        i = i + 1;
                    }
                    let leaf = LeafSlice::from_slice(self.buffer.as_slice());
                    self.buffer.clear();
                    proof {
                        assert(slice@.take(n as int) =~= slice@);
                        assert(old(self).buffer@ + slice@ =~= leaf@ + self.buffer@ + slice@.skip(
                            n as int,
                        ));
                    }
                    (Some(leaf), &slice[n..n])
                }
            } else {
                let mut i: usize = 0;
                while i < n
                    invariant
                        0 <= i <= n,
                        n == slice@.len(),
                        n + old(self).buffer@.len() < MAX_LEN,
                        self.buffer@ == old(self).buffer@ + slice@.take(i as int),
                        self.stack@ == old(self).stack@,
                    decreases n - i,
                {
                    self.buffer.push(slice[i]);
                    proof {
                        assert(old(self).buffer@ + slice@.take(i + 1) =~= (old(self).buffer@
                            + slice@.take(i as int)).push(slice@[i as int]));
                    }
                    i = i + 1;
                }
                proof {
                    assert(slice@.take(n as int) =~= slice@);
                    assert(old(self).buffer@ + slice@ =~= Seq::<M>::empty() + self.buffer@
                        + slice@.skip(n as int));
                }
                (None, &slice[n..n])
            }
        }
    }

    /// Attaches an emitted leaf at the deepest level of the spine, walking
    /// up on overflow: a level with a free slot takes the carried node as
    /// its last child; a full level splits, keeps the right half, and
    /// carries the left half up; walking off the top starts a new root
    /// level. One slot stays free at every level for the final zip-up.
    #[verifier::spinoff_prover]
    #[verifier::rlimit(100)]
    fn append_leaf_node(&mut self, leaf: LeafSlice<M>)
        requires
            old(self).stack_wf(),
            0 < leaf@.len() <= MAX_LEN,
            old(self).stack_fed().len() + leaf@.len() <= usize::MAX,
            width_sum(old(self).stack_fed()) + width_sum(leaf@) <= usize::MAX,
        ensures
            final(self).stack_wf(),
            final(self).stack_fed() == old(self).stack_fed() + leaf@,
            final(self).buffer@ == old(self).buffer@,
            (old(self).still_one_chunk()) ==> final(self).one_leaf(),
    {
        proof {
            lemma_width_sum_nonneg(leaf@);
            lemma_width_sum_nonneg(old(self).stack_fed());
        }
        self.last_chunk_len = leaf.len();
        let ghost oldstack = self.stack@;
        let top = self.stack.pop().unwrap();
        proof {
            assert(oldstack.drop_last() =~= self.stack@);
        }
        if top.is_leaf() {
            proof {
                if self.stack@.len() > 0 {
                    assert(oldstack[oldstack.len() - 1].height() == 1);
                    assert(false);
                }
            }
            if top.len() == 0 {
                self.stack.push(Node::Leaf(leaf));
                proof {
                    lemma_nodes_elems_one(self.stack@);
                    lemma_nodes_elems_one(oldstack);
                    assert(self.stack_fed() =~= old(self).stack_fed() + leaf@);
                }
            } else {
                let ghost topsnap = top;
                let ti = top.slice_info();
                let li = SliceInfo::from_slice(leaf.as_slice());
                let lnode = Node::Leaf(leaf);
                let mut bc = BranchChildren::new();
                bc.push(ti, Box::new(top));
                bc.push(li, Box::new(lnode));
                proof {
                    crate::node::lemma_range_one(bc, 0);
                    crate::node::lemma_range_one(bc, 1);
                    crate::node::lemma_range_split(bc, 0, 1, 2);
                    lemma_width_sum_concat(topsnap.elems(), leaf@);
                    lemma_nodes_elems_one(oldstack);
                    lemma_width_sum_nonneg(topsnap.elems());
                    lemma_width_sum_nonneg(leaf@);
                    assert(bc.all_elems() =~= topsnap.elems() + leaf@);
                    lemma_branch_pack(bc, 0);
                }
                self.stack.push(Node::Branch(bc));
                proof {
                    lemma_nodes_elems_one(self.stack@);
                    lemma_nodes_elems_one(oldstack);
                    assert(self.stack_fed() =~= old(self).stack_fed() + leaf@);
                }
            }
            return ;
        }
        self.stack.push(top);
        proof {
            assert(self.stack@ =~= oldstack);
            if old(self).still_one_chunk() {
                assert(oldstack[0] is Leaf);
                assert(false);
            }
        }
        let li = SliceInfo::from_slice(leaf.as_slice());
        let ghost target = old(self).stack_fed() + leaf@;
        proof {
            assert(self.stack@.take(self.stack@.len() as int) =~= self.stack@);
            assert(self.stack@.skip(self.stack@.len() as int) =~= Seq::<Node<M>>::empty());
            assert(nodes_elems(Seq::<Node<M>>::empty()) =~= Seq::<M>::empty());
            assert(nodes_elems(self.stack@.take(self.stack@.len() as int)) + leaf@ + nodes_elems(
                self.stack@.skip(self.stack@.len() as int),
            ) =~= old(self).stack_fed() + leaf@);
            lemma_width_sum_concat(old(self).stack_fed(), leaf@);
        }
        let idx = self.stack.len();
        Self::walk_up(
            &mut self.stack,
            idx,
            Box::new(Node::Leaf(leaf)),
            li,
            Ghost(target),
        );
    }


    /// The level about to take the carried node, cut out of the books: its
    /// elements plus the carried elements fit the machine because the whole
    /// target does.
    proof fn lemma_step_bounds(prestack: Seq<Node<M>>, idx: int, carried: Seq<M>, target: Seq<M>)
        requires
            1 <= idx <= prestack.len(),
            nodes_elems(prestack.take(idx)) + carried + nodes_elems(prestack.skip(idx)) == target,
            target.len() <= usize::MAX,
            width_sum(target) <= usize::MAX,
        ensures
            nodes_elems(prestack.take(idx)) == nodes_elems(prestack.take(idx - 1)) + prestack[idx
                - 1].elems(),
            width_sum(prestack[idx - 1].elems()) + width_sum(carried) <= usize::MAX,
            prestack[idx - 1].elems().len() + carried.len() <= usize::MAX,
            width_sum(prestack[idx - 1].elems()) >= 0,
            width_sum(carried) >= 0,
            width_sum(nodes_elems(prestack.take(idx - 1))) >= 0,
            width_sum(nodes_elems(prestack.skip(idx))) >= 0,
    {
        assert(prestack.take(idx) =~= prestack.take(idx - 1) + seq![prestack[idx - 1]]);
        lemma_nodes_elems_concat(prestack.take(idx - 1), seq![prestack[idx - 1]]);
        lemma_nodes_elems_one(seq![prestack[idx - 1]]);
        let t1 = nodes_elems(prestack.take(idx));
        let t3 = nodes_elems(prestack.skip(idx));
        lemma_width_sum_concat(t1 + carried, t3);
        lemma_width_sum_concat(t1, carried);
        lemma_width_sum_concat(nodes_elems(prestack.take(idx - 1)), prestack[idx - 1].elems());
        lemma_width_sum_nonneg(nodes_elems(prestack.take(idx - 1)));
        lemma_width_sum_nonneg(prestack[idx - 1].elems());
        lemma_width_sum_nonneg(carried);
        lemma_width_sum_nonneg(t3);
    }

    /// One step of the walk-up: tries to house the carried node as the last
    /// child of the level above, splitting and carrying on when that level
    /// is full, or opening a new root level when the walk leaves the top.
    #[verifier::spinoff_prover]
    #[verifier::rlimit(100)]
    fn walk_up(
        stack: &mut Vec<Node<M>>,
        idx: usize,
        carry: Box<Node<M>>,
        carry_info: SliceInfo,
        target: Ghost<Seq<M>>,
    )
        requires
            old(stack)@.len() >= 1,
            idx <= old(stack)@.len(),
            forall|i: int| 0 <= i < old(stack)@.len() ==> (#[trigger] old(stack)@[i]).inv(),
            forall|i: int|
                0 <= i < old(stack)@.len() - 1 ==> (#[trigger] old(stack)@[i]).height() == old(
                    stack,
                )@[i + 1].height() + 1,
            forall|i: int|
                0 <= i < old(stack)@.len() ==> ((#[trigger] old(stack)@[i]) is Branch ==> old(
                    stack,
                )@[i].as_branch().entries@.len() <= MAX_CHILDREN - 1),
            old(stack)@.len() > 1 ==> old(stack)@[old(stack)@.len() - 1].height() == 1,
            old(stack)@[old(stack)@.len() - 1] is Branch ==> old(stack)@[old(stack)@.len()
                - 1].height() == 1,
            carry.inv(),
            carry.elems().len() > 0,
            carry_info.len == carry.elems().len(),
            carry_info.width == width_sum(carry.elems()),
            idx >= 1 ==> carry.height() + 1 == old(stack)@[idx - 1].height(),
            idx == 0 ==> carry.height() == old(stack)@[0].height() && carry.height() >= 1,
            nodes_elems(old(stack)@.take(idx as int)) + carry.elems() + nodes_elems(
                old(stack)@.skip(idx as int),
            ) == target@,
            target@.len() <= usize::MAX,
            width_sum(target@) <= usize::MAX,
        ensures
            final(stack)@.len() >= 1,
            forall|i: int| 0 <= i < final(stack)@.len() ==> (#[trigger] final(stack)@[i]).inv(),
            forall|i: int|
                0 <= i < final(stack)@.len() - 1 ==> (#[trigger] final(stack)@[i]).height()
                    == final(stack)@[i + 1].height() + 1,
            forall|i: int|
                0 <= i < final(stack)@.len() ==> ((#[trigger] final(stack)@[i]) is Branch
                    ==> final(stack)@[i].as_branch().entries@.len() <= MAX_CHILDREN - 1),
            final(stack)@.len() > 1 ==> final(stack)@[final(stack)@.len() - 1].height() == 1,
            final(stack)@[final(stack)@.len() - 1] is Branch ==> final(stack)@[final(stack)@.len()
                - 1].height() == 1,
            nodes_elems(final(stack)@) == target@,
        decreases idx,
    {
        let mut carry = carry;
        let mut carry_info = carry_info;
        let mut idx = idx;
        proof {
            let t1 = nodes_elems(stack@.take(idx as int));
            let t3 = nodes_elems(stack@.skip(idx as int));
            lemma_width_sum_concat(t1 + carry.elems(), t3);
            lemma_width_sum_concat(t1, carry.elems());
            lemma_width_sum_nonneg(t1);
            lemma_width_sum_nonneg(t3);
            lemma_width_sum_nonneg(carry.elems());
        }

        if idx == 0 {
            let mut bc = BranchChildren::new();
            proof {
                lemma_width_sum_nonneg(carry.elems());
            }
            bc.push(carry_info, carry);
            proof {
                crate::node::lemma_range_one(bc, 0);
                crate::node::lemma_range_split(bc, 0, 1, 1);
                lemma_branch_pack(bc, carry.height());
            }
            let newroot = Node::Branch(bc);
            let ghost prestack = stack@;
            stack.insert(0, newroot);
            proof {
                assert(stack@ =~= seq![newroot] + prestack);
                assert(forall|k: int|
                    0 <= k < prestack.len() ==> (#[trigger] stack@[1 + k])
                        == prestack[k]);
                lemma_nodes_elems_concat(seq![newroot], prestack);
                lemma_nodes_elems_one(seq![newroot]);
                assert(newroot.elems() =~= carry.elems());
                assert(prestack.take(0) =~= Seq::<Node<M>>::empty());
                assert(nodes_elems(Seq::<Node<M>>::empty()) =~= Seq::<M>::empty());
                assert(prestack.skip(0) =~= prestack);
                assert(Seq::<M>::empty() + carry.elems() + nodes_elems(prestack)
                    =~= carry.elems() + nodes_elems(prestack));
                assert(nodes_elems(stack@) =~= target@);
                let st = stack@;
                assert(prestack[0] is Branch) by {
                    if prestack[0] is Leaf {
                        assert(prestack[0] == Node::<M>::Leaf(prestack[0].as_leaf()));
                        assert(prestack[0].height() == 0);
                    }
                }
                if prestack.len() == 1 {
                    assert(prestack[0].height() == 1);
                }
                assert forall|i: int| 0 <= i < st.len() implies (#[trigger] st[i]).inv() by {
                    if i >= 1 {
                        assert(st[i] == prestack[i - 1]);
                    }
                }
                assert forall|i: int|
                    0 <= i < st.len() - 1 implies (#[trigger] st[i]).height() == st[i
                    + 1].height() + 1 by {
                    if i >= 1 {
                        assert(st[i] == prestack[i - 1]);
                        assert(st[i + 1] == prestack[i]);
                    }
                }
                assert forall|i: int|
                    0 <= i < st.len() implies ((#[trigger] st[i]) is Branch ==> st[
                i].as_branch().entries@.len() <= MAX_CHILDREN - 1) by {
                    if i >= 1 {
                        assert(st[i] == prestack[i - 1]);
                    }
                }
                assert(st[st.len() - 1] == prestack[prestack.len() - 1]);
                assert(prestack.len() > 1 ==> prestack[prestack.len() - 1].height() == 1);
                assert(st[st.len() - 1].height() == 1);
            }
            return ;
        }
        let ghost prestack = stack@;
        let node = stack.remove(idx - 1);
        proof {
            assert(stack@ =~= prestack.remove(idx - 1));
        }
        match node {
            Node::Branch(mut bc) => {
                let ghost bnode = Node::Branch(bc);
                let ghost h = (bnode.height() - 1) as nat;
                proof {
                    lemma_branch_parts(bnode);
                }
                let bl = bc.len();
                let ghost carried = carry.elems();
                let r2 = bc.insert_child(bl, carry_info, carry, MAX_CHILDREN - 1, Ghost(h));
                proof {
                    assert(crate::node::entries_elems_range(
                        bnode.as_branch(),
                        bl as int,
                        bl as int,
                    ) =~= Seq::<M>::empty());
                }
                match r2 {
                    None => {
                        proof {
                            assert(bc.all_elems() =~= bnode.elems() + carried);
                            lemma_width_sum_concat(bnode.elems(), carried);
                            Self::lemma_step_bounds(prestack, idx as int, carried, target@);
                            lemma_branch_pack(bc, h);
                        }
                        let joined = Node::Branch(bc);
                        let ghost midstack = stack@;
                        stack.insert(idx - 1, joined);
                        proof {
                            Self::lemma_level_replaced(
                                prestack,
                                stack@,
                                idx - 1,
                                joined,
                            );
                            assert(joined.elems() == prestack[idx - 1].elems() + carried);
                            Self::lemma_fed_after_join(
                                prestack,
                                stack@,
                                idx as int,
                                carried,
                            );
                            assert(nodes_elems(stack@) =~= target@);
                            assert(joined.height() == prestack[idx - 1].height());
                            Self::lemma_stack_shape_replace(prestack, stack@, idx - 1);
                        }
                        return ;
                    },
                    Some(rc) => {
                        proof {
                            assert(bc.all_elems() + rc.all_elems() =~= bnode.elems()
                                + carried);
                            Self::lemma_step_bounds(prestack, idx as int, carried, target@);
                            lemma_width_sum_concat(bc.all_elems(), rc.all_elems());
                            lemma_width_sum_concat(bnode.elems(), carried);
                            lemma_width_sum_nonneg(bc.all_elems());
                            lemma_width_sum_nonneg(rc.all_elems());
                            crate::node::lemma_range_one(rc, 0);
                            crate::node::lemma_range_split(rc, 0, 1, rc.entries@.len() as int);
                            crate::node::lemma_range_one(bc, 0);
                            crate::node::lemma_range_split(bc, 0, 1, bc.entries@.len() as int);
                            lemma_branch_pack(bc, h);
                            lemma_branch_pack(rc, h);
                        }
                        let right = Node::Branch(rc);
                        stack.insert(idx - 1, right);
                        proof {
                            Self::lemma_level_replaced(prestack, stack@, idx - 1, right);
                            assert(right.height() == prestack[idx - 1].height());
                            Self::lemma_stack_shape_replace(prestack, stack@, idx - 1);
                        }
                        let left = Node::Branch(bc);
                        let linfo = left.slice_info();
                        carry = Box::new(left);
                        carry_info = linfo;
                        idx = idx - 1;
                        proof {
                            Self::lemma_fed_after_split(
                                prestack,
                                stack@,
                                idx as int,
                                carry.elems(),
                                right.elems(),
                                carried,
                                target@,
                            );
                            let t1 = nodes_elems(stack@.take(idx as int));
                            let t3 = nodes_elems(stack@.skip(idx as int));
                            lemma_width_sum_concat(t1 + carry.elems(), t3);
                            lemma_width_sum_concat(t1, carry.elems());
                            lemma_width_sum_nonneg(t1);
                            lemma_width_sum_nonneg(t3);
                            lemma_width_sum_nonneg(carry.elems());
                        }
                        return Self::walk_up(stack, idx, carry, carry_info, target);
                    },
                }
            },
            Node::Leaf(_) => {
                proof {
                    assert(prestack[idx - 1].height() >= 1);
                    assert(false);
                }
                vstd::pervasive::unreached()
            },
        }
    }

    /// Replacing one level of the spine by a branch of the same height and
    /// a legal reserve count keeps the spine's shape.
    proof fn lemma_stack_shape_replace(pre: Seq<Node<M>>, post: Seq<Node<M>>, at: int)
        requires
            0 <= at < pre.len(),
            post.len() == pre.len(),
            forall|i: int| 0 <= i < pre.len() && i != at ==> post[i] == pre[i],
            post[at].inv(),
            post[at].height() == pre[at].height(),
            post[at] is Branch,
            post[at].as_branch().entries@.len() <= MAX_CHILDREN - 1,
            forall|i: int| 0 <= i < pre.len() ==> (#[trigger] pre[i]).inv(),
            forall|i: int|
                0 <= i < pre.len() - 1 ==> (#[trigger] pre[i]).height() == pre[i + 1].height()
                    + 1,
            forall|i: int|
                0 <= i < pre.len() ==> ((#[trigger] pre[i]) is Branch ==> pre[
                i].as_branch().entries@.len() <= MAX_CHILDREN - 1),
            pre.len() > 1 ==> pre[pre.len() - 1].height() == 1,
            pre[pre.len() - 1] is Branch ==> pre[pre.len() - 1].height() == 1,
        ensures
            forall|i: int| 0 <= i < post.len() ==> (#[trigger] post[i]).inv(),
            forall|i: int|
                0 <= i < post.len() - 1 ==> (#[trigger] post[i]).height() == post[i + 1].height()
                    + 1,
            forall|i: int|
                0 <= i < post.len() ==> ((#[trigger] post[i]) is Branch ==> post[
                i].as_branch().entries@.len() <= MAX_CHILDREN - 1),
            post.len() > 1 ==> post[post.len() - 1].height() == 1,
            post[post.len() - 1] is Branch ==> post[post.len() - 1].height() == 1,
    {
        assert forall|i: int| 0 <= i < post.len() implies (#[trigger] post[i]).inv() by {
            if i != at {
                assert(post[i] == pre[i]);
            }
        }
        assert forall|i: int|
            0 <= i < post.len() - 1 implies (#[trigger] post[i]).height() == post[i + 1].height()
            + 1 by {
            if i != at {
                assert(post[i] == pre[i]);
            }
            if i + 1 != at {
                assert(post[i + 1] == pre[i + 1]);
            }
        }
        assert forall|i: int|
            0 <= i < post.len() implies ((#[trigger] post[i]) is Branch ==> post[
        i].as_branch().entries@.len() <= MAX_CHILDREN - 1) by {
            if i != at {
                assert(post[i] == pre[i]);
            }
        }
        if at == pre.len() - 1 {
            if pre[at] is Leaf {
                assert(pre[at] == Node::<M>::Leaf(pre[at].as_leaf()));
                assert(pre[at].height() == 0);
                assert(post[at].height() == 0);
                assert(post[at] == Node::<M>::Branch(post[at].as_branch()));
                assert(post[at].height() >= 1);
            }
            assert(pre[at].height() == 1);
        }
    }

    /// Replacing one level of the spine, all others kept.
    proof fn lemma_level_replaced(
        pre: Seq<Node<M>>,
        post: Seq<Node<M>>,
        at: int,
        with: Node<M>,
    )
        requires
            0 <= at < pre.len(),
            post == pre.remove(at).insert(at, with),
        ensures
            post.len() == pre.len(),
            post[at] == with,
            forall|i: int| 0 <= i < pre.len() && i != at ==> post[i] == pre[i],
    {
        assert(forall|i: int| 0 <= i < pre.len() && i != at ==> post[i] == pre[i]);
    }

    /// The fed elements after a level absorbed the carried node.
    proof fn lemma_fed_after_join(
        pre: Seq<Node<M>>,
        post: Seq<Node<M>>,
        idx: int,
        carried: Seq<M>,
    )
        requires
            1 <= idx <= pre.len(),
            post.len() == pre.len(),
            post[idx - 1].elems() == pre[idx - 1].elems() + carried,
            forall|i: int| 0 <= i < pre.len() && i != idx - 1 ==> post[i] == pre[i],
        ensures
            nodes_elems(post) == nodes_elems(pre.take(idx)) + carried + nodes_elems(
                pre.skip(idx),
            ),
    {
        assert(post =~= post.take(idx - 1) + seq![post[idx - 1]] + post.skip(idx));
        assert(pre =~= pre.take(idx - 1) + seq![pre[idx - 1]] + pre.skip(idx));
        lemma_nodes_elems_concat(post.take(idx - 1) + seq![post[idx - 1]], post.skip(idx));
        lemma_nodes_elems_concat(post.take(idx - 1), seq![post[idx - 1]]);
        lemma_nodes_elems_one(seq![post[idx - 1]]);
        lemma_nodes_elems_concat(pre.take(idx - 1), seq![pre[idx - 1]]);
        lemma_nodes_elems_one(seq![pre[idx - 1]]);
        assert(post.take(idx - 1) =~= pre.take(idx - 1));
        assert(post.skip(idx) =~= pre.skip(idx));
        assert(pre.take(idx) =~= pre.take(idx - 1) + seq![pre[idx - 1]]);
        lemma_nodes_elems_concat(pre.take(idx - 1) + seq![pre[idx - 1]], Seq::<Node<M>>::empty());
        lemma_nodes_elems_concat(pre.take(idx - 1), seq![pre[idx - 1]]);
        assert(nodes_elems(post) =~= nodes_elems(pre.take(idx)) + carried + nodes_elems(
            pre.skip(idx),
        ));
    }

    /// The fed elements after a full level split: the right half stays at
    /// the level, the left half is carried one level up.
    proof fn lemma_fed_after_split(
        pre: Seq<Node<M>>,
        post: Seq<Node<M>>,
        idxm1: int,
        leftelems: Seq<M>,
        rightelems: Seq<M>,
        carried: Seq<M>,
        target: Seq<M>,
    )
        requires
            0 <= idxm1 < pre.len(),
            post.len() == pre.len(),
            post[idxm1].elems() == rightelems,
            forall|i: int| 0 <= i < pre.len() && i != idxm1 ==> post[i] == pre[i],
            leftelems + rightelems == pre[idxm1].elems() + carried,
            nodes_elems(pre.take(idxm1 + 1)) + carried + nodes_elems(pre.skip(idxm1 + 1))
                == target,
        ensures
            nodes_elems(post.take(idxm1)) + leftelems + nodes_elems(post.skip(idxm1)) == target,
    {
        assert(post.take(idxm1) =~= pre.take(idxm1));
        assert(post.skip(idxm1) =~= seq![post[idxm1]] + pre.skip(idxm1 + 1));
        lemma_nodes_elems_concat(seq![post[idxm1]], pre.skip(idxm1 + 1));
        lemma_nodes_elems_one(seq![post[idxm1]]);
        assert(pre.take(idxm1 + 1) =~= pre.take(idxm1) + seq![pre[idxm1]]);
        lemma_nodes_elems_concat(pre.take(idxm1), seq![pre[idxm1]]);
        lemma_nodes_elems_one(seq![pre[idxm1]]);
        assert(nodes_elems(post.take(idxm1)) + leftelems + nodes_elems(post.skip(idxm1))
            =~= nodes_elems(pre.take(idxm1)) + (leftelems + (rightelems + nodes_elems(
            pre.skip(idxm1 + 1),
        ))));
        assert(leftelems + (rightelems + nodes_elems(pre.skip(idxm1 + 1))) =~= (leftelems
            + rightelems) + nodes_elems(pre.skip(idxm1 + 1)));
        assert((pre[idxm1].elems() + carried) + nodes_elems(pre.skip(idxm1 + 1))
            =~= pre[idxm1].elems() + (carried + nodes_elems(pre.skip(idxm1 + 1))));
        assert(nodes_elems(pre.take(idxm1)) + (pre[idxm1].elems() + (carried + nodes_elems(
            pre.skip(idxm1 + 1),
        ))) =~= (nodes_elems(pre.take(idxm1)) + pre[idxm1].elems()) + carried + nodes_elems(
            pre.skip(idxm1 + 1),
        ));
    }

    /// Zips the spine levels together from the deepest up — each level
    /// becomes the last child of the level above, in the slot the walk-up
    /// kept free — then mends the right edge, mends the seam before an
    /// undersized final chunk, and pulls up any singular root.
    fn finish_internal(self, fix_tree: bool) -> (r: Rope<M>)
        requires
            self.stack_wf(),
            self.buffer@.len() == 0,
            self.fed().len() <= usize::MAX,
            width_sum(self.fed()) <= usize::MAX,
        ensures
            r.wf(),
            r@ == self.fed(),
            self.one_leaf() ==> r.single_chunk(),
    {
        proof {
            assert(self.fed() =~= self.stack_fed());
        }
        let mut stack = self.stack;
        let last_chunk_len = self.last_chunk_len;
        while stack.len() > 1
            invariant
                stack@.len() >= 1,
                forall|i: int| 0 <= i < stack@.len() ==> (#[trigger] stack@[i]).inv(),
                forall|i: int|
                    0 <= i < stack@.len() - 1 ==> (#[trigger] stack@[i]).height() == stack@[i
                        + 1].height() + 1,
                forall|i: int|
                    0 <= i < stack@.len() - 1 ==> ((#[trigger] stack@[i]) is Branch ==> stack@[
                    i].as_branch().entries@.len() <= MAX_CHILDREN - 1),
                forall|i: int|
                    0 <= i < stack@.len() ==> ((#[trigger] stack@[i]) is Leaf ==> stack@.len()
                        == 1),
                nodes_elems(stack@) == self.fed(),
                self.fed().len() <= usize::MAX,
                width_sum(self.fed()) <= usize::MAX,
                self.one_leaf() ==> stack@ == self.stack@,
            decreases stack@.len(),
        {
            let ghost prestack = stack@;
            let node = stack.pop().unwrap();
            let above = stack.pop().unwrap();
            proof {
                assert(prestack.drop_last().drop_last() =~= stack@);
                assert(above.height() == node.height() + 1);
                lemma_width_sum_nonneg(self.fed());
                assert(prestack =~= stack@ + seq![above, node]);
                lemma_nodes_elems_concat(stack@, seq![above, node]);
                assert(seq![above, node].drop_last() =~= seq![above]);
                lemma_nodes_elems_one(seq![above]);
                lemma_width_sum_nonneg(nodes_elems(stack@));
                lemma_width_sum_concat(nodes_elems(stack@), above.elems() + node.elems());
                lemma_width_sum_concat(above.elems(), node.elems());
                lemma_width_sum_nonneg(above.elems());
                lemma_width_sum_nonneg(node.elems());
            }
            match above {
                Node::Branch(mut bc) => {
                    let ghost abnode = Node::<M>::Branch(bc);
                    let ghost h = (abnode.height() - 1) as nat;
                    proof {
                        lemma_branch_parts(abnode);
                    }
                    let info = node.slice_info();
                    let ghost preentries = bc.entries@;
                    proof {
                        assert(node is Branch) by {
                            assert(node == prestack[prestack.len() - 1]);
                        }
                        assert(node.elems().len() > 0) by {
                            lemma_branch_parts(node);
                            crate::node::lemma_range_one(node.as_branch(), 0);
                            crate::node::lemma_range_split(
                                node.as_branch(),
                                0,
                                1,
                                node.as_branch().entries@.len() as int,
                            );
                        }
                    }
                    bc.push(info, Box::new(node));
                    proof {
                        let fin = bc;
                        assert(forall|k: int|
                            0 <= k < preentries.len() ==> (#[trigger] fin.entries@[0 + k])
                                == preentries[k]);
                        crate::node::lemma_range_one(fin, preentries.len() as int);
                        crate::node::lemma_range_split(
                            fin,
                            0,
                            preentries.len() as int,
                            fin.entries@.len() as int,
                        );
                        crate::node::lemma_range_congruent(
                            fin,
                            abnode.as_branch(),
                            0,
                            preentries.len() as int,
                            0,
                            preentries.len() as int,
                        );
                        assert(fin.all_elems() =~= abnode.elems() + node.elems());
                        assert forall|k: int| 0 <= k < fin.entries@.len() implies {
                            let e = #[trigger] fin.entries@[k];
                            crate::node::entry_ok(e) && e.node.inv() && e.node.height() == h
                        } by {
                            if k < preentries.len() {
                                assert(fin.entries@[0 + k] == preentries[k]);
                                assert(crate::node::entry_ok(abnode.as_branch().entries@[k])
                                    && abnode.as_branch().entries@[k].node.inv()
                                    && abnode.as_branch().entries@[k].node.height() == h);
                            }
                        }
                        lemma_branch_pack(bc, h);
                    }
                    let merged = Node::Branch(bc);
                    let ghost poppedstack = stack@;
                    stack.push(merged);
                    proof {
                        assert(stack@ =~= poppedstack + seq![merged]);
                        lemma_nodes_elems_concat(poppedstack, seq![merged]);
                        lemma_nodes_elems_one(seq![merged]);
                        assert(nodes_elems(stack@) =~= self.fed());
                        assert(merged.height() == abnode.height());
                        assert(forall|i: int|
                            0 <= i < poppedstack.len() ==> (#[trigger] stack@[i])
                                == poppedstack[i]);
                    }
                },
                Node::Leaf(_) => {
                    proof {
                        assert(above.height() >= 1) by {
                            assert(above.height() == node.height() + 1);
                        }
                        assert(false);
                    }
                    vstd::pervasive::unreached()
                },
            }
        }
        let ghost laststack = stack@;
        let mut root = stack.pop().unwrap();
        proof {
            assert(laststack =~= seq![root]);
            lemma_nodes_elems_one(laststack);
            assert(root.elems() == self.fed());
            lemma_width_sum_nonneg(root.elems());
        }
        if fix_tree {
            root.zip_fix_right();
            if last_chunk_len < MIN_LEN {
                let rl = root.len();
                if last_chunk_len != rl && last_chunk_len <= rl {
                    let binfo = root.index_to_slice_info(rl - last_chunk_len);
                    proof {
                        crate::widths::lemma_width_sum_take_mono(
                            root.elems(),
                            rl - last_chunk_len,
                            root.elems().len() as int,
                        );
                        assert(root.elems().take(root.elems().len() as int) =~= root.elems());
                        crate::widths::lemma_width_sum_nonneg(
                            root.elems().take(rl - last_chunk_len),
                        );
                    }
                    root.fix_tree_seam(binfo.width as usize);
                }
            }
        }
        proof {
            if root.height() == 0 {
                if root is Branch {
                    assert(root == Node::Branch(root.as_branch()));
                    assert(root.height() >= 1);
                }
            }
        }
        let mut rope = Rope::from_root(root);
        rope.pull_up_singular_nodes();
        rope
    }
}

impl<M: Measurable> Default for RopeBuilder<M> {
    fn default() -> (r: Self)
        ensures
            r.wf(),
            r.fed() == Seq::<M>::empty(),
    {
        RopeBuilder::new()
    }
}

} // verus!
