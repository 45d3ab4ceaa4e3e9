use vstd::prelude::*;

use crate::measurable::Measurable;
use crate::node::entries_elems_range;
use crate::node::entry_ok;
use crate::node::lemma_range_congruent;
use crate::node::lemma_range_one;
use crate::node::lemma_range_split;
use crate::node::lemma_splice_elems;
use crate::node::lemma_entries_split_elems;
use crate::node::lemma_kids_split;
use crate::node::ChildEntry;
use crate::node::Node;
use crate::node::MAX_CHILDREN;
use crate::node::MAX_LEN;
use crate::node::MIN_CHILDREN;
use crate::slice_info::SliceInfo;
use crate::widths::end_wti;
use crate::widths::lemma_end_wti_all;
use crate::widths::lemma_end_wti_bounds;
use crate::widths::lemma_end_wti_concat;
use crate::widths::lemma_start_wti_all;
use crate::widths::lemma_start_wti_bounds;
use crate::widths::lemma_start_wti_concat;
use crate::widths::lemma_width_sum_concat;
use crate::widths::lemma_width_sum_nonneg;
use crate::widths::start_wti;
use crate::widths::width_sum;
use crate::widths::zwe_of;

verus! {

/// The children of a branch node: an ordered, bounded run of entries, each
/// holding a child together with its cached `SliceInfo` and zero-width-end
/// flag.
pub struct BranchChildren<M: Measurable> {
    pub entries: Vec<ChildEntry<M>>,
}

impl<M: Measurable> BranchChildren<M> {
    /// Everything the width searches lean on: accurate caches, no empty
    /// child, and totals that fit the machine.
    pub open spec fn search_ready(self) -> bool {
        &&& forall|i: int| 0 <= i < self.entries@.len() ==> entry_ok(#[trigger] self.entries@[i])
        &&& self.all_elems().len() <= usize::MAX
        &&& width_sum(self.all_elems()) <= usize::MAX
    }

    /// The elements of all children, in order.
    pub open spec fn all_elems(self) -> Seq<M> {
        entries_elems_range(self, 0, self.entries@.len() as int)
    }

    /// Every entry has accurate caches, a non-empty child, and a child that
    /// satisfies the traversal invariant.
    pub open spec fn kids_ok(self) -> bool {
        forall|i: int|
            0 <= i < self.entries@.len() ==> {
                let e = #[trigger] self.entries@[i];
                entry_ok(e) && e.node.inv()
            }
    }

    /// Every child stands at height `h`.
    pub open spec fn kids_height(self, h: nat) -> bool {
        forall|i: int|
            0 <= i < self.entries@.len() ==> (#[trigger] self.entries@[i]).node.height() == h
    }

    pub fn new() -> (r: Self)
        ensures
            r.entries@.len() == 0,
    {
        BranchChildren { entries: Vec::new() }
    }

    pub fn len(&self) -> (r: usize)
        ensures
            r == self.entries@.len(),
    {
        self.entries.len()
    }

    pub fn is_full(&self) -> (r: bool)
        ensures
            r == (self.entries@.len() == MAX_CHILDREN),
    {
        self.entries.len() == MAX_CHILDREN
    }

    /// The elements of children `0..i`.
    pub open spec fn prefix_len(self, i: int) -> int {
        entries_elems_range(self, 0, i).len() as int
    }

    pub open spec fn prefix_width(self, i: int) -> int {
        width_sum(entries_elems_range(self, 0, i))
    }

    /// Appends a child entry; the zero-width-end flag is read off the child.
    pub fn push(&mut self, info: SliceInfo, node: Box<Node<M>>)
        requires
            node.inv(),
        ensures
            final(self).entries@ == old(self).entries@.push(
                ChildEntry { info, zwe: zwe_of(node.elems()), node },
            ),
    {
        let zwe = node.zero_width_end();
        self.entries.push(ChildEntry { info, zwe, node });
    }

    pub fn pop(&mut self) -> (r: ChildEntry<M>)
        requires
            old(self).entries@.len() > 0,
        ensures
            final(self).entries@ == old(self).entries@.drop_last(),
            r == old(self).entries@.last(),
    {
        let r = self.entries.pop().unwrap();
        proof {
            assert(final(self).entries@ =~= old(self).entries@.drop_last());
        }
        r
    }

    pub fn insert(&mut self, i: usize, info: SliceInfo, node: Box<Node<M>>)
        requires
            i <= old(self).entries@.len(),
            node.inv(),
        ensures
            final(self).entries@ == old(self).entries@.insert(
                i as int,
                ChildEntry { info, zwe: zwe_of(node.elems()), node },
            ),
    {
        let zwe = node.zero_width_end();
        self.entries.insert(i, ChildEntry { info, zwe, node });
    }

    pub fn remove(&mut self, i: usize) -> (r: ChildEntry<M>)
        requires
            i < old(self).entries@.len(),
        ensures
            final(self).entries@ == old(self).entries@.remove(i as int),
            r == old(self).entries@[i as int],
    {
        self.entries.remove(i)
    }

    /// Splits the children at `i`; the left part stays, the right part is
    /// returned.
    pub fn split_off(&mut self, i: usize) -> (r: Self)
        requires
            i <= old(self).entries@.len(),
        ensures
            final(self).entries@ == old(self).entries@.take(i as int),
            r.entries@ == old(self).entries@.skip(i as int),
    {
        let tail = self.entries.split_off(i);
        proof {
            assert(final(self).entries@ =~= old(self).entries@.take(i as int));
            assert(tail@ =~= old(self).entries@.skip(i as int));
        }
        BranchChildren { entries: tail }
    }

    /// Re-reads entry `i`'s cached info and flag from its current child.
    pub fn update_child_info(&mut self, i: usize)
        requires
            i < old(self).entries@.len(),
            old(self).entries@[i as int].node.inv(),
        ensures
            final(self).entries@.len() == old(self).entries@.len(),
            forall|k: int|
                0 <= k < old(self).entries@.len() && k != i ==> final(self).entries@[k] == old(
                    self,
                ).entries@[k],
            final(self).entries@[i as int].node == old(self).entries@[i as int].node,
            entry_ok(final(self).entries@[i as int])
                || final(self).entries@[i as int].node.elems().len() == 0,
    {
        let e = vstd::std_specs::vec::vec_index_mut(&mut self.entries, i);
        let info = e.node.slice_info();
        let zwe = e.node.zero_width_end();
        e.info = info;
        e.zwe = zwe;
    }

    /// Sums the cached infos of all children, which by the cache invariant
    /// is the aggregate of every element below this branch.
    pub fn combined_info(&self) -> (r: SliceInfo)
        requires
            self.search_ready(),
        ensures
            r.len == self.all_elems().len(),
            r.width == width_sum(self.all_elems()),
    {
        let n = self.entries.len();
        let mut acc = SliceInfo::new();
        let mut i: usize = 0;
        while i < n
            invariant
                0 <= i <= n,
                n == self.entries@.len(),
                self.search_ready(),
                acc.len == self.prefix_len(i as int),
                acc.width == self.prefix_width(i as int),
            decreases n - i,
        {
            proof {
                self.lemma_prefix_step(i as int);
                self.lemma_prefix_in_bounds(i + 1);
            }
            acc = acc.plus(self.entries[i].info);
            i = i + 1;
        }
        acc
    }

    /// One scan step: the prefix through child `i` is the prefix before it
    /// plus that child's elements.
    pub proof fn lemma_prefix_step(self, i: int)
        requires
            0 <= i < self.entries@.len(),
        ensures
            entries_elems_range(self, 0, i + 1) == entries_elems_range(self, 0, i)
                + self.entries@[i].node.elems(),
            self.prefix_len(i + 1) == self.prefix_len(i) + self.entries@[i].node.elems().len(),
            self.prefix_width(i + 1) == self.prefix_width(i) + width_sum(
                self.entries@[i].node.elems(),
            ),
    {
        lemma_range_split(self, 0, i, i + 1);
        lemma_range_one(self, i);
        lemma_width_sum_concat(
            entries_elems_range(self, 0, i),
            self.entries@[i].node.elems(),
        );
    }

    /// Finds the child holding the start-biased boundary of `width`,
    /// returning its position and the aggregate of everything before it.
    /// The cached zero-width-end flags keep the search from running past a
    /// zero-width tail that sits exactly at `width`.
    pub fn search_start_width(&self, width: usize) -> (r: (usize, SliceInfo))
        requires
            self.search_ready(),
            self.entries@.len() > 0,
            width <= width_sum(self.all_elems()),
        ensures
            r.0 < self.entries@.len(),
            r.1.len == self.prefix_len(r.0 as int),
            r.1.width == self.prefix_width(r.0 as int),
            r.1.width <= width,
            width - r.1.width <= width_sum(self.entries@[r.0 as int].node.elems()),
            start_wti(self.all_elems(), width as int) == r.1.len + start_wti(
                self.entries@[r.0 as int].node.elems(),
                width - r.1.width,
            ),
            r.0 < self.entries@.len() - 1 ==> start_wti(
                self.entries@[r.0 as int].node.elems(),
                width - r.1.width,
            ) < self.entries@[r.0 as int].node.elems().len(),
    {
        let n = self.entries.len();
        let mut acc = SliceInfo::new();
        let mut i: usize = 0;
        while i < n - 1
            invariant
                0 <= i < n,
                n == self.entries@.len(),
                self.search_ready(),
                acc.len == self.prefix_len(i as int),
                acc.width == self.prefix_width(i as int),
                acc.width <= width,
                start_wti(self.all_elems(), width as int) == self.prefix_len(i as int) + start_wti(
                    entries_elems_range(*self, i as int, n as int),
                    width - acc.width,
                ),
            decreases n - i,
        {
            let ghost child = self.entries@[i as int].node.elems();
            let ghost w_loc = width - acc.width;
            proof {
                self.lemma_prefix_step(i as int);
                self.lemma_prefix_in_bounds(i + 1);
                lemma_range_split(*self, i as int, i + 1, n as int);
                lemma_range_one(*self, i as int);
                lemma_start_wti_all(child, w_loc);
                lemma_start_wti_bounds(child, w_loc);
                lemma_start_wti_concat(
                    child,
                    entries_elems_range(*self, i + 1, n as int),
                    w_loc,
                );
            }
            let cw = self.entries[i].info.width;
            if acc.width + cw > width as u64 || (self.entries[i].zwe && acc.width + cw
                == width as u64) {
                return (i, acc);
            }
            acc = acc.plus(self.entries[i].info);
            i = i + 1;
        }
        proof {
            lemma_range_one(*self, i as int);
            self.lemma_prefix_step(i as int);
        }
        (i, acc)
    }

    /// Finds the child holding the end-biased boundary of `width`: the
    /// rightmost child whose span still contains the coordinate.
    pub fn search_end_width(&self, width: usize) -> (r: (usize, SliceInfo))
        requires
            self.search_ready(),
            self.entries@.len() > 0,
            width <= width_sum(self.all_elems()),
        ensures
            r.0 < self.entries@.len(),
            r.1.len == self.prefix_len(r.0 as int),
            r.1.width == self.prefix_width(r.0 as int),
            r.1.width <= width,
            width - r.1.width <= width_sum(self.entries@[r.0 as int].node.elems()),
            end_wti(self.all_elems(), width as int) == r.1.len + end_wti(
                self.entries@[r.0 as int].node.elems(),
                width - r.1.width,
            ),
    {
        let n = self.entries.len();
        let mut acc = SliceInfo::new();
        let mut i: usize = 0;
        while i < n - 1
            invariant
                0 <= i < n,
                n == self.entries@.len(),
                self.search_ready(),
                acc.len == self.prefix_len(i as int),
                acc.width == self.prefix_width(i as int),
                acc.width <= width,
                end_wti(self.all_elems(), width as int) == self.prefix_len(i as int) + end_wti(
                    entries_elems_range(*self, i as int, n as int),
                    width - acc.width,
                ),
            decreases n - i,
        {
            let ghost child = self.entries@[i as int].node.elems();
            let ghost w_loc = width - acc.width;
            proof {
                self.lemma_prefix_step(i as int);
                self.lemma_prefix_in_bounds(i + 1);
                lemma_range_split(*self, i as int, i + 1, n as int);
                lemma_range_one(*self, i as int);
                lemma_end_wti_all(child, w_loc);
                lemma_end_wti_bounds(child, w_loc);
                lemma_end_wti_concat(
                    child,
                    entries_elems_range(*self, i + 1, n as int),
                    w_loc,
                );
            }
            let cw = self.entries[i].info.width;
            if acc.width + cw > width as u64 {
                return (i, acc);
            }
            acc = acc.plus(self.entries[i].info);
            i = i + 1;
        }
        proof {
            lemma_range_one(*self, i as int);
            self.lemma_prefix_step(i as int);
        }
        (i, acc)
    }

    /// Finds the child holding element `index`.
    pub fn search_index(&self, index: usize) -> (r: (usize, SliceInfo))
        requires
            self.search_ready(),
            self.entries@.len() > 0,
            index <= self.all_elems().len(),
        ensures
            r.0 < self.entries@.len(),
            r.1.len == self.prefix_len(r.0 as int),
            r.1.width == self.prefix_width(r.0 as int),
            r.1.len <= index,
            index - r.1.len <= self.entries@[r.0 as int].node.elems().len(),
            index < self.all_elems().len() ==> index - r.1.len < self.entries@[r.0 as int].node.elems().len(),
    {
        let n = self.entries.len();
        let mut acc = SliceInfo::new();
        let mut i: usize = 0;
        while i < n - 1
            invariant
                0 <= i < n,
                n == self.entries@.len(),
                self.search_ready(),
                index <= self.all_elems().len(),
                acc.len == self.prefix_len(i as int),
                acc.width == self.prefix_width(i as int),
                acc.len <= index,
            decreases n - i,
        {
            proof {
                self.lemma_prefix_step(i as int);
                self.lemma_prefix_in_bounds(i + 1);
            }
            let cl = self.entries[i].info.len;
            if acc.len + cl > index as u64 {
                return (i, acc);
            }
            acc = acc.plus(self.entries[i].info);
            i = i + 1;
        }
        proof {
            self.lemma_prefix_step(i as int);
            self.lemma_prefix_in_bounds(i as int);
            lemma_range_one(*self, i as int);
            assert(self.prefix_len(i as int) + self.entries@[i as int].node.elems().len()
                == self.all_elems().len());
        }
        (i, acc)
    }

    /// Inserts into a full run of children by splitting it in two roughly
    /// equal halves; the left half stays, the right half is returned.
    pub fn insert_split(&mut self, i: usize, info: SliceInfo, node: Box<Node<M>>) -> (r: Self)
        requires
            old(self).entries@.len() == MAX_CHILDREN,
            i <= MAX_CHILDREN,
            node.inv(),
        ensures
            ({
                let inserted = old(self).entries@.insert(
                    i as int,
                    ChildEntry { info, zwe: zwe_of(node.elems()), node },
                );
                let left = ((MAX_CHILDREN + 1) / 2) as int;
                &&& final(self).entries@ == inserted.take(left)
                &&& r.entries@ == inserted.skip(left)
            }),
    {
        self.insert(i, info, node);
        self.split_off((MAX_CHILDREN + 1) / 2)
    }

    /// Appends into a full run of children by splitting, as `insert_split`
    /// does at the end position.
    pub fn push_split(&mut self, info: SliceInfo, node: Box<Node<M>>) -> (r: Self)
        requires
            old(self).entries@.len() == MAX_CHILDREN,
            node.inv(),
        ensures
            ({
                let inserted = old(self).entries@.push(
                    ChildEntry { info, zwe: zwe_of(node.elems()), node },
                );
                let left = ((MAX_CHILDREN + 1) / 2) as int;
                &&& final(self).entries@ == inserted.take(left)
                &&& r.entries@ == inserted.skip(left)
            }),
    {
        let n = self.len();
        let r = self.insert_split(n, info, node);
        proof {
            assert(old(self).entries@.insert(
                n as int,
                ChildEntry { info, zwe: zwe_of(node.elems()), node },
            ) =~= old(self).entries@.push(
                ChildEntry { info, zwe: zwe_of(node.elems()), node },
            ));
        }
        r
    }

    /// Moves children between two adjacent sibling runs so that both end up
    /// with a legal count; the order of the children is kept.
    pub fn distribute_with(&mut self, other: &mut BranchChildren<M>)
        requires
            MAX_CHILDREN < old(self).entries@.len() + old(other).entries@.len() <= 2
                * MAX_CHILDREN,
        ensures
            final(self).entries@ + final(other).entries@ == old(self).entries@ + old(
                other,
            ).entries@,
            final(self).entries@.len() == (old(self).entries@.len() + old(other).entries@.len()
                + 1) / 2,
            MIN_CHILDREN <= final(self).entries@.len() <= MAX_CHILDREN,
            MIN_CHILDREN <= final(other).entries@.len() <= MAX_CHILDREN,
    {
        let n_l = self.entries.len();
        let n_r = other.entries.len();
        let target = (n_l + n_r + 1) / 2;
        if n_l > target {
            let mut tail = self.split_off(target);
            tail.entries.append(&mut other.entries);
            *other = tail;
            proof {
                assert(final(self).entries@ + final(other).entries@ =~= old(self).entries@ + old(
                    other,
                ).entries@);
            }
        } else if n_l < target {
            let k = target - n_l;
            let rest = other.split_off(k);
            self.entries.append(&mut other.entries);
            *other = rest;
            proof {
                assert(final(self).entries@ + final(other).entries@ =~= old(self).entries@ + old(
                    other,
                ).entries@);
            }
        }
    }

    /// Merges the adjacent children `i` and `j` into one when their
    /// contents fit a single node, and otherwise redistributes the contents
    /// so that neither is undersized. Returns whether the two became one.
    #[verifier::spinoff_prover]
    #[verifier::rlimit(100)]
    pub fn merge_distribute(&mut self, i: usize, j: usize) -> (r: bool)
        requires
            j == i + 1,
            j < old(self).entries@.len(),
            old(self).kids_ok(),
            old(self).entries@[i as int].node.height() == old(
                self,
            ).entries@[j as int].node.height(),
            old(self).all_elems().len() <= usize::MAX,
            width_sum(old(self).all_elems()) <= usize::MAX,
        ensures
            final(self).all_elems() == old(self).all_elems(),
            final(self).kids_ok(),
            forall|h: nat| old(self).kids_height(h) ==> final(self).kids_height(h),
            r ==> final(self).entries@.len() == old(self).entries@.len() - 1,
            r ==> final(self).entries@[i as int].node.elems() == old(
                self,
            ).entries@[i as int].node.elems() + old(self).entries@[j as int].node.elems(),
            r ==> forall|k: int|
                j < k < old(self).entries@.len() ==> (#[trigger] final(self).entries@[k - 1])
                    == old(self).entries@[k],
            !r ==> final(self).entries@.len() == old(self).entries@.len()
                && !final(self).entries@[i as int].node.spec_undersized()
                && !final(self).entries@[j as int].node.spec_undersized(),
            !r ==> final(self).entries@[i as int].node.elems()
                + final(self).entries@[j as int].node.elems() == old(
                self,
            ).entries@[i as int].node.elems() + old(self).entries@[j as int].node.elems(),
            !r ==> forall|k: int|
                j < k < old(self).entries@.len() ==> (#[trigger] final(self).entries@[k]) == old(
                    self,
                ).entries@[k],
            old(self).entries@[i as int].node.height() == 0 && old(
                self,
            ).entries@[i as int].node.elems().len() + old(
                self,
            ).entries@[j as int].node.elems().len() <= MAX_LEN ==> r,
            forall|k: int| 0 <= k < i ==> final(self).entries@[k] == old(self).entries@[k],
    {
        let ghost n = old(self).entries@.len() as int;
        proof {
            lemma_range_split(*self, 0, i as int, n);
            lemma_range_split(*self, i as int, i + 1, n);
            lemma_range_split(*self, j as int, j + 1, n);
            lemma_range_one(*self, i as int);
            lemma_range_one(*self, j as int);
            lemma_width_sum_nonneg(entries_elems_range(*self, 0, i as int));
            lemma_width_sum_nonneg(entries_elems_range(*self, j + 1, n));
            lemma_width_sum_nonneg(old(self).entries@[i as int].node.elems());
            lemma_width_sum_nonneg(old(self).entries@[j as int].node.elems());
            lemma_width_sum_concat(
                entries_elems_range(*self, 0, i as int),
                entries_elems_range(*self, i as int, n),
            );
            lemma_width_sum_concat(
                old(self).entries@[i as int].node.elems(),
                entries_elems_range(*self, j as int, n),
            );
            lemma_width_sum_concat(
                old(self).entries@[j as int].node.elems(),
                entries_elems_range(*self, j + 1, n),
            );
        }
        let e2 = self.remove(j);
        let e1 = self.remove(i);
        let (n1, n2opt) = Node::merge_nodes(e1.node, e2.node);
        let info1 = n1.slice_info();
        let merged = match n2opt {
            None => {
                self.insert(i, info1, n1);
                true
            },
            Some(n2) => {
                self.insert(i, info1, n1);
                let info2 = n2.slice_info();
                self.insert(j, info2, n2);
                false
            },
        };
        proof {
            let fin = *self;
            let oldb = *old(self);
            let tail = n - (j + 1);
            let lead = if merged {
                (i + 1) as int
            } else {
                (j + 1) as int
            };
            assert(forall|k: int|
                0 <= k < i ==> (#[trigger] fin.entries@[k]) == oldb.entries@[k]);
            assert(forall|k: int|
                0 <= k < tail ==> (#[trigger] fin.entries@[lead + k]) == oldb.entries@[j + 1 + k]);
            assert(forall|k: int|
                0 <= k < i ==> (#[trigger] fin.entries@[0 + k]).node.elems() == oldb.entries@[0
                    + k].node.elems());
            assert(forall|k: int|
                0 <= k < tail ==> (#[trigger] fin.entries@[lead + k]).node.elems()
                    == oldb.entries@[(j + 1) + k].node.elems());
            lemma_range_congruent(fin, oldb, 0, i as int, 0, i as int);
            lemma_range_congruent(fin, oldb, lead, lead + tail, j + 1, n);
            lemma_range_split(fin, 0, i as int, fin.entries@.len() as int);
            lemma_range_split(fin, i as int, lead, fin.entries@.len() as int);
            lemma_range_one(fin, i as int);
            if !merged {
                lemma_range_split(fin, i + 1, j as int + 1, fin.entries@.len() as int);
                lemma_range_one(fin, j as int);
            }
            assert(fin.all_elems() =~= oldb.all_elems());
            assert forall|k: int| 0 <= k < fin.entries@.len() implies {
                let e = #[trigger] fin.entries@[k];
                entry_ok(e) && e.node.inv()
            } by {
                if k < i {
                    assert(entry_ok(oldb.entries@[k]) && oldb.entries@[k].node.inv());
                } else if k >= lead {
                    assert(entry_ok(oldb.entries@[j + 1 + (k - lead)]) && oldb.entries@[j + 1 + (k
                        - lead)].node.inv());
                }
            }
            assert forall|h: nat| oldb.kids_height(h) implies fin.kids_height(h) by {
                assert(oldb.entries@[i as int].node.height() == fin.entries@[i as int].node.height()
                    || !oldb.kids_height(h));
                assert forall|k: int| 0 <= k < fin.entries@.len() && oldb.kids_height(h) implies (
                #[trigger] fin.entries@[k]).node.height() == h by {
                    if k < i {
                        assert(oldb.entries@[k].node.height() == h);
                    } else if k >= lead {
                        assert(oldb.entries@[j + 1 + (k - lead)].node.height() == h);
                    } else {
                        assert(oldb.entries@[i as int].node.height() == h);
                    }
                }
            }
        }
        merged
    }

    /// Inserts a child entry at `i`. When the run already holds `cap`
    /// children or more, it is split in two roughly equal halves instead,
    /// with the new child in place and the right half returned.
    pub fn insert_child(
        &mut self,
        i: usize,
        info: SliceInfo,
        node: Box<Node<M>>,
        cap: usize,
        height: Ghost<nat>,
    ) -> (r: Option<BranchChildren<M>>)
        requires
            old(self).kids_ok(),
            old(self).kids_height(height@),
            i <= old(self).entries@.len(),
            old(self).entries@.len() <= MAX_CHILDREN,
            MAX_CHILDREN - 1 <= cap <= MAX_CHILDREN,
            node.inv(),
            node.height() == height@,
            node.elems().len() > 0,
            info.len == node.elems().len(),
            info.width == width_sum(node.elems()),
        ensures
            final(self).kids_ok(),
            final(self).kids_height(height@),
            1 <= final(self).entries@.len() <= MAX_CHILDREN,
            ({
                let withnew = entries_elems_range(*old(self), 0, i as int) + node.elems()
                    + entries_elems_range(
                    *old(self),
                    i as int,
                    old(self).entries@.len() as int,
                );
                match r {
                    None => final(self).all_elems() == withnew && final(self).entries@.len() == old(
                        self,
                    ).entries@.len() + 1,
                    Some(rc) => {
                        &&& final(self).all_elems() + rc.all_elems() == withnew
                        &&& rc.kids_ok()
                        &&& rc.kids_height(height@)
                        &&& MIN_CHILDREN <= rc.entries@.len() <= MAX_CHILDREN
                        &&& MIN_CHILDREN <= final(self).entries@.len()
                        &&& final(self).entries@.len() == (old(self).entries@.len() + 2) / 2
                        &&& rc.entries@.len() == old(self).entries@.len() + 1 - (old(
                            self,
                        ).entries@.len() + 2) / 2
                        &&& rc.all_elems().len() > 0
                    },
                }
            }),
            r is Some <==> old(self).entries@.len() >= cap,
    {
        let n = self.len();
        self.insert(i, info, node);
        let ghost midb = *self;
        proof {
            assert(forall|k: int|
                0 <= k < i ==> (#[trigger] midb.entries@[0 + k]) == old(self).entries@[0 + k]);
            assert(forall|k: int|
                0 <= k < n - i ==> (#[trigger] midb.entries@[(i + 1) + k]) == old(
                    self,
                ).entries@[i + k]);
            assert(forall|k: int|
                0 <= k < i ==> (#[trigger] midb.entries@[0 + k]).node.elems() == old(
                    self,
                ).entries@[0 + k].node.elems());
            assert(forall|k: int|
                0 <= k < n - i ==> (#[trigger] midb.entries@[(i as int + 1) + k]).node.elems()
                    == old(self).entries@[i + k].node.elems());
            lemma_splice_elems(*old(self), midb, i as int, i as int, 1);
            lemma_range_one(midb, i as int);
            assert forall|k: int| 0 <= k < midb.entries@.len() implies {
                let e = #[trigger] midb.entries@[k];
                entry_ok(e) && e.node.inv() && e.node.height() == height@
            } by {
                if k < i {
                    assert(midb.entries@[0 + k] == old(self).entries@[k]);
                    assert(entry_ok(old(self).entries@[k]) && old(self).entries@[k].node.inv()
                        && old(self).entries@[k].node.height() == height@);
                } else if k > i {
                    assert(midb.entries@[(i + 1) + (k - i - 1)] == old(self).entries@[i + (k - i
                        - 1)]);
                    assert(entry_ok(old(self).entries@[k - 1]) && old(
                        self,
                    ).entries@[k - 1].node.inv() && old(self).entries@[k - 1].node.height()
                        == height@);
                }
            }
        }
        if n < cap {
            return None;
        }
        let left = (n + 2) / 2;
        let rc = self.split_off(left);
        proof {
            assert(final(self).entries@ + rc.entries@ =~= midb.entries@);
            lemma_entries_split_elems(midb, *self, rc);
            lemma_kids_split(midb, *self, rc, height@);
            lemma_range_one(rc, 0);
            lemma_range_split(rc, 0, 1, rc.entries@.len() as int);
            assert(entry_ok(rc.entries@[0]));
        }
        Some(rc)
    }

    /// Merges child `i` with a neighbour when it has become undersized, as
    /// the aftermath of removals calls for.
    pub fn merge_child(&mut self, i: usize, height: Ghost<nat>)
        requires
            old(self).kids_ok(),
            old(self).kids_height(height@),
            old(self).all_elems().len() <= usize::MAX,
            width_sum(old(self).all_elems()) <= usize::MAX,
        ensures
            final(self).all_elems() == old(self).all_elems(),
            final(self).kids_ok(),
            final(self).kids_height(height@),
            old(self).entries@.len() - 1 <= final(self).entries@.len() <= old(
                self,
            ).entries@.len(),
            old(self).entries@.len() >= 1 ==> final(self).entries@.len() >= 1,
            (old(self).entries@.len() <= 1 || i >= old(self).entries@.len() || !old(
                self,
            ).entries@[i as int].node.spec_undersized()) ==> final(self).entries@ == old(
                self,
            ).entries@,
            ({
                let b0 = *old(self);
                let b1 = *final(self);
                (i < b0.entries@.len() && b0.entries@.len() > 1
                    && b0.entries@[i as int].node.spec_undersized()) ==> {
                    ||| b1.entries@.len() == b0.entries@.len() - 1
                    ||| (i == 0 && !b1.entries@[0].node.spec_undersized()
                        && !b1.entries@[1].node.spec_undersized())
                    ||| (i > 0 && !b1.entries@[i - 1].node.spec_undersized()
                        && !b1.entries@[i as int].node.spec_undersized())
                }
            }),
    {
        let n = self.len();
        if i < n && n > 1 && self.entries[i].node.is_undersized() {
            if i == 0 {
                self.merge_distribute(0, 1);
            } else {
                self.merge_distribute(i - 1, i);
            }
        }
    }

    /// When every child is a leaf and the branch has grown fragmented,
    /// fuses adjacent leaves that fit in one node, leaving fewer, fuller
    /// leaves behind.
    pub fn compact_leaves(&mut self)
        requires
            old(self).kids_ok(),
            old(self).kids_height(0),
            old(self).entries@.len() > 0,
            old(self).all_elems().len() <= usize::MAX,
            width_sum(old(self).all_elems()) <= usize::MAX,
        ensures
            final(self).all_elems() == old(self).all_elems(),
            final(self).kids_ok(),
            final(self).kids_height(0),
            1 <= final(self).entries@.len() <= old(self).entries@.len(),
            forall|k: int|
                0 <= k < final(self).entries@.len() - 1 ==> (#[trigger] final(self).entries@[
                k]).node.elems().len() + final(self).entries@[k + 1].node.elems().len()
                    > MAX_LEN,
    {
        let mut i: usize = 0;
        loop
            invariant
                self.all_elems() == old(self).all_elems(),
                self.kids_ok(),
                self.kids_height(0),
                1 <= self.entries@.len() <= old(self).entries@.len(),
                0 <= i <= self.entries@.len(),
                self.all_elems().len() <= usize::MAX,
                width_sum(self.all_elems()) <= usize::MAX,
                forall|k: int|
                    0 <= k < i && k + 1 < self.entries@.len() ==> (#[trigger] self.entries@[
                    k]).node.elems().len() + self.entries@[k + 1].node.elems().len() > MAX_LEN,
            decreases self.entries@.len() - i,
        {
            let n = self.len();
            if i >= n - 1 {
                return ;
            }
            if self.entries[i].info.len + self.entries[i + 1].info.len <= MAX_LEN as u64 {
                let ghost before = *self;
                let merged = self.merge_distribute(i, i + 1);
                proof {
                    assert(merged);
                    assert(self.entries@[i as int].node.elems() == before.entries@[
                    i as int].node.elems() + before.entries@[i + 1].node.elems());
                    assert forall|k: int|
                        0 <= k < i && k + 1 < self.entries@.len() implies (#[trigger] self.entries@[
                    k]).node.elems().len() + self.entries@[k + 1].node.elems().len()
                        > MAX_LEN by {
                        assert(self.entries@[k] == before.entries@[k]);
                        if k + 1 < i {
                            assert(self.entries@[k + 1] == before.entries@[k + 1]);
                        }
                    }
                }
            } else {
                i = i + 1;
            }
        }
    }

    /// Prefix aggregates never pass the whole tree's aggregates.
    pub proof fn lemma_prefix_in_bounds(self, i: int)
        requires
            0 <= i <= self.entries@.len(),
        ensures
            self.prefix_len(i) + entries_elems_range(self, i, self.entries@.len() as int).len()
                == self.all_elems().len(),
            self.prefix_width(i) + width_sum(
                entries_elems_range(self, i, self.entries@.len() as int),
            ) == width_sum(self.all_elems()),
            0 <= self.prefix_len(i) <= self.all_elems().len(),
            0 <= self.prefix_width(i) <= width_sum(self.all_elems()),
    {
        let n = self.entries@.len() as int;
        lemma_range_split(self, 0, i, n);
        lemma_width_sum_concat(
            entries_elems_range(self, 0, i),
            entries_elems_range(self, i, n),
        );
        lemma_width_sum_nonneg(entries_elems_range(self, 0, i));
        lemma_width_sum_nonneg(entries_elems_range(self, i, n));
    }
}

} // verus!
