use vstd::prelude::*;

use crate::measurable::Measurable;

verus! {

/// Sum of the widths of the elements of `s`.
pub open spec fn width_sum<M: Measurable>(s: Seq<M>) -> int
    decreases s.len(),
{
    if s.len() == 0 {
        0
    } else {
        width_sum(s.drop_last()) + s.last().spec_width()
    }
}

/// True when the sequence ends in a zero-width element. This is the bit the
/// tree caches per child to keep width searches honest at boundaries where
/// zero-width elements cluster.
pub open spec fn zwe_of<M: Measurable>(s: Seq<M>) -> bool {
    s.len() > 0 && s.last().spec_width() == 0
}

/// The start-biased boundary for width `w`: the least index `i` such that
/// the scan from the left stops at `i`, either because element `i` reaches
/// past `w` or because a zero-width element sits exactly at coordinate `w`.
/// Insertions at `w` land before a run of zero-width elements there.
pub open spec fn start_wti<M: Measurable>(s: Seq<M>, w: int) -> int
    decreases s.len(),
{
    if s.len() == 0 {
        0
    } else if s[0].spec_width() > w || (s[0].spec_width() == 0 && w == 0) {
        0
    } else {
        1 + start_wti(s.skip(1), w - s[0].spec_width())
    }
}

/// The end-biased boundary for width `w`: the greatest index `i` with
/// `width_sum(s.take(i)) <= w`. A split at `w` keeps a run of zero-width
/// elements at coordinate `w` on the left side.
pub open spec fn end_wti<M: Measurable>(s: Seq<M>, w: int) -> int
    decreases s.len(),
{
    if s.len() == 0 {
        0
    } else if s[0].spec_width() <= w {
        1 + end_wti(s.skip(1), w - s[0].spec_width())
    } else {
        0
    }
}

pub proof fn lemma_width_sum_nonneg<M: Measurable>(s: Seq<M>)
    ensures
        width_sum(s) >= 0,
    decreases s.len(),
{
    if s.len() > 0 {
        lemma_width_sum_nonneg(s.drop_last());
    }
}

pub proof fn lemma_width_sum_concat<M: Measurable>(a: Seq<M>, b: Seq<M>)
    ensures
        width_sum(a + b) == width_sum(a) + width_sum(b),
    decreases b.len(),
{
    if b.len() == 0 {
        assert(a + b =~= a);
    } else {
        lemma_width_sum_concat(a, b.drop_last());
        assert((a + b).drop_last() =~= a + b.drop_last());
        assert((a + b).last() == b.last());
    }
}

/// Splitting a sequence splits its width sum.
pub proof fn lemma_width_sum_split<M: Measurable>(s: Seq<M>, i: int)
    requires
        0 <= i <= s.len(),
    ensures
        width_sum(s) == width_sum(s.take(i)) + width_sum(s.skip(i)),
{
    assert(s =~= s.take(i) + s.skip(i));
    lemma_width_sum_concat(s.take(i), s.skip(i));
}

/// Width sums of prefixes grow with the prefix.
pub proof fn lemma_width_sum_take_mono<M: Measurable>(s: Seq<M>, i: int, j: int)
    requires
        0 <= i <= j <= s.len(),
    ensures
        width_sum(s.take(i)) <= width_sum(s.take(j)),
{
    assert(s.take(j) =~= s.take(i) + s.take(j).skip(i));
    lemma_width_sum_concat(s.take(i), s.take(j).skip(i));
    lemma_width_sum_nonneg(s.take(j).skip(i));
}

pub proof fn lemma_width_sum_singleton<M: Measurable>(s: Seq<M>)
    requires
        s.len() == 1,
    ensures
        width_sum(s) == s[0].spec_width(),
{
    assert(s.drop_last() =~= Seq::<M>::empty());
    assert(width_sum(Seq::<M>::empty()) == 0);
    assert(s.last() == s[0]);
}

pub proof fn lemma_start_wti_bounds<M: Measurable>(s: Seq<M>, w: int)
    ensures
        0 <= start_wti(s, w) <= s.len(),
    decreases s.len(),
{
    if s.len() > 0 && !(s[0].spec_width() > w || (s[0].spec_width() == 0 && w == 0)) {
        lemma_start_wti_bounds(s.skip(1), w - s[0].spec_width());
    }
}

pub proof fn lemma_end_wti_bounds<M: Measurable>(s: Seq<M>, w: int)
    ensures
        0 <= end_wti(s, w) <= s.len(),
    decreases s.len(),
{
    if s.len() > 0 && s[0].spec_width() <= w {
        lemma_end_wti_bounds(s.skip(1), w - s[0].spec_width());
    }
}

/// The start scan runs off the end exactly when `w` lies past the total
/// width, or sits right at it with no zero-width tail to stop in.
pub proof fn lemma_start_wti_all<M: Measurable>(s: Seq<M>, w: int)
    requires
        w >= 0,
    ensures
        (start_wti(s, w) == s.len()) <==> (w > width_sum(s) || (w == width_sum(s) && !zwe_of(s))),
    decreases s.len(),
{
    lemma_width_sum_nonneg(s);
    if s.len() > 0 {
        let rest = s.skip(1);
        lemma_width_sum_nonneg(rest);
        assert(s =~= s.take(1) + rest);
        lemma_width_sum_concat(s.take(1), rest);
        lemma_width_sum_singleton(s.take(1));
        if !(s[0].spec_width() > w || (s[0].spec_width() == 0 && w == 0)) {
            lemma_start_wti_all(rest, w - s[0].spec_width());
            lemma_start_wti_bounds(rest, w - s[0].spec_width());
            if rest.len() > 0 {
                assert(rest.last() == s.last());
            } else {
                assert(width_sum(rest) == 0);
                assert(s.last() == s[0]);
            }
        } else {
            lemma_width_sum_nonneg(rest);
            lemma_width_sum_nonneg(s.drop_last());
            assert(width_sum(s) == width_sum(s.drop_last()) + s.last().spec_width());
        }
    }
}

/// The end scan consumes the whole sequence exactly when its width sum is
/// within `w`.
pub proof fn lemma_end_wti_all<M: Measurable>(s: Seq<M>, w: int)
    requires
        w >= 0,
    ensures
        (end_wti(s, w) == s.len()) <==> (width_sum(s) <= w),
    decreases s.len(),
{
    lemma_width_sum_nonneg(s);
    if s.len() > 0 {
        let rest = s.skip(1);
        assert(s =~= s.take(1) + rest);
        lemma_width_sum_concat(s.take(1), rest);
        lemma_width_sum_singleton(s.take(1));
        if s[0].spec_width() <= w {
            lemma_end_wti_all(rest, w - s[0].spec_width());
            lemma_end_wti_bounds(rest, w - s[0].spec_width());
        } else {
            lemma_width_sum_nonneg(rest);
        }
    }
}

/// How the start boundary of a concatenation decomposes: it lies in `a`
/// exactly when the scan of `a` stops early, and otherwise continues into
/// `b` with the width of `a` spent.
pub proof fn lemma_start_wti_concat<M: Measurable>(a: Seq<M>, b: Seq<M>, w: int)
    requires
        w >= 0,
    ensures
        start_wti(a, w) < a.len() ==> start_wti(a + b, w) == start_wti(a, w),
        start_wti(a, w) == a.len() ==> w >= width_sum(a) && start_wti(a + b, w) == a.len()
            + start_wti(b, w - width_sum(a)),
    decreases a.len(),
{
    lemma_start_wti_bounds(a, w);
    lemma_width_sum_nonneg(a);
    lemma_start_wti_all(a, w);
    if a.len() == 0 {
        assert(a + b =~= b);
        assert(width_sum(a) == 0);
    } else {
        let stop = a[0].spec_width() > w || (a[0].spec_width() == 0 && w == 0);
        assert((a + b)[0] == a[0]);
        if stop {
            assert(start_wti(a + b, w) == 0);
        } else {
            let rest = a.skip(1);
            assert((a + b).skip(1) =~= rest + b);
            assert(a =~= a.take(1) + rest);
            lemma_width_sum_concat(a.take(1), rest);
            lemma_width_sum_singleton(a.take(1));
            lemma_start_wti_concat(rest, b, w - a[0].spec_width());
        }
    }
}

/// How the end boundary of a concatenation decomposes.
pub proof fn lemma_end_wti_concat<M: Measurable>(a: Seq<M>, b: Seq<M>, w: int)
    requires
        w >= 0,
    ensures
        end_wti(a, w) < a.len() ==> end_wti(a + b, w) == end_wti(a, w),
        end_wti(a, w) == a.len() ==> width_sum(a) <= w && end_wti(a + b, w) == a.len() + end_wti(
            b,
            w - width_sum(a),
        ),
    decreases a.len(),
{
    lemma_end_wti_bounds(a, w);
    lemma_width_sum_nonneg(a);
    lemma_end_wti_all(a, w);
    if a.len() == 0 {
        assert(a + b =~= b);
        assert(width_sum(a) == 0);
    } else {
        assert((a + b)[0] == a[0]);
        if a[0].spec_width() <= w {
            let rest = a.skip(1);
            assert((a + b).skip(1) =~= rest + b);
            assert(a =~= a.take(1) + rest);
            lemma_width_sum_concat(a.take(1), rest);
            lemma_width_sum_singleton(a.take(1));
            lemma_end_wti_concat(rest, b, w - a[0].spec_width());
        } else {
            assert(end_wti(a + b, w) == 0);
        }
    }
}

/// The end boundary in terms of prefix width sums: the widths of the first
/// `end_wti(s, w)` elements fit within `w`, and one element more would not.
pub proof fn lemma_end_wti_char<M: Measurable>(s: Seq<M>, w: int)
    requires
        w >= 0,
    ensures
        width_sum(s.take(end_wti(s, w))) <= w,
        end_wti(s, w) < s.len() ==> width_sum(s.take(end_wti(s, w) + 1)) > w,
    decreases s.len(),
{
    lemma_end_wti_bounds(s, w);
    if s.len() == 0 {
        assert(s.take(0) =~= s);
    } else {
        let rest = s.skip(1);
        if s[0].spec_width() <= w {
            let e = end_wti(rest, w - s[0].spec_width());
            lemma_end_wti_bounds(rest, w - s[0].spec_width());
            lemma_end_wti_char(rest, w - s[0].spec_width());
            assert(s.take(1 + e) =~= s.take(1) + rest.take(e));
            lemma_width_sum_concat(s.take(1), rest.take(e));
            lemma_width_sum_singleton(s.take(1));
            if 1 + e < s.len() {
                assert(s.take(1 + e + 1) =~= s.take(1) + rest.take(e + 1));
                lemma_width_sum_concat(s.take(1), rest.take(e + 1));
            }
        } else {
            assert(s.take(0) =~= Seq::<M>::empty());
            assert(s.take(1) =~= s.take(1));
            lemma_width_sum_singleton(s.take(1));
            assert(width_sum(s.take(0)) == 0);
        }
    }
}

/// The start boundary in terms of prefix width sums.
pub proof fn lemma_start_wti_char<M: Measurable>(s: Seq<M>, w: int)
    requires
        w >= 0,
    ensures
        width_sum(s.take(start_wti(s, w))) <= w,
        start_wti(s, w) <= end_wti(s, w),
    decreases s.len(),
{
    lemma_start_wti_bounds(s, w);
    lemma_end_wti_bounds(s, w);
    if s.len() > 0 {
        let rest = s.skip(1);
        if !(s[0].spec_width() > w || (s[0].spec_width() == 0 && w == 0)) {
            let i = start_wti(rest, w - s[0].spec_width());
            lemma_start_wti_bounds(rest, w - s[0].spec_width());
            lemma_start_wti_char(rest, w - s[0].spec_width());
            assert(s.take(1 + i) =~= s.take(1) + rest.take(i));
            lemma_width_sum_concat(s.take(1), rest.take(i));
            lemma_width_sum_singleton(s.take(1));
        } else {
            assert(s.take(0) =~= Seq::<M>::empty());
        }
    }
}

/// At coordinate zero the start boundary is the very beginning.
pub proof fn lemma_start_wti_zero<M: Measurable>(s: Seq<M>)
    ensures
        start_wti(s, 0) == 0,
{
}

/// A wider coordinate never moves the end boundary left.
pub proof fn lemma_end_wti_mono<M: Measurable>(s: Seq<M>, w1: int, w2: int)
    requires
        0 <= w1 <= w2,
    ensures
        end_wti(s, w1) <= end_wti(s, w2),
    decreases s.len(),
{
    lemma_end_wti_bounds(s, w2);
    if s.len() > 0 && s[0].spec_width() <= w1 {
        lemma_end_wti_mono(s.skip(1), w1 - s[0].spec_width(), w2 - s[0].spec_width());
    }
}

/// The start boundary never passes the end boundary, even for a wider end
/// coordinate.
pub proof fn lemma_start_le_end<M: Measurable>(s: Seq<M>, w1: int, w2: int)
    requires
        0 <= w1 <= w2,
    ensures
        start_wti(s, w1) <= end_wti(s, w2),
{
    lemma_start_wti_char(s, w1);
    lemma_end_wti_mono(s, w1, w2);
}

/// What holds at the element the start scan stops on.
pub proof fn lemma_start_wti_stop<M: Measurable>(s: Seq<M>, w: int)
    requires
        w >= 0,
        start_wti(s, w) < s.len(),
    ensures
        ({
            let k = start_wti(s, w);
            s[k].spec_width() > w - width_sum(s.take(k)) || (s[k].spec_width() == 0 && width_sum(
                s.take(k),
            ) == w)
        }),
    decreases s.len(),
{
    lemma_start_wti_bounds(s, w);
    if s.len() > 0 {
        if !(s[0].spec_width() > w || (s[0].spec_width() == 0 && w == 0)) {
            let rest = s.skip(1);
            let k = start_wti(s, w);
            lemma_start_wti_bounds(rest, w - s[0].spec_width());
            assert(k == 1 + start_wti(rest, w - s[0].spec_width()));
            assert(1 <= k < s.len());
            lemma_start_wti_stop(rest, w - s[0].spec_width());
            assert(s.take(k) =~= s.take(1) + rest.take(k - 1));
            lemma_width_sum_concat(s.take(1), rest.take(k - 1));
            lemma_width_sum_singleton(s.take(1));
            assert(rest[k - 1] == s[k]);
        } else {
            assert(s.take(0) =~= Seq::<M>::empty());
        }
    }
}

/// The end boundary is the one position whose prefix width fits `w` while
/// the next prefix does not.
pub proof fn lemma_end_wti_unique<M: Measurable>(s: Seq<M>, w: int, k: int)
    requires
        w >= 0,
        0 <= k <= s.len(),
        width_sum(s.take(k)) <= w,
        k < s.len() ==> width_sum(s.take(k + 1)) > w,
    ensures
        end_wti(s, w) == k,
{
    let e = end_wti(s, w);
    lemma_end_wti_bounds(s, w);
    lemma_end_wti_char(s, w);
    if e < k {
        lemma_width_sum_take_mono(s, e + 1, k);
    }
    if k < e {
        lemma_width_sum_take_mono(s, k + 1, e);
    }
}

/// A contiguous run weighs no more than the whole sequence.
pub proof fn lemma_width_sum_subrange_le<M: Measurable>(s: Seq<M>, i: int, j: int)
    requires
        0 <= i <= j <= s.len(),
    ensures
        0 <= width_sum(s.subrange(i, j)) <= width_sum(s),
{
    assert(s =~= (s.take(i) + s.subrange(i, j)) + s.skip(j));
    lemma_width_sum_concat(s.take(i) + s.subrange(i, j), s.skip(j));
    lemma_width_sum_concat(s.take(i), s.subrange(i, j));
    lemma_width_sum_nonneg(s.take(i));
    lemma_width_sum_nonneg(s.skip(j));
    lemma_width_sum_nonneg(s.subrange(i, j));
}

/// Any position whose prefix width reaches `w` sits at or after the start
/// boundary.
pub proof fn lemma_start_wti_le_pos<M: Measurable>(s: Seq<M>, w: int, p: int)
    requires
        w >= 0,
        0 <= p <= s.len(),
        width_sum(s.take(p)) >= w,
    ensures
        start_wti(s, w) <= p,
{
    let a = s.take(p);
    let b = s.skip(p);
    assert(s =~= a + b);
    lemma_start_wti_concat(a, b, w);
    lemma_start_wti_bounds(a, w);
    if start_wti(a, w) == p {
        lemma_start_wti_all(a, w);
        lemma_start_wti_zero(b);
    }
}

/// Any position whose prefix width fits within `w` sits at or before the
/// end boundary.
pub proof fn lemma_end_wti_ge_pos<M: Measurable>(s: Seq<M>, w: int, p: int)
    requires
        w >= 0,
        0 <= p <= s.len(),
        width_sum(s.take(p)) <= w,
    ensures
        end_wti(s, w) >= p,
{
    let e = end_wti(s, w);
    lemma_end_wti_bounds(s, w);
    lemma_end_wti_char(s, w);
    if e < p {
        lemma_width_sum_take_mono(s, e + 1, p);
    }
}

/// An empty coordinate range sitting strictly inside a positive-width
/// element cuts nothing: both boundaries land on that element.
pub proof fn lemma_noop_cut<M: Measurable>(s: Seq<M>, w: int)
    requires
        w >= 0,
        start_wti(s, w) < s.len(),
        s[start_wti(s, w)].spec_width() > 0,
    ensures
        end_wti(s, w) == start_wti(s, w),
{
    let cs = start_wti(s, w);
    lemma_start_wti_bounds(s, w);
    lemma_start_wti_stop(s, w);
    lemma_start_wti_char(s, w);
    assert(s.take(cs + 1).drop_last() =~= s.take(cs));
    assert(s.take(cs + 1).last() == s[cs]);
    assert(width_sum(s.take(cs + 1)) == width_sum(s.take(cs)) + s[cs].spec_width());
    lemma_end_wti_unique(s, w, cs);
}

/// Cutting `[cs, ce)` out of a sequence: what the remainder counts and
/// weighs.
pub proof fn lemma_cut_aggregates<M: Measurable>(s: Seq<M>, cs: int, ce: int)
    requires
        0 <= cs <= ce <= s.len(),
    ensures
        (s.take(cs) + s.skip(ce)).len() == s.len() - (ce - cs),
        0 <= width_sum(s.take(cs) + s.skip(ce)) <= width_sum(s),
{
    lemma_width_sum_concat(s.take(cs), s.skip(ce));
    lemma_width_sum_nonneg(s.take(cs));
    lemma_width_sum_nonneg(s.skip(ce));
    lemma_width_sum_nonneg(s.subrange(cs, ce));
    assert(s =~= (s.take(cs) + s.subrange(cs, ce)) + s.skip(ce));
    lemma_width_sum_concat(s.take(cs) + s.subrange(cs, ce), s.skip(ce));
    lemma_width_sum_concat(s.take(cs), s.subrange(cs, ce));
}

/// Trimming a middle piece in place: the cut seen from the whole.
pub proof fn lemma_take_skip_mid<M: Measurable>(a: Seq<M>, c: Seq<M>, b: Seq<M>, s: int, e: int)
    requires
        0 <= s <= e <= c.len(),
    ensures
        a + (c.take(s) + c.skip(e)) + b == (a + c + b).take(a.len() + s) + (a + c + b).skip(
            a.len() + e,
        ),
{
    assert(a + (c.take(s) + c.skip(e)) + b =~= (a + c + b).take(a.len() + s) + (a + c + b).skip(
        a.len() + e,
    ));
}

/// Trimming a left piece's tail and a right piece's head, dropping what
/// sits between them: the cut seen from the whole.
pub proof fn lemma_take_skip_two<M: Measurable>(
    a: Seq<M>,
    cl: Seq<M>,
    m: Seq<M>,
    cr: Seq<M>,
    b: Seq<M>,
    s: int,
    e: int,
)
    requires
        0 <= s <= cl.len(),
        0 <= e <= cr.len(),
    ensures
        a + cl.take(s) + cr.skip(e) + b == (a + cl + m + cr + b).take(a.len() + s) + (a + cl + m
            + cr + b).skip(a.len() + cl.len() + m.len() + e),
{
    assert(a + cl.take(s) + cr.skip(e) + b =~= (a + cl + m + cr + b).take(a.len() + s) + (a + cl
        + m + cr + b).skip(a.len() + cl.len() + m.len() + e));
}

/// Inserting into a middle piece, seen from the whole.
pub proof fn lemma_splice_insert<M: Measurable>(
    a: Seq<M>,
    c: Seq<M>,
    b: Seq<M>,
    k: int,
    ins: Seq<M>,
)
    requires
        0 <= k <= c.len(),
    ensures
        a + (c.take(k) + ins + c.skip(k)) + b == (a + c + b).take(a.len() + k) + ins + (a + c
            + b).skip(a.len() + k),
{
    assert(a + (c.take(k) + ins + c.skip(k)) + b =~= (a + c + b).take(a.len() + k) + ins + (a + c
        + b).skip(a.len() + k));
}

/// Converting an index to its width coordinate and back lands on the same
/// index, as long as the element there has positive width. (Zero-width
/// elements share their coordinate with their neighbours, so only the
/// start- and end-biased searches tell them apart.)
pub proof fn lemma_width_index_round_trip<M: Measurable>(s: Seq<M>, i: int)
    requires
        0 <= i < s.len(),
        s[i].spec_width() > 0,
    ensures
        end_wti(s, width_sum(s.take(i))) == i,
    decreases s.len(),
{
    lemma_width_sum_nonneg(s.take(i));
    if i == 0 {
        assert(s.take(0) =~= Seq::<M>::empty());
        assert(width_sum(s.take(0)) == 0);
        assert(s[0].spec_width() > 0);
    } else {
        let rest = s.skip(1);
        let w = width_sum(s.take(i));
        assert(s.take(i) =~= s.take(1) + rest.take(i - 1));
        lemma_width_sum_concat(s.take(1), rest.take(i - 1));
        lemma_width_sum_singleton(s.take(1));
        lemma_width_sum_nonneg(rest.take(i - 1));
        assert(rest[i - 1] == s[i]);
        lemma_width_index_round_trip(rest, i - 1);
        assert(s[0].spec_width() <= w);
    }
}

/// Scans `slice` for the start-biased boundary of `width`.
pub fn start_width_to_index<M: Measurable>(slice: &[M], width: usize) -> (r: usize)
    requires
        width_sum(slice@) <= usize::MAX,
    ensures
        r == start_wti(slice@, width as int),
{
    let n = slice.len();
    let mut i: usize = 0;
    let mut acc: usize = 0;
    proof {
        assert(slice@.skip(0) =~= slice@);
        assert(slice@.take(0) =~= Seq::<M>::empty());
    }
    while i < n
        invariant
            0 <= i <= n,
            n == slice@.len(),
            width_sum(slice@) <= usize::MAX,
            acc == width_sum(slice@.take(i as int)),
            acc <= width,
            start_wti(slice@, width as int) == i + start_wti(
                slice@.skip(i as int),
                width - acc,
            ),
        decreases n - i,
    {
        let w_e = slice[i].width();
        proof {
            assert(slice@.skip(i as int)[0] == slice@[i as int]);
            assert(slice@.take(i + 1).drop_last() =~= slice@.take(i as int));
            assert(slice@.take(i + 1).last() == slice@[i as int]);
            lemma_width_sum_take_mono(slice@, i + 1, slice@.len() as int);
            assert(slice@.take(slice@.len() as int) =~= slice@);
        }
        if acc + w_e > width || (w_e == 0 && acc == width) {
            proof {
                assert(start_wti(slice@.skip(i as int), width - acc) == 0);
            }
            return i;
        }
        proof {
            assert(slice@.skip(i as int).skip(1) =~= slice@.skip(i + 1));
        }
        acc = acc + w_e;
        i = i + 1;
    }
    proof {
        assert(slice@.skip(i as int) =~= Seq::<M>::empty());
    }
    i
}

/// Scans `slice` for the end-biased boundary of `width`.
pub fn end_width_to_index<M: Measurable>(slice: &[M], width: usize) -> (r: usize)
    requires
        width_sum(slice@) <= usize::MAX,
    ensures
        r == end_wti(slice@, width as int),
{
    let n = slice.len();
    let mut i: usize = 0;
    let mut acc: usize = 0;
    proof {
        assert(slice@.skip(0) =~= slice@);
        assert(slice@.take(0) =~= Seq::<M>::empty());
    }
    while i < n
        invariant
            0 <= i <= n,
            n == slice@.len(),
            width_sum(slice@) <= usize::MAX,
            acc == width_sum(slice@.take(i as int)),
            acc <= width,
            end_wti(slice@, width as int) == i + end_wti(slice@.skip(i as int), width - acc),
        decreases n - i,
    {
        let w_e = slice[i].width();
        proof {
            assert(slice@.skip(i as int)[0] == slice@[i as int]);
            assert(slice@.take(i + 1).drop_last() =~= slice@.take(i as int));
            assert(slice@.take(i + 1).last() == slice@[i as int]);
            lemma_width_sum_take_mono(slice@, i + 1, slice@.len() as int);
            assert(slice@.take(slice@.len() as int) =~= slice@);
        }
        if acc + w_e > width {
            proof {
                assert(end_wti(slice@.skip(i as int), width - acc) == 0);
            }
            return i;
        }
        proof {
            assert(slice@.skip(i as int).skip(1) =~= slice@.skip(i + 1));
        }
        acc = acc + w_e;
        i = i + 1;
    }
    proof {
        assert(slice@.skip(i as int) =~= Seq::<M>::empty());
    }
    i
}

/// Sums the widths of the first `index` elements of `slice`.
pub fn index_to_width<M: Measurable>(slice: &[M], index: usize) -> (r: usize)
    requires
        index <= slice@.len(),
        width_sum(slice@) <= usize::MAX,
    ensures
        r == width_sum(slice@.take(index as int)),
{
    let mut i: usize = 0;
    let mut acc: usize = 0;
    while i < index
        invariant
            0 <= i <= index <= slice@.len(),
            width_sum(slice@) <= usize::MAX,
            acc == width_sum(slice@.take(i as int)),
        decreases index - i,
    {
        proof {
            assert(slice@.take(i + 1).drop_last() =~= slice@.take(i as int));
            assert(slice@.take(i + 1).last() == slice@[i as int]);
            lemma_width_sum_take_mono(slice@, i + 1, slice@.len() as int);
            assert(slice@.take(slice@.len() as int) =~= slice@);
            lemma_width_sum_nonneg(slice@.take(i as int));
        }
        let w_e = slice[i].width();
        acc = acc + w_e;
        i = i + 1;
    }
    acc
}

} // verus!
