//! Merging of several sorted runs into one.
//!
//! The sources wait in a binary min-heap held in a `Vec`, ordered by the key
//! on which each stands and, among equal keys, by the source's index. The
//! source that stands on the smallest key is kept outside the heap.

use crate::error::StorageError;
use crate::iterators::merge_spec::{
    all_sorted, drop_head, drop_heads, from_first_holder, head_is, lemma_merge_all_empty,
    lemma_merge_all_lowest_wins, lemma_merge_all_sorted, lemma_merge_all_step, lemma_sorted_tail,
    lemma_total_len_update, merge_all, some_run_has_key, total_len,
};
use crate::iterators::{has_key, strictly_sorted, Entry, StorageIterator};
use crate::key::{
    key_order, lemma_lex_asymmetric, lemma_lex_irreflexive, lemma_lex_total, lemma_lex_transitive,
    lex_lt, KeyOrder, KeySlice,
};
use vstd::prelude::*;

verus! {

/// The order of the heap: by key, then by index.
spec fn pair_lt(k1: Seq<u8>, i1: int, k2: Seq<u8>, i2: int) -> bool {
    lex_lt(k1, k2) || (k1 == k2 && i1 < i2)
}

proof fn lemma_pair_le_transitive(
    ka: Seq<u8>,
    ia: int,
    kb: Seq<u8>,
    ib: int,
    kc: Seq<u8>,
    ic: int,
)
    requires
        !pair_lt(kb, ib, ka, ia),
        !pair_lt(kc, ic, kb, ib),
    ensures
        !pair_lt(kc, ic, ka, ia),
{
    lemma_lex_total(kc, kb);
    lemma_lex_total(kb, ka);
    if lex_lt(kc, ka) {
        if lex_lt(kb, kc) {
            lemma_lex_transitive(kb, kc, ka);
        }
    }
}

proof fn lemma_pair_lt_asymmetric(ka: Seq<u8>, ia: int, kb: Seq<u8>, ib: int)
    requires
        pair_lt(ka, ia, kb, ib),
    ensures
        !pair_lt(kb, ib, ka, ia),
{
    lemma_lex_asymmetric(ka, kb);
    lemma_lex_irreflexive(ka);
}

/// A source together with its index among the sources, which is its
/// priority: of two sources that hold one key, the one with the lower index
/// is the one whose entry is kept.
struct HeapWrapper<I: StorageIterator>(pub usize, pub Box<I>);

impl<I: StorageIterator> HeapWrapper<I> {
    /// The source can be asked for its key.
    spec fn live(&self) -> bool {
        self.1.wf() && self.1.remaining().len() > 0
    }

    /// The key on which the source stands.
    spec fn head_key(&self) -> Seq<u8> {
        self.1.remaining()[0].key
    }

    /// This source comes out of the heap before `other`.
    spec fn before(&self, other: &Self) -> bool {
        pair_lt(self.head_key(), self.0 as int, other.head_key(), other.0 as int)
    }

    /// The source is the one with index `self.0` of `runs`, and not exhausted.
    spec fn is_source_of(&self, runs: Seq<Seq<Entry>>) -> bool {
        &&& self.0 < runs.len()
        &&& self.live()
        &&& self.1.remaining() == runs[self.0 as int]
    }

    /// Whether this source comes out of the heap before `other`: it stands on
    /// the smaller key, or on the same key with the lower index.
    fn precedes(&self, other: &Self) -> (b: bool)
        requires
            self.live(),
            other.live(),
        ensures
            b == self.before(other),
    {
        proof {
            lemma_lex_irreflexive(self.head_key());
        }
        match key_order(self.1.key().raw_ref(), other.1.key().raw_ref()) {
            KeyOrder::Before => true,
            KeyOrder::Same => self.0 < other.0,
            KeyOrder::After => false,
        }
    }
}

/// `c` is one of the two places below `p` in the heap.
spec fn is_child(p: int, c: int) -> bool {
    c == 2 * p + 1 || c == 2 * p + 2
}

/// Every item of `v` from place `from` on is a live source of `runs`.
spec fn sources_from<I: StorageIterator>(
    v: Seq<HeapWrapper<I>>,
    runs: Seq<Seq<Entry>>,
    from: int,
) -> bool {
    forall|p: int| from <= p < v.len() ==> (#[trigger] v[p]).is_source_of(runs)
}

/// No two items of `v` are the same source.
spec fn distinct<I: StorageIterator>(v: Seq<HeapWrapper<I>>) -> bool {
    forall|p: int, q: int| 0 <= p < q < v.len() ==> (#[trigger] v[p]).0 != (#[trigger] v[q]).0
}

/// Every item of `v` is a live source of `runs`, and no two are the same
/// source.
spec fn items_ok<I: StorageIterator>(v: Seq<HeapWrapper<I>>, runs: Seq<Seq<Entry>>) -> bool {
    sources_from(v, runs, 0) && distinct(v)
}

/// Some item of `v` is the source with index `i`.
spec fn holds_index<I: StorageIterator>(v: Seq<HeapWrapper<I>>, i: int) -> bool {
    exists|p: int| 0 <= p < v.len() && (#[trigger] v[p]).0 == i
}

/// None of the sources in `v` can fail.
spec fn all_infallible<I: StorageIterator>(v: Seq<HeapWrapper<I>>) -> bool {
    forall|p: int| 0 <= p < v.len() ==> (#[trigger] v[p]).1.infallible()
}

/// Items taken from among sources that cannot fail cannot fail.
proof fn lemma_infallible_items<I: StorageIterator>(
    from: Seq<HeapWrapper<I>>,
    v: Seq<HeapWrapper<I>>,
)
    requires
        all_infallible(from),
        forall|p: int| 0 <= p < v.len() ==> from.contains(#[trigger] v[p]),
    ensures
        all_infallible(v),
{
    assert forall|p: int| 0 <= p < v.len() implies (#[trigger] v[p]).1.infallible() by {
        assert(from.contains(v[p]));
        let q = choose|q: int| 0 <= q < from.len() && from[q] == v[p];
        assert(from[q].1.infallible());
    }
}

/// From place `lo` on, no item comes before the item above it.
spec fn heap_from<I: StorageIterator>(v: Seq<HeapWrapper<I>>, lo: int) -> bool {
    forall|p: int, c: int|
        #![trigger v[c], v[p]]
        lo <= p < c < v.len() && is_child(p, c) ==> !v[c].before(&v[p])
}

/// As `heap_from`, but for the item at `k`, which may come after the items
/// below it.
spec fn heap_except<I: StorageIterator>(v: Seq<HeapWrapper<I>>, lo: int, k: int) -> bool {
    &&& forall|p: int, c: int|
        #![trigger v[c], v[p]]
        lo <= p < c < v.len() && is_child(p, c) && p != k ==> !v[c].before(&v[p])
    &&& forall|g: int, c: int|
        #![trigger v[c], v[g]]
        lo <= g < k < c < v.len() && is_child(g, k) && is_child(k, c) ==> !v[c].before(&v[g])
}

/// `v` with the items at `a` and `b` exchanged.
spec fn swapped<I: StorageIterator>(v: Seq<HeapWrapper<I>>, a: int, b: int) -> Seq<HeapWrapper<I>> {
    v.update(a, v[b]).update(b, v[a])
}

proof fn lemma_swapped<I: StorageIterator>(
    v: Seq<HeapWrapper<I>>,
    a: int,
    b: int,
    runs: Seq<Seq<Entry>>,
)
    requires
        0 <= a < b < v.len(),
        items_ok(v, runs),
    ensures
        items_ok(swapped(v, a, b), runs),
        forall|p: int| 0 <= p < v.len() ==> v.contains(#[trigger] swapped(v, a, b)[p]),
        forall|i: int| holds_index(v, i) ==> holds_index(swapped(v, a, b), i),
{
    let w = swapped(v, a, b);
    let at = |p: int|
        if p == a {
            b
        } else if p == b {
            a
        } else {
            p
        };
    assert forall|p: int| 0 <= p < w.len() implies w[p] == v[at(p)] by {}
    assert forall|p: int| 0 <= p < w.len() implies (#[trigger] w[p]).is_source_of(runs) by {
        assert(v[at(p)].is_source_of(runs));
    }
    assert forall|p: int, q: int| 0 <= p < q < w.len() implies (#[trigger] w[p]).0 != (
    #[trigger] w[q]).0 by {
        let x = at(p);
        let y = at(q);
        if x < y {
            assert(v[x].0 != v[y].0);
        } else {
            assert(v[y].0 != v[x].0);
        }
    }
    assert forall|p: int| 0 <= p < v.len() implies v.contains(#[trigger] w[p]) by {
        assert(v[at(p)] == w[p]);
    }
    assert forall|i: int| holds_index(v, i) implies holds_index(w, i) by {
        let p = choose|p: int| 0 <= p < v.len() && (#[trigger] v[p]).0 == i;
        assert(w[at(p)].0 == i);
    }
}

proof fn lemma_before_transitive<I: StorageIterator>(
    a: HeapWrapper<I>,
    b: HeapWrapper<I>,
    c: HeapWrapper<I>,
)
    requires
        !b.before(&a),
        !c.before(&b),
    ensures
        !c.before(&a),
{
    lemma_pair_le_transitive(
        a.head_key(),
        a.0 as int,
        b.head_key(),
        b.0 as int,
        c.head_key(),
        c.0 as int,
    );
}

/// In a heap no item comes before the one at the top.
proof fn lemma_heap_top<I: StorageIterator>(v: Seq<HeapWrapper<I>>, i: int)
    requires
        heap_from(v, 0),
        0 <= i < v.len(),
    ensures
        !v[i].before(&v[0]),
    decreases i,
{
    if i == 0 {
        lemma_lex_irreflexive(v[0].head_key());
    } else {
        let p = (i - 1) / 2;
        assert(is_child(p, i));
        lemma_heap_top(v, p);
        assert(!v[i].before(&v[p]));
        lemma_before_transitive(v[0], v[p], v[i]);
    }
}

/// Exchanges the items at `i` and `j`.
fn swap_items<I: StorageIterator>(v: &mut Vec<HeapWrapper<I>>, i: usize, j: usize)
    requires
        i < j < old(v)@.len(),
    ensures
        final(v)@ == swapped(old(v)@, i as int, j as int),
{
    let (front, back) = v.split_at_mut(j);
    core::mem::swap(&mut front[i], &mut back[0]);
    assert(v@ =~= swapped(old(v)@, i as int, j as int));
}

/// Lets the item at `start` sink to its place. Of the items from `lo` on,
/// only that one may be out of order when the function is called; none is
/// when it returns.
fn sift_down<I: StorageIterator>(
    v: &mut Vec<HeapWrapper<I>>,
    Ghost(runs): Ghost<Seq<Seq<Entry>>>,
    Ghost(lo): Ghost<int>,
    start: usize,
)
    requires
        items_ok(old(v)@, runs),
        0 <= lo <= start < old(v)@.len(),
        heap_except(old(v)@, lo, start as int),
    ensures
        final(v)@.len() == old(v)@.len(),
        items_ok(final(v)@, runs),
        heap_from(final(v)@, lo),
        forall|p: int| 0 <= p < final(v)@.len() ==> old(v)@.contains(#[trigger] final(v)@[p]),
        forall|i: int| holds_index(old(v)@, i) ==> holds_index(final(v)@, i),
{
    let n: usize = v.len();
    let mut k: usize = start;
    assert forall|p: int| 0 <= p < v@.len() implies old(v)@.contains(#[trigger] v@[p]) by {
        assert(old(v)@[p] == v@[p]);
    }
    loop
        invariant
            n == v@.len(),
            n == old(v)@.len(),
            items_ok(v@, runs),
            0 <= lo <= k < n,
            heap_except(v@, lo, k as int),
            forall|p: int| 0 <= p < v@.len() ==> old(v)@.contains(#[trigger] v@[p]),
            forall|i: int| holds_index(old(v)@, i) ==> holds_index(v@, i),
        ensures
            n == v@.len(),
            items_ok(v@, runs),
            heap_from(v@, lo),
            forall|p: int| 0 <= p < v@.len() ==> old(v)@.contains(#[trigger] v@[p]),
            forall|i: int| holds_index(old(v)@, i) ==> holds_index(v@, i),
        decreases n - k,
    {
        if k >= n / 2 {
            break ;
        }
        let left: usize = 2 * k + 1;
        let right: usize = left + 1;
        let mut child: usize = left;
        if right < n && v[right].precedes(&v[left]) {
            child = right;
        }
        let ghost before = v@;
        assert(is_child(k as int, left as int) && is_child(k as int, right as int));
        // The smaller of the items below `k` is at `child`.
        assert(!before[left as int].before(&before[child as int])) by {
            if child == right {
                lemma_pair_lt_asymmetric(
                    before[right as int].head_key(),
                    before[right as int].0 as int,
                    before[left as int].head_key(),
                    before[left as int].0 as int,
                );
            } else {
                lemma_lex_irreflexive(before[left as int].head_key());
            }
        }
        assert(right < n ==> !before[right as int].before(&before[child as int])) by {
            if right < n && child == right {
                lemma_lex_irreflexive(before[right as int].head_key());
            }
        }
        if !v[child].precedes(&v[k]) {
            assert(heap_from(v@, lo)) by {
                assert forall|p: int, c: int|
                    #![trigger v@[c], v@[p]]
                    lo <= p < c < v@.len() && is_child(p, c) implies !v@[c].before(&v@[p]) by {
                    if p == k {
                        lemma_before_transitive(v@[k as int], v@[child as int], v@[c]);
                    }
                }
            }
            break ;
        }
        swap_items(v, k, child);
        proof {
            lemma_swapped(before, k as int, child as int, runs);
            let after = v@;
            assert forall|p: int| 0 <= p < after.len() implies old(v)@.contains(
                #[trigger] after[p],
            ) by {
                assert(before.contains(after[p]));
                let q = choose|q: int| 0 <= q < before.len() && before[q] == after[p];
                assert(old(v)@.contains(before[q]));
            }
            assert forall|i: int| holds_index(old(v)@, i) implies holds_index(after, i) by {
                assert(holds_index(before, i));
            }
            lemma_pair_lt_asymmetric(
                before[child as int].head_key(),
                before[child as int].0 as int,
                before[k as int].head_key(),
                before[k as int].0 as int,
            );
            assert forall|p: int, c: int|
                #![trigger after[c], after[p]]
                lo <= p < c < after.len() && is_child(p, c) && p != child implies !after[c].before(
                &after[p],
            ) by {
                if p == k {
                    // after[k] is the smaller child of before.
                    if c == child {
                    } else {
                        assert(after[c] == before[c]);
                    }
                } else if c == k {
                    // p is the item above k
                    assert(is_child(p, k as int) && is_child(k as int, child as int));
                    assert(!before[child as int].before(&before[p]));
                } else {
                    assert(after[c] == before[c]);
                    assert(after[p] == before[p]);
                }
            }
            assert forall|g: int, c: int|
                #![trigger after[c], after[g]]
                lo <= g < child < c < after.len() && is_child(g, child as int) && is_child(
                    child as int,
                    c,
                ) implies !after[c].before(&after[g]) by {
                assert(g == k);
                assert(after[c] == before[c]);
                assert(!before[c].before(&before[child as int]));
            }
        }
        k = child;
    }
}

/// Takes the item at the top out of the heap. Nothing is asked of that item:
/// it may be a source that is exhausted or has failed.
fn pop_top<I: StorageIterator>(v: &mut Vec<HeapWrapper<I>>, Ghost(runs): Ghost<Seq<Seq<Entry>>>) -> (w:
    HeapWrapper<I>)
    requires
        sources_from(old(v)@, runs, 1),
        distinct(old(v)@),
        heap_except(old(v)@, 0, 0),
        old(v)@.len() > 0,
    ensures
        w == old(v)@[0],
        final(v)@.len() == old(v)@.len() - 1,
        items_ok(final(v)@, runs),
        heap_from(final(v)@, 0),
        forall|p: int| 0 <= p < final(v)@.len() ==> old(v)@.contains(#[trigger] final(v)@[p]),
        forall|i: int| holds_index(old(v)@, i) && i != w.0 ==> holds_index(final(v)@, i),
        !holds_index(final(v)@, w.0 as int),
{
    let w = v.swap_remove(0);
    let ghost mid = v@;
    proof {
        let o = old(v)@;
        let last = o.len() - 1;
        assert forall|p: int| 0 <= p < mid.len() implies mid[p] == (if p == 0 {
            o[last]
        } else {
            o[p]
        }) by {}
        assert(items_ok(mid, runs)) by {
            assert forall|p: int| 0 <= p < mid.len() implies (#[trigger] mid[p]).is_source_of(
                runs,
            ) by {
                if p == 0 {
                    assert(last >= 1);
                    assert(o[last].is_source_of(runs));
                } else {
                    assert(o[p].is_source_of(runs));
                }
            }
            assert forall|p: int, q: int| 0 <= p < q < mid.len() implies (#[trigger] mid[p]).0 != (
            #[trigger] mid[q]).0 by {
                if p == 0 {
                    assert(o[q].0 != o[last].0);
                } else {
                    assert(o[p].0 != o[q].0);
                }
            }
        }
        assert forall|p: int| 0 <= p < mid.len() implies o.contains(#[trigger] mid[p]) by {
            if p == 0 {
                assert(o[last] == mid[p]);
            } else {
                assert(o[p] == mid[p]);
            }
        }
        assert forall|i: int| holds_index(o, i) && i != w.0 implies holds_index(mid, i) by {
            let p = choose|p: int| 0 <= p < o.len() && (#[trigger] o[p]).0 == i;
            if p == last {
                assert(mid[0].0 == i);
            } else {
                assert(mid[p].0 == i);
            }
        }
        assert(!holds_index(mid, w.0 as int)) by {
            if holds_index(mid, w.0 as int) {
                let p = choose|p: int| 0 <= p < mid.len() && (#[trigger] mid[p]).0 == w.0;
                if p == 0 {
                    assert(o[0].0 != o[last].0);
                } else {
                    assert(o[0].0 != o[p].0);
                }
            }
        }
        if mid.len() > 0 {
            assert(heap_except(mid, 0, 0)) by {
                assert forall|p: int, c: int|
                    #![trigger mid[c], mid[p]]
                    0 <= p < c < mid.len() && is_child(p, c) && p != 0 implies !mid[c].before(
                    &mid[p],
                ) by {
                    assert(!o[c].before(&o[p]));
                }
            }
        }
    }
    if v.len() > 0 {
        sift_down(v, Ghost(runs), Ghost(0), 0);
        proof {
            let f = v@;
            let o = old(v)@;
            assert forall|p: int| 0 <= p < f.len() implies o.contains(#[trigger] f[p]) by {
                assert(mid.contains(f[p]));
                let q = choose|q: int| 0 <= q < mid.len() && mid[q] == f[p];
                assert(o.contains(mid[q]));
            }
            assert forall|i: int| holds_index(o, i) && i != w.0 implies holds_index(f, i) by {
                assert(holds_index(mid, i));
            }
            assert(!holds_index(f, w.0 as int)) by {
                if holds_index(f, w.0 as int) {
                    let p = choose|p: int| 0 <= p < f.len() && (#[trigger] f[p]).0 == w.0;
                    assert(mid.contains(f[p]));
                    let q = choose|q: int| 0 <= q < mid.len() && mid[q] == f[p];
                    assert(mid[q].0 == w.0);
                }
            }
        }
    }
    w
}

/// Merges several sources of one type into a single sorted stream. Where a
/// key occurs in more than one source, the entry of the source with the
/// smallest index is yielded and the others are skipped.
pub struct MergeIterator<I: StorageIterator> {
    /// The waiting sources, as a binary min-heap.
    iters: Vec<HeapWrapper<I>>,
    /// The source that stands on the smallest key.
    current: Option<HeapWrapper<I>>,
    /// What each source has yet to yield, by the source's index.
    runs: Ghost<Seq<Seq<Entry>>>,
}

/// What each of the sources `iters` has yet to yield.
pub open spec fn runs_of<I: StorageIterator>(iters: Seq<Box<I>>) -> Seq<Seq<Entry>> {
    Seq::new(iters.len(), |i: int| iters[i].remaining())
}

/// How the runs stand after a step past the key `k` in which a source
/// failed: each run is as it was, or moved past `k`, or given up; and at
/// least one run that was not exhausted has been given up.
pub open spec fn after_failure(
    before: Seq<Seq<Entry>>,
    after: Seq<Seq<Entry>>,
    k: Seq<u8>,
) -> bool {
    &&& after.len() == before.len()
    &&& forall|i: int|
        0 <= i < before.len() ==> #[trigger] after[i] == before[i] || after[i] == drop_head(
            before[i],
            k,
        ) || after[i].len() == 0
    &&& exists|j: int| 0 <= j < before.len() && (#[trigger] before[j]).len() > 0 && after[j].len() == 0
}

impl<I: StorageIterator> MergeIterator<I> {
    /// What each source has yet to yield, by the index of the source. The
    /// run of a source that has failed and was given up is empty.
    pub closed spec fn runs(&self) -> Seq<Seq<Entry>> {
        self.runs@
    }

    /// The heap `v` is in order and holds exactly the sources of `runs`
    /// other than the one with index `c` that are not exhausted.
    spec fn heap_ok_of(v: Seq<HeapWrapper<I>>, runs: Seq<Seq<Entry>>, c: int) -> bool {
        &&& all_sorted(runs)
        &&& items_ok(v, runs)
        &&& heap_from(v, 0)
        &&& 0 <= c < runs.len()
        &&& !holds_index(v, c)
        &&& forall|j: int|
            0 <= j < runs.len() && j != c && (#[trigger] runs[j]).len() > 0 ==> holds_index(v, j)
    }

    /// The heap `v` holds the sources of `runs` other than `c`, and `c`
    /// stands on the smallest key of all.
    spec fn holds_over(v: Seq<HeapWrapper<I>>, runs: Seq<Seq<Entry>>, c: &HeapWrapper<I>) -> bool {
        &&& Self::heap_ok_of(v, runs, c.0 as int)
        &&& c.1.wf()
        &&& c.1.remaining() == runs[c.0 as int]
        &&& runs[c.0 as int].len() == 0 ==> v.len() == 0
        &&& runs[c.0 as int].len() > 0 ==> forall|p: int|
            0 <= p < v.len() ==> !(#[trigger] v[p]).before(c)
    }

    /// The heap is in order and holds exactly the sources other than the one
    /// with index `c` that are not exhausted.
    spec fn heap_ok(&self, c: int) -> bool {
        Self::heap_ok_of(self.iters@, self.runs@, c)
    }

    /// The heap holds the sources other than `c`, and `c` stands on the
    /// smallest key of all.
    spec fn holds_with(&self, c: &HeapWrapper<I>) -> bool {
        Self::holds_over(self.iters@, self.runs@, c)
    }

    /// None of the sources of the merge can fail.
    spec fn sources_infallible(&self) -> bool {
        &&& all_infallible(self.iters@)
        &&& self.current is Some ==> self.current.unwrap().1.infallible()
    }

    /// The invariant of the merge.
    spec fn inv(&self) -> bool {
        match self.current {
            None => {
                &&& self.iters@.len() == 0
                &&& forall|j: int| 0 <= j < self.runs@.len() ==> (#[trigger] self.runs@[j]).len() == 0
            },
            Some(c) => self.holds_with(&c),
        }
    }

    /// While `c` is not exhausted, the merge yields the entry on which `c`
    /// stands, and after it the merge of the runs moved past that key.
    proof fn lemma_current_leads(&self, c: &HeapWrapper<I>)
        requires
            self.holds_with(c),
            self.runs@[c.0 as int].len() > 0,
        ensures
            merge_all(self.runs@) == seq![self.runs@[c.0 as int][0]] + merge_all(
                drop_heads(self.runs@, c.head_key()),
            ),
    {
        let runs = self.runs@;
        let v = self.iters@;
        let k = c.head_key();
        assert forall|j: int| 0 <= j < runs.len() && j != c.0 && (#[trigger] runs[j]).len()
            > 0 implies !pair_lt(runs[j][0].key, j, k, c.0 as int) by {
            assert(holds_index(v, j));
            let p = choose|p: int| 0 <= p < v.len() && (#[trigger] v[p]).0 == j;
            assert(v[p].is_source_of(runs));
            assert(!v[p].before(c));
        }
        assert forall|j: int| 0 <= j < c.0 && (#[trigger] runs[j]).len() > 0 implies lex_lt(
            k,
            runs[j][0].key,
        ) by {
            lemma_lex_total(k, runs[j][0].key);
        }
        lemma_merge_all_step(runs, c.0 as int, k);
    }

    /// When the source outside the heap is exhausted, so are all.
    proof fn lemma_all_exhausted(&self, c: &HeapWrapper<I>)
        requires
            self.holds_with(c),
            self.runs@[c.0 as int].len() == 0,
        ensures
            merge_all(self.runs@).len() == 0,
    {
        let runs = self.runs@;
        assert forall|j: int| 0 <= j < runs.len() implies (#[trigger] runs[j]).len() == 0 by {
            if j != c.0 && runs[j].len() > 0 {
                assert(holds_index(self.iters@, j));
            }
        }
        lemma_merge_all_empty(runs);
    }

    /// Makes the source at the top of the heap the current one, or leaves the
    /// merge without a current source if the heap is empty. The source with
    /// index `c`, which was the current one, is exhausted or has been given up.
    fn promote_top(&mut self, Ghost(c): Ghost<int>)
        requires
            old(self).heap_ok(c),
            old(self).runs@[c].len() == 0,
        ensures
            final(self).inv(),
            final(self).runs@ == old(self).runs@,
            all_infallible(old(self).iters@) ==> final(self).sources_infallible(),
    {
        let ghost runs = self.runs@;
        let ghost full = self.iters@;
        if self.iters.len() > 0 {
            let top = pop_top(&mut self.iters, Ghost(runs));
            proof {
                let v = self.iters@;
                if all_infallible(full) {
                    lemma_infallible_items(full, v);
                }
                assert(top.is_source_of(runs));
                assert forall|j: int|
                    0 <= j < runs.len() && j != top.0 && (#[trigger] runs[j]).len()
                        > 0 implies holds_index(v, j) by {
                    assert(holds_index(full, j));
                }
                assert forall|p: int| 0 <= p < v.len() implies !(#[trigger] v[p]).before(&top) by {
                    assert(full.contains(v[p]));
                    let q = choose|q: int| 0 <= q < full.len() && full[q] == v[p];
                    lemma_heap_top(full, q);
                }
            }
            self.current = Some(top);
        } else {
            proof {
                assert forall|j: int| 0 <= j < runs.len() implies (#[trigger] runs[j]).len()
                    == 0 by {
                    if j != c && runs[j].len() > 0 {
                        assert(holds_index(full, j));
                    }
                }
            }
            self.current = None;
        }
    }

    /// Puts `current`, which has just moved, back in its place: if it is
    /// exhausted, the top of the heap takes over; if the top of the heap now
    /// comes before it, the two change places.
    fn settle(&mut self, current: HeapWrapper<I>)
        requires
            old(self).heap_ok(current.0 as int),
            current.1.wf(),
            current.1.remaining() == old(self).runs@[current.0 as int],
        ensures
            final(self).inv(),
            final(self).runs@ == old(self).runs@,
            all_infallible(old(self).iters@) && current.1.infallible() ==> final(self).sources_infallible(),
    {
        let ghost runs = self.runs@;
        let ghost full = self.iters@;
        let mut current = current;
        let ghost moved = current;
        if !current.1.is_valid() {
            if self.iters.len() > 0 {
                self.promote_top(Ghost(current.0 as int));
            } else {
                self.current = Some(current);
            }
            return ;
        }
        if self.iters.len() > 0 {
            if self.iters[0].precedes(&current) {
                core::mem::swap(&mut self.iters[0], &mut current);
                let ghost mid = self.iters@;
                proof {
                    assert(mid =~= full.update(0, moved));
                    assert(current == full[0]);
                    assert(moved.is_source_of(runs));
                    assert forall|p: int| 0 <= p < mid.len() implies (
                    #[trigger] mid[p]).is_source_of(runs) by {
                        if p > 0 {
                            assert(full[p].is_source_of(runs));
                        }
                    }
                    assert forall|p: int, q: int| 0 <= p < q < mid.len() implies (
                    #[trigger] mid[p]).0 != (#[trigger] mid[q]).0 by {
                        if p == 0 {
                            assert(full[q].0 != moved.0);
                        } else {
                            assert(full[p].0 != full[q].0);
                        }
                    }
                    assert forall|p: int, c: int|
                        #![trigger mid[c], mid[p]]
                        0 <= p < c < mid.len() && is_child(p, c) && p != 0 implies !mid[c].before(
                        &mid[p],
                    ) by {
                        assert(!full[c].before(&full[p]));
                    }
                }
                sift_down(&mut self.iters, Ghost(runs), Ghost(0), 0);
                proof {
                    let v = self.iters@;
                    if all_infallible(full) && moved.1.infallible() {
                        assert(all_infallible(mid));
                        lemma_infallible_items(mid, v);
                    }
                    assert(current.is_source_of(runs));
                    assert(!holds_index(v, current.0 as int)) by {
                        if holds_index(v, current.0 as int) {
                            let p = choose|p: int|
                                0 <= p < v.len() && (#[trigger] v[p]).0 == current.0;
                            assert(mid.contains(v[p]));
                            let q = choose|q: int| 0 <= q < mid.len() && mid[q] == v[p];
                            if q > 0 {
                                assert(full[0].0 != full[q].0);
                            }
                        }
                    }
                    assert forall|j: int|
                        0 <= j < runs.len() && j != current.0 && (#[trigger] runs[j]).len()
                            > 0 implies holds_index(v, j) by {
                        if j == moved.0 {
                            assert(mid[0].0 == j);
                        } else {
                            assert(holds_index(full, j));
                            let p = choose|p: int|
                                0 <= p < full.len() && (#[trigger] full[p]).0 == j;
                            assert(mid[p].0 == j);
                        }
                        assert(holds_index(mid, j));
                    }
                    assert forall|p: int| 0 <= p < v.len() implies !(#[trigger] v[p]).before(
                        &current,
                    ) by {
                        assert(mid.contains(v[p]));
                        let q = choose|q: int| 0 <= q < mid.len() && mid[q] == v[p];
                        if q == 0 {
                            lemma_pair_lt_asymmetric(
                                current.head_key(),
                                current.0 as int,
                                moved.head_key(),
                                moved.0 as int,
                            );
                        } else {
                            lemma_heap_top(full, q);
                        }
                    }
                }
            } else {
                proof {
                    assert forall|p: int| 0 <= p < full.len() implies !(
                    #[trigger] full[p]).before(&current) by {
                        lemma_heap_top(full, p);
                        lemma_before_transitive(current, full[0], full[p]);
                    }
                }
            }
        }
        self.current = Some(current);
    }

    /// What the heap is after the source at its top, which stood on the key of
    /// `current`, has moved past that key or has been given up. `full` is the
    /// heap before that, `mid` the heap with the top as the move left it, and
    /// `v` the heap after the top has sunk to its place or has left.
    proof fn lemma_top_settled(
        full: Seq<HeapWrapper<I>>,
        mid: Seq<HeapWrapper<I>>,
        v: Seq<HeapWrapper<I>>,
        runs0: Seq<Seq<Entry>>,
        runs1: Seq<Seq<Entry>>,
        current: &HeapWrapper<I>,
        gone: bool,
    )
        requires
            Self::holds_over(full, runs0, current),
            current.live(),
            full.len() > 0,
            full[0].head_key() == current.head_key(),
            mid.len() == full.len(),
            mid[0].0 == full[0].0,
            forall|p: int| 1 <= p < mid.len() ==> mid[p] == full[p],
            runs1.len() == runs0.len(),
            forall|j: int| 0 <= j < runs0.len() && j != full[0].0 ==> runs1[j] == runs0[j],
            gone ==> runs1[full[0].0 as int].len() == 0,
            !gone ==> runs1[full[0].0 as int] == runs0[full[0].0 as int].skip(1) && mid[0].is_source_of(
                runs1,
            ),
            items_ok(v, runs1),
            heap_from(v, 0),
            forall|p: int| 0 <= p < v.len() ==> mid.contains(#[trigger] v[p]),
            forall|i: int| holds_index(mid, i) && (i != full[0].0 || !gone) ==> holds_index(v, i),
            gone ==> !holds_index(v, full[0].0 as int),
        ensures
            Self::holds_over(v, runs1, current),
    {
        let idx = full[0].0 as int;
        let c = current.0 as int;
        let k = current.head_key();
        assert(full[0].is_source_of(runs0));
        assert(idx != c) by {
            if idx == c {
                assert(holds_index(full, c));
            }
        }
        assert(all_sorted(runs1)) by {
            assert(strictly_sorted(runs0[idx]));
            if !gone {
                lemma_sorted_tail(runs0[idx]);
            }
            assert forall|i: int| 0 <= i < runs1.len() implies strictly_sorted(
                #[trigger] runs1[i],
            ) by {
                if i != idx {
                    assert(strictly_sorted(runs0[i]));
                }
            }
        }
        assert(!holds_index(v, c)) by {
            if holds_index(v, c) {
                let p = choose|p: int| 0 <= p < v.len() && (#[trigger] v[p]).0 == c;
                assert(mid.contains(v[p]));
                let q = choose|q: int| 0 <= q < mid.len() && mid[q] == v[p];
                assert(full[q].0 == c);
            }
        }
        assert forall|j: int|
            0 <= j < runs1.len() && j != c && (#[trigger] runs1[j]).len() > 0 implies holds_index(
            v,
            j,
        ) by {
            if j == idx {
                assert(mid[0].0 == j);
            } else {
                assert(runs0[j].len() > 0);
                assert(holds_index(full, j));
                let p = choose|p: int| 0 <= p < full.len() && (#[trigger] full[p]).0 == j;
                assert(mid[p].0 == j);
            }
            assert(holds_index(mid, j));
        }
        assert forall|p: int| 0 <= p < v.len() implies !(#[trigger] v[p]).before(current) by {
            assert(mid.contains(v[p]));
            let q = choose|q: int| 0 <= q < mid.len() && mid[q] == v[p];
            if q == 0 {
                if gone {
                    assert(holds_index(v, idx));
                } else {
                    // The moved source now stands above `k`.
                    assert(runs1[idx][0] == runs0[idx][1]);
                    assert(lex_lt(runs0[idx][0].key, runs0[idx][1].key));
                    lemma_lex_asymmetric(k, mid[0].head_key());
                    lemma_lex_irreflexive(k);
                }
            } else {
                assert(!full[q].before(current));
            }
        }
    }

    /// Takes up the outcome `moved` of asking the source at the top of the
    /// heap, which stood on the key of `current`, to move. If it moved, it
    /// sinks to its place in the heap, or leaves the heap if it is
    /// exhausted. If it failed, it leaves the heap, and its failure is what
    /// is returned. `full` is the heap and `runs0` are the runs as they were
    /// before the source was asked.
    fn after_top_moved(
        &mut self,
        current: &HeapWrapper<I>,
        moved: Result<(), StorageError>,
        Ghost(full): Ghost<Seq<HeapWrapper<I>>>,
        Ghost(runs0): Ghost<Seq<Seq<Entry>>>,
    ) -> (r: Result<(), StorageError>)
        requires
            Self::holds_over(full, runs0, current),
            current.live(),
            full.len() > 0,
            full[0].head_key() == current.head_key(),
            old(self).runs@ == runs0,
            old(self).iters@.len() == full.len(),
            old(self).iters@[0].0 == full[0].0,
            forall|p: int| 1 <= p < full.len() ==> old(self).iters@[p] == full[p],
            moved is Ok ==> old(self).iters@[0].1.wf() && old(self).iters@[0].1.remaining()
                == runs0[full[0].0 as int].skip(1),
        ensures
            r == moved,
            final(self).holds_with(current),
            moved is Ok ==> final(self).runs@ == runs0.update(
                full[0].0 as int,
                runs0[full[0].0 as int].skip(1),
            ),
            moved is Err ==> final(self).runs@ == runs0.update(
                full[0].0 as int,
                Seq::<Entry>::empty(),
            ),
            all_infallible(old(self).iters@) ==> all_infallible(final(self).iters@),
    {
        let ghost idx = full[0].0 as int;
        let ghost mid = self.iters@;
        assert(full[0].is_source_of(runs0));
        match moved {
            Ok(()) => {
                let ghost runs1 = runs0.update(idx, runs0[idx].skip(1));
                self.runs = Ghost(runs1);
                proof {
                    Self::lemma_moved_top(full, mid, runs0, runs1, idx);
                }
                if self.iters[0].1.is_valid() {
                    sift_down(&mut self.iters, Ghost(runs1), Ghost(0), 0);
                    proof {
                        Self::lemma_top_settled(full, mid, self.iters@, runs0, runs1, current, false);
                    }
                } else {
                    let _ = pop_top(&mut self.iters, Ghost(runs1));
                    proof {
                        Self::lemma_top_settled(full, mid, self.iters@, runs0, runs1, current, true);
                    }
                }
                proof {
                    if all_infallible(mid) {
                        lemma_infallible_items(mid, self.iters@);
                    }
                    assert(moved->Ok_0 == ());
                }
                Ok(())
            },
            Err(e) => {
                let ghost runs1 = runs0.update(idx, Seq::<Entry>::empty());
                self.runs = Ghost(runs1);
                proof {
                    Self::lemma_moved_top(full, mid, runs0, runs1, idx);
                }
                let _ = pop_top(&mut self.iters, Ghost(runs1));
                proof {
                    Self::lemma_top_settled(full, mid, self.iters@, runs0, runs1, current, true);
                    if all_infallible(mid) {
                        lemma_infallible_items(mid, self.iters@);
                    }
                }
                Err(e)
            },
        }
    }

    /// Takes up the outcome `moved` of asking `current`, the source outside
    /// the heap, to move past its key. If it moved, it is put back in its
    /// place. If it failed, it is given up, the source at the top of the heap
    /// takes over, and the failure is what is returned.
    fn after_current_moved(&mut self, current: HeapWrapper<I>, moved: Result<(), StorageError>) -> (r:
        Result<(), StorageError>)
        requires
            old(self).heap_ok(current.0 as int),
            old(self).runs@[current.0 as int].len() > 0,
            moved is Ok ==> current.1.wf() && current.1.remaining() == old(self).runs@[current.0 as int].skip(1),
        ensures
            r == moved,
            final(self).inv(),
            moved is Ok ==> final(self).runs@ == old(self).runs@.update(
                current.0 as int,
                old(self).runs@[current.0 as int].skip(1),
            ),
            moved is Err ==> final(self).runs@ == old(self).runs@.update(
                current.0 as int,
                Seq::<Entry>::empty(),
            ),
            moved is Ok && all_infallible(old(self).iters@) && current.1.infallible() ==> final(self).sources_infallible(),
    {
        let ghost runs1 = self.runs@;
        let ghost c = current.0 as int;
        match moved {
            Err(e) => {
                self.runs = Ghost(runs1.update(c, Seq::<Entry>::empty()));
                proof {
                    self.lemma_replaced_run(runs1, c);
                }
                self.promote_top(Ghost(c));
                Err(e)
            },
            Ok(()) => {
                self.runs = Ghost(runs1.update(c, runs1[c].skip(1)));
                proof {
                    lemma_sorted_tail(runs1[c]);
                    self.lemma_replaced_run(runs1, c);
                }
                self.settle(current);
                assert(moved->Ok_0 == ());
                Ok(())
            },
        }
    }

    /// Moves every source in the heap that stands on the key of `current`
    /// past that key. A source that is exhausted by this leaves the heap; so
    /// does one that fails, and its failure is returned at once.
    fn skip_same_keys(&mut self, current: &HeapWrapper<I>) -> (r: Result<(), StorageError>)
        requires
            old(self).holds_with(current),
            current.live(),
        ensures
            final(self).holds_with(current),
            final(self).runs@.len() == old(self).runs@.len(),
            r is Ok ==> forall|j: int|
                0 <= j < old(self).runs@.len() && j != current.0 ==> #[trigger] final(self).runs@[j]
                    == drop_head(old(self).runs@[j], current.head_key()),
            r is Err ==> after_failure(old(self).runs@, final(self).runs@, current.head_key()),
            all_infallible(old(self).iters@) ==> r is Ok && all_infallible(final(self).iters@),
    {
        let ghost orig = self.runs@;
        let ghost k = current.head_key();
        let ghost c = current.0 as int;
        loop
            invariant
                self.holds_with(current),
                current.live(),
                current.head_key() == k,
                orig == old(self).runs@,
                current.0 == c,
                all_sorted(orig),
                self.runs@.len() == orig.len(),
                forall|j: int|
                    0 <= j < orig.len() ==> #[trigger] self.runs@[j] == orig[j] || (head_is(
                        orig[j],
                        k,
                    ) && self.runs@[j] == orig[j].skip(1)),
                all_infallible(old(self).iters@) ==> all_infallible(self.iters@),
            ensures
                self.holds_with(current),
                self.runs@.len() == orig.len(),
                forall|j: int|
                    0 <= j < orig.len() ==> #[trigger] self.runs@[j] == orig[j] || (head_is(
                        orig[j],
                        k,
                    ) && self.runs@[j] == orig[j].skip(1)),
                self.iters@.len() == 0 || self.iters@[0].head_key() != k,
                all_infallible(old(self).iters@) ==> all_infallible(self.iters@),
            decreases total_len(self.runs@),
        {
            if self.iters.len() == 0 {
                break ;
            }
            let same = match key_order(self.iters[0].1.key().raw_ref(), current.1.key().raw_ref()) {
                KeyOrder::Same => true,
                _ => false,
            };
            if !same {
                break ;
            }
            let ghost full = self.iters@;
            let ghost runs0 = self.runs@;
            let ghost idx = full[0].0 as int;
            assert(full[0].is_source_of(runs0));
            assert(idx != c) by {
                if idx == c {
                    assert(holds_index(full, c));
                }
            }
            // The source at the top has not been moved before: it stands on `k`.
            assert(runs0[idx] == orig[idx]) by {
                if runs0[idx] != orig[idx] {
                    assert(strictly_sorted(orig[idx]));
                    assert(lex_lt(orig[idx][0].key, orig[idx][1].key));
                    assert(orig[idx].skip(1)[0] == orig[idx][1]);
                    lemma_lex_irreflexive(k);
                }
            }
            let moved = self.iters[0].1.next();
            proof {
                if moved is Ok {
                    lemma_total_len_update(runs0, idx, runs0[idx].skip(1));
                }
            }
            match self.after_top_moved(current, moved, Ghost(full), Ghost(runs0)) {
                Ok(()) => {},
                Err(e) => {
                    assert(orig[idx].len() > 0 && self.runs@[idx].len() == 0);
                    return Err(e);
                },
            }
        }
        proof {
            let runs = self.runs@;
            let v = self.iters@;
            assert forall|j: int| 0 <= j < orig.len() && j != c implies #[trigger] runs[j]
                == drop_head(orig[j], k) by {
                if runs[j] == orig[j] && head_is(orig[j], k) {
                    // A source that still stands on `k` would be at the top.
                    assert(holds_index(v, j));
                    let p = choose|p: int| 0 <= p < v.len() && (#[trigger] v[p]).0 == j;
                    assert(v[p].is_source_of(runs));
                    lemma_heap_top(v, p);
                    assert(!v[0].before(current));
                    lemma_lex_total(k, v[0].head_key());
                }
            }
        }
        Ok(())
    }

    /// After the source at the top of the heap has moved or failed, the
    /// other items are what they were, in a heap that is in order below the
    /// top.
    proof fn lemma_moved_top(
        full: Seq<HeapWrapper<I>>,
        mid: Seq<HeapWrapper<I>>,
        runs0: Seq<Seq<Entry>>,
        runs1: Seq<Seq<Entry>>,
        idx: int,
    )
        requires
            items_ok(full, runs0),
            heap_from(full, 0),
            full.len() > 0,
            mid.len() == full.len(),
            full[0].0 == idx,
            mid[0].0 == idx,
            forall|p: int| 1 <= p < mid.len() ==> mid[p] == full[p],
            runs1.len() == runs0.len(),
            forall|j: int| 0 <= j < runs0.len() && j != idx ==> runs1[j] == runs0[j],
        ensures
            sources_from(mid, runs1, 1),
            distinct(mid),
            heap_except(mid, 0, 0),
    {
        assert forall|p: int| 1 <= p < mid.len() implies (#[trigger] mid[p]).is_source_of(runs1) by {
            assert(full[p].is_source_of(runs0));
            assert(full[0].0 != full[p].0);
        }
        assert forall|p: int, q: int| 0 <= p < q < mid.len() implies (#[trigger] mid[p]).0 != (
        #[trigger] mid[q]).0 by {
            assert(full[p].0 != full[q].0);
        }
        assert forall|p: int, c: int|
            #![trigger mid[c], mid[p]]
            0 <= p < c < mid.len() && is_child(p, c) && p != 0 implies !mid[c].before(&mid[p]) by {
            assert(!full[c].before(&full[p]));
        }
    }

    /// Replacing the run of the source outside the heap by another sorted
    /// run leaves the heap as it is.
    proof fn lemma_replaced_run(&self, before: Seq<Seq<Entry>>, c: int)
        requires
            0 <= c < before.len(),
            self.runs@.len() == before.len(),
            forall|j: int| 0 <= j < before.len() && j != c ==> self.runs@[j] == before[j],
            strictly_sorted(self.runs@[c]),
            all_sorted(before),
            items_ok(self.iters@, before),
            heap_from(self.iters@, 0),
            !holds_index(self.iters@, c),
            forall|j: int|
                0 <= j < before.len() && j != c && (#[trigger] before[j]).len() > 0 ==> holds_index(
                    self.iters@,
                    j,
                ),
        ensures
            self.heap_ok(c),
    {
        let runs = self.runs@;
        let v = self.iters@;
        assert forall|i: int| 0 <= i < runs.len() implies strictly_sorted(#[trigger] runs[i]) by {
            if i != c {
                assert(strictly_sorted(before[i]));
            }
        }
        assert forall|p: int| 0 <= p < v.len() implies (#[trigger] v[p]).is_source_of(runs) by {
            assert(v[p].is_source_of(before));
            if v[p].0 == c {
                assert(holds_index(v, c));
            }
        }
        assert forall|j: int|
            0 <= j < runs.len() && j != c && (#[trigger] runs[j]).len() > 0 implies holds_index(
            v,
            j,
        ) by {
            assert(before[j].len() > 0);
        }
    }

    /// The merge is valid exactly while the source outside the heap is, and
    /// then yields the entry on which that source stands.
    proof fn lemma_head(&self)
        requires
            self.inv(),
        ensures
            merge_all(self.runs@).len() > 0 <==> self.current is Some
                && self.current.unwrap().1.remaining().len() > 0,
            merge_all(self.runs@).len() > 0 ==> merge_all(self.runs@)[0]
                == self.current.unwrap().1.remaining()[0],
    {
        if self.current is Some {
            let c = self.current.unwrap();
            if self.runs@[c.0 as int].len() == 0 {
                self.lemma_all_exhausted(&c);
            } else {
                self.lemma_current_leads(&c);
            }
        } else {
            lemma_merge_all_empty(self.runs@);
        }
    }

    /// What a merge has yet to yield is strictly sorted; its keys are the
    /// keys that the runs of its sources hold; and each of its entries is the
    /// entry of the first run that holds its key.
    pub proof fn lemma_yields_sorted_union(&self)
        requires
            self.wf(),
        ensures
            all_sorted(self.runs()),
            strictly_sorted(self.remaining()),
            forall|k: Seq<u8>| has_key(self.remaining(), k) <==> some_run_has_key(self.runs(), k),
            forall|i: int|
                0 <= i < self.remaining().len() ==> from_first_holder(
                    self.runs(),
                    #[trigger] self.remaining()[i],
                ),
    {
        if self.current is Some {
            assert(self.holds_with(&self.current.unwrap()));
        }
        lemma_merge_all_sorted(self.runs@);
        lemma_merge_all_lowest_wins(self.runs@);
    }

    /// Merges the sources `iters`. A source that comes earlier in `iters` has
    /// priority over the later ones. Sources that are already exhausted are
    /// left out.
    pub fn create(iters: Vec<Box<I>>) -> (m: Self)
        requires
            forall|i: int|
                0 <= i < iters@.len() ==> (#[trigger] iters@[i]).wf() && strictly_sorted(
                    iters@[i].remaining(),
                ),
        ensures
            m.wf(),
            m.runs() == runs_of(iters@),
            (forall|i: int| 0 <= i < iters@.len() ==> (#[trigger] iters@[i]).infallible())
                ==> m.infallible(),
    {
        let ghost sources = iters@;
        let ghost sound = forall|i: int| 0 <= i < iters@.len() ==> (#[trigger] iters@[i]).infallible();
        let ghost runs = runs_of(iters@);
        let mut rest = iters;
        let mut heap: Vec<HeapWrapper<I>> = Vec::new();
        assert(rest@ =~= sources.take(rest@.len() as int));
        while rest.len() > 0
            invariant
                runs == runs_of(sources),
                forall|i: int| 0 <= i < sources.len() ==> (#[trigger] sources[i]).wf(),
                rest@.len() <= sources.len(),
                rest@ == sources.take(rest@.len() as int),
                items_ok(heap@, runs),
                forall|p: int| 0 <= p < heap@.len() ==> (#[trigger] heap@[p]).0 >= rest@.len(),
                forall|j: int|
                    rest@.len() <= j < sources.len() && (#[trigger] runs[j]).len() > 0
                        ==> holds_index(heap@, j),
                sound ==> forall|i: int| 0 <= i < sources.len() ==> (#[trigger] sources[i]).infallible(),
                sound ==> all_infallible(heap@),
            decreases rest@.len(),
        {
            let ghost before = heap@;
            let ghost n = rest@.len();
            let iter = rest.pop().unwrap();
            let idx: usize = rest.len();
            assert(iter == sources[idx as int]) by {
                assert(sources.take(n as int)[idx as int] == sources[idx as int]);
            }
            assert(rest@ =~= sources.take(idx as int));
            if iter.is_valid() {
                heap.push(HeapWrapper(idx, iter));
                proof {
                    let after = heap@;
                    assert(after[before.len() as int].is_source_of(runs));
                    assert forall|p: int| 0 <= p < after.len() implies (
                    #[trigger] after[p]).is_source_of(runs) by {
                        if p < before.len() {
                            assert(before[p].is_source_of(runs));
                        }
                    }
                    assert forall|p: int, q: int| 0 <= p < q < after.len() implies (
                    #[trigger] after[p]).0 != (#[trigger] after[q]).0 by {
                        if q < before.len() {
                            assert(before[p].0 != before[q].0);
                        } else {
                            assert(before[p].0 >= n);
                        }
                    }
                    assert forall|j: int|
                        idx <= j < sources.len() && (#[trigger] runs[j]).len()
                            > 0 implies holds_index(after, j) by {
                        if j == idx {
                            assert(after[before.len() as int].0 == j);
                        } else {
                            assert(holds_index(before, j));
                            let p = choose|p: int|
                                0 <= p < before.len() && (#[trigger] before[p]).0 == j;
                            assert(after[p].0 == j);
                        }
                    }
                }
            }
        }
        let mut k: usize = heap.len() / 2;
        while k > 0
            invariant
                k <= heap@.len() / 2,
                items_ok(heap@, runs),
                heap_from(heap@, k as int),
                forall|j: int|
                    0 <= j < runs.len() && (#[trigger] runs[j]).len() > 0 ==> holds_index(heap@, j),
                sound ==> all_infallible(heap@),
            decreases k,
        {
            k = k - 1;
            let ghost before = heap@;
            sift_down(&mut heap, Ghost(runs), Ghost(k as int), k);
            proof {
                if sound {
                    lemma_infallible_items(before, heap@);
                }
            }
            assert forall|j: int|
                0 <= j < runs.len() && (#[trigger] runs[j]).len() > 0 implies holds_index(
                heap@,
                j,
            ) by {
                assert(holds_index(before, j));
            }
        }
        let ghost full = heap@;
        let current = if heap.len() > 0 {
            Some(pop_top(&mut heap, Ghost(runs)))
        } else {
            None
        };
        let m = MergeIterator { iters: heap, current, runs: Ghost(runs) };
        proof {
            if sound {
                lemma_infallible_items(full, m.iters@);
            }
            assert(all_sorted(runs));
            if m.current is Some {
                let c = m.current.unwrap();
                assert(c == full[0]);
                assert(c.is_source_of(runs));
                assert forall|j: int|
                    0 <= j < runs.len() && j != c.0 && (#[trigger] runs[j]).len()
                        > 0 implies holds_index(m.iters@, j) by {
                    assert(holds_index(full, j));
                }
                assert forall|p: int| 0 <= p < m.iters@.len() implies !(
                #[trigger] m.iters@[p]).before(&c) by {
                    assert(full.contains(m.iters@[p]));
                    let q = choose|q: int| 0 <= q < full.len() && full[q] == m.iters@[p];
                    lemma_heap_top(full, q);
                }
                assert(m.holds_with(&c));
            } else {
                assert forall|j: int| 0 <= j < runs.len() implies (#[trigger] runs[j]).len()
                    == 0 by {
                    if runs[j].len() > 0 {
                        assert(holds_index(full, j));
                    }
                }
            }
        }
        m
    }
}

impl<I: StorageIterator> StorageIterator for MergeIterator<I> {
    closed spec fn wf(&self) -> bool {
        self.inv()
    }

    open spec fn remaining(&self) -> Seq<Entry> {
        merge_all(self.runs())
    }

    /// A merge cannot fail if none of its sources can.
    closed spec fn infallible(&self) -> bool {
        self.sources_infallible()
    }

    fn value(&self) -> (v: &[u8]) {
        proof {
            self.lemma_head();
        }
        self.current.as_ref().unwrap().1.value()
    }

    fn key(&self) -> (k: KeySlice<'_>) {
        proof {
            self.lemma_head();
        }
        self.current.as_ref().unwrap().1.key()
    }

    fn is_valid(&self) -> (b: bool) {
        proof {
            self.lemma_head();
        }
        match &self.current {
            Some(c) => c.1.is_valid(),
            None => false,
        }
    }

    /// Moves past the current key: every source that stands on it is
    /// advanced, and the source that then stands on the smallest key becomes
    /// the current one. A source that fails is given up, so that the merge
    /// can still be used when this returns the failure, which is the
    /// failure of that source; the sources that had moved before the failure
    /// stay moved. Over sources that cannot fail this does not fail.
    fn next(&mut self) -> (r: Result<(), StorageError>)
        ensures
            r is Ok ==> final(self).runs() == drop_heads(
                old(self).runs(),
                old(self).remaining()[0].key,
            ),
            r is Err ==> final(self).wf() && after_failure(
                old(self).runs(),
                final(self).runs(),
                old(self).remaining()[0].key,
            ),
            old(self).infallible() ==> r is Ok && final(self).infallible(),
    {
        proof {
            self.lemma_head();
        }
        let ghost orig = self.runs@;
        let mut current = self.current.take().unwrap();
        let ghost c = current.0 as int;
        let ghost k = current.head_key();
        proof {
            self.lemma_current_leads(&current);
        }
        match self.skip_same_keys(&current) {
            Err(e) => {
                self.current = Some(current);
                return Err(e);
            },
            Ok(()) => {},
        }
        let ghost runs1 = self.runs@;
        assert(runs1.update(c, orig[c].skip(1)) =~= drop_heads(orig, k));
        let moved = current.1.next();
        let r = self.after_current_moved(current, moved);
        proof {
            if r is Ok {
                assert((seq![orig[c][0]] + merge_all(self.runs@)).skip(1) =~= merge_all(
                    self.runs@,
                ));
            } else {
                assert(orig[c].len() > 0 && self.runs@[c].len() == 0);
            }
        }
        r
    }
}

} // verus!
