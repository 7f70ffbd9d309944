//! What merging sorted runs means, and what holds of the result.

use crate::iterators::{has_key, strictly_sorted, Entry};
use crate::key::{
    lemma_lex_asymmetric, lemma_lex_irreflexive, lemma_lex_total, lemma_lex_transitive, lex_lt,
};
use vstd::prelude::*;

verus! {

/// The merge of two runs. Where both hold a key, the entry of `a` is kept and
/// that of `b` dropped.
pub open spec fn merge2(a: Seq<Entry>, b: Seq<Entry>) -> Seq<Entry>
    decreases a.len() + b.len(),
{
    if a.len() == 0 {
        b
    } else if b.len() == 0 {
        a
    } else if lex_lt(a[0].key, b[0].key) {
        seq![a[0]] + merge2(a.skip(1), b)
    } else if lex_lt(b[0].key, a[0].key) {
        seq![b[0]] + merge2(a, b.skip(1))
    } else {
        seq![a[0]] + merge2(a.skip(1), b.skip(1))
    }
}

/// The merge of any number of runs, the run at a lower index having
/// priority over those behind it.
pub open spec fn merge_all(s: Seq<Seq<Entry>>) -> Seq<Entry>
    decreases s.len(),
{
    if s.len() == 0 {
        Seq::empty()
    } else {
        merge2(s[0], merge_all(s.skip(1)))
    }
}

/// Every run of `s` is strictly sorted.
pub open spec fn all_sorted(s: Seq<Seq<Entry>>) -> bool {
    forall|i: int| 0 <= i < s.len() ==> strictly_sorted(#[trigger] s[i])
}

/// `k` is smaller than every key of `s`.
pub open spec fn below_all(k: Seq<u8>, s: Seq<Entry>) -> bool {
    forall|i: int| 0 <= i < s.len() ==> lex_lt(k, #[trigger] s[i].key)
}

/// Some run of `s` holds the key `k`.
pub open spec fn some_run_has_key(s: Seq<Seq<Entry>>, k: Seq<u8>) -> bool {
    exists|j: int| 0 <= j < s.len() && has_key(#[trigger] s[j], k)
}

/// `e` is an entry of the first run of `s` that holds the key of `e`.
pub open spec fn from_first_holder(s: Seq<Seq<Entry>>, e: Entry) -> bool {
    exists|j: int|
        0 <= j < s.len() && (#[trigger] s[j]).contains(e) && forall|h: int|
            0 <= h < j ==> !has_key(#[trigger] s[h], e.key)
}

/// What is left of a sorted run behind its first entry is sorted, and all of
/// it lies above that entry.
pub proof fn lemma_sorted_tail(s: Seq<Entry>)
    requires
        strictly_sorted(s),
        s.len() > 0,
    ensures
        strictly_sorted(s.skip(1)),
        below_all(s[0].key, s.skip(1)),
{
    let t = s.skip(1);
    assert forall|i: int, j: int| 0 <= i < j < t.len() implies lex_lt(
        #[trigger] t[i].key,
        #[trigger] t[j].key,
    ) by {
        assert(t[i] == s[i + 1] && t[j] == s[j + 1]);
        assert(lex_lt(s[i + 1].key, s[j + 1].key));
    }
    assert forall|i: int| 0 <= i < t.len() implies lex_lt(s[0].key, #[trigger] t[i].key) by {
        assert(t[i] == s[i + 1]);
        assert(lex_lt(s[0].key, s[i + 1].key));
    }
}

proof fn lemma_sorted_cons(x: Entry, s: Seq<Entry>)
    requires
        strictly_sorted(s),
        below_all(x.key, s),
    ensures
        strictly_sorted(seq![x] + s),
{
    let t = seq![x] + s;
    assert forall|i: int, j: int| 0 <= i < j < t.len() implies lex_lt(
        #[trigger] t[i].key,
        #[trigger] t[j].key,
    ) by {
        assert(t[j] == s[j - 1]);
        if i == 0 {
            assert(t[i] == x);
        } else {
            assert(t[i] == s[i - 1]);
        }
    }
}

proof fn lemma_below_all_members(k: Seq<u8>, s: Seq<Entry>, e: Entry)
    requires
        below_all(k, s),
        s.contains(e),
    ensures
        lex_lt(k, e.key),
{
    let i = choose|i: int| 0 <= i < s.len() && s[i] == e;
    assert(lex_lt(k, s[i].key));
}

proof fn lemma_below_all_no_key(k: Seq<u8>, s: Seq<Entry>)
    requires
        below_all(k, s),
    ensures
        !has_key(s, k),
{
    if has_key(s, k) {
        let i = choose|i: int| 0 <= i < s.len() && #[trigger] s[i].key == k;
        assert(lex_lt(k, s[i].key));
        lemma_lex_irreflexive(k);
    }
}

proof fn lemma_below_all_weaken(k: Seq<u8>, h: Seq<u8>, s: Seq<Entry>)
    requires
        lex_lt(k, h) || k == h,
        below_all(h, s),
    ensures
        below_all(k, s),
{
    assert forall|i: int| 0 <= i < s.len() implies lex_lt(k, #[trigger] s[i].key) by {
        assert(lex_lt(h, s[i].key));
        if k != h {
            lemma_lex_transitive(k, h, s[i].key);
        }
    }
}

proof fn lemma_has_key_cons(x: Entry, s: Seq<Entry>, k: Seq<u8>)
    ensures
        has_key(seq![x] + s, k) <==> (x.key == k || has_key(s, k)),
{
    let t = seq![x] + s;
    if has_key(t, k) {
        let i = choose|i: int| 0 <= i < t.len() && #[trigger] t[i].key == k;
        if i > 0 {
            assert(s[i - 1].key == k);
        }
    }
    if x.key == k {
        assert(t[0].key == k);
    }
    if has_key(s, k) {
        let i = choose|i: int| 0 <= i < s.len() && #[trigger] s[i].key == k;
        assert(t[i + 1].key == k);
    }
}

proof fn lemma_contains_cons(x: Entry, s: Seq<Entry>, e: Entry)
    ensures
        (seq![x] + s).contains(e) <==> (x == e || s.contains(e)),
{
    let t = seq![x] + s;
    if t.contains(e) {
        let i = choose|i: int| 0 <= i < t.len() && t[i] == e;
        if i > 0 {
            assert(s[i - 1] == e);
        }
    }
    if x == e {
        assert(t[0] == e);
    }
    if s.contains(e) {
        let i = choose|i: int| 0 <= i < s.len() && s[i] == e;
        assert(t[i + 1] == e);
    }
}

/// What the merge of two sorted runs holds: each of its entries is an entry
/// of `a`, or an entry of `b` whose key `a` lacks; every key of either run
/// occurs in it; and it is strictly sorted.
pub proof fn lemma_merge2(a: Seq<Entry>, b: Seq<Entry>)
    requires
        strictly_sorted(a),
        strictly_sorted(b),
    ensures
        strictly_sorted(merge2(a, b)),
        forall|k: Seq<u8>| has_key(merge2(a, b), k) <==> (has_key(a, k) || has_key(b, k)),
        forall|i: int|
            0 <= i < merge2(a, b).len() ==> a.contains(#[trigger] merge2(a, b)[i]) || (b.contains(
                merge2(a, b)[i],
            ) && !has_key(a, merge2(a, b)[i].key)),
    decreases a.len() + b.len(),
{
    let m = merge2(a, b);
    if a.len() == 0 {
        assert forall|i: int| 0 <= i < m.len() implies b.contains(#[trigger] m[i]) && !has_key(
            a,
            m[i].key,
        ) by {
            assert(b[i] == m[i]);
        }
    } else if b.len() == 0 {
        assert forall|i: int| 0 <= i < m.len() implies a.contains(#[trigger] m[i]) by {
            assert(a[i] == m[i]);
        }
    } else {
        let a0 = a[0];
        let b0 = b[0];
        let at = a.skip(1);
        let bt = b.skip(1);
        assert(a =~= seq![a0] + at);
        assert(b =~= seq![b0] + bt);
        lemma_sorted_tail(a);
        lemma_sorted_tail(b);
        lemma_lex_total(a0.key, b0.key);
        lemma_lex_asymmetric(a0.key, b0.key);
        lemma_lex_irreflexive(a0.key);
        // The head of the result, and the two runs that are merged behind it.
        let head = if lex_lt(b0.key, a0.key) {
            b0
        } else {
            a0
        };
        let ra = if lex_lt(b0.key, a0.key) {
            a
        } else {
            at
        };
        let rb = if lex_lt(a0.key, b0.key) {
            b
        } else {
            bt
        };
        let rest = merge2(ra, rb);
        assert(m == seq![head] + rest);
        lemma_merge2(ra, rb);
        // The head is below everything that is left of both runs.
        lemma_below_all_weaken(head.key, a0.key, at);
        lemma_below_all_weaken(head.key, b0.key, bt);
        assert(below_all(head.key, ra)) by {
            if lex_lt(b0.key, a0.key) {
                assert forall|i: int| 0 <= i < a.len() implies lex_lt(
                    head.key,
                    #[trigger] a[i].key,
                ) by {
                    if i > 0 {
                        assert(a[i] == at[i - 1]);
                    }
                }
            }
        }
        assert(below_all(head.key, rb)) by {
            if lex_lt(a0.key, b0.key) {
                assert forall|i: int| 0 <= i < b.len() implies lex_lt(
                    head.key,
                    #[trigger] b[i].key,
                ) by {
                    if i > 0 {
                        assert(b[i] == bt[i - 1]);
                    }
                }
            }
        }
        lemma_below_all_no_key(head.key, ra);
        lemma_below_all_no_key(head.key, rb);
        assert(below_all(head.key, rest)) by {
            assert forall|i: int| 0 <= i < rest.len() implies lex_lt(
                head.key,
                #[trigger] rest[i].key,
            ) by {
                if ra.contains(rest[i]) {
                    lemma_below_all_members(head.key, ra, rest[i]);
                } else {
                    lemma_below_all_members(head.key, rb, rest[i]);
                }
            }
        }
        lemma_sorted_cons(head, rest);
        assert forall|k: Seq<u8>| has_key(m, k) <==> (has_key(a, k) || has_key(b, k)) by {
            lemma_has_key_cons(head, rest, k);
            lemma_has_key_cons(a0, at, k);
            lemma_has_key_cons(b0, bt, k);
        }
        assert forall|i: int| 0 <= i < m.len() implies a.contains(#[trigger] m[i]) || (b.contains(
            m[i],
        ) && !has_key(a, m[i].key)) by {
            let e = m[i];
            lemma_contains_cons(a0, at, e);
            lemma_contains_cons(b0, bt, e);
            lemma_has_key_cons(a0, at, e.key);
            if i == 0 {
                assert(e == head);
            } else {
                assert(e == rest[i - 1]);
                if !ra.contains(e) {
                    // `e` comes from what is left of `b`, and `ra` lacks its key.
                    lemma_below_all_members(head.key, rb, e);
                    lemma_lex_irreflexive(e.key);
                    if lex_lt(a0.key, b0.key) {
                        assert(lex_lt(a0.key, e.key));
                    } else if !lex_lt(b0.key, a0.key) {
                        assert(a0.key == b0.key);
                    }
                }
            }
        }
    }
}

/// What the merge of sorted runs yields is strictly sorted, and its keys are
/// those of the runs taken together.
pub proof fn lemma_merge_all_sorted(s: Seq<Seq<Entry>>)
    requires
        all_sorted(s),
    ensures
        strictly_sorted(merge_all(s)),
        forall|k: Seq<u8>| has_key(merge_all(s), k) <==> some_run_has_key(s, k),
    decreases s.len(),
{
    if s.len() > 0 {
        let rest = s.skip(1);
        assert forall|i: int| 0 <= i < rest.len() implies strictly_sorted(#[trigger] rest[i]) by {
            assert(rest[i] == s[i + 1]);
        }
        lemma_merge_all_sorted(rest);
        lemma_merge2(s[0], merge_all(rest));
        assert forall|k: Seq<u8>| has_key(merge_all(s), k) <==> some_run_has_key(s, k) by {
            if has_key(s[0], k) {
                assert(some_run_has_key(s, k));
            }
            if some_run_has_key(rest, k) {
                let j = choose|j: int| 0 <= j < rest.len() && has_key(#[trigger] rest[j], k);
                assert(has_key(s[j + 1], k));
            }
            if some_run_has_key(s, k) {
                let j = choose|j: int| 0 <= j < s.len() && has_key(#[trigger] s[j], k);
                if j > 0 {
                    assert(has_key(rest[j - 1], k));
                }
            }
        }
    } else {
        assert forall|k: Seq<u8>| has_key(merge_all(s), k) <==> some_run_has_key(s, k) by {}
    }
}

/// Each entry that the merge of sorted runs yields is the entry of the first
/// run that holds its key: where several runs hold one key, the value of the
/// run with the lowest index is the one that is kept.
pub proof fn lemma_merge_all_lowest_wins(s: Seq<Seq<Entry>>)
    requires
        all_sorted(s),
    ensures
        forall|i: int|
            0 <= i < merge_all(s).len() ==> from_first_holder(s, #[trigger] merge_all(s)[i]),
    decreases s.len(),
{
    if s.len() > 0 {
        let rest = s.skip(1);
        let m = merge_all(s);
        assert forall|i: int| 0 <= i < rest.len() implies strictly_sorted(#[trigger] rest[i]) by {
            assert(rest[i] == s[i + 1]);
        }
        lemma_merge_all_sorted(rest);
        lemma_merge_all_lowest_wins(rest);
        lemma_merge2(s[0], merge_all(rest));
        assert forall|i: int| 0 <= i < m.len() implies from_first_holder(s, #[trigger] m[i]) by {
            let e = m[i];
            if s[0].contains(e) {
                assert(0 <= 0 < s.len() && s[0].contains(e));
            } else {
                let r = merge_all(rest);
                let p = choose|p: int| 0 <= p < r.len() && r[p] == e;
                assert(from_first_holder(rest, r[p]));
                let j = choose|j: int|
                    0 <= j < rest.len() && (#[trigger] rest[j]).contains(e) && forall|h: int|
                        0 <= h < j ==> !has_key(#[trigger] rest[h], e.key);
                assert(rest[j] == s[j + 1]);
                assert forall|h: int| 0 <= h < j + 1 implies !has_key(#[trigger] s[h], e.key) by {
                    if h > 0 {
                        assert(s[h] == rest[h - 1]);
                    }
                }
                assert(0 <= j + 1 < s.len() && s[j + 1].contains(e));
            }
        }
    }
}

/// The run `r` stands on the key `k`.
pub open spec fn head_is(r: Seq<Entry>, k: Seq<u8>) -> bool {
    r.len() > 0 && r[0].key == k
}

/// `r` without its first entry, if that entry has the key `k`.
pub open spec fn drop_head(r: Seq<Entry>, k: Seq<u8>) -> Seq<Entry> {
    if head_is(r, k) {
        r.skip(1)
    } else {
        r
    }
}

/// The runs of `s`, each moved past the key `k` if it stood on it.
pub open spec fn drop_heads(s: Seq<Seq<Entry>>, k: Seq<u8>) -> Seq<Seq<Entry>> {
    Seq::new(s.len(), |j: int| drop_head(s[j], k))
}

/// The number of entries in all runs of `s` together.
pub open spec fn total_len(s: Seq<Seq<Entry>>) -> nat
    decreases s.len(),
{
    if s.len() == 0 {
        0
    } else {
        total_len(s.drop_last()) + s.last().len()
    }
}

/// Replacing one run changes the total by the difference of the lengths.
pub proof fn lemma_total_len_update(s: Seq<Seq<Entry>>, i: int, r: Seq<Entry>)
    requires
        0 <= i < s.len(),
    ensures
        total_len(s.update(i, r)) == total_len(s) - s[i].len() + r.len(),
    decreases s.len(),
{
    let t = s.update(i, r);
    if i == s.len() - 1 {
        assert(t.drop_last() =~= s.drop_last());
    } else {
        assert(t.drop_last() =~= s.drop_last().update(i, r));
        lemma_total_len_update(s.drop_last(), i, r);
    }
}

/// Runs that are all exhausted merge to nothing.
pub proof fn lemma_merge_all_empty(s: Seq<Seq<Entry>>)
    requires
        forall|j: int| 0 <= j < s.len() ==> (#[trigger] s[j]).len() == 0,
    ensures
        merge_all(s).len() == 0,
    decreases s.len(),
{
    if s.len() > 0 {
        let rest = s.skip(1);
        assert forall|j: int| 0 <= j < rest.len() implies (#[trigger] rest[j]).len() == 0 by {
            assert(rest[j] == s[j + 1]);
        }
        lemma_merge_all_empty(rest);
        assert(s[0].len() == 0);
    }
}

/// If every run stands on a key above `k`, so does the merge.
pub proof fn lemma_merge_all_head_above(s: Seq<Seq<Entry>>, k: Seq<u8>)
    requires
        forall|j: int|
            0 <= j < s.len() && (#[trigger] s[j]).len() > 0 ==> lex_lt(k, s[j][0].key),
    ensures
        merge_all(s).len() > 0 ==> lex_lt(k, merge_all(s)[0].key),
    decreases s.len(),
{
    if s.len() > 0 {
        let rest = s.skip(1);
        assert forall|j: int| 0 <= j < rest.len() && (#[trigger] rest[j]).len() > 0 implies lex_lt(
            k,
            rest[j][0].key,
        ) by {
            assert(rest[j] == s[j + 1]);
        }
        lemma_merge_all_head_above(rest, k);
        assert(s[0].len() > 0 ==> lex_lt(k, s[0][0].key));
    }
}

proof fn lemma_first_head(s: Seq<Seq<Entry>>, k: Seq<u8>, j: int) -> (c: int)
    requires
        0 <= j < s.len(),
        head_is(s[j], k),
    ensures
        0 <= c <= j,
        head_is(s[c], k),
        forall|h: int| 0 <= h < c ==> !head_is(#[trigger] s[h], k),
    decreases j,
{
    if exists|h: int| 0 <= h < j && head_is(#[trigger] s[h], k) {
        let h = choose|h: int| 0 <= h < j && head_is(#[trigger] s[h], k);
        lemma_first_head(s, k, h)
    } else {
        j
    }
}

/// One step of the merge. Let `k` be the smallest key on which any run
/// stands, and `c` the first run that stands on it. Then the merge yields the
/// head of run `c` first, and after it the merge of the runs moved past `k`.
pub proof fn lemma_merge_all_step(s: Seq<Seq<Entry>>, c: int, k: Seq<u8>)
    requires
        0 <= c < s.len(),
        head_is(s[c], k),
        forall|j: int| 0 <= j < c && (#[trigger] s[j]).len() > 0 ==> lex_lt(k, s[j][0].key),
        forall|j: int| c < j < s.len() && (#[trigger] s[j]).len() > 0 ==> !lex_lt(s[j][0].key, k),
    ensures
        merge_all(s) == seq![s[c][0]] + merge_all(drop_heads(s, k)),
    decreases s.len(),
{
    let rest = s.skip(1);
    let d = drop_heads(s, k);
    let m_rest = merge_all(rest);
    let s0 = s[0];
    assert(d.skip(1) =~= drop_heads(rest, k));
    assert(d[0] == drop_head(s0, k));
    lemma_lex_irreflexive(k);
    if c == 0 {
        assert(d[0] == s0.skip(1));
        if exists|j: int| 0 <= j < rest.len() && head_is(#[trigger] rest[j], k) {
            let j = choose|j: int| 0 <= j < rest.len() && head_is(#[trigger] rest[j], k);
            let f = lemma_first_head(rest, k, j);
            assert forall|h: int| 0 <= h < f && (#[trigger] rest[h]).len() > 0 implies lex_lt(
                k,
                rest[h][0].key,
            ) by {
                assert(rest[h] == s[h + 1]);
                assert(!head_is(rest[h], k));
                lemma_lex_total(k, rest[h][0].key);
            }
            assert forall|h: int| f < h < rest.len() && (#[trigger] rest[h]).len() > 0 implies !lex_lt(
                rest[h][0].key,
                k,
            ) by {
                assert(rest[h] == s[h + 1]);
            }
            lemma_merge_all_step(rest, f, k);
            assert(m_rest[0].key == k);
            assert(m_rest.skip(1) =~= merge_all(drop_heads(rest, k)));
        } else {
            assert forall|h: int| 0 <= h < rest.len() && (#[trigger] rest[h]).len() > 0 implies lex_lt(
                k,
                rest[h][0].key,
            ) by {
                assert(rest[h] == s[h + 1]);
                assert(!head_is(rest[h], k));
                lemma_lex_total(k, rest[h][0].key);
            }
            lemma_merge_all_head_above(rest, k);
            assert(drop_heads(rest, k) =~= rest);
            if m_rest.len() == 0 {
                assert(merge2(s0.skip(1), m_rest) =~= s0.skip(1));
                assert(s0 =~= seq![s0[0]] + s0.skip(1));
            } else {
                lemma_lex_asymmetric(k, m_rest[0].key);
            }
        }
    } else {
        assert forall|h: int| 0 <= h < c - 1 && (#[trigger] rest[h]).len() > 0 implies lex_lt(
            k,
            rest[h][0].key,
        ) by {
            assert(rest[h] == s[h + 1]);
        }
        assert forall|h: int| c - 1 < h < rest.len() && (#[trigger] rest[h]).len() > 0 implies !lex_lt(
            rest[h][0].key,
            k,
        ) by {
            assert(rest[h] == s[h + 1]);
        }
        assert(rest[c - 1] == s[c]);
        lemma_merge_all_step(rest, c - 1, k);
        assert(m_rest[0] == s[c][0]);
        assert(m_rest.skip(1) =~= merge_all(drop_heads(rest, k)));
        assert(d[0] == s0);
        if s0.len() > 0 {
            assert(lex_lt(k, s0[0].key));
            lemma_lex_asymmetric(k, s0[0].key);
        }
    }
}

} // verus!
