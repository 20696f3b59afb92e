//! Putting identifiers into a sequence that they share no point with.

use vstd::prelude::*;
use crate::id::cover::{first_point, lemma_inhabited, Point};
use crate::id::relation::{lemma_relation_covers, lemma_relation_wf, model_relation, RelationView};
use crate::id::{IdError, IdView};
use crate::set::insert::model_insert_from;
use crate::set::merge::{first_merging, lemma_merged, put};
use crate::set::optimal::lemma_optimal;
use crate::set::or::model_union;
use crate::set::{all_wf, covered, disjoint};

verus! {

/// The first identifier that merges, if there is one, is at a place of the
/// sequence and merges.
pub proof fn lemma_first_merging(s: Seq<IdView>, o: IdView, k: int)
    requires
        0 <= k <= s.len(),
    ensures
        k <= first_merging(s, o, k) <= s.len(),
        first_merging(s, o, k) < s.len() ==> s[first_merging(s, o, k)].merged(o) is Some,
    decreases s.len() - k,
{
    if k < s.len() && s[k].merged(o) is None {
        lemma_first_merging(s, o, k + 1);
    }
}

/// What a sequence of well-formed identifiers covers after one more was put
/// into it: what it covered, and what that one covers; and its identifiers
/// share no point where they shared none and that one shared none with
/// them.
pub proof fn lemma_put(s: Seq<IdView>, v: IdView)
    requires
        all_wf(s),
        v.wf(),
    ensures
        all_wf(put(s, v)),
        forall|p: Point| #[trigger] covered(put(s, v), p) <==> covered(s, p) || v.covers(p),
        disjoint(s) && (forall|p: Point| !(#[trigger] v.covers(p) && covered(s, p))) ==> disjoint(
            put(s, v),
        ),
{
    let o = v.optimal();
    let m = first_merging(s, o, 0);
    let after = put(s, v);
    lemma_optimal(v);
    lemma_first_merging(s, o, 0);
    if m < s.len() {
        assert(s[m].wf());
        lemma_merged(s[m], o);
        lemma_optimal(s[m].merged(o)->0);
    }
    assert forall|k: int| 0 <= k < after.len() implies (#[trigger] after[k]).wf() by {
        if k != m {
            assert(s[k].wf());
        }
    }
    crate::id::complement::lemma_pushed(s, after, v, m);
}

/// An identifier that shares no point with any identifier of a sequence
/// that is looked at is put into the sequence as it is, unless a time index
/// does not fit on the way.
pub proof fn lemma_insert_apart(s: Seq<IdView>, v: IdView, start: int, end: int)
    requires
        all_wf(s),
        v.wf(),
        0 <= start <= end <= s.len(),
        forall|k: int| start <= k < end ==> (#[trigger] s[k]).apart(v),
    ensures
        model_insert_from(s, v, start, end) is Ok ==> model_insert_from(s, v, start, end) == Ok::<
            Seq<IdView>,
            IdError,
        >(put(s, v)),
    decreases end - start,
{
    if start < end {
        let e = s[start];
        assert(e.wf() && e.apart(v));
        lemma_relation_wf(e, v);
        if model_relation(e, v) is Ok {
            let rel = model_relation(e, v)->Ok_0;
            if !(rel is Disjoint) {
                let part = match rel {
                    RelationView::Equal(w) => w,
                    RelationView::Subset(w) => w,
                    RelationView::Superset(w) => w,
                    RelationView::Overlap(w) => w,
                    RelationView::Disjoint => v,
                };
                lemma_inhabited(part);
                lemma_relation_covers(e, v, first_point(part));
                assert(e.covers(first_point(part)) && v.covers(first_point(part)));
            }
            lemma_insert_apart(s, v, start + 1, end);
        }
    }
}

/// The union of two sequences of well-formed identifiers, of which no two
/// identifiers share a point, is made by putting the identifiers of the
/// second into the first one after the other as they are: it covers what the
/// two cover, and its identifiers share no point.
pub proof fn lemma_union_apart(own: Seq<IdView>, c: Seq<IdView>, n: nat)
    requires
        all_wf(own),
        all_wf(c),
        disjoint(own),
        disjoint(c),
        forall|p: Point| !(#[trigger] covered(own, p) && covered(c, p)),
        n <= c.len(),
        model_union(own, c, n) is Ok,
    ensures
        all_wf(model_union(own, c, n)->Ok_0),
        disjoint(model_union(own, c, n)->Ok_0),
        forall|p: Point| #[trigger]
            covered(model_union(own, c, n)->Ok_0, p) <==> covered(own, p) || covered(
                c.subrange(0, n as int),
                p,
            ),
    decreases n,
{
    let u = model_union(own, c, n)->Ok_0;
    if n == 0 {
        assert(c.subrange(0, 0) =~= Seq::<IdView>::empty());
    } else {
        lemma_union_apart(own, c, (n - 1) as nat);
        let prev = model_union(own, c, (n - 1) as nat)->Ok_0;
        let v = c[n - 1];
        let head = c.subrange(0, n - 1);
        let more = c.subrange(0, n as int);
        assert(v.wf());
        assert forall|k: int| 0 <= k < prev.len() implies (#[trigger] prev[k]).apart(v) by {
            assert forall|p: Point| !(#[trigger] prev[k].covers(p) && v.covers(p)) by {
                if prev[k].covers(p) && v.covers(p) {
                    assert(covered(prev, p));
                    assert(covered(c, p));
                    if covered(head, p) {
                        let i = choose|i: int| 0 <= i < head.len() && (#[trigger] head[i]).covers(p);
                        assert(c[i].covers(p));
                    }
                }
            }
        }
        lemma_insert_apart(prev, v, 0, prev.len() as int);
        assert(u == put(prev, v));
        lemma_put(prev, v);
        assert forall|p: Point| !(#[trigger] v.covers(p) && covered(prev, p)) by {
            if v.covers(p) && covered(prev, p) {
                let k = choose|k: int| 0 <= k < prev.len() && (#[trigger] prev[k]).covers(p);
                assert(prev[k].apart(v));
            }
        }
        assert forall|p: Point| #[trigger] covered(u, p) <==> covered(own, p) || covered(
            more,
            p,
        ) by {
            if covered(head, p) {
                let i = choose|i: int| 0 <= i < head.len() && (#[trigger] head[i]).covers(p);
                assert(more[i].covers(p));
            }
            if v.covers(p) {
                assert(more[n - 1].covers(p));
            }
            if covered(more, p) {
                let i = choose|i: int| 0 <= i < more.len() && (#[trigger] more[i]).covers(p);
                if i < n - 1 {
                    assert(head[i].covers(p));
                }
            }
        }
    }
}

} // verus!
