//! What happens when the same generation is applied again: the merge of a list
//! with the incoming list that it was built on.

use crate::globs;
use crate::list_laws;
use crate::lists;
use crate::merge::{self, Addition, FamilyModel};
use crate::merge_laws;
use crate::text;
use vstd::prelude::*;

verus! {

/// The walk along what a list has in common with the incoming one.
pub open spec fn shared_walk(theirs: Seq<Seq<char>>, ours: Seq<Seq<char>>) -> Seq<(int, int)> {
    lists::common_walk(lists::norms_of(theirs), lists::norms_of(ours), 0, 0)
}

/// `ours` is at rest on `theirs`: no local addition is superseded, and those
/// that the incoming list has as well stand before the first anchor.
pub open spec fn at_rest(
    theirs: Seq<Seq<char>>,
    ours: Seq<Seq<char>>,
    families: Seq<FamilyModel>,
) -> bool {
    let walk = shared_walk(theirs, ours);
    let start = merge::surviving(theirs, ours, theirs);
    forall|i: int|
        0 <= i < ours.len() && !#[trigger] merge::anchored(walk, i) ==> !merge::superseded(
            families,
            start,
            ours[i],
        ) && (merge::holds(theirs, lists::norm_of(ours[i])) ==> merge::anchor_before(
            ours,
            walk,
            i,
        ) is None)
}

// --- one more addition at the end ---------------------------------------------

proof fn lemma_entries_filter_push(
    added: Seq<Addition>,
    a: Addition,
    p: spec_fn(Addition) -> bool,
)
    ensures
        merge_laws::entries(added.push(a).filter(p)) == if p(a) {
            merge_laws::entries(added.filter(p)).push(a.entry)
        } else {
            merge_laws::entries(added.filter(p))
        },
{
    added.lemma_filter_push(a, p);
    if p(a) {
        assert(merge_laws::entries(added.filter(p).push(a)) =~= merge_laws::entries(
            added.filter(p),
        ).push(a.entry));
    }
}

proof fn lemma_laid_out_push_elsewhere(
    theirs: Seq<Seq<char>>,
    list: Seq<Seq<char>>,
    added: Seq<Addition>,
    a: Addition,
)
    requires
        a.after is None || !merge::holds(list, a.after->0),
    ensures
        merge_laws::laid_out(theirs, list, added.push(a)) == merge_laws::laid_out(
            theirs,
            list,
            added,
        ),
    decreases list.len(),
{
    if list.len() > 0 {
        let before = list.drop_last();
        list_laws::lemma_holds_entry(list, list.len() - 1);
        if a.after is Some && merge::holds(before, a.after->0) {
            let i = list_laws::lemma_holds_at(before, a.after->0);
            list_laws::lemma_holds_entry(list, i);
        }
        lemma_laid_out_push_elsewhere(theirs, before, added, a);
        let n = lists::norm_of(list.last());
        lemma_entries_filter_push(
            added,
            a,
            |x: Addition| x.after == Some(n) && !merge::holds(theirs, lists::norm_of(x.entry)),
        );
    }
}

// --- at rest, the list stays ---------------------------------------------------

/// The first `q` anchors, as the incoming list spells them.
spec fn anchors_of(theirs: Seq<Seq<char>>, walk: Seq<(int, int)>, q: int) -> Seq<Seq<char>> {
    Seq::new(q as nat, |r: int| theirs[walk[r].0])
}

/// `now` is `ours` with the anchors spelled as the incoming list spells them.
spec fn is_respelled(
    theirs: Seq<Seq<char>>,
    ours: Seq<Seq<char>>,
    walk: Seq<(int, int)>,
    now: Seq<Seq<char>>,
) -> bool {
    &&& now.len() == ours.len()
    &&& forall|i: int|
        0 <= i < now.len() && !merge::anchored(walk, i) ==> #[trigger] now[i] == ours[i]
    &&& forall|r: int|
        0 <= r < walk.len() ==> now[(#[trigger] walk[r]).1] == theirs[walk[r].0]
}

proof fn lemma_rebuilt(
    theirs: Seq<Seq<char>>,
    ours: Seq<Seq<char>>,
    families: Seq<FamilyModel>,
    now: Seq<Seq<char>>,
    n: int,
    q: int,
)
    requires
        list_laws::distinct(theirs),
        list_laws::distinct(ours),
        at_rest(theirs, ours, families),
        is_respelled(theirs, ours, shared_walk(theirs, ours), now),
        0 <= n <= ours.len(),
        0 <= q <= shared_walk(theirs, ours).len(),
        forall|r: int| 0 <= r < q ==> (#[trigger] shared_walk(theirs, ours)[r]).1 < n,
        forall|r: int|
            q <= r < shared_walk(theirs, ours).len() ==> n <= (#[trigger] shared_walk(
                theirs,
                ours,
            )[r]).1,
    ensures
        merge_laws::heads(merge::additions(ours, shared_walk(theirs, ours), n))
            + merge_laws::laid_out(
            theirs,
            anchors_of(theirs, shared_walk(theirs, ours), q),
            merge::additions(ours, shared_walk(theirs, ours), n),
        ) == now.take(n),
    decreases n,
{
    let x = lists::norms_of(theirs);
    let y = lists::norms_of(ours);
    let walk = shared_walk(theirs, ours);
    lists::common_walk_is_common(x, y, 0, 0);
    let added = merge::additions(ours, walk, n);
    let list = anchors_of(theirs, walk, q);
    let is_head = |a: Addition| a.after is None;
    if n == 0 {
        if q > 0 {
            assert(walk[0].1 < 0);
        }
        assert(list.len() == 0);
        merge_laws::lemma_filter_none(added, is_head);
        assert(merge_laws::heads(added) + merge_laws::laid_out(theirs, list, added)
            =~= now.take(0));
    } else if merge::anchored(walk, n - 1) {
        let r = choose|r: int| 0 <= r < walk.len() && (#[trigger] walk[r]).1 == n - 1;
        assert(r < q);
        if r < q - 1 {
            assert(walk[r].1 < walk[q - 1].1);
        }
        assert(r == q - 1);
        assert forall|s: int| 0 <= s < q - 1 implies (#[trigger] walk[s]).1 < n - 1 by {
            assert(walk[s].1 < walk[q - 1].1);
        }
        assert forall|s: int| q - 1 <= s < walk.len() implies n - 1 <= (#[trigger] walk[s]).1 by {
            if s > q - 1 {
                assert(walk[q - 1].1 < walk[s].1);
            }
        }
        lemma_rebuilt(theirs, ours, families, now, n - 1, q - 1);
        let e = theirs[walk[q - 1].0];
        let short = anchors_of(theirs, walk, q - 1);
        assert(list =~= short.push(e));
        assert(list.drop_last() =~= short);
        assert(x[walk[q - 1].0] == y[walk[q - 1].1]);
        let m = lists::norm_of(e);
        assert(m == lists::norm_of(ours[n - 1]));
        // Nothing follows this anchor yet.
        let p = |a: Addition| a.after == Some(m) && !merge::holds(theirs, lists::norm_of(a.entry));
        assert forall|k: int| 0 <= k < added.len() implies !p(#[trigger] added[k]) by {
            let i = merge_laws::lemma_addition_source(ours, walk, n - 1, k);
            let c = merge_laws::lemma_anchor_before(ours, walk, i);
            if added[k].after is Some {
                assert(lists::norm_of(ours[c]) != lists::norm_of(ours[n - 1]));
            }
        }
        merge_laws::lemma_filter_none(added, p);
        assert(merge_laws::followers(theirs, added, m) =~= Seq::<Seq<char>>::empty());
        assert(now[n - 1] == e);
        assert(now.take(n) =~= now.take(n - 1).push(e));
        assert(merge_laws::heads(added) + merge_laws::laid_out(theirs, list, added) =~= (
        merge_laws::heads(added) + merge_laws::laid_out(theirs, short, added)).push(e));
    } else {
        assert forall|s: int| 0 <= s < q implies (#[trigger] walk[s]).1 < n - 1 by {
            if walk[s].1 == n - 1 {
                assert(merge::anchored(walk, n - 1));
            }
        }
        assert forall|s: int| q <= s < walk.len() implies n - 1 <= (#[trigger] walk[s]).1 by {}
        lemma_rebuilt(theirs, ours, families, now, n - 1, q);
        let before = merge::additions(ours, walk, n - 1);
        let a = Addition { entry: ours[n - 1], after: merge::anchor_before(ours, walk, n - 1) };
        assert(added == before.push(a));
        lemma_entries_filter_push(before, a, is_head);
        let c = merge_laws::lemma_anchor_before(ours, walk, n - 1);
        assert(now[n - 1] == a.entry);
        assert(now.take(n) =~= now.take(n - 1).push(a.entry));
        if a.after is None {
            if q > 0 {
                assert(merge::anchored(walk, walk[0].1));
            }
            assert(list.len() == 0);
            assert(merge_laws::heads(added) + merge_laws::laid_out(theirs, list, added) =~= (
            merge_laws::heads(before) + merge_laws::laid_out(theirs, list, before)).push(a.entry));
        } else {
            let m = a.after->0;
            let r = choose|r: int| 0 <= r < walk.len() && (#[trigger] walk[r]).1 == c;
            assert(r < q);
            if r < q - 1 {
                assert(walk[r].1 < walk[q - 1].1);
                assert(merge::anchored(walk, walk[q - 1].1));
            }
            assert(r == q - 1);
            assert(x[walk[r].0] == y[walk[r].1]);
            let e = theirs[walk[r].0];
            let short = anchors_of(theirs, walk, q - 1);
            assert(list =~= short.push(e));
            assert(list.drop_last() =~= short);
            assert(lists::norm_of(e) == m);
            if merge::holds(short, m) {
                let s = list_laws::lemma_holds_at(short, m);
                assert(walk[s].0 < walk[r].0);
                assert(lists::norm_of(theirs[walk[s].0]) != lists::norm_of(theirs[walk[r].0]));
            }
            lemma_laid_out_push_elsewhere(theirs, short, before, a);
            lemma_entries_filter_push(
                before,
                a,
                |z: Addition| z.after == Some(m) && !merge::holds(theirs, lists::norm_of(z.entry)),
            );
            assert(merge_laws::heads(added) + merge_laws::laid_out(theirs, list, added) =~= (
            merge_laws::heads(before) + merge_laws::laid_out(theirs, list, before)).push(a.entry));
        }
    }
}

/// A filter that picks the elements at given places.
proof fn lemma_filter_selects<T>(v: Seq<T>, p: spec_fn(T) -> bool, at: Seq<int>)
    requires
        forall|r: int| 0 <= r < at.len() ==> 0 <= #[trigger] at[r] < v.len(),
        forall|r: int, s: int| 0 <= r < s < at.len() ==> #[trigger] at[r] < #[trigger] at[s],
        forall|j: int| 0 <= j < v.len() ==> p(#[trigger] v[j]) == at.contains(j),
    ensures
        v.filter(p) == at.map_values(|j: int| v[j]),
    decreases v.len(),
{
    reveal(Seq::filter);
    if v.len() == 0 {
        if at.len() > 0 {
            assert(at[0] < 0);
        }
        assert(v.filter(p) =~= at.map_values(|j: int| v[j]));
    } else {
        let w = v.drop_last();
        let end = v.len() - 1;
        assert(p(v[end]) == at.contains(end));
        if p(v[end]) {
            let r = choose|r: int| 0 <= r < at.len() && at[r] == end;
            if r < at.len() - 1 {
                assert(at[r] < at[at.len() - 1]);
            }
            let b = at.drop_last();
            assert forall|s: int| 0 <= s < b.len() implies 0 <= #[trigger] b[s] < w.len() by {
                assert(at[s] < at[at.len() - 1]);
            }
            assert forall|j: int| 0 <= j < w.len() implies p(#[trigger] w[j]) == b.contains(j) by {
                assert(p(v[j]) == at.contains(j));
                if at.contains(j) {
                    let s = choose|s: int| 0 <= s < at.len() && at[s] == j;
                    assert(b[s] == j);
                }
                if b.contains(j) {
                    let s = choose|s: int| 0 <= s < b.len() && b[s] == j;
                    assert(at[s] == j);
                }
            }
            lemma_filter_selects(w, p, b);
            assert(v.filter(p) =~= at.map_values(|j: int| v[j]));
        } else {
            assert forall|s: int| 0 <= s < at.len() implies 0 <= #[trigger] at[s] < w.len() by {
                if at[s] == end {
                    assert(at.contains(end));
                }
            }
            assert forall|j: int| 0 <= j < w.len() implies p(#[trigger] w[j]) == at.contains(j) by {
                assert(p(v[j]) == at.contains(j));
            }
            lemma_filter_selects(w, p, at);
            assert(v.filter(p) =~= at.map_values(|j: int| v[j]));
        }
    }
}

/// What was prepended does not break up the rest: taken out of the list, it is
/// taken out of the layout.
proof fn lemma_laid_out_filter(
    theirs: Seq<Seq<char>>,
    list: Seq<Seq<char>>,
    added: Seq<Addition>,
)
    requires
        merge_laws::can_rebase(theirs, list, added),
    ensures
        ({
            let keep = |e: Seq<char>| !merge::holds(merge_laws::heads(added), lists::norm_of(e));
            merge_laws::laid_out(theirs, list, added).filter(keep) == merge_laws::laid_out(
                theirs,
                list.filter(keep),
                added,
            )
        }),
    decreases list.len(),
{
    let h = merge_laws::heads(added);
    let keep = |e: Seq<char>| !merge::holds(h, lists::norm_of(e));
    let is_head = |a: Addition| a.after is None;
    reveal(Seq::filter);
    if list.len() == 0 {
        assert(merge_laws::laid_out(theirs, list, added).filter(keep) =~= merge_laws::laid_out(
            theirs,
            list.filter(keep),
            added,
        ));
    } else {
        let before = list.drop_last();
        let e = list.last();
        let n = lists::norm_of(e);
        let l = merge_laws::laid_out(theirs, before, added);
        let f = merge_laws::followers(theirs, added, n);
        let p = |a: Addition| a.after == Some(n) && !merge::holds(theirs, lists::norm_of(a.entry));
        merge_laws::lemma_can_rebase_shorter(theirs, list, added);
        lemma_laid_out_filter(theirs, before, added);
        Seq::filter_distributes_over_add(l.push(e), f, keep);
        l.lemma_filter_push(e, keep);
        if keep(e) {
            assert forall|q: int| 0 <= q < f.len() implies keep(#[trigger] f[q]) by {
                let c = text::lemma_filter_source(added, p, q);
                if merge::holds(h, lists::norm_of(f[q])) {
                    let d = merge_laws::lemma_entries_held(added, is_head, lists::norm_of(f[q]));
                    merge_laws::lemma_same_addition(added, c, d);
                }
            }
            text::lemma_filter_agrees(f, keep, |x: Seq<char>| true);
            text::lemma_filter_all(f);
            assert(before.filter(keep).push(e).drop_last() =~= before.filter(keep));
        } else {
            if f.len() > 0 {
                let c = text::lemma_filter_source(added, p, 0);
                let d = merge_laws::lemma_entries_held(added, is_head, n);
                assert(added[c].after->0 != lists::norm_of(added[d].entry));
            }
            assert(f =~= Seq::<Seq<char>>::empty());
            assert(f.filter(keep) =~= Seq::<Seq<char>>::empty());
            assert(l.filter(keep) + f.filter(keep) =~= l.filter(keep));
        }
    }
}

/// At rest, what the merge keeps of the incoming list besides the prepends is
/// the anchors.
proof fn lemma_anchors_are_left(
    theirs: Seq<Seq<char>>,
    ours: Seq<Seq<char>>,
    families: Seq<FamilyModel>,
)
    requires
        list_laws::distinct(theirs),
        list_laws::distinct(ours),
        at_rest(theirs, ours, families),
    ensures
        ({
            let walk = shared_walk(theirs, ours);
            let h = merge_laws::heads(merge::local_additions(theirs, ours));
            merge::surviving(theirs, ours, theirs).filter(
                |e: Seq<char>| !merge::holds(h, lists::norm_of(e)),
            ) == anchors_of(theirs, walk, walk.len() as int)
        }),
{
    let x = lists::norms_of(theirs);
    let y = lists::norms_of(ours);
    let walk = shared_walk(theirs, ours);
    lists::common_walk_is_common(x, y, 0, 0);
    let added = merge::local_additions(theirs, ours);
    let n = ours.len() as int;
    let h = merge_laws::heads(added);
    let is_head = |a: Addition| a.after is None;
    let left = |e: Seq<char>| !merge::removed_here(theirs, ours, lists::norm_of(e));
    let keep = |e: Seq<char>| !merge::holds(h, lists::norm_of(e));
    let both = |e: Seq<char>| left(e) && keep(e);
    merge_laws::lemma_filter_twice(theirs, left, keep);
    let at = walk.map_values(|w: (int, int)| w.0);
    assert forall|r: int, s: int| 0 <= r < s < at.len() implies #[trigger] at[r] < #[trigger] at[s] by {
        assert(walk[r].0 < walk[s].0);
    }
    assert forall|r: int| 0 <= r < at.len() implies 0 <= #[trigger] at[r] < theirs.len() by {
        assert(walk[r].0 < x.len());
    }
    assert forall|j: int| 0 <= j < theirs.len() implies both(#[trigger] theirs[j]) == at.contains(
        j,
    ) by {
        let m = lists::norm_of(theirs[j]);
        list_laws::lemma_holds_entry(theirs, j);
        if at.contains(j) {
            let r = choose|r: int| 0 <= r < at.len() && at[r] == j;
            assert(walk[r].0 == j);
            assert(x[walk[r].0] == y[walk[r].1]);
            let i = walk[r].1;
            assert(lists::norm_of(ours[i]) == m);
            list_laws::lemma_holds_entry(ours, i);
            if merge::holds(h, m) {
                let k = merge_laws::lemma_entries_held(added, is_head, m);
                let c = merge_laws::lemma_addition_source(ours, walk, n, k);
                assert(merge::anchored(walk, i));
                assert(c != i);
                if c < i {
                    assert(lists::norm_of(ours[c]) != lists::norm_of(ours[i]));
                } else {
                    assert(lists::norm_of(ours[i]) != lists::norm_of(ours[c]));
                }
            }
        }
        if both(theirs[j]) {
            assert(merge::holds(ours, m));
            let i = list_laws::lemma_holds_at(ours, m);
            if !merge::anchored(walk, i) {
                let k = merge_laws::lemma_addition_at(ours, walk, n, i);
                assert(is_head(added[k]));
                merge_laws::lemma_entries_cover(added, is_head, k);
            }
            let r = choose|r: int| 0 <= r < walk.len() && (#[trigger] walk[r]).1 == i;
            assert(x[walk[r].0] == y[walk[r].1]);
            let c = walk[r].0;
            assert(lists::norm_of(theirs[c]) == m);
            if c < j {
                assert(lists::norm_of(theirs[c]) != lists::norm_of(theirs[j]));
            } else if j < c {
                assert(lists::norm_of(theirs[j]) != lists::norm_of(theirs[c]));
            }
            assert(at[r] == j);
        }
    }
    lemma_filter_selects(theirs, both, at);
    assert(at.map_values(|j: int| theirs[j]) =~= anchors_of(theirs, walk, walk.len() as int));
}

/// At rest, the merge gives the list back, with the anchors as the incoming
/// list spells them.
proof fn lemma_rest_is_kept(
    theirs: Seq<Seq<char>>,
    ours: Seq<Seq<char>>,
    families: Seq<FamilyModel>,
    now: Seq<Seq<char>>,
)
    requires
        list_laws::distinct(theirs),
        list_laws::distinct(ours),
        at_rest(theirs, ours, families),
        is_respelled(theirs, ours, shared_walk(theirs, ours), now),
    ensures
        merge::merged(theirs, ours, theirs, families).list == now,
{
    let x = lists::norms_of(theirs);
    let y = lists::norms_of(ours);
    let walk = shared_walk(theirs, ours);
    lists::common_walk_is_common(x, y, 0, 0);
    let n = ours.len() as int;
    let start = merge::surviving(theirs, ours, theirs);
    let added = merge::local_additions(theirs, ours);
    let kept = merge_laws::kept_additions(theirs, ours, theirs, families);
    list_laws::dedup_keeps_distinct_lists(theirs);
    list_laws::dedup_keeps_distinct_lists(ours);
    merge_laws::merged_list_is_the_layout(theirs, ours, theirs, families);
    merge_laws::lemma_merge_can_rebase(theirs, ours, theirs, families);
    // Nothing is superseded.
    let live = |a: Addition| !merge::superseded(families, start, a.entry);
    assert forall|k: int| 0 <= k < added.len() implies live(#[trigger] added[k]) by {
        let i = merge_laws::lemma_addition_source(ours, walk, n, k);
    }
    text::lemma_filter_agrees(added, live, |a: Addition| true);
    text::lemma_filter_all(added);
    assert(kept == added);
    // No anchor is gone.
    let stray = |a: Addition|
        a.after is Some && !merge::holds(theirs, lists::norm_of(a.entry)) && !merge::holds(
            start,
            a.after->0,
        );
    assert forall|k: int| 0 <= k < added.len() implies !stray(#[trigger] added[k]) by {
        let i = merge_laws::lemma_addition_source(ours, walk, n, k);
        let c = merge_laws::lemma_anchor_before(ours, walk, i);
        if added[k].after is Some {
            let r = choose|r: int| 0 <= r < walk.len() && (#[trigger] walk[r]).1 == c;
            assert(x[walk[r].0] == y[walk[r].1]);
            let m = added[k].after->0;
            list_laws::lemma_holds_entry(theirs, walk[r].0);
            list_laws::lemma_holds_entry(ours, c);
            list_laws::lemma_holds_filter(
                theirs,
                |e: Seq<char>| !merge::removed_here(theirs, ours, lists::norm_of(e)),
                |e: Seq<char>| !merge::removed_here(theirs, ours, e),
                m,
            );
        }
    }
    merge_laws::lemma_filter_none(added, stray);
    assert(merge_laws::strays(theirs, start, added) =~= Seq::<Seq<char>>::empty());
    let l = merge_laws::laid_out(theirs, start, added);
    assert(merge_laws::body(theirs, start, added) =~= l);
    lemma_laid_out_filter(theirs, start, added);
    lemma_anchors_are_left(theirs, ours, families);
    lemma_rebuilt(theirs, ours, families, now, n, walk.len() as int);
    assert(now.take(n) =~= now);
}

/// The list with its anchors respelled.
proof fn lemma_respelled(theirs: Seq<Seq<char>>, ours: Seq<Seq<char>>) -> (now: Seq<Seq<char>>)
    ensures
        is_respelled(theirs, ours, shared_walk(theirs, ours), now),
        lists::norms_of(now) == lists::norms_of(ours),
{
    let x = lists::norms_of(theirs);
    let y = lists::norms_of(ours);
    let walk = shared_walk(theirs, ours);
    lists::common_walk_is_common(x, y, 0, 0);
    let now = Seq::new(
        ours.len(),
        |i: int|
            if merge::anchored(walk, i) {
                theirs[walk[choose|r: int| 0 <= r < walk.len() && (#[trigger] walk[r]).1 == i].0]
            } else {
                ours[i]
            },
    );
    assert forall|r: int| 0 <= r < walk.len() implies now[(#[trigger] walk[r]).1]
        == theirs[walk[r].0] by {
        let i = walk[r].1;
        assert(merge::anchored(walk, i));
        let s = choose|s: int| 0 <= s < walk.len() && (#[trigger] walk[s]).1 == i;
        if s < r {
            assert(walk[s].1 < walk[r].1);
        } else if r < s {
            assert(walk[r].1 < walk[s].1);
        }
    }
    assert forall|i: int| 0 <= i < ours.len() implies lists::norm_of(#[trigger] now[i])
        == lists::norm_of(ours[i]) by {
        if merge::anchored(walk, i) {
            let r = choose|r: int| 0 <= r < walk.len() && (#[trigger] walk[r]).1 == i;
            assert(x[walk[r].0] == y[walk[r].1]);
        }
    }
    assert(lists::norms_of(now) =~= lists::norms_of(ours));
    now
}

// --- only at rest does the list stay -------------------------------------------

/// The places that a filter picks.
spec fn kept_places<T>(v: Seq<T>, p: spec_fn(T) -> bool) -> Seq<int>
    decreases v.len(),
{
    if v.len() == 0 {
        Seq::empty()
    } else if p(v.last()) {
        kept_places(v.drop_last(), p).push(v.len() - 1)
    } else {
        kept_places(v.drop_last(), p)
    }
}

proof fn lemma_kept_places<T>(v: Seq<T>, p: spec_fn(T) -> bool)
    ensures
        kept_places(v, p).len() == v.filter(p).len(),
        forall|k: int|
            0 <= k < v.filter(p).len() ==> 0 <= #[trigger] kept_places(v, p)[k] < v.len() && v[kept_places(
                v,
                p,
            )[k]] == v.filter(p)[k],
        forall|k: int, l: int|
            0 <= k < l < v.filter(p).len() ==> #[trigger] kept_places(v, p)[k]
                < #[trigger] kept_places(v, p)[l],
    decreases v.len(),
{
    reveal(Seq::filter);
    if v.len() > 0 {
        lemma_kept_places(v.drop_last(), p);
    }
}

/// Two lists of which filters leave the same have it in common: it is no
/// longer than the walk.
proof fn lemma_shared_is_short(
    theirs: Seq<Seq<char>>,
    ours: Seq<Seq<char>>,
    p: spec_fn(Seq<char>) -> bool,
    q: spec_fn(Seq<char>) -> bool,
)
    requires
        lists::norms_of(theirs.filter(p)) == lists::norms_of(ours.filter(q)),
    ensures
        theirs.filter(p).len() <= shared_walk(theirs, ours).len(),
{
    let x = lists::norms_of(theirs);
    let y = lists::norms_of(ours);
    let a = theirs.filter(p);
    let b = ours.filter(q);
    lemma_kept_places(theirs, p);
    lemma_kept_places(ours, q);
    let i = kept_places(theirs, p);
    let j = kept_places(ours, q);
    assert(lists::norms_of(a).len() == a.len() && lists::norms_of(b).len() == b.len());
    let pairs = Seq::new(a.len(), |k: int| (i[k], j[k]));
    assert forall|k: int| 0 <= k < pairs.len() implies 0 <= (#[trigger] pairs[k]).0 < x.len() && 0
        <= pairs[k].1 < y.len() && x[pairs[k].0] == y[pairs[k].1] by {
        assert(theirs[i[k]] == a[k] && ours[j[k]] == b[k]);
        assert(lists::norms_of(a)[k] == lists::norms_of(b)[k]);
    }
    assert forall|k: int, l: int| 0 <= k < l < pairs.len() implies (#[trigger] pairs[k]).0 < (
    #[trigger] pairs[l]).0 && pairs[k].1 < pairs[l].1 by {
        assert(i[k] < i[l] && j[k] < j[l]);
    }
    lists::common_walk_is_longest(x, y, 0, 0, pairs);
}

/// The anchors and one entry more: a list that holds all of these is longer
/// than the walk.
proof fn lemma_one_more_than_the_walk(
    theirs: Seq<Seq<char>>,
    ours: Seq<Seq<char>>,
    list: Seq<Seq<char>>,
    i: int,
)
    requires
        list_laws::distinct(ours),
        0 <= i < ours.len(),
        !merge::anchored(shared_walk(theirs, ours), i),
        merge::holds(list, lists::norm_of(ours[i])),
        forall|j: int|
            0 <= j < ours.len() && #[trigger] merge::anchored(shared_walk(theirs, ours), j)
                ==> merge::holds(list, lists::norm_of(ours[j])),
    ensures
        list.len() > shared_walk(theirs, ours).len(),
{
    let x = lists::norms_of(theirs);
    let y = lists::norms_of(ours);
    let walk = shared_walk(theirs, ours);
    lists::common_walk_is_common(x, y, 0, 0);
    let n = walk.len();
    let more = Seq::new(
        n + 1,
        |r: int|
            if r < n {
                lists::norm_of(ours[walk[r].1])
            } else {
                lists::norm_of(ours[i])
            },
    );
    assert(more.no_duplicates()) by {
        assert forall|r: int, s: int| 0 <= r < more.len() && 0 <= s < more.len() && r != s implies more[r]
            != more[s] by {
            let a = if r < n { walk[r].1 } else { i };
            let b = if s < n { walk[s].1 } else { i };
            if r < n {
                assert(merge::anchored(walk, a));
            }
            if s < n {
                assert(merge::anchored(walk, b));
            }
            if r < n && s < n {
                if r < s {
                    assert(walk[r].1 < walk[s].1);
                } else {
                    assert(walk[s].1 < walk[r].1);
                }
            }
            assert(a != b);
            if a < b {
                assert(lists::norm_of(ours[a]) != lists::norm_of(ours[b]));
            } else {
                assert(lists::norm_of(ours[b]) != lists::norm_of(ours[a]));
            }
        }
    }
    let names = lists::norms_of(list);
    assert forall|m: Seq<char>| #[trigger] more.to_set().contains(m) implies names.to_set().contains(
        m,
    ) by {
        let r = choose|r: int| 0 <= r < more.len() && more[r] == m;
        if r < n {
            assert(merge::anchored(walk, walk[r].1));
        }
        assert(merge::holds(list, m));
    }
    more.unique_seq_to_set();
    names.lemma_cardinality_of_set();
    vstd::set_lib::lemma_len_subset(more.to_set(), names.to_set());
}

/// Filters on the compared form leave the same of lists with the same compared
/// forms.
proof fn lemma_filter_by_form(a: Seq<Seq<char>>, b: Seq<Seq<char>>, q: spec_fn(Seq<char>) -> bool)
    requires
        lists::norms_of(a) == lists::norms_of(b),
    ensures
        lists::norms_of(a.filter(|e: Seq<char>| q(lists::norm_of(e)))) == lists::norms_of(
            b.filter(|e: Seq<char>| q(lists::norm_of(e))),
        ),
    decreases a.len(),
{
    reveal(Seq::filter);
    let p = |e: Seq<char>| q(lists::norm_of(e));
    assert(lists::norms_of(a).len() == a.len() && lists::norms_of(b).len() == b.len());
    if a.len() == 0 {
        assert(lists::norms_of(a.filter(p)) =~= lists::norms_of(b.filter(p)));
    } else {
        assert(lists::norms_of(a.drop_last()) =~= lists::norms_of(a).drop_last());
        assert(lists::norms_of(b.drop_last()) =~= lists::norms_of(b).drop_last());
        lemma_filter_by_form(a.drop_last(), b.drop_last(), q);
        assert(lists::norms_of(a)[a.len() - 1] == lists::norms_of(b)[b.len() - 1]);
        let c = a.drop_last().filter(p);
        let d = b.drop_last().filter(p);
        assert(lists::norms_of(c.push(a.last())) =~= lists::norms_of(c).push(
            lists::norm_of(a.last()),
        ));
        assert(lists::norms_of(d.push(b.last())) =~= lists::norms_of(d).push(
            lists::norm_of(b.last()),
        ));
    }
}

/// An addition that the merge leaves where it is must be a prepend or unknown
/// to the incoming list.
proof fn lemma_kept_list_is_at_rest(
    theirs: Seq<Seq<char>>,
    ours: Seq<Seq<char>>,
    families: Seq<FamilyModel>,
    i: int,
)
    requires
        list_laws::distinct(theirs),
        list_laws::distinct(ours),
        lists::norms_of(merge::merged(theirs, ours, theirs, families).list) == lists::norms_of(
            ours,
        ),
        0 <= i < ours.len(),
        !merge::anchored(shared_walk(theirs, ours), i),
    ensures
        !merge::superseded(families, merge::surviving(theirs, ours, theirs), ours[i]),
        merge::holds(theirs, lists::norm_of(ours[i])) ==> merge::anchor_before(
            ours,
            shared_walk(theirs, ours),
            i,
        ) is None,
{
    let x = lists::norms_of(theirs);
    let y = lists::norms_of(ours);
    let walk = shared_walk(theirs, ours);
    lists::common_walk_is_common(x, y, 0, 0);
    let len = ours.len() as int;
    let n = lists::norm_of(ours[i]);
    let start = merge::surviving(theirs, ours, theirs);
    let added = merge::local_additions(theirs, ours);
    let kept = merge_laws::kept_additions(theirs, ours, theirs, families);
    let list = merge::merged(theirs, ours, theirs, families).list;
    let h = merge_laws::heads(kept);
    let is_head = |a: Addition| a.after is None;
    let live = |a: Addition| !merge::superseded(families, start, a.entry);
    list_laws::dedup_keeps_distinct_lists(theirs);
    list_laws::dedup_keeps_distinct_lists(ours);
    merge_laws::merged_list_is_the_layout(theirs, ours, theirs, families);
    merge_laws::lemma_merge_can_rebase(theirs, ours, theirs, families);
    list_laws::lemma_holds_entry(ours, i);
    assert(merge::holds(list, n));
    let k = merge_laws::lemma_addition_at(ours, walk, len, i);
    // Where an entry among the kept additions comes from.
    assert forall|m: Seq<char>| #[trigger] merge::holds(h, m) implies exists|j: int|
        0 <= j < len && !#[trigger] merge::anchored(walk, j) && lists::norm_of(ours[j]) == m
            && merge::anchor_before(ours, walk, j) is None && !merge::superseded(
            families,
            start,
            ours[j],
        ) by {
        let c = merge_laws::lemma_entries_held(kept, is_head, m);
        let d = text::lemma_filter_source(added, live, c);
        let j = merge_laws::lemma_addition_source(ours, walk, len, d);
        assert(!merge::anchored(walk, j));
    }
    if merge::holds(theirs, n) {
        if merge::superseded(families, start, ours[i]) || merge::anchor_before(
            ours,
            walk,
            i,
        ) is Some {
            // Not prepended, so it stands in the order of the incoming list,
            // and so do all anchors: together they are too long.
            if merge::holds(h, n) {
                let j = choose|j: int|
                    0 <= j < len && !#[trigger] merge::anchored(walk, j) && lists::norm_of(ours[j])
                        == n && merge::anchor_before(ours, walk, j) is None && !merge::superseded(
                        families,
                        start,
                        ours[j],
                    );
                if j < i {
                    assert(lists::norm_of(ours[j]) != lists::norm_of(ours[i]));
                } else if i < j {
                    assert(lists::norm_of(ours[i]) != lists::norm_of(ours[j]));
                }
            }
            let both = |m: Seq<char>| merge::holds(theirs, m) && !merge::holds(h, m);
            let q = |e: Seq<char>| both(lists::norm_of(e));
            let left = |e: Seq<char>| !merge::removed_here(theirs, ours, lists::norm_of(e));
            let keep = |e: Seq<char>| !merge::holds(h, lists::norm_of(e));
            let p = |e: Seq<char>| left(e) && keep(e);
            merge_laws::lemma_layout_incoming(theirs, start, kept);
            text::lemma_filter_agrees(
                list,
                q,
                |e: Seq<char>|
                    merge::holds(theirs, lists::norm_of(e)) && !merge::holds(h, lists::norm_of(e)),
            );
            assert(list.filter(q) == start.filter(keep));
            merge_laws::lemma_filter_twice(theirs, left, keep);
            assert(theirs.filter(p) == list.filter(q));
            lemma_filter_by_form(list, ours, both);
            lemma_shared_is_short(theirs, ours, p, q);
            let rest = theirs.filter(p);
            assert forall|m: Seq<char>|
                merge::holds(theirs, m) && merge::holds(ours, m) && !merge::holds(h, m) implies #[trigger] merge::holds(
            rest, m) by {
                list_laws::lemma_holds_filter(
                    theirs,
                    p,
                    |z: Seq<char>| !merge::removed_here(theirs, ours, z) && !merge::holds(h, z),
                    m,
                );
            }
            assert(merge::holds(rest, n));
            assert forall|j: int|
                0 <= j < ours.len() && #[trigger] merge::anchored(walk, j) implies merge::holds(
                rest,
                lists::norm_of(ours[j]),
            ) by {
                let m = lists::norm_of(ours[j]);
                let r = choose|r: int| 0 <= r < walk.len() && (#[trigger] walk[r]).1 == j;
                assert(x[walk[r].0] == y[walk[r].1]);
                list_laws::lemma_holds_entry(theirs, walk[r].0);
                list_laws::lemma_holds_entry(ours, j);
                if merge::holds(h, m) {
                    let c = choose|c: int|
                        0 <= c < len && !#[trigger] merge::anchored(walk, c) && lists::norm_of(
                            ours[c],
                        ) == m && merge::anchor_before(ours, walk, c) is None
                            && !merge::superseded(families, start, ours[c]);
                    if c < j {
                        assert(lists::norm_of(ours[c]) != lists::norm_of(ours[j]));
                    } else if j < c {
                        assert(lists::norm_of(ours[j]) != lists::norm_of(ours[c]));
                    }
                }
            }
            lemma_one_more_than_the_walk(theirs, ours, rest, i);
        }
    } else {
        // Only as a kept addition can it be in the merged list.
        merge_laws::merged_list_holds(theirs, ours, theirs, families, n);
        let c = list_laws::lemma_holds_at(merge_laws::entries(kept), n);
        let d = text::lemma_filter_source(added, live, c);
        let j = merge_laws::lemma_addition_source(ours, walk, len, d);
        if j < i {
            assert(lists::norm_of(ours[j]) != lists::norm_of(ours[i]));
        } else if i < j {
            assert(lists::norm_of(ours[i]) != lists::norm_of(ours[j]));
        }
    }
}

/// The anchors of `ours` are spelled as the incoming list spells them.
pub open spec fn anchors_spelled_alike(theirs: Seq<Seq<char>>, ours: Seq<Seq<char>>) -> bool {
    forall|r: int|
        0 <= r < shared_walk(theirs, ours).len() ==> ours[(#[trigger] shared_walk(
            theirs,
            ours,
        )[r]).1] == theirs[shared_walk(theirs, ours)[r].0]
}

/// Applying a generation again keeps the entries of a list, in their compared
/// form, exactly when the list is at rest on it. It keeps the list as it is
/// exactly when the anchors are spelled as the incoming list spells them, too.
pub proof fn reapplying_keeps_lists_at_rest(
    theirs: Seq<Seq<char>>,
    ours: Seq<Seq<char>>,
    families: Seq<FamilyModel>,
)
    requires
        list_laws::distinct(ours),
    ensures
        lists::norms_of(merge::merged(theirs, ours, theirs, families).list) == lists::norms_of(ours)
            <==> at_rest(lists::deduped(theirs), ours, families),
        merge::merged(theirs, ours, theirs, families).list == ours <==> at_rest(
            lists::deduped(theirs),
            ours,
            families,
        ) && anchors_spelled_alike(lists::deduped(theirs), ours),
{
    let t = lists::deduped(theirs);
    list_laws::dedup_leaves_no_repeats(theirs);
    list_laws::dedup_keeps_distinct_lists(t);
    assert(merge::merged(theirs, ours, theirs, families) == merge::merged(t, ours, t, families));
    if at_rest(t, ours, families) {
        let now = lemma_respelled(t, ours);
        lemma_rest_is_kept(t, ours, families, now);
        if anchors_spelled_alike(t, ours) {
            lemma_rest_is_kept(t, ours, families, ours);
        }
        if now == ours {
            assert(anchors_spelled_alike(t, ours));
        }
    }
    if lists::norms_of(merge::merged(t, ours, t, families).list) == lists::norms_of(ours) {
        assert forall|i: int|
            0 <= i < ours.len() && !#[trigger] merge::anchored(shared_walk(t, ours), i) implies !merge::superseded(
        families, merge::surviving(t, ours, t), ours[i]) && (merge::holds(
            t,
            lists::norm_of(ours[i]),
        ) ==> merge::anchor_before(ours, shared_walk(t, ours), i) is None) by {
            lemma_kept_list_is_at_rest(t, ours, families, i);
        }
    }
}

// --- a generation applied twice ------------------------------------------------

/// A pattern whose family supersedes an entry matches it, and matches an entry
/// of the list.
proof fn lemma_superseding_pattern(
    patterns: Seq<Seq<char>>,
    ours: Seq<Seq<char>>,
    theirs: Seq<Seq<char>>,
    list: Seq<Seq<char>>,
    e: Seq<char>,
) -> (at: (int, int))
    requires
        merge::superseded(merge::families_among(patterns, ours, theirs), list, e),
    ensures
        0 <= at.0 < patterns.len(),
        0 <= at.1 < list.len(),
        globs::glob_matches(patterns[at.0], lists::norm_of(e)),
        globs::glob_matches(patterns[at.0], lists::norm_of(list[at.1])),
{
    let families = merge::families_among(patterns, ours, theirs);
    let i = choose|i: int|
        0 <= i < families.len() && merge::represented(#[trigger] families[i], list)
            && families[i].members.contains(lists::norm_of(e));
    let j = choose|j: int|
        0 <= j < list.len() && families[i].members.contains(lists::norm_of(#[trigger] list[j]));
    (i, j)
}

/// A pattern that matches an entry of the live list and one of `list`
/// supersedes the former.
proof fn lemma_pattern_supersedes(
    patterns: Seq<Seq<char>>,
    ours: Seq<Seq<char>>,
    theirs: Seq<Seq<char>>,
    list: Seq<Seq<char>>,
    e: Seq<char>,
    i: int,
    j: int,
)
    requires
        0 <= i < patterns.len(),
        0 <= j < list.len(),
        globs::glob_matches(patterns[i], lists::norm_of(e)),
        globs::glob_matches(patterns[i], lists::norm_of(list[j])),
        merge::holds(ours, lists::norm_of(e)),
        merge::holds(theirs, lists::norm_of(list[j])),
    ensures
        merge::superseded(merge::families_among(patterns, ours, theirs), list, e),
{
    let families = merge::families_among(patterns, ours, theirs);
    let names = lists::norms_of(ours) + lists::norms_of(theirs);
    let a = list_laws::lemma_holds_at(ours, lists::norm_of(e));
    let b = list_laws::lemma_holds_at(theirs, lists::norm_of(list[j]));
    assert(names[a] == lists::norm_of(e));
    assert(names[ours.len() + b] == lists::norm_of(list[j]));
    assert(families[i].members.contains(lists::norm_of(list[j])));
    assert(merge::represented(families[i], list));
}

/// The merge hoists nothing: no local prepend that it keeps occurs in the
/// incoming list.
pub open spec fn hoists_nothing(
    base: Seq<Seq<char>>,
    ours: Seq<Seq<char>>,
    theirs: Seq<Seq<char>>,
    families: Seq<FamilyModel>,
) -> bool {
    let kept = merge_laws::kept_additions(
        lists::deduped(base),
        lists::deduped(ours),
        lists::deduped(theirs),
        families,
    );
    forall|n: Seq<char>| #[trigger]
        merge::holds(merge_laws::heads(kept), n) ==> !merge::holds(theirs, n)
}

/// The incoming part of such a merge is what survives of the incoming list.
proof fn lemma_incoming_part(
    base: Seq<Seq<char>>,
    ours: Seq<Seq<char>>,
    theirs: Seq<Seq<char>>,
    families: Seq<FamilyModel>,
)
    requires
        hoists_nothing(base, ours, theirs, families),
    ensures
        ({
            let b = lists::deduped(base);
            let o = lists::deduped(ours);
            let t = lists::deduped(theirs);
            merge::merged(base, ours, theirs, families).list.filter(
                |e: Seq<char>| merge::holds(t, lists::norm_of(e)),
            ) == merge::surviving(b, o, t)
        }),
{
    let b = lists::deduped(base);
    let o = lists::deduped(ours);
    let t = lists::deduped(theirs);
    let start = merge::surviving(b, o, t);
    let kept = merge_laws::kept_additions(b, o, t, families);
    let once = merge::merged(base, ours, theirs, families).list;
    let h = merge_laws::heads(kept);
    list_laws::dedup_leaves_no_repeats(ours);
    list_laws::dedup_leaves_no_repeats(theirs);
    merge_laws::merged_list_is_the_layout(base, ours, theirs, families);
    merge_laws::lemma_merge_can_rebase(b, o, t, families);
    let known = |e: Seq<char>| merge::holds(t, lists::norm_of(e));
    let keep = |e: Seq<char>| !merge::holds(h, lists::norm_of(e));
    assert forall|n: Seq<char>| #[trigger] merge::holds(t, n) implies !merge::holds(h, n) by {
        list_laws::dedup_keeps_what_is_held(theirs, n);
    }
    merge_laws::lemma_layout_incoming(t, start, kept);
    text::lemma_filter_agrees(
        once,
        known,
        |e: Seq<char>|
            merge::holds(t, lists::norm_of(e)) && !merge::holds(h, lists::norm_of(e)),
    );
    assert forall|i: int| 0 <= i < start.len() implies keep(#[trigger] start[i]) by {
        list_laws::lemma_holds_entry(start, i);
    }
    text::lemma_filter_agrees(start, keep, |e: Seq<char>| true);
    text::lemma_filter_all(start);
}

/// If the incoming part of a list is part of the incoming list, in its order
/// and spelling, then it is the anchors.
proof fn lemma_incoming_part_is_anchored(
    theirs: Seq<Seq<char>>,
    list: Seq<Seq<char>>,
    left: spec_fn(Seq<char>) -> bool,
)
    requires
        list_laws::distinct(theirs),
        list_laws::distinct(list),
        list.filter(|e: Seq<char>| merge::holds(theirs, lists::norm_of(e))) == theirs.filter(left),
    ensures
        forall|i: int|
            0 <= i < list.len() && !#[trigger] merge::anchored(shared_walk(theirs, list), i)
                ==> !merge::holds(theirs, lists::norm_of(list[i])),
        is_respelled(theirs, list, shared_walk(theirs, list), list),
{
    let x = lists::norms_of(theirs);
    let y = lists::norms_of(list);
    let walk = shared_walk(theirs, list);
    let known = |e: Seq<char>| merge::holds(theirs, lists::norm_of(e));
    let part = theirs.filter(left);
    lists::common_walk_is_common(x, y, 0, 0);
    lemma_shared_is_short(theirs, list, left, known);
    assert forall|j: int| 0 <= j < list.len() && known(#[trigger] list[j]) implies part.contains(
        list[j],
    ) && merge::holds(part, lists::norm_of(list[j])) by {
        list.lemma_filter_contains(known, j);
        let c = choose|c: int| 0 <= c < part.len() && part[c] == list[j];
        list_laws::lemma_holds_entry(part, c);
    }
    assert forall|j: int| 0 <= j < list.len() && #[trigger] merge::anchored(walk, j) implies known(
        list[j],
    ) by {
        let r = choose|r: int| 0 <= r < walk.len() && (#[trigger] walk[r]).1 == j;
        assert(x[walk[r].0] == y[walk[r].1]);
        list_laws::lemma_holds_entry(theirs, walk[r].0);
    }
    assert forall|i: int| 0 <= i < list.len() && !#[trigger] merge::anchored(walk, i) implies !known(
        list[i],
    ) by {
        if known(list[i]) {
            assert forall|j: int|
                0 <= j < list.len() && #[trigger] merge::anchored(walk, j) implies merge::holds(
                part,
                lists::norm_of(list[j]),
            ) by {
                assert(known(list[j]));
            }
            lemma_one_more_than_the_walk(theirs, list, part, i);
        }
    }
    assert forall|r: int| 0 <= r < walk.len() implies list[(#[trigger] walk[r]).1]
        == theirs[walk[r].0] by {
        let j = walk[r].1;
        assert(merge::anchored(walk, j));
        assert(known(list[j]));
        let c = choose|c: int| 0 <= c < part.len() && part[c] == list[j];
        let d = text::lemma_filter_source(theirs, left, c);
        assert(x[walk[r].0] == y[walk[r].1]);
        if d < walk[r].0 {
            assert(lists::norm_of(theirs[d]) != lists::norm_of(theirs[walk[r].0]));
        } else if walk[r].0 < d {
            assert(lists::norm_of(theirs[walk[r].0]) != lists::norm_of(theirs[d]));
        }
    }
}

/// What the first merge kept, the second does not supersede.
proof fn lemma_not_superseded_again(
    base: Seq<Seq<char>>,
    ours: Seq<Seq<char>>,
    theirs: Seq<Seq<char>>,
    patterns: Seq<Seq<char>>,
    e: Seq<char>,
)
    requires
        hoists_nothing(base, ours, theirs, merge::families_among(patterns, ours, theirs)),
        merge::holds(
            merge::merged(
                base,
                ours,
                theirs,
                merge::families_among(patterns, ours, theirs),
            ).list,
            lists::norm_of(e),
        ),
        !merge::holds(theirs, lists::norm_of(e)),
    ensures
        ({
            let t = lists::deduped(theirs);
            let once = merge::merged(
                base,
                ours,
                theirs,
                merge::families_among(patterns, ours, theirs),
            ).list;
            !merge::superseded(
                merge::families_among(patterns, once, theirs),
                merge::surviving(t, once, t),
                e,
            )
        }),
{
    let b = lists::deduped(base);
    let o = lists::deduped(ours);
    let t = lists::deduped(theirs);
    let first = merge::families_among(patterns, ours, theirs);
    let start = merge::surviving(b, o, t);
    let added = merge::local_additions(b, o);
    let kept = merge_laws::kept_additions(b, o, t, first);
    let live = |a: Addition| !merge::superseded(first, start, a.entry);
    let once = merge::merged(base, ours, theirs, first).list;
    let start2 = merge::surviving(t, once, t);
    let n = lists::norm_of(e);
    merge_laws::merged_list_holds(base, ours, theirs, first, n);
    let d = merge_laws::lemma_entries_held(added, live, n);
    if merge::superseded(merge::families_among(patterns, once, theirs), start2, e) {
        let (p, q) = lemma_superseding_pattern(patterns, once, theirs, start2, e);
        let m = lists::norm_of(start2[q]);
        let c = text::lemma_filter_source(
            t,
            |z: Seq<char>| !merge::removed_here(t, once, lists::norm_of(z)),
            q,
        );
        list_laws::lemma_holds_entry(t, c);
        merge_laws::merged_list_holds(base, ours, theirs, first, m);
        list_laws::dedup_keeps_what_is_held(theirs, m);
        list_laws::dedup_keeps_what_is_held(base, m);
        list_laws::dedup_keeps_what_is_held(ours, m);
        if merge::holds(merge_laws::entries(kept), m) {
            let k = merge_laws::lemma_entries_held(added, live, m);
            merge_laws::lemma_added_is_ours(b, o, m);
        }
        list_laws::lemma_holds_filter(
            t,
            |z: Seq<char>| !merge::removed_here(b, o, lists::norm_of(z)),
            |z: Seq<char>| !merge::removed_here(b, o, z),
            m,
        );
        let s = list_laws::lemma_holds_at(start, m);
        merge_laws::lemma_added_is_ours(b, o, n);
        list_laws::dedup_keeps_what_is_held(ours, n);
        lemma_pattern_supersedes(patterns, ours, theirs, start, added[d].entry, p, s);
    }
}

/// Applying a generation a second time changes nothing: with the incoming list
/// as its own base, the merged list is merged into itself, entry for entry.
/// That is so of every merge that hoists nothing. A hoisted entry can look
/// like an anchor the second time, so of the others it is so exactly where the
/// merged list is at rest, with its anchors spelled as the incoming list
/// spells them.
pub proof fn reapplying_a_generation_changes_nothing(
    base: Seq<Seq<char>>,
    ours: Seq<Seq<char>>,
    theirs: Seq<Seq<char>>,
    patterns: Seq<Seq<char>>,
)
    ensures
        ({
            let first = merge::families_among(patterns, ours, theirs);
            let once = merge::merged(base, ours, theirs, first).list;
            let second = merge::families_among(patterns, once, theirs);
            let twice = merge::merged(theirs, once, theirs, second).list;
            let t = lists::deduped(theirs);
            &&& hoists_nothing(base, ours, theirs, first) ==> twice == once
            &&& twice == once <==> at_rest(t, once, second) && anchors_spelled_alike(t, once)
        }),
{
    let first = merge::families_among(patterns, ours, theirs);
    let once = merge::merged(base, ours, theirs, first).list;
    merge_laws::merged_list_is_the_layout(base, ours, theirs, first);
    reapplying_keeps_lists_at_rest(theirs, once, merge::families_among(patterns, once, theirs));
    if hoists_nothing(base, ours, theirs, first) {
        lemma_reapplied_without_hoists(base, ours, theirs, patterns);
    }
}

proof fn lemma_reapplied_without_hoists(
    base: Seq<Seq<char>>,
    ours: Seq<Seq<char>>,
    theirs: Seq<Seq<char>>,
    patterns: Seq<Seq<char>>,
)
    requires
        hoists_nothing(base, ours, theirs, merge::families_among(patterns, ours, theirs)),
    ensures
        ({
            let once = merge::merged(
                base,
                ours,
                theirs,
                merge::families_among(patterns, ours, theirs),
            ).list;
            merge::merged(
                theirs,
                once,
                theirs,
                merge::families_among(patterns, once, theirs),
            ).list == once
        }),
{
    let b = lists::deduped(base);
    let o = lists::deduped(ours);
    let t = lists::deduped(theirs);
    let first = merge::families_among(patterns, ours, theirs);
    let once = merge::merged(base, ours, theirs, first).list;
    let second = merge::families_among(patterns, once, theirs);
    let walk = shared_walk(t, once);
    list_laws::dedup_leaves_no_repeats(theirs);
    list_laws::dedup_keeps_distinct_lists(t);
    merge_laws::merged_list_is_the_layout(base, ours, theirs, first);
    list_laws::dedup_keeps_distinct_lists(once);
    lemma_incoming_part(base, ours, theirs, first);
    lemma_incoming_part_is_anchored(
        t,
        once,
        |e: Seq<char>| !merge::removed_here(b, o, lists::norm_of(e)),
    );
    assert forall|i: int|
        0 <= i < once.len() && !#[trigger] merge::anchored(walk, i) implies !merge::superseded(
        second,
        merge::surviving(t, once, t),
        once[i],
    ) by {
        list_laws::lemma_holds_entry(once, i);
        list_laws::dedup_keeps_what_is_held(theirs, lists::norm_of(once[i]));
        lemma_not_superseded_again(base, ours, theirs, patterns, once[i]);
    }
    assert(at_rest(t, once, second));
    lemma_rest_is_kept(t, once, second, once);
    assert(merge::merged(theirs, once, theirs, second) == merge::merged(t, once, t, second));
}

} // verus!
