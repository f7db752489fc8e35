//! What the owner of a search path can rely on, whatever is published: said of
//! the lists that go into a merge and the list that comes out.

use crate::globs;
use crate::list_laws;
use crate::lists;
use crate::merge::{self, Addition};
use crate::merge_laws;
use crate::report_laws;
use crate::text::{self, Cut};
use crate::text_laws;
use vstd::prelude::*;
use vstd::string::*;

verus! {

/// What merging `ours`, which was built on `base`, with `theirs` gives.
pub open spec fn outcome(
    base: Seq<Seq<char>>,
    ours: Seq<Seq<char>>,
    theirs: Seq<Seq<char>>,
    patterns: Seq<Seq<char>>,
) -> Seq<Seq<char>> {
    merge::merged(base, ours, theirs, merge::families_among(patterns, ours, theirs)).list
}

/// The compared form `n` is that of an entry of `v`.
pub open spec fn occurs(v: Seq<Seq<char>>, n: Seq<char>) -> bool {
    exists|i: int| 0 <= i < v.len() && lists::norm_of(#[trigger] v[i]) == n
}

pub proof fn lemma_occurs(v: Seq<Seq<char>>, n: Seq<char>)
    ensures
        occurs(v, n) <==> merge::holds(v, n),
{
    if occurs(v, n) {
        let i = choose|i: int| 0 <= i < v.len() && lists::norm_of(#[trigger] v[i]) == n;
        list_laws::lemma_holds_entry(v, i);
    }
    if merge::holds(v, n) {
        let i = list_laws::lemma_holds_at(v, n);
        assert(lists::norm_of(v[i]) == n);
    }
}

/// An entry that was installed and then removed by hand stays removed, and so
/// does every other spelling of it.
pub proof fn what_was_removed_stays_removed(
    base: Seq<Seq<char>>,
    ours: Seq<Seq<char>>,
    theirs: Seq<Seq<char>>,
    patterns: Seq<Seq<char>>,
    n: Seq<char>,
)
    requires
        occurs(base, n),
        !occurs(ours, n),
    ensures
        !occurs(outcome(base, ours, theirs, patterns), n),
{
    lemma_occurs(base, n);
    lemma_occurs(ours, n);
    lemma_occurs(outcome(base, ours, theirs, patterns), n);
    merge_laws::local_removals_stay_removed(
        base,
        ours,
        theirs,
        merge::families_among(patterns, ours, theirs),
        n,
    );
}

/// Every other incoming entry arrives.
pub proof fn what_comes_in_arrives(
    base: Seq<Seq<char>>,
    ours: Seq<Seq<char>>,
    theirs: Seq<Seq<char>>,
    patterns: Seq<Seq<char>>,
    n: Seq<char>,
)
    requires
        occurs(theirs, n),
        occurs(ours, n) || !occurs(base, n),
    ensures
        occurs(outcome(base, ours, theirs, patterns), n),
{
    lemma_occurs(base, n);
    lemma_occurs(ours, n);
    lemma_occurs(theirs, n);
    lemma_occurs(outcome(base, ours, theirs, patterns), n);
    merge_laws::incoming_entries_arrive(
        base,
        ours,
        theirs,
        merge::families_among(patterns, ours, theirs),
        n,
    );
}

/// What was added by hand stays, unless a family pattern matches it.
pub proof fn what_was_added_stays(
    base: Seq<Seq<char>>,
    ours: Seq<Seq<char>>,
    theirs: Seq<Seq<char>>,
    patterns: Seq<Seq<char>>,
    n: Seq<char>,
)
    requires
        occurs(ours, n),
        !occurs(base, n),
        forall|i: int| 0 <= i < patterns.len() ==> !globs::glob_matches(#[trigger] patterns[i], n),
    ensures
        occurs(outcome(base, ours, theirs, patterns), n),
{
    lemma_occurs(base, n);
    lemma_occurs(ours, n);
    lemma_occurs(outcome(base, ours, theirs, patterns), n);
    let families = merge::families_among(patterns, ours, theirs);
    let at = list_laws::lemma_holds_at(ours, n);
    let e = ours[at];
    let start = merge::surviving(lists::deduped(base), lists::deduped(ours), lists::deduped(theirs));
    if merge::superseded(families, start, e) {
        let i = choose|i: int|
            0 <= i < families.len() && merge::represented(#[trigger] families[i], start)
                && families[i].members.contains(lists::norm_of(e));
        assert(globs::glob_matches(patterns[i], n));
    }
    merge_laws::local_additions_stay(base, ours, theirs, families, e);
}

/// What was added by hand gives way to an incoming entry of the same family.
pub proof fn families_are_superseded(
    base: Seq<Seq<char>>,
    ours: Seq<Seq<char>>,
    theirs: Seq<Seq<char>>,
    patterns: Seq<Seq<char>>,
    n: Seq<char>,
    m: Seq<char>,
    p: int,
)
    requires
        occurs(ours, n),
        !occurs(theirs, n),
        occurs(theirs, m),
        occurs(ours, m) || !occurs(base, m),
        0 <= p < patterns.len(),
        globs::glob_matches(patterns[p], n),
        globs::glob_matches(patterns[p], m),
    ensures
        !occurs(outcome(base, ours, theirs, patterns), n),
{
    lemma_occurs(base, m);
    lemma_occurs(ours, m);
    lemma_occurs(theirs, m);
    lemma_occurs(ours, n);
    lemma_occurs(theirs, n);
    lemma_occurs(outcome(base, ours, theirs, patterns), n);
    let b = lists::deduped(base);
    let o = lists::deduped(ours);
    let t = lists::deduped(theirs);
    let families = merge::families_among(patterns, ours, theirs);
    let start = merge::surviving(b, o, t);
    let added = merge::local_additions(b, o);
    let live = |a: Addition| !merge::superseded(families, start, a.entry);
    merge_laws::merged_list_holds(base, ours, theirs, families, n);
    if merge::holds(merge_laws::entries(merge_laws::kept_additions(b, o, t, families)), n) {
        let k = merge_laws::lemma_entries_held(added, live, n);
        list_laws::dedup_keeps_what_is_held(theirs, m);
        list_laws::dedup_keeps_what_is_held(base, m);
        list_laws::dedup_keeps_what_is_held(ours, m);
        list_laws::lemma_holds_filter(
            t,
            |z: Seq<char>| !merge::removed_here(b, o, lists::norm_of(z)),
            |z: Seq<char>| !merge::removed_here(b, o, z),
            m,
        );
        let s = list_laws::lemma_holds_at(start, m);
        let names = lists::norms_of(ours) + lists::norms_of(theirs);
        let x = list_laws::lemma_holds_at(ours, n);
        let y = list_laws::lemma_holds_at(theirs, m);
        assert(names[x] == n);
        assert(names[ours.len() + y] == m);
        assert(families[p].members.contains(n));
        assert(families[p].members.contains(lists::norm_of(start[s])));
        assert(merge::represented(families[p], start));
        assert(merge::superseded(families, start, added[k].entry));
    }
}

/// Nothing comes from nowhere: what a merged list holds was live or incoming.
pub proof fn nothing_comes_from_nowhere(
    base: Seq<Seq<char>>,
    ours: Seq<Seq<char>>,
    theirs: Seq<Seq<char>>,
    patterns: Seq<Seq<char>>,
    n: Seq<char>,
)
    requires
        occurs(outcome(base, ours, theirs, patterns), n),
    ensures
        occurs(ours, n) || occurs(theirs, n),
{
    lemma_occurs(ours, n);
    lemma_occurs(theirs, n);
    lemma_occurs(outcome(base, ours, theirs, patterns), n);
    let b = lists::deduped(base);
    let o = lists::deduped(ours);
    let t = lists::deduped(theirs);
    let families = merge::families_among(patterns, ours, theirs);
    let added = merge::local_additions(b, o);
    merge_laws::merged_list_holds(base, ours, theirs, families, n);
    if merge::holds(merge_laws::entries(merge_laws::kept_additions(b, o, t, families)), n) {
        let k = merge_laws::lemma_entries_held(
            added,
            |a: Addition| !merge::superseded(families, merge::surviving(b, o, t), a.entry),
            n,
        );
        merge_laws::lemma_added_is_ours(b, o, n);
        list_laws::dedup_keeps_what_is_held(ours, n);
    }
}

/// No entry of a merged list stands in it twice, under whatever spelling.
pub proof fn nothing_is_listed_twice(
    base: Seq<Seq<char>>,
    ours: Seq<Seq<char>>,
    theirs: Seq<Seq<char>>,
    patterns: Seq<Seq<char>>,
    i: int,
    j: int,
)
    requires
        0 <= i < j < outcome(base, ours, theirs, patterns).len(),
    ensures
        lists::norm_of(outcome(base, ours, theirs, patterns)[i]) != lists::norm_of(
            outcome(base, ours, theirs, patterns)[j],
        ),
{
    merge_laws::merged_list_is_the_layout(
        base,
        ours,
        theirs,
        merge::families_among(patterns, ours, theirs),
    );
}

// --- prepends -----------------------------------------------------------------

proof fn lemma_walk_behind(b: Seq<Seq<char>>, o: Seq<Seq<char>>, k: int)
    requires
        list_laws::distinct(o),
        0 <= k <= o.len(),
        o.len() == k + b.len(),
        lists::norms_of(o).skip(k) == lists::norms_of(b),
    ensures
        ({
            let walk = lists::common_walk(lists::norms_of(b), lists::norms_of(o), 0, 0);
            forall|j: int| 0 <= j < o.len() ==> (#[trigger] merge::anchored(walk, j) <==> j >= k)
        }),
{
    let x = lists::norms_of(b);
    let y = lists::norms_of(o);
    let walk = lists::common_walk(x, y, 0, 0);
    let other = Seq::new(b.len(), |i: int| (i, k + i));
    assert forall|i: int| 0 <= i < x.len() implies x[i] == #[trigger] y[k + i] by {
        assert(y.skip(k)[i] == y[k + i]);
    }
    assert(lists::is_common(x, y, 0, 0, other)) by {
        assert forall|i: int| 0 <= i < other.len() implies 0 <= (#[trigger] other[i]).0 < x.len()
            && 0 <= other[i].1 < y.len() && x[other[i].0] == y[other[i].1] by {
            assert(x[i] == y[k + i]);
        }
    }
    lists::common_walk_is_common(x, y, 0, 0);
    lists::common_walk_is_longest(x, y, 0, 0, other);
    assert forall|i: int| 0 <= i < walk.len() implies i <= (#[trigger] walk[i]).0 by {
        lemma_climbs(walk, x, y, i);
    }
    if walk.len() > x.len() {
        assert(walk[x.len() as int].0 >= x.len());
    }
    assert forall|i: int| 0 <= i < walk.len() implies #[trigger] walk[i] == (i, k + i) by {
        lemma_climbs_evenly(walk, x, y, i);
        assert(x[i] == y[walk[i].1]);
        assert(x[i] == y[k + i]);
        let j = walk[i].1;
        if j < k + i {
            assert(lists::norm_of(o[j]) != lists::norm_of(o[k + i]));
        } else if j > k + i {
            assert(lists::norm_of(o[k + i]) != lists::norm_of(o[j]));
        }
    }
    assert forall|j: int| 0 <= j < o.len() implies (#[trigger] merge::anchored(walk, j) <==> j
        >= k) by {
        if j >= k {
            assert(walk[j - k].1 == j);
        }
        if merge::anchored(walk, j) {
            let q = choose|q: int| 0 <= q < walk.len() && (#[trigger] walk[q]).1 == j;
            assert(walk[q] == (q, k + q));
        }
    }
}

proof fn lemma_climbs(walk: Seq<(int, int)>, x: Seq<Seq<char>>, y: Seq<Seq<char>>, i: int)
    requires
        lists::is_common(x, y, 0, 0, walk),
        0 <= i < walk.len(),
    ensures
        i <= walk[i].0,
    decreases i,
{
    if i > 0 {
        lemma_climbs(walk, x, y, i - 1);
        assert(walk[i - 1].0 < walk[i].0);
    }
}

proof fn lemma_climbs_evenly(walk: Seq<(int, int)>, x: Seq<Seq<char>>, y: Seq<Seq<char>>, i: int)
    requires
        lists::is_common(x, y, 0, 0, walk),
        0 <= i < walk.len(),
        walk.len() == x.len(),
    ensures
        walk[i].0 == i,
    decreases walk.len() - i,
{
    lemma_climbs(walk, x, y, i);
    if i < walk.len() - 1 {
        lemma_climbs_evenly(walk, x, y, i + 1);
        assert(walk[i].0 < walk[i + 1].0);
    } else {
        assert(walk[i].0 < x.len());
    }
}

proof fn lemma_prepended(o: Seq<Seq<char>>, walk: Seq<(int, int)>, k: int, n: int)
    requires
        0 <= k <= o.len(),
        0 <= n <= o.len(),
        forall|j: int| 0 <= j < o.len() ==> (#[trigger] merge::anchored(walk, j) <==> j >= k),
    ensures
        n <= k ==> merge::anchor_before(o, walk, n) is None,
        ({
            let m = if n <= k {
                n
            } else {
                k
            };
            merge::additions(o, walk, n) == Seq::new(
                m as nat,
                |i: int| Addition { entry: o[i], after: None },
            )
        }),
    decreases n,
{
    let of = |m: int| Seq::new(m as nat, |i: int| Addition { entry: o[i], after: None });
    if n > 0 {
        lemma_prepended(o, walk, k, n - 1);
        if n <= k {
            assert(!merge::anchored(walk, n - 1));
            assert(of(n - 1).push(Addition { entry: o[n - 1], after: None }) =~= of(n));
        } else {
            assert(merge::anchored(walk, n - 1));
        }
    } else {
        assert(merge::additions(o, walk, 0) =~= of(0));
    }
}

proof fn lemma_laid_out_plain(t: Seq<Seq<char>>, list: Seq<Seq<char>>, added: Seq<Addition>)
    requires
        forall|k: int| 0 <= k < added.len() ==> (#[trigger] added[k]).after is None,
    ensures
        merge_laws::laid_out(t, list, added) == list,
    decreases list.len(),
{
    if list.len() > 0 {
        lemma_laid_out_plain(t, list.drop_last(), added);
        let n = lists::norm_of(list.last());
        lemma_none_with_anchor(
            added,
            |a: Addition| a.after == Some(n) && !merge::holds(t, lists::norm_of(a.entry)),
        );
        assert(merge_laws::followers(t, added, n) =~= Seq::<Seq<char>>::empty());
        assert(list.drop_last().push(list.last()) =~= list);
        assert(merge_laws::laid_out(t, list, added) =~= list);
    } else {
        assert(merge_laws::laid_out(t, list, added) =~= list);
    }
}

proof fn lemma_none_with_anchor(added: Seq<Addition>, p: spec_fn(Addition) -> bool)
    requires
        forall|k: int| 0 <= k < added.len() ==> (#[trigger] added[k]).after is None,
        forall|a: Addition| #[trigger] p(a) ==> a.after is Some,
    ensures
        added.filter(p).len() == 0,
{
    if added.filter(p).len() > 0 {
        let j = text::lemma_filter_source(added, p, 0);
        assert(p(added[j]));
    }
}

proof fn lemma_nothing_removed(b: Seq<Seq<char>>, o: Seq<Seq<char>>, t: Seq<Seq<char>>, k: int)
    requires
        0 <= k <= o.len(),
        lists::norms_of(o).skip(k) == lists::norms_of(b),
    ensures
        merge::surviving(b, o, t) == t,
{
    assert forall|n: Seq<char>| !#[trigger] merge::removed_here(b, o, n) by {
        if merge::holds(b, n) {
            let i = list_laws::lemma_holds_at(b, n);
            assert(lists::norms_of(o).skip(k)[i] == lists::norms_of(o)[k + i]);
            assert(lists::norms_of(b)[i] == n);
            list_laws::lemma_holds_entry(o, k + i);
        }
    }
    text::lemma_filter_agrees(
        t,
        |e: Seq<char>| !merge::removed_here(b, o, lists::norm_of(e)),
        |e: Seq<char>| true,
    );
    text::lemma_filter_all(t);
}

proof fn lemma_nothing_superseded(
    patterns: Seq<Seq<char>>,
    ours: Seq<Seq<char>>,
    theirs: Seq<Seq<char>>,
    start: Seq<Seq<char>>,
    added: Seq<Addition>,
)
    requires
        forall|i: int, p: int|
            0 <= i < added.len() && 0 <= p < patterns.len() ==> !globs::glob_matches(
                #[trigger] patterns[p],
                lists::norm_of((#[trigger] added[i]).entry),
            ),
    ensures
        ({
            let families = merge::families_among(patterns, ours, theirs);
            added.filter(|a: Addition| !merge::superseded(families, start, a.entry)) == added
        }),
{
    let families = merge::families_among(patterns, ours, theirs);
    let live = |a: Addition| !merge::superseded(families, start, a.entry);
    assert forall|i: int| 0 <= i < added.len() implies live(#[trigger] added[i]) by {
        if merge::superseded(families, start, added[i].entry) {
            let p = choose|p: int|
                0 <= p < families.len() && merge::represented(#[trigger] families[p], start)
                    && families[p].members.contains(lists::norm_of(added[i].entry));
            assert(globs::glob_matches(patterns[p], lists::norm_of(added[i].entry)));
        }
    }
    text::lemma_filter_agrees(added, live, |a: Addition| true);
    text::lemma_filter_all(added);
}

proof fn lemma_prepend_layout(t: Seq<Seq<char>>, added: Seq<Addition>)
    requires
        forall|k: int| 0 <= k < added.len() ==> (#[trigger] added[k]).after is None,
    ensures
        ({
            let x = merge_laws::entries(added);
            merge_laws::layout(t, t, added) == x + t.filter(
                |e: Seq<char>| !occurs(x, lists::norm_of(e)),
            )
        }),
{
    let x = merge_laws::entries(added);
    text::lemma_filter_agrees(added, |a: Addition| a.after is None, |a: Addition| true);
    text::lemma_filter_all(added);
    assert(merge_laws::heads(added) =~= x);
    lemma_none_with_anchor(
        added,
        |a: Addition|
            a.after is Some && !merge::holds(t, lists::norm_of(a.entry)) && !merge::holds(
                t,
                a.after->0,
            ),
    );
    assert(merge_laws::strays(t, t, added) =~= Seq::<Seq<char>>::empty());
    lemma_laid_out_plain(t, t, added);
    assert(merge_laws::body(t, t, added) =~= t);
    let p = |e: Seq<char>| !merge::holds(x, lists::norm_of(e));
    let q = |e: Seq<char>| !occurs(x, lists::norm_of(e));
    assert forall|i: int| 0 <= i < t.len() implies p(#[trigger] t[i]) == q(t[i]) by {
        lemma_occurs(x, lists::norm_of(t[i]));
    }
    text::lemma_filter_agrees(t, p, q);
}

/// A local prepend stays a prepend: where all that was done by hand is to put
/// entries in front, and no family pattern matches these, the merged list is
/// just these entries, in their order, and then the incoming list without
/// them. What was dropped upstream is gone.
pub proof fn prepends_stay_in_front(
    base: Seq<Seq<char>>,
    ours: Seq<Seq<char>>,
    theirs: Seq<Seq<char>>,
    patterns: Seq<Seq<char>>,
    k: int,
)
    requires
        0 <= k <= lists::deduped(ours).len(),
        lists::norms_of(lists::deduped(ours)).skip(k) == lists::norms_of(lists::deduped(base)),
        forall|i: int, p: int|
            0 <= i < k && 0 <= p < patterns.len() ==> !globs::glob_matches(
                #[trigger] patterns[p],
                lists::norm_of(#[trigger] lists::deduped(ours)[i]),
            ),
    ensures
        ({
            let x = lists::deduped(ours).take(k);
            outcome(base, ours, theirs, patterns) == x + lists::deduped(theirs).filter(
                |e: Seq<char>| !occurs(x, lists::norm_of(e)),
            )
        }),
{
    let b = lists::deduped(base);
    let o = lists::deduped(ours);
    let t = lists::deduped(theirs);
    let families = merge::families_among(patterns, ours, theirs);
    let added = merge::local_additions(b, o);
    list_laws::dedup_leaves_no_repeats(ours);
    assert(lists::norms_of(o).skip(k).len() == o.len() - k);
    assert(added == Seq::new(k as nat, |i: int| Addition { entry: o[i], after: None })) by {
        lemma_walk_behind(b, o, k);
        lemma_prepended(
            o,
            lists::common_walk(lists::norms_of(b), lists::norms_of(o), 0, 0),
            k,
            o.len() as int,
        );
    }
    lemma_nothing_removed(b, o, t, k);
    lemma_nothing_superseded(patterns, ours, theirs, t, added);
    merge_laws::merged_list_is_the_layout(base, ours, theirs, families);
    lemma_prepend_layout(t, added);
    assert(merge_laws::entries(added) =~= o.take(k));
}

// --- edits anywhere -----------------------------------------------------------

/// The entries of `b` stand in `o`, in their order: `at` says where.
pub open spec fn stands_in(b: Seq<Seq<char>>, o: Seq<Seq<char>>, at: Seq<int>) -> bool {
    &&& at.len() == b.len()
    &&& forall|i: int| 0 <= i < at.len() ==> 0 <= #[trigger] at[i] < o.len() && o[at[i]] == b[i]
    &&& forall|i: int, j: int| 0 <= i < j < at.len() ==> #[trigger] at[i] < #[trigger] at[j]
}

/// The walk goes through the places `at`, and through no other.
spec fn follows(walk: Seq<(int, int)>, at: Seq<int>) -> bool {
    walk.len() == at.len() && forall|i: int|
        0 <= i < walk.len() ==> #[trigger] walk[i] == (i, at[i])
}

proof fn lemma_walk_follows(b: Seq<Seq<char>>, o: Seq<Seq<char>>, at: Seq<int>)
    requires
        list_laws::distinct(o),
        stands_in(b, o, at),
    ensures
        follows(lists::common_walk(lists::norms_of(b), lists::norms_of(o), 0, 0), at),
{
    let x = lists::norms_of(b);
    let y = lists::norms_of(o);
    let walk = lists::common_walk(x, y, 0, 0);
    let other = Seq::new(b.len(), |i: int| (i, at[i]));
    assert(lists::is_common(x, y, 0, 0, other)) by {
        assert forall|i: int| 0 <= i < other.len() implies 0 <= (#[trigger] other[i]).0 < x.len()
            && 0 <= other[i].1 < y.len() && x[other[i].0] == y[other[i].1] by {
            assert(o[at[i]] == b[i]);
        }
        assert forall|k: int, l: int| 0 <= k < l < other.len() implies (#[trigger] other[k]).0 < (
        #[trigger] other[l]).0 && other[k].1 < other[l].1 by {
            assert(at[k] < at[l]);
        }
    }
    lists::common_walk_is_common(x, y, 0, 0);
    lists::common_walk_is_longest(x, y, 0, 0, other);
    if walk.len() > x.len() {
        lemma_climbs(walk, x, y, x.len() as int);
    }
    assert forall|i: int| 0 <= i < walk.len() implies #[trigger] walk[i] == (i, at[i]) by {
        lemma_climbs_evenly(walk, x, y, i);
        assert(x[i] == y[walk[i].1]);
        assert(o[at[i]] == b[i]);
        let j = walk[i].1;
        if j < at[i] {
            assert(lists::norm_of(o[j]) != lists::norm_of(o[at[i]]));
        } else if j > at[i] {
            assert(lists::norm_of(o[at[i]]) != lists::norm_of(o[j]));
        }
    }
}

/// The first `m` places of `at` are those before `n`.
spec fn splits(at: Seq<int>, n: int, m: int) -> bool {
    &&& 0 <= m <= at.len()
    &&& forall|i: int| 0 <= i < m ==> #[trigger] at[i] < n
    &&& forall|i: int| m <= i < at.len() ==> #[trigger] at[i] >= n
}

/// Every addition is prepended or stands behind one of the first `m` entries of
/// `b`, and `b` does not have it.
spec fn placed(b: Seq<Seq<char>>, added: Seq<Addition>, m: int) -> bool {
    forall|k: int|
        0 <= k < added.len() ==> {
            &&& !merge::holds(b, lists::norm_of((#[trigger] added[k]).entry))
            &&& added[k].after is Some ==> behind(b, added[k].after->0, m)
        }
}

spec fn behind(b: Seq<Seq<char>>, n: Seq<char>, m: int) -> bool {
    exists|i: int| 0 <= i < m && i < b.len() && lists::norm_of(#[trigger] b[i]) == n
}

/// An entry that `b` lacks in the walked list.
proof fn lemma_not_held(b: Seq<Seq<char>>, o: Seq<Seq<char>>, at: Seq<int>, j: int)
    requires
        list_laws::distinct(o),
        stands_in(b, o, at),
        0 <= j < o.len(),
        forall|i: int| 0 <= i < at.len() ==> #[trigger] at[i] != j,
    ensures
        !merge::holds(b, lists::norm_of(o[j])),
{
    if merge::holds(b, lists::norm_of(o[j])) {
        let i = list_laws::lemma_holds_at(b, lists::norm_of(o[j]));
        assert(o[at[i]] == b[i]);
        if at[i] < j {
            assert(lists::norm_of(o[at[i]]) != lists::norm_of(o[j]));
        } else {
            assert(lists::norm_of(o[j]) != lists::norm_of(o[at[i]]));
        }
    }
}

/// No addition of the first `m` stands behind a later entry.
proof fn lemma_no_followers(b: Seq<Seq<char>>, added: Seq<Addition>, m: int, i: int)
    requires
        list_laws::distinct(b),
        placed(b, added, m),
        0 <= m <= i < b.len(),
    ensures
        merge_laws::followers(b, added, lists::norm_of(b[i])) == Seq::<Seq<char>>::empty(),
{
    let n = lists::norm_of(b[i]);
    let p = |a: Addition| a.after == Some(n) && !merge::holds(b, lists::norm_of(a.entry));
    if added.filter(p).len() > 0 {
        let k = text::lemma_filter_source(added, p, 0);
        let q = choose|q: int|
            0 <= q < m && q < b.len() && lists::norm_of(#[trigger] b[q]) == added[k].after->0;
        assert(lists::norm_of(b[q]) != lists::norm_of(b[i]));
    }
    assert(merge_laws::followers(b, added, n) =~= Seq::<Seq<char>>::empty());
}

/// An addition behind another entry does not change what stands behind `n`.
proof fn lemma_followers_push(b: Seq<Seq<char>>, added: Seq<Addition>, a: Addition, n: Seq<char>)
    requires
        !merge::holds(b, lists::norm_of(a.entry)),
    ensures
        a.after != Some(n) ==> merge_laws::followers(b, added.push(a), n) == merge_laws::followers(
            b,
            added,
            n,
        ),
        a.after == Some(n) ==> merge_laws::followers(b, added.push(a), n) == merge_laws::followers(
            b,
            added,
            n,
        ).push(a.entry),
        a.after is None ==> merge_laws::heads(added.push(a)) == merge_laws::heads(added).push(
            a.entry,
        ),
        a.after is Some ==> merge_laws::heads(added.push(a)) == merge_laws::heads(added),
{
    reveal(Seq::filter);
    assert(added.push(a).drop_last() =~= added);
    if a.after == Some(n) {
        assert(merge_laws::followers(b, added.push(a), n) =~= merge_laws::followers(
            b,
            added,
            n,
        ).push(a.entry));
    }
    if a.after is None {
        assert(merge_laws::heads(added.push(a)) =~= merge_laws::heads(added).push(a.entry));
    }
}

/// An addition that stands behind none of the entries of `list` does not change
/// their layout.
proof fn lemma_laid_out_push(
    b: Seq<Seq<char>>,
    list: Seq<Seq<char>>,
    added: Seq<Addition>,
    a: Addition,
)
    requires
        !merge::holds(b, lists::norm_of(a.entry)),
        forall|i: int|
            0 <= i < list.len() ==> a.after != Some(lists::norm_of(#[trigger] list[i])),
    ensures
        merge_laws::laid_out(b, list, added.push(a)) == merge_laws::laid_out(b, list, added),
    decreases list.len(),
{
    if list.len() > 0 {
        let front = list.drop_last();
        assert forall|i: int| 0 <= i < front.len() implies a.after != Some(
            lists::norm_of(#[trigger] front[i]),
        ) by {
            assert(front[i] == list[i]);
        }
        lemma_laid_out_push(b, front, added, a);
        assert(a.after != Some(lists::norm_of(list[list.len() - 1])));
        lemma_followers_push(b, added, a, lists::norm_of(list.last()));
    }
}

#[verifier::spinoff_prover]
proof fn lemma_layout_of_prefix(
    b: Seq<Seq<char>>,
    o: Seq<Seq<char>>,
    walk: Seq<(int, int)>,
    at: Seq<int>,
    n: int,
    m: int,
)
    requires
        list_laws::distinct(o),
        list_laws::distinct(b),
        stands_in(b, o, at),
        follows(walk, at),
        0 <= n <= o.len(),
        splits(at, n, m),
    ensures
        placed(b, merge::additions(o, walk, n), m),
        merge::anchor_before(o, walk, n) == if m == 0 {
            None
        } else {
            Some(lists::norm_of(b[m - 1]))
        },
        ({
            let added = merge::additions(o, walk, n);
            merge_laws::heads(added) + merge_laws::laid_out(b, b.take(m), added) == o.take(n)
        }),
    decreases n,
{
    let added = merge::additions(o, walk, n);
    if n == 0 {
        if m > 0 {
            assert(at[0] < 0);
        }
        assert(b.take(0).len() == 0);
        assert(merge_laws::heads(added) =~= Seq::<Seq<char>>::empty());
        assert(o.take(0) =~= Seq::<Seq<char>>::empty());
    } else {
        let here = m > 0 && at[m - 1] == n - 1;
        let before = if here {
            m - 1
        } else {
            m
        };
        assert(splits(at, n - 1, before)) by {
            assert forall|i: int| 0 <= i < before implies #[trigger] at[i] < n - 1 by {
                if here {
                    assert(at[i] < at[m - 1]);
                } else if i < m - 1 {
                    assert(at[i] < at[m - 1]);
                }
            }
        }
        let prev = merge::additions(o, walk, n - 1);
        lemma_layout_of_prefix(b, o, walk, at, n - 1, before);
        assert(o.take(n) =~= o.take(n - 1).push(o[n - 1]));
        if here {
            assert(walk[m - 1] == (m - 1, at[m - 1]));
            assert(merge::anchored(walk, n - 1));
            assert(o[at[m - 1]] == b[m - 1]);
            assert(b.take(m).drop_last() =~= b.take(m - 1));
            assert(b.take(m).last() == b[m - 1]);
            lemma_no_followers(b, prev, m - 1, m - 1);
            lemma_placed_more(b, prev, m - 1);
            let l = merge_laws::laid_out(b, b.take(m - 1), prev);
            assert(merge_laws::laid_out(b, b.take(m), prev) =~= l.push(b[m - 1]));
            assert(merge_laws::heads(prev) + l.push(b[m - 1]) =~= (merge_laws::heads(prev)
                + l).push(b[m - 1]));
        } else {
            assert forall|i: int| 0 <= i < at.len() implies #[trigger] at[i] != n - 1 by {
                if i >= m {
                    assert(at[i] >= n);
                } else if i < m - 1 {
                    assert(at[i] < at[m - 1]);
                }
            }
            assert(!merge::anchored(walk, n - 1)) by {
                if merge::anchored(walk, n - 1) {
                    let q = choose|q: int|
                        0 <= q < walk.len() && (#[trigger] walk[q]).1 == n - 1;
                    assert(walk[q] == (q, at[q]));
                }
            }
            lemma_not_held(b, o, at, n - 1);
            lemma_layout_grows(b, o, prev, m, n);
        }
    }
}

proof fn lemma_placed_more(b: Seq<Seq<char>>, added: Seq<Addition>, m: int)
    requires
        placed(b, added, m),
    ensures
        placed(b, added, m + 1),
{
    assert forall|k: int| 0 <= k < added.len() && (#[trigger] added[k]).after is Some implies behind(
        b,
        added[k].after->0,
        m + 1,
    ) by {
        let i = choose|i: int|
            0 <= i < m && i < b.len() && lists::norm_of(#[trigger] b[i]) == added[k].after->0;
        assert(lists::norm_of(b[i]) == added[k].after->0);
    }
}

/// One more addition, behind the last of the first `m` entries.
proof fn lemma_layout_grows(
    b: Seq<Seq<char>>,
    o: Seq<Seq<char>>,
    prev: Seq<Addition>,
    m: int,
    n: int,
)
    requires
        list_laws::distinct(b),
        0 < n <= o.len(),
        0 <= m <= b.len(),
        placed(b, prev, m),
        !merge::holds(b, lists::norm_of(o[n - 1])),
        merge_laws::heads(prev) + merge_laws::laid_out(b, b.take(m), prev) == o.take(n - 1),
    ensures
        ({
            let after = if m == 0 {
                None
            } else {
                Some(lists::norm_of(b[m - 1]))
            };
            let added = prev.push(Addition { entry: o[n - 1], after });
            &&& placed(b, added, m)
            &&& merge_laws::heads(added) + merge_laws::laid_out(b, b.take(m), added) == o.take(n)
        }),
{
    let after = if m == 0 {
        None
    } else {
        Some(lists::norm_of(b[m - 1]))
    };
    let a = Addition { entry: o[n - 1], after };
    let added = prev.push(a);
    let e = o[n - 1];
    assert(o.take(n) =~= o.take(n - 1).push(e));
    assert(placed(b, added, m)) by {
        assert forall|k: int| 0 <= k < added.len() implies !merge::holds(
            b,
            lists::norm_of((#[trigger] added[k]).entry),
        ) && (added[k].after is Some ==> behind(b, added[k].after->0, m)) by {
            if k < prev.len() {
                assert(added[k] == prev[k]);
            } else {
                assert(added[k] == a);
                if m > 0 {
                    assert(lists::norm_of(b[m - 1]) == a.after->0);
                }
            }
        }
    }
    let h = merge_laws::heads(prev);
    let l = merge_laws::laid_out(b, b.take(m), prev);
    if m == 0 {
        lemma_followers_push(b, prev, a, e);
        assert(merge_laws::laid_out(b, b.take(0), added) =~= Seq::<Seq<char>>::empty());
        assert(l =~= Seq::<Seq<char>>::empty());
        assert(h.push(e) + Seq::<Seq<char>>::empty() =~= (h + l).push(e));
    } else {
        let front = b.take(m - 1);
        let x = lists::norm_of(b[m - 1]);
        assert(b.take(m).drop_last() =~= front);
        assert(b.take(m).last() == b[m - 1]);
        assert forall|i: int| 0 <= i < front.len() implies a.after != Some(
            lists::norm_of(#[trigger] front[i]),
        ) by {
            assert(front[i] == b[i]);
            assert(lists::norm_of(b[i]) != lists::norm_of(b[m - 1]));
        }
        lemma_laid_out_push(b, front, prev, a);
        lemma_followers_push(b, prev, a, x);
        let grown = merge_laws::laid_out(b, b.take(m), added);
        assert(grown =~= l.push(e));
        assert(h + l.push(e) =~= (h + l).push(e));
    }
}

/// Edits by hand stay as they are: as long as nothing new is published, and no
/// family pattern matches what was added, a list that still has all that was
/// published, in its order, is not changed, wherever the additions stand.
pub proof fn edits_stay_where_they_are(
    base: Seq<Seq<char>>,
    ours: Seq<Seq<char>>,
    patterns: Seq<Seq<char>>,
    at: Seq<int>,
)
    requires
        stands_in(lists::deduped(base), lists::deduped(ours), at),
        forall|i: int, p: int|
            0 <= i < lists::deduped(ours).len() && 0 <= p < patterns.len() && !merge::holds(
                lists::deduped(base),
                lists::norm_of(lists::deduped(ours)[i]),
            ) ==> !globs::glob_matches(
                #[trigger] patterns[p],
                lists::norm_of(#[trigger] lists::deduped(ours)[i]),
            ),
    ensures
        outcome(base, ours, base, patterns) == lists::deduped(ours),
{
    let b = lists::deduped(base);
    let o = lists::deduped(ours);
    let walk = lists::common_walk(lists::norms_of(b), lists::norms_of(o), 0, 0);
    let added = merge::local_additions(b, o);
    let n = o.len() as int;
    let m = b.len() as int;
    list_laws::dedup_leaves_no_repeats(ours);
    list_laws::dedup_leaves_no_repeats(base);
    lemma_walk_follows(b, o, at);
    lemma_layout_of_prefix(b, o, walk, at, n, m);
    lemma_all_survives(b, o, at);
    assert forall|i: int, p: int|
        0 <= i < added.len() && 0 <= p < patterns.len() implies !globs::glob_matches(
        #[trigger] patterns[p],
        lists::norm_of((#[trigger] added[i]).entry),
    ) by {
        let j = merge_laws::lemma_addition_source(o, walk, n, i);
        assert(added[i].entry == o[j]);
    }
    lemma_nothing_superseded(patterns, ours, base, b, added);
    merge_laws::merged_list_is_the_layout(
        base,
        ours,
        base,
        merge::families_among(patterns, ours, base),
    );
    lemma_layout_is_whole(b, o, added);
}

proof fn lemma_all_survives(b: Seq<Seq<char>>, o: Seq<Seq<char>>, at: Seq<int>)
    requires
        stands_in(b, o, at),
    ensures
        merge::surviving(b, o, b) == b,
{
    assert forall|n: Seq<char>| !#[trigger] merge::removed_here(b, o, n) by {
        if merge::holds(b, n) {
            let i = list_laws::lemma_holds_at(b, n);
            assert(o[at[i]] == b[i]);
            list_laws::lemma_holds_entry(o, at[i]);
        }
    }
    text::lemma_filter_agrees(
        b,
        |e: Seq<char>| !merge::removed_here(b, o, lists::norm_of(e)),
        |e: Seq<char>| true,
    );
    text::lemma_filter_all(b);
}

proof fn lemma_layout_is_whole(b: Seq<Seq<char>>, o: Seq<Seq<char>>, added: Seq<Addition>)
    requires
        list_laws::distinct(o),
        placed(b, added, b.len() as int),
        merge_laws::heads(added) + merge_laws::laid_out(b, b.take(b.len() as int), added) == o.take(
            o.len() as int,
        ),
    ensures
        merge_laws::layout(b, b, added) == o,
{
    let h = merge_laws::heads(added);
    let l = merge_laws::laid_out(b, b, added);
    assert(b.take(b.len() as int) =~= b);
    assert(o.take(o.len() as int) =~= o);
    let stray = |a: Addition|
        a.after is Some && !merge::holds(b, lists::norm_of(a.entry)) && !merge::holds(
            b,
            a.after->0,
        );
    if added.filter(stray).len() > 0 {
        let k = text::lemma_filter_source(added, stray, 0);
        let i = choose|i: int|
            0 <= i < b.len() && i < b.len() && lists::norm_of(#[trigger] b[i]) == added[k].after->0;
        list_laws::lemma_holds_entry(b, i);
    }
    assert(merge_laws::strays(b, b, added) =~= Seq::<Seq<char>>::empty());
    assert(merge_laws::body(b, b, added) =~= l);
    let p = |e: Seq<char>| !merge::holds(h, lists::norm_of(e));
    assert forall|i: int| 0 <= i < l.len() implies p(#[trigger] l[i]) by {
        if merge::holds(h, lists::norm_of(l[i])) {
            let j = list_laws::lemma_holds_at(h, lists::norm_of(l[i]));
            assert((h + l)[j] == h[j]);
            assert((h + l)[h.len() + i] == l[i]);
            assert(lists::norm_of(o[j]) != lists::norm_of(o[h.len() + i]));
        }
    }
    text::lemma_filter_agrees(l, p, |e: Seq<char>| true);
    text::lemma_filter_all(l);
}

// --- families -----------------------------------------------------------------

/// The patterns of an installation are the built-in ones and, behind them, one
/// for each word that was set, in order; in each the tildes are replaced by the
/// home directory. A word that begins with its only tilde lies in the home
/// directory, and one without a tilde stays as it is.
pub proof fn patterns_can_be_added(home: Seq<char>, extra: Seq<char>, i: int)
    ensures
        ({
            let all = merge::family_patterns(home, extra);
            let words = text::words_of(extra);
            &&& all.len() == 5 + words.len()
            &&& all.take(5) == merge::family_patterns(home, Seq::empty())
            &&& 0 <= i < words.len() && !text::has_part(words[i], "~"@) ==> all[5 + i] == words[i]
            &&& 0 <= i < words.len() && words[i][0] == '~' && !text::has_part(
                words[i].drop_first(),
                "~"@,
            ) ==> all[5 + i] == home + words[i].drop_first()
        }),
{
    let all = merge::family_patterns(home, extra);
    let words = text::words_of(extra);
    let none = Seq::<char>::empty();
    text_laws::words_are_what_is_not_blank(none, 0);
    text_laws::words_are_what_is_not_blank(extra, i);
    lemma_no_words(none);
    assert(all.take(5) =~= merge::family_patterns(home, none));
    if 0 <= i < words.len() {
        let w = words[i];
        assert(all[5 + i] == text::replaced(w, "~"@, home));
        if !text::has_part(w, "~"@) {
            text_laws::nothing_to_replace_changes_nothing(w, "~"@, home);
        }
        let rest = w.drop_first();
        if w[0] == '~' && !text::has_part(rest, "~"@) {
            reveal_strlit("~");
            assert("~"@ =~= seq!['~']);
            assert(w =~= none + "~"@ + rest);
            text_laws::the_first_part_is_replaced(none, "~"@, rest, home);
            text_laws::nothing_to_replace_changes_nothing(rest, "~"@, home);
            assert(none + home + rest =~= home + rest);
        }
    }
}

proof fn lemma_no_words(s: Seq<char>)
    requires
        s.len() == 0,
    ensures
        text::words_of(s).len() == 0,
{
    if text::words_of(s).len() > 0 {
        text_laws::words_are_what_is_not_blank(s, 0);
        let all = text::pieces(s, Cut::WhiteSpace.picks());
        let k = text::lemma_filter_source(all, |p: Seq<char>| p.len() > 0, 0);
        assert(all[k].len() == 0);
    }
}

// --- notes --------------------------------------------------------------------

/// Every note names its entry; an eviction names the pattern too, and an orphan
/// the anchor that is gone. No two kinds of note begin alike.
pub proof fn notes_name_what_they_are_about(e: Seq<char>, x: Seq<char>)
    ensures
        text::has_part(merge::kept_deleted_note(e), e),
        text::has_part(merge::evicted_note(e, x), e),
        text::has_part(merge::evicted_note(e, x), x),
        text::has_part(merge::hoisted_note(e), e),
        text::has_part(merge::orphan_note(e, x), e),
        text::has_part(merge::orphan_note(e, x), x),
        merge::kept_deleted_note(e)[0] == 'k',
        merge::evicted_note(e, x)[0] == 'e',
        merge::hoisted_note(e)[0] == 'h',
        merge::orphan_note(e, x)[0] == 'o',
{
    let none = Seq::<char>::empty();
    reveal_strlit("kept deleted: ");
    reveal_strlit("evicted: ");
    reveal_strlit("hoisted: ");
    reveal_strlit("orphan: ");
    report_laws::lemma_part("kept deleted: "@, e, " (upstream still wants it)"@);
    let a = "evicted: "@;
    let b = " (superseded in family "@;
    report_laws::lemma_part(a, e, b + x + ")"@);
    assert(merge::evicted_note(e, x) =~= a + e + (b + x + ")"@));
    report_laws::lemma_part(a + e + b, x, ")"@);
    assert(merge::hoisted_note(e) =~= "hoisted: "@ + e + none);
    report_laws::lemma_part("hoisted: "@, e, none);
    let c = "orphan: "@;
    let d = " (anchor "@;
    report_laws::lemma_part(c, e, d + x + " gone)"@);
    assert(merge::orphan_note(e, x) =~= c + e + (d + x + " gone)"@));
    report_laws::lemma_part(c + e + d, x, " gone)"@);
}

proof fn lemma_in_home(p: Seq<char>, rest: Seq<char>, home: Seq<char>)
    requires
        p == seq!['~'] + rest,
        forall|i: int| 0 <= i < rest.len() ==> #[trigger] rest[i] != '~',
    ensures
        text::replaced(p, "~"@, home) == home + rest,
{
    reveal_strlit("~");
    let none = Seq::<char>::empty();
    assert("~"@ =~= seq!['~']);
    assert(p =~= none + "~"@ + rest);
    if text::has_part(rest, "~"@) {
        let i = choose|i: int| text::occurs_at(rest, "~"@, i);
        assert(rest.subrange(i, i + 1)[0] == rest[i]);
    }
    text_laws::the_first_part_is_replaced(none, "~"@, rest, home);
    text_laws::nothing_to_replace_changes_nothing(rest, "~"@, home);
    assert(none + home + rest =~= home + rest);
}

/// The built-in families are the versions that each toolchain switcher keeps in
/// the home directory, whatever that is.
pub proof fn switchers_keep_their_versions_at_home(home: Seq<char>)
    ensures
        merge::family_patterns(home, Seq::empty()) == seq![
            home + "/.nvm/versions/node/*/bin"@,
            home + "/.pyenv/versions/*/bin"@,
            home + "/.rbenv/versions/*/bin"@,
            home + "/.rustup/toolchains/*/bin"@,
            home + "/.asdf/installs/*/*/bin"@,
        ],
{
    lemma_no_words(Seq::empty());
    lemma_nvm(home);
    lemma_pyenv(home);
    lemma_rbenv(home);
    lemma_rustup(home);
    lemma_asdf(home);
    assert(merge::family_patterns(home, Seq::empty()) =~= seq![
        home + "/.nvm/versions/node/*/bin"@,
        home + "/.pyenv/versions/*/bin"@,
        home + "/.rbenv/versions/*/bin"@,
        home + "/.rustup/toolchains/*/bin"@,
        home + "/.asdf/installs/*/*/bin"@,
    ]);
}

proof fn lemma_nvm(home: Seq<char>)
    ensures
        text::replaced("~/.nvm/versions/node/*/bin"@, "~"@, home) == home + "/.nvm/versions/node/*/bin"@,
{
    reveal_strlit("~/.nvm/versions/node/*/bin");
    reveal_strlit("/.nvm/versions/node/*/bin");
    assert("~/.nvm/versions/node/*/bin"@ =~= seq!['~'] + "/.nvm/versions/node/*/bin"@);
    lemma_in_home("~/.nvm/versions/node/*/bin"@, "/.nvm/versions/node/*/bin"@, home);
}

proof fn lemma_pyenv(home: Seq<char>)
    ensures
        text::replaced("~/.pyenv/versions/*/bin"@, "~"@, home) == home + "/.pyenv/versions/*/bin"@,
{
    reveal_strlit("~/.pyenv/versions/*/bin");
    reveal_strlit("/.pyenv/versions/*/bin");
    assert("~/.pyenv/versions/*/bin"@ =~= seq!['~'] + "/.pyenv/versions/*/bin"@);
    lemma_in_home("~/.pyenv/versions/*/bin"@, "/.pyenv/versions/*/bin"@, home);
}

proof fn lemma_rbenv(home: Seq<char>)
    ensures
        text::replaced("~/.rbenv/versions/*/bin"@, "~"@, home) == home + "/.rbenv/versions/*/bin"@,
{
    reveal_strlit("~/.rbenv/versions/*/bin");
    reveal_strlit("/.rbenv/versions/*/bin");
    assert("~/.rbenv/versions/*/bin"@ =~= seq!['~'] + "/.rbenv/versions/*/bin"@);
    lemma_in_home("~/.rbenv/versions/*/bin"@, "/.rbenv/versions/*/bin"@, home);
}

proof fn lemma_rustup(home: Seq<char>)
    ensures
        text::replaced("~/.rustup/toolchains/*/bin"@, "~"@, home) == home + "/.rustup/toolchains/*/bin"@,
{
    reveal_strlit("~/.rustup/toolchains/*/bin");
    reveal_strlit("/.rustup/toolchains/*/bin");
    assert("~/.rustup/toolchains/*/bin"@ =~= seq!['~'] + "/.rustup/toolchains/*/bin"@);
    lemma_in_home("~/.rustup/toolchains/*/bin"@, "/.rustup/toolchains/*/bin"@, home);
}

proof fn lemma_asdf(home: Seq<char>)
    ensures
        text::replaced("~/.asdf/installs/*/*/bin"@, "~"@, home) == home + "/.asdf/installs/*/*/bin"@,
{
    reveal_strlit("~/.asdf/installs/*/*/bin");
    reveal_strlit("/.asdf/installs/*/*/bin");
    assert("~/.asdf/installs/*/*/bin"@ =~= seq!['~'] + "/.asdf/installs/*/*/bin"@);
    lemma_in_home("~/.asdf/installs/*/*/bin"@, "/.asdf/installs/*/*/bin"@, home);
}

} // verus!
