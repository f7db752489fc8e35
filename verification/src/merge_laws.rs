//! What a merged list looks like, and what follows from it.

use crate::list_laws;
use crate::lists;
use crate::merge::{self, Addition, FamilyModel, MergedModel};
use crate::text;
use vstd::prelude::*;

verus! {

// --- the layout of a merged list ----------------------------------------------

/// The entries of a list of additions.
pub open spec fn entries(added: Seq<Addition>) -> Seq<Seq<char>> {
    added.map_values(|a: Addition| a.entry)
}

/// The additions that were prepended.
pub open spec fn heads(added: Seq<Addition>) -> Seq<Seq<char>> {
    entries(added.filter(|a: Addition| a.after is None))
}

/// The additions that stand behind the anchor `n` and that the incoming list
/// does not have itself.
pub open spec fn followers(theirs: Seq<Seq<char>>, added: Seq<Addition>, n: Seq<char>) -> Seq<
    Seq<char>,
> {
    entries(
        added.filter(
            |a: Addition| a.after == Some(n) && !merge::holds(theirs, lists::norm_of(a.entry)),
        ),
    )
}

/// The additions whose anchor is not in `list` and that the incoming list does
/// not have itself.
pub open spec fn strays(
    theirs: Seq<Seq<char>>,
    list: Seq<Seq<char>>,
    added: Seq<Addition>,
) -> Seq<Seq<char>> {
    entries(
        added.filter(
            |a: Addition|
                a.after is Some && !merge::holds(theirs, lists::norm_of(a.entry)) && !merge::holds(
                    list,
                    a.after->0,
                ),
        ),
    )
}

/// `list` with the additions behind their anchors.
pub open spec fn laid_out(
    theirs: Seq<Seq<char>>,
    list: Seq<Seq<char>>,
    added: Seq<Addition>,
) -> Seq<Seq<char>>
    decreases list.len(),
{
    if list.len() == 0 {
        Seq::empty()
    } else {
        laid_out(theirs, list.drop_last(), added).push(list.last()) + followers(
            theirs,
            added,
            lists::norm_of(list.last()),
        )
    }
}

/// `list` with the additions behind their anchors, and those without one in
/// front.
pub open spec fn body(
    theirs: Seq<Seq<char>>,
    list: Seq<Seq<char>>,
    added: Seq<Addition>,
) -> Seq<Seq<char>> {
    strays(theirs, list, added) + laid_out(theirs, list, added)
}

/// The prepended additions, then the rest of the list without them.
pub open spec fn layout(
    theirs: Seq<Seq<char>>,
    list: Seq<Seq<char>>,
    added: Seq<Addition>,
) -> Seq<Seq<char>> {
    heads(added) + body(theirs, list, added).filter(
        |e: Seq<char>| !merge::holds(heads(added), lists::norm_of(e)),
    )
}

/// The additions can be put back onto `list`: nothing repeats, what was
/// prepended comes first, and no anchor is itself an addition.
pub open spec fn can_rebase(
    theirs: Seq<Seq<char>>,
    list: Seq<Seq<char>>,
    added: Seq<Addition>,
) -> bool {
    &&& list_laws::distinct(list)
    &&& forall|n: Seq<char>| #[trigger] merge::holds(list, n) ==> merge::holds(theirs, n)
    &&& list_laws::distinct(entries(added))
    &&& forall|i: int, j: int|
        0 <= i < j < added.len() && (#[trigger] added[j]).after is None ==> (
        #[trigger] added[i]).after is None
    &&& forall|i: int, j: int|
        0 <= i < added.len() && 0 <= j < added.len() && (#[trigger] added[i]).after is Some
            ==> added[i].after->0 != lists::norm_of((#[trigger] added[j]).entry)
}

// --- places -------------------------------------------------------------------

pub(crate) proof fn lemma_place(v: Seq<Seq<char>>, n: Seq<char>)
    ensures
        merge::place_of(v, n) is Some <==> merge::holds(v, n),
        merge::place_of(v, n) matches Some(i) ==> 0 <= i < v.len() && lists::norm_of(v[i]) == n,
    decreases v.len(),
{
    if v.len() > 0 {
        let before = v.drop_last();
        lemma_place(before, n);
        assert(v =~= before + seq![v.last()]);
        list_laws::lemma_holds_add(before, seq![v.last()], n);
        if merge::holds(seq![v.last()], n) {
            let i = list_laws::lemma_holds_at(seq![v.last()], n);
        }
        list_laws::lemma_holds_entry(seq![v.last()], 0);
    }
}

pub(crate) proof fn lemma_place_add(a: Seq<Seq<char>>, b: Seq<Seq<char>>, n: Seq<char>)
    ensures
        merge::place_of(a + b, n) == match merge::place_of(a, n) {
            Some(i) => Some(i),
            None => match merge::place_of(b, n) {
                Some(j) => Some(a.len() + j),
                None => None,
            },
        },
    decreases b.len(),
{
    if b.len() == 0 {
        assert(a + b =~= a);
    } else {
        assert((a + b).drop_last() =~= a + b.drop_last());
        lemma_place_add(a, b.drop_last(), n);
    }
}

// --- one more addition in front -----------------------------------------------

pub(crate) proof fn lemma_entries_add(a: Seq<Addition>, b: Seq<Addition>)
    ensures
        entries(a + b) == entries(a) + entries(b),
{
    assert(entries(a + b) =~= entries(a) + entries(b));
}

/// What a filter on additions leaves when one more stands in front.
pub(crate) proof fn lemma_entries_filter(a: Addition, done: Seq<Addition>, p: spec_fn(Addition) -> bool)
    ensures
        entries((seq![a] + done).filter(p)) == if p(a) {
            seq![a.entry] + entries(done.filter(p))
        } else {
            entries(done.filter(p))
        },
{
    done.lemma_filter_prepend(a, p);
    if p(a) {
        lemma_entries_add(seq![a], done.filter(p));
        assert(entries(seq![a]) =~= seq![a.entry]);
    } else {
        assert(Seq::<Addition>::empty() + done.filter(p) =~= done.filter(p));
    }
}

pub(crate) proof fn lemma_laid_out_same(
    theirs: Seq<Seq<char>>,
    list: Seq<Seq<char>>,
    a: Addition,
    done: Seq<Addition>,
)
    requires
        a.after is None || merge::holds(theirs, lists::norm_of(a.entry)) || !merge::holds(
            list,
            a.after->0,
        ),
    ensures
        laid_out(theirs, list, seq![a] + done) == laid_out(theirs, list, done),
    decreases list.len(),
{
    if list.len() > 0 {
        let before = list.drop_last();
        assert(list =~= before + seq![list.last()]);
        if a.after is Some {
            list_laws::lemma_holds_add(before, seq![list.last()], a.after->0);
            list_laws::lemma_holds_entry(seq![list.last()], 0);
        }
        lemma_laid_out_same(theirs, before, a, done);
        let n = lists::norm_of(list.last());
        lemma_entries_filter(
            a,
            done,
            |x: Addition| x.after == Some(n) && !merge::holds(theirs, lists::norm_of(x.entry)),
        );
    }
}

/// What `laid_out` holds: the list, and additions that the incoming list does
/// not have.
pub(crate) proof fn lemma_laid_out_holds(
    theirs: Seq<Seq<char>>,
    list: Seq<Seq<char>>,
    added: Seq<Addition>,
    n: Seq<char>,
)
    requires
        merge::holds(laid_out(theirs, list, added), n),
    ensures
        merge::holds(list, n) || (merge::holds(entries(added), n) && !merge::holds(theirs, n)),
    decreases list.len(),
{
    if list.len() == 0 {
        let i = list_laws::lemma_holds_at(laid_out(theirs, list, added), n);
    } else {
        let before = list.drop_last();
        let last = seq![list.last()];
        let m = lists::norm_of(list.last());
        let f = followers(theirs, added, m);
        assert(list =~= before + last);
        assert(laid_out(theirs, list, added) =~= laid_out(theirs, before, added) + last + f);
        list_laws::lemma_holds_add(laid_out(theirs, before, added) + last, f, n);
        list_laws::lemma_holds_add(laid_out(theirs, before, added), last, n);
        list_laws::lemma_holds_add(before, last, n);
        if merge::holds(f, n) {
            lemma_entries_held(
                added,
                |x: Addition| x.after == Some(m) && !merge::holds(theirs, lists::norm_of(x.entry)),
                n,
            );
        } else if !merge::holds(last, n) {
            lemma_laid_out_holds(theirs, before, added, n);
        }
    }
}

/// What the entries of some additions hold, one of those additions has.
pub(crate) proof fn lemma_entries_held(added: Seq<Addition>, p: spec_fn(Addition) -> bool, n: Seq<char>) -> (k:
    int)
    requires
        merge::holds(entries(added.filter(p)), n),
    ensures
        0 <= k < added.len(),
        p(added[k]),
        lists::norm_of(added[k].entry) == n,
        merge::holds(entries(added), n),
{
    let i = list_laws::lemma_holds_at(entries(added.filter(p)), n);
    let k = text::lemma_filter_source(added, p, i);
    assert(entries(added)[k] == added[k].entry);
    list_laws::lemma_holds_entry(entries(added), k);
    k
}

/// An addition behind an anchor that the list has comes right behind it.
pub(crate) proof fn lemma_laid_out_insert(
    theirs: Seq<Seq<char>>,
    list: Seq<Seq<char>>,
    a: Addition,
    done: Seq<Addition>,
)
    requires
        can_rebase(theirs, list, seq![a] + done),
        a.after is Some,
        !merge::holds(theirs, lists::norm_of(a.entry)),
        merge::holds(list, a.after->0),
    ensures
        merge::place_of(laid_out(theirs, list, done), a.after->0) is Some,
        laid_out(theirs, list, seq![a] + done) == laid_out(theirs, list, done).insert(
            merge::place_of(laid_out(theirs, list, done), a.after->0)->0 + 1,
            a.entry,
        ),
    decreases list.len(),
{
    let x = a.after->0;
    let all = seq![a] + done;
    let before = list.drop_last();
    let last = seq![list.last()];
    let n = lists::norm_of(list.last());
    assert(list =~= before + last);
    let l = laid_out(theirs, before, done);
    let f = followers(theirs, done, n);
    let p = |y: Addition| y.after == Some(n) && !merge::holds(theirs, lists::norm_of(y.entry));
    lemma_entries_filter(a, done, p);
    list_laws::lemma_holds_add(before, last, x);
    assert(laid_out(theirs, list, done) =~= l + (last + f));
    lemma_place_add(l, last + f, x);
    lemma_place(l, x);
    assert(can_rebase(theirs, before, all)) by {
        lemma_can_rebase_shorter(theirs, list, all);
    }
    if n == x {
        // The anchor is the last of the list, so it is not in what comes before.
        if merge::holds(before, x) {
            let i = list_laws::lemma_holds_at(before, x);
            assert(lists::norm_of(list[i]) != lists::norm_of(list[list.len() - 1]));
        }
        if merge::holds(l, x) {
            lemma_laid_out_holds(theirs, before, done, x);
            let k = list_laws::lemma_holds_at(entries(done), x);
            assert(all[k + 1] == done[k]);
            assert(all[0] == a);
        }
        lemma_place_add(last, f, x);
        assert(merge::place_of(last, x) == Some(0int)) by {
            reveal_with_fuel(merge::place_of, 2);
        }
        lemma_laid_out_same(theirs, before, a, done);
        assert(laid_out(theirs, list, all) =~= l.push(list.last()) + (seq![a.entry] + f));
        assert((l + (last + f)).insert(l.len() as int + 1, a.entry) =~= l.push(list.last()) + (
        seq![a.entry] + f));
    } else {
        if !merge::holds(before, x) {
            let i = list_laws::lemma_holds_at(last, x);
        }
        lemma_laid_out_insert(theirs, before, a, done);
        let i = merge::place_of(l, x)->0;
        assert(laid_out(theirs, list, all) =~= l.insert(i + 1, a.entry) + (last + f));
        assert((l + (last + f)).insert(i + 1, a.entry) =~= l.insert(i + 1, a.entry) + (last + f));
    }
}

pub(crate) proof fn lemma_can_rebase_shorter(
    theirs: Seq<Seq<char>>,
    list: Seq<Seq<char>>,
    added: Seq<Addition>,
)
    requires
        can_rebase(theirs, list, added),
        list.len() > 0,
    ensures
        can_rebase(theirs, list.drop_last(), added),
{
    let before = list.drop_last();
    assert forall|i: int, j: int| 0 <= i < j < before.len() implies lists::norm_of(
        #[trigger] before[i],
    ) != lists::norm_of(#[trigger] before[j]) by {
        assert(lists::norm_of(list[i]) != lists::norm_of(list[j]));
    }
    assert forall|n: Seq<char>| #[trigger] merge::holds(before, n) implies merge::holds(theirs, n) by {
        let i = list_laws::lemma_holds_at(before, n);
        list_laws::lemma_holds_entry(list, i);
        assert(merge::holds(list, n));
    }
}

pub(crate) proof fn lemma_entries_distinct(added: Seq<Addition>, p: spec_fn(Addition) -> bool)
    requires
        list_laws::distinct(entries(added)),
    ensures
        list_laws::distinct(entries(added.filter(p))),
{
    let f = entries(added.filter(p));
    assert forall|i: int, j: int| 0 <= i < j < f.len() implies lists::norm_of(#[trigger] f[i])
        != lists::norm_of(#[trigger] f[j]) by {
        let (a, b) = text::lemma_filter_order(added, p, i, j);
        assert(entries(added)[a] == f[i] && entries(added)[b] == f[j]);
    }
}

/// Where no addition was prepended, there is nothing to take out.
pub(crate) proof fn lemma_layout_without_heads(
    theirs: Seq<Seq<char>>,
    list: Seq<Seq<char>>,
    added: Seq<Addition>,
)
    requires
        forall|i: int| 0 <= i < added.len() ==> (#[trigger] added[i]).after is Some,
    ensures
        heads(added) == Seq::<Seq<char>>::empty(),
        layout(theirs, list, added) == body(theirs, list, added),
{
    let p = |a: Addition| a.after is None;
    if heads(added).len() > 0 {
        let k = text::lemma_filter_source(added, p, 0);
        assert(added[k].after is Some);
    }
    assert(heads(added) =~= Seq::<Seq<char>>::empty());
    let b = body(theirs, list, added);
    let keep = |e: Seq<char>| !merge::holds(heads(added), lists::norm_of(e));
    text::lemma_filter_agrees(b, keep, |e: Seq<char>| true);
    text::lemma_filter_all(b);
    assert(heads(added) + b =~= b);
}

/// What the body of a layout holds.
pub(crate) proof fn lemma_body_holds(
    theirs: Seq<Seq<char>>,
    list: Seq<Seq<char>>,
    added: Seq<Addition>,
    n: Seq<char>,
)
    requires
        merge::holds(body(theirs, list, added), n),
    ensures
        merge::holds(list, n) || (merge::holds(entries(added), n) && !merge::holds(theirs, n)),
{
    let s = strays(theirs, list, added);
    list_laws::lemma_holds_add(s, laid_out(theirs, list, added), n);
    if merge::holds(s, n) {
        lemma_entries_held(
            added,
            |a: Addition|
                a.after is Some && !merge::holds(theirs, lists::norm_of(a.entry)) && !merge::holds(
                    list,
                    a.after->0,
                ),
            n,
        );
    } else {
        lemma_laid_out_holds(theirs, list, added, n);
    }
}

/// Two filters, one after the other.
pub(crate) proof fn lemma_filter_twice<T>(v: Seq<T>, p: spec_fn(T) -> bool, q: spec_fn(T) -> bool)
    ensures
        v.filter(p).filter(q) == v.filter(|e: T| p(e) && q(e)),
    decreases v.len(),
{
    reveal(Seq::filter);
    if v.len() > 0 {
        lemma_filter_twice(v.drop_last(), p, q);
        if p(v.last()) {
            let before = v.drop_last().filter(p);
            assert(before.push(v.last()).drop_last() =~= before);
        }
    }
}

/// A prepended addition goes to the front of the layout.
pub(crate) proof fn lemma_prepend_step(
    theirs: Seq<Seq<char>>,
    list: Seq<Seq<char>>,
    a: Addition,
    done: Seq<Addition>,
    m: MergedModel,
)
    requires
        can_rebase(theirs, list, seq![a] + done),
        a.after is None,
        m.list == layout(theirs, list, done),
    ensures
        merge::put_back(theirs, m, a).list == layout(theirs, list, seq![a] + done),
{
    let all = seq![a] + done;
    let n = lists::norm_of(a.entry);
    let h = heads(done);
    let b = body(theirs, list, done);
    let is_head = |x: Addition| x.after is None;
    lemma_entries_filter(a, done, is_head);
    lemma_entries_filter(
        a,
        done,
        |x: Addition|
            x.after is Some && !merge::holds(theirs, lists::norm_of(x.entry)) && !merge::holds(
                list,
                x.after->0,
            ),
    );
    lemma_laid_out_same(theirs, list, a, done);
    assert(body(theirs, list, all) == b);
    assert(heads(all) == seq![a.entry] + h);
    let keep = |e: Seq<char>| !merge::holds(h, lists::norm_of(e));
    let keep_all = |e: Seq<char>| !merge::holds(heads(all), lists::norm_of(e));
    let other = |e: Seq<char>| lists::norm_of(e) != n;
    assert forall|e: Seq<char>| #[trigger] keep_all(e) == (keep(e) && other(e)) by {
        list_laws::lemma_holds_add(seq![a.entry], h, lists::norm_of(e));
        list_laws::lemma_holds_entry(seq![a.entry], 0);
        if merge::holds(seq![a.entry], lists::norm_of(e)) {
            let i = list_laws::lemma_holds_at(seq![a.entry], lists::norm_of(e));
        }
    }
    // The other prepends differ from this one.
    assert forall|i: int| 0 <= i < h.len() implies lists::norm_of(#[trigger] h[i]) != n by {
        let k = text::lemma_filter_source(done, is_head, i);
        assert(entries(all)[k + 1] == done[k].entry);
        assert(entries(all)[0] == a.entry);
        assert(lists::norm_of(entries(all)[0]) != lists::norm_of(entries(all)[k + 1]));
    }
    if merge::holds(theirs, n) {
        Seq::filter_distributes_over_add(h, b.filter(keep), other);
        text::lemma_filter_agrees(h, other, |e: Seq<char>| true);
        text::lemma_filter_all(h);
        lemma_filter_twice(b, keep, other);
        text::lemma_filter_agrees(b, |e: Seq<char>| keep(e) && other(e), keep_all);
        assert(seq![a.entry] + (h + b.filter(keep_all)) =~= heads(all) + b.filter(keep_all));
    } else {
        assert forall|i: int| 0 <= i < b.len() implies keep(#[trigger] b[i]) == keep_all(b[i]) by {
            if lists::norm_of(b[i]) == n {
                list_laws::lemma_holds_entry(b, i);
                lemma_body_holds(theirs, list, done, n);
                if merge::holds(list, n) {
                    assert(merge::holds(theirs, n));
                } else {
                    let k = list_laws::lemma_holds_at(entries(done), n);
                    assert(entries(all)[k + 1] == done[k].entry);
                    assert(entries(all)[0] == a.entry);
                    assert(lists::norm_of(entries(all)[0]) != lists::norm_of(entries(all)[k + 1]));
                }
            }
        }
        text::lemma_filter_agrees(b, keep, keep_all);
        assert(seq![a.entry] + (h + b.filter(keep_all)) =~= heads(all) + b.filter(keep_all));
    }
}

/// No anchor is held by the additions.
pub(crate) proof fn lemma_anchor_is_no_addition(
    theirs: Seq<Seq<char>>,
    list: Seq<Seq<char>>,
    a: Addition,
    done: Seq<Addition>,
)
    requires
        can_rebase(theirs, list, seq![a] + done),
        a.after is Some,
    ensures
        !merge::holds(entries(done), a.after->0),
        forall|i: int| 0 <= i < done.len() ==> (#[trigger] done[i]).after is Some,
{
    let all = seq![a] + done;
    assert(all[0] == a);
    if merge::holds(entries(done), a.after->0) {
        let k = list_laws::lemma_holds_at(entries(done), a.after->0);
        assert(all[k + 1] == done[k]);
    }
    assert forall|i: int| 0 <= i < done.len() implies (#[trigger] done[i]).after is Some by {
        assert(all[i + 1] == done[i]);
    }
}

/// Where the list does not have the anchor `x`, the body does not either.
pub(crate) proof fn lemma_anchor_place(
    theirs: Seq<Seq<char>>,
    list: Seq<Seq<char>>,
    done: Seq<Addition>,
    x: Seq<char>,
)
    requires
        !merge::holds(entries(done), x),
    ensures
        merge::place_of(strays(theirs, list, done), x) is None,
        merge::holds(list, x) || merge::place_of(laid_out(theirs, list, done), x) is None,
{
    let s = strays(theirs, list, done);
    let l = laid_out(theirs, list, done);
    lemma_place(s, x);
    lemma_place(l, x);
    if merge::holds(s, x) {
        let k = lemma_entries_held(
            done,
            |y: Addition|
                y.after is Some && !merge::holds(theirs, lists::norm_of(y.entry)) && !merge::holds(
                    list,
                    y.after->0,
                ),
            x,
        );
    }
    if merge::holds(l, x) {
        lemma_laid_out_holds(theirs, list, done, x);
    }
}

/// The strays when one more addition, with an anchor, stands in front.
pub(crate) proof fn lemma_strays_step(
    theirs: Seq<Seq<char>>,
    list: Seq<Seq<char>>,
    a: Addition,
    done: Seq<Addition>,
)
    requires
        a.after is Some,
    ensures
        strays(theirs, list, seq![a] + done) == if !merge::holds(theirs, lists::norm_of(a.entry))
            && !merge::holds(list, a.after->0) {
            seq![a.entry] + strays(theirs, list, done)
        } else {
            strays(theirs, list, done)
        },
{
    lemma_entries_filter(
        a,
        done,
        |y: Addition|
            y.after is Some && !merge::holds(theirs, lists::norm_of(y.entry)) && !merge::holds(
                list,
                y.after->0,
            ),
    );
}

/// The body when one more addition, with an anchor, stands in front.
pub(crate) proof fn lemma_body_step(
    theirs: Seq<Seq<char>>,
    list: Seq<Seq<char>>,
    a: Addition,
    done: Seq<Addition>,
)
    requires
        can_rebase(theirs, list, seq![a] + done),
        a.after is Some,
    ensures
        body(theirs, list, seq![a] + done) == if merge::holds(theirs, lists::norm_of(a.entry)) {
            body(theirs, list, done)
        } else {
            match merge::place_of(body(theirs, list, done), a.after->0) {
                Some(i) => body(theirs, list, done).insert(i + 1, a.entry),
                None => seq![a.entry] + body(theirs, list, done),
            }
        },
{
    let x = a.after->0;
    let s = strays(theirs, list, done);
    let l = laid_out(theirs, list, done);
    lemma_anchor_is_no_addition(theirs, list, a, done);
    lemma_strays_step(theirs, list, a, done);
    lemma_place_add(s, l, x);
    lemma_anchor_place(theirs, list, done, x);
    if merge::holds(theirs, lists::norm_of(a.entry)) {
        lemma_laid_out_same(theirs, list, a, done);
    } else if merge::holds(list, x) {
        lemma_laid_out_insert(theirs, list, a, done);
        let i = merge::place_of(l, x)->0;
        lemma_place(l, x);
        assert((s + l).insert(s.len() + i + 1, a.entry) =~= s + l.insert(i + 1, a.entry));
    } else {
        lemma_laid_out_same(theirs, list, a, done);
        assert(seq![a.entry] + (s + l) =~= (seq![a.entry] + s) + l);
    }
}

/// An addition behind an anchor goes behind it, or to the front of the body.
pub(crate) proof fn lemma_insert_step(
    theirs: Seq<Seq<char>>,
    list: Seq<Seq<char>>,
    a: Addition,
    done: Seq<Addition>,
    m: MergedModel,
)
    requires
        can_rebase(theirs, list, seq![a] + done),
        a.after is Some,
        m.list == layout(theirs, list, done),
    ensures
        merge::put_back(theirs, m, a).list == layout(theirs, list, seq![a] + done),
{
    let all = seq![a] + done;
    lemma_anchor_is_no_addition(theirs, list, a, done);
    assert forall|i: int| 0 <= i < all.len() implies (#[trigger] all[i]).after is Some by {
        if i > 0 {
            assert(all[i] == done[i - 1]);
        }
    }
    lemma_layout_without_heads(theirs, list, all);
    lemma_layout_without_heads(theirs, list, done);
    lemma_body_step(theirs, list, a, done);
}

pub(crate) proof fn lemma_layout_step(
    theirs: Seq<Seq<char>>,
    list: Seq<Seq<char>>,
    ahead: Seq<Addition>,
    done: Seq<Addition>,
    m: MergedModel,
)
    requires
        can_rebase(theirs, list, ahead + done),
        m.list == layout(theirs, list, done),
    ensures
        merge::put_all_back(theirs, m, ahead).list == layout(theirs, list, ahead + done),
    decreases ahead.len(),
{
    if ahead.len() == 0 {
        assert(ahead + done =~= done);
    } else {
        let a = ahead.last();
        let rest = ahead.drop_last();
        let now = seq![a] + done;
        assert(ahead + done =~= rest + now);
        lemma_can_rebase_later(theirs, list, rest, now);
        if a.after is None {
            lemma_prepend_step(theirs, list, a, done, m);
        } else {
            lemma_insert_step(theirs, list, a, done, m);
        }
        lemma_layout_step(theirs, list, rest, now, merge::put_back(theirs, m, a));
    }
}

pub(crate) proof fn lemma_can_rebase_later(
    theirs: Seq<Seq<char>>,
    list: Seq<Seq<char>>,
    a: Seq<Addition>,
    b: Seq<Addition>,
)
    requires
        can_rebase(theirs, list, a + b),
    ensures
        can_rebase(theirs, list, b),
{
    let c = a + b;
    assert forall|i: int, j: int| 0 <= i < j < entries(b).len() implies lists::norm_of(
        #[trigger] entries(b)[i],
    ) != lists::norm_of(#[trigger] entries(b)[j]) by {
        assert(entries(c)[a.len() + i] == entries(b)[i]);
        assert(entries(c)[a.len() + j] == entries(b)[j]);
    }
    assert forall|i: int, j: int|
        0 <= i < j < b.len() && (#[trigger] b[j]).after is None implies (
    #[trigger] b[i]).after is None by {
        assert(c[a.len() + i] == b[i] && c[a.len() + j] == b[j]);
    }
    assert forall|i: int, j: int|
        0 <= i < b.len() && 0 <= j < b.len() && (#[trigger] b[i]).after is Some implies b[i].after->0
        != lists::norm_of((#[trigger] b[j]).entry) by {
        assert(c[a.len() + i] == b[i] && c[a.len() + j] == b[j]);
    }
}

/// Putting the additions back one by one, the last one first, gives the
/// layout.
pub proof fn put_back_gives_the_layout(
    theirs: Seq<Seq<char>>,
    m: MergedModel,
    added: Seq<Addition>,
)
    requires
        can_rebase(theirs, m.list, added),
    ensures
        merge::put_all_back(theirs, m, added).list == layout(theirs, m.list, added),
{
    let none = Seq::<Addition>::empty();
    assert(added + none =~= added);
    lemma_layout_of_nothing(theirs, m.list);
    lemma_layout_step(theirs, m.list, added, none, m);
}

pub(crate) proof fn lemma_laid_out_nothing(theirs: Seq<Seq<char>>, list: Seq<Seq<char>>)
    ensures
        laid_out(theirs, list, Seq::<Addition>::empty()) == list,
    decreases list.len(),
{
    reveal(Seq::filter);
    let none = Seq::<Addition>::empty();
    if list.len() > 0 {
        lemma_laid_out_nothing(theirs, list.drop_last());
        assert(followers(theirs, none, lists::norm_of(list.last())) =~= Seq::<Seq<char>>::empty());
        assert(list.drop_last().push(list.last()) =~= list);
    }
    assert(laid_out(theirs, list, none) =~= list);
}

// --- nothing repeats ----------------------------------------------------------

/// Addition `k` has compared form `n` and stands behind an anchor in `list`.
pub open spec fn placed_at(
    theirs: Seq<Seq<char>>,
    list: Seq<Seq<char>>,
    added: Seq<Addition>,
    n: Seq<char>,
    k: int,
) -> bool {
    &&& 0 <= k < added.len()
    &&& lists::norm_of(added[k].entry) == n
    &&& !merge::holds(theirs, n)
    &&& added[k].after is Some
    &&& merge::holds(list, added[k].after->0)
}

pub(crate) proof fn lemma_laid_out_from(
    theirs: Seq<Seq<char>>,
    list: Seq<Seq<char>>,
    added: Seq<Addition>,
    n: Seq<char>,
) -> (k: int)
    requires
        merge::holds(laid_out(theirs, list, added), n),
    ensures
        merge::holds(list, n) || placed_at(theirs, list, added, n, k),
    decreases list.len(),
{
    if list.len() == 0 {
        list_laws::lemma_holds_at(laid_out(theirs, list, added), n)
    } else {
        let before = list.drop_last();
        let last = seq![list.last()];
        let m = lists::norm_of(list.last());
        let f = followers(theirs, added, m);
        assert(list =~= before + last);
        assert(laid_out(theirs, list, added) =~= laid_out(theirs, before, added) + last + f);
        list_laws::lemma_holds_add(laid_out(theirs, before, added) + last, f, n);
        list_laws::lemma_holds_add(laid_out(theirs, before, added), last, n);
        list_laws::lemma_holds_add(before, last, n);
        if merge::holds(f, n) {
            list_laws::lemma_holds_entry(list, list.len() - 1);
            lemma_entries_held(
                added,
                |x: Addition| x.after == Some(m) && !merge::holds(theirs, lists::norm_of(x.entry)),
                n,
            )
        } else if merge::holds(last, n) {
            0
        } else {
            let k = lemma_laid_out_from(theirs, before, added, n);
            if !merge::holds(before, n) {
                list_laws::lemma_holds_add(before, last, added[k].after->0);
            }
            k
        }
    }
}

/// Two additions with the same compared form are the same.
pub(crate) proof fn lemma_same_addition(added: Seq<Addition>, i: int, j: int)
    requires
        list_laws::distinct(entries(added)),
        0 <= i < added.len(),
        0 <= j < added.len(),
        lists::norm_of(added[i].entry) == lists::norm_of(added[j].entry),
    ensures
        i == j,
{
    assert(entries(added)[i] == added[i].entry && entries(added)[j] == added[j].entry);
}

pub(crate) proof fn lemma_laid_out_distinct(
    theirs: Seq<Seq<char>>,
    list: Seq<Seq<char>>,
    added: Seq<Addition>,
)
    requires
        can_rebase(theirs, list, added),
    ensures
        list_laws::distinct(laid_out(theirs, list, added)),
    decreases list.len(),
{
    if list.len() > 0 {
        let before = list.drop_last();
        let last = seq![list.last()];
        let m = lists::norm_of(list.last());
        let f = followers(theirs, added, m);
        let p = |x: Addition| x.after == Some(m) && !merge::holds(theirs, lists::norm_of(x.entry));
        let l = laid_out(theirs, before, added);
        lemma_can_rebase_shorter(theirs, list, added);
        lemma_laid_out_distinct(theirs, before, added);
        lemma_entries_distinct(added, p);
        assert(!merge::holds(before, m)) by {
            if merge::holds(before, m) {
                let i = list_laws::lemma_holds_at(before, m);
                assert(lists::norm_of(list[i]) != lists::norm_of(list[list.len() - 1]));
            }
        }
        list_laws::lemma_holds_entry(list, list.len() - 1);
        assert(merge::holds(theirs, m));
        assert forall|n: Seq<char>| merge::holds(l, n) implies !#[trigger] merge::holds(last, n) by {
            if merge::holds(last, n) {
                let i = list_laws::lemma_holds_at(last, n);
                let k = lemma_laid_out_from(theirs, before, added, n);
            }
        }
        list_laws::lemma_distinct_add(l, last);
        assert forall|n: Seq<char>| merge::holds(l + last, n) implies !#[trigger] merge::holds(
            f,
            n,
        ) by {
            if merge::holds(f, n) {
                let j = lemma_entries_held(added, p, n);
                list_laws::lemma_holds_add(l, last, n);
                if merge::holds(last, n) {
                    let i = list_laws::lemma_holds_at(last, n);
                } else {
                    let k = lemma_laid_out_from(theirs, before, added, n);
                    if merge::holds(before, n) {
                        let i = list_laws::lemma_holds_at(before, n);
                        list_laws::lemma_holds_entry(list, i);
                        assert(list[i] == before[i]);
                        assert(merge::holds(theirs, n));
                    } else {
                        lemma_same_addition(added, j, k);
                    }
                }
            }
        }
        list_laws::lemma_distinct_add(l + last, f);
        assert(laid_out(theirs, list, added) =~= l + last + f);
    }
}

/// Nothing repeats in a layout.
pub(crate) proof fn lemma_layout_distinct(
    theirs: Seq<Seq<char>>,
    list: Seq<Seq<char>>,
    added: Seq<Addition>,
)
    requires
        can_rebase(theirs, list, added),
    ensures
        list_laws::distinct(layout(theirs, list, added)),
{
    let s = strays(theirs, list, added);
    let l = laid_out(theirs, list, added);
    let h = heads(added);
    let stray = |a: Addition|
        a.after is Some && !merge::holds(theirs, lists::norm_of(a.entry)) && !merge::holds(
            list,
            a.after->0,
        );
    lemma_entries_distinct(added, stray);
    lemma_entries_distinct(added, |a: Addition| a.after is None);
    lemma_laid_out_distinct(theirs, list, added);
    assert forall|n: Seq<char>| merge::holds(s, n) implies !#[trigger] merge::holds(l, n) by {
        if merge::holds(l, n) {
            let j = lemma_entries_held(added, stray, n);
            let k = lemma_laid_out_from(theirs, list, added, n);
            if !merge::holds(list, n) {
                lemma_same_addition(added, j, k);
            }
        }
    }
    list_laws::lemma_distinct_add(s, l);
    let keep = |e: Seq<char>| !merge::holds(h, lists::norm_of(e));
    let b = s + l;
    list_laws::lemma_distinct_filter(b, keep);
    assert forall|n: Seq<char>| merge::holds(h, n) implies !#[trigger] merge::holds(
        b.filter(keep),
        n,
    ) by {
        list_laws::lemma_holds_filter(b, keep, |n: Seq<char>| !merge::holds(h, n), n);
    }
    list_laws::lemma_distinct_add(h, b.filter(keep));
}

// --- where the additions come from --------------------------------------------

/// What the nearest anchor is: the last anchored place before `i`.
pub(crate) proof fn lemma_anchor_before(ours: Seq<Seq<char>>, walk: Seq<(int, int)>, i: int) -> (p: int)
    requires
        0 <= i,
    ensures
        merge::anchor_before(ours, walk, i) is Some ==> 0 <= p < i && merge::anchored(walk, p)
            && merge::anchor_before(ours, walk, i) == Some(lists::norm_of(ours[p])) && forall|q: int|
            p < q < i ==> !#[trigger] merge::anchored(walk, q),
        merge::anchor_before(ours, walk, i) is None ==> forall|q: int|
            0 <= q < i ==> !#[trigger] merge::anchored(walk, q),
    decreases i,
{
    if i <= 0 {
        0
    } else if merge::anchored(walk, i - 1) {
        i - 1
    } else {
        lemma_anchor_before(ours, walk, i - 1)
    }
}

/// An addition stands at a place that is no anchor.
pub(crate) proof fn lemma_addition_source(ours: Seq<Seq<char>>, walk: Seq<(int, int)>, n: int, k: int) -> (i:
    int)
    requires
        0 <= k < merge::additions(ours, walk, n).len(),
    ensures
        0 <= i < n,
        !merge::anchored(walk, i),
        merge::additions(ours, walk, n)[k] == (Addition {
            entry: ours[i],
            after: merge::anchor_before(ours, walk, i),
        }),
    decreases n,
{
    if n > 0 && !merge::anchored(walk, n - 1) && k == merge::additions(ours, walk, n).len() - 1 {
        n - 1
    } else {
        lemma_addition_source(ours, walk, n - 1, k)
    }
}

/// Additions come in the order of the list.
pub(crate) proof fn lemma_addition_order(
    ours: Seq<Seq<char>>,
    walk: Seq<(int, int)>,
    n: int,
    k: int,
    l: int,
) -> (at: (int, int))
    requires
        0 <= k < l < merge::additions(ours, walk, n).len(),
    ensures
        0 <= at.0 < at.1 < n,
        !merge::anchored(walk, at.0),
        !merge::anchored(walk, at.1),
        merge::additions(ours, walk, n)[k] == (Addition {
            entry: ours[at.0],
            after: merge::anchor_before(ours, walk, at.0),
        }),
        merge::additions(ours, walk, n)[l] == (Addition {
            entry: ours[at.1],
            after: merge::anchor_before(ours, walk, at.1),
        }),
    decreases n,
{
    if n > 0 && !merge::anchored(walk, n - 1) && l == merge::additions(ours, walk, n).len() - 1 {
        let a = lemma_addition_source(ours, walk, n - 1, k);
        (a, n - 1)
    } else {
        lemma_addition_order(ours, walk, n - 1, k, l)
    }
}

/// Every place that is no anchor is an addition.
pub(crate) proof fn lemma_addition_at(ours: Seq<Seq<char>>, walk: Seq<(int, int)>, n: int, i: int) -> (k: int)
    requires
        0 <= i < n,
        !merge::anchored(walk, i),
    ensures
        0 <= k < merge::additions(ours, walk, n).len(),
        merge::additions(ours, walk, n)[k] == (Addition {
            entry: ours[i],
            after: merge::anchor_before(ours, walk, i),
        }),
    decreases n,
{
    if i == n - 1 {
        merge::additions(ours, walk, n).len() - 1
    } else {
        lemma_addition_at(ours, walk, n - 1, i)
    }
}

/// The additions to a list without repeats can be put back.
pub(crate) proof fn lemma_additions_rebase(
    theirs: Seq<Seq<char>>,
    list: Seq<Seq<char>>,
    ours: Seq<Seq<char>>,
    walk: Seq<(int, int)>,
)
    requires
        list_laws::distinct(list),
        forall|n: Seq<char>| #[trigger] merge::holds(list, n) ==> merge::holds(theirs, n),
        list_laws::distinct(ours),
    ensures
        can_rebase(theirs, list, merge::additions(ours, walk, ours.len() as int)),
{
    let n = ours.len() as int;
    let added = merge::additions(ours, walk, n);
    assert forall|i: int, j: int| 0 <= i < j < entries(added).len() implies lists::norm_of(
        #[trigger] entries(added)[i],
    ) != lists::norm_of(#[trigger] entries(added)[j]) by {
        let (a, b) = lemma_addition_order(ours, walk, n, i, j);
        assert(entries(added)[i] == ours[a] && entries(added)[j] == ours[b]);
    }
    assert forall|i: int, j: int|
        0 <= i < j < added.len() && (#[trigger] added[j]).after is None implies (
    #[trigger] added[i]).after is None by {
        let (a, b) = lemma_addition_order(ours, walk, n, i, j);
        let p = lemma_anchor_before(ours, walk, a);
        let q = lemma_anchor_before(ours, walk, b);
    }
    assert forall|i: int, j: int|
        0 <= i < added.len() && 0 <= j < added.len() && (#[trigger] added[i]).after is Some implies added[i].after->0
        != lists::norm_of((#[trigger] added[j]).entry) by {
        let a = lemma_addition_source(ours, walk, n, i);
        let b = lemma_addition_source(ours, walk, n, j);
        let p = lemma_anchor_before(ours, walk, a);
        assert(p != b);
        if p < b {
            assert(lists::norm_of(ours[p]) != lists::norm_of(ours[b]));
        } else {
            assert(lists::norm_of(ours[b]) != lists::norm_of(ours[p]));
        }
    }
}

/// Some of the additions can be put back where all can.
pub(crate) proof fn lemma_can_rebase_filter(
    theirs: Seq<Seq<char>>,
    list: Seq<Seq<char>>,
    added: Seq<Addition>,
    p: spec_fn(Addition) -> bool,
)
    requires
        can_rebase(theirs, list, added),
    ensures
        can_rebase(theirs, list, added.filter(p)),
{
    let f = added.filter(p);
    lemma_entries_distinct(added, p);
    assert forall|i: int, j: int|
        0 <= i < j < f.len() && (#[trigger] f[j]).after is None implies (
    #[trigger] f[i]).after is None by {
        let (a, b) = text::lemma_filter_order(added, p, i, j);
        assert(added[a] == f[i] && added[b] == f[j]);
    }
    assert forall|i: int, j: int|
        0 <= i < f.len() && 0 <= j < f.len() && (#[trigger] f[i]).after is Some implies f[i].after->0
        != lists::norm_of((#[trigger] f[j]).entry) by {
        let a = text::lemma_filter_source(added, p, i);
        let b = text::lemma_filter_source(added, p, j);
        assert(added[a] == f[i] && added[b] == f[j]);
    }
}

/// The additions that no family supersedes, as one filter.
pub(crate) proof fn lemma_unsuperseded(families: Seq<FamilyModel>, list: Seq<Seq<char>>, added: Seq<Addition>)
    ensures
        merge::unsuperseded(families, list, added) == added.filter(
            |a: Addition| !merge::superseded(families, list, a.entry),
        ),
    decreases families.len(),
{
    let keep = |a: Addition| !merge::superseded(families, list, a.entry);
    if families.len() == 0 {
        text::lemma_filter_agrees(added, keep, |a: Addition| true);
        text::lemma_filter_all(added);
    } else {
        let fewer = families.drop_last();
        let last = families.last();
        lemma_unsuperseded(fewer, list, added);
        let p = |a: Addition| !merge::superseded(fewer, list, a.entry);
        let q = |a: Addition| !last.members.contains(lists::norm_of(a.entry));
        assert forall|a: Addition| #[trigger] keep(a) == (p(a) && (q(a) || !merge::represented(
            last,
            list,
        ))) by {
            if merge::superseded(fewer, list, a.entry) {
                let i = choose|i: int|
                    0 <= i < fewer.len() && merge::represented(#[trigger] fewer[i], list)
                        && fewer[i].members.contains(lists::norm_of(a.entry));
                assert(families[i] == fewer[i]);
            }
            if !q(a) && merge::represented(last, list) {
                assert(merge::represented(families[families.len() - 1], list));
            }
            if merge::superseded(families, list, a.entry) {
                let i = choose|i: int|
                    0 <= i < families.len() && merge::represented(#[trigger] families[i], list)
                        && families[i].members.contains(lists::norm_of(a.entry));
                if i < fewer.len() {
                    assert(fewer[i] == families[i]);
                }
            }
        }
        if merge::represented(last, list) {
            lemma_filter_twice(added, p, q);
            text::lemma_filter_agrees(added, |a: Addition| p(a) && q(a), keep);
        } else {
            text::lemma_filter_agrees(added, p, keep);
        }
    }
}

// --- the merge ----------------------------------------------------------------

/// The local additions that a merge keeps: those that no family supersedes.
pub open spec fn kept_additions(
    base: Seq<Seq<char>>,
    ours: Seq<Seq<char>>,
    theirs: Seq<Seq<char>>,
    families: Seq<FamilyModel>,
) -> Seq<Addition> {
    merge::local_additions(base, ours).filter(
        |a: Addition|
            !merge::superseded(families, merge::surviving(base, ours, theirs), a.entry),
    )
}

/// What is left of a distinct incoming list can take the additions.
pub(crate) proof fn lemma_merge_can_rebase(
    base: Seq<Seq<char>>,
    ours: Seq<Seq<char>>,
    theirs: Seq<Seq<char>>,
    families: Seq<FamilyModel>,
)
    requires
        list_laws::distinct(ours),
        list_laws::distinct(theirs),
    ensures
        can_rebase(
            theirs,
            merge::surviving(base, ours, theirs),
            kept_additions(base, ours, theirs, families),
        ),
{
    let start = merge::surviving(base, ours, theirs);
    let left = |e: Seq<char>| !merge::removed_here(base, ours, lists::norm_of(e));
    list_laws::lemma_distinct_filter(theirs, left);
    assert forall|n: Seq<char>| #[trigger] merge::holds(start, n) implies merge::holds(theirs, n) by {
        list_laws::lemma_holds_filter(theirs, left, |n: Seq<char>| !merge::removed_here(base, ours, n), n);
    }
    lemma_additions_rebase(
        theirs,
        start,
        ours,
        lists::common_walk(lists::norms_of(base), lists::norms_of(ours), 0, 0),
    );
    lemma_can_rebase_filter(
        theirs,
        start,
        merge::local_additions(base, ours),
        |a: Addition| !merge::superseded(families, start, a.entry),
    );
}

/// A merged list is: the entries that were prepended here; then the entries
/// whose anchor is gone; then what survives of the incoming list, each entry
/// with the local additions behind it. What was prepended does not occur again
/// further down.
pub proof fn merged_list_is_the_layout(
    base: Seq<Seq<char>>,
    ours: Seq<Seq<char>>,
    theirs: Seq<Seq<char>>,
    families: Seq<FamilyModel>,
)
    ensures
        ({
            let b = lists::deduped(base);
            let o = lists::deduped(ours);
            let t = lists::deduped(theirs);
            merge::merged(base, ours, theirs, families).list == layout(
                t,
                merge::surviving(b, o, t),
                kept_additions(b, o, t, families),
            )
        }),
        list_laws::distinct(merge::merged(base, ours, theirs, families).list),
{
    let b = lists::deduped(base);
    let o = lists::deduped(ours);
    let t = lists::deduped(theirs);
    list_laws::dedup_leaves_no_repeats(ours);
    list_laws::dedup_leaves_no_repeats(theirs);
    let start = merge::surviving(b, o, t);
    let added = merge::local_additions(b, o);
    let kept = kept_additions(b, o, t, families);
    lemma_merge_can_rebase(b, o, t, families);
    lemma_unsuperseded(families, start, added);
    let m = MergedModel {
        list: start,
        notes: merge::removal_notes(b, o, t) + merge::eviction_notes(families, start, added),
    };
    put_back_gives_the_layout(t, m, kept);
    lemma_layout_distinct(t, start, kept);
    list_laws::dedup_keeps_distinct_lists(layout(t, start, kept));
}

// --- what a merged list holds -------------------------------------------------

pub(crate) proof fn lemma_laid_out_covers(
    theirs: Seq<Seq<char>>,
    list: Seq<Seq<char>>,
    added: Seq<Addition>,
    n: Seq<char>,
)
    requires
        merge::holds(list, n),
    ensures
        merge::holds(laid_out(theirs, list, added), n),
    decreases list.len(),
{
    let i = list_laws::lemma_holds_at(list, n);
    let before = list.drop_last();
    let last = seq![list.last()];
    let l = laid_out(theirs, before, added);
    let f = followers(theirs, added, lists::norm_of(list.last()));
    assert(laid_out(theirs, list, added) =~= l + last + f);
    list_laws::lemma_holds_add(l + last, f, n);
    list_laws::lemma_holds_add(l, last, n);
    if i == list.len() - 1 {
        list_laws::lemma_holds_entry(last, 0);
    } else {
        list_laws::lemma_holds_entry(before, i);
        lemma_laid_out_covers(theirs, before, added, n);
    }
}

pub(crate) proof fn lemma_entries_cover(added: Seq<Addition>, p: spec_fn(Addition) -> bool, k: int)
    requires
        0 <= k < added.len(),
        p(added[k]),
    ensures
        merge::holds(entries(added.filter(p)), lists::norm_of(added[k].entry)),
{
    let f = added.filter(p);
    added.lemma_filter_contains(p, k);
    let j = choose|j: int| 0 <= j < f.len() && f[j] == added[k];
    assert(entries(f)[j] == added[k].entry);
    list_laws::lemma_holds_entry(entries(f), j);
}

pub(crate) proof fn lemma_follower_is_laid_out(
    theirs: Seq<Seq<char>>,
    list: Seq<Seq<char>>,
    added: Seq<Addition>,
    k: int,
)
    requires
        placed_at(theirs, list, added, lists::norm_of(added[k].entry), k),
    ensures
        merge::holds(laid_out(theirs, list, added), lists::norm_of(added[k].entry)),
    decreases list.len(),
{
    let x = added[k].after->0;
    let n = lists::norm_of(added[k].entry);
    let i = list_laws::lemma_holds_at(list, x);
    let before = list.drop_last();
    let last = seq![list.last()];
    let m = lists::norm_of(list.last());
    let l = laid_out(theirs, before, added);
    let f = followers(theirs, added, m);
    assert(laid_out(theirs, list, added) =~= l + last + f);
    list_laws::lemma_holds_add(l + last, f, n);
    list_laws::lemma_holds_add(l, last, n);
    if m == x {
        lemma_entries_cover(
            added,
            |y: Addition| y.after == Some(m) && !merge::holds(theirs, lists::norm_of(y.entry)),
            k,
        );
    } else {
        assert(i < before.len());
        list_laws::lemma_holds_entry(before, i);
        lemma_follower_is_laid_out(theirs, before, added, k);
    }
}

/// A layout holds what the list holds and what the additions hold, as long as
/// additions that the incoming list has are in the list.
pub(crate) proof fn lemma_layout_holds(
    theirs: Seq<Seq<char>>,
    list: Seq<Seq<char>>,
    added: Seq<Addition>,
    n: Seq<char>,
)
    requires
        merge::holds(entries(added), n) && merge::holds(theirs, n) ==> merge::holds(list, n),
    ensures
        merge::holds(layout(theirs, list, added), n) <==> merge::holds(list, n) || merge::holds(
            entries(added),
            n,
        ),
{
    let h = heads(added);
    let s = strays(theirs, list, added);
    let l = laid_out(theirs, list, added);
    let b = s + l;
    let is_head = |a: Addition| a.after is None;
    let stray = |a: Addition|
        a.after is Some && !merge::holds(theirs, lists::norm_of(a.entry)) && !merge::holds(
            list,
            a.after->0,
        );
    let keep = |e: Seq<char>| !merge::holds(h, lists::norm_of(e));
    list_laws::lemma_holds_add(h, b.filter(keep), n);
    list_laws::lemma_holds_filter(b, keep, |x: Seq<char>| !merge::holds(h, x), n);
    list_laws::lemma_holds_add(s, l, n);
    if merge::holds(h, n) {
        let k = lemma_entries_held(added, is_head, n);
    } else if merge::holds(b, n) {
        lemma_body_holds(theirs, list, added, n);
    }
    if merge::holds(list, n) {
        lemma_laid_out_covers(theirs, list, added, n);
    } else if merge::holds(entries(added), n) {
        let k = list_laws::lemma_holds_at(entries(added), n);
        let a = added[k];
        if a.after is None {
            lemma_entries_cover(added, is_head, k);
        } else if merge::holds(list, a.after->0) {
            lemma_follower_is_laid_out(theirs, list, added, k);
        } else {
            lemma_entries_cover(added, stray, k);
        }
    }
}

/// Local additions come from the live list.
pub(crate) proof fn lemma_added_is_ours(base: Seq<Seq<char>>, ours: Seq<Seq<char>>, n: Seq<char>)
    requires
        merge::holds(entries(merge::local_additions(base, ours)), n),
    ensures
        merge::holds(ours, n),
{
    let walk = lists::common_walk(lists::norms_of(base), lists::norms_of(ours), 0, 0);
    let k = list_laws::lemma_holds_at(entries(merge::local_additions(base, ours)), n);
    let i = lemma_addition_source(ours, walk, ours.len() as int, k);
    list_laws::lemma_holds_entry(ours, i);
}

/// What a merged list holds: the incoming entries that were not removed here,
/// and the local additions that no family supersedes.
pub proof fn merged_list_holds(
    base: Seq<Seq<char>>,
    ours: Seq<Seq<char>>,
    theirs: Seq<Seq<char>>,
    families: Seq<FamilyModel>,
    n: Seq<char>,
)
    ensures
        merge::holds(merge::merged(base, ours, theirs, families).list, n) <==> (merge::holds(
            theirs,
            n,
        ) && !merge::removed_here(base, ours, n)) || merge::holds(
            entries(
                kept_additions(
                    lists::deduped(base),
                    lists::deduped(ours),
                    lists::deduped(theirs),
                    families,
                ),
            ),
            n,
        ),
{
    let b = lists::deduped(base);
    let o = lists::deduped(ours);
    let t = lists::deduped(theirs);
    let start = merge::surviving(b, o, t);
    let kept = kept_additions(b, o, t, families);
    list_laws::dedup_keeps_what_is_held(base, n);
    list_laws::dedup_keeps_what_is_held(ours, n);
    list_laws::dedup_keeps_what_is_held(theirs, n);
    merged_list_is_the_layout(base, ours, theirs, families);
    list_laws::lemma_holds_filter(
        t,
        |e: Seq<char>| !merge::removed_here(b, o, lists::norm_of(e)),
        |x: Seq<char>| !merge::removed_here(b, o, x),
        n,
    );
    if merge::holds(entries(kept), n) {
        let k = lemma_entries_held(
            merge::local_additions(b, o),
            |a: Addition| !merge::superseded(families, start, a.entry),
            n,
        );
        lemma_added_is_ours(b, o, n);
    }
    lemma_layout_holds(t, start, kept, n);
}

/// What was removed by hand stays removed.
pub proof fn local_removals_stay_removed(
    base: Seq<Seq<char>>,
    ours: Seq<Seq<char>>,
    theirs: Seq<Seq<char>>,
    families: Seq<FamilyModel>,
    n: Seq<char>,
)
    requires
        merge::removed_here(base, ours, n),
    ensures
        !merge::holds(merge::merged(base, ours, theirs, families).list, n),
{
    let b = lists::deduped(base);
    let o = lists::deduped(ours);
    let t = lists::deduped(theirs);
    merged_list_holds(base, ours, theirs, families, n);
    if merge::holds(entries(kept_additions(b, o, t, families)), n) {
        let k = lemma_entries_held(
            merge::local_additions(b, o),
            |a: Addition| !merge::superseded(families, merge::surviving(b, o, t), a.entry),
            n,
        );
        lemma_added_is_ours(b, o, n);
        list_laws::dedup_keeps_what_is_held(ours, n);
    }
}

/// What is incoming and was not removed here arrives.
pub proof fn incoming_entries_arrive(
    base: Seq<Seq<char>>,
    ours: Seq<Seq<char>>,
    theirs: Seq<Seq<char>>,
    families: Seq<FamilyModel>,
    n: Seq<char>,
)
    requires
        merge::holds(theirs, n),
        !merge::removed_here(base, ours, n),
    ensures
        merge::holds(merge::merged(base, ours, theirs, families).list, n),
{
    merged_list_holds(base, ours, theirs, families, n);
}

/// An entry at place `i` that the longest common subsequence does not pass
/// through is a local addition.
pub(crate) proof fn lemma_local_addition(base: Seq<Seq<char>>, ours: Seq<Seq<char>>, n: Seq<char>) -> (k: int)
    requires
        merge::holds(ours, n),
        !merge::holds(base, n),
    ensures
        0 <= k < merge::local_additions(base, ours).len(),
        lists::norm_of(merge::local_additions(base, ours)[k].entry) == n,
{
    let x = lists::norms_of(base);
    let y = lists::norms_of(ours);
    let walk = lists::common_walk(x, y, 0, 0);
    let i = list_laws::lemma_holds_at(ours, n);
    lists::common_walk_is_common(x, y, 0, 0);
    if merge::anchored(walk, i) {
        let q = choose|q: int| 0 <= q < walk.len() && (#[trigger] walk[q]).1 == i;
        assert(x[walk[q].0] == y[walk[q].1]);
        list_laws::lemma_holds_entry(base, walk[q].0);
    }
    lemma_addition_at(ours, walk, ours.len() as int, i)
}

/// What was added by hand stays, unless a family supersedes it: the incoming
/// list has another member of a family that it belongs to.
pub proof fn local_additions_stay(
    base: Seq<Seq<char>>,
    ours: Seq<Seq<char>>,
    theirs: Seq<Seq<char>>,
    families: Seq<FamilyModel>,
    e: Seq<char>,
)
    requires
        merge::holds(ours, lists::norm_of(e)),
        !merge::holds(base, lists::norm_of(e)),
        !merge::superseded(
            families,
            merge::surviving(lists::deduped(base), lists::deduped(ours), lists::deduped(theirs)),
            e,
        ),
    ensures
        merge::holds(merge::merged(base, ours, theirs, families).list, lists::norm_of(e)),
{
    let n = lists::norm_of(e);
    let b = lists::deduped(base);
    let o = lists::deduped(ours);
    let t = lists::deduped(theirs);
    let start = merge::surviving(b, o, t);
    list_laws::dedup_keeps_what_is_held(base, n);
    list_laws::dedup_keeps_what_is_held(ours, n);
    let k = lemma_local_addition(b, o, n);
    let added = merge::local_additions(b, o);
    lemma_superseded_by_form(families, start, e, added[k].entry);
    lemma_entries_cover(
        added,
        |a: Addition| !merge::superseded(families, start, a.entry),
        k,
    );
    merged_list_holds(base, ours, theirs, families, n);
}

/// Whether a family supersedes an entry depends on its compared form alone.
pub(crate) proof fn lemma_superseded_by_form(
    families: Seq<FamilyModel>,
    list: Seq<Seq<char>>,
    d: Seq<char>,
    e: Seq<char>,
)
    requires
        lists::norm_of(d) == lists::norm_of(e),
    ensures
        merge::superseded(families, list, d) == merge::superseded(families, list, e),
{
    if merge::superseded(families, list, d) {
        let i = choose|i: int|
            0 <= i < families.len() && merge::represented(#[trigger] families[i], list)
                && families[i].members.contains(lists::norm_of(d));
        assert(families[i].members.contains(lists::norm_of(e)));
    }
    if merge::superseded(families, list, e) {
        let i = choose|i: int|
            0 <= i < families.len() && merge::represented(#[trigger] families[i], list)
                && families[i].members.contains(lists::norm_of(e));
        assert(families[i].members.contains(lists::norm_of(d)));
    }
}

/// What the incoming list no longer has goes, unless it is a local addition.
pub proof fn dropped_upstream_is_dropped(
    base: Seq<Seq<char>>,
    ours: Seq<Seq<char>>,
    theirs: Seq<Seq<char>>,
    families: Seq<FamilyModel>,
    n: Seq<char>,
)
    requires
        !merge::holds(theirs, n),
        !merge::holds(
            entries(merge::local_additions(lists::deduped(base), lists::deduped(ours))),
            n,
        ),
    ensures
        !merge::holds(merge::merged(base, ours, theirs, families).list, n),
{
    let b = lists::deduped(base);
    let o = lists::deduped(ours);
    let t = lists::deduped(theirs);
    merged_list_holds(base, ours, theirs, families, n);
    if merge::holds(entries(kept_additions(b, o, t, families)), n) {
        let k = lemma_entries_held(
            merge::local_additions(b, o),
            |a: Addition| !merge::superseded(families, merge::surviving(b, o, t), a.entry),
            n,
        );
    }
}

// --- order --------------------------------------------------------------------

/// A filter that passes nothing leaves nothing.
pub(crate) proof fn lemma_filter_none<T>(v: Seq<T>, p: spec_fn(T) -> bool)
    requires
        forall|i: int| 0 <= i < v.len() ==> !p(#[trigger] v[i]),
    ensures
        v.filter(p) == Seq::<T>::empty(),
{
    if v.filter(p).len() > 0 {
        let j = text::lemma_filter_source(v, p, 0);
    }
    assert(v.filter(p) =~= Seq::<T>::empty());
}

/// Which additions were prepended: the entries before the first anchor.
pub(crate) proof fn lemma_heads_are_a_prefix(
    ours: Seq<Seq<char>>,
    walk: Seq<(int, int)>,
    first: int,
    n: int,
)
    requires
        0 <= first <= ours.len(),
        0 <= n <= ours.len(),
        forall|i: int| 0 <= i < first ==> !#[trigger] merge::anchored(walk, i),
        first < ours.len() ==> merge::anchored(walk, first),
    ensures
        heads(merge::additions(ours, walk, n)) == ours.take(if n < first { n } else { first }),
    decreases n,
{
    let is_head = |a: Addition| a.after is None;
    let added = merge::additions(ours, walk, n);
    reveal(Seq::filter);
    if n == 0 {
        assert(heads(added) =~= ours.take(0));
    } else {
        lemma_heads_are_a_prefix(ours, walk, first, n - 1);
        if !merge::anchored(walk, n - 1) {
            let before = merge::additions(ours, walk, n - 1);
            let a = Addition {
                entry: ours[n - 1],
                after: merge::anchor_before(ours, walk, n - 1),
            };
            let p = lemma_anchor_before(ours, walk, n - 1);
            assert(added == before.push(a));
            assert(added.drop_last() =~= before);
            if n - 1 < first {
                assert(added.filter(is_head) == before.filter(is_head).push(a));
                assert(entries(before.filter(is_head).push(a)) =~= entries(
                    before.filter(is_head),
                ).push(a.entry));
                assert(ours.take(n) =~= ours.take(n - 1).push(ours[n - 1]));
            } else {
                assert(first < n - 1);
                assert(added.filter(is_head) == before.filter(is_head));
            }
        }
    }
}

/// To choose among additions by their entry is to choose among the entries.
pub(crate) proof fn lemma_heads_filter(added: Seq<Addition>, p: spec_fn(Seq<char>) -> bool)
    ensures
        heads(added.filter(|a: Addition| p(a.entry))) == heads(added).filter(p),
    decreases added.len(),
{
    reveal(Seq::filter);
    let keep = |a: Addition| p(a.entry);
    let is_head = |a: Addition| a.after is None;
    if added.len() == 0 {
        assert(heads(added.filter(keep)) =~= heads(added).filter(p));
    } else {
        let before = added.drop_last();
        let a = added.last();
        lemma_heads_filter(before, p);
        if keep(a) {
            assert(before.filter(keep).push(a).drop_last() =~= before.filter(keep));
        }
        if is_head(a) {
            assert(entries(before.filter(is_head).push(a)) =~= heads(before).push(a.entry));
            assert(heads(before).push(a.entry).drop_last() =~= heads(before));
            if keep(a) {
                let kept = before.filter(keep).filter(is_head);
                assert(entries(kept.push(a)) =~= entries(kept).push(a.entry));
            }
        }
    }
}

/// A local prepend stays a prepend: the entries before the first anchor, in
/// their order, begin the merged list, whatever the incoming list does. Only
/// those that a family supersedes are missing.
pub proof fn prepends_stay_prepended(
    base: Seq<Seq<char>>,
    ours: Seq<Seq<char>>,
    theirs: Seq<Seq<char>>,
    families: Seq<FamilyModel>,
    first: int,
)
    requires
        ({
            let b = lists::deduped(base);
            let o = lists::deduped(ours);
            let walk = lists::common_walk(lists::norms_of(b), lists::norms_of(o), 0, 0);
            &&& 0 <= first <= o.len()
            &&& forall|i: int| 0 <= i < first ==> !#[trigger] merge::anchored(walk, i)
            &&& first < o.len() ==> merge::anchored(walk, first)
        }),
    ensures
        ({
            let b = lists::deduped(base);
            let o = lists::deduped(ours);
            let t = lists::deduped(theirs);
            o.take(first).filter(
                |e: Seq<char>| !merge::superseded(families, merge::surviving(b, o, t), e),
            ).is_prefix_of(merge::merged(base, ours, theirs, families).list)
        }),
{
    let b = lists::deduped(base);
    let o = lists::deduped(ours);
    let t = lists::deduped(theirs);
    let walk = lists::common_walk(lists::norms_of(b), lists::norms_of(o), 0, 0);
    let start = merge::surviving(b, o, t);
    let keep = |e: Seq<char>| !merge::superseded(families, start, e);
    let added = merge::local_additions(b, o);
    merged_list_is_the_layout(base, ours, theirs, families);
    lemma_heads_are_a_prefix(o, walk, first, o.len() as int);
    lemma_heads_filter(added, keep);
    assert((|a: Addition| !merge::superseded(families, start, a.entry)) =~= (|a: Addition|
        keep(a.entry)));
}

pub(crate) proof fn lemma_laid_out_incoming(
    theirs: Seq<Seq<char>>,
    list: Seq<Seq<char>>,
    added: Seq<Addition>,
)
    requires
        forall|n: Seq<char>| #[trigger] merge::holds(list, n) ==> merge::holds(theirs, n),
    ensures
        laid_out(theirs, list, added).filter(
            |e: Seq<char>| merge::holds(theirs, lists::norm_of(e)),
        ) == list,
    decreases list.len(),
{
    let known = |e: Seq<char>| merge::holds(theirs, lists::norm_of(e));
    if list.len() == 0 {
        lemma_filter_none(laid_out(theirs, list, added), known);
        assert(list =~= Seq::<Seq<char>>::empty());
    } else {
        let before = list.drop_last();
        let last = seq![list.last()];
        let m = lists::norm_of(list.last());
        let l = laid_out(theirs, before, added);
        let f = followers(theirs, added, m);
        let p = |a: Addition| a.after == Some(m) && !merge::holds(theirs, lists::norm_of(a.entry));
        assert forall|n: Seq<char>| #[trigger] merge::holds(before, n) implies merge::holds(
            theirs,
            n,
        ) by {
            let i = list_laws::lemma_holds_at(before, n);
            list_laws::lemma_holds_entry(list, i);
            assert(merge::holds(list, n));
        }
        lemma_laid_out_incoming(theirs, before, added);
        list_laws::lemma_holds_entry(list, list.len() - 1);
        assert(merge::holds(theirs, m));
        assert forall|i: int| 0 <= i < f.len() implies !known(#[trigger] f[i]) by {
            let j = text::lemma_filter_source(added, p, i);
        }
        lemma_filter_none(f, known);
        assert(laid_out(theirs, list, added) =~= l.push(list.last()) + f);
        Seq::filter_distributes_over_add(l.push(list.last()), f, known);
        l.lemma_filter_push(list.last(), known);
        assert(before.push(list.last()) =~= list);
    }
}

/// The incoming part of a layout's body is the list.
pub(crate) proof fn lemma_body_incoming(theirs: Seq<Seq<char>>, list: Seq<Seq<char>>, added: Seq<Addition>)
    requires
        forall|n: Seq<char>| #[trigger] merge::holds(list, n) ==> merge::holds(theirs, n),
    ensures
        body(theirs, list, added).filter(|e: Seq<char>| merge::holds(theirs, lists::norm_of(e)))
            == list,
{
    let known = |e: Seq<char>| merge::holds(theirs, lists::norm_of(e));
    let s = strays(theirs, list, added);
    let stray = |a: Addition|
        a.after is Some && !merge::holds(theirs, lists::norm_of(a.entry)) && !merge::holds(
            list,
            a.after->0,
        );
    assert forall|i: int| 0 <= i < s.len() implies !known(#[trigger] s[i]) by {
        let j = text::lemma_filter_source(added, stray, i);
    }
    lemma_filter_none(s, known);
    lemma_laid_out_incoming(theirs, list, added);
    Seq::filter_distributes_over_add(s, laid_out(theirs, list, added), known);
    assert(Seq::<Seq<char>>::empty() + list =~= list);
}

/// The incoming part of a layout, without what was prepended.
pub(crate) proof fn lemma_layout_incoming(theirs: Seq<Seq<char>>, list: Seq<Seq<char>>, added: Seq<Addition>)
    requires
        forall|n: Seq<char>| #[trigger] merge::holds(list, n) ==> merge::holds(theirs, n),
    ensures
        layout(theirs, list, added).filter(
            |e: Seq<char>|
                merge::holds(theirs, lists::norm_of(e)) && !merge::holds(
                    heads(added),
                    lists::norm_of(e),
                ),
        ) == list.filter(|e: Seq<char>| !merge::holds(heads(added), lists::norm_of(e))),
{
    let h = heads(added);
    let b = body(theirs, list, added);
    let known = |e: Seq<char>| merge::holds(theirs, lists::norm_of(e));
    let keep = |e: Seq<char>| !merge::holds(h, lists::norm_of(e));
    let both = |e: Seq<char>|
        merge::holds(theirs, lists::norm_of(e)) && !merge::holds(h, lists::norm_of(e));
    Seq::filter_distributes_over_add(h, b.filter(keep), both);
    assert forall|i: int| 0 <= i < h.len() implies !both(#[trigger] h[i]) by {
        list_laws::lemma_holds_entry(h, i);
    }
    lemma_filter_none(h, both);
    lemma_filter_twice(b, keep, both);
    lemma_filter_twice(b, known, keep);
    text::lemma_filter_agrees(
        b,
        |e: Seq<char>| keep(e) && both(e),
        |e: Seq<char>| known(e) && keep(e),
    );
    lemma_body_incoming(theirs, list, added);
    assert(Seq::<Seq<char>>::empty() + list.filter(keep) =~= list.filter(keep));
}

/// The incoming order is kept: the incoming entries that were not prepended
/// here come in the order of the incoming list.
pub proof fn incoming_order_is_kept(
    base: Seq<Seq<char>>,
    ours: Seq<Seq<char>>,
    theirs: Seq<Seq<char>>,
    families: Seq<FamilyModel>,
)
    ensures
        ({
            let b = lists::deduped(base);
            let o = lists::deduped(ours);
            let t = lists::deduped(theirs);
            let first = heads(kept_additions(b, o, t, families));
            merge::merged(base, ours, theirs, families).list.filter(
                |e: Seq<char>|
                    merge::holds(t, lists::norm_of(e)) && !merge::holds(first, lists::norm_of(e)),
            ) == merge::surviving(b, o, t).filter(
                |e: Seq<char>| !merge::holds(first, lists::norm_of(e)),
            )
        }),
{
    let b = lists::deduped(base);
    let o = lists::deduped(ours);
    let t = lists::deduped(theirs);
    merged_list_is_the_layout(base, ours, theirs, families);
    list_laws::dedup_leaves_no_repeats(ours);
    list_laws::dedup_leaves_no_repeats(theirs);
    lemma_merge_can_rebase(b, o, t, families);
    lemma_layout_incoming(t, merge::surviving(b, o, t), kept_additions(b, o, t, families));
}

/// `list` around place `i`.
pub(crate) proof fn lemma_laid_out_around(
    theirs: Seq<Seq<char>>,
    list: Seq<Seq<char>>,
    added: Seq<Addition>,
    i: int,
) -> (rest: Seq<Seq<char>>)
    requires
        0 <= i < list.len(),
    ensures
        laid_out(theirs, list, added) == laid_out(theirs, list.take(i), added) + (seq![list[i]]
            + followers(theirs, added, lists::norm_of(list[i])) + rest),
    decreases list.len(),
{
    let l = laid_out(theirs, list.drop_last(), added);
    let f = followers(theirs, added, lists::norm_of(list.last()));
    if i == list.len() - 1 {
        assert(list.take(i) =~= list.drop_last());
        let rest = Seq::<Seq<char>>::empty();
        assert(laid_out(theirs, list, added) =~= l + (seq![list[i]] + f + rest));
        rest
    } else {
        let short = lemma_laid_out_around(theirs, list.drop_last(), added, i);
        assert(list.drop_last().take(i) =~= list.take(i));
        let rest = short.push(list.last()) + f;
        let g = followers(theirs, added, lists::norm_of(list[i]));
        assert(laid_out(theirs, list, added) =~= laid_out(theirs, list.take(i), added) + (
        seq![list[i]] + g + rest));
        rest
    }
}

/// An insertion follows its anchor: a local addition that the incoming list
/// does not have stands behind its anchor, wherever the incoming list has put
/// the anchor, with nothing in between but other local additions.
pub proof fn insertions_follow_their_anchor(
    base: Seq<Seq<char>>,
    ours: Seq<Seq<char>>,
    theirs: Seq<Seq<char>>,
    families: Seq<FamilyModel>,
    k: int,
) -> (at: (int, int))
    requires
        ({
            let b = lists::deduped(base);
            let o = lists::deduped(ours);
            let t = lists::deduped(theirs);
            let kept = kept_additions(b, o, t, families);
            &&& 0 <= k < kept.len()
            &&& kept[k].after is Some
            &&& !merge::holds(t, lists::norm_of(kept[k].entry))
            &&& merge::holds(merge::surviving(b, o, t), kept[k].after->0)
        }),
    ensures
        ({
            let t = lists::deduped(theirs);
            let kept = kept_additions(lists::deduped(base), lists::deduped(ours), t, families);
            let list = merge::merged(base, ours, theirs, families).list;
            &&& 0 <= at.0 < at.1 < list.len()
            &&& lists::norm_of(list[at.0]) == kept[k].after->0
            &&& list[at.1] == kept[k].entry
            &&& forall|r: int|
                at.0 < r < at.1 ==> !merge::holds(t, lists::norm_of(#[trigger] list[r]))
        }),
{
    let b = lists::deduped(base);
    let o = lists::deduped(ours);
    let t = lists::deduped(theirs);
    let start = merge::surviving(b, o, t);
    let kept = kept_additions(b, o, t, families);
    list_laws::dedup_leaves_no_repeats(ours);
    list_laws::dedup_leaves_no_repeats(theirs);
    merged_list_is_the_layout(base, ours, theirs, families);
    lemma_merge_can_rebase(b, o, t, families);
    let x = kept[k].after->0;
    let i = list_laws::lemma_holds_at(start, x);
    let rest = lemma_laid_out_around(t, start, kept, i);
    let h = heads(kept);
    let keep = |e: Seq<char>| !merge::holds(h, lists::norm_of(e));
    let front = strays(t, start, kept) + laid_out(t, start.take(i), kept);
    let anchor = seq![start[i]];
    let f = followers(t, kept, x);
    let p = |a: Addition| a.after == Some(x) && !merge::holds(t, lists::norm_of(a.entry));
    let is_head = |a: Addition| a.after is None;
    assert(body(t, start, kept) =~= front + (anchor + f + rest));
    Seq::filter_distributes_over_add(front, anchor + f + rest, keep);
    Seq::filter_distributes_over_add(anchor + f, rest, keep);
    Seq::filter_distributes_over_add(anchor, f, keep);
    // Neither the anchor nor what follows it was prepended.
    if merge::holds(h, x) {
        let j = lemma_entries_held(kept, is_head, x);
    }
    text::lemma_filter_agrees(anchor, keep, |e: Seq<char>| true);
    text::lemma_filter_all(anchor);
    assert forall|q: int| 0 <= q < f.len() implies keep(#[trigger] f[q]) && !merge::holds(
        t,
        lists::norm_of(f[q]),
    ) by {
        let c = text::lemma_filter_source(kept, p, q);
        if merge::holds(h, lists::norm_of(f[q])) {
            let d = lemma_entries_held(kept, is_head, lists::norm_of(f[q]));
            lemma_same_addition(kept, c, d);
        }
    }
    text::lemma_filter_agrees(f, keep, |e: Seq<char>| true);
    text::lemma_filter_all(f);
    kept.lemma_filter_contains(p, k);
    let g = kept.filter(p);
    let q = choose|q: int| 0 <= q < g.len() && g[q] == kept[k];
    assert(f[q] == kept[k].entry);
    let list = layout(t, start, kept);
    let lead = h + front.filter(keep);
    assert(list =~= lead + (anchor + f + rest.filter(keep)));
    let at = lead.len() as int;
    assert(list[at] == start[i]);
    assert forall|r: int| at < r < at + 1 + q implies !merge::holds(
        t,
        lists::norm_of(#[trigger] list[r]),
    ) by {
        assert(list[r] == f[r - at - 1]);
    }
    assert(list[at + 1 + q] == f[q]);
    (at, at + 1 + q)
}

// --- no local edits -----------------------------------------------------------

pub(crate) proof fn lemma_walk_along_itself(x: Seq<Seq<char>>, i: int, j: int)
    requires
        0 <= i <= j < x.len(),
    ensures
        merge::anchored(lists::common_walk(x, x, i, i), j),
    decreases x.len() - i,
{
    let walk = lists::common_walk(x, x, i, i);
    assert(walk[0] == (i, i));
    if i < j {
        lemma_walk_along_itself(x, i + 1, j);
        let rest = lists::common_walk(x, x, i + 1, i + 1);
        let q = choose|q: int| 0 <= q < rest.len() && (#[trigger] rest[q]).1 == j;
        assert(walk[q + 1] == rest[q]);
    }
}

/// Without local edits the incoming list is taken over as it is.
pub proof fn untouched_lists_fast_forward(
    base: Seq<Seq<char>>,
    ours: Seq<Seq<char>>,
    theirs: Seq<Seq<char>>,
    families: Seq<FamilyModel>,
)
    requires
        lists::norms_of(lists::deduped(ours)) == lists::norms_of(lists::deduped(base)),
    ensures
        merge::merged(base, ours, theirs, families).list == lists::deduped(theirs),
        merge::merged(base, ours, theirs, families).notes.len() == 0,
{
    let b = lists::deduped(base);
    let o = lists::deduped(ours);
    let t = lists::deduped(theirs);
    let x = lists::norms_of(b);
    let walk = lists::common_walk(x, x, 0, 0);
    let added = merge::local_additions(b, o);
    if added.len() > 0 {
        let i = lemma_addition_source(o, walk, o.len() as int, 0);
        lemma_walk_along_itself(x, 0, i);
    }
    assert(added =~= Seq::<Addition>::empty());
    let gone = |e: Seq<char>| merge::removed_here(b, o, lists::norm_of(e));
    let left = |e: Seq<char>| !merge::removed_here(b, o, lists::norm_of(e));
    lemma_filter_none(t, gone);
    text::lemma_filter_agrees(t, left, |e: Seq<char>| true);
    text::lemma_filter_all(t);
    let start = merge::surviving(b, o, t);
    assert(start == t);
    lemma_unsuperseded(families, start, added);
    lemma_filter_none(added, |a: Addition| !merge::superseded(families, start, a.entry));
    lemma_no_evictions(families, start);
    list_laws::dedup_leaves_no_repeats(theirs);
    list_laws::dedup_keeps_distinct_lists(t);
}

pub(crate) proof fn lemma_no_evictions(families: Seq<FamilyModel>, list: Seq<Seq<char>>)
    ensures
        merge::eviction_notes(families, list, Seq::<Addition>::empty()).len() == 0,
    decreases families.len(),
{
    let none = Seq::<Addition>::empty();
    if families.len() > 0 {
        let fewer = families.drop_last();
        let last = families.last();
        lemma_no_evictions(fewer, list);
        lemma_unsuperseded(fewer, list, none);
        lemma_filter_none(none, |a: Addition| !merge::superseded(fewer, list, a.entry));
        lemma_filter_none(none, |a: Addition| last.members.contains(lists::norm_of(a.entry)));
    }
}

// --- notes --------------------------------------------------------------------

/// Putting additions back only adds notes, one for each that was hoisted or
/// whose anchor is gone.
pub(crate) proof fn lemma_notes_of_putting_back(
    theirs: Seq<Seq<char>>,
    list: Seq<Seq<char>>,
    ahead: Seq<Addition>,
    done: Seq<Addition>,
    m: MergedModel,
)
    requires
        can_rebase(theirs, list, ahead + done),
        m.list == layout(theirs, list, done),
    ensures
        ({
            let notes = merge::put_all_back(theirs, m, ahead).notes;
            &&& m.notes.is_prefix_of(notes)
            &&& forall|k: int|
                0 <= k < ahead.len() && (#[trigger] ahead[k]).after is None && merge::holds(
                    theirs,
                    lists::norm_of(ahead[k].entry),
                ) ==> notes.contains(merge::hoisted_note(ahead[k].entry))
            &&& forall|k: int|
                0 <= k < ahead.len() && (#[trigger] ahead[k]).after is Some && !merge::holds(
                    theirs,
                    lists::norm_of(ahead[k].entry),
                ) && !merge::holds(list, ahead[k].after->0) ==> notes.contains(
                    merge::orphan_note(ahead[k].entry, ahead[k].after->0),
                )
        }),
    decreases ahead.len(),
{
    if ahead.len() > 0 {
        let a = ahead.last();
        let rest = ahead.drop_last();
        let now = seq![a] + done;
        assert(ahead + done =~= rest + now);
        lemma_can_rebase_later(theirs, list, rest, now);
        let next = merge::put_back(theirs, m, a);
        if a.after is None {
            lemma_prepend_step(theirs, list, a, done, m);
        } else {
            lemma_insert_step(theirs, list, a, done, m);
            lemma_stray_has_no_place(theirs, list, a, done);
        }
        lemma_notes_of_putting_back(theirs, list, rest, now, next);
        let notes = merge::put_all_back(theirs, m, ahead).notes;
        assert forall|k: int|
            0 <= k < ahead.len() && (#[trigger] ahead[k]).after is None && merge::holds(
                theirs,
                lists::norm_of(ahead[k].entry),
            ) implies notes.contains(merge::hoisted_note(ahead[k].entry)) by {
            if k < rest.len() {
                assert(rest[k] == ahead[k]);
            } else {
                assert(next.notes[m.notes.len() as int] == merge::hoisted_note(a.entry));
                assert(notes[m.notes.len() as int] == next.notes[m.notes.len() as int]);
            }
        }
        assert forall|k: int|
            0 <= k < ahead.len() && (#[trigger] ahead[k]).after is Some && !merge::holds(
                theirs,
                lists::norm_of(ahead[k].entry),
            ) && !merge::holds(list, ahead[k].after->0) implies notes.contains(
            merge::orphan_note(ahead[k].entry, ahead[k].after->0),
        ) by {
            if k < rest.len() {
                assert(rest[k] == ahead[k]);
            } else {
                assert(next.notes[m.notes.len() as int] == merge::orphan_note(
                    a.entry,
                    a.after->0,
                ));
                assert(notes[m.notes.len() as int] == next.notes[m.notes.len() as int]);
            }
        }
    }
}

/// An anchor that the list does not have is nowhere in the layout.
pub(crate) proof fn lemma_stray_has_no_place(
    theirs: Seq<Seq<char>>,
    list: Seq<Seq<char>>,
    a: Addition,
    done: Seq<Addition>,
)
    requires
        can_rebase(theirs, list, seq![a] + done),
        a.after is Some,
    ensures
        !merge::holds(list, a.after->0) ==> merge::place_of(
            layout(theirs, list, done),
            a.after->0,
        ) is None,
{
    let x = a.after->0;
    lemma_anchor_is_no_addition(theirs, list, a, done);
    lemma_layout_without_heads(theirs, list, done);
    lemma_place_add(strays(theirs, list, done), laid_out(theirs, list, done), x);
    lemma_anchor_place(theirs, list, done, x);
}

pub(crate) proof fn lemma_eviction_noted(
    families: Seq<FamilyModel>,
    list: Seq<Seq<char>>,
    added: Seq<Addition>,
    k: int,
) -> (f: int)
    requires
        0 <= k < added.len(),
        merge::superseded(families, list, added[k].entry),
    ensures
        0 <= f < families.len(),
        merge::eviction_notes(families, list, added).contains(
            merge::evicted_note(added[k].entry, families[f].pattern),
        ),
    decreases families.len(),
{
    let fewer = families.drop_last();
    let last = families.last();
    let a = added[k];
    let notes = merge::eviction_notes(fewer, list, added);
    let all = merge::eviction_notes(families, list, added);
    if merge::superseded(fewer, list, a.entry) {
        let f = lemma_eviction_noted(fewer, list, added, k);
        let j = choose|j: int|
            0 <= j < notes.len() && notes[j] == merge::evicted_note(a.entry, fewer[f].pattern);
        assert(all[j] == notes[j]);
        f
    } else {
        let i = choose|i: int|
            0 <= i < families.len() && merge::represented(#[trigger] families[i], list)
                && families[i].members.contains(lists::norm_of(a.entry));
        if i < fewer.len() {
            assert(fewer[i] == families[i]);
        }
        assert(families[i] == last);
        lemma_unsuperseded(fewer, list, added);
        let before = merge::unsuperseded(fewer, list, added);
        let p = |x: Addition| !merge::superseded(fewer, list, x.entry);
        let goes = |x: Addition| last.members.contains(lists::norm_of(x.entry));
        let told = |x: Addition| merge::evicted_note(x.entry, last.pattern);
        added.lemma_filter_contains(p, k);
        let c = choose|c: int| 0 <= c < before.len() && before[c] == a;
        before.lemma_filter_contains(goes, c);
        let g = before.filter(goes);
        let d = choose|d: int| 0 <= d < g.len() && g[d] == a;
        assert(g.map_values(told)[d] == told(a));
        assert(all[notes.len() + d] == told(a));
        families.len() - 1
    }
}

/// Every entry that was not simply taken over is accounted for: each incoming
/// entry that stays deleted, each local addition that a family supersedes,
/// each prepend that the incoming list has further down, and each addition
/// whose anchor is gone has its note.
pub proof fn resolutions_are_noted(
    base: Seq<Seq<char>>,
    ours: Seq<Seq<char>>,
    theirs: Seq<Seq<char>>,
    families: Seq<FamilyModel>,
)
    ensures
        ({
            let b = lists::deduped(base);
            let o = lists::deduped(ours);
            let t = lists::deduped(theirs);
            let start = merge::surviving(b, o, t);
            let added = merge::local_additions(b, o);
            let notes = merge::merged(base, ours, theirs, families).notes;
            &&& forall|i: int|
                0 <= i < t.len() && merge::removed_here(b, o, lists::norm_of(#[trigger] t[i]))
                    ==> notes.contains(merge::kept_deleted_note(t[i]))
            &&& forall|k: int|
                0 <= k < added.len() && merge::superseded(
                    families,
                    start,
                    (#[trigger] added[k]).entry,
                ) ==> exists|f: int|
                    0 <= f < families.len() && notes.contains(
                        merge::evicted_note(added[k].entry, (#[trigger] families[f]).pattern),
                    )
            &&& forall|k: int|
                0 <= k < added.len() && !merge::superseded(
                    families,
                    start,
                    (#[trigger] added[k]).entry,
                ) && added[k].after is None && merge::holds(t, lists::norm_of(added[k].entry))
                    ==> notes.contains(merge::hoisted_note(added[k].entry))
            &&& forall|k: int|
                0 <= k < added.len() && !merge::superseded(
                    families,
                    start,
                    (#[trigger] added[k]).entry,
                ) && added[k].after is Some && !merge::holds(t, lists::norm_of(added[k].entry))
                    && !merge::holds(start, added[k].after->0) ==> notes.contains(
                    merge::orphan_note(added[k].entry, added[k].after->0),
                )
        }),
{
    let b = lists::deduped(base);
    let o = lists::deduped(ours);
    let t = lists::deduped(theirs);
    let start = merge::surviving(b, o, t);
    let added = merge::local_additions(b, o);
    let kept = kept_additions(b, o, t, families);
    let keep = |a: Addition| !merge::superseded(families, start, a.entry);
    let removals = merge::removal_notes(b, o, t);
    let evictions = merge::eviction_notes(families, start, added);
    let m = MergedModel { list: start, notes: removals + evictions };
    let none = Seq::<Addition>::empty();
    list_laws::dedup_leaves_no_repeats(ours);
    list_laws::dedup_leaves_no_repeats(theirs);
    lemma_merge_can_rebase(b, o, t, families);
    lemma_unsuperseded(families, start, added);
    assert(kept + none =~= kept);
    lemma_layout_of_nothing(t, start);
    lemma_notes_of_putting_back(t, start, kept, none, m);
    let notes = merge::merged(base, ours, theirs, families).notes;
    assert(notes == merge::put_all_back(t, m, kept).notes);
    assert forall|x: Seq<char>| m.notes.contains(x) implies #[trigger] notes.contains(x) by {
        let j = choose|j: int| 0 <= j < m.notes.len() && m.notes[j] == x;
        assert(notes[j] == m.notes[j]);
    }
    assert forall|i: int|
        0 <= i < t.len() && merge::removed_here(b, o, lists::norm_of(#[trigger] t[i])) implies notes.contains(
    merge::kept_deleted_note(t[i])) by {
        let gone = |e: Seq<char>| merge::removed_here(b, o, lists::norm_of(e));
        t.lemma_filter_contains(gone, i);
        let g = t.filter(gone);
        let j = choose|j: int| 0 <= j < g.len() && g[j] == t[i];
        assert(m.notes[j] == merge::kept_deleted_note(t[i]));
    }
    assert forall|k: int|
        0 <= k < added.len() && merge::superseded(families, start, (#[trigger] added[k]).entry) implies exists|
        f: int,
    |
        0 <= f < families.len() && notes.contains(
            merge::evicted_note(added[k].entry, (#[trigger] families[f]).pattern),
        ) by {
        let f = lemma_eviction_noted(families, start, added, k);
        let note = merge::evicted_note(added[k].entry, families[f].pattern);
        let j = choose|j: int| 0 <= j < evictions.len() && evictions[j] == note;
        assert(m.notes[removals.len() + j] == note);
        assert(notes.contains(note));
    }
    assert forall|k: int| 0 <= k < added.len() && keep(#[trigger] added[k]) implies exists|j: int|
        0 <= j < kept.len() && #[trigger] kept[j] == added[k] by {
        added.lemma_filter_contains(keep, k);
        let j = choose|j: int| 0 <= j < kept.len() && kept[j] == added[k];
        assert(kept[j] == added[k]);
    }
    assert forall|k: int|
        0 <= k < added.len() && !merge::superseded(
            families,
            start,
            (#[trigger] added[k]).entry,
        ) && added[k].after is None && merge::holds(t, lists::norm_of(added[k].entry)) implies notes.contains(
    merge::hoisted_note(added[k].entry)) by {
        assert(keep(added[k]));
        let j = choose|j: int| 0 <= j < kept.len() && #[trigger] kept[j] == added[k];
        assert(kept[j].after is None);
    }
    assert forall|k: int|
        0 <= k < added.len() && !merge::superseded(
            families,
            start,
            (#[trigger] added[k]).entry,
        ) && added[k].after is Some && !merge::holds(t, lists::norm_of(added[k].entry))
            && !merge::holds(start, added[k].after->0) implies notes.contains(
        merge::orphan_note(added[k].entry, added[k].after->0),
    ) by {
        assert(keep(added[k]));
        let j = choose|j: int| 0 <= j < kept.len() && #[trigger] kept[j] == added[k];
        assert(kept[j].after is Some);
    }
}

/// Without additions the layout is the list.
pub(crate) proof fn lemma_layout_of_nothing(theirs: Seq<Seq<char>>, list: Seq<Seq<char>>)
    ensures
        layout(theirs, list, Seq::<Addition>::empty()) == list,
{
    let none = Seq::<Addition>::empty();
    lemma_layout_without_heads(theirs, list, none);
    assert(strays(theirs, list, none) =~= Seq::<Seq<char>>::empty()) by {
        reveal(Seq::filter);
    }
    lemma_laid_out_nothing(theirs, list);
    assert(body(theirs, list, none) =~= list);
}

} // verus!
