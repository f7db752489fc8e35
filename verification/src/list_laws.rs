//! What holds of compared forms and of lists without repeats.

use crate::lists;
use crate::merge;
use crate::text;
use vstd::prelude::*;

verus! {

// --- compared forms -----------------------------------------------------------

/// No slash of `s` follows another.
pub open spec fn single_slashes(s: Seq<char>) -> bool {
    forall|i: int| 0 < i < s.len() && s[i] == '/' ==> #[trigger] s[i - 1] != '/'
}

proof fn lemma_collapsed(s: Seq<char>)
    ensures
        single_slashes(lists::collapsed(s)),
        s.len() > 0 ==> lists::collapsed(s).len() > 0 && lists::collapsed(s).last() == s.last(),
        s.len() == 0 ==> lists::collapsed(s).len() == 0,
    decreases s.len(),
{
    if s.len() > 0 {
        let before = s.drop_last();
        lemma_collapsed(before);
        let c = lists::collapsed(before);
        if !(s.last() == '/' && before.len() > 0 && before.last() == '/') {
            let d = lists::collapsed(s);
            assert(d == c.push(s.last()));
            assert forall|i: int| 0 < i < d.len() && d[i] == '/' implies #[trigger] d[i - 1] != '/' by {
                if i < c.len() {
                    assert(c[i] == '/');
                    assert(c[i - 1] != '/');
                }
            }
        }
    }
}

proof fn lemma_collapsed_same(s: Seq<char>)
    requires
        single_slashes(s),
    ensures
        lists::collapsed(s) == s,
    decreases s.len(),
{
    if s.len() > 0 {
        let before = s.drop_last();
        assert forall|i: int| 0 < i < before.len() && before[i] == '/' implies #[trigger] before[i - 1]
            != '/' by {
            assert(s[i - 1] != '/');
        }
        lemma_collapsed_same(before);
        if s.len() > 1 && s.last() == '/' {
            assert(s[s.len() - 1 - 1] != '/');
        }
        assert(s =~= before.push(s.last()));
    } else {
        assert(lists::collapsed(s) =~= s);
    }
}

proof fn lemma_stripped(s: Seq<char>)
    ensures
        single_slashes(s) ==> single_slashes(lists::stripped(s)),
        lists::stripped(s).len() > 1 ==> lists::stripped(s).last() != '/',
    decreases s.len(),
{
    if s.len() > 1 && s.last() == '/' {
        let before = s.drop_last();
        lemma_stripped(before);
        if single_slashes(s) {
            assert forall|i: int| 0 < i < before.len() && before[i] == '/' implies #[trigger] before[i
                - 1] != '/' by {
                assert(s[i - 1] != '/');
            }
        }
    }
}

/// The compared form of a compared form is itself.
pub proof fn norm_is_idempotent(s: Seq<char>)
    ensures
        lists::norm_of(lists::norm_of(s)) == lists::norm_of(s),
{
    lemma_collapsed(s);
    lemma_stripped(lists::collapsed(s));
    lemma_collapsed_same(lists::norm_of(s));
}

/// What a compared form looks like: no doubled slash, and none at the end
/// unless it is the root.
pub proof fn norm_is_tidy(s: Seq<char>)
    ensures
        single_slashes(lists::norm_of(s)),
        lists::norm_of(s).len() > 1 ==> lists::norm_of(s).last() != '/',
{
    lemma_collapsed(s);
    lemma_stripped(lists::collapsed(s));
}

// --- repeats ------------------------------------------------------------------

/// No two entries of `v` have the same compared form.
pub open spec fn distinct(v: Seq<Seq<char>>) -> bool {
    forall|i: int, j: int|
        0 <= i < j < v.len() ==> lists::norm_of(#[trigger] v[i]) != lists::norm_of(#[trigger] v[j])
}

/// An entry with compared form `n` has a place.
pub proof fn lemma_holds_at(v: Seq<Seq<char>>, n: Seq<char>) -> (i: int)
    requires
        merge::holds(v, n),
    ensures
        0 <= i < v.len(),
        lists::norm_of(v[i]) == n,
{
    choose|i: int| 0 <= i < lists::norms_of(v).len() && lists::norms_of(v)[i] == n
}

/// Every entry is held.
pub proof fn lemma_holds_entry(v: Seq<Seq<char>>, i: int)
    requires
        0 <= i < v.len(),
    ensures
        merge::holds(v, lists::norm_of(v[i])),
{
    assert(lists::norms_of(v)[i] == lists::norm_of(v[i]));
}

/// What two lists hold together.
pub proof fn lemma_holds_add(a: Seq<Seq<char>>, b: Seq<Seq<char>>, n: Seq<char>)
    ensures
        merge::holds(a + b, n) <==> merge::holds(a, n) || merge::holds(b, n),
{
    if merge::holds(a, n) {
        let i = lemma_holds_at(a, n);
        assert((a + b)[i] == a[i]);
        lemma_holds_entry(a + b, i);
    }
    if merge::holds(b, n) {
        let i = lemma_holds_at(b, n);
        assert((a + b)[a.len() + i] == b[i]);
        lemma_holds_entry(a + b, a.len() + i);
    }
    if merge::holds(a + b, n) {
        let i = lemma_holds_at(a + b, n);
        if i < a.len() {
            lemma_holds_entry(a, i);
        } else {
            lemma_holds_entry(b, i - a.len());
        }
    }
}

/// Two distinct lists that hold nothing in common are distinct together.
pub proof fn lemma_distinct_add(a: Seq<Seq<char>>, b: Seq<Seq<char>>)
    requires
        distinct(a),
        distinct(b),
        forall|n: Seq<char>| merge::holds(a, n) ==> !#[trigger] merge::holds(b, n),
    ensures
        distinct(a + b),
{
    let c = a + b;
    assert forall|i: int, j: int| 0 <= i < j < c.len() implies lists::norm_of(#[trigger] c[i])
        != lists::norm_of(#[trigger] c[j]) by {
        if j < a.len() {
            assert(c[i] == a[i] && c[j] == a[j]);
        } else if i >= a.len() {
            assert(c[i] == b[i - a.len()] && c[j] == b[j - a.len()]);
        } else {
            assert(c[i] == a[i] && c[j] == b[j - a.len()]);
            lemma_holds_entry(a, i);
            lemma_holds_entry(b, j - a.len());
        }
    }
}

/// What a filter leaves of a distinct list is distinct.
pub proof fn lemma_distinct_filter(v: Seq<Seq<char>>, p: spec_fn(Seq<char>) -> bool)
    requires
        distinct(v),
    ensures
        distinct(v.filter(p)),
{
    let f = v.filter(p);
    assert forall|i: int, j: int| 0 <= i < j < f.len() implies lists::norm_of(#[trigger] f[i])
        != lists::norm_of(#[trigger] f[j]) by {
        let (a, b) = text::lemma_filter_order(v, p, i, j);
        assert(lists::norm_of(v[a]) != lists::norm_of(v[b]));
    }
}

/// What a filter on compared forms leaves held.
pub proof fn lemma_holds_filter(
    v: Seq<Seq<char>>,
    p: spec_fn(Seq<char>) -> bool,
    q: spec_fn(Seq<char>) -> bool,
    n: Seq<char>,
)
    requires
        forall|e: Seq<char>| #[trigger] p(e) == q(lists::norm_of(e)),
    ensures
        merge::holds(v.filter(p), n) <==> merge::holds(v, n) && q(n),
{
    let f = v.filter(p);
    if merge::holds(f, n) {
        let i = lemma_holds_at(f, n);
        let j = text::lemma_filter_source(v, p, i);
        lemma_holds_entry(v, j);
    }
    if merge::holds(v, n) && q(n) {
        let i = lemma_holds_at(v, n);
        assert(p(v[i]));
        v.lemma_filter_contains(p, i);
        let j = choose|j: int| 0 <= j < f.len() && f[j] == v[i];
        lemma_holds_entry(f, j);
    }
}

/// Deduplication changes neither what a list holds nor, where nothing
/// repeats, the list.
pub proof fn dedup_keeps_what_is_held(v: Seq<Seq<char>>, n: Seq<char>)
    ensures
        merge::holds(lists::deduped(v), n) <==> merge::holds(v, n),
    decreases v.len(),
{
    if v.len() > 0 {
        let before = v.drop_last();
        dedup_keeps_what_is_held(before, n);
        assert(v =~= before + seq![v.last()]);
        lemma_holds_add(before, seq![v.last()], n);
        if merge::holds(seq![v.last()], n) {
            let i = lemma_holds_at(seq![v.last()], n);
        }
        if !merge::holds(before, lists::norm_of(v.last())) {
            assert(lists::deduped(v) =~= lists::deduped(before) + seq![v.last()]);
            lemma_holds_add(lists::deduped(before), seq![v.last()], n);
        }
    } else {
        assert(lists::deduped(v) =~= v);
    }
}

/// Nothing repeats in a deduplicated list.
pub proof fn dedup_leaves_no_repeats(v: Seq<Seq<char>>)
    ensures
        distinct(lists::deduped(v)),
    decreases v.len(),
{
    if v.len() > 0 {
        let before = v.drop_last();
        dedup_leaves_no_repeats(before);
        if !merge::holds(before, lists::norm_of(v.last())) {
            let one = seq![v.last()];
            assert(lists::deduped(v) =~= lists::deduped(before) + one);
            assert forall|n: Seq<char>| merge::holds(
                lists::deduped(before),
                n,
            ) implies !#[trigger] merge::holds(one, n) by {
                dedup_keeps_what_is_held(before, n);
                if merge::holds(one, n) {
                    let i = lemma_holds_at(one, n);
                }
            }
            lemma_distinct_add(lists::deduped(before), one);
        }
    }
}

/// A list in which nothing repeats stays as it is.
pub proof fn dedup_keeps_distinct_lists(v: Seq<Seq<char>>)
    requires
        distinct(v),
    ensures
        lists::deduped(v) == v,
    decreases v.len(),
{
    if v.len() > 0 {
        let before = v.drop_last();
        assert(distinct(before)) by {
            assert forall|i: int, j: int| 0 <= i < j < before.len() implies lists::norm_of(
                #[trigger] before[i],
            ) != lists::norm_of(#[trigger] before[j]) by {
                assert(lists::norm_of(v[i]) != lists::norm_of(v[j]));
            }
        }
        dedup_keeps_distinct_lists(before);
        if merge::holds(before, lists::norm_of(v.last())) {
            let i = lemma_holds_at(before, lists::norm_of(v.last()));
            assert(lists::norm_of(v[i]) != lists::norm_of(v[v.len() - 1]));
        }
        assert(v =~= before.push(v.last()));
    } else {
        assert(lists::deduped(v) =~= v);
    }
}

/// To deduplicate twice is to deduplicate once.
pub proof fn dedup_is_idempotent(v: Seq<Seq<char>>)
    ensures
        lists::deduped(lists::deduped(v)) == lists::deduped(v),
{
    dedup_leaves_no_repeats(v);
    dedup_keeps_distinct_lists(lists::deduped(v));
}

/// Entries stay in order: the first of those that are the same is the one kept.
pub proof fn dedup_keeps_the_first(v: Seq<Seq<char>>, i: int)
    requires
        0 <= i < v.len(),
    ensures
        !merge::holds(v.take(i), lists::norm_of(v[i])) ==> lists::deduped(v).contains(v[i]),
        lists::deduped(v.take(i)).len() <= lists::deduped(v).len(),
        lists::deduped(v.take(i)) == lists::deduped(v).take(lists::deduped(v.take(i)).len() as int),
    decreases v.len(),
{
    let d = lists::deduped(v);
    let before = v.drop_last();
    if i == v.len() - 1 {
        assert(v.take(i) =~= before);
        assert(lists::deduped(before) =~= d.take(lists::deduped(before).len() as int));
        if !merge::holds(before, lists::norm_of(v[i])) {
            assert(d[d.len() - 1] == v[i]);
        }
    } else {
        dedup_keeps_the_first(before, i);
        assert(before.take(i) =~= v.take(i));
        let c = lists::deduped(before);
        assert(before[i] == v[i]);
        if c.contains(v[i]) {
            let k = choose|k: int| 0 <= k < c.len() && c[k] == v[i];
            assert(d[k] == v[i]);
        }
        assert(lists::deduped(v.take(i)) =~= d.take(lists::deduped(v.take(i)).len() as int));
    }
}

/// Where two entries have changed places, either could be taken for the one
/// that stayed: it is the one that came first before that has moved.
pub proof fn of_two_that_swap_the_first_has_moved(p: Seq<char>, q: Seq<char>)
    requires
        p != q,
    ensures
        lists::common_walk(seq![p, q], seq![q, p], 0, 0) == seq![(1int, 0int)],
{
    let a = seq![p, q];
    let b = seq![q, p];
    reveal_with_fuel(lists::common_len, 4);
    reveal_with_fuel(lists::common_walk, 4);
    assert(a[0] == p && a[1] == q && b[0] == q && b[1] == p);
    assert(lists::common_len(a, b, 1, 0) == 1);
    assert(lists::common_len(a, b, 0, 1) == 1);
    assert(lists::common_walk(a, b, 2, 1) =~= Seq::<(int, int)>::empty());
    assert(lists::common_walk(a, b, 1, 0) =~= seq![(1int, 0int)]);
}

} // verus!
