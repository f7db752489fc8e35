//! What holds of states, differences and replays together.

use crate::shell_laws;
use crate::state::{self, ChangeModel, Class, ItemModel, Key, KeyModel, Kind, StateModel};
use crate::lists;
use crate::table::{self, TableKey};
use crate::text;
use vstd::prelude::*;
use vstd::string::*;

verus! {

/// To replay two lists of changes is to replay them one after the other.
pub proof fn replay_in_two_steps(s: StateModel, a: Seq<ChangeModel>, b: Seq<ChangeModel>)
    ensures
        state::replayed(s, a + b) == state::replayed(state::replayed(s, a), b),
    decreases b.len(),
{
    if b.len() == 0 {
        assert(a + b =~= a);
    } else {
        assert((a + b).drop_last() =~= a + b.drop_last());
        replay_in_two_steps(s, a, b.drop_last());
    }
}

/// After the edits for the first `i` rows, their keys hold what the rows say
/// and all others what they held before.
proof fn lemma_replay_edits(p: StateModel, rows: Seq<(KeyModel, ItemModel)>, i: int, k: KeyModel)
    requires
        table::ascending::<Key, ItemModel>(rows),
        0 <= i <= rows.len(),
    ensures
        ({
            let r = state::replayed(p, state::edits(p, rows.take(i)));
            if table::has_row(rows.take(i), k) {
                r.dom().contains(k) && r[k] == table::row_map(rows)[k]
            } else {
                r.dom().contains(k) == p.dom().contains(k) && (p.dom().contains(k) ==> r[k] == p[k])
            }
        }),
    decreases i,
{
    reveal(Seq::filter);
    let fresh = |r: (KeyModel, ItemModel)| !state::has_same(p, r);
    let edit = |r: (KeyModel, ItemModel)| state::edit_of(p, r);
    if i == 0 {
        assert(state::edits(p, rows.take(0)) =~= Seq::<ChangeModel>::empty());
    } else {
        lemma_replay_edits(p, rows, i - 1, k);
        table::lemma_has_row_grows(rows, i - 1, k);
        table::lemma_row_found::<Key, ItemModel>(rows, i - 1);
        let before = rows.take(i - 1);
        let row = rows[i - 1];
        assert(rows.take(i).drop_last() =~= before);
        assert(rows.take(i).last() == row);
        if fresh(row) {
            assert(rows.take(i).filter(fresh) == before.filter(fresh).push(row));
            assert(before.filter(fresh).push(row).map_values(edit) =~= before.filter(
                fresh,
            ).map_values(edit).push(edit(row)));
            assert(state::edits(p, rows.take(i)) == state::edits(p, before).push(edit(row)));
            assert(state::edits(p, rows.take(i)).drop_last() =~= state::edits(p, before));
        } else {
            assert(state::edits(p, rows.take(i)) == state::edits(p, before));
            if row.0 == k && table::has_row(before, k) {
                let j = choose|j: int| 0 <= j < before.len() && (#[trigger] before[j]).0 == k;
                assert(rows[j].0 == k);
                table::lemma_row_found::<Key, ItemModel>(rows, j);
            }
        }
    }
}

/// After the tombstones for the first `i` rows, those of their keys that `n`
/// does not have are gone and the rest is as before.
proof fn lemma_replay_tombstones(
    s: StateModel,
    rows: Seq<(KeyModel, ItemModel)>,
    n: StateModel,
    i: int,
    k: KeyModel,
)
    requires
        0 <= i <= rows.len(),
    ensures
        ({
            let r = state::replayed(s, state::tombstones(rows.take(i), n));
            if table::has_row(rows.take(i), k) && !n.contains_key(k) {
                !r.dom().contains(k)
            } else {
                r.dom().contains(k) == s.dom().contains(k) && (s.dom().contains(k) ==> r[k] == s[k])
            }
        }),
    decreases i,
{
    reveal(Seq::filter);
    let gone = |r: (KeyModel, ItemModel)| !n.contains_key(r.0);
    let stone = |r: (KeyModel, ItemModel)| state::tombstone_of(r);
    if i == 0 {
        assert(state::tombstones(rows.take(0), n) =~= Seq::<ChangeModel>::empty());
    } else {
        lemma_replay_tombstones(s, rows, n, i - 1, k);
        table::lemma_has_row_grows(rows, i - 1, k);
        let before = rows.take(i - 1);
        let row = rows[i - 1];
        assert(rows.take(i).drop_last() =~= before);
        if gone(row) {
            assert(rows.take(i).filter(gone) == before.filter(gone).push(row));
            assert(before.filter(gone).push(row).map_values(stone) =~= before.filter(
                gone,
            ).map_values(stone).push(stone(row)));
            assert(state::tombstones(rows.take(i), n) == state::tombstones(before, n).push(
                stone(row),
            ));
            assert(state::tombstones(rows.take(i), n).drop_last() =~= state::tombstones(before, n));
        } else {
            assert(state::tombstones(rows.take(i), n) == state::tombstones(before, n));
        }
    }
}

/// Replaying the difference of two states on the first gives the second:
/// edits, additions and removals all arrive.
pub proof fn difference_leads_to_next(
    prev: Seq<(KeyModel, ItemModel)>,
    next: Seq<(KeyModel, ItemModel)>,
)
    requires
        table::ascending::<Key, ItemModel>(prev),
        table::ascending::<Key, ItemModel>(next),
    ensures
        state::replayed(table::row_map(prev), state::difference(prev, next)) == table::row_map(
            next,
        ),
{
    let p = table::row_map(prev);
    let n = table::row_map(next);
    let e = state::edits(p, next);
    let t = state::tombstones(prev, n);
    let mid = state::replayed(p, e);
    let end = state::replayed(mid, t);
    replay_in_two_steps(p, e, t);
    assert(next.take(next.len() as int) =~= next);
    assert(prev.take(prev.len() as int) =~= prev);
    assert forall|k: KeyModel| #[trigger]
        end.dom().contains(k) <==> n.dom().contains(k) by {
        lemma_replay_edits(p, next, next.len() as int, k);
        lemma_replay_tombstones(mid, prev, n, prev.len() as int, k);
    }
    assert forall|k: KeyModel| #[trigger] end.dom().contains(k) implies end[k] == n[k] by {
        lemma_replay_edits(p, next, next.len() as int, k);
        lemma_replay_tombstones(mid, prev, n, prev.len() as int, k);
    }
    assert(end =~= n);
}

/// What each change of a difference carries: as its base the values that the
/// key had, as its new value those that it is to have (none for a tombstone),
/// and the two states do differ on the key.
pub proof fn changes_carry_their_base(
    prev: Seq<(KeyModel, ItemModel)>,
    next: Seq<(KeyModel, ItemModel)>,
    i: int,
)
    requires
        table::ascending::<Key, ItemModel>(prev),
        table::ascending::<Key, ItemModel>(next),
        0 <= i < state::difference(prev, next).len(),
    ensures
        ({
            let c = state::difference(prev, next)[i];
            let p = table::row_map(prev);
            let n = table::row_map(next);
            &&& c.old == state::vals_at(p, c.key())
            &&& c.new == state::vals_at(n, c.key())
            &&& p.contains_key(c.key()) || n.contains_key(c.key())
            &&& p.contains_key(c.key()) && n.contains_key(c.key()) ==> p[c.key()] != n[c.key()]
        }),
{
    let p = table::row_map(prev);
    let n = table::row_map(next);
    let fresh = |r: (KeyModel, ItemModel)| !state::has_same(p, r);
    let gone = |r: (KeyModel, ItemModel)| !n.contains_key(r.0);
    let e = state::edits(p, next);
    if i < e.len() {
        let kept = next.filter(fresh);
        let row = kept[i];
        let j = text::lemma_filter_source(next, fresh, i);
        table::lemma_row_found::<Key, ItemModel>(next, j);
        assert(state::difference(prev, next)[i] == state::edit_of(p, row));
    } else {
        let kept = prev.filter(gone);
        let row = kept[i - e.len()];
        let j = text::lemma_filter_source(prev, gone, i - e.len());
        table::lemma_row_found::<Key, ItemModel>(prev, j);
        assert(state::difference(prev, next)[i] == state::tombstone_of(row));
    }
}

/// A difference names each key once.
pub proof fn changes_name_each_key_once(
    prev: Seq<(KeyModel, ItemModel)>,
    next: Seq<(KeyModel, ItemModel)>,
    i: int,
    j: int,
)
    requires
        table::ascending::<Key, ItemModel>(prev),
        table::ascending::<Key, ItemModel>(next),
        0 <= i < j < state::difference(prev, next).len(),
    ensures
        state::difference(prev, next)[i].key() != state::difference(prev, next)[j].key(),
{
    let p = table::row_map(prev);
    let n = table::row_map(next);
    let fresh = |r: (KeyModel, ItemModel)| !state::has_same(p, r);
    let gone = |r: (KeyModel, ItemModel)| !n.contains_key(r.0);
    let e = state::edits(p, next);
    let d = state::difference(prev, next);
    if j < e.len() {
        let (a, b) = text::lemma_filter_order(next, fresh, i, j);
        assert(d[i].key() == next[a].0 && d[j].key() == next[b].0);
        Key::irreflexive(next[a].0);
    } else if i >= e.len() {
        let (a, b) = text::lemma_filter_order(prev, gone, i - e.len(), j - e.len());
        assert(d[i].key() == prev[a].0 && d[j].key() == prev[b].0);
        Key::irreflexive(prev[a].0);
    } else {
        let a = text::lemma_filter_source(next, fresh, i);
        let b = text::lemma_filter_source(prev, gone, j - e.len());
        table::lemma_row_found::<Key, ItemModel>(next, a);
        assert(d[i].key() == next[a].0 && d[j].key() == prev[b].0);
    }
}

/// There is no change between two states exactly when they are the same.
pub proof fn no_difference_iff_same(
    prev: Seq<(KeyModel, ItemModel)>,
    next: Seq<(KeyModel, ItemModel)>,
)
    requires
        table::ascending::<Key, ItemModel>(prev),
        table::ascending::<Key, ItemModel>(next),
    ensures
        state::difference(prev, next).len() == 0 <==> prev == next,
{
    if state::difference(prev, next).len() == 0 {
        difference_leads_to_next(prev, next);
        table::lemma_rows_determined::<Key, ItemModel>(prev, next);
    }
    if prev == next && state::difference(prev, next).len() > 0 {
        changes_carry_their_base(prev, next, 0);
    }
}

/// What the shell had before the bootstrap ran is no effect of it, and neither
/// is anything whose name is ignored.
pub proof fn effect_is_new_and_wanted(
    s0: StateModel,
    s1: StateModel,
    ignored: spec_fn(Seq<char>) -> bool,
    k: KeyModel,
)
    ensures
        state::effect_model(s0, s1, ignored).contains_key(k) <==> s1.contains_key(k) && !ignored(k.1)
            && !(s0.contains_key(k) && s0[k] == s1[k]),
        state::effect_model(s0, s1, ignored).contains_key(k) ==> state::effect_model(
            s0,
            s1,
            ignored,
        )[k] == s1[k],
{
}

/// No volatile entry is left in an ordered list, and to drop them again
/// changes nothing.
pub proof fn settled_holds_nothing_volatile(
    s: StateModel,
    volatile: spec_fn(Seq<char>) -> bool,
    k: KeyModel,
    i: int,
)
    requires
        s.contains_key(k),
        state::is_list_model(k.0, s[k].attrs),
        0 <= i < state::settled_model(s, volatile)[k].vals.len(),
    ensures
        !volatile(lists::norm_of(state::settled_model(s, volatile)[k].vals[i])),
{
    let keep = |e: Seq<char>| !volatile(lists::norm_of(e));
    let vals = state::settled_model(s, volatile)[k].vals;
    assert(vals == s[k].vals.filter(keep));
    let j = text::lemma_filter_source(s[k].vals, keep, i);
}

/// To drop the volatile entries twice is to drop them once.
pub proof fn settling_is_idempotent(s: StateModel, volatile: spec_fn(Seq<char>) -> bool)
    ensures
        state::settled_model(state::settled_model(s, volatile), volatile) == state::settled_model(
            s,
            volatile,
        ),
{
    let once = state::settled_model(s, volatile);
    let twice = state::settled_model(once, volatile);
    assert forall|k: KeyModel| #[trigger] once.dom().contains(k) implies twice[k] == once[k] by {
        if state::is_list_model(k.0, s[k].attrs) {
            let keep = |e: Seq<char>| !volatile(lists::norm_of(e));
            let all = |e: Seq<char>| true;
            let vals = once[k].vals;
            assert forall|i: int| 0 <= i < vals.len() implies keep(#[trigger] vals[i]) == all(
                vals[i],
            ) by {
                settled_holds_nothing_volatile(s, volatile, k, i);
            }
            text::lemma_filter_agrees(vals, keep, all);
            text::lemma_filter_all(vals);
        }
    }
    assert(twice =~= once);
}

/// A summary counts every change exactly once.
pub proof fn summary_counts_every_change(changes: Seq<ChangeModel>)
    ensures
        state::tally(changes, Class::Param, '+') + state::tally(changes, Class::Param, '~')
            + state::tally(changes, Class::Param, '-') + state::tally(
            changes,
            Class::Function,
            '+',
        ) + state::tally(changes, Class::Function, '~') + state::tally(
            changes,
            Class::Function,
            '-',
        ) + state::tally(changes, Class::Alias, '+') + state::tally(changes, Class::Alias, '~')
            + state::tally(changes, Class::Alias, '-') + state::tally(
            changes,
            Class::Compdef,
            '+',
        ) + state::tally(changes, Class::Compdef, '~') + state::tally(changes, Class::Compdef, '-')
            == changes.len(),
    decreases changes.len(),
{
    reveal(Seq::filter);
    if changes.len() > 0 {
        summary_counts_every_change(changes.drop_last());
    }
}

// --- what a replay leaves -------------------------------------------------------

/// A replay gives every key what its last change says, and leaves every other
/// key as it was.
pub proof fn replays_go_by_the_last_change(s: StateModel, changes: Seq<ChangeModel>, k: KeyModel)
    ensures
        ({
            let after = state::replayed(s, changes);
            &&& (forall|i: int| 0 <= i < changes.len() ==> (#[trigger] changes[i]).key() != k) ==> (
            after.contains_key(k) <==> s.contains_key(k)) && (s.contains_key(k) ==> after[k] == s[k])
            &&& forall|i: int|
                0 <= i < changes.len() && (#[trigger] changes[i]).key() == k && (forall|j: int|
                    i < j < changes.len() ==> (#[trigger] changes[j]).key() != k) ==> (
                after.contains_key(k) <==> changes[i].new is Some) && (changes[i].new is Some
                    ==> after[k].vals == changes[i].new->0 && after[k].attrs == changes[i].attrs)
        }),
    decreases changes.len(),
{
    if changes.len() > 0 {
        let front = changes.drop_last();
        let n = front.len() as int;
        replays_go_by_the_last_change(s, front, k);
        let before = state::replayed(s, front);
        let after = state::replayed(s, changes);
        assert(changes[n] == changes.last());
        if forall|i: int| 0 <= i < changes.len() ==> (#[trigger] changes[i]).key() != k {
            assert forall|i: int| 0 <= i < front.len() implies (#[trigger] front[i]).key() != k by {
                assert(changes[i].key() != k);
            }
            assert(changes[n].key() != k);
        }
        assert forall|i: int|
            0 <= i < changes.len() && (#[trigger] changes[i]).key() == k && (forall|j: int|
                i < j < changes.len() ==> (#[trigger] changes[j]).key() != k) implies (
        after.contains_key(k) <==> changes[i].new is Some) && (changes[i].new is Some
            ==> after[k].vals == changes[i].new->0 && after[k].attrs == changes[i].attrs) by {
            if i < n {
                assert(changes[n].key() != k);
                assert(front[i] == changes[i]);
                assert forall|j: int| i < j < front.len() implies (#[trigger] front[j]).key() != k by {
                    assert(changes[j].key() != k);
                }
            }
        }
    }
}

/// A change of a difference has the attributes of the item that it brings in,
/// or else of the one that it takes out.
pub proof fn changes_carry_their_attributes(
    prev: Seq<(KeyModel, ItemModel)>,
    next: Seq<(KeyModel, ItemModel)>,
    i: int,
)
    requires
        table::ascending::<Key, ItemModel>(prev),
        table::ascending::<Key, ItemModel>(next),
        0 <= i < state::difference(prev, next).len(),
    ensures
        ({
            let c = state::difference(prev, next)[i];
            let p = table::row_map(prev);
            let n = table::row_map(next);
            c.attrs == if n.contains_key(c.key()) {
                n[c.key()].attrs
            } else {
                p[c.key()].attrs
            }
        }),
{
    let p = table::row_map(prev);
    let n = table::row_map(next);
    let fresh = |r: (KeyModel, ItemModel)| !state::has_same(p, r);
    let gone = |r: (KeyModel, ItemModel)| !n.contains_key(r.0);
    let e = state::edits(p, next);
    if i < e.len() {
        let j = text::lemma_filter_source(next, fresh, i);
        table::lemma_row_found::<Key, ItemModel>(next, j);
        assert(state::difference(prev, next)[i] == state::edit_of(p, next[j]));
    } else {
        let j = text::lemma_filter_source(prev, gone, i - e.len());
        table::lemma_row_found::<Key, ItemModel>(prev, j);
        assert(state::difference(prev, next)[i] == state::tombstone_of(prev[j]));
    }
}

// --- what settling leaves -------------------------------------------------------

/// Settling leaves every key in place and every attribute as it was, and what
/// is no ordered list it leaves alone altogether.
pub proof fn settling_touches_list_entries_only(
    s: StateModel,
    volatile: spec_fn(Seq<char>) -> bool,
    k: KeyModel,
)
    ensures
        ({
            let after = state::settled_model(s, volatile);
            &&& after.contains_key(k) <==> s.contains_key(k)
            &&& s.contains_key(k) ==> after[k].attrs == s[k].attrs
            &&& s.contains_key(k) && !(k.0 is Array && shell_laws::has_word(s[k].attrs, "tied"@))
                ==> after[k] == s[k]
        }),
{
    if s.contains_key(k) {
        shell_laws::lemma_has_part(s[k].attrs, "tied"@);
    }
}

/// Settling an ordered list drops its volatile entries and keeps all others, in
/// order: it works entry by entry.
pub proof fn settling_works_entry_by_entry(
    attrs: Seq<char>,
    a: Seq<Seq<char>>,
    b: Seq<Seq<char>>,
    e: Seq<char>,
    volatile: spec_fn(Seq<char>) -> bool,
)
    requires
        shell_laws::has_word(attrs, "tied"@),
    ensures
        ({
            let settled = |v: Seq<Seq<char>>|
                state::settled_item(Kind::Array, ItemModel { attrs, vals: v }, volatile).vals;
            &&& settled(a + b) == settled(a) + settled(b)
            &&& settled(seq![e]) == if volatile(lists::norm_of(e)) {
                Seq::<Seq<char>>::empty()
            } else {
                seq![e]
            }
        }),
{
    shell_laws::lemma_has_part(attrs, "tied"@);
    let keep = |x: Seq<char>| !volatile(lists::norm_of(x));
    Seq::filter_distributes_over_add(a, b, keep);
    reveal_with_fuel(Seq::filter, 2);
    assert(seq![e].drop_last() =~= Seq::<Seq<char>>::empty());
    assert(seq![e].filter(keep) =~= if volatile(lists::norm_of(e)) {
        Seq::<Seq<char>>::empty()
    } else {
        seq![e]
    });
}

// --- what a summary says ---------------------------------------------------------

/// The tallies add up change by change: each change counts once, under the
/// class of its kind and the sign of what it does.
pub proof fn tallies_count_one_by_one(
    a: Seq<ChangeModel>,
    b: Seq<ChangeModel>,
    c: ChangeModel,
    class: Class,
    sign: char,
)
    ensures
        state::tally(a + b, class, sign) == state::tally(a, class, sign) + state::tally(
            b,
            class,
            sign,
        ),
        ({
            let its_class = match c.kind {
                Kind::Scalar | Kind::Array | Kind::Assoc => Class::Param,
                Kind::Func | Kind::Autoload => Class::Function,
                Kind::Alias | Kind::Galias | Kind::Salias => Class::Alias,
                Kind::Compdef => Class::Compdef,
            };
            let its_sign = if c.new is None {
                '-'
            } else if c.old is None {
                '+'
            } else {
                '~'
            };
            state::tally(seq![c], class, sign) == if class == its_class && sign == its_sign {
                1nat
            } else {
                0
            }
        }),
{
    let pick = |c: ChangeModel| c.kind.class() == class && state::sign_of(c) == sign;
    Seq::filter_distributes_over_add(a, b, pick);
    reveal_with_fuel(Seq::filter, 2);
    assert(seq![c].drop_last() =~= Seq::<ChangeModel>::empty());
}

proof fn lemma_joined_has(parts: Seq<Seq<char>>, sep: Seq<char>, i: int) -> (r: (
    Seq<char>,
    Seq<char>,
))
    requires
        0 <= i < parts.len(),
    ensures
        text::joined(parts, sep) == r.0 + parts[i] + r.1,
    decreases parts.len(),
{
    let none = Seq::<char>::empty();
    if parts.len() == 1 {
        assert(parts[i] =~= none + parts[i] + none);
        (none, none)
    } else if i == parts.len() - 1 {
        let front = text::joined(parts.drop_last(), sep) + sep;
        assert(text::joined(parts, sep) =~= front + parts[i] + none);
        (front, none)
    } else {
        let (a, b) = lemma_joined_has(parts.drop_last(), sep, i);
        assert(text::joined(parts, sep) =~= a + parts[i] + (b + sep + parts.last()));
        (a, b + sep + parts.last())
    }
}

/// What a summary says of a number of changes.
pub open spec fn said_of(n: nat, class: Class, sign: char) -> Seq<char> {
    seq![sign] + text::decimal(n) + " "@ + (match class {
        Class::Param => if n == 1 {
            "param"@
        } else {
            "params"@
        },
        Class::Function => if n == 1 {
            "function"@
        } else {
            "functions"@
        },
        Class::Alias => if n == 1 {
            "alias"@
        } else {
            "aliases"@
        },
        Class::Compdef => if n == 1 {
            "compdef"@
        } else {
            "compdefs"@
        },
    })
}

/// Every class and sign that occurs is said in a summary, with its number.
pub proof fn summaries_say_every_tally(
    changes: Seq<ChangeModel>,
    class: Class,
    sign: char,
) -> (r: (Seq<char>, Seq<char>))
    requires
        sign == '+' || sign == '~' || sign == '-',
        state::tally(changes, class, sign) > 0,
    ensures
        state::summary_model(changes) == r.0 + said_of(
            state::tally(changes, class, sign),
            class,
            sign,
        ) + r.1,
{
    let p = state::class_parts(changes, Class::Param, "param"@, "params"@);
    let f = state::class_parts(changes, Class::Function, "function"@, "functions"@);
    let a = state::class_parts(changes, Class::Alias, "alias"@, "aliases"@);
    let d = state::class_parts(changes, Class::Compdef, "compdef"@, "compdefs"@);
    let all = p + f + a + d;
    let n = state::tally(changes, class, sign);
    let here = match class {
        Class::Param => p,
        Class::Function => f,
        Class::Alias => a,
        Class::Compdef => d,
    };
    let start = match class {
        Class::Param => 0,
        Class::Function => p.len() as int,
        Class::Alias => 0int + p.len() + f.len(),
        Class::Compdef => 0int + p.len() + f.len() + a.len(),
    };
    let one = match class {
        Class::Param => "param"@,
        Class::Function => "function"@,
        Class::Alias => "alias"@,
        Class::Compdef => "compdef"@,
    };
    let many = match class {
        Class::Param => "params"@,
        Class::Function => "functions"@,
        Class::Alias => "aliases"@,
        Class::Compdef => "compdefs"@,
    };
    let plus = state::tally_part(state::tally(changes, class, '+'), '+', one, many);
    let edit = state::tally_part(state::tally(changes, class, '~'), '~', one, many);
    let at = if sign == '+' {
        0
    } else if sign == '~' {
        plus.len() as int
    } else {
        0int + plus.len() + edit.len()
    };
    assert(here[at] == said_of(n, class, sign));
    assert(all[start + at] == here[at]);
    lemma_joined_has(all, ", "@, start + at)
}

/// A summary is empty exactly if there is no change.
pub proof fn only_nothing_is_summed_up_by_nothing(changes: Seq<ChangeModel>)
    ensures
        state::summary_model(changes).len() == 0 <==> changes.len() == 0,
{
    if changes.len() > 0 {
        let c = changes.last();
        let class = c.kind.class();
        let sign = state::sign_of(c);
        let front = changes.drop_last();
        assert(changes =~= front + seq![c]);
        tallies_count_one_by_one(front, seq![c], c, class, sign);
        let (a, b) = summaries_say_every_tally(changes, class, sign);
        assert(said_of(state::tally(changes, class, sign), class, sign).len() > 0);
    } else {
        reveal_with_fuel(Seq::filter, 1);
        assert(state::summary_model(changes) =~= Seq::<char>::empty());
    }
}

} // verus!
