//! What holds of quoting, of the order of changes and of payloads.

use crate::payload::{self, Payload};
use crate::state::{self, ChangeModel, ItemModel, Key, KeyModel, StateModel};
use crate::state_laws;
use crate::table;
use crate::text;
use vstd::prelude::*;
use vstd::string::*;

verus! {

// --- quoting ------------------------------------------------------------------

/// Where the shell stands in a word: in the open, between single quotes, or
/// behind a backslash.
pub enum Quoting {
    Bare,
    Quoted,
    Escaped,
}

/// What the shell has made of the part of a word that it has read. `plain` says
/// that so far nothing but quotes and escapes stood in the open, so nothing
/// can have been expanded or split.
pub struct Reading {
    pub word: Seq<char>,
    pub mode: Quoting,
    pub plain: bool,
}

/// How the shell reads a word made of single quotes and backslashes: between
/// quotes every character stands for itself, behind a backslash as well.
pub open spec fn shell_reads(s: Seq<char>) -> Reading
    decreases s.len(),
{
    if s.len() == 0 {
        Reading { word: Seq::empty(), mode: Quoting::Bare, plain: true }
    } else {
        let r = shell_reads(s.drop_last());
        let c = s.last();
        match r.mode {
            Quoting::Quoted => if c == '\'' {
                Reading { word: r.word, mode: Quoting::Bare, plain: r.plain }
            } else {
                Reading { word: r.word.push(c), mode: Quoting::Quoted, plain: r.plain }
            },
            Quoting::Escaped => Reading {
                word: r.word.push(c),
                mode: Quoting::Bare,
                plain: r.plain,
            },
            Quoting::Bare => if c == '\'' {
                Reading { word: r.word, mode: Quoting::Quoted, plain: r.plain }
            } else if c == '\\' {
                Reading { word: r.word, mode: Quoting::Escaped, plain: r.plain }
            } else {
                Reading { word: r.word.push(c), mode: Quoting::Bare, plain: false }
            },
        }
    }
}

proof fn lemma_reads_push(s: Seq<char>, c: char)
    ensures
        s.push(c).drop_last() == s,
        s.push(c).last() == c,
{
    assert(s.push(c).drop_last() =~= s);
}

proof fn lemma_reads_quoted(s: Seq<char>)
    ensures
        shell_reads("'"@ + text::spelled(s, |c: char| payload::quoted_char(c))) == (Reading {
            word: s,
            mode: Quoting::Quoted,
            plain: true,
        }),
    decreases s.len(),
{
    reveal_strlit("'");
    reveal_strlit("'\\''");
    let f = |c: char| payload::quoted_char(c);
    let q = "'"@;
    if s.len() == 0 {
        assert(q + text::spelled(s, f) =~= Seq::<char>::empty().push('\''));
        lemma_reads_push(Seq::<char>::empty(), '\'');
        assert(shell_reads(Seq::<char>::empty()).word =~= s);
    } else {
        lemma_reads_quoted(s.drop_last());
        let before = q + text::spelled(s.drop_last(), f);
        let c = s.last();
        assert(s.drop_last().push(c) =~= s);
        if c == '\'' {
            let s1 = before.push('\'');
            let s2 = s1.push('\\');
            let s3 = s2.push('\'');
            let s4 = s3.push('\'');
            assert(q + text::spelled(s, f) =~= s4);
            lemma_reads_push(before, '\'');
            lemma_reads_push(s1, '\\');
            lemma_reads_push(s2, '\'');
            lemma_reads_push(s3, '\'');
            assert(shell_reads(s1) == (Reading {
                word: s.drop_last(),
                mode: Quoting::Bare,
                plain: true,
            }));
            assert(shell_reads(s2) == (Reading {
                word: s.drop_last(),
                mode: Quoting::Escaped,
                plain: true,
            }));
            assert(shell_reads(s3) == (Reading { word: s, mode: Quoting::Bare, plain: true }));
        } else {
            assert(q + text::spelled(s, f) =~= before.push(c));
            lemma_reads_push(before, c);
        }
    }
}

/// Whatever a value holds, the shell reads the quoted value as one word that is
/// the value, character for character.
pub proof fn quoting_survives_any_value(s: Seq<char>)
    ensures
        shell_reads(payload::quoted(s)) == (Reading {
            word: s,
            mode: Quoting::Bare,
            plain: true,
        }),
{
    reveal_strlit("'");
    lemma_reads_quoted(s);
    let open = "'"@ + text::spelled(s, |c: char| payload::quoted_char(c));
    assert(payload::quoted(s) =~= open.push('\''));
    lemma_reads_push(open, '\'');
}

/// Values that differ are quoted differently.
pub proof fn quoting_is_injective(a: Seq<char>, b: Seq<char>)
    requires
        payload::quoted(a) == payload::quoted(b),
    ensures
        a == b,
{
    quoting_survives_any_value(a);
    quoting_survives_any_value(b);
}

// --- declarations -------------------------------------------------------------

/// Every parameter is declared global: the payload is evaluated inside a
/// function, where a declaration would be local otherwise.
pub proof fn declarations_are_global(c: ChangeModel, vals: Seq<Seq<char>>)
    requires
        c.kind is Scalar || c.kind is Array || c.kind is Assoc,
        payload::is_valid_name(c.name),
    ensures
        payload::set_stmt_model(c, vals) is Some,
        text::begins_with(payload::set_stmt_model(c, vals)->0, "typeset -g"@),
{
    reveal_strlit("typeset -g");
    reveal_strlit("typeset ");
    reveal_strlit("-g");
    let s = payload::set_stmt_model(c, vals)->0;
    assert("typeset -g"@ =~= "typeset "@ + "-g"@);
    assert(s.subrange(0, 10) =~= "typeset -g"@);
}

// --- order --------------------------------------------------------------------

proof fn lemma_below_rank(changes: Seq<ChangeModel>, rank: int, i: int)
    requires
        0 <= i < payload::below_rank(changes, rank).len(),
    ensures
        0 <= payload::rank_of(payload::below_rank(changes, rank)[i]) < rank,
        changes.contains(payload::below_rank(changes, rank)[i]),
    decreases rank,
{
    if rank > 0 {
        let before = payload::below_rank(changes, rank - 1);
        let here = |c: ChangeModel| payload::rank_of(c) == rank - 1;
        if i < before.len() {
            lemma_below_rank(changes, rank - 1, i);
        } else {
            let j = text::lemma_filter_source(changes, here, i - before.len());
        }
    }
}

/// Within an entry, changes are applied by rank: no change comes before one of
/// a lower rank.
pub proof fn changes_are_applied_by_rank(changes: Seq<ChangeModel>, i: int, j: int)
    requires
        0 <= i < j < payload::ordered(changes).len(),
    ensures
        payload::rank_of(payload::ordered(changes)[i]) <= payload::rank_of(
            payload::ordered(changes)[j],
        ),
{
    lemma_rank_order(changes, 5, i, j);
}

proof fn lemma_rank_order(changes: Seq<ChangeModel>, rank: int, i: int, j: int)
    requires
        0 <= i < j < payload::below_rank(changes, rank).len(),
    ensures
        payload::rank_of(payload::below_rank(changes, rank)[i]) <= payload::rank_of(
            payload::below_rank(changes, rank)[j],
        ),
    decreases rank,
{
    if rank > 0 {
        let before = payload::below_rank(changes, rank - 1);
        let here = |c: ChangeModel| payload::rank_of(c) == rank - 1;
        if j < before.len() {
            lemma_rank_order(changes, rank - 1, i, j);
        } else {
            let b = text::lemma_filter_source(changes, here, j - before.len());
            if i < before.len() {
                lemma_below_rank(changes, rank - 1, i);
            } else {
                let a = text::lemma_filter_source(changes, here, i - before.len());
            }
        }
    }
}

proof fn lemma_rank_kept(changes: Seq<ChangeModel>, rank: int, r: int)
    requires
        0 <= r,
    ensures
        payload::at_rank(payload::below_rank(changes, rank), r) == if r < rank {
            payload::at_rank(changes, r)
        } else {
            Seq::<ChangeModel>::empty()
        },
    decreases rank,
{
    let pick = |c: ChangeModel| payload::rank_of(c) == r;
    reveal(Seq::filter);
    if rank <= 0 {
        assert(payload::at_rank(payload::below_rank(changes, rank), r) =~= Seq::<
            ChangeModel,
        >::empty());
    } else {
        let before = payload::below_rank(changes, rank - 1);
        let here = payload::at_rank(changes, rank - 1);
        let at = |c: ChangeModel| payload::rank_of(c) == rank - 1;
        lemma_rank_kept(changes, rank - 1, r);
        Seq::filter_distributes_over_add(before, here, pick);
        if r == rank - 1 {
            assert forall|i: int| 0 <= i < here.len() implies pick(#[trigger] here[i]) by {
                let j = text::lemma_filter_source(changes, at, i);
            }
            text::lemma_filter_agrees(here, pick, |c: ChangeModel| true);
            text::lemma_filter_all(here);
            assert(Seq::<ChangeModel>::empty() + here =~= here);
        } else {
            if here.filter(pick).len() > 0 {
                let i = text::lemma_filter_source(here, pick, 0);
                let j = text::lemma_filter_source(changes, at, i);
            }
            assert(here.filter(pick) =~= Seq::<ChangeModel>::empty());
            assert(before.filter(pick) + Seq::<ChangeModel>::empty() =~= before.filter(pick));
        }
    }
}

/// Ordering loses no change, adds none, and keeps those of one rank as they
/// come.
pub proof fn ordering_keeps_every_change(changes: Seq<ChangeModel>, rank: int)
    requires
        0 <= rank < 5,
    ensures
        payload::at_rank(payload::ordered(changes), rank) == payload::at_rank(changes, rank),
        payload::ordered(changes).len() == changes.len(),
{
    lemma_rank_kept(changes, 5, rank);
    lemma_ordered_len(changes);
}

/// Within an entry, ordered lists come first, so that an autoload stub is
/// resolved against the new search path; a function comes before the aliases
/// and completion bindings that may name it; and the apply machinery comes
/// last, so that every guard runs on one version of it.
pub proof fn changes_come_after_what_they_need(changes: Seq<ChangeModel>, i: int, j: int)
    requires
        0 <= i < j < payload::ordered(changes).len(),
    ensures
        ({
            let (a, b) = (payload::ordered(changes)[i], payload::ordered(changes)[j]);
            &&& payload::is_own(a) ==> payload::is_own(b)
            &&& !payload::is_own(b) && state::is_list_model(b.kind, b.attrs)
                ==> state::is_list_model(a.kind, a.attrs)
            &&& !payload::is_own(b) && (b.kind is Func || b.kind is Autoload) ==> !(a.kind is Alias
                || a.kind is Galias || a.kind is Salias || a.kind is Compdef)
        }),
{
    changes_are_applied_by_rank(changes, i, j);
}

proof fn lemma_ordered_len(changes: Seq<ChangeModel>)
    ensures
        payload::ordered(changes).len() == changes.len(),
    decreases changes.len(),
{
    reveal(Seq::filter);
    reveal_with_fuel(payload::below_rank, 6);
    if changes.len() > 0 {
        lemma_ordered_len(changes.drop_last());
    }
}

// --- guards -------------------------------------------------------------------

/// A test on what a key holds in the live shell.
pub enum Test {
    /// It holds just these values.
    Holds { vals: Seq<Seq<char>> },
    /// It is not there.
    Absent,
}

/// The program around a statement: the statement runs if one of `tests`
/// passes; else nothing happens if `fine` passes; else a conflict is recorded.
pub struct Guard {
    pub tests: Seq<Test>,
    pub fine: Option<Test>,
}

/// The guard of a change.
pub open spec fn guard_of(c: ChangeModel) -> Guard {
    match (c.old, c.new) {
        (Some(old), None) => Guard {
            tests: seq![Test::Holds { vals: old }],
            fine: Some(Test::Absent),
        },
        (None, Some(new)) => Guard {
            tests: seq![Test::Absent, Test::Holds { vals: new }],
            fine: None,
        },
        (Some(old), Some(new)) => Guard {
            tests: seq![Test::Holds { vals: old }, Test::Holds { vals: new }],
            fine: None,
        },
        (None, None) => Guard { tests: Seq::empty(), fine: None },
    }
}

/// How a test is written.
pub open spec fn written_test(c: ChangeModel, t: Test) -> Seq<char> {
    match t {
        Test::Holds { vals } => payload::holds_test(c, vals),
        Test::Absent => payload::absent_test(c),
    }
}

/// How a guard is written around a statement.
pub open spec fn written_guard(c: ChangeModel, g: Guard, stmt: Seq<char>) -> Seq<char> {
    "if "@ + text::joined(g.tests.map_values(|t: Test| written_test(c, t)), " || "@)
        + "; then\n  "@ + stmt + (match g.fine {
        Some(t) => "\nelif "@ + written_test(c, t) + "; then\n  :"@,
        None => Seq::empty(),
    }) + payload::conflict_branch(c)
}

/// The code around a statement is its guard.
pub proof fn code_is_guarded(c: ChangeModel, stmt: Seq<char>)
    requires
        c.old is Some || c.new is Some,
    ensures
        payload::guarded_model(c, stmt) == written_guard(c, guard_of(c), stmt),
{
    let g = guard_of(c);
    let parts = g.tests.map_values(|t: Test| written_test(c, t));
    reveal_with_fuel(text::joined, 3);
    match (c.old, c.new) {
        (Some(old), None) => {
            assert(parts =~= seq![payload::holds_test(c, old)]);
        },
        (None, Some(new)) => {
            assert(parts =~= seq![payload::absent_test(c), payload::holds_test(c, new)]);
            assert(parts.drop_last() =~= seq![payload::absent_test(c)]);
        },
        (Some(old), Some(new)) => {
            assert(parts =~= seq![payload::holds_test(c, old), payload::holds_test(c, new)]);
            assert(parts.drop_last() =~= seq![payload::holds_test(c, old)]);
        },
        (None, None) => {},
    }
    assert(payload::guarded_model(c, stmt) =~= written_guard(c, g, stmt));
}

/// Does a test pass where the key holds `live`, or nothing?
pub open spec fn passes(t: Test, live: Option<Seq<Seq<char>>>) -> bool {
    match t {
        Test::Holds { vals } => live == Some(vals),
        Test::Absent => live is None,
    }
}

/// What becomes of a change in a shell.
pub enum Outcome {
    Applied,
    Kept,
    Conflict,
}

/// What a guard lets happen.
pub open spec fn outcome(g: Guard, live: Option<Seq<Seq<char>>>) -> Outcome {
    if exists|i: int| 0 <= i < g.tests.len() && passes(#[trigger] g.tests[i], live) {
        Outcome::Applied
    } else if g.fine matches Some(t) && passes(t, live) {
        Outcome::Kept
    } else {
        Outcome::Conflict
    }
}

/// Local edits win: a key that holds neither what was last published for it
/// nor what it is to become is left alone, and a conflict is recorded.
pub proof fn local_edits_win(c: ChangeModel, live: Option<Seq<Seq<char>>>)
    requires
        c.old is Some || c.new is Some,
        live != c.old,
        live != c.new,
    ensures
        outcome(guard_of(c), live) is Conflict,
{
}

/// A key that nobody has edited follows: it becomes what was published. One
/// that is there already stays.
pub proof fn unedited_keys_follow(c: ChangeModel, live: Option<Seq<Seq<char>>>)
    requires
        c.old is Some || c.new is Some,
        live == c.old || live == c.new,
    ensures
        outcome(guard_of(c), live) is Applied || (outcome(guard_of(c), live) is Kept && live
            == c.new),
{
    let g = guard_of(c);
    match (c.old, c.new) {
        (Some(old), None) => {
            assert(passes(g.tests[0], Some(old)));
        },
        (None, Some(new)) => {
            assert(passes(g.tests[0], None));
            assert(passes(g.tests[1], Some(new)));
        },
        (Some(old), Some(new)) => {
            assert(passes(g.tests[0], Some(old)));
            assert(passes(g.tests[1], Some(new)));
        },
        (None, None) => {},
    }
}

/// Shells converge: a key that holds what the previous generation says of it
/// takes every change of the next one, and then holds what that says.
pub proof fn unedited_shells_converge(
    prev: Seq<(KeyModel, ItemModel)>,
    next: Seq<(KeyModel, ItemModel)>,
    i: int,
)
    requires
        table::ascending::<Key, ItemModel>(prev),
        table::ascending::<Key, ItemModel>(next),
        0 <= i < state::difference(prev, next).len(),
    ensures
        ({
            let c = state::difference(prev, next)[i];
            let live = state::vals_at(table::row_map(prev), c.key());
            &&& outcome(guard_of(c), live) is Applied
            &&& c.new == state::vals_at(table::row_map(next), c.key())
        }),
{
    state_laws::changes_carry_their_base(prev, next, i);
    let c = state::difference(prev, next)[i];
    let live = state::vals_at(table::row_map(prev), c.key());
    unedited_keys_follow(c, live);
}

// --- composition --------------------------------------------------------------

/// To catch up with several entries at once is to catch up with them one after
/// the other: the code is the same, and so is what the lists hold afterwards.
pub proof fn catching_up_in_two_steps(
    a: Seq<(u64, Seq<ChangeModel>)>,
    b: Seq<(u64, Seq<ChangeModel>)>,
    ours: StateModel,
    patterns: Seq<Seq<char>>,
)
    ensures
        ({
            let first = payload::entries_payload(a, ours, patterns);
            let then = payload::entries_payload(b, first.ours, patterns);
            payload::entries_payload(a + b, ours, patterns) == (Payload {
                code: first.code + then.code,
                ours: then.ours,
            })
        }),
    decreases b.len(),
{
    let first = payload::entries_payload(a, ours, patterns);
    if b.len() == 0 {
        assert(a + b =~= a);
        assert(first.code + Seq::<char>::empty() =~= first.code);
    } else {
        assert((a + b).drop_last() =~= a + b.drop_last());
        catching_up_in_two_steps(a, b.drop_last(), ours, patterns);
        let before = payload::entries_payload(b.drop_last(), first.ours, patterns);
        let last = payload::entry_payload(b.last().0, b.last().1, before.ours, patterns);
        assert(first.code + before.code + last.code =~= first.code + (before.code + last.code));
    }
}

/// The line that moves the cursor.
pub open spec fn cursor_line(seq: u64) -> Seq<char> {
    "SHAREZED_CURSOR="@ + text::decimal(seq as nat) + "\n"@
}

/// The code for entries ends by moving the cursor to the last of them.
pub proof fn payload_moves_the_cursor(
    entries: Seq<(u64, Seq<ChangeModel>)>,
    ours: StateModel,
    patterns: Seq<Seq<char>>,
) -> (front: Seq<char>)
    requires
        entries.len() > 0,
    ensures
        payload::entries_payload(entries, ours, patterns).code == front + cursor_line(
            entries.last().0,
        ),
{
    let before = payload::entries_payload(entries.drop_last(), ours, patterns);
    let seq = entries.last().0;
    let body = payload::changes_payload(
        payload::ordered(entries.last().1),
        before.ours,
        patterns,
    );
    let front = before.code + ("# entry "@ + text::decimal(seq as nat) + "\n"@ + body.code);
    assert(payload::entries_payload(entries, ours, patterns).code =~= front + cursor_line(seq));
    front
}

/// A change touches what is known of the shell's lists only under its own key,
/// and only if it is an ordered list.
proof fn lemma_changes_touch_lists_only(
    changes: Seq<ChangeModel>,
    ours: StateModel,
    patterns: Seq<Seq<char>>,
    k: KeyModel,
)
    requires
        forall|i: int|
            0 <= i < changes.len() && (#[trigger] changes[i]).key() == k ==> !(
            changes[i].new is Some && state::is_list_model(changes[i].kind, changes[i].attrs)),
    ensures
        ({
            let after = payload::changes_payload(changes, ours, patterns).ours;
            after.dom().contains(k) == ours.dom().contains(k) && (ours.dom().contains(k) ==> after[k]
                == ours[k])
        }),
    decreases changes.len(),
{
    if changes.len() > 0 {
        let before = changes.drop_last();
        assert forall|i: int| 0 <= i < before.len() && (#[trigger] before[i]).key() == k implies !(
        before[i].new is Some && state::is_list_model(before[i].kind, before[i].attrs)) by {
            assert(changes[i] == before[i]);
        }
        lemma_changes_touch_lists_only(before, ours, patterns, k);
        assert(changes[changes.len() - 1] == changes.last());
    }
}

/// What an entry does not change as an ordered list stays as it is in the
/// shell's lists.
pub proof fn payload_touches_lists_only(
    seq: u64,
    changes: Seq<ChangeModel>,
    ours: StateModel,
    patterns: Seq<Seq<char>>,
    k: KeyModel,
)
    requires
        forall|i: int|
            0 <= i < changes.len() && (#[trigger] changes[i]).key() == k ==> !(
            changes[i].new is Some && state::is_list_model(changes[i].kind, changes[i].attrs)),
    ensures
        ({
            let after = payload::entry_payload(seq, changes, ours, patterns).ours;
            after.dom().contains(k) == ours.dom().contains(k) && (ours.dom().contains(k) ==> after[k]
                == ours[k])
        }),
{
    let sorted = payload::ordered(changes);
    assert forall|i: int| 0 <= i < sorted.len() && (#[trigger] sorted[i]).key() == k implies !(
    sorted[i].new is Some && state::is_list_model(sorted[i].kind, sorted[i].attrs)) by {
        lemma_below_rank(changes, 5, i);
        let j = choose|j: int| 0 <= j < changes.len() && changes[j] == sorted[i];
        assert(changes[j].key() == k);
    }
    lemma_changes_touch_lists_only(sorted, ours, patterns, k);
}

} // verus!
