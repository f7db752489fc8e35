//! What a shell is handed, and what that does to it: which statements run, on
//! what condition, and what its ordered lists hold afterwards.

use crate::delivery;
use crate::lists;
use crate::merge;
use crate::merge_laws;
use crate::payload::{self, Payload};
use crate::payload_laws;
use crate::report_laws;
use crate::shell_laws;
use crate::state::{self, ChangeModel, StateModel};
use crate::text;
use crate::text_laws;
use crate::wire;
use vstd::prelude::*;
use vstd::string::*;

verus! {

// --- one change ---------------------------------------------------------------

/// The change is one of an ordered list: an array whose attributes say that it
/// is tied to a scalar.
pub open spec fn is_list_change(c: ChangeModel) -> bool {
    c.kind is Array && shell_laws::has_word(c.attrs, "tied"@)
}

proof fn lemma_is_list(c: ChangeModel)
    ensures
        state::is_list_model(c.kind, c.attrs) <==> is_list_change(c),
{
    shell_laws::lemma_has_part(c.attrs, "tied"@);
}

/// The change is one of the machinery: its name begins with `_sharezed_`.
pub open spec fn is_machinery(c: ChangeModel) -> bool {
    exists|rest: Seq<char>| c.name == #[trigger] ("_sharezed_"@ + rest)
}

proof fn lemma_is_machinery(c: ChangeModel)
    ensures
        payload::is_own(c) <==> is_machinery(c),
{
    let p = "_sharezed_"@;
    if payload::is_own(c) {
        assert(c.name =~= p + c.name.skip(p.len() as int));
    }
    if is_machinery(c) {
        let rest = choose|rest: Seq<char>| c.name == #[trigger] (p + rest);
        assert(c.name.subrange(0, p.len() as int) =~= p);
    }
}

/// The branch for a local edit calls the function that records it, with the
/// name of the key, and does nothing else.
pub proof fn conflicts_are_recorded(c: ChangeModel) -> (call: Seq<char>)
    ensures
        payload::conflict_branch(c) == "\nelse\n  "@ + call + "\nfi\n"@,
        shell_laws::shell_words(call) == seq!["_sharezed_conflict"@, c.name],
{
    reveal_strlit("\nelse\n  _sharezed_conflict ");
    reveal_strlit("\nelse\n  ");
    reveal_strlit("_sharezed_conflict ");
    reveal_strlit("_sharezed_conflict");
    reveal_strlit(" ");
    let call = "_sharezed_conflict "@ + payload::quoted(c.name);
    assert("_sharezed_conflict "@ =~= "_sharezed_conflict"@ + " "@);
    shell_laws::lemma_call_with_one("_sharezed_conflict"@, c.name);
    assert(payload::conflict_branch(c) =~= "\nelse\n  "@ + call + "\nfi\n"@);
    call
}

/// What is no merge of a list leaves the lists alone. Its statement runs under
/// the guard of its key, so that a local edit is never overwritten; only the
/// machinery itself, which nobody edits, comes without.
pub proof fn statements_run_under_their_guard(
    c: ChangeModel,
    ours: StateModel,
    patterns: Seq<Seq<char>>,
)
    requires
        c.new is None || !is_list_change(c),
    ensures
        ({
            let p = payload::change_payload(c, ours, patterns);
            let stmt = match c.new {
                Some(vals) => payload::set_stmt_model(c, vals),
                None => payload::unset_stmt_model(c),
            };
            &&& p.ours == ours
            &&& stmt is None ==> p.code.len() == 0
            &&& stmt is Some && is_machinery(c) ==> p.code == stmt->0 + "\n"@
            &&& stmt is Some && !is_machinery(c) && (c.old is Some || c.new is Some) ==> p.code
                == payload_laws::written_guard(c, payload_laws::guard_of(c), stmt->0)
        }),
{
    lemma_is_list(c);
    lemma_is_machinery(c);
    if c.old is Some || c.new is Some {
        let stmt = match c.new {
            Some(vals) => payload::set_stmt_model(c, vals),
            None => payload::unset_stmt_model(c),
        };
        if stmt is Some {
            payload_laws::code_is_guarded(c, stmt->0);
        }
    }
}

// --- ordered lists ------------------------------------------------------------

/// What an ordered list holds after a change to it.
pub open spec fn list_after(c: ChangeModel, ours: StateModel, patterns: Seq<Seq<char>>) -> Seq<
    Seq<char>,
> {
    payload::change_payload(c, ours, patterns).ours[c.key()].vals
}

/// A change to an ordered list changes that list and no other key, and gives it
/// the attributes of the change.
pub proof fn list_changes_stay_with_their_list(
    c: ChangeModel,
    ours: StateModel,
    patterns: Seq<Seq<char>>,
    k: state::KeyModel,
)
    requires
        c.new is Some,
        is_list_change(c),
    ensures
        ({
            let after = payload::change_payload(c, ours, patterns).ours;
            &&& after.contains_key(c.key())
            &&& after[c.key()].attrs == c.attrs
            &&& k != c.key() ==> (after.contains_key(k) <==> ours.contains_key(k))
            &&& k != c.key() && ours.contains_key(k) ==> after[k] == ours[k]
        }),
{
    lemma_is_list(c);
}

/// A list that the shell has is merged: against what was last published for
/// it, where the change says so.
pub proof fn lists_are_merged_against_what_was_published(
    c: ChangeModel,
    ours: StateModel,
    patterns: Seq<Seq<char>>,
)
    requires
        c.new is Some,
        c.old is Some,
        is_list_change(c),
        ours.contains_key(c.key()),
    ensures
        ({
            let live = ours[c.key()].vals;
            list_after(c, ours, patterns) == merge::merged(
                c.old->0,
                live,
                c.new->0,
                merge::families_among(patterns, live, c.new->0),
            ).list
        }),
{
    lemma_is_list(c);
}

/// For a change that carries what was last published, nothing else that the
/// shell holds matters: not the list at installation, not any other key. The
/// code and the list afterwards go by the live list alone.
pub proof fn only_the_live_list_matters(
    c: ChangeModel,
    ours: StateModel,
    others: StateModel,
    patterns: Seq<Seq<char>>,
)
    requires
        c.new is Some,
        c.old is Some,
        is_list_change(c),
        ours.contains_key(c.key()) == others.contains_key(c.key()),
        ours.contains_key(c.key()) ==> ours[c.key()].vals == others[c.key()].vals,
    ensures
        list_after(c, ours, patterns) == list_after(c, others, patterns),
        payload::change_payload(c, ours, patterns).code == payload::change_payload(
            c,
            others,
            patterns,
        ).code,
{
    lemma_is_list(c);
}

/// A list that nobody has edited follows: where the live list is what was last
/// published, it becomes the new list, without repeats, and no note is made.
pub proof fn unedited_lists_follow(c: ChangeModel, ours: StateModel, patterns: Seq<Seq<char>>)
    requires
        c.new is Some,
        c.old is Some,
        is_list_change(c),
        ours.contains_key(c.key()),
        lists::norms_of(lists::deduped(ours[c.key()].vals)) == lists::norms_of(
            lists::deduped(c.old->0),
        ),
    ensures
        list_after(c, ours, patterns) == lists::deduped(c.new->0),
{
    lemma_is_list(c);
    let live = ours[c.key()].vals;
    merge_laws::untouched_lists_fast_forward(
        c.old->0,
        live,
        c.new->0,
        merge::families_among(patterns, live, c.new->0),
    );
}

/// A list that is new to the log is merged against the list that the shell had
/// when its hook was installed, as if that had been published; without one,
/// against nothing.
pub proof fn new_lists_go_by_the_installation(
    c: ChangeModel,
    ours: StateModel,
    patterns: Seq<Seq<char>>,
)
    requires
        c.new is Some,
        c.old is None,
        is_list_change(c),
    ensures
        ({
            let kept = (c.kind, "@base:"@ + c.name);
            let base = if ours.contains_key(kept) {
                ours[kept].vals
            } else {
                Seq::empty()
            };
            list_after(c, ours, patterns) == list_after(
                ChangeModel { old: Some(base), ..c },
                ours,
                patterns,
            )
        }),
{
    lemma_is_list(c);
}

/// A list that the shell does not have is taken over as it is.
pub proof fn absent_lists_are_taken_over(c: ChangeModel, ours: StateModel, patterns: Seq<Seq<char>>)
    requires
        c.new is Some,
        is_list_change(c),
        !ours.contains_key(c.key()),
    ensures
        list_after(c, ours, patterns) == c.new->0,
{
    lemma_is_list(c);
}

/// The shell is told just what is kept of its list: behind the notes stands one
/// statement that assigns the list, whole and in order.
pub proof fn lists_are_told_as_they_are_kept(
    c: ChangeModel,
    ours: StateModel,
    patterns: Seq<Seq<char>>,
) -> (r: (Seq<char>, Seq<char>))
    requires
        c.new is Some,
        is_list_change(c),
        payload::is_valid_name(c.name),
    ensures
        payload::change_payload(c, ours, patterns).code == r.0 + r.1 + "\n"@,
        shell_laws::shell_words(r.1) == seq![
            "typeset"@,
            payload::flags_model(c.kind, c.attrs),
            c.name + "=("@,
        ] + list_after(c, ours, patterns) + seq![")"@],
        !ours.contains_key(c.key()) ==> r.0.len() == 0,
{
    reveal_strlit(" )\n");
    reveal_strlit(" )");
    reveal_strlit("\n");
    lemma_is_list(c);
    let m = payload::list_merge(c, c.new->0, ours, patterns);
    let notes = payload::note_lines(c.name, m.notes);
    let stmt = payload::declaration(c) + "=( "@ + payload::quoted_list(m.list) + " )"@;
    shell_laws::lemma_read_assignment(c, m.list);
    assert(payload::change_payload(c, ours, patterns).code =~= notes + stmt + "\n"@);
    (notes, stmt)
}

/// The notes of a merge are comments: each gets a line of its own, with the
/// name of the list.
pub proof fn notes_are_commented(name: Seq<char>, notes: Seq<Seq<char>>, i: int) -> (r: (
    Seq<char>,
    Seq<char>,
))
    requires
        0 <= i < notes.len(),
    ensures
        payload::note_lines(name, notes) == r.0 + ("# "@ + name + ": "@ + notes[i] + "\n"@) + r.1,
        r.0 == payload::note_lines(name, notes.take(i)),
    decreases notes.len(),
{
    if i == notes.len() - 1 {
        let front = payload::note_lines(name, notes.drop_last());
        assert(notes.take(i) =~= notes.drop_last());
        assert(payload::note_lines(name, notes) =~= front + ("# "@ + name + ": "@ + notes[i]
            + "\n"@) + Seq::<char>::empty());
        (front, Seq::empty())
    } else {
        let (a, b) = notes_are_commented(name, notes.drop_last(), i);
        let last = "# "@ + name + ": "@ + notes.last() + "\n"@;
        assert(notes.drop_last().take(i) =~= notes.take(i));
        assert(payload::note_lines(name, notes) =~= a + ("# "@ + name + ": "@ + notes[i] + "\n"@)
            + (b + last));
        (a, b + last)
    }
}

// --- entries ------------------------------------------------------------------

/// To apply several changes is to apply them one after the other.
pub proof fn changes_in_two_steps(
    a: Seq<ChangeModel>,
    b: Seq<ChangeModel>,
    ours: StateModel,
    patterns: Seq<Seq<char>>,
)
    ensures
        ({
            let first = payload::changes_payload(a, ours, patterns);
            let then = payload::changes_payload(b, first.ours, patterns);
            payload::changes_payload(a + b, ours, patterns) == (Payload {
                code: first.code + then.code,
                ours: then.ours,
            })
        }),
    decreases b.len(),
{
    let first = payload::changes_payload(a, ours, patterns);
    if b.len() == 0 {
        assert(a + b =~= a);
        assert(first.code + Seq::<char>::empty() =~= first.code);
    } else {
        assert((a + b).drop_last() =~= a + b.drop_last());
        changes_in_two_steps(a, b.drop_last(), ours, patterns);
        let mid = payload::changes_payload(b.drop_last(), first.ours, patterns);
        let last = payload::change_payload(b.last(), mid.ours, patterns);
        assert((first.code + mid.code) + last.code =~= first.code + (mid.code + last.code));
    }
}

/// Every change of an entry is applied, on what the ones before it have left:
/// its code stands in the code of the entry, whole.
pub proof fn every_change_is_applied(
    seq: u64,
    changes: Seq<ChangeModel>,
    ours: StateModel,
    patterns: Seq<Seq<char>>,
    i: int,
) -> (r: (Seq<char>, Seq<char>))
    requires
        0 <= i < payload::ordered(changes).len(),
    ensures
        ({
            let all = payload::ordered(changes);
            let before = payload::changes_payload(all.take(i), ours, patterns);
            payload::entry_payload(seq, changes, ours, patterns).code == r.0
                + payload::change_payload(all[i], before.ours, patterns).code + r.1
        }),
{
    let all = payload::ordered(changes);
    let a = all.take(i);
    let one = seq![all[i]];
    let b = all.skip(i + 1);
    assert(all =~= (a + one) + b);
    changes_in_two_steps(a + one, b, ours, patterns);
    changes_in_two_steps(a, one, ours, patterns);
    let before = payload::changes_payload(a, ours, patterns);
    assert(one.drop_last() =~= Seq::<ChangeModel>::empty());
    reveal_with_fuel(payload::changes_payload, 2);
    let mid = payload::change_payload(all[i], before.ours, patterns);
    assert(payload::changes_payload(one, before.ours, patterns).code =~= mid.code);
    let upto = payload::changes_payload(a + one, ours, patterns);
    let rest = payload::changes_payload(b, upto.ours, patterns);
    let front = "# entry "@ + text::decimal(seq as nat) + "\n"@ + before.code;
    let back = rest.code + ("SHAREZED_CURSOR="@ + text::decimal(seq as nat) + "\n"@);
    assert(payload::entry_payload(seq, changes, ours, patterns).code =~= front + mid.code + back);
    (front, back)
}

/// An entry is announced by a comment with its number and ends by moving the
/// cursor to it; an entry without a change does nothing else.
pub proof fn entries_are_announced(
    seq: u64,
    changes: Seq<ChangeModel>,
    ours: StateModel,
    patterns: Seq<Seq<char>>,
) -> (body: Seq<char>)
    ensures
        payload::entry_payload(seq, changes, ours, patterns).code == "# entry "@ + text::decimal(
            seq as nat,
        ) + "\n"@ + body + payload_laws::cursor_line(seq),
        changes.len() == 0 ==> body.len() == 0 && payload::entry_payload(
            seq,
            changes,
            ours,
            patterns,
        ).ours == ours,
{
    let p = payload::changes_payload(payload::ordered(changes), ours, patterns);
    if changes.len() == 0 {
        payload_laws::ordering_keeps_every_change(changes, 0);
    }
    assert(payload::entry_payload(seq, changes, ours, patterns).code =~= "# entry "@
        + text::decimal(seq as nat) + "\n"@ + p.code + payload_laws::cursor_line(seq));
    p.code
}

/// One entry alone is handed over as it is.
pub proof fn single_entries_are_handed_over(
    seq: u64,
    changes: Seq<ChangeModel>,
    ours: StateModel,
    patterns: Seq<Seq<char>>,
    head: u64,
)
    ensures
        payload::entries_payload(seq![(seq, changes)], ours, patterns) == payload::entry_payload(
            seq,
            changes,
            ours,
            patterns,
        ),
        delivery::catch_up_code(ours, seq![(seq, changes)], head, patterns)
            == payload::entry_payload(seq, changes, ours, patterns).code,
{
    let all = seq![(seq, changes)];
    assert(all.drop_last() =~= Seq::<(u64, Seq<ChangeModel>)>::empty());
    reveal_with_fuel(payload::entries_payload, 2);
    let one = payload::entry_payload(seq, changes, ours, patterns);
    assert(Seq::<char>::empty() + one.code =~= one.code);
    assert(payload::entries_payload(all, ours, patterns).code =~= one.code);
    assert(delivery::catch_up_code(ours, all, head, patterns) =~= one.code);
}

/// To catch up with entries is to be handed them one after the other. Without
/// one, the shell is only told where the head is.
pub proof fn catching_up_hands_every_entry_over(
    a: Seq<(u64, Seq<ChangeModel>)>,
    b: Seq<(u64, Seq<ChangeModel>)>,
    ours: StateModel,
    head: u64,
    patterns: Seq<Seq<char>>,
)
    requires
        a.len() > 0,
        b.len() > 0,
    ensures
        delivery::catch_up_code(ours, a + b, head, patterns) == delivery::catch_up_code(
            ours,
            a,
            head,
            patterns,
        ) + delivery::catch_up_code(
            payload::entries_payload(a, ours, patterns).ours,
            b,
            head,
            patterns,
        ),
        delivery::catch_up_code(ours, Seq::empty(), head, patterns) == payload_laws::cursor_line(
            head,
        ),
{
    payload_laws::catching_up_in_two_steps(a, b, ours, patterns);
    let first = payload::entries_payload(a, ours, patterns);
    let then = payload::entries_payload(b, first.ours, patterns);
    let none = Seq::<char>::empty();
    assert(delivery::catch_up_code(ours, a + b, head, patterns) =~= first.code + then.code);
    assert(delivery::catch_up_code(ours, a, head, patterns) =~= first.code);
    assert(delivery::catch_up_code(first.ours, b, head, patterns) =~= then.code);
    assert(delivery::catch_up_code(ours, Seq::empty(), head, patterns)
        =~= payload_laws::cursor_line(head));
}

/// The line that moves the cursor assigns it the number of the generation.
pub proof fn cursor_lines_assign_the_cursor(seq: u64)
    ensures
        payload_laws::cursor_line(seq).drop_last() == "SHAREZED_CURSOR="@ + text::decimal(seq as nat),
        payload_laws::cursor_line(seq).last() == '\n',
{
    reveal_strlit("\n");
    assert(payload_laws::cursor_line(seq).drop_last() =~= "SHAREZED_CURSOR="@ + text::decimal(
        seq as nat,
    ));
}

/// A shell is handed every generation after its cursor up to the head, each
/// once, in order, and no other.
pub proof fn pending_is_what_lies_between(cursor: u64, head: u64, n: u64)
    ensures
        delivery::pending_entries(cursor, head).contains(n) <==> cursor < n <= head,
        forall|i: int, j: int|
            0 <= i < j < delivery::pending_entries(cursor, head).len()
                ==> #[trigger] delivery::pending_entries(cursor, head)[i]
                < #[trigger] delivery::pending_entries(cursor, head)[j],
{
    let p = delivery::pending_entries(cursor, head);
    if cursor < n <= head {
        assert(p[n - cursor - 1] == n);
    }
}

// --- the hook -----------------------------------------------------------------

/// `part` stands in `a + part + b` behind `a`, and not before.
pub open spec fn is_first(a: Seq<char>, part: Seq<char>, b: Seq<char>) -> bool {
    forall|i: int| 0 <= i < a.len() ==> !text::occurs_at(a + part + b, part, i)
}

/// Each of the three marks of the hook's template is filled in with its own
/// name, quoted, wherever it stands; a template without marks stays as it is.
pub proof fn hooks_are_filled_in(
    template: Seq<char>,
    a: Seq<char>,
    b: Seq<char>,
    bin: Seq<char>,
    channel: Seq<char>,
    head: Seq<char>,
)
    ensures
        !text::has_part(template, "@BIN@"@) && !text::has_part(template, "@CHANNEL@"@)
            && !text::has_part(template, "@HEAD@"@) ==> delivery::hook_model(
            template,
            bin,
            channel,
            head,
        ) == template,
        ({
            let r = a + payload::quoted(bin) + text::replaced(
                b,
                "@BIN@"@,
                payload::quoted(bin),
            );
            is_first(a, "@BIN@"@, b) && !text::has_part(r, "@CHANNEL@"@) && !text::has_part(
                r,
                "@HEAD@"@,
            ) ==> delivery::hook_model(a + "@BIN@"@ + b, bin, channel, head) == r
        }),
        ({
            let r = a + payload::quoted(channel) + text::replaced(
                b,
                "@CHANNEL@"@,
                payload::quoted(channel),
            );
            is_first(a, "@CHANNEL@"@, b) && !text::has_part(a + "@CHANNEL@"@ + b, "@BIN@"@)
                && !text::has_part(r, "@HEAD@"@) ==> delivery::hook_model(
                a + "@CHANNEL@"@ + b,
                bin,
                channel,
                head,
            ) == r
        }),
        ({
            let r = a + payload::quoted(head) + text::replaced(
                b,
                "@HEAD@"@,
                payload::quoted(head),
            );
            is_first(a, "@HEAD@"@, b) && !text::has_part(a + "@HEAD@"@ + b, "@BIN@"@)
                && !text::has_part(a + "@HEAD@"@ + b, "@CHANNEL@"@) ==> delivery::hook_model(
                a + "@HEAD@"@ + b,
                bin,
                channel,
                head,
            ) == r
        }),
{
    reveal_strlit("@BIN@");
    reveal_strlit("@CHANNEL@");
    reveal_strlit("@HEAD@");
    let x = "@BIN@"@;
    let y = "@CHANNEL@"@;
    let z = "@HEAD@"@;
    lemma_untouched(template, x, payload::quoted(bin));
    lemma_untouched(template, y, payload::quoted(channel));
    lemma_untouched(template, z, payload::quoted(head));
    if is_first(a, x, b) {
        let r = a + payload::quoted(bin) + text::replaced(b, x, payload::quoted(bin));
        text_laws::the_first_part_is_replaced(a, x, b, payload::quoted(bin));
        lemma_untouched(r, y, payload::quoted(channel));
        lemma_untouched(r, z, payload::quoted(head));
    }
    if is_first(a, y, b) {
        let r = a + payload::quoted(channel) + text::replaced(b, y, payload::quoted(channel));
        lemma_untouched(a + y + b, x, payload::quoted(bin));
        text_laws::the_first_part_is_replaced(a, y, b, payload::quoted(channel));
        lemma_untouched(r, z, payload::quoted(head));
    }
    if is_first(a, z, b) {
        lemma_untouched(a + z + b, x, payload::quoted(bin));
        lemma_untouched(a + z + b, y, payload::quoted(channel));
        text_laws::the_first_part_is_replaced(a, z, b, payload::quoted(head));
    }
}

proof fn lemma_untouched(s: Seq<char>, part: Seq<char>, with: Seq<char>)
    ensures
        !text::has_part(s, part) ==> text::replaced(s, part, with) == s,
{
    if !text::has_part(s, part) {
        text_laws::nothing_to_replace_changes_nothing(s, part, with);
    }
}

/// What is said of a payload that a shell cannot parse ends with the shell's
/// own complaint.
pub proof fn complaints_are_passed_on(complaint: Seq<u8>)
    ensures
        report_laws::ends_with(delivery::fault_text(complaint), wire::decoded(complaint)),
{
    let t = delivery::fault_text(complaint);
    let w = wire::decoded(complaint);
    assert(t.skip(t.len() - w.len()) =~= w);
}

} // verus!
