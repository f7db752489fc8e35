//! Taking an entry back.

use crate::delivery::{self, payload_fault};
use crate::report_laws;
use crate::state::{
    self, diff, summary, Change, ChangeModel, Item, ItemModel, Key, KeyModel, State, StateModel,
};
use crate::state_laws;
use crate::table;
use crate::text::{self, copy_texts, decimal_of};
use crate::wire;
use vstd::prelude::*;
use vstd::string::*;

verus! {

/// The attributes that a key had in `before`. What was not there has none to
/// go back to and keeps those of the change.
pub open spec fn attrs_before(before: StateModel, c: ChangeModel) -> Seq<char> {
    if before.contains_key(c.key()) {
        before[c.key()].attrs
    } else {
        c.attrs
    }
}

/// `s` with one change taken back: the key has its base again, with the
/// attributes that it had in `before`, or is gone if it had none. A change
/// carries the new attributes only.
pub open spec fn undone(s: StateModel, before: StateModel, c: ChangeModel) -> StateModel {
    match c.old {
        Some(vals) => s.insert(c.key(), ItemModel { attrs: attrs_before(before, c), vals }),
        None => s.remove(c.key()),
    }
}

/// `s` with the changes of an entry taken back; `before` is the state that the
/// entry was made on.
pub open spec fn all_undone(
    s: StateModel,
    before: StateModel,
    changes: Seq<ChangeModel>,
) -> StateModel
    decreases changes.len(),
{
    if changes.len() == 0 {
        s
    } else {
        undone(all_undone(s, before, changes.drop_last()), before, changes.last())
    }
}

/// The state without an entry, and the changes that lead there.
pub struct Reversal {
    pub target: State,
    pub changes: Vec<Change>,
}

/// Takes the changes of an entry back. `before` is the state that the entry was
/// made on: if nothing was published since, that is what comes out.
pub fn revert(current: &State, before: &State, entry: &[Change]) -> (r: Reversal)
    ensures
        r.target@ == all_undone(current@, before@, state::change_models(entry@)),
        state::change_models(r.changes@) == state::difference(current.rows(), r.target.rows()),
        r.changes@.len() == 0 <==> current@ == r.target@,
        state::change_models(entry@) == state::difference(before.rows(), current.rows())
            ==> r.target@ == before@,
{
    let mut target: State = current.clone();
    let ghost all = state::change_models(entry@);
    assert(all.take(0) =~= Seq::<ChangeModel>::empty());
    for i in 0..entry.len()
        invariant
            all == state::change_models(entry@),
            target@ == all_undone(current@, before@, all.take(i as int)),
    {
        assert(all.take(i + 1).drop_last() =~= all.take(i as int));
        let c: &Change = &entry[i];
        assert(all[i as int] == c@);
        let key: Key = c.key();
        match &c.old {
            Some(vals) => {
                let attrs: String = match before.get(&key) {
                    Some(item) => item.attrs.clone(),
                    None => c.attrs.clone(),
                };
                target.insert(key, Item { attrs, vals: copy_texts(vals.as_slice()) });
            },
            None => {
                target.remove(&key);
            },
        }
    }
    assert(all.take(entry@.len() as int) =~= all);
    let changes: Vec<Change> = diff(current, &target);
    proof {
        use_type_invariant(current);
        use_type_invariant(before);
        use_type_invariant(&target);
        assert(changes@.len() == state::change_models(changes@).len());
        state_laws::no_difference_iff_same(current.rows(), target.rows());
        if current@ == target@ {
            table::lemma_rows_determined::<Key, ItemModel>(current.rows(), target.rows());
        }
        if all == state::difference(before.rows(), current.rows()) {
            reverting_restores_the_state_before(before.rows(), current.rows());
        }
    }
    Reversal { target, changes }
}

/// Says that there is nothing to take back.
pub fn already_reverted(seq: u64) -> (r: String)
    ensures
        r@ == already_line(seq),
{
    let mut out = "entry ".to_owned();
    out.append(decimal_of(seq).as_str());
    out.append(" is already reverted");
    out
}

/// Says that an entry was taken back by generation `new`.
pub fn reverted(new: u64, seq: u64, changes: &[Change]) -> (r: String)
    ensures
        r@ == reverted_line(new, seq, state::change_models(changes@)),
{
    let mut out = "gen ".to_owned();
    out.append(decimal_of(new).as_str());
    out.append(": reverted entry ");
    out.append(decimal_of(seq).as_str());
    out.append(" (");
    out.append(summary(changes).as_str());
    out.append(")");
    out
}

// --- the course of a reversal ---------------------------------------------------

/// What happened.
pub enum Event {
    /// The entry was taken back; `changes` lead to the state without it.
    Compared { changes: Vec<Change> },
    /// A shell has read the payload; `fault` is what it complained of.
    Validated { fault: Option<Vec<u8>> },
    Published { seq: u64 },
}

/// What to do next.
pub enum Action {
    /// Have a bare shell parse the payload.
    Validate,
    Publish,
    Finish,
    Fail { message: String },
}

/// Where a reversal stands.
pub enum Phase {
    Comparing,
    Validating { changes: Vec<Change> },
    Publishing { changes: Vec<Change> },
    Done,
}

/// One turn: where the reversal stands now, what to do, what to say.
pub struct Turn {
    pub phase: Phase,
    pub action: Action,
    pub said: Option<String>,
}

pub enum EventModel {
    Compared { changes: Seq<ChangeModel> },
    Validated { fault: Option<Seq<u8>> },
    Published { seq: u64 },
}

pub enum ActionModel {
    Validate,
    Publish,
    Finish,
    Fail { message: Seq<char> },
}

pub enum PhaseModel {
    Comparing,
    Validating { changes: Seq<ChangeModel> },
    Publishing { changes: Seq<ChangeModel> },
    Done,
}

pub struct TurnModel {
    pub phase: PhaseModel,
    pub action: ActionModel,
    pub said: Option<Seq<char>>,
}

impl View for Event {
    type V = EventModel;

    open spec fn view(&self) -> EventModel {
        match self {
            Event::Compared { changes } => EventModel::Compared {
                changes: state::change_models(changes@),
            },
            Event::Validated { fault } => EventModel::Validated {
                fault: crate::prints::optional_bytes(*fault),
            },
            Event::Published { seq } => EventModel::Published { seq: *seq },
        }
    }
}

impl View for Action {
    type V = ActionModel;

    open spec fn view(&self) -> ActionModel {
        match self {
            Action::Validate => ActionModel::Validate,
            Action::Publish => ActionModel::Publish,
            Action::Finish => ActionModel::Finish,
            Action::Fail { message } => ActionModel::Fail { message: message@ },
        }
    }
}

impl View for Phase {
    type V = PhaseModel;

    open spec fn view(&self) -> PhaseModel {
        match self {
            Phase::Comparing => PhaseModel::Comparing,
            Phase::Validating { changes } => PhaseModel::Validating {
                changes: state::change_models(changes@),
            },
            Phase::Publishing { changes } => PhaseModel::Publishing {
                changes: state::change_models(changes@),
            },
            Phase::Done => PhaseModel::Done,
        }
    }
}

impl View for Turn {
    type V = TurnModel;

    open spec fn view(&self) -> TurnModel {
        TurnModel {
            phase: self.phase@,
            action: self.action@,
            said: crate::prints::optional_text(self.said),
        }
    }
}

/// What is said when there is nothing to take back.
pub open spec fn already_line(seq: u64) -> Seq<char> {
    "entry "@ + text::decimal(seq as nat) + " is already reverted"@
}

/// What is said when an entry was taken back by generation `new`.
pub open spec fn reverted_line(new: u64, seq: u64, changes: Seq<ChangeModel>) -> Seq<char> {
    "gen "@ + text::decimal(new as nat) + ": reverted entry "@ + text::decimal(seq as nat) + " ("@
        + state::summary_model(changes) + ")"@
}

/// The turn that an event brings to the reversal of entry `seq`; none if it is
/// not waited for. Without a change nothing is published, and with one only
/// what a shell can parse.
pub open spec fn turn(seq: u64, phase: PhaseModel, event: EventModel) -> Option<TurnModel> {
    match (phase, event) {
        (PhaseModel::Comparing, EventModel::Compared { changes }) => Some(
            if changes.len() == 0 {
                TurnModel {
                    phase: PhaseModel::Done,
                    action: ActionModel::Finish,
                    said: Some(already_line(seq)),
                }
            } else {
                TurnModel {
                    phase: PhaseModel::Validating { changes },
                    action: ActionModel::Validate,
                    said: None,
                }
            },
        ),
        (PhaseModel::Validating { changes }, EventModel::Validated { fault }) => Some(
            match fault {
                Some(f) => TurnModel {
                    phase: PhaseModel::Done,
                    action: ActionModel::Fail { message: delivery::fault_text(f) },
                    said: None,
                },
                None => TurnModel {
                    phase: PhaseModel::Publishing { changes },
                    action: ActionModel::Publish,
                    said: None,
                },
            },
        ),
        (PhaseModel::Publishing { changes }, EventModel::Published { seq: new }) => Some(
            TurnModel {
                phase: PhaseModel::Done,
                action: ActionModel::Finish,
                said: Some(reverted_line(new, seq, changes)),
            },
        ),
        _ => None,
    }
}

/// Takes one turn of the reversal of entry `seq`. `None` if it does not wait
/// for this event.
pub fn step(seq: u64, phase: Phase, event: Event) -> (r: Option<Turn>)
    ensures
        match r {
            Some(t) => turn(seq, phase@, event@) == Some(t@),
            None => turn(seq, phase@, event@) is None,
        },
{
    match (phase, event) {
        (Phase::Comparing, Event::Compared { changes }) => Some(
            if changes.len() == 0 {
                Turn {
                    phase: Phase::Done,
                    action: Action::Finish,
                    said: Some(already_reverted(seq)),
                }
            } else {
                Turn {
                    phase: Phase::Validating { changes },
                    action: Action::Validate,
                    said: None,
                }
            },
        ),
        (Phase::Validating { changes }, Event::Validated { fault }) => Some(
            match fault {
                Some(f) => Turn {
                    phase: Phase::Done,
                    action: Action::Fail { message: payload_fault(f.as_slice()) },
                    said: None,
                },
                None => Turn {
                    phase: Phase::Publishing { changes },
                    action: Action::Publish,
                    said: None,
                },
            },
        ),
        (Phase::Publishing { changes }, Event::Published { seq: new }) => Some(
            Turn {
                phase: Phase::Done,
                action: Action::Finish,
                said: Some(reverted(new, seq, changes.as_slice())),
            },
        ),
        _ => None,
    }
}

// --- laws ---------------------------------------------------------------------

/// What a key holds in two states is the same.
pub open spec fn same_at(a: StateModel, b: StateModel, k: KeyModel) -> bool {
    a.dom().contains(k) == b.dom().contains(k) && (a.dom().contains(k) ==> a[k] == b[k])
}

proof fn lemma_untouched(
    s: StateModel,
    before: StateModel,
    changes: Seq<ChangeModel>,
    k: KeyModel,
)
    requires
        forall|i: int| 0 <= i < changes.len() ==> (#[trigger] changes[i]).key() != k,
    ensures
        same_at(all_undone(s, before, changes), s, k),
    decreases changes.len(),
{
    if changes.len() > 0 {
        let front = changes.drop_last();
        assert forall|i: int| 0 <= i < front.len() implies (#[trigger] front[i]).key() != k by {
            assert(changes[i] == front[i]);
        }
        lemma_untouched(s, before, front, k);
        assert(changes[changes.len() - 1].key() != k);
    }
}

proof fn lemma_undone_at(s: StateModel, before: StateModel, changes: Seq<ChangeModel>, i: int)
    requires
        0 <= i < changes.len(),
        forall|a: int, b: int|
            0 <= a < b < changes.len() ==> (#[trigger] changes[a]).key() != (
            #[trigger] changes[b]).key(),
    ensures
        same_at(
            all_undone(s, before, changes),
            undone(s, before, changes[i]),
            changes[i].key(),
        ),
    decreases changes.len(),
{
    let front = changes.drop_last();
    let k = changes[i].key();
    if i == changes.len() - 1 {
        assert forall|a: int| 0 <= a < front.len() implies (#[trigger] front[a]).key() != k by {
            assert(changes[a].key() != changes[i].key());
        }
        lemma_untouched(s, before, front, k);
    } else {
        assert forall|a: int, b: int| 0 <= a < b < front.len() implies (
        #[trigger] front[a]).key() != (#[trigger] front[b]).key() by {
            assert(changes[a].key() != changes[b].key());
        }
        lemma_undone_at(s, before, front, i);
        assert(front[i] == changes[i]);
        assert(changes[i].key() != changes[changes.len() - 1].key());
    }
}

/// A key on which two states differ is in their difference.
proof fn lemma_difference_covers(
    prev: Seq<(KeyModel, ItemModel)>,
    next: Seq<(KeyModel, ItemModel)>,
    k: KeyModel,
)
    requires
        table::ascending::<Key, ItemModel>(prev),
        table::ascending::<Key, ItemModel>(next),
        forall|i: int|
            0 <= i < state::difference(prev, next).len() ==> (#[trigger] state::difference(
                prev,
                next,
            )[i]).key() != k,
    ensures
        same_at(table::row_map(prev), table::row_map(next), k),
{
    let p = table::row_map(prev);
    let n = table::row_map(next);
    let d = state::difference(prev, next);
    let e = state::edits(p, next);
    let t = state::tombstones(prev, n);
    let fresh = |r: (KeyModel, ItemModel)| !state::has_same(p, r);
    let gone = |r: (KeyModel, ItemModel)| !n.contains_key(r.0);
    if n.contains_key(k) {
        let j = choose|j: int| 0 <= j < next.len() && (#[trigger] next[j]).0 == k;
        table::lemma_row_found::<Key, ItemModel>(next, j);
        if fresh(next[j]) {
            next.lemma_filter_contains(fresh, j);
            let f = next.filter(fresh);
            let q = choose|q: int| 0 <= q < f.len() && f[q] == next[j];
            assert(e[q] == state::edit_of(p, next[j]));
            assert(d[q].key() == k);
        }
    } else if p.contains_key(k) {
        let j = choose|j: int| 0 <= j < prev.len() && (#[trigger] prev[j]).0 == k;
        prev.lemma_filter_contains(gone, j);
        let f = prev.filter(gone);
        let q = choose|q: int| 0 <= q < f.len() && f[q] == prev[j];
        assert(t[q] == state::tombstone_of(prev[j]));
        assert(d[e.len() + q].key() == k);
    }
}

/// `changes` touch the key `k`.
pub open spec fn touches(changes: Seq<ChangeModel>, k: KeyModel) -> bool {
    exists|i: int| 0 <= i < changes.len() && (#[trigger] changes[i]).key() == k
}

/// Whatever was published since, to take an entry back gives every key that it
/// touched what the key held before the entry, values and attributes, and
/// leaves every other key alone.
pub proof fn reverting_inverts_an_entry(
    prev: Seq<(KeyModel, ItemModel)>,
    next: Seq<(KeyModel, ItemModel)>,
    now: StateModel,
    k: KeyModel,
)
    requires
        table::ascending::<Key, ItemModel>(prev),
        table::ascending::<Key, ItemModel>(next),
    ensures
        ({
            let d = state::difference(prev, next);
            let p = table::row_map(prev);
            let back = all_undone(now, p, d);
            same_at(
                back,
                if touches(d, k) {
                    p
                } else {
                    now
                },
                k,
            )
        }),
{
    let p = table::row_map(prev);
    let d = state::difference(prev, next);
    assert forall|a: int, b: int| 0 <= a < b < d.len() implies (#[trigger] d[a]).key() != (
    #[trigger] d[b]).key() by {
        state_laws::changes_name_each_key_once(prev, next, a, b);
    }
    if touches(d, k) {
        let i = choose|i: int| 0 <= i < d.len() && (#[trigger] d[i]).key() == k;
        lemma_undone_at(now, p, d, i);
        state_laws::changes_carry_their_base(prev, next, i);
    } else {
        lemma_untouched(now, p, d, k);
    }
}

proof fn lemma_same_everywhere(a: StateModel, b: StateModel)
    requires
        forall|k: KeyModel| #[trigger] same_at(a, b, k),
    ensures
        a == b,
{
    assert forall|k: KeyModel| a.dom().contains(k) == b.dom().contains(k) by {
        assert(same_at(a, b, k));
    }
    assert forall|k: KeyModel| #[trigger] a.dom().contains(k) implies a[k] == b[k] by {
        assert(same_at(a, b, k));
    }
    assert(a =~= b);
}

/// To take back the newest entry gives the state before it.
pub proof fn reverting_restores_the_state_before(
    prev: Seq<(KeyModel, ItemModel)>,
    next: Seq<(KeyModel, ItemModel)>,
)
    requires
        table::ascending::<Key, ItemModel>(prev),
        table::ascending::<Key, ItemModel>(next),
    ensures
        all_undone(table::row_map(next), table::row_map(prev), state::difference(prev, next))
            == table::row_map(prev),
{
    let p = table::row_map(prev);
    let n = table::row_map(next);
    let d = state::difference(prev, next);
    let back = all_undone(n, p, d);
    assert forall|k: KeyModel| #[trigger] same_at(back, p, k) by {
        reverting_inverts_an_entry(prev, next, n, k);
        if !touches(d, k) {
            lemma_difference_covers(prev, next, k);
        }
    }
    lemma_same_everywhere(back, p);
}

/// What a key of an entry holds once the entry is taken back does not depend
/// on what it held when it was.
proof fn lemma_touched(
    s: StateModel,
    t: StateModel,
    before: StateModel,
    changes: Seq<ChangeModel>,
    k: KeyModel,
)
    requires
        touches(changes, k),
    ensures
        same_at(all_undone(s, before, changes), all_undone(t, before, changes), k),
    decreases changes.len(),
{
    if changes.last().key() != k {
        let front = changes.drop_last();
        let i = choose|i: int| 0 <= i < changes.len() && (#[trigger] changes[i]).key() == k;
        assert(front[i].key() == k);
        lemma_touched(s, t, before, front, k);
    }
}

/// An entry that was taken back can be taken back again without effect.
pub proof fn reverting_twice_changes_nothing(
    s: StateModel,
    before: StateModel,
    changes: Seq<ChangeModel>,
)
    ensures
        all_undone(all_undone(s, before, changes), before, changes) == all_undone(
            s,
            before,
            changes,
        ),
{
    let once = all_undone(s, before, changes);
    let twice = all_undone(once, before, changes);
    assert forall|k: KeyModel| #[trigger] same_at(twice, once, k) by {
        if touches(changes, k) {
            lemma_touched(once, s, before, changes, k);
        } else {
            lemma_untouched(once, before, changes, k);
        }
    }
    lemma_same_everywhere(twice, once);
}

/// Where the reversal of an entry stands after `events`; none if one of them
/// was not waited for.
pub open spec fn phase_after(seq: u64, events: Seq<EventModel>) -> Option<PhaseModel>
    decreases events.len(), 1int,
{
    if events.len() == 0 {
        Some(PhaseModel::Comparing)
    } else {
        match turn_of(seq, events) {
            Some(t) => Some(t.phase),
            None => None,
        }
    }
}

/// The turn that the last of `events` brings.
pub open spec fn turn_of(seq: u64, events: Seq<EventModel>) -> Option<TurnModel>
    decreases events.len(), 0int,
{
    if events.len() == 0 {
        None
    } else {
        match phase_after(seq, events.drop_last()) {
            Some(p) => turn(seq, p, events.last()),
            None => None,
        }
    }
}

/// A reversal is published only if it changes something and a shell has parsed
/// its payload.
pub proof fn only_valid_reversals_are_published(seq: u64, events: Seq<EventModel>)
    requires
        turn_of(seq, events) is Some,
        turn_of(seq, events)->0.action is Publish,
    ensures
        events.len() == 2,
        events[0] matches EventModel::Compared { changes } && changes.len() > 0 && phase_after(
            seq,
            events,
        ) == Some(PhaseModel::Publishing { changes }),
        events[1] == (EventModel::Validated { fault: None }),
{
    let first = events.drop_last();
    reveal_with_fuel(phase_after, 3);
    reveal_with_fuel(turn_of, 3);
    assert(events.last() == (EventModel::Validated { fault: None }));
    assert(phase_after(seq, first)->0 is Validating);
    assert(first.len() > 0);
    let start = first.drop_last();
    assert(first.last() is Compared);
    assert(phase_after(seq, start) == Some(PhaseModel::Comparing));
    if start.len() > 0 {
        let t = turn_of(seq, start)->0;
        assert(!(t.phase is Comparing));
    }
    assert(events[0] == first.last());
}

/// A reversal that changes something is parsed by a shell and then published;
/// one that changes nothing ends at once and says so. What a shell cannot parse
/// fails with its complaint. When the new generation is there, the reversal
/// ends and names both generations.
pub proof fn reversals_follow_through(
    seq: u64,
    changes: Seq<ChangeModel>,
    complaint: Seq<u8>,
    new: u64,
)
    ensures
        turn(seq, PhaseModel::Comparing, EventModel::Compared { changes }) matches Some(t) && {
            &&& changes.len() > 0 ==> t.action is Validate && t.phase == (PhaseModel::Validating {
                changes,
            }) && t.said is None
            &&& changes.len() == 0 ==> t.action is Finish && t.phase is Done && t.said is Some
                && text::has_part(t.said->0, text::decimal(seq as nat))
        },
        turn(
            seq,
            PhaseModel::Validating { changes },
            EventModel::Validated { fault: None },
        ) matches Some(t) && t.action is Publish && t.phase == (PhaseModel::Publishing { changes }),
        turn(
            seq,
            PhaseModel::Validating { changes },
            EventModel::Validated { fault: Some(complaint) },
        ) matches Some(t) && {
            &&& t.phase is Done
            &&& t.action matches ActionModel::Fail { message } && text::has_part(
                message,
                wire::decoded(complaint),
            )
        },
        turn(
            seq,
            PhaseModel::Publishing { changes },
            EventModel::Published { seq: new },
        ) matches Some(t) && {
            &&& t.action is Finish
            &&& t.phase is Done
            &&& t.said is Some
            &&& text::has_part(t.said->0, text::decimal(seq as nat))
            &&& text::has_part(t.said->0, text::decimal(new as nat))
            &&& text::has_part(t.said->0, state::summary_model(changes))
        },
{
    let none = Seq::<char>::empty();
    let d = text::decimal(seq as nat);
    let e = text::decimal(new as nat);
    let s = state::summary_model(changes);
    let w = wire::decoded(complaint);
    assert(already_line(seq) == "entry "@ + d + " is already reverted"@);
    report_laws::lemma_part("entry "@, d, " is already reverted"@);
    let f = "generated payload does not parse, refusing to publish:\n"@;
    assert(delivery::fault_text(complaint) =~= f + w + none);
    report_laws::lemma_part(f, w, none);
    let l = reverted_line(new, seq, changes);
    let a = "gen "@;
    let b = ": reverted entry "@;
    assert(l =~= a + e + (b + d + " ("@ + s + ")"@));
    report_laws::lemma_part(a, e, b + d + " ("@ + s + ")"@);
    assert(l =~= (a + e + b) + d + (" ("@ + s + ")"@));
    report_laws::lemma_part(a + e + b, d, " ("@ + s + ")"@);
    assert(l =~= (a + e + b + d + " ("@) + s + ")"@);
    report_laws::lemma_part(a + e + b + d + " ("@, s, ")"@);
}

/// What a change took goes back in, with the attributes that it had before; a
/// key that was not there before is taken out, and no other key is touched.
pub proof fn undoing_touches_its_key_only(
    s: StateModel,
    before: StateModel,
    c: ChangeModel,
    k: KeyModel,
)
    ensures
        k != c.key() ==> same_at(undone(s, before, c), s, k),
        c.old is None ==> !undone(s, before, c).contains_key(c.key()),
        c.old is Some ==> undone(s, before, c).contains_key(c.key()) && undone(
            s,
            before,
            c,
        )[c.key()].vals == c.old->0,
        c.old is Some && before.contains_key(c.key()) ==> undone(s, before, c)[c.key()].attrs
            == before[c.key()].attrs,
        c.old is Some && !before.contains_key(c.key()) ==> undone(s, before, c)[c.key()].attrs
            == c.attrs,
{
}

} // verus!
