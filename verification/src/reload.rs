//! A reload, as a machine: what happened goes in, what to do next comes out.
//!
//! The order of its actions is what keeps a reload safe. Nothing is published
//! that a shell cannot parse; prints are recorded only for a capture that has
//! nothing to publish or whose generation has landed; and a capture that may
//! not publish leaves the prints stale, because there is a real difference
//! waiting for somebody to look at it.

use crate::delivery::{self, payload_fault};
use crate::report::{self, describe_all, plural};
use crate::state::{self, summary, Change, ChangeModel};
use crate::text::{self, decimal_of};
use vstd::prelude::*;
use vstd::string::*;

verus! {

/// How a reload was asked for.
#[derive(Clone, Copy)]
pub struct Options {
    /// Capture even if nothing that is tracked has moved.
    pub force: bool,
    /// Say nothing on success.
    pub silent: bool,
    /// Only say whether a capture would have something to do.
    pub check: bool,
    /// Capture, but publish and record nothing.
    pub dry_run: bool,
    /// Publish nothing, but record the prints if there is nothing to publish.
    pub if_noop: bool,
    /// Say how much would be published, not what.
    pub plain: bool,
}

/// What is known of the last capture once the channel is locked.
pub struct Inspection {
    pub head: u64,
    /// How many files and how many commands are tracked.
    pub files: usize,
    pub commands: usize,
    /// The first of them that has moved.
    pub stale: Option<String>,
    /// The digest that was recorded when a capture could not publish.
    pub stalled: String,
    /// The digest of what is tracked, as it is now.
    pub digest: String,
}

/// What happened.
pub enum Event {
    Asked,
    /// The first tracked file or command that has moved.
    Checked { stale: Option<String> },
    /// The channel is locked; `missing` is the bootstrap, as it is displayed,
    /// if it is not a file.
    Locked { missing: Option<String> },
    Inspected { seen: Inspection },
    /// A capture was made; `changes` lead from the state at `head` to it.
    Captured { head: u64, changes: Vec<Change> },
    /// A shell has read the payload; `fault` is what it complained of.
    Validated { fault: Option<Vec<u8>> },
    Saved,
    Published { seq: u64 },
}

/// What to do next.
pub enum Action {
    /// Compare what is tracked with what was recorded, without a lock: this
    /// runs before every prompt of every shell.
    Check,
    Lock,
    Inspect,
    Capture,
    /// Have a bare shell parse the payload.
    Validate,
    /// Record the prints of this capture.
    SaveFresh,
    /// Record only that this capture had something to publish.
    SaveStalled { digest: String },
    Publish,
    Finish { code: u8 },
    Fail { message: String },
}

/// Where a reload stands.
pub enum Phase {
    Begun,
    Checking,
    Locking,
    Inspecting,
    Capturing { digest: String },
    Settling { head: u64 },
    Validating { head: u64, digest: String, changes: Vec<Change> },
    Stalling { head: u64, changes: Vec<Change> },
    Publishing { head: u64, changes: Vec<Change> },
    Recording { head: u64, seq: u64, changes: Vec<Change> },
    Done,
}

/// One turn of the machine: where it stands now, what to do, what to say.
pub struct Turn {
    pub phase: Phase,
    pub action: Action,
    pub said: Vec<String>,
}

// --- models -------------------------------------------------------------------

pub struct InspectionModel {
    pub head: u64,
    pub files: usize,
    pub commands: usize,
    pub stale: Option<Seq<char>>,
    pub stalled: Seq<char>,
    pub digest: Seq<char>,
}

pub enum EventModel {
    Asked,
    Checked { stale: Option<Seq<char>> },
    Locked { missing: Option<Seq<char>> },
    Inspected { seen: InspectionModel },
    Captured { head: u64, changes: Seq<ChangeModel> },
    Validated { fault: Option<Seq<u8>> },
    Saved,
    Published { seq: u64 },
}

pub enum ActionModel {
    Check,
    Lock,
    Inspect,
    Capture,
    Validate,
    SaveFresh,
    SaveStalled { digest: Seq<char> },
    Publish,
    Finish { code: u8 },
    Fail { message: Seq<char> },
}

pub enum PhaseModel {
    Begun,
    Checking,
    Locking,
    Inspecting,
    Capturing { digest: Seq<char> },
    Settling { head: u64 },
    Validating { head: u64, digest: Seq<char>, changes: Seq<ChangeModel> },
    Stalling { head: u64, changes: Seq<ChangeModel> },
    Publishing { head: u64, changes: Seq<ChangeModel> },
    Recording { head: u64, seq: u64, changes: Seq<ChangeModel> },
    Done,
}

pub struct TurnModel {
    pub phase: PhaseModel,
    pub action: ActionModel,
    pub said: Seq<Seq<char>>,
}

impl View for Inspection {
    type V = InspectionModel;

    open spec fn view(&self) -> InspectionModel {
        InspectionModel {
            head: self.head,
            files: self.files,
            commands: self.commands,
            stale: crate::prints::optional_text(self.stale),
            stalled: self.stalled@,
            digest: self.digest@,
        }
    }
}

impl View for Event {
    type V = EventModel;

    open spec fn view(&self) -> EventModel {
        match self {
            Event::Asked => EventModel::Asked,
            Event::Checked { stale } => EventModel::Checked {
                stale: crate::prints::optional_text(*stale),
            },
            Event::Locked { missing } => EventModel::Locked {
                missing: crate::prints::optional_text(*missing),
            },
            Event::Inspected { seen } => EventModel::Inspected { seen: seen@ },
            Event::Captured { head, changes } => EventModel::Captured {
                head: *head,
                changes: state::change_models(changes@),
            },
            Event::Validated { fault } => EventModel::Validated {
                fault: crate::prints::optional_bytes(*fault),
            },
            Event::Saved => EventModel::Saved,
            Event::Published { seq } => EventModel::Published { seq: *seq },
        }
    }
}

impl View for Action {
    type V = ActionModel;

    open spec fn view(&self) -> ActionModel {
        match self {
            Action::Check => ActionModel::Check,
            Action::Lock => ActionModel::Lock,
            Action::Inspect => ActionModel::Inspect,
            Action::Capture => ActionModel::Capture,
            Action::Validate => ActionModel::Validate,
            Action::SaveFresh => ActionModel::SaveFresh,
            Action::SaveStalled { digest } => ActionModel::SaveStalled { digest: digest@ },
            Action::Publish => ActionModel::Publish,
            Action::Finish { code } => ActionModel::Finish { code: *code },
            Action::Fail { message } => ActionModel::Fail { message: message@ },
        }
    }
}

impl View for Phase {
    type V = PhaseModel;

    open spec fn view(&self) -> PhaseModel {
        match self {
            Phase::Begun => PhaseModel::Begun,
            Phase::Checking => PhaseModel::Checking,
            Phase::Locking => PhaseModel::Locking,
            Phase::Inspecting => PhaseModel::Inspecting,
            Phase::Capturing { digest } => PhaseModel::Capturing { digest: digest@ },
            Phase::Settling { head } => PhaseModel::Settling { head: *head },
            Phase::Validating { head, digest, changes } => PhaseModel::Validating {
                head: *head,
                digest: digest@,
                changes: state::change_models(changes@),
            },
            Phase::Stalling { head, changes } => PhaseModel::Stalling {
                head: *head,
                changes: state::change_models(changes@),
            },
            Phase::Publishing { head, changes } => PhaseModel::Publishing {
                head: *head,
                changes: state::change_models(changes@),
            },
            Phase::Recording { head, seq, changes } => PhaseModel::Recording {
                head: *head,
                seq: *seq,
                changes: state::change_models(changes@),
            },
            Phase::Done => PhaseModel::Done,
        }
    }
}

impl View for Turn {
    type V = TurnModel;

    open spec fn view(&self) -> TurnModel {
        TurnModel { phase: self.phase@, action: self.action@, said: text::texts(self.said@) }
    }
}

// --- what is said -------------------------------------------------------------

/// `lines`, unless nothing is to be said.
pub open spec fn unless_silent(o: Options, lines: Seq<Seq<char>>) -> Seq<Seq<char>> {
    if o.silent {
        Seq::empty()
    } else {
        lines
    }
}

pub open spec fn changed_line(path: Seq<char>) -> Seq<char> {
    "changed: "@ + path
}

/// `gen n: `
pub open spec fn gen_prefix(head: u64) -> Seq<char> {
    "gen "@ + text::decimal(head as nat) + ": "@
}

/// What is said when a capture would publish but may not.
pub open spec fn would_publish(o: Options, head: u64, changes: Seq<ChangeModel>) -> Seq<Seq<char>> {
    seq![gen_prefix(head) + "would publish "@ + state::summary_model(changes)] + (if o.plain {
        Seq::empty()
    } else {
        report::descriptions(changes)
    })
}

/// What is said when a generation has landed.
pub open spec fn has_published(
    channel: Seq<char>,
    head: u64,
    seq: u64,
    changes: Seq<ChangeModel>,
) -> Seq<Seq<char>> {
    seq![
        "gen "@ + text::decimal(head as nat) + " → gen "@ + text::decimal(seq as nat) + ": "@
            + state::summary_model(changes),
        "published to channel '"@ + channel + "'"@,
    ]
}

// --- the machine --------------------------------------------------------------

/// Is another capture needed, with the channel locked? The prints that the
/// last one recorded answer that without a shell: a new `source` line or a new
/// command takes an edit to a file that is tracked already.
pub open spec fn after_inspection(o: Options, seen: InspectionModel) -> TurnModel {
    if !o.force && seen.files > 0 && seen.stale is None {
        TurnModel {
            phase: PhaseModel::Done,
            action: ActionModel::Finish { code: 0 },
            said: unless_silent(
                o,
                seq![
                    gen_prefix(seen.head) + report::counted(seen.files as nat, "file"@) + " and "@
                        + report::counted(seen.commands as nat, "command"@) + " unchanged"@,
                ],
            ),
        }
    } else {
        let moved = if !o.force && seen.files > 0 {
            unless_silent(o, seq![changed_line(seen.stale->0)])
        } else {
            Seq::empty()
        };
        // Nothing has moved since the capture that found something to publish,
        // so its answer still stands.
        if o.if_noop && !o.force && seen.stalled == seen.digest && seen.digest.len() > 0 {
            TurnModel {
                phase: PhaseModel::Done,
                action: ActionModel::Finish { code: 1 },
                said: moved + unless_silent(
                    o,
                    seq![
                        gen_prefix(seen.head)
                            + "still something to publish, unchanged since the last capture"@,
                    ],
                ),
            }
        } else {
            TurnModel {
                phase: PhaseModel::Capturing { digest: seen.digest },
                action: ActionModel::Capture,
                said: moved,
            }
        }
    }
}

/// The end of a capture that has nothing to publish.
pub open spec fn settled(o: Options, head: u64) -> TurnModel {
    TurnModel {
        phase: PhaseModel::Done,
        action: ActionModel::Finish { code: 0 },
        said: unless_silent(o, seq![gen_prefix(head) + "nothing to publish"@]),
    }
}

/// The end of a capture that may not publish.
pub open spec fn refused(o: Options, head: u64, changes: Seq<ChangeModel>) -> TurnModel {
    TurnModel {
        phase: PhaseModel::Done,
        action: ActionModel::Finish { code: 1 },
        said: unless_silent(o, would_publish(o, head, changes)),
    }
}

/// The turn that an event brings; none if the machine does not wait for it.
pub open spec fn turn(o: Options, channel: Seq<char>, phase: PhaseModel, event: EventModel) -> Option<
    TurnModel,
> {
    let silent = Seq::<Seq<char>>::empty();
    match (phase, event) {
        (PhaseModel::Begun, EventModel::Asked) => Some(
            if o.check {
                TurnModel {
                    phase: PhaseModel::Checking,
                    action: ActionModel::Check,
                    said: silent,
                }
            } else {
                TurnModel { phase: PhaseModel::Locking, action: ActionModel::Lock, said: silent }
            },
        ),
        (PhaseModel::Checking, EventModel::Checked { stale }) => Some(
            match stale {
                Some(p) => TurnModel {
                    phase: PhaseModel::Done,
                    action: ActionModel::Finish { code: 1 },
                    said: unless_silent(o, seq![changed_line(p)]),
                },
                None => TurnModel {
                    phase: PhaseModel::Done,
                    action: ActionModel::Finish { code: 0 },
                    said: silent,
                },
            },
        ),
        (PhaseModel::Locking, EventModel::Locked { missing }) => Some(
            match missing {
                Some(b) => TurnModel {
                    phase: PhaseModel::Done,
                    action: ActionModel::Fail {
                        message: "bootstrap "@ + b + " is not a file"@,
                    },
                    said: silent,
                },
                None => TurnModel {
                    phase: PhaseModel::Inspecting,
                    action: ActionModel::Inspect,
                    said: silent,
                },
            },
        ),
        (PhaseModel::Inspecting, EventModel::Inspected { seen }) => Some(after_inspection(o, seen)),
        (PhaseModel::Capturing { digest }, EventModel::Captured { head, changes }) => Some(
            if changes.len() > 0 {
                TurnModel {
                    phase: PhaseModel::Validating { head, digest, changes },
                    action: ActionModel::Validate,
                    said: silent,
                }
            } else if o.dry_run {
                settled(o, head)
            } else {
                TurnModel {
                    phase: PhaseModel::Settling { head },
                    action: ActionModel::SaveFresh,
                    said: silent,
                }
            },
        ),
        (PhaseModel::Settling { head }, EventModel::Saved) => Some(settled(o, head)),
        (
            PhaseModel::Validating { head, digest, changes },
            EventModel::Validated { fault },
        ) => Some(
            match fault {
                Some(f) => TurnModel {
                    phase: PhaseModel::Done,
                    action: ActionModel::Fail {
                        message: delivery::fault_text(f),
                    },
                    said: silent,
                },
                None => if o.if_noop {
                    TurnModel {
                        phase: PhaseModel::Stalling { head, changes },
                        action: ActionModel::SaveStalled { digest },
                        said: silent,
                    }
                } else if o.dry_run {
                    refused(o, head, changes)
                } else {
                    TurnModel {
                        phase: PhaseModel::Publishing { head, changes },
                        action: ActionModel::Publish,
                        said: silent,
                    }
                },
            },
        ),
        (PhaseModel::Stalling { head, changes }, EventModel::Saved) => Some(
            refused(o, head, changes),
        ),
        (PhaseModel::Publishing { head, changes }, EventModel::Published { seq }) => Some(
            TurnModel {
                phase: PhaseModel::Recording { head, seq, changes },
                action: ActionModel::SaveFresh,
                said: silent,
            },
        ),
        (PhaseModel::Recording { head, seq, changes }, EventModel::Saved) => Some(
            TurnModel {
                phase: PhaseModel::Done,
                action: ActionModel::Finish { code: 0 },
                said: unless_silent(o, has_published(channel, head, seq, changes)),
            },
        ),
        _ => None,
    }
}

// --- the code -----------------------------------------------------------------

/// A list without a line.
fn nothing() -> (r: Vec<String>)
    ensures
        text::texts(r@) == Seq::<Seq<char>>::empty(),
{
    let none: Vec<String> = Vec::new();
    assert(text::texts(none@) =~= Seq::<Seq<char>>::empty());
    none
}

/// One line, unless nothing is to be said.
fn say(o: &Options, line: String) -> (r: Vec<String>)
    ensures
        text::texts(r@) == unless_silent(*o, seq![line@]),
{
    if o.silent {
        return nothing();
    }
    let ghost l = line@;
    let r: Vec<String> = vec![line];
    assert(text::texts(r@) =~= seq![l]);
    r
}

fn say_changed(o: &Options, path: &str) -> (r: Vec<String>)
    ensures
        text::texts(r@) == unless_silent(*o, seq![changed_line(path@)]),
{
    let mut line = "changed: ".to_owned();
    line.append(path);
    say(o, line)
}

fn gen(head: u64) -> (r: String)
    ensures
        r@ == gen_prefix(head),
{
    let mut out = "gen ".to_owned();
    out.append(decimal_of(head).as_str());
    out.append(": ");
    out
}

fn finish(code: u8, said: Vec<String>) -> (r: Turn)
    ensures
        r@ == (TurnModel {
            phase: PhaseModel::Done,
            action: ActionModel::Finish { code },
            said: text::texts(said@),
        }),
{
    Turn { phase: Phase::Done, action: Action::Finish { code }, said }
}

fn go_on(phase: Phase, action: Action) -> (r: Turn)
    ensures
        r@ == (TurnModel {
            phase: phase@,
            action: action@,
            said: Seq::<Seq<char>>::empty(),
        }),
{
    Turn { phase, action, said: nothing() }
}

fn fail(message: String) -> (r: Turn)
    ensures
        r@ == (TurnModel {
            phase: PhaseModel::Done,
            action: ActionModel::Fail { message: message@ },
            said: Seq::<Seq<char>>::empty(),
        }),
{
    Turn { phase: Phase::Done, action: Action::Fail { message }, said: nothing() }
}

fn inspected(o: &Options, seen: Inspection) -> (r: Turn)
    ensures
        r@ == after_inspection(*o, seen@),
{
    let mut said: Vec<String> = nothing();
    if !o.force && seen.files > 0 {
        match &seen.stale {
            None => {
                let mut line: String = gen(seen.head);
                line.append(plural(seen.files, "file").as_str());
                line.append(" and ");
                line.append(plural(seen.commands, "command").as_str());
                line.append(" unchanged");
                return finish(0, say(o, line));
            },
            Some(p) => {
                said = say_changed(o, p.as_str());
            },
        }
    }
    let ghost moved = text::texts(said@);
    if o.if_noop && !o.force && seen.stalled == seen.digest && !seen.digest.as_str().is_empty() {
        let mut line: String = gen(seen.head);
        line.append("still something to publish, unchanged since the last capture");
        let mut more: Vec<String> = say(o, line);
        let ghost last = text::texts(more@);
        said.append(&mut more);
        assert(text::texts(said@) =~= moved + last);
        return finish(1, said);
    }
    Turn { phase: Phase::Capturing { digest: seen.digest }, action: Action::Capture, said }
}

fn finish_settled(o: &Options, head: u64) -> (r: Turn)
    ensures
        r@ == settled(*o, head),
{
    let mut line: String = gen(head);
    line.append("nothing to publish");
    finish(0, say(o, line))
}

fn finish_refused(o: &Options, head: u64, changes: &Vec<Change>) -> (r: Turn)
    ensures
        r@ == refused(*o, head, state::change_models(changes@)),
{
    if o.silent {
        return finish(1, nothing());
    }
    let mut line: String = gen(head);
    line.append("would publish ");
    line.append(summary(changes.as_slice()).as_str());
    let ghost first = line@;
    let mut said: Vec<String> = vec![line];
    assert(text::texts(said@) =~= seq![first]);
    if !o.plain {
        let mut more: Vec<String> = describe_all(changes.as_slice());
        let ghost rest = text::texts(more@);
        said.append(&mut more);
        assert(text::texts(said@) =~= seq![first] + rest);
    } else {
        assert(text::texts(said@) =~= seq![first] + Seq::<Seq<char>>::empty());
    }
    finish(1, said)
}

fn finish_published(o: &Options, channel: &str, head: u64, seq: u64, changes: &Vec<Change>) -> (r: Turn)
    ensures
        r@ == (TurnModel {
            phase: PhaseModel::Done,
            action: ActionModel::Finish { code: 0 },
            said: unless_silent(
                *o,
                has_published(channel@, head, seq, state::change_models(changes@)),
            ),
        }),
{
    if o.silent {
        return finish(0, nothing());
    }
    let mut line = "gen ".to_owned();
    line.append(decimal_of(head).as_str());
    line.append(" → gen ");
    line.append(decimal_of(seq).as_str());
    line.append(": ");
    line.append(summary(changes.as_slice()).as_str());
    let mut where_to = "published to channel '".to_owned();
    where_to.append(channel);
    where_to.append("'");
    let ghost both = seq![line@, where_to@];
    let said: Vec<String> = vec![line, where_to];
    assert(text::texts(said@) =~= both);
    finish(0, said)
}

/// Takes one turn: what happened, where that leaves the reload, and what to do
/// and say. `None` if the machine does not wait for this event.
pub fn step(o: &Options, channel: &str, phase: Phase, event: Event) -> (r: Option<Turn>)
    ensures
        match r {
            Some(t) => turn(*o, channel@, phase@, event@) == Some(t@),
            None => turn(*o, channel@, phase@, event@) is None,
        },
{
    match (phase, event) {
        (Phase::Begun, Event::Asked) => Some(
            if o.check {
                go_on(Phase::Checking, Action::Check)
            } else {
                go_on(Phase::Locking, Action::Lock)
            },
        ),
        (Phase::Checking, Event::Checked { stale }) => Some(
            match stale {
                Some(p) => finish(1, say_changed(o, p.as_str())),
                None => finish(0, nothing()),
            },
        ),
        (Phase::Locking, Event::Locked { missing }) => Some(
            match missing {
                Some(b) => {
                    let mut m = "bootstrap ".to_owned();
                    m.append(b.as_str());
                    m.append(" is not a file");
                    fail(m)
                },
                None => go_on(Phase::Inspecting, Action::Inspect),
            },
        ),
        (Phase::Inspecting, Event::Inspected { seen }) => Some(inspected(o, seen)),
        (Phase::Capturing { digest }, Event::Captured { head, changes }) => Some(
            if changes.len() > 0 {
                go_on(Phase::Validating { head, digest, changes }, Action::Validate)
            } else if o.dry_run {
                finish_settled(o, head)
            } else {
                go_on(Phase::Settling { head }, Action::SaveFresh)
            },
        ),
        (Phase::Settling { head }, Event::Saved) => Some(finish_settled(o, head)),
        (Phase::Validating { head, digest, changes }, Event::Validated { fault }) => Some(
            match fault {
                Some(f) => fail(payload_fault(f.as_slice())),
                None => {
                    if o.if_noop {
                        go_on(Phase::Stalling { head, changes }, Action::SaveStalled { digest })
                    } else if o.dry_run {
                        finish_refused(o, head, &changes)
                    } else {
                        go_on(Phase::Publishing { head, changes }, Action::Publish)
                    }
                },
            },
        ),
        (Phase::Stalling { head, changes }, Event::Saved) => Some(
            finish_refused(o, head, &changes),
        ),
        (Phase::Publishing { head, changes }, Event::Published { seq }) => Some(
            go_on(Phase::Recording { head, seq, changes }, Action::SaveFresh),
        ),
        (Phase::Recording { head, seq, changes }, Event::Saved) => Some(
            finish_published(o, channel, head, seq, &changes),
        ),
        _ => None,
    }
}

} // verus!
