//! What holds of every reload, whatever happens to it.

use crate::reload::{
    self, ActionModel, EventModel, InspectionModel, Options, PhaseModel, TurnModel,
};
use crate::report;
use crate::report_laws;
use crate::state::{self, ChangeModel};
use crate::text;
use vstd::prelude::*;
use vstd::string::*;

verus! {

/// Where a reload stands after `events`; none if one of them was not waited
/// for.
pub open spec fn phase_after(o: Options, channel: Seq<char>, events: Seq<EventModel>) -> Option<
    PhaseModel,
>
    decreases events.len(), 1int,
{
    if events.len() == 0 {
        Some(PhaseModel::Begun)
    } else {
        match turn_of(o, channel, events) {
            Some(t) => Some(t.phase),
            None => None,
        }
    }
}

/// The turn that the last of `events` brings.
pub open spec fn turn_of(o: Options, channel: Seq<char>, events: Seq<EventModel>) -> Option<TurnModel>
    decreases events.len(), 0int,
{
    if events.len() == 0 {
        None
    } else {
        match phase_after(o, channel, events.drop_last()) {
            Some(p) => reload::turn(o, channel, p, events.last()),
            None => None,
        }
    }
}

/// `events` are a run of the machine that has got this far.
pub open spec fn is_run(o: Options, channel: Seq<char>, events: Seq<EventModel>) -> bool {
    events.len() > 0 && turn_of(o, channel, events) is Some
}

/// The capture that a run has made found `changes` against `head`.
pub open spec fn has_captured(events: Seq<EventModel>, head: u64, changes: Seq<ChangeModel>) -> bool {
    events.contains(EventModel::Captured { head, changes })
}

/// The inspection of a run gave this digest.
pub open spec fn has_inspected(events: Seq<EventModel>, digest: Seq<char>) -> bool {
    exists|i: int|
        0 <= i < events.len() && (#[trigger] events[i] matches EventModel::Inspected { seen }
            && seen.digest == digest)
}

/// What is true in each phase.
spec fn holds_in(o: Options, events: Seq<EventModel>, phase: PhaseModel) -> bool {
    match phase {
        PhaseModel::Begun | PhaseModel::Done => true,
        PhaseModel::Checking => o.check,
        PhaseModel::Locking | PhaseModel::Inspecting => !o.check,
        PhaseModel::Capturing { digest } => !o.check && has_inspected(events, digest),
        PhaseModel::Settling { head } => !o.check && !o.dry_run,
        PhaseModel::Validating { head, digest, changes } => !o.check && has_inspected(
            events,
            digest,
        ) && changes.len() > 0 && has_captured(events, head, changes),
        PhaseModel::Stalling { head, changes } => !o.check && o.if_noop && changes.len() > 0
            && has_captured(events, head, changes),
        PhaseModel::Publishing { head, changes } => !o.check && !o.if_noop && !o.dry_run
            && changes.len() > 0 && has_captured(events, head, changes),
        PhaseModel::Recording { head, seq, changes } => !o.check && !o.if_noop && !o.dry_run
            && changes.len() > 0 && has_captured(events, head, changes),
    }
}

proof fn lemma_grows(before: Seq<EventModel>, e: EventModel)
    ensures
        forall|head: u64, changes: Seq<ChangeModel>| #[trigger]
            has_captured(before, head, changes) ==> has_captured(before.push(e), head, changes),
        forall|digest: Seq<char>| #[trigger]
            has_inspected(before, digest) ==> has_inspected(before.push(e), digest),
        before.push(e).contains(e),
        e matches EventModel::Inspected { seen } ==> has_inspected(before.push(e), seen.digest),
{
    let all = before.push(e);
    assert(all[before.len() as int] == e);
    assert forall|head: u64, changes: Seq<ChangeModel>| #[trigger]
        has_captured(before, head, changes) implies has_captured(all, head, changes) by {
        let c = EventModel::Captured { head, changes };
        let i = choose|i: int| 0 <= i < before.len() && before[i] == c;
        assert(all[i] == c);
    }
    assert forall|digest: Seq<char>| #[trigger] has_inspected(before, digest) implies has_inspected(
        all,
        digest,
    ) by {
        let i = choose|i: int|
            0 <= i < before.len() && (#[trigger] before[i] matches EventModel::Inspected { seen }
                && seen.digest == digest);
        assert(all[i] == before[i]);
    }
}

proof fn lemma_holds(o: Options, channel: Seq<char>, events: Seq<EventModel>)
    requires
        phase_after(o, channel, events) is Some,
    ensures
        holds_in(o, events, phase_after(o, channel, events)->0),
    decreases events.len(),
{
    if events.len() > 0 {
        let before = events.drop_last();
        lemma_holds(o, channel, before);
        lemma_grows(before, events.last());
        assert(before.push(events.last()) =~= events);
    }
}

/// A check takes no lock, makes no capture, records nothing and publishes
/// nothing: it looks, and then it is over.
pub proof fn checks_only_look(o: Options, channel: Seq<char>, events: Seq<EventModel>)
    requires
        is_run(o, channel, events),
        o.check,
    ensures
        turn_of(o, channel, events)->0.action matches ActionModel::Check
            || turn_of(o, channel, events)->0.action is Finish,
{
    lemma_holds(o, channel, events.drop_last());
}

/// Only a reload that was asked to publish publishes, and only a capture that
/// found something and whose payload a shell has parsed.
pub proof fn only_valid_captures_are_published(
    o: Options,
    channel: Seq<char>,
    events: Seq<EventModel>,
)
    requires
        is_run(o, channel, events),
        turn_of(o, channel, events)->0.action is Publish,
    ensures
        !o.check && !o.dry_run && !o.if_noop,
        events.last() == (EventModel::Validated { fault: None }),
        exists|head: u64, changes: Seq<ChangeModel>|
            changes.len() > 0 && #[trigger] has_captured(events, head, changes)
                && phase_after(o, channel, events) == Some(
                PhaseModel::Publishing { head, changes },
            ),
{
    let before = events.drop_last();
    lemma_holds(o, channel, before);
    lemma_holds(o, channel, events);
    let p = phase_after(o, channel, events)->0;
    match p {
        PhaseModel::Publishing { head, changes } => {
            assert(has_captured(events, head, changes));
        },
        _ => {},
    }
}

/// A dry run records nothing and publishes nothing, so it can be repeated.
pub proof fn dry_runs_leave_no_trace(o: Options, channel: Seq<char>, events: Seq<EventModel>)
    requires
        is_run(o, channel, events),
        o.dry_run,
        !o.if_noop,
    ensures
        !(turn_of(o, channel, events)->0.action is Publish),
        !(turn_of(o, channel, events)->0.action is SaveFresh),
        !(turn_of(o, channel, events)->0.action is SaveStalled),
{
    lemma_holds(o, channel, events.drop_last());
}

/// The prints of a capture are recorded only when there is nothing to publish
/// or when the generation has landed. A print recorded for a generation that
/// did not land would never be looked at again.
pub proof fn prints_are_recorded_last(o: Options, channel: Seq<char>, events: Seq<EventModel>)
    requires
        is_run(o, channel, events),
        turn_of(o, channel, events)->0.action is SaveFresh,
    ensures
        events.last() is Published || (events.last() matches EventModel::Captured { head, changes }
            && changes.len() == 0),
{
}

/// A reload that may not publish publishes nothing, and what it records when
/// it has something to publish is the digest of what it inspected.
pub proof fn settling_never_publishes(o: Options, channel: Seq<char>, events: Seq<EventModel>)
    requires
        is_run(o, channel, events),
        o.if_noop,
    ensures
        !(turn_of(o, channel, events)->0.action is Publish),
        turn_of(o, channel, events)->0.action matches ActionModel::SaveStalled { digest }
            ==> has_inspected(events, digest),
{
    let before = events.drop_last();
    lemma_holds(o, channel, before);
    lemma_grows(before, events.last());
    assert(before.push(events.last()) =~= events);
}

/// A digest is recorded only by a reload that was asked not to publish.
pub proof fn only_settling_stalls(o: Options, channel: Seq<char>, events: Seq<EventModel>)
    requires
        is_run(o, channel, events),
        turn_of(o, channel, events)->0.action is SaveStalled,
    ensures
        o.if_noop,
{
}

/// A silent reload says nothing; what fails is still told.
pub proof fn silent_reloads_are_silent(o: Options, channel: Seq<char>, events: Seq<EventModel>)
    requires
        is_run(o, channel, events),
        o.silent,
    ensures
        turn_of(o, channel, events)->0.said.len() == 0,
{
}

/// A capture is made exactly when one is due: it was asked for by force, or
/// something that is tracked has moved (or nothing is tracked yet) and no
/// capture of just these files and commands has been refused.
pub proof fn captures_are_made_iff_due(o: Options, channel: Seq<char>, events: Seq<EventModel>)
    requires
        is_run(o, channel, events),
    ensures
        turn_of(o, channel, events)->0.action is Capture <==> (events.last() matches
            EventModel::Inspected { seen } && (o.force || ((seen.files == 0 || seen.stale is Some)
            && !(o.if_noop && seen.stalled == seen.digest && seen.digest.len() > 0)))),
{
}

/// A refused capture is remembered: while nothing has moved since, the next
/// reload that may not publish refuses without a capture.
pub proof fn refusals_are_remembered(
    o: Options,
    channel: Seq<char>,
    events: Seq<EventModel>,
    again: Options,
    later: Seq<EventModel>,
)
    requires
        is_run(o, channel, events),
        turn_of(o, channel, events)->0.action is SaveStalled,
        again.if_noop,
        !again.force,
        is_run(again, channel, later),
        later.last() matches EventModel::Inspected { seen } && {
            &&& seen.stalled == turn_of(o, channel, events)->0.action->digest
            &&& seen.digest == seen.stalled
            &&& seen.digest.len() > 0
            &&& seen.files == 0 || seen.stale is Some
        },
    ensures
        turn_of(again, channel, later)->0.action == (ActionModel::Finish { code: 1 }),
        phase_after(again, channel, later) == Some(PhaseModel::Done),
{
}

// --- what a reload goes on to do -----------------------------------------------

/// A reload that may publish does: as soon as a shell has parsed the payload of
/// the changes that the capture found, these changes are published, whatever
/// else was asked for.
pub proof fn valid_captures_are_published(
    o: Options,
    channel: Seq<char>,
    head: u64,
    digest: Seq<char>,
    changes: Seq<ChangeModel>,
)
    requires
        !o.dry_run,
        !o.if_noop,
    ensures
        ({
            let t = reload::turn(
                o,
                channel,
                PhaseModel::Validating { head, digest, changes },
                EventModel::Validated { fault: None },
            );
            &&& t is Some
            &&& t->0.action is Publish
            &&& t->0.phase == (PhaseModel::Publishing { head, changes })
            &&& t->0.said.len() == 0
        }),
{
}

/// A capture that found something is put to a shell first; one that found
/// nothing ends the reload, with its prints recorded unless it is a dry run.
pub proof fn captures_are_followed_up(
    o: Options,
    channel: Seq<char>,
    digest: Seq<char>,
    head: u64,
    changes: Seq<ChangeModel>,
)
    ensures
        ({
            let t = reload::turn(
                o,
                channel,
                PhaseModel::Capturing { digest },
                EventModel::Captured { head, changes },
            );
            &&& t is Some
            &&& t->0.action is Validate <==> changes.len() > 0
            &&& t->0.action is SaveFresh <==> changes.len() == 0 && !o.dry_run
            &&& t->0.action == (ActionModel::Finish { code: 0 }) <==> changes.len() == 0 && o.dry_run
            &&& changes.len() > 0 ==> t->0.phase == (PhaseModel::Validating { head, digest, changes })
        }),
{
}

/// A payload that no shell can parse ends the reload in an error, and one that
/// parses never does.
pub proof fn only_faults_fail(
    o: Options,
    channel: Seq<char>,
    head: u64,
    digest: Seq<char>,
    changes: Seq<ChangeModel>,
    fault: Option<Seq<u8>>,
)
    ensures
        ({
            let t = reload::turn(
                o,
                channel,
                PhaseModel::Validating { head, digest, changes },
                EventModel::Validated { fault },
            );
            &&& t is Some
            &&& t->0.action is Fail <==> fault is Some
            &&& fault is None && o.if_noop ==> t->0.action == (ActionModel::SaveStalled { digest })
            &&& fault is None && !o.if_noop && o.dry_run ==> t->0.action == (ActionModel::Finish {
                code: 1,
            })
        }),
{
}

/// Every event that the last action calls for brings the next turn: a reload
/// never gets stuck.
pub proof fn reloads_never_get_stuck(o: Options, channel: Seq<char>, events: Seq<EventModel>, e: EventModel)
    requires
        is_run(o, channel, events),
        match turn_of(o, channel, events)->0.action {
            ActionModel::Check => e is Checked,
            ActionModel::Lock => e is Locked,
            ActionModel::Inspect => e is Inspected,
            ActionModel::Capture => e is Captured,
            ActionModel::Validate => e is Validated,
            ActionModel::SaveFresh => e is Saved,
            ActionModel::SaveStalled { digest } => e is Saved,
            ActionModel::Publish => e is Published,
            _ => false,
        },
    ensures
        is_run(o, channel, events.push(e)),
{
    assert(events.push(e).drop_last() =~= events);
    lemma_action_fits(o, channel, events);
}

/// The action of a turn and the phase after it belong together.
proof fn lemma_action_fits(o: Options, channel: Seq<char>, events: Seq<EventModel>)
    requires
        is_run(o, channel, events),
    ensures
        ({
            let t = turn_of(o, channel, events)->0;
            &&& t.action is Check <==> t.phase is Checking
            &&& t.action is Lock <==> t.phase is Locking
            &&& t.action is Inspect <==> t.phase is Inspecting
            &&& t.action is Capture <==> t.phase is Capturing
            &&& t.action is Validate <==> t.phase is Validating
            &&& t.action is Publish <==> t.phase is Publishing
            &&& t.action is SaveStalled <==> t.phase is Stalling
            &&& t.action is SaveFresh <==> t.phase is Settling || t.phase is Recording
            &&& t.action is Finish || t.action is Fail <==> t.phase is Done
        }),
{
}

/// A reload that is asked for begins by taking the lock, or by a look at the
/// tracked files if that is all that is wanted.
pub proof fn reloads_begin(o: Options, channel: Seq<char>)
    ensures
        ({
            let t = reload::turn(o, channel, PhaseModel::Begun, EventModel::Asked);
            t is Some && (t->0.action is Check <==> o.check) && (t->0.action is Lock <==> !o.check)
        }),
{
}

/// A look at the tracked files fails exactly if one of them has moved, and a
/// locked reload fails exactly if its bootstrap is missing.
pub proof fn looks_tell_what_they_see(o: Options, channel: Seq<char>, path: Option<Seq<char>>)
    ensures
        ({
            let t = reload::turn(o, channel, PhaseModel::Checking, EventModel::Checked { stale: path });
            &&& t is Some
            &&& t->0.action == (ActionModel::Finish { code: 1 }) <==> path is Some
            &&& t->0.action == (ActionModel::Finish { code: 0 }) <==> path is None
        }),
        ({
            let t = reload::turn(o, channel, PhaseModel::Locking, EventModel::Locked { missing: path });
            &&& t is Some
            &&& t->0.action is Fail <==> path is Some
            &&& t->0.action is Inspect <==> path is None
        }),
{
}

/// What was published or recorded ends the reload: well, if it was published
/// or there was nothing to publish, and with exit code 1 if it was refused.
pub proof fn reloads_end(
    o: Options,
    channel: Seq<char>,
    head: u64,
    seq: u64,
    changes: Seq<ChangeModel>,
)
    ensures
        ({
            let t = reload::turn(
                o,
                channel,
                PhaseModel::Publishing { head, changes },
                EventModel::Published { seq },
            );
            t is Some && t->0.action is SaveFresh && t->0.phase == (PhaseModel::Recording {
                head,
                seq,
                changes,
            })
        }),
        ({
            let t = reload::turn(
                o,
                channel,
                PhaseModel::Recording { head, seq, changes },
                EventModel::Saved,
            );
            t is Some && t->0.action == (ActionModel::Finish { code: 0 })
        }),
        ({
            let t = reload::turn(o, channel, PhaseModel::Settling { head }, EventModel::Saved);
            t is Some && t->0.action == (ActionModel::Finish { code: 0 })
        }),
        ({
            let t = reload::turn(
                o,
                channel,
                PhaseModel::Stalling { head, changes },
                EventModel::Saved,
            );
            t is Some && t->0.action == (ActionModel::Finish { code: 1 })
        }),
{
}

// --- what steers a reload, and what does not ------------------------------------

/// How a reload is asked to speak, and the name of its channel, never steer
/// what it does.
pub proof fn talk_does_not_steer(
    o: Options,
    p: Options,
    channel: Seq<char>,
    other: Seq<char>,
    phase: PhaseModel,
    event: EventModel,
)
    requires
        o.force == p.force,
        o.check == p.check,
        o.dry_run == p.dry_run,
        o.if_noop == p.if_noop,
    ensures
        ({
            let s = reload::turn(o, channel, phase, event);
            let t = reload::turn(p, other, phase, event);
            &&& s is Some <==> t is Some
            &&& s is Some ==> s->0.action == t->0.action && s->0.phase == t->0.phase
        }),
{
}

/// Force matters for one decision only: whether to capture. Whatever comes
/// after the inspection comes with and without it.
pub proof fn force_only_forces_the_capture(
    o: Options,
    p: Options,
    channel: Seq<char>,
    phase: PhaseModel,
    event: EventModel,
)
    requires
        o == (Options { force: o.force, ..p }),
        !(event is Inspected),
    ensures
        reload::turn(o, channel, phase, event) == reload::turn(p, channel, phase, event),
{
}

/// A check matters for how a reload begins only, a dry run only once a capture
/// was made, and whether it may settle only for whether to capture and for
/// what becomes of a valid payload.
pub proof fn options_matter_where_they_belong(
    o: Options,
    p: Options,
    channel: Seq<char>,
    phase: PhaseModel,
    event: EventModel,
)
    ensures
        o == (Options { check: o.check, ..p }) && !(phase is Begun) ==> reload::turn(
            o,
            channel,
            phase,
            event,
        ) == reload::turn(p, channel, phase, event),
        o == (Options { dry_run: o.dry_run, ..p }) && !(phase is Capturing || phase is Validating)
            ==> reload::turn(o, channel, phase, event) == reload::turn(p, channel, phase, event),
        o == (Options { if_noop: o.if_noop, ..p }) && !(phase is Inspecting || phase is Validating)
            ==> reload::turn(o, channel, phase, event) == reload::turn(p, channel, phase, event),
{
}

// --- what a reload says ---------------------------------------------------------

/// What a reload says at its end, if it may speak: each line names the
/// generation, and a refusal names every change unless only the count was
/// asked for.
pub proof fn ends_are_announced(
    o: Options,
    channel: Seq<char>,
    head: u64,
    seq: u64,
    changes: Seq<ChangeModel>,
)
    requires
        !o.silent,
    ensures
        ({
            let said = reload::turn(
                o,
                channel,
                PhaseModel::Stalling { head, changes },
                EventModel::Saved,
            )->0.said;
            &&& said.len() == if o.plain {
                1
            } else {
                1 + changes.len()
            }
            &&& said[0] == "gen "@ + text::decimal(head as nat) + ": would publish "@
                + state::summary_model(changes)
            &&& forall|i: int|
                0 <= i < changes.len() && !o.plain ==> #[trigger] said[i + 1]
                    == report::description(changes[i])
        }),
        ({
            let said = reload::turn(
                o,
                channel,
                PhaseModel::Recording { head, seq, changes },
                EventModel::Saved,
            )->0.said;
            &&& said.len() == 2
            &&& said[0] == "gen "@ + text::decimal(head as nat) + " → gen "@ + text::decimal(
                seq as nat,
            ) + ": "@ + state::summary_model(changes)
            &&& said[1] == "published to channel '"@ + channel + "'"@
        }),
        ({
            let said = reload::turn(
                o,
                channel,
                PhaseModel::Settling { head },
                EventModel::Saved,
            )->0.said;
            said.len() == 1 && said[0] == "gen "@ + text::decimal(head as nat)
                + ": nothing to publish"@
        }),
{
    reveal_strlit(": would publish ");
    reveal_strlit(": ");
    reveal_strlit("would publish ");
    reveal_strlit(": nothing to publish");
    reveal_strlit("nothing to publish");
    assert(": would publish "@ =~= ": "@ + "would publish "@);
    assert(": nothing to publish"@ =~= ": "@ + "nothing to publish"@);
    let g = "gen "@ + text::decimal(head as nat);
    assert(g + ": "@ + "would publish "@ =~= g + ": would publish "@);
    assert(g + ": "@ + "nothing to publish"@ =~= g + ": nothing to publish"@);
    let said = reload::turn(
        o,
        channel,
        PhaseModel::Stalling { head, changes },
        EventModel::Saved,
    )->0.said;
    assert(said =~= reload::would_publish(o, head, changes));
}

/// A dry run that refuses says what a refused settling says.
pub proof fn dry_runs_say_what_settling_says(
    o: Options,
    channel: Seq<char>,
    head: u64,
    digest: Seq<char>,
    changes: Seq<ChangeModel>,
)
    requires
        o.dry_run,
        !o.if_noop,
    ensures
        reload::turn(
            o,
            channel,
            PhaseModel::Validating { head, digest, changes },
            EventModel::Validated { fault: None },
        ) == reload::turn(o, channel, PhaseModel::Stalling { head, changes }, EventModel::Saved),
        reload::turn(
            o,
            channel,
            PhaseModel::Capturing { digest },
            EventModel::Captured { head, changes: Seq::empty() },
        ) == reload::turn(o, channel, PhaseModel::Settling { head }, EventModel::Saved),
{
}

/// What has moved is named, whether it was only looked for or is captured next,
/// and what has not is counted.
pub proof fn moves_are_announced(
    o: Options,
    channel: Seq<char>,
    path: Seq<char>,
    seen: InspectionModel,
)
    requires
        !o.silent,
    ensures
        reload::turn(
            o,
            channel,
            PhaseModel::Checking,
            EventModel::Checked { stale: Some(path) },
        )->0.said == seq!["changed: "@ + path],
        seen.stale is Some && seen.files > 0 && !o.force ==> {
            let said = reload::turn(
                o,
                channel,
                PhaseModel::Inspecting,
                EventModel::Inspected { seen },
            )->0.said;
            said.len() > 0 && said[0] == "changed: "@ + seen.stale->0
        },
        seen.stale is None && seen.files > 0 && !o.force ==> {
            let t = reload::turn(
                o,
                channel,
                PhaseModel::Inspecting,
                EventModel::Inspected { seen },
            )->0;
            &&& t.action == (ActionModel::Finish { code: 0 })
            &&& t.said == seq![
                "gen "@ + text::decimal(seen.head as nat) + ": "@ + report::counted(
                    seen.files as nat,
                    "file"@,
                ) + " and "@ + report::counted(seen.commands as nat, "command"@)
                    + " unchanged"@,
            ]
        },
{
}

/// A reload whose bootstrap is missing fails and names it; with a bootstrap it
/// goes on to look at what is tracked.
pub proof fn missing_bootstraps_are_named(o: Options, channel: Seq<char>, bootstrap: Seq<char>)
    ensures
        reload::turn(
            o,
            channel,
            PhaseModel::Locking,
            EventModel::Locked { missing: Some(bootstrap) },
        ) matches Some(t) && {
            &&& t.phase is Done
            &&& t.action matches ActionModel::Fail { message } && text::has_part(message, bootstrap)
        },
        reload::turn(
            o,
            channel,
            PhaseModel::Locking,
            EventModel::Locked { missing: None },
        ) matches Some(t) && t.phase is Inspecting && t.action is Inspect,
{
    report_laws::lemma_part("bootstrap "@, bootstrap, " is not a file"@);
}

} // verus!
