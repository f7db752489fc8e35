//! What holds of the log: what a reader rebuilds, and what a publication does
//! to it, step by step.

use crate::paths;
use crate::revert;
use crate::settings;
use crate::state::{self, ChangeModel, ItemModel, Key, KeyModel, StateModel};
use crate::state_laws;
use crate::store::{self, Replay, StepModel};
use crate::table;
use crate::text;
use crate::wire_laws;
use vstd::prelude::*;
use vstd::string::*;

verus! {

// --- the log ------------------------------------------------------------------

/// The files of a log, by the generation in their names.
#[verifier::ext_equal]
pub struct Log {
    pub entries: Map<int, Seq<ChangeModel>>,
    pub snapshots: Map<int, Seq<ChangeModel>>,
    pub head: int,
}

/// The entries after generation `from`, up to and with `to`.
pub open spec fn entries_between(log: Log, from: int, to: int) -> Seq<Seq<ChangeModel>> {
    Seq::new((if to > from { to - from } else { 0 }) as nat, |i: int| log.entries[from + 1 + i])
}

/// The state at generation `seq`: all entries up to it, from the beginning.
pub open spec fn published(log: Log, seq: int) -> StateModel {
    store::replayed_entries(Map::empty(), entries_between(log, 0, seq))
}

/// What a reader rebuilds for generation `seq` from where `r` says.
pub open spec fn rebuilt(log: Log, r: Replay, seq: int) -> StateModel {
    store::replayed_entries(
        store::snapshot_state(
            match r.snapshot {
                Some(s) => Some(log.snapshots[s as int]),
                None => None,
            },
        ),
        entries_between(log, r.after as int, seq),
    )
}

/// The log is sound: no entry is missing, and every snapshot up to the head
/// says what the entries up to it say. Snapshots lie at full intervals.
pub open spec fn sound(log: Log) -> bool {
    &&& 0 <= log.head
    &&& forall|n: int| 1 <= n <= log.head ==> #[trigger] log.entries.contains_key(n)
    &&& forall|s: int| #[trigger]
        log.snapshots.contains_key(s) ==> s >= 0 && s % (store::SNAPSHOT_EVERY as int) == 0 && (s
            <= log.head ==> state::replayed(Map::empty(), log.snapshots[s]) == published(log, s))
}

proof fn lemma_entries_split(log: Log, from: int, mid: int, to: int)
    requires
        from <= mid <= to,
    ensures
        entries_between(log, from, to) == entries_between(log, from, mid) + entries_between(
            log,
            mid,
            to,
        ),
{
    assert(entries_between(log, from, to) =~= entries_between(log, from, mid) + entries_between(
        log,
        mid,
        to,
    ));
}

proof fn lemma_replay_split(s: StateModel, a: Seq<Seq<ChangeModel>>, b: Seq<Seq<ChangeModel>>)
    ensures
        store::replayed_entries(s, a + b) == store::replayed_entries(
            store::replayed_entries(s, a),
            b,
        ),
    decreases b.len(),
{
    if b.len() == 0 {
        assert(a + b =~= a);
    } else {
        assert((a + b).drop_last() =~= a + b.drop_last());
        lemma_replay_split(s, a, b.drop_last());
    }
}

/// Every reader rebuilds the same state, whichever snapshot it starts from:
/// snapshots save work and change nothing.
pub proof fn snapshots_change_nothing(log: Log, snapshots: Seq<u64>, r: Replay, seq: u64)
    requires
        sound(log),
        seq <= log.head,
        forall|i: int|
            0 <= i < snapshots.len() ==> log.snapshots.contains_key(#[trigger] snapshots[i] as int),
        store::is_replay(r, snapshots, seq),
    ensures
        rebuilt(log, r, seq as int) == published(log, seq as int),
{
    match r.snapshot {
        Some(s) => {
            let i = choose|i: int| 0 <= i < snapshots.len() && snapshots[i] == s;
            assert(log.snapshots.contains_key(snapshots[i] as int));
            lemma_entries_split(log, 0, s as int, seq as int);
            lemma_replay_split(
                Map::empty(),
                entries_between(log, 0, s as int),
                entries_between(log, s as int, seq as int),
            );
        },
        None => {},
    }
}

// --- publishing ---------------------------------------------------------------

/// The log after one step; `changes` is the entry that is being published.
pub open spec fn after_step(log: Log, changes: Seq<ChangeModel>, step: StepModel) -> Log {
    match step {
        StepModel::Entry { seq } => Log {
            entries: log.entries.insert(seq as int, changes),
            ..log
        },
        StepModel::Snapshot { seq, changes } => Log {
            snapshots: log.snapshots.insert(seq as int, changes),
            ..log
        },
        StepModel::Drop { seq } => Log { snapshots: log.snapshots.remove(seq as int), ..log },
        StepModel::Head { seq } => Log { head: seq as int, ..log },
    }
}

/// The log after steps, one after the other.
pub open spec fn after_steps(log: Log, changes: Seq<ChangeModel>, steps: Seq<StepModel>) -> Log
    decreases steps.len(),
{
    if steps.len() == 0 {
        log
    } else {
        after_step(after_steps(log, changes, steps.drop_last()), changes, steps.last())
    }
}

/// A step that a reader at the head does not notice.
spec fn is_unnoticed(head: int, step: StepModel) -> bool {
    match step {
        StepModel::Entry { seq } => seq > head,
        StepModel::Snapshot { seq, changes } => seq > head && seq % store::SNAPSHOT_EVERY == 0,
        StepModel::Drop { seq } => true,
        StepModel::Head { seq } => false,
    }
}

/// `now` says the same as `log` to every reader up to the head of `log`.
pub open spec fn same_up_to_head(log: Log, now: Log) -> bool {
    &&& sound(now)
    &&& now.head == log.head
    &&& forall|n: int| 0 <= n <= log.head ==> #[trigger] published(now, n) == published(log, n)
}

proof fn lemma_unnoticed(log: Log, changes: Seq<ChangeModel>, step: StepModel)
    requires
        sound(log),
        is_unnoticed(log.head, step),
    ensures
        same_up_to_head(log, after_step(log, changes, step)),
{
    let now = after_step(log, changes, step);
    assert forall|n: int| 0 <= n <= log.head implies #[trigger] published(now, n) == published(
        log,
        n,
    ) by {
        assert(entries_between(now, 0, n) =~= entries_between(log, 0, n));
    }
    assert forall|n: int| 1 <= n <= now.head implies #[trigger] now.entries.contains_key(n) by {
        assert(log.entries.contains_key(n));
    }
    assert forall|s: int| #[trigger] now.snapshots.contains_key(s) implies s >= 0 && s % (
    store::SNAPSHOT_EVERY as int) == 0 && (s <= now.head ==> state::replayed(
        Map::empty(),
        now.snapshots[s],
    ) == published(now, s)) by {
        if log.snapshots.contains_key(s) && s <= log.head {
            assert(published(now, s) == published(log, s));
        }
    }
}

proof fn lemma_unnoticed_steps(log: Log, changes: Seq<ChangeModel>, steps: Seq<StepModel>)
    requires
        sound(log),
        forall|i: int| 0 <= i < steps.len() ==> is_unnoticed(log.head, #[trigger] steps[i]),
    ensures
        same_up_to_head(log, after_steps(log, changes, steps)),
    decreases steps.len(),
{
    if steps.len() > 0 {
        let before = steps.drop_last();
        assert forall|i: int| 0 <= i < before.len() implies is_unnoticed(
            log.head,
            #[trigger] before[i],
        ) by {
            assert(steps[i] == before[i]);
        }
        lemma_unnoticed_steps(log, changes, before);
        let mid = after_steps(log, changes, before);
        assert(steps[steps.len() - 1] == steps.last());
        lemma_unnoticed(mid, changes, steps.last());
        let now = after_steps(log, changes, steps);
        assert forall|n: int| 0 <= n <= log.head implies #[trigger] published(now, n) == published(
            log,
            n,
        ) by {
            assert(published(now, n) == published(mid, n));
        }
    }
}

/// All steps of a publication but the last go unnoticed.
proof fn lemma_publication_steps(
    desired: Seq<(KeyModel, ItemModel)>,
    snapshots: Seq<u64>,
    seq: u64,
    i: int,
)
    requires
        seq > 0,
        0 <= i < store::publication(desired, snapshots, seq).len() - 1,
    ensures
        is_unnoticed(seq - 1, store::publication(desired, snapshots, seq)[i]),
{
    let mid = store::snapshot_steps(desired, snapshots, seq);
    let all = store::publication(desired, snapshots, seq);
    if i > 0 {
        assert(all[i] == mid[i - 1]);
        if i > 1 {
            let old = |s: u64| s < seq;
            let drops = store::drop_steps(snapshots, seq);
            assert(mid[i - 1] == drops[i - 2]);
        }
    }
}

/// A publication that breaks off anywhere before its last step, the move of
/// the head, leaves every reader with what it had: nothing is lost and nothing
/// is half published.
pub proof fn unfinished_publications_go_unnoticed(
    log: Log,
    changes: Seq<ChangeModel>,
    desired: Seq<(KeyModel, ItemModel)>,
    snapshots: Seq<u64>,
    seq: u64,
    k: int,
)
    requires
        sound(log),
        seq == log.head + 1,
        0 <= k < store::publication(desired, snapshots, seq).len(),
    ensures
        same_up_to_head(
            log,
            after_steps(log, changes, store::publication(desired, snapshots, seq).take(k)),
        ),
{
    let all = store::publication(desired, snapshots, seq);
    let steps = all.take(k);
    assert forall|i: int| 0 <= i < steps.len() implies is_unnoticed(log.head, #[trigger] steps[i]) by {
        lemma_publication_steps(desired, snapshots, seq, i);
    }
    lemma_unnoticed_steps(log, changes, steps);
}

/// Dropping snapshots touches nothing but older snapshots.
proof fn lemma_drops(log: Log, changes: Seq<ChangeModel>, snapshots: Seq<u64>, seq: u64, steps: Seq<StepModel>)
    requires
        forall|i: int|
            0 <= i < steps.len() ==> (#[trigger] steps[i] matches StepModel::Drop { seq: s } && s
                < seq),
    ensures
        ({
            let now = after_steps(log, changes, steps);
            &&& now.entries == log.entries
            &&& now.head == log.head
            &&& now.snapshots.contains_key(seq as int) == log.snapshots.contains_key(seq as int)
            &&& log.snapshots.contains_key(seq as int) ==> now.snapshots[seq as int]
                == log.snapshots[seq as int]
        }),
    decreases steps.len(),
{
    if steps.len() > 0 {
        let before = steps.drop_last();
        assert forall|i: int| 0 <= i < before.len() implies (#[trigger] before[i] matches StepModel::Drop {
            seq: s,
        } && s < seq) by {
            assert(steps[i] == before[i]);
        }
        lemma_drops(log, changes, snapshots, seq, before);
        assert(steps[steps.len() - 1] matches StepModel::Drop { seq: s } && s < seq);
    }
}

proof fn lemma_after_steps_add(
    log: Log,
    changes: Seq<ChangeModel>,
    a: Seq<StepModel>,
    b: Seq<StepModel>,
)
    ensures
        after_steps(log, changes, a + b) == after_steps(after_steps(log, changes, a), changes, b),
    decreases b.len(),
{
    if b.len() == 0 {
        assert(a + b =~= a);
    } else {
        assert((a + b).drop_last() =~= a + b.drop_last());
        lemma_after_steps_add(log, changes, a, b.drop_last());
    }
}

/// The log before the head moves: the entry is there, and if the generation is
/// one for a snapshot, that is there too.
proof fn lemma_before_the_head_moves(
    log: Log,
    changes: Seq<ChangeModel>,
    desired: Seq<(KeyModel, ItemModel)>,
    snapshots: Seq<u64>,
    seq: u64,
)
    requires
        sound(log),
        seq == log.head + 1,
    ensures
        ({
            let steps = store::publication(desired, snapshots, seq).drop_last();
            let now = after_steps(log, changes, steps);
            &&& now.entries == log.entries.insert(seq as int, changes)
            &&& now.snapshots.contains_key(seq as int) ==> now.snapshots[seq as int]
                == state::difference(Seq::<(KeyModel, ItemModel)>::empty(), desired)
        }),
{
    let steps = store::publication(desired, snapshots, seq).drop_last();
    let first = seq![StepModel::Entry { seq }];
    let mid = store::snapshot_steps(desired, snapshots, seq);
    assert(steps =~= first + mid);
    lemma_after_steps_add(log, changes, first, mid);
    let one = after_steps(log, changes, first);
    assert(first.drop_last() =~= Seq::<StepModel>::empty());
    assert(after_steps(log, changes, first.drop_last()) == log);
    assert(one == after_step(log, changes, StepModel::Entry { seq }));
    if seq % store::SNAPSHOT_EVERY == 0 {
        let taken = StepModel::Snapshot {
            seq,
            changes: state::difference(Seq::<(KeyModel, ItemModel)>::empty(), desired),
        };
        let drops = store::drop_steps(snapshots, seq);
        assert(mid == seq![taken] + drops);
        lemma_after_steps_add(one, changes, seq![taken], drops);
        assert(seq![taken].drop_last() =~= Seq::<StepModel>::empty());
        assert(after_steps(one, changes, seq![taken].drop_last()) == one);
        let two = after_steps(one, changes, seq![taken]);
        assert(two == after_step(one, changes, taken));
        assert forall|i: int| 0 <= i < drops.len() implies (#[trigger] drops[i] matches StepModel::Drop {
            seq: s,
        } && s < seq) by {
            let j = text::lemma_filter_source(snapshots, |s: u64| s < seq, i);
        }
        lemma_drops(two, changes, snapshots, seq, drops);
    } else {
        assert(after_steps(one, changes, mid) == one);
        if log.snapshots.contains_key(seq as int) {
            assert((seq as int) % (store::SNAPSHOT_EVERY as int) == 0);
        }
    }
}

/// A finished publication moves the head by one and keeps the log sound: the
/// new generation is the desired state, and all earlier ones are as they were.
/// Entries are only ever added.
pub proof fn publications_arrive(
    log: Log,
    changes: Seq<ChangeModel>,
    desired: Seq<(KeyModel, ItemModel)>,
    snapshots: Seq<u64>,
    seq: u64,
)
    requires
        sound(log),
        seq == log.head + 1,
        table::ascending::<Key, ItemModel>(desired),
        state::replayed(published(log, log.head), changes) == table::row_map(desired),
    ensures
        ({
            let now = after_steps(log, changes, store::publication(desired, snapshots, seq));
            &&& sound(now)
            &&& now.head == seq
            &&& published(now, seq as int) == table::row_map(desired)
            &&& forall|n: int| 0 <= n <= log.head ==> #[trigger] published(now, n) == published(log, n)
            &&& now.entries == log.entries.insert(seq as int, changes)
        }),
{
    let all = store::publication(desired, snapshots, seq);
    let steps = all.drop_last();
    let before = after_steps(log, changes, steps);
    let now = after_steps(log, changes, all);
    assert(all.take(all.len() - 1) =~= steps);
    unfinished_publications_go_unnoticed(
        log,
        changes,
        desired,
        snapshots,
        seq,
        all.len() - 1,
    );
    lemma_before_the_head_moves(log, changes, desired, snapshots, seq);
    assert(now == Log { head: seq as int, ..before });
    assert forall|n: int| 0 <= n <= log.head implies #[trigger] published(now, n) == published(
        log,
        n,
    ) by {
        assert(entries_between(now, 0, n) =~= entries_between(before, 0, n));
        assert(published(before, n) == published(log, n));
    }
    let old = entries_between(now, 0, log.head);
    let whole = entries_between(now, 0, seq as int);
    assert(whole.drop_last() =~= old);
    assert(whole.last() == changes);
    assert(published(now, log.head) == published(log, log.head));
    assert(published(now, seq as int) == table::row_map(desired));
    assert forall|n: int| 1 <= n <= now.head implies #[trigger] now.entries.contains_key(n) by {
        if n <= log.head {
            assert(log.entries.contains_key(n));
        }
    }
    let none = Seq::<(KeyModel, ItemModel)>::empty();
    state_laws::difference_leads_to_next(none, desired);
    assert(table::row_map(none) =~= Map::<KeyModel, ItemModel>::empty());
    assert forall|s: int| #[trigger] now.snapshots.contains_key(s) implies s >= 0 && s % (
    store::SNAPSHOT_EVERY as int) == 0 && (s <= now.head ==> state::replayed(
        Map::empty(),
        now.snapshots[s],
    ) == published(now, s)) by {
        assert(before.snapshots.contains_key(s));
        if s < seq {
            assert(published(now, s) == published(log, s));
            assert(published(before, s) == published(log, s));
        }
    }
}

/// A revert publishes the inverse of an entry: when the newest entry is taken
/// back, the next generation is the state before it, and the entry itself
/// stays in the log as it was.
pub proof fn reverts_arrive(
    log: Log,
    before: Seq<(KeyModel, ItemModel)>,
    current: Seq<(KeyModel, ItemModel)>,
    target: Seq<(KeyModel, ItemModel)>,
    snapshots: Seq<u64>,
    seq: u64,
)
    requires
        sound(log),
        1 <= log.head,
        seq == log.head + 1,
        table::ascending::<Key, ItemModel>(before),
        table::ascending::<Key, ItemModel>(current),
        table::ascending::<Key, ItemModel>(target),
        table::row_map(before) == published(log, log.head - 1),
        table::row_map(current) == published(log, log.head),
        log.entries[log.head] == state::difference(before, current),
        table::row_map(target) == revert::all_undone(
            table::row_map(current),
            table::row_map(before),
            log.entries[log.head],
        ),
    ensures
        ({
            let now = after_steps(
                log,
                state::difference(current, target),
                store::publication(target, snapshots, seq),
            );
            &&& sound(now)
            &&& now.head == seq
            &&& published(now, seq as int) == published(log, log.head - 1)
            &&& now.entries[log.head] == log.entries[log.head]
        }),
{
    revert::reverting_restores_the_state_before(before, current);
    state_laws::difference_leads_to_next(current, target);
    publications_arrive(log, state::difference(current, target), target, snapshots, seq);
}

// --- what is written is read ---------------------------------------------------

proof fn lemma_trim_digits(d: Seq<char>)
    requires
        d.len() > 0,
        forall|i: int| 0 <= i < d.len() ==> text::is_digit(#[trigger] d[i]),
    ensures
        text::trimmed_end(text::trimmed_start(d + "\n"@)) == d,
{
    reveal_strlit("\n");
    let s = d + "\n"@;
    assert(s[0] == d[0]);
    assert(text::is_digit(d[0]));
    assert(text::trimmed_start(s) == s);
    assert(s.last() == '\n');
    assert(s.drop_last() =~= d);
    assert(text::is_digit(d[d.len() - 1]));
    assert(text::trimmed_end(d) == d);
}

/// The head that was written is read back.
pub proof fn head_is_read_back(seq: u64)
    ensures
        settings::counter_value(Some(store::head_file(seq))) == seq,
{
    wire_laws::lemma_decimal_digits(seq as nat);
    wire_laws::numbers_are_read_back(seq as nat, u64::MAX as int);
    lemma_trim_digits(text::decimal(seq as nat));
}

proof fn lemma_padded_value(d: Seq<char>, k: int)
    requires
        d.len() > 0,
        forall|i: int| 0 <= i < d.len() ==> text::is_digit(#[trigger] d[i]),
        k >= 0,
    ensures
        ({
            let p = text::run_of('0', k) + d;
            &&& p.len() > 0
            &&& forall|i: int| 0 <= i < p.len() ==> text::is_digit(#[trigger] p[i])
            &&& text::digits_value(p) == text::digits_value(d)
        }),
    decreases d.len(),
{
    let z = text::run_of('0', k);
    let p = z + d;
    assert forall|i: int| 0 <= i < p.len() implies text::is_digit(#[trigger] p[i]) by {
        if i < z.len() {
            assert(p[i] == '0');
        } else {
            assert(p[i] == d[i - z.len()]);
        }
    }
    let e = d.drop_last();
    assert(p.drop_last() =~= z + e);
    assert(p.last() == d.last());
    if e.len() == 0 {
        lemma_zeros(k);
        assert(z + e =~= z);
        assert(text::digits_value(e) == 0);
    } else {
        assert forall|i: int| 0 <= i < e.len() implies text::is_digit(#[trigger] e[i]) by {
            assert(e[i] == d[i]);
        }
        lemma_padded_value(e, k);
    }
}

proof fn lemma_zeros(k: int)
    ensures
        text::digits_value(text::run_of('0', k)) == 0,
    decreases k,
{
    if k > 0 {
        let z = text::run_of('0', k);
        assert(z.drop_last() =~= text::run_of('0', k - 1));
        lemma_zeros(k - 1);
        assert(z.last() == '0');
    }
}

/// A snapshot is found under the generation that it was written for.
pub proof fn snapshots_are_found(seq: u64)
    ensures
        store::snapshot_seq_of(store::snapshot_name(seq)) == Some(seq as nat),
{
    let front = "snapshot-"@;
    let back = ".jsonl"@;
    let body = store::padded_seq(seq);
    let name = store::snapshot_name(seq);
    let d = text::decimal(seq as nat);
    wire_laws::lemma_decimal_digits(seq as nat);
    if d.len() < 6 {
        lemma_padded_value(d, 6 - d.len());
    } else {
        assert(body =~= d);
    }
    assert(name.subrange(0, front.len() as int) =~= front);
    let rest = name.skip(front.len() as int);
    assert(rest =~= body + back);
    assert(rest.skip(rest.len() - back.len()) =~= back);
    assert(rest.take(rest.len() - back.len()) =~= body);
    assert(text::is_digit(body[0]));
    assert(text::unsigned_body(body) == body);
}

proof fn lemma_pieces_line(front: Seq<char>, line: Seq<char>, n: int)
    requires
        forall|i: int| 0 <= i < line.len() ==> #[trigger] line[i] != '\n',
        0 <= n <= line.len(),
        text::pieces(front, text::Cut::At('\n').picks()).len() > 0,
        text::pieces(front, text::Cut::At('\n').picks()).last().len() == 0,
    ensures
        text::pieces(front + line.take(n), text::Cut::At('\n').picks()) == text::pieces(
            front,
            text::Cut::At('\n').picks(),
        ).drop_last().push(line.take(n)),
    decreases n,
{
    let cuts = text::Cut::At('\n').picks();
    let p = text::pieces(front, cuts);
    if n == 0 {
        assert(front + line.take(0) =~= front);
        assert(p.last() =~= line.take(0));
        assert(p =~= p.drop_last().push(line.take(0)));
    } else {
        lemma_pieces_line(front, line, n - 1);
        let s = front + line.take(n);
        assert(s.drop_last() =~= front + line.take(n - 1));
        assert(s.last() == line[n - 1]);
        assert(line.take(n) =~= line.take(n - 1).push(line[n - 1]));
        assert(p.drop_last().push(line.take(n - 1)).drop_last() =~= p.drop_last());
    }
}

proof fn lemma_framed_pieces(parts: Seq<Seq<char>>)
    requires
        forall|k: int, i: int|
            0 <= k < parts.len() && 0 <= i < parts[k].len() ==> #[trigger] parts[k][i] != '\n',
    ensures
        text::pieces(store::framed(parts), text::Cut::At('\n').picks()) == parts.push(
            Seq::<char>::empty(),
        ),
    decreases parts.len(),
{
    let cuts = text::Cut::At('\n').picks();
    reveal_strlit("\n");
    if parts.len() == 0 {
        assert(text::pieces(store::framed(parts), cuts) =~= parts.push(Seq::<char>::empty()));
    } else {
        let before = parts.drop_last();
        assert forall|k: int, i: int|
            0 <= k < before.len() && 0 <= i < before[k].len() implies #[trigger] before[k][i] != '\n' by {
            assert(parts[k][i] != '\n');
        }
        lemma_framed_pieces(before);
        let line = parts.last();
        assert forall|i: int| 0 <= i < line.len() implies #[trigger] line[i] != '\n' by {
            assert(parts[parts.len() - 1][i] != '\n');
        }
        let front = store::framed(before);
        lemma_pieces_line(front, line, line.len() as int);
        assert(line.take(line.len() as int) =~= line);
        let s = store::framed(parts);
        assert(s.drop_last() =~= front + line);
        assert(s.last() == '\n');
        assert(before.push(Seq::<char>::empty()).drop_last() =~= before);
        assert(before.push(line) =~= parts);
    }
}

/// Records that were written one per line are read back, as long as none holds
/// a line feed or ends in a carriage return. What is written is one JSON
/// object per line, which does neither.
pub proof fn lines_are_read_back(parts: Seq<Seq<char>>)
    requires
        forall|k: int, i: int|
            0 <= k < parts.len() && 0 <= i < parts[k].len() ==> #[trigger] parts[k][i] != '\n',
        forall|k: int|
            0 <= k < parts.len() && (#[trigger] parts[k]).len() > 0 ==> parts[k].last() != '\r',
    ensures
        text::lines_of(store::framed(parts)) == parts,
{
    lemma_framed_pieces(parts);
    let p = parts.push(Seq::<char>::empty());
    assert(p.drop_last() =~= parts);
    assert(parts.map_values(|q: Seq<char>| text::without_return(q)) =~= parts);
}

// --- files --------------------------------------------------------------------

/// A store is used only if it is the caller's own and no permission bit is set
/// for its group or for others. A refusal names the store, and a foreign owner
/// too.
pub proof fn stores_are_for_their_owner_only(shown: Seq<char>, owner: u32, me: u32, mode: u32)
    ensures
        store::refusal(shown, owner, me, mode) is None <==> (owner == me && mode & 0o77u32 == 0),
        match store::refusal(shown, owner, me, mode) {
            Some(why) => {
                &&& text::begins_with(why, shown)
                &&& owner != me ==> text::has_part(why, text::decimal(owner as nat))
            },
            None => true,
        },
{
    assert(mode & 0o77u32 == mode % 64) by (bit_vector);
    if owner != me {
        let d = text::decimal(owner as nat);
        let a = shown + " is owned by uid "@;
        let why = a + d + ", not you"@;
        assert(why.subrange(0, 0int + shown.len()) =~= shown);
        assert(why.subrange(0int + a.len(), a.len() + d.len() as int) =~= d);
        assert(text::occurs_at(why, d, 0int + a.len()));
    } else if mode % 64 != 0 {
        let why = shown + " is group/world accessible"@;
        assert(why.subrange(0, 0int + shown.len()) =~= shown);
    }
}

/// No two generations share a file, and no entry is taken for a snapshot.
pub proof fn generations_have_files_of_their_own(a: u64, b: u64)
    ensures
        a != b ==> store::entry_name(a) != store::entry_name(b),
        a != b ==> store::snapshot_name(a) != store::snapshot_name(b),
        store::entry_name(a) != store::snapshot_name(b),
        store::snapshot_seq_of(store::entry_name(a)) is None,
{
    snapshots_are_found(a);
    snapshots_are_found(b);
    let front = "snapshot-"@;
    reveal_strlit("snapshot-");
    assert(store::snapshot_name(a) =~= front + store::entry_name(a));
    assert(store::snapshot_name(b) =~= front + store::entry_name(b));
    wire_laws::lemma_decimal_digits(a as nat);
    let n = store::entry_name(a);
    let d = text::decimal(a as nat);
    let z = text::run_of('0', 6 - d.len());
    if z.len() > 0 {
        assert(n[0] == '0');
    } else {
        assert(n[0] == d[0]);
        assert(text::is_digit(d[0]));
    }
    assert(store::snapshot_name(b)[0] == front[0]);
    if text::begins_with(n, front) {
        assert(n.subrange(0, 0int + front.len())[0] == n[0]);
    }
}

/// A file name is that of a snapshot just if a number stands between the front
/// and the ending of such names.
pub proof fn snapshot_names_hold_their_number(name: Seq<char>, d: Seq<char>)
    ensures
        store::snapshot_seq_of("snapshot-"@ + d + ".jsonl"@) == text::unsigned_value(
            d,
            u64::MAX as int,
        ),
        store::snapshot_seq_of(name) is Some ==> name == "snapshot-"@ + name.subrange(
            9,
            name.len() - 6,
        ) + ".jsonl"@,
{
    let front = "snapshot-"@;
    let back = ".jsonl"@;
    reveal_strlit("snapshot-");
    reveal_strlit(".jsonl");
    let s = front + d + back;
    assert(s.subrange(0, 9) =~= front);
    assert(s.skip(9) =~= d + back);
    assert((d + back).skip((d + back).len() - 6) =~= back);
    assert((d + back).take((d + back).len() - 6) =~= d);
    if store::snapshot_seq_of(name) is Some {
        let rest = name.skip(9);
        assert(name =~= name.subrange(0, 9) + rest);
        assert(rest =~= rest.take(rest.len() - 6) + rest.skip(rest.len() - 6));
        assert(rest.take(rest.len() - 6) =~= name.subrange(9, name.len() - 6));
        assert(name =~= front + name.subrange(9, name.len() - 6) + back);
    }
}

/// Every snapshot in a directory is listed, once for each name, and nothing
/// else is.
pub proof fn snapshots_are_listed(a: Seq<Seq<char>>, b: Seq<Seq<char>>, name: Seq<char>)
    ensures
        store::snapshot_seqs(a + b) == store::snapshot_seqs(a) + store::snapshot_seqs(b),
        store::snapshot_seqs(seq![name]) == match store::snapshot_seq_of(name) {
            Some(n) => seq![n as u64],
            None => Seq::<u64>::empty(),
        },
    decreases b.len(),
{
    reveal_with_fuel(store::snapshot_seqs, 2);
    assert(seq![name].drop_last() =~= Seq::<Seq<char>>::empty());
    match store::snapshot_seq_of(name) {
        Some(n) => {
            assert(Seq::<u64>::empty().push(n as u64) =~= seq![n as u64]);
        },
        None => {},
    }
    if b.len() == 0 {
        assert(a + b =~= a);
        assert(store::snapshot_seqs(a) + store::snapshot_seqs(b) =~= store::snapshot_seqs(a));
    } else {
        snapshots_are_listed(a, b.drop_last(), name);
        assert((a + b).drop_last() =~= a + b.drop_last());
        assert((a + b).last() == b.last());
        assert(store::snapshot_seqs(a + b) =~= store::snapshot_seqs(a) + store::snapshot_seqs(b));
    }
}

/// A reader begins with the newest snapshot that is not ahead of the
/// generation it is after, and never with one that is.
pub proof fn readers_begin_as_late_as_they_can(
    r: Replay,
    snapshots: Seq<u64>,
    seq: u64,
    s: u64,
)
    requires
        store::is_replay(r, snapshots, seq),
    ensures
        r.after <= seq,
        snapshots.contains(s) && s <= seq ==> r.snapshot is Some && s <= r.after,
        r.snapshot is Some ==> snapshots.contains(r.after) && r.snapshot == Some(r.after),
        r.snapshot is None ==> r.after == 0,
{
    if snapshots.contains(s) {
        let i = choose|i: int| 0 <= i < snapshots.len() && snapshots[i] == s;
        assert(snapshots[i] == s);
    }
}

/// A publication writes its entry before anything else and moves the head after
/// everything else. In every twentieth it writes a snapshot between the two,
/// and then drops the older snapshots, each of them and no other.
pub proof fn publications_go_in_order(
    desired: Seq<(KeyModel, ItemModel)>,
    snapshots: Seq<u64>,
    seq: u64,
    s: u64,
)
    ensures
        ({
            let steps = store::publication(desired, snapshots, seq);
            &&& steps.len() >= 2
            &&& steps[0] == (StepModel::Entry { seq })
            &&& steps.last() == (StepModel::Head { seq })
            &&& seq % 20 != 0 ==> steps.len() == 2
            &&& seq % 20 == 0 ==> steps.len() >= 3 && steps[1] is Snapshot && steps[1]->Snapshot_seq
                == seq
            &&& steps.contains(StepModel::Drop { seq: s }) <==> (seq % 20 == 0 && snapshots.contains(
                s,
            ) && s < seq)
        }),
{
    let steps = store::publication(desired, snapshots, seq);
    let mid = store::snapshot_steps(desired, snapshots, seq);
    let older = |x: u64| x < seq;
    let f = snapshots.filter(older);
    let drops = store::drop_steps(snapshots, seq);
    let it = StepModel::Drop { seq: s };
    if seq % 20 == 0 && snapshots.contains(s) && s < seq {
        let j = choose|j: int| 0 <= j < snapshots.len() && snapshots[j] == s;
        snapshots.lemma_filter_contains(older, j);
        let i = choose|i: int| 0 <= i < f.len() && f[i] == s;
        assert(drops[i] == it);
        assert(steps[2 + i] == it);
    }
    if steps.contains(it) {
        let k = choose|k: int| 0 <= k < steps.len() && steps[k] == it;
        assert(0 < k < steps.len() - 1);
        assert(steps[k] == mid[k - 1]);
        assert(k >= 2);
        assert(mid[k - 1] == drops[k - 2]);
        assert(f[k - 2] == s);
        let j = text::lemma_filter_source(snapshots, older, k - 2);
        assert(snapshots[j] == s);
    }
}

/// The directory of a channel lies under the state directory, or else under the
/// usual place in the home directory, which does not matter otherwise; its name
/// is the last part of the path.
pub proof fn channels_lie_under_the_state_directory(
    state_home: Option<Seq<u8>>,
    home: Seq<u8>,
    other: Seq<u8>,
    channel: Seq<char>,
)
    requires
        ({
            let c = vstd::utf8::encode_utf8(channel);
            c.len() > 0 && c[0] != 47u8
        }),
    ensures
        ({
            let c = vstd::utf8::encode_utf8(channel);
            let s = vstd::utf8::encode_utf8("sharezed"@);
            &&& state_home is Some ==> {
                let d = state_home->0;
                &&& store::channel_dir(state_home, home, channel) == store::channel_dir(
                    state_home,
                    other,
                    channel,
                )
                &&& d.len() > 0 && d.last() != 47u8 ==> store::channel_dir(
                    state_home,
                    home,
                    channel,
                ) == d + seq![47u8] + s + seq![47u8] + c
            }
            &&& home.len() > 0 && home.last() != 47u8 ==> store::channel_dir(None, home, channel)
                == home + seq![47u8] + vstd::utf8::encode_utf8(".local/state"@) + seq![47u8] + s
                + seq![47u8] + c
        }),
{
    reveal_strlit("sharezed");
    reveal_strlit(".local/state");
    let c = vstd::utf8::encode_utf8(channel);
    let s = vstd::utf8::encode_utf8("sharezed"@);
    let l = vstd::utf8::encode_utf8(".local/state"@);
    assert(vstd::utf8::is_ascii_chars("sharezed"@));
    assert(vstd::utf8::is_ascii_chars(".local/state"@));
    vstd::utf8::is_ascii_chars_encode_utf8("sharezed"@);
    vstd::utf8::is_ascii_chars_encode_utf8(".local/state"@);
    assert(s.len() == 8 && s[0] == 's' as u8 && s[7] == 'd' as u8);
    assert(l.len() == 12 && l[0] == '.' as u8 && l[11] == 'e' as u8);
    match state_home {
        Some(d) => {
            if d.len() > 0 && d.last() != 47u8 {
                lemma_dir_under(d, s, c);
            }
        },
        None => {},
    }
    if home.len() > 0 && home.last() != 47u8 {
        let b = paths::path_under(home, l);
        assert(b =~= home + seq![47u8] + l);
        assert(b.last() == l[11]);
        lemma_dir_under(b, s, c);
        assert(store::channel_dir(None, home, channel) =~= home + seq![47u8] + l + seq![47u8] + s
            + seq![47u8] + c);
    }
}

proof fn lemma_dir_under(d: Seq<u8>, s: Seq<u8>, c: Seq<u8>)
    requires
        d.len() > 0,
        d.last() != 47u8,
        s.len() > 0,
        s[0] != 47u8,
        s.last() != 47u8,
        c.len() > 0,
        c[0] != 47u8,
    ensures
        paths::path_under(paths::path_under(d, s), c) == d + seq![47u8] + s + seq![47u8] + c,
{
    let p = paths::path_under(d, s);
    assert(p =~= d + seq![47u8] + s);
    assert(p.last() == s.last());
    assert(paths::path_under(p, c) =~= d + seq![47u8] + s + seq![47u8] + c);
}

} // verus!
