//! The append-only log: where its files are, who may read it, what state it
//! stands for, and in which order a publication is written.
//!
//! Entries are never collected, only old snapshots are. So every generation
//! can be shown and reverted for good, and no reader is ever too far behind.

use crate::paths::{self, join_path};
use crate::prints::Prints;
use crate::state::{self, apply, diff, Change, ChangeModel, ItemModel, KeyModel, State, StateModel};
use crate::table::Table;
use crate::text::{self, decimal_of, lines, pad_left, parse_u64, starts_with};
use vstd::prelude::*;
use vstd::string::*;

verus! {

/// What was recorded about the capture that the head stands for.
pub struct Meta {
    pub bootstrap: String,
    /// The digest of every file that was sourced, by path.
    pub sources: Prints,
    /// The fingerprint of every command that was run, by path.
    pub commands: Prints,
    /// The digest of the tracked files and commands at the last capture that
    /// found something to publish and was not allowed to; empty without one.
    pub stalled: String,
}

/// A channel's log, in a directory of its own.
pub struct Store {
    pub dir: Vec<u8>,
}

// --- files --------------------------------------------------------------------

/// The bytes of a file name.
pub open spec fn name_bytes(name: Seq<char>) -> Seq<u8> {
    vstd::utf8::encode_utf8(name)
}

/// The directory of a channel: under the state directory, or else under the
/// usual place in the home directory.
pub open spec fn channel_dir(state_home: Option<Seq<u8>>, home: Seq<u8>, channel: Seq<char>) -> Seq<
    u8,
> {
    let base = match state_home {
        Some(d) => d,
        None => paths::path_under(home, name_bytes(".local/state"@)),
    };
    paths::path_under(paths::path_under(base, name_bytes("sharezed"@)), name_bytes(channel))
}

/// A number with at least six digits.
pub open spec fn padded_seq(seq: u64) -> Seq<char> {
    text::padded_left(text::decimal(seq as nat), '0', 6)
}

pub open spec fn entry_name(seq: u64) -> Seq<char> {
    padded_seq(seq) + ".jsonl"@
}

pub open spec fn snapshot_name(seq: u64) -> Seq<char> {
    "snapshot-"@ + padded_seq(seq) + ".jsonl"@
}

impl Store {
    /// The store of a channel.
    pub fn located(state_home: Option<&[u8]>, home: &[u8], channel: &str) -> (r: Store)
        ensures
            r.dir@ == channel_dir(crate::settings::bytes_of(state_home), home@, channel@),
    {
        let base: Vec<u8> = match state_home {
            Some(d) => join_path(d, "sharezed".as_bytes()),
            None => {
                let usual: Vec<u8> = join_path(home, ".local/state".as_bytes());
                join_path(usual.as_slice(), "sharezed".as_bytes())
            },
        };
        Store { dir: join_path(base.as_slice(), channel.as_bytes()) }
    }

    fn file(&self, name: &str) -> (r: Vec<u8>)
        ensures
            r@ == paths::path_under(self.dir@, name_bytes(name@)),
    {
        join_path(self.dir.as_slice(), name.as_bytes())
    }

    /// The file that holds the newest generation's number.
    pub fn head_path(&self) -> (r: Vec<u8>)
        ensures
            r@ == paths::path_under(self.dir@, name_bytes("head"@)),
    {
        self.file("head")
    }

    /// The file that is locked while a generation is published.
    pub fn lock_path(&self) -> (r: Vec<u8>)
        ensures
            r@ == paths::path_under(self.dir@, name_bytes(".lock"@)),
    {
        self.file(".lock")
    }

    /// The file that holds the [`Meta`].
    pub fn meta_path(&self) -> (r: Vec<u8>)
        ensures
            r@ == paths::path_under(self.dir@, name_bytes("meta.json"@)),
    {
        self.file("meta.json")
    }

    /// The file that holds an entry.
    pub fn entry_path(&self, seq: u64) -> (r: Vec<u8>)
        ensures
            r@ == paths::path_under(self.dir@, name_bytes(entry_name(seq))),
    {
        let mut name: String = pad_left(decimal_of(seq).as_str(), '0', 6);
        name.append(".jsonl");
        self.file(name.as_str())
    }

    /// The file that holds a snapshot.
    pub fn snapshot_path(&self, seq: u64) -> (r: Vec<u8>)
        ensures
            r@ == paths::path_under(self.dir@, name_bytes(snapshot_name(seq))),
    {
        let mut name = "snapshot-".to_owned();
        name.append(pad_left(decimal_of(seq).as_str(), '0', 6).as_str());
        name.append(".jsonl");
        self.file(name.as_str())
    }
}

/// Why a store is refused. The log is a way to run code in every shell of its
/// owner, so nobody else may have access. `shown` is the directory as it is
/// displayed.
pub open spec fn refusal(shown: Seq<char>, owner: u32, me: u32, mode: u32) -> Option<Seq<char>> {
    if owner != me {
        Some(shown + " is owned by uid "@ + text::decimal(owner as nat) + ", not you"@)
    } else if mode % 64 != 0 {
        Some(shown + " is group/world accessible"@)
    } else {
        None
    }
}

/// Checks who owns the store's directory and who may use it.
pub fn check_access(shown: &str, owner: u32, me: u32, mode: u32) -> (r: Result<(), String>)
    ensures
        match r {
            Ok(_) => refusal(shown@, owner, me, mode) is None,
            Err(m) => refusal(shown@, owner, me, mode) == Some(m@),
        },
{
    if owner != me {
        let mut m = shown.to_owned();
        m.append(" is owned by uid ");
        m.append(decimal_of(owner as u64).as_str());
        m.append(", not you");
        return Err(m);
    }
    assert(mode & 0o077 == mode % 64) by (bit_vector);
    if mode & 0o077 != 0 {
        let mut m = shown.to_owned();
        m.append(" is group/world accessible");
        return Err(m);
    }
    Ok(())
}

// --- lines --------------------------------------------------------------------

/// Each of `parts` with a line feed behind it.
pub open spec fn framed(parts: Seq<Seq<char>>) -> Seq<char>
    decreases parts.len(),
{
    if parts.len() == 0 {
        Seq::empty()
    } else {
        framed(parts.drop_last()) + parts.last() + "\n"@
    }
}

/// Writes one record per line.
pub fn frame_lines(parts: &[String]) -> (r: String)
    ensures
        r@ == framed(text::texts(parts@)),
{
    let ghost all = text::texts(parts@);
    let mut out = String::new();
    assert(all.take(0) =~= Seq::<Seq<char>>::empty());
    for i in 0..parts.len()
        invariant
            all == text::texts(parts@),
            out@ == framed(all.take(i as int)),
    {
        assert(all.take(i + 1).drop_last() =~= all.take(i as int));
        out.append(parts[i].as_str());
        out.append("\n");
    }
    assert(all.take(parts@.len() as int) =~= all);
    out
}

/// The records of a file that holds one per line.
pub fn unframe_lines(s: &str) -> (r: Vec<String>)
    ensures
        text::texts(r@) == text::lines_of(s@),
{
    lines(s)
}

// --- snapshots ----------------------------------------------------------------

/// The generation that a file name says it is the snapshot of.
pub open spec fn snapshot_seq_of(name: Seq<char>) -> Option<nat> {
    let front = "snapshot-"@;
    let back = ".jsonl"@;
    let rest = name.skip(front.len() as int);
    if text::begins_with(name, front) && rest.len() >= back.len() && rest.skip(
        rest.len() - back.len(),
    ) == back {
        text::unsigned_value(rest.take(rest.len() - back.len()), u64::MAX as int)
    } else {
        None
    }
}

/// The generation that a file name says it is the snapshot of.
pub fn snapshot_seq(name: &str) -> (r: Option<u64>)
    ensures
        match r {
            Some(n) => snapshot_seq_of(name@) == Some(n as nat),
            None => snapshot_seq_of(name@) is None,
        },
{
    let front = "snapshot-";
    let back = ".jsonl";
    if !starts_with(name, front) {
        return None;
    }
    let v: Vec<char> = text::chars_of(name);
    let n: usize = v.len();
    let from: usize = front.unicode_len();
    let tail: usize = back.unicode_len();
    let ghost rest = name@.skip(from as int);
    if n - from < tail {
        return None;
    }
    let to: usize = n - tail;
    let end: String = text::string_of(&v, to, n);
    assert(end@ =~= rest.skip(rest.len() - tail));
    if !text::same(end.as_str(), back) {
        return None;
    }
    let body: String = text::string_of(&v, from, to);
    assert(body@ =~= rest.take(rest.len() - tail));
    parse_u64(body.as_str())
}

/// The generations that file names say they are the snapshots of.
pub open spec fn snapshot_seqs(names: Seq<Seq<char>>) -> Seq<u64>
    decreases names.len(),
{
    if names.len() == 0 {
        Seq::empty()
    } else {
        match snapshot_seq_of(names.last()) {
            Some(n) => snapshot_seqs(names.drop_last()).push(n as u64),
            None => snapshot_seqs(names.drop_last()),
        }
    }
}

/// No number comes before a smaller one.
pub open spec fn is_sorted(v: Seq<u64>) -> bool {
    forall|i: int, j: int| 0 <= i < j < v.len() ==> #[trigger] v[i] <= #[trigger] v[j]
}

/// Puts a number into its place.
fn insert_sorted(v: &mut Vec<u64>, n: u64)
    requires
        is_sorted(old(v)@),
    ensures
        is_sorted(final(v)@),
        final(v)@.to_multiset() == old(v)@.to_multiset().insert(n),
{
    let mut i: usize = v.len();
    while i > 0 && v[i - 1] > n
        invariant
            i <= v@.len(),
            v@ == old(v)@,
            is_sorted(v@),
            forall|j: int| i <= j < v@.len() ==> #[trigger] v@[j] > n,
        decreases i,
    {
        i -= 1;
    }
    let ghost was = v@;
    v.insert(i, n);
    proof {
        vstd::seq_lib::to_multiset_insert(was, i as int, n);
        assert forall|a: int, b: int| 0 <= a < b < v@.len() implies #[trigger] v@[a] <= #[trigger] v@[b] by {
            if a < i && i > 0 {
                assert(a < i - 1 ==> was[a] <= was[i - 1]);
            }
            if b < i {
                assert(was[a] <= was[b]);
            } else if a > i {
                assert(was[a - 1] <= was[b - 1]);
            } else if a < i && b > i {
                assert(was[a] <= was[b - 1]);
            }
        }
    }
}

/// The snapshots among the files of a store, oldest first. A file whose name
/// is something else is passed over.
pub fn snapshots(names: &[String]) -> (r: Vec<u64>)
    ensures
        is_sorted(r@),
        r@.to_multiset() == snapshot_seqs(text::texts(names@)).to_multiset(),
{
    let ghost all = text::texts(names@);
    let mut out: Vec<u64> = Vec::new();
    assert(all.take(0) =~= Seq::<Seq<char>>::empty());
    for i in 0..names.len()
        invariant
            all == text::texts(names@),
            is_sorted(out@),
            out@.to_multiset() == snapshot_seqs(all.take(i as int)).to_multiset(),
    {
        assert(all.take(i + 1).drop_last() =~= all.take(i as int));
        if let Some(n) = snapshot_seq(names[i].as_str()) {
            proof {
                vstd::seq_lib::to_multiset_build(snapshot_seqs(all.take(i as int)), n);
            }
            insert_sorted(&mut out, n);
        }
    }
    assert(all.take(names@.len() as int) =~= all);
    out
}

// --- replay -------------------------------------------------------------------

/// From where the state at a generation is rebuilt: the snapshot to begin
/// with, if there is one, and the generation after which entries are replayed.
pub struct Replay {
    pub snapshot: Option<u64>,
    pub after: u64,
}

/// `r` begins with the newest of `snapshots` that is no later than `seq`.
pub open spec fn is_replay(r: Replay, snapshots: Seq<u64>, seq: u64) -> bool {
    match r.snapshot {
        Some(s) => {
            &&& snapshots.contains(s)
            &&& s <= seq
            &&& r.after == s
            &&& forall|i: int|
                0 <= i < snapshots.len() && #[trigger] snapshots[i] <= seq ==> snapshots[i] <= s
        },
        None => {
            &&& r.after == 0
            &&& forall|i: int| 0 <= i < snapshots.len() ==> #[trigger] snapshots[i] > seq
        },
    }
}

/// From where the state at generation `seq` is rebuilt.
pub fn replay_plan(snapshots: &[u64], seq: u64) -> (r: Replay)
    ensures
        is_replay(r, snapshots@, seq),
{
    let mut r = Replay { snapshot: None, after: 0 };
    for i in 0..snapshots.len()
        invariant
            is_replay(r, snapshots@.take(i as int), seq),
    {
        let ghost before = r;
        let ghost seen = snapshots@.take(i as int);
        let ghost now = snapshots@.take(i + 1);
        let s: u64 = snapshots[i];
        let better: bool = match r.snapshot {
            Some(t) => t <= s,
            None => true,
        };
        if s <= seq && better {
            r = Replay { snapshot: Some(s), after: s };
        }
        proof {
            assert(now =~= seen.push(s));
            assert(now[i as int] == s);
            if before.snapshot is Some {
                text::lemma_push_contains(seen, s, before.snapshot->0);
            }
            text::lemma_push_contains(seen, s, s);
            assert forall|j: int| 0 <= j < i implies #[trigger] now[j] == seen[j] by {}
        }
    }
    assert(snapshots@.take(snapshots@.len() as int) =~= snapshots@);
    r
}

/// What a list of entries holds.
pub open spec fn entry_changes(v: Seq<Vec<Change>>) -> Seq<Seq<ChangeModel>> {
    v.map_values(|e: Vec<Change>| state::change_models(e@))
}

/// `s` after all of `entries`.
pub open spec fn replayed_entries(s: StateModel, entries: Seq<Seq<ChangeModel>>) -> StateModel
    decreases entries.len(),
{
    if entries.len() == 0 {
        s
    } else {
        state::replayed(replayed_entries(s, entries.drop_last()), entries.last())
    }
}

/// What a snapshot stands for; without one, the empty state.
pub open spec fn snapshot_state(snapshot: Option<Seq<ChangeModel>>) -> StateModel {
    match snapshot {
        Some(changes) => state::replayed(Map::empty(), changes),
        None => Map::empty(),
    }
}

/// What an optional snapshot holds.
pub open spec fn snapshot_changes(s: Option<Vec<Change>>) -> Option<Seq<ChangeModel>> {
    match s {
        Some(v) => Some(state::change_models(v@)),
        None => None,
    }
}

impl Store {
    /// The published state, rebuilt from a snapshot and the entries after it.
    pub fn desired(snapshot: &Option<Vec<Change>>, entries: &[Vec<Change>]) -> (r: State)
        ensures
            r@ == replayed_entries(
                snapshot_state(snapshot_changes(*snapshot)),
                entry_changes(entries@),
            ),
    {
        let mut st: State = Table::new();
        if let Some(changes) = snapshot {
            apply(&mut st, changes.as_slice());
        }
        let ghost start = st@;
        let ghost all = entry_changes(entries@);
        assert(all.take(0) =~= Seq::<Seq<ChangeModel>>::empty());
        for i in 0..entries.len()
            invariant
                all == entry_changes(entries@),
                st@ == replayed_entries(start, all.take(i as int)),
        {
            assert(all.take(i + 1).drop_last() =~= all.take(i as int));
            apply(&mut st, entries[i].as_slice());
        }
        assert(all.take(entries@.len() as int) =~= all);
        st
    }
}

// --- publication --------------------------------------------------------------

/// How many generations lie between snapshots.
pub const SNAPSHOT_EVERY: u64 = 20;

/// One step of a publication.
pub enum Step {
    /// Write the entry.
    Entry { seq: u64 },
    /// Write a snapshot.
    Snapshot { seq: u64, changes: Vec<Change> },
    /// Remove an old snapshot, if it is there.
    Drop { seq: u64 },
    /// Move the head.
    Head { seq: u64 },
}

/// The model of a [`Step`].
pub enum StepModel {
    Entry { seq: u64 },
    Snapshot { seq: u64, changes: Seq<ChangeModel> },
    Drop { seq: u64 },
    Head { seq: u64 },
}

impl View for Step {
    type V = StepModel;

    open spec fn view(&self) -> StepModel {
        match self {
            Step::Entry { seq } => StepModel::Entry { seq: *seq },
            Step::Snapshot { seq, changes } => StepModel::Snapshot {
                seq: *seq,
                changes: state::change_models(changes@),
            },
            Step::Drop { seq } => StepModel::Drop { seq: *seq },
            Step::Head { seq } => StepModel::Head { seq: *seq },
        }
    }
}

/// What a list of steps holds.
pub open spec fn step_models(v: Seq<Step>) -> Seq<StepModel> {
    v.map_values(|s: Step| s@)
}

/// The steps that remove the snapshots before `seq`.
pub open spec fn drop_steps(snapshots: Seq<u64>, seq: u64) -> Seq<StepModel> {
    snapshots.filter(|s: u64| s < seq).map_values(|s: u64| StepModel::Drop { seq: s })
}

/// The steps that keep the snapshots up to date.
pub open spec fn snapshot_steps(
    desired: Seq<(KeyModel, ItemModel)>,
    snapshots: Seq<u64>,
    seq: u64,
) -> Seq<StepModel> {
    if seq % SNAPSHOT_EVERY == 0 {
        seq![
            StepModel::Snapshot {
                seq,
                changes: state::difference(Seq::<(KeyModel, ItemModel)>::empty(), desired),
            },
        ] + drop_steps(snapshots, seq)
    } else {
        Seq::empty()
    }
}

/// The steps of a publication: the entry, then now and then a snapshot in
/// place of the older ones, and the head last. So no reader ever sees a
/// generation whose entry is not there yet.
pub open spec fn publication(
    desired: Seq<(KeyModel, ItemModel)>,
    snapshots: Seq<u64>,
    seq: u64,
) -> Seq<StepModel> {
    seq![StepModel::Entry { seq }] + snapshot_steps(desired, snapshots, seq)
        + seq![StepModel::Head { seq }]
}

impl Store {
    /// The number of the generation that comes after `head`.
    pub fn next_seq(head: u64) -> (r: u64)
        requires
            head < u64::MAX,
        ensures
            r == head + 1,
    {
        head + 1
    }

    /// The steps that publish generation `seq`, whose state is `desired`, in
    /// the order in which they are to be taken.
    pub fn publish(desired: &State, snapshots: &[u64], seq: u64) -> (r: Vec<Step>)
        ensures
            step_models(r@) == publication(desired.rows(), snapshots@, seq),
    {
        let mut out: Vec<Step> = Vec::new();
        out.push(Step::Entry { seq });
        assert(step_models(out@) =~= seq![StepModel::Entry { seq }]);
        let ghost mut mid: Seq<StepModel> = Seq::empty();
        assert(step_models(out@) =~= seq![StepModel::Entry { seq }] + mid);
        if seq % SNAPSHOT_EVERY == 0 {
            let none: State = Table::new();
            let full: Vec<Change> = diff(&none, desired);
            let ghost taken = StepModel::Snapshot { seq, changes: state::change_models(full@) };
            out.push(Step::Snapshot { seq, changes: full });
            let ghost head = step_models(out@);
            assert(head =~= seq![StepModel::Entry { seq }, taken]);
            let ghost old = |s: u64| s < seq;
            let ghost gone = |s: u64| StepModel::Drop { seq: s };
            proof {
                reveal(Seq::filter);
                assert(head =~= head + snapshots@.take(0).filter(old).map_values(gone));
            }
            for i in 0..snapshots.len()
                invariant
                    old == (|s: u64| s < seq),
                    gone == (|s: u64| StepModel::Drop { seq: s }),
                    step_models(out@) == head + snapshots@.take(i as int).filter(old).map_values(
                        gone,
                    ),
            {
                let ghost kept = snapshots@.take(i as int).filter(old);
                let s: u64 = snapshots[i];
                proof {
                    reveal(Seq::filter);
                    assert(snapshots@.take(i + 1).drop_last() =~= snapshots@.take(i as int));
                    assert(kept.push(s).map_values(gone) =~= kept.map_values(gone).push(gone(s)));
                }
                if s < seq {
                    let ghost before = step_models(out@);
                    out.push(Step::Drop { seq: s });
                    assert(step_models(out@) =~= before.push(gone(s)));
                    assert((head + kept.map_values(gone)).push(gone(s)) =~= head + kept.map_values(
                        gone,
                    ).push(gone(s)));
                }
            }
            assert(snapshots@.take(snapshots@.len() as int) =~= snapshots@);
            proof {
                mid = snapshot_steps(desired.rows(), snapshots@, seq);
                assert(step_models(out@) =~= seq![StepModel::Entry { seq }] + mid);
            }
        }
        let ghost before = step_models(out@);
        out.push(Step::Head { seq });
        assert(step_models(out@) =~= before.push(StepModel::Head { seq }));
        assert(step_models(out@) =~= publication(desired.rows(), snapshots@, seq));
        out
    }
}

/// What the head file holds.
pub open spec fn head_file(seq: u64) -> Seq<char> {
    text::decimal(seq as nat) + "\n"@
}

/// What the head file is to hold.
pub fn head_text(seq: u64) -> (r: String)
    ensures
        r@ == head_file(seq),
{
    let mut out: String = decimal_of(seq);
    out.append("\n");
    out
}

impl Store {
    /// The newest generation, by what the head file holds. Without one, or if
    /// it holds no number, nothing was published.
    pub fn head(file: Option<&str>) -> (r: u64)
        ensures
            r as nat == crate::settings::counter_value(crate::settings::text_of(file)),
    {
        crate::settings::counter(file)
    }
}

} // verus!
