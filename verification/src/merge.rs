//! Ordered-list merge: an anchored rebase for `PATH` and its kin.
//!
//! A local addition is recorded with its nearest surviving predecessor, then
//! rebased onto the incoming list. To have no predecessor is what a prepend
//! is, so that an entry was prepended is derived rather than recorded.

use crate::globs::{self, Glob};
use crate::lists::{self, dedup, lcs, norm, norms};
use crate::text::{self, listed, replace, same, split_non_empty, Cut};
use vstd::prelude::*;
use vstd::string::*;

verus! {

// --- the model ---------------------------------------------------------------

/// An entry that was added locally, and the compared form of the anchor that
/// it stands behind; `None` is the head of the list.
pub struct Addition {
    pub entry: Seq<char>,
    pub after: Option<Seq<char>>,
}

/// Entries that supersede each other: a pattern, and the compared forms of the
/// entries that belong to it.
pub struct FamilyModel {
    pub pattern: Seq<char>,
    pub members: Set<Seq<char>>,
}

/// A merged list and the account of how it came about.
#[verifier::ext_equal]
pub struct MergedModel {
    pub list: Seq<Seq<char>>,
    pub notes: Seq<Seq<char>>,
}

/// `v` holds an entry whose compared form is `n`.
pub open spec fn holds(v: Seq<Seq<char>>, n: Seq<char>) -> bool {
    lists::norms_of(v).contains(n)
}

/// The walk passes through place `j` of the second list.
pub open spec fn anchored(walk: Seq<(int, int)>, j: int) -> bool {
    exists|k: int| 0 <= k < walk.len() && (#[trigger] walk[k]).1 == j
}

/// The compared form of the nearest anchor before place `i`.
pub open spec fn anchor_before(ours: Seq<Seq<char>>, walk: Seq<(int, int)>, i: int) -> Option<
    Seq<char>,
>
    decreases i,
{
    if i <= 0 {
        None
    } else if anchored(walk, i - 1) {
        Some(lists::norm_of(ours[i - 1]))
    } else {
        anchor_before(ours, walk, i - 1)
    }
}

/// The entries among the first `n` of `ours` that are no anchors, each with
/// the anchor that it stands behind.
pub open spec fn additions(ours: Seq<Seq<char>>, walk: Seq<(int, int)>, n: int) -> Seq<Addition>
    decreases n,
{
    if n <= 0 {
        Seq::empty()
    } else if anchored(walk, n - 1) {
        additions(ours, walk, n - 1)
    } else {
        additions(ours, walk, n - 1).push(
            Addition { entry: ours[n - 1], after: anchor_before(ours, walk, n - 1) },
        )
    }
}

/// An entry that was installed here and that the live list no longer has: it
/// was removed by hand.
pub open spec fn removed_here(base: Seq<Seq<char>>, ours: Seq<Seq<char>>, n: Seq<char>) -> bool {
    holds(base, n) && !holds(ours, n)
}

/// What is left of the incoming list when local removals are honoured.
pub open spec fn surviving(
    base: Seq<Seq<char>>,
    ours: Seq<Seq<char>>,
    theirs: Seq<Seq<char>>,
) -> Seq<Seq<char>> {
    theirs.filter(|e: Seq<char>| !removed_here(base, ours, lists::norm_of(e)))
}

pub open spec fn kept_deleted_note(e: Seq<char>) -> Seq<char> {
    "kept deleted: "@ + e + " (upstream still wants it)"@
}

pub open spec fn evicted_note(e: Seq<char>, pattern: Seq<char>) -> Seq<char> {
    "evicted: "@ + e + " (superseded in family "@ + pattern + ")"@
}

pub open spec fn hoisted_note(e: Seq<char>) -> Seq<char> {
    "hoisted: "@ + e
}

pub open spec fn orphan_note(e: Seq<char>, anchor: Seq<char>) -> Seq<char> {
    "orphan: "@ + e + " (anchor "@ + anchor + " gone)"@
}

/// One note for each incoming entry that stays deleted.
pub open spec fn removal_notes(
    base: Seq<Seq<char>>,
    ours: Seq<Seq<char>>,
    theirs: Seq<Seq<char>>,
) -> Seq<Seq<char>> {
    theirs.filter(|e: Seq<char>| removed_here(base, ours, lists::norm_of(e))).map_values(
        |e: Seq<char>| kept_deleted_note(e),
    )
}

/// The family has a member in `list`.
pub open spec fn represented(family: FamilyModel, list: Seq<Seq<char>>) -> bool {
    exists|i: int|
        0 <= i < list.len() && family.members.contains(lists::norm_of(#[trigger] list[i]))
}

/// `e` belongs to a family that has a member in `list`.
pub open spec fn superseded(families: Seq<FamilyModel>, list: Seq<Seq<char>>, e: Seq<char>) -> bool {
    exists|i: int|
        0 <= i < families.len() && represented(#[trigger] families[i], list)
            && families[i].members.contains(lists::norm_of(e))
}

/// The additions that no family supersedes.
pub open spec fn unsuperseded(
    families: Seq<FamilyModel>,
    list: Seq<Seq<char>>,
    added: Seq<Addition>,
) -> Seq<Addition>
    decreases families.len(),
{
    if families.len() == 0 {
        added
    } else {
        let before = unsuperseded(families.drop_last(), list, added);
        let family = families.last();
        if represented(family, list) {
            before.filter(|a: Addition| !family.members.contains(lists::norm_of(a.entry)))
        } else {
            before
        }
    }
}

/// One note for each addition that a family supersedes, family by family.
pub open spec fn eviction_notes(
    families: Seq<FamilyModel>,
    list: Seq<Seq<char>>,
    added: Seq<Addition>,
) -> Seq<Seq<char>>
    decreases families.len(),
{
    if families.len() == 0 {
        Seq::empty()
    } else {
        let notes = eviction_notes(families.drop_last(), list, added);
        let before = unsuperseded(families.drop_last(), list, added);
        let family = families.last();
        if represented(family, list) {
            notes + before.filter(
                |a: Addition| family.members.contains(lists::norm_of(a.entry)),
            ).map_values(|a: Addition| evicted_note(a.entry, family.pattern))
        } else {
            notes
        }
    }
}

/// The place of the first entry of `v` whose compared form is `n`.
pub open spec fn place_of(v: Seq<Seq<char>>, n: Seq<char>) -> Option<int>
    decreases v.len(),
{
    if v.len() == 0 {
        None
    } else {
        match place_of(v.drop_last(), n) {
            Some(i) => Some(i),
            None => if lists::norm_of(v.last()) == n {
                Some(v.len() - 1)
            } else {
                None
            },
        }
    }
}

/// `v` without the entries whose compared form is `n`.
pub open spec fn without(v: Seq<Seq<char>>, n: Seq<char>) -> Seq<Seq<char>> {
    v.filter(|x: Seq<char>| lists::norm_of(x) != n)
}

/// Puts one local addition back on. What the incoming list already has is
/// hoisted if it was prepended and left in its incoming place otherwise; what
/// it does not have goes behind its anchor, or to the head without one.
pub open spec fn put_back(theirs: Seq<Seq<char>>, m: MergedModel, a: Addition) -> MergedModel {
    let n = lists::norm_of(a.entry);
    if holds(theirs, n) {
        match a.after {
            None => MergedModel {
                list: seq![a.entry] + without(m.list, n),
                notes: m.notes.push(hoisted_note(a.entry)),
            },
            Some(_) => m,
        }
    } else {
        match a.after {
            None => MergedModel { list: seq![a.entry] + m.list, notes: m.notes },
            Some(anchor) => match place_of(m.list, anchor) {
                Some(i) => MergedModel { list: m.list.insert(i + 1, a.entry), notes: m.notes },
                None => MergedModel {
                    list: seq![a.entry] + m.list,
                    notes: m.notes.push(orphan_note(a.entry, anchor)),
                },
            },
        }
    }
}

/// Puts the additions back on, the last one first, so that several prepends
/// keep their order.
pub open spec fn put_all_back(
    theirs: Seq<Seq<char>>,
    m: MergedModel,
    added: Seq<Addition>,
) -> MergedModel
    decreases added.len(),
{
    if added.len() == 0 {
        m
    } else {
        put_all_back(theirs, put_back(theirs, m, added.last()), added.drop_last())
    }
}

/// The local additions to a list: what of `ours` the longest common
/// subsequence with `base` does not pass through.
pub open spec fn local_additions(base: Seq<Seq<char>>, ours: Seq<Seq<char>>) -> Seq<Addition> {
    additions(
        ours,
        lists::common_walk(lists::norms_of(base), lists::norms_of(ours), 0, 0),
        ours.len() as int,
    )
}

/// The merge of lists that hold no duplicates.
pub open spec fn rebased(
    base: Seq<Seq<char>>,
    ours: Seq<Seq<char>>,
    theirs: Seq<Seq<char>>,
    families: Seq<FamilyModel>,
) -> MergedModel {
    let added = local_additions(base, ours);
    let start = surviving(base, ours, theirs);
    let m = put_all_back(
        theirs,
        MergedModel {
            list: start,
            notes: removal_notes(base, ours, theirs) + eviction_notes(families, start, added),
        },
        unsuperseded(families, start, added),
    );
    MergedModel { list: lists::deduped(m.list), notes: m.notes }
}

/// What merging `ours`, which was built on `base`, with `theirs` gives.
pub open spec fn merged(
    base: Seq<Seq<char>>,
    ours: Seq<Seq<char>>,
    theirs: Seq<Seq<char>>,
    families: Seq<FamilyModel>,
) -> MergedModel {
    rebased(lists::deduped(base), lists::deduped(ours), lists::deduped(theirs), families)
}

// --- the code ----------------------------------------------------------------

/// A merged list. The notes account for every entry that was not simply taken
/// over, so that a surprising list can be traced to a rule.
pub struct Merged {
    pub list: Vec<String>,
    pub notes: Vec<String>,
}

impl View for Merged {
    type V = MergedModel;

    open spec fn view(&self) -> MergedModel {
        MergedModel { list: text::texts(self.list@), notes: text::texts(self.notes@) }
    }
}

/// A family with those of the entries at hand that belong to it, in their
/// compared form.
pub struct Family {
    pub pattern: String,
    pub members: Vec<String>,
}

impl View for Family {
    type V = FamilyModel;

    open spec fn view(&self) -> FamilyModel {
        FamilyModel { pattern: self.pattern@, members: text::texts(self.members@).to_set() }
    }
}

/// What a list of families holds.
pub open spec fn family_models(v: Seq<Family>) -> Seq<FamilyModel> {
    v.map_values(|f: Family| f@)
}

/// An [`Addition`] as the code holds it.
struct Local {
    entry: String,
    after: Option<String>,
}

spec fn local_model(l: Local) -> Addition {
    Addition {
        entry: l.entry@,
        after: match l.after {
            Some(a) => Some(a@),
            None => None,
        },
    }
}

spec fn local_models(v: Seq<Local>) -> Seq<Addition> {
    v.map_values(|l: Local| local_model(l))
}

/// Which places of `ours` survive from `base` in the same relative order.
pub fn lcs_anchors(base: &[String], ours: &[String]) -> (r: Vec<bool>)
    ensures
        r@.len() == ours@.len(),
        forall|j: int|
            0 <= j < r@.len() ==> #[trigger] r@[j] == anchored(
                lists::common_walk(
                    lists::norms_of(text::texts(base@)),
                    lists::norms_of(text::texts(ours@)),
                    0,
                    0,
                ),
                j,
            ),
{
    let pairs: Vec<(usize, usize)> = lcs(base, ours);
    let ghost walk = lists::common_walk(
        lists::norms_of(text::texts(base@)),
        lists::norms_of(text::texts(ours@)),
        0,
        0,
    );
    proof {
        lists::common_walk_is_common(
            lists::norms_of(text::texts(base@)),
            lists::norms_of(text::texts(ours@)),
            0,
            0,
        );
    }
    let mut r: Vec<bool> = Vec::new();
    for j in 0..ours.len()
        invariant
            r@.len() == j,
            forall|k: int| 0 <= k < j ==> !#[trigger] r@[k],
    {
        r.push(false);
    }
    for k in 0..pairs.len()
        invariant
            r@.len() == ours@.len(),
            walk == lists::places(pairs@),
            lists::is_common(
                lists::norms_of(text::texts(base@)),
                lists::norms_of(text::texts(ours@)),
                0,
                0,
                walk,
            ),
            forall|j: int|
                0 <= j < r@.len() ==> #[trigger] r@[j] == anchored(walk.take(k as int), j),
    {
        let ghost before = r@;
        assert(walk[k as int] == (pairs@[k as int].0 as int, pairs@[k as int].1 as int));
        r.set(pairs[k].1, true);
        assert forall|j: int| 0 <= j < r@.len() implies #[trigger] r@[j] == anchored(
            walk.take(k + 1),
            j,
        ) by {
            let w = walk.take(k as int);
            let v = walk.take(k + 1);
            assert(v[k as int] == walk[k as int]);
            if anchored(w, j) {
                let q = choose|q: int| 0 <= q < w.len() && (#[trigger] w[q]).1 == j;
                assert(v[q] == w[q]);
            }
            if anchored(v, j) && j != pairs@[k as int].1 {
                let q = choose|q: int| 0 <= q < v.len() && (#[trigger] v[q]).1 == j;
                assert(w[q] == v[q]);
            }
            assert(r@[j] == (j == pairs@[k as int].1 || before[j]));
        }
    }
    assert(walk.take(pairs@.len() as int) =~= walk);
    r
}

fn copy_option(o: &Option<String>) -> (r: Option<String>)
    ensures
        match (*o, r) {
            (Some(a), Some(b)) => a@ == b@,
            (None, None) => true,
            _ => false,
        },
{
    match o {
        Some(s) => Some(s.clone()),
        None => None,
    }
}

fn copy_local(l: &Local) -> (r: Local)
    ensures
        local_model(r) == local_model(*l),
{
    Local { entry: l.entry.clone(), after: copy_option(&l.after) }
}

proof fn lemma_local_models_push(v: Seq<Local>, l: Local)
    ensures
        local_models(v.push(l)) == local_models(v).push(local_model(l)),
{
    assert(local_models(v.push(l)) =~= local_models(v).push(local_model(l)));
}

/// The local additions: every entry that is no anchor, with its anchor.
fn find_additions(
    ours: &Vec<String>,
    anchors: &Vec<bool>,
    Ghost(walk): Ghost<Seq<(int, int)>>,
) -> (r: Vec<Local>)
    requires
        anchors@.len() == ours@.len(),
        forall|j: int| 0 <= j < anchors@.len() ==> #[trigger] anchors@[j] == anchored(walk, j),
    ensures
        local_models(r@) == additions(text::texts(ours@), walk, ours@.len() as int),
{
    let ghost all = text::texts(ours@);
    let mut out: Vec<Local> = Vec::new();
    let mut near: Option<String> = None;
    assert(local_models(out@) =~= Seq::<Addition>::empty());
    for i in 0..ours.len()
        invariant
            all == text::texts(ours@),
            anchors@.len() == ours@.len(),
            forall|j: int| 0 <= j < anchors@.len() ==> #[trigger] anchors@[j] == anchored(walk, j),
            local_models(out@) == additions(all, walk, i as int),
            match near {
                Some(a) => anchor_before(all, walk, i as int) == Some(a@),
                None => anchor_before(all, walk, i as int) is None,
            },
    {
        assert(anchors@[i as int] == anchored(walk, i as int));
        if anchors[i] {
            near = Some(norm(ours[i].as_str()));
        } else {
            let l = Local { entry: ours[i].clone(), after: copy_option(&near) };
            proof {
                lemma_local_models_push(out@, l);
                assert(local_model(l) == Addition {
                    entry: all[i as int],
                    after: anchor_before(all, walk, i as int),
                });
            }
            out.push(l);
        }
    }
    out
}

/// Does the family have a member in `list`?
fn is_represented(family: &Family, list: &Vec<String>) -> (r: bool)
    ensures
        r == represented(family@, text::texts(list@)),
{
    for i in 0..list.len()
        invariant
            forall|j: int|
                0 <= j < i ==> !family@.members.contains(
                    lists::norm_of(#[trigger] text::texts(list@)[j]),
                ),
    {
        if listed(family.members.as_slice(), norm(list[i].as_str()).as_str()) {
            assert(family@.members.contains(lists::norm_of(text::texts(list@)[i as int])));
            return true;
        }
    }
    false
}

/// Takes the members of one family out of the additions, with a note for each.
fn evict(family: &Family, added: &Vec<Local>, notes: &mut Vec<String>) -> (r: Vec<Local>)
    ensures
        local_models(r@) == local_models(added@).filter(
            |a: Addition| !family@.members.contains(lists::norm_of(a.entry)),
        ),
        text::texts(final(notes)@) == text::texts(old(notes)@) + local_models(added@).filter(
            |a: Addition| family@.members.contains(lists::norm_of(a.entry)),
        ).map_values(|a: Addition| evicted_note(a.entry, family@.pattern)),
{
    let ghost all = local_models(added@);
    let ghost stays = |a: Addition| !family@.members.contains(lists::norm_of(a.entry));
    let ghost goes = |a: Addition| family@.members.contains(lists::norm_of(a.entry));
    let ghost told = |a: Addition| evicted_note(a.entry, family@.pattern);
    let ghost was = text::texts(notes@);
    let mut out: Vec<Local> = Vec::new();
    proof {
        reveal(Seq::filter);
        assert(local_models(out@) =~= all.take(0).filter(stays));
        assert(was =~= was + all.take(0).filter(goes).map_values(told));
    }
    for i in 0..added.len()
        invariant
            all == local_models(added@),
            stays == (|a: Addition| !family@.members.contains(lists::norm_of(a.entry))),
            goes == (|a: Addition| family@.members.contains(lists::norm_of(a.entry))),
            told == (|a: Addition| evicted_note(a.entry, family@.pattern)),
            local_models(out@) == all.take(i as int).filter(stays),
            text::texts(notes@) == was + all.take(i as int).filter(goes).map_values(told),
    {
        proof {
            reveal(Seq::filter);
            assert(all.take(i + 1).drop_last() =~= all.take(i as int));
            assert(all[i as int] == local_model(added@[i as int]));
        }
        if listed(family.members.as_slice(), norm(added[i].entry.as_str()).as_str()) {
            let mut note = "evicted: ".to_owned();
            note.append(added[i].entry.as_str());
            note.append(" (superseded in family ");
            note.append(family.pattern.as_str());
            note.append(")");
            proof {
                text::lemma_texts_push(notes@, note);
                assert(note@ == told(all[i as int]));
                let before = all.take(i as int).filter(goes);
                assert(all.take(i + 1).filter(goes) == before.push(all[i as int]));
                assert(before.push(all[i as int]).map_values(told) =~= before.map_values(told).push(
                    told(all[i as int]),
                ));
                assert(was + before.map_values(told).push(note@) =~= (was + before.map_values(
                    told,
                )).push(note@));
            }
            notes.push(note);
        } else {
            let l = copy_local(&added[i]);
            proof {
                lemma_local_models_push(out@, l);
            }
            out.push(l);
        }
    }
    assert(all.take(added@.len() as int) =~= all);
    out
}

/// The place of the first entry whose compared form is `n`.
fn find_place(v: &Vec<String>, n: &str) -> (r: Option<usize>)
    ensures
        match r {
            Some(i) => place_of(text::texts(v@), n@) == Some(i as int) && i < v.len(),
            None => place_of(text::texts(v@), n@) is None,
        },
{
    let ghost all = text::texts(v@);
    assert(all.take(0) =~= Seq::<Seq<char>>::empty());
    for i in 0..v.len()
        invariant
            all == text::texts(v@),
            place_of(all.take(i as int), n@) is None,
    {
        assert(all.take(i + 1).drop_last() =~= all.take(i as int));
        if same(norm(v[i].as_str()).as_str(), n) {
            proof {
                lemma_place_stays(all, n@, i + 1);
            }
            return Some(i);
        }
    }
    assert(all.take(v@.len() as int) =~= all);
    None
}

/// What is first in a part of the list is first in the whole.
proof fn lemma_place_stays(v: Seq<Seq<char>>, n: Seq<char>, k: int)
    requires
        0 <= k <= v.len(),
        place_of(v.take(k), n) is Some,
    ensures
        place_of(v, n) == place_of(v.take(k), n),
    decreases v.len(),
{
    if k < v.len() {
        assert(v.drop_last().take(k) =~= v.take(k));
        lemma_place_stays(v.drop_last(), n, k);
    } else {
        assert(v.take(k) =~= v);
    }
}

/// `v` without the entries whose compared form is `n`.
fn drop_entry(v: &Vec<String>, n: &str) -> (r: Vec<String>)
    ensures
        text::texts(r@) == without(text::texts(v@), n@),
{
    let ghost all = text::texts(v@);
    let ghost keep = |x: Seq<char>| lists::norm_of(x) != n@;
    let mut out: Vec<String> = Vec::new();
    proof {
        reveal(Seq::filter);
        assert(text::texts(out@) =~= all.take(0).filter(keep));
    }
    for i in 0..v.len()
        invariant
            all == text::texts(v@),
            keep == (|x: Seq<char>| lists::norm_of(x) != n@),
            text::texts(out@) == all.take(i as int).filter(keep),
    {
        proof {
            reveal(Seq::filter);
            assert(all.take(i + 1).drop_last() =~= all.take(i as int));
        }
        if !same(norm(v[i].as_str()).as_str(), n) {
            proof {
                text::lemma_texts_push(out@, v@[i as int]);
            }
            out.push(v[i].clone());
        }
    }
    assert(all.take(v@.len() as int) =~= all);
    out
}

/// Puts `e` at place `i`.
fn put_at(v: &mut Vec<String>, i: usize, e: &String)
    requires
        i <= old(v)@.len(),
    ensures
        text::texts(final(v)@) == text::texts(old(v)@).insert(i as int, e@),
{
    v.insert(i, e.clone());
    assert(text::texts(v@) =~= text::texts(old(v)@).insert(i as int, e@));
}

/// Puts one local addition back on.
fn put_one_back(their_norms: &Vec<String>, m: Merged, a: &Local, Ghost(theirs): Ghost<Seq<Seq<char>>>) -> (r: Merged)
    requires
        text::texts(their_norms@) == lists::norms_of(theirs),
    ensures
        r@ == put_back(theirs, m@, local_model(*a)),
{
    let mut list = m.list;
    let mut notes = m.notes;
    let n: String = norm(a.entry.as_str());
    let known: bool = listed(their_norms.as_slice(), n.as_str());
    match &a.after {
        None => {
            if known {
                list = drop_entry(&list, n.as_str());
                let mut note = "hoisted: ".to_owned();
                note.append(a.entry.as_str());
                proof {
                    text::lemma_texts_push(notes@, note);
                }
                notes.push(note);
            }
            let ghost rest = text::texts(list@);
            put_at(&mut list, 0, &a.entry);
            assert(rest.insert(0, a.entry@) =~= seq![a.entry@] + rest);
        },
        Some(anchor) => {
            if !known {
                match find_place(&list, anchor.as_str()) {
                    Some(i) => {
                        put_at(&mut list, i + 1, &a.entry);
                    },
                    None => {
                        let mut note = "orphan: ".to_owned();
                        note.append(a.entry.as_str());
                        note.append(" (anchor ");
                        note.append(anchor.as_str());
                        note.append(" gone)");
                        proof {
                            text::lemma_texts_push(notes@, note);
                        }
                        notes.push(note);
                        let ghost rest = text::texts(list@);
                        put_at(&mut list, 0, &a.entry);
                        assert(rest.insert(0, a.entry@) =~= seq![a.entry@] + rest);
                    },
                }
            }
        },
    }
    Merged { list, notes }
}

/// Merges three lists, with the families' members given.
///
/// `base` is what was last installed here, `ours` is the live list and
/// `theirs` the incoming one. The caller then takes `theirs`, not the merged
/// list, for the next base.
pub fn merge_members(
    base: &[String],
    ours: &[String],
    theirs: &[String],
    families: &[Family],
) -> (r: Merged)
    ensures
        r@ == merged(
            text::texts(base@),
            text::texts(ours@),
            text::texts(theirs@),
            family_models(families@),
        ),
{
    let base: Vec<String> = dedup(base);
    let ours: Vec<String> = dedup(ours);
    let theirs: Vec<String> = dedup(theirs);
    let ghost b = text::texts(base@);
    let ghost o = text::texts(ours@);
    let ghost t = text::texts(theirs@);
    let ghost walk = lists::common_walk(lists::norms_of(b), lists::norms_of(o), 0, 0);
    let anchors: Vec<bool> = lcs_anchors(base.as_slice(), ours.as_slice());
    let mut added: Vec<Local> = find_additions(&ours, &anchors, Ghost(walk));
    let base_norms: Vec<String> = norms(base.as_slice());
    let our_norms: Vec<String> = norms(ours.as_slice());
    let their_norms: Vec<String> = norms(theirs.as_slice());

    let mut notes: Vec<String> = Vec::new();
    let mut list: Vec<String> = Vec::new();
    let ghost gone = |e: Seq<char>| removed_here(b, o, lists::norm_of(e));
    let ghost left = |e: Seq<char>| !removed_here(b, o, lists::norm_of(e));
    let ghost told = |e: Seq<char>| kept_deleted_note(e);
    proof {
        reveal(Seq::filter);
        assert(text::texts(list@) =~= t.take(0).filter(left));
        assert(text::texts(notes@) =~= t.take(0).filter(gone).map_values(told));
    }
    for i in 0..theirs.len()
        invariant
            t == text::texts(theirs@),
            text::texts(base_norms@) == lists::norms_of(b),
            text::texts(our_norms@) == lists::norms_of(o),
            text::texts(their_norms@) == lists::norms_of(t),
            gone == (|e: Seq<char>| removed_here(b, o, lists::norm_of(e))),
            left == (|e: Seq<char>| !removed_here(b, o, lists::norm_of(e))),
            told == (|e: Seq<char>| kept_deleted_note(e)),
            text::texts(list@) == t.take(i as int).filter(left),
            text::texts(notes@) == t.take(i as int).filter(gone).map_values(told),
    {
        proof {
            reveal(Seq::filter);
            assert(t.take(i + 1).drop_last() =~= t.take(i as int));
        }
        let n: String = norm(theirs[i].as_str());
        assert(t[i as int] == theirs@[i as int]@);
        if listed(base_norms.as_slice(), n.as_str()) && !listed(our_norms.as_slice(), n.as_str()) {
            let mut note = "kept deleted: ".to_owned();
            note.append(theirs[i].as_str());
            note.append(" (upstream still wants it)");
            proof {
                text::lemma_texts_push(notes@, note);
                let before = t.take(i as int).filter(gone);
                assert(t.take(i + 1).filter(gone) == before.push(t[i as int]));
                assert(before.push(t[i as int]).map_values(told) =~= before.map_values(told).push(
                    told(t[i as int]),
                ));
                assert(note@ == told(t[i as int]));
            }
            notes.push(note);
        } else {
            proof {
                text::lemma_texts_push(list@, theirs@[i as int]);
            }
            list.push(theirs[i].clone());
        }
    }
    assert(t.take(theirs@.len() as int) =~= t);
    let ghost start = text::texts(list@);
    let ghost all = local_models(added@);
    let ghost fams = family_models(families@);
    let ghost removal = text::texts(notes@);
    assert(start == surviving(b, o, t));
    assert(removal == removal_notes(b, o, t));
    assert(fams.take(0) =~= Seq::<FamilyModel>::empty());
    assert(removal =~= removal + eviction_notes(fams.take(0), start, all));
    for i in 0..families.len()
        invariant
            fams == family_models(families@),
            start == text::texts(list@),
            local_models(added@) == unsuperseded(fams.take(i as int), start, all),
            text::texts(notes@) == removal + eviction_notes(fams.take(i as int), start, all),
    {
        proof {
            assert(fams.take(i + 1).drop_last() =~= fams.take(i as int));
            assert(fams.take(i + 1).last() == families@[i as int]@);
        }
        if is_represented(&families[i], &list) {
            let ghost before = text::texts(notes@);
            added = evict(&families[i], &added, &mut notes);
            proof {
                assert(text::texts(notes@) =~= removal + eviction_notes(
                    fams.take(i + 1),
                    start,
                    all,
                ));
            }
        }
    }
    assert(fams.take(families@.len() as int) =~= fams);

    let ghost kept = local_models(added@);
    let mut m = Merged { list, notes };
    let ghost first = m@;
    let mut k: usize = added.len();
    assert(kept.take(k as int) =~= kept);
    while k > 0
        invariant
            k <= added@.len(),
            kept == local_models(added@),
            text::texts(their_norms@) == lists::norms_of(t),
            put_all_back(t, m@, kept.take(k as int)) == put_all_back(t, first, kept),
        decreases k,
    {
        assert(kept.take(k as int).drop_last() =~= kept.take(k - 1));
        m = put_one_back(&their_norms, m, &added[k - 1], Ghost(t));
        k -= 1;
    }
    Merged { list: dedup(m.list.as_slice()), notes: m.notes }
}

/// Those of `names` that the pattern matches.
pub open spec fn matching(pattern: Seq<char>, names: Seq<Seq<char>>) -> Set<Seq<char>> {
    Set::new(|n: Seq<char>| names.contains(n) && globs::glob_matches(pattern, n))
}

/// Each pattern as a family of those of the entries at hand that it matches in
/// their compared form.
pub open spec fn families_among(
    patterns: Seq<Seq<char>>,
    ours: Seq<Seq<char>>,
    theirs: Seq<Seq<char>>,
) -> Seq<FamilyModel> {
    patterns.map_values(
        |p: Seq<char>|
            FamilyModel {
                pattern: p,
                members: matching(p, lists::norms_of(ours) + lists::norms_of(theirs)),
            },
    )
}

/// The members that a pattern has among `names`.
fn find_members(glob: &Glob, names: &Vec<String>) -> (r: Vec<String>)
    ensures
        text::texts(r@).to_set() == matching(glob@, text::texts(names@)),
{
    let ghost all = text::texts(names@);
    let mut out: Vec<String> = Vec::new();
    for i in 0..names.len()
        invariant
            all == text::texts(names@),
            forall|n: Seq<char>| #[trigger]
                text::texts(out@).contains(n) <==> all.take(i as int).contains(n)
                    && globs::glob_matches(glob@, n),
    {
        let ghost before = text::texts(out@);
        let ghost e = all[i as int];
        assert(all.take(i + 1) =~= all.take(i as int).push(e));
        if glob.matches(names[i].as_str()) {
            proof {
                text::lemma_texts_push(out@, names@[i as int]);
            }
            out.push(names[i].clone());
        }
        assert forall|n: Seq<char>| #[trigger]
            text::texts(out@).contains(n) <==> all.take(i + 1).contains(n) && globs::glob_matches(
                glob@,
                n,
            ) by {
            text::lemma_push_contains(before, e, n);
            text::lemma_push_contains(all.take(i as int), e, n);
            assert(before.contains(n) <==> all.take(i as int).contains(n) && globs::glob_matches(
                glob@,
                n,
            ));
        }
    }
    assert(all.take(names@.len() as int) =~= all);
    assert(text::texts(out@).to_set() =~= matching(glob@, all));
    out
}

/// Merges three lists.
pub fn merge(base: &[String], ours: &[String], theirs: &[String], families: &[Glob]) -> (r: Merged)
    ensures
        r@ == merged(
            text::texts(base@),
            text::texts(ours@),
            text::texts(theirs@),
            families_among(
                globs::patterns(families@),
                text::texts(ours@),
                text::texts(theirs@),
            ),
        ),
{
    let mut names: Vec<String> = norms(ours);
    let mut more: Vec<String> = norms(theirs);
    let ghost on = text::texts(names@);
    let ghost tn = text::texts(more@);
    names.append(&mut more);
    assert(text::texts(names@) =~= on + tn);
    let ghost wanted = families_among(
        globs::patterns(families@),
        text::texts(ours@),
        text::texts(theirs@),
    );
    let mut known: Vec<Family> = Vec::new();
    for i in 0..families.len()
        invariant
            on == lists::norms_of(text::texts(ours@)),
            tn == lists::norms_of(text::texts(theirs@)),
            text::texts(names@) == on + tn,
            wanted == families_among(
                globs::patterns(families@),
                text::texts(ours@),
                text::texts(theirs@),
            ),
            known@.len() == i,
            forall|j: int| 0 <= j < i ==> (#[trigger] known@[j])@ == wanted[j],
    {
        known.push(
            Family {
                pattern: families[i].as_str().to_owned(),
                members: find_members(&families[i], &names),
            },
        );
        assert(known@[i as int]@ == wanted[i as int]);
    }
    assert(family_models(known@) =~= wanted);
    merge_members(base, ours, theirs, known.as_slice())
}

// --- the families -------------------------------------------------------------

/// The toolchain switchers whose entries supersede each other. The tilde
/// stands for the home directory.
pub open spec fn builtin_families() -> Seq<Seq<char>> {
    seq![
        "~/.nvm/versions/node/*/bin"@,
        "~/.pyenv/versions/*/bin"@,
        "~/.rbenv/versions/*/bin"@,
        "~/.rustup/toolchains/*/bin"@,
        "~/.asdf/installs/*/*/bin"@,
    ]
}

/// The family patterns: the built-in ones and then the words of `extra`, with
/// every tilde replaced by the home directory.
pub open spec fn family_patterns(home: Seq<char>, extra: Seq<char>) -> Seq<Seq<char>> {
    (builtin_families() + text::words_of(extra)).map_values(
        |p: Seq<char>| text::replaced(p, "~"@, home),
    )
}

/// The families that lists are merged with; patterns that are not well formed
/// are dropped.
pub fn default_families(home: &str, extra: &str) -> (r: Vec<Glob>)
    ensures
        globs::patterns(r@) == globs::valid_globs(family_patterns(home@, extra@)),
{
    let mut texts: Vec<String> = vec![
        "~/.nvm/versions/node/*/bin".to_owned(),
        "~/.pyenv/versions/*/bin".to_owned(),
        "~/.rbenv/versions/*/bin".to_owned(),
        "~/.rustup/toolchains/*/bin".to_owned(),
        "~/.asdf/installs/*/*/bin".to_owned(),
    ];
    let mut words: Vec<String> = split_non_empty(extra, Cut::WhiteSpace);
    let ghost more = text::texts(words@);
    assert(text::texts(texts@) =~= builtin_families());
    texts.append(&mut words);
    let ghost all = builtin_families() + text::words_of(extra@);
    assert(text::texts(texts@) =~= all);
    proof {
        reveal_strlit("~");
    }
    let mut out: Vec<String> = Vec::new();
    for i in 0..texts.len()
        invariant
            "~"@.len() > 0,
            all == text::texts(texts@),
            out@.len() == i,
            forall|j: int|
                0 <= j < i ==> (#[trigger] out@[j])@ == text::replaced(all[j], "~"@, home@),
    {
        out.push(replace(texts[i].as_str(), "~", home));
    }
    assert(text::texts(out@) =~= family_patterns(home@, extra@));
    globs::compile(out.as_slice())
}

} // verus!
