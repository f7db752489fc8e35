//! A capture in a clean room: a fresh shell, what it knows, the bootstrap, and
//! what it knows then.

use crate::globs::{self, Glob};
use crate::lists;
use crate::paths::{self, same_path};
use crate::payload::{self, zq};
use crate::state::{
    self, diff, drop_volatile, effect, Change, ItemModel, Key, State, StateModel,
};
use crate::shell_laws;
use crate::state_laws;
use crate::table;
use crate::text::{self, lines};
use crate::wire::{self, parse_wire};
use vstd::prelude::*;
use vstd::string::*;

verus! {

/// What a capture found.
pub struct Capture {
    pub s0: State,
    pub s1: State,
    /// The files that the bootstrap sourced, in load order.
    pub sources: Vec<String>,
    /// The external commands that it ran, resolved against its own search path.
    pub commands: Vec<String>,
}

/// What the shell of a capture left behind: the two state files, or why they
/// could not be read; the two traces, where they are text; and how the shell
/// ended.
pub struct Remains {
    pub s0: Result<Vec<u8>, String>,
    pub s1: Result<Vec<u8>, String>,
    pub sources: Option<String>,
    pub commands: Option<String>,
    pub status: String,
}

/// The command that the shell of a capture is given.
pub fn capture_command(script: &str) -> (r: String)
    ensures
        r@ == "source "@ + payload::quoted(script@),
{
    let mut out = "source ".to_owned();
    out.append(zq(script).as_str());
    out
}

// --- traces -------------------------------------------------------------------

/// `list` names the path that `p` names.
pub open spec fn names_path(list: Seq<Seq<char>>, p: Seq<char>) -> bool {
    exists|i: int|
        0 <= i < list.len() && paths::path_model(#[trigger] list[i]) == paths::path_model(p)
}

/// `paths` without those that an earlier one already names: the first load is
/// the one that mattered.
pub open spec fn named_once(list: Seq<Seq<char>>) -> Seq<Seq<char>>
    decreases list.len(),
{
    if list.len() == 0 {
        Seq::empty()
    } else {
        let before = named_once(list.drop_last());
        if names_path(before, list.last()) {
            before
        } else {
            before.push(list.last())
        }
    }
}

/// The paths of a trace; a trace that could not be read has none.
pub open spec fn trace_model(trace: Option<Seq<char>>) -> Seq<Seq<char>> {
    match trace {
        Some(t) => named_once(text::lines_of(t)),
        None => Seq::empty(),
    }
}

fn is_named(list: &Vec<String>, p: &str) -> (r: bool)
    ensures
        r == names_path(text::texts(list@), p@),
{
    let ghost all = text::texts(list@);
    for i in 0..list.len()
        invariant
            all == text::texts(list@),
            forall|j: int|
                0 <= j < i ==> paths::path_model(#[trigger] all[j]) != paths::path_model(p@),
    {
        assert(all[i as int] == list@[i as int]@);
        if same_path(list[i].as_str(), p) {
            return true;
        }
    }
    false
}

/// Reads a trace: one path per line, each once.
pub fn trace_list(trace: &Option<String>) -> (r: Vec<String>)
    ensures
        text::texts(r@) == trace_model(crate::prints::optional_text(*trace)),
{
    let mut out: Vec<String> = Vec::new();
    assert(text::texts(out@) =~= Seq::<Seq<char>>::empty());
    match trace {
        None => {},
        Some(t) => {
            let all: Vec<String> = lines(t.as_str());
            let ghost every = text::texts(all@);
            assert(every.take(0) =~= Seq::<Seq<char>>::empty());
            for i in 0..all.len()
                invariant
                    every == text::texts(all@),
                    text::texts(out@) == named_once(every.take(i as int)),
            {
                assert(every.take(i + 1).drop_last() =~= every.take(i as int));
                if !is_named(&out, all[i].as_str()) {
                    proof {
                        text::lemma_texts_push(out@, all@[i as int]);
                    }
                    out.push(all[i].clone());
                }
            }
            assert(every.take(all@.len() as int) =~= every);
        },
    }
    out
}

// --- the capture --------------------------------------------------------------

/// What a state file says, or what is wrong with it.
pub open spec fn state_file(file: Result<Vec<u8>, String>, status: Seq<char>) -> Result<
    StateModel,
    Seq<char>,
> {
    match file {
        Err(e) => Err(
            "capture produced no state ("@ + e@ + "); zsh exited with "@ + status,
        ),
        Ok(buf) => match wire::wire_state(wire::fields_of(buf@)) {
            Ok(s) => Ok(s),
            Err(fault) => Err(
                wire::fault_message(fault, wire::debug_text(wire::quoted_field(fault))),
            ),
        },
    }
}

fn read_state(file: &Result<Vec<u8>, String>, status: &str) -> (r: Result<State, String>)
    ensures
        match r {
            Ok(s) => state_file(*file, status@) == Ok::<StateModel, Seq<char>>(s@),
            Err(m) => state_file(*file, status@) == Err::<StateModel, Seq<char>>(m@),
        },
{
    match file {
        Err(e) => {
            let mut m = "capture produced no state (".to_owned();
            m.append(e.as_str());
            m.append("); zsh exited with ");
            m.append(status);
            Err(m)
        },
        Ok(buf) => parse_wire(buf.as_slice()),
    }
}

/// Puts together what a capture found from what its shell left behind. The
/// first state file is looked at first.
pub fn clean_room(left: &Remains) -> (r: Result<Capture, String>)
    ensures
        match r {
            Ok(c) => {
                &&& state_file(left.s0, left.status@) == Ok::<StateModel, Seq<char>>(c.s0@)
                &&& state_file(left.s1, left.status@) == Ok::<StateModel, Seq<char>>(c.s1@)
                &&& text::texts(c.sources@) == trace_model(
                    crate::prints::optional_text(left.sources),
                )
                &&& text::texts(c.commands@) == trace_model(
                    crate::prints::optional_text(left.commands),
                )
            },
            Err(m) => match state_file(left.s0, left.status@) {
                Err(first) => m@ == first,
                Ok(_) => state_file(left.s1, left.status@) == Err::<StateModel, Seq<char>>(m@),
            },
        },
{
    let s0: State = match read_state(&left.s0, left.status.as_str()) {
        Ok(s) => s,
        Err(m) => {
            return Err(m);
        },
    };
    let s1: State = match read_state(&left.s1, left.status.as_str()) {
        Ok(s) => s,
        Err(m) => {
            return Err(m);
        },
    };
    Ok(
        Capture {
            s0,
            s1,
            sources: trace_list(&left.sources),
            commands: trace_list(&left.commands),
        },
    )
}

/// What a capture is to bring into every shell: what the bootstrap did, without
/// ignored names and without list entries that belong to one session.
pub open spec fn desired_model(
    s0: StateModel,
    s1: StateModel,
    ignore: Seq<Seq<char>>,
    volatile: Seq<Seq<char>>,
) -> StateModel {
    state::settled_model(
        state::effect_model(s0, s1, |n: Seq<char>| globs::any_matches(ignore, n)),
        |n: Seq<char>| globs::any_matches(volatile, n),
    )
}

/// The desired state of a capture.
pub fn desired_of(c: &Capture, ignore: &[Glob], volatile: &[Glob]) -> (r: State)
    ensures
        r@ == desired_model(c.s0@, c.s1@, globs::patterns(ignore@), globs::patterns(volatile@)),
{
    let mut s: State = effect(&c.s0, &c.s1, ignore);
    drop_volatile(&mut s, volatile);
    s
}

/// What a capture would change: the state that it stands for, and the changes
/// that lead there from what is published.
pub struct Delta {
    pub desired: State,
    pub changes: Vec<Change>,
}

/// Holds a capture against what is published.
pub fn delta(c: &Capture, published: &State, ignore: &[Glob], volatile: &[Glob]) -> (r: Delta)
    ensures
        r.desired@ == desired_model(
            c.s0@,
            c.s1@,
            globs::patterns(ignore@),
            globs::patterns(volatile@),
        ),
        state::change_models(r.changes@) == state::difference(
            published.rows(),
            r.desired.rows(),
        ),
        r.changes@.len() == 0 <==> published@ == r.desired@,
{
    let desired: State = desired_of(c, ignore, volatile);
    let changes: Vec<Change> = diff(published, &desired);
    proof {
        use_type_invariant(published);
        use_type_invariant(&desired);
        assert(changes@.len() == state::change_models(changes@).len());
        state_laws::no_difference_iff_same(published.rows(), desired.rows());
        if published@ == desired@ {
            table::lemma_rows_determined::<Key, ItemModel>(published.rows(), desired.rows());
        }
    }
    Delta { desired, changes }
}

// --- laws ---------------------------------------------------------------------

/// A trace names no path twice.
pub proof fn traces_name_paths_once(list: Seq<Seq<char>>, i: int, j: int)
    requires
        0 <= i < j < named_once(list).len(),
    ensures
        paths::path_model(named_once(list)[i]) != paths::path_model(named_once(list)[j]),
    decreases list.len(),
{
    let before = named_once(list.drop_last());
    if j < before.len() {
        traces_name_paths_once(list.drop_last(), i, j);
    } else if paths::path_model(before[i]) == paths::path_model(list.last()) {
        assert(names_path(before, list.last()));
    }
}

/// A trace loses no path.
pub proof fn traces_lose_no_path(list: Seq<Seq<char>>, i: int)
    requires
        0 <= i < list.len(),
    ensures
        names_path(named_once(list), list[i]),
    decreases list.len(),
{
    let before = named_once(list.drop_last());
    let all = named_once(list);
    if i < list.len() - 1 {
        traces_lose_no_path(list.drop_last(), i);
        assert(list.drop_last()[i] == list[i]);
        let j = choose|j: int|
            0 <= j < before.len() && paths::path_model(#[trigger] before[j]) == paths::path_model(
                list[i],
            );
        assert(all[j] == before[j]);
    } else if !names_path(before, list.last()) {
        assert(all[all.len() - 1] == list[i]);
    }
}

/// No name that an ignore glob matches is ever part of a desired state, so none
/// reaches the log.
pub proof fn ignored_names_never_arrive(
    s0: StateModel,
    s1: StateModel,
    ignore: Seq<Seq<char>>,
    volatile: Seq<Seq<char>>,
    k: state::KeyModel,
)
    requires
        globs::any_matches(ignore, k.1),
    ensures
        !desired_model(s0, s1, ignore, volatile).contains_key(k),
{
}

/// What a capture is to bring into every shell: each key that the bootstrap
/// added or changed, unless its name is ignored, with the attributes that it
/// has now. The values are those that it has now, too; of an ordered list, all
/// but the entries that belong to one session.
pub proof fn captures_bring_what_the_bootstrap_did(
    s0: StateModel,
    s1: StateModel,
    ignore: Seq<Seq<char>>,
    volatile: Seq<Seq<char>>,
    k: state::KeyModel,
)
    ensures
        ({
            let d = desired_model(s0, s1, ignore, volatile);
            let list = k.0 is Array && shell_laws::has_word(s1[k].attrs, "tied"@);
            &&& d.contains_key(k) <==> s1.contains_key(k) && !(s0.contains_key(k) && s0[k] == s1[k])
                && !globs::any_matches(ignore, k.1)
            &&& d.contains_key(k) ==> d[k].attrs == s1[k].attrs
            &&& d.contains_key(k) && !list ==> d[k].vals == s1[k].vals
            &&& d.contains_key(k) && list ==> forall|e: Seq<char>| #[trigger]
                d[k].vals.contains(e) <==> s1[k].vals.contains(e) && !globs::any_matches(
                    volatile,
                    lists::norm_of(e),
                )
            &&& d.contains_key(k) && list && (forall|i: int|
                0 <= i < s1[k].vals.len() ==> !globs::any_matches(
                    volatile,
                    lists::norm_of(#[trigger] s1[k].vals[i]),
                )) ==> d[k].vals == s1[k].vals
        }),
{
    let d = desired_model(s0, s1, ignore, volatile);
    if s1.contains_key(k) {
        shell_laws::lemma_has_part(s1[k].attrs, "tied"@);
        let vals = s1[k].vals;
        let keep = |e: Seq<char>| !globs::any_matches(volatile, lists::norm_of(e));
        let gone = |n: Seq<char>| globs::any_matches(volatile, n);
        let keep2 = |e: Seq<char>| !gone(lists::norm_of(e));
        text::lemma_filter_agrees(vals, keep, keep2);
        assert forall|e: Seq<char>| #[trigger] vals.filter(keep).contains(e) <==> vals.contains(e)
            && keep(e) by {
            if vals.filter(keep).contains(e) {
                let i = choose|i: int| 0 <= i < vals.filter(keep).len() && vals.filter(keep)[i] == e;
                let j = text::lemma_filter_source(vals, keep, i);
            }
            if vals.contains(e) && keep(e) {
                let j = choose|j: int| 0 <= j < vals.len() && vals[j] == e;
                vals.lemma_filter_contains(keep, j);
            }
        }
        if forall|i: int|
            0 <= i < vals.len() ==> !globs::any_matches(
                volatile,
                lists::norm_of(#[trigger] vals[i]),
            ) {
            text::lemma_filter_agrees(vals, keep, |e: Seq<char>| true);
            text::lemma_filter_all(vals);
        }
    }
}

/// A trace keeps the paths in load order, each as it was spelled the first
/// time.
pub proof fn traces_keep_the_first_spelling(list: Seq<Seq<char>>, i: int)
    requires
        0 <= i < list.len(),
    ensures
        !names_path(list.take(i), list[i]) ==> named_once(list).contains(list[i]),
        named_once(list.take(i)).is_prefix_of(named_once(list)),
    decreases list.len(),
{
    let front = list.drop_last();
    let before = named_once(front);
    let all = named_once(list);
    if i < front.len() {
        traces_keep_the_first_spelling(front, i);
        assert(front.take(i) =~= list.take(i));
        if before.contains(list[i]) {
            let j = choose|j: int| 0 <= j < before.len() && before[j] == list[i];
            assert(all[j] == list[i]);
        }
        assert(named_once(list.take(i)).is_prefix_of(all));
    } else {
        assert(list.take(i) =~= front);
        if !names_path(front, list[i]) {
            if names_path(before, list[i]) {
                let j = choose|j: int|
                    0 <= j < before.len() && paths::path_model(#[trigger] before[j])
                        == paths::path_model(list[i]);
                let m = lemma_named_from(front, j);
                assert(names_path(front, list[i]));
            }
            assert(all[before.len() as int] == list[i]);
        }
    }
}

proof fn lemma_named_from(list: Seq<Seq<char>>, j: int) -> (i: int)
    requires
        0 <= j < named_once(list).len(),
    ensures
        0 <= i < list.len(),
        list[i] == named_once(list)[j],
    decreases list.len(),
{
    let before = named_once(list.drop_last());
    if j < before.len() {
        lemma_named_from(list.drop_last(), j)
    } else {
        list.len() - 1
    }
}

/// A capture's state is what its file says, and it is missing exactly if the
/// file could not be read or is no stream of records.
pub proof fn states_are_missing_for_a_reason(file: Result<Vec<u8>, String>, status: Seq<char>)
    ensures
        file is Err ==> state_file(file, status) is Err,
        file is Ok ==> (state_file(file, status) is Ok <==> wire::wire_state(
            wire::fields_of(file->Ok_0@),
        ) is Ok),
        state_file(file, status) is Ok ==> wire::wire_state(wire::fields_of(file->Ok_0@)) == Ok::<
            StateModel,
            wire::WireFault,
        >(state_file(file, status)->Ok_0),
{
}

/// Every line of a trace is named by it, and it names nothing else; a trace
/// that could not be read names nothing.
pub proof fn traces_are_read_line_by_line(trace: Seq<char>, i: int)
    ensures
        trace_model(None).len() == 0,
        0 <= i < text::lines_of(trace).len() ==> names_path(
            trace_model(Some(trace)),
            text::lines_of(trace)[i],
        ),
        0 <= i < trace_model(Some(trace)).len() ==> text::lines_of(trace).contains(
            trace_model(Some(trace))[i],
        ),
{
    let lines = text::lines_of(trace);
    if 0 <= i < lines.len() {
        traces_lose_no_path(lines, i);
    }
    if 0 <= i < named_once(lines).len() {
        lemma_named_is_listed(lines, i);
    }
}

proof fn lemma_named_is_listed(list: Seq<Seq<char>>, i: int)
    requires
        0 <= i < named_once(list).len(),
    ensures
        list.contains(named_once(list)[i]),
    decreases list.len(),
{
    let front = list.drop_last();
    let before = named_once(front);
    if i < before.len() {
        lemma_named_is_listed(front, i);
        let k = choose|k: int| 0 <= k < front.len() && front[k] == before[i];
        assert(list[k] == named_once(list)[i]);
    } else {
        assert(list[list.len() - 1] == named_once(list)[i]);
    }
}

} // verus!
