//! The code that a shell evaluates to catch up.
//!
//! Every assignment is guarded by the value last published for its key, so a
//! key that was edited locally is skipped rather than overwritten. The guard
//! means that the shell never has to hand over its whole state, only the
//! ordered-list parameters, which are merged entry by entry.

use crate::globs::{self, Glob};
use crate::merge::{self, merge, Merged};
use crate::state::{
    self, is_list, Change, ChangeModel, Item, ItemModel, Key, Kind, State, StateModel,
};
use crate::text::{self, chars_of, contains, copy_texts, decimal_of, join, starts_with};
use vstd::prelude::*;
use vstd::string::*;

verus! {

// --- quoting ------------------------------------------------------------------

/// A character as it stands between single quotes.
pub open spec fn quoted_char(c: char) -> Seq<char> {
    if c == '\'' {
        "'\\''"@
    } else {
        seq![c]
    }
}

/// `s` in single quotes, for the shell.
pub open spec fn quoted(s: Seq<char>) -> Seq<char> {
    "'"@ + text::spelled(s, |c: char| quoted_char(c)) + "'"@
}

/// Quotes `s` for the shell.
pub fn zq(s: &str) -> (r: String)
    ensures
        r@ == quoted(s@),
{
    let v: Vec<char> = chars_of(s);
    let ghost spell = |c: char| quoted_char(c);
    let mut out = "'".to_owned();
    assert(v@.take(0) =~= Seq::<char>::empty());
    assert("'"@ + text::spelled(v@.take(0), spell) =~= out@);
    for i in 0..v.len()
        invariant
            spell == (|c: char| quoted_char(c)),
            out@ == "'"@ + text::spelled(v@.take(i as int), spell),
    {
        assert(v@.take(i + 1).drop_last() =~= v@.take(i as int));
        let ghost before = text::spelled(v@.take(i as int), spell);
        if v[i] == '\'' {
            out.append("'\\''");
        } else {
            out.push(v[i]);
            assert(("'"@ + before).push(v@[i as int]) =~= "'"@ + before + seq![v@[i as int]]);
        }
        assert("'"@ + before + quoted_char(v@[i as int]) =~= "'"@ + (before + quoted_char(
            v@[i as int],
        )));
    }
    assert(v@.take(v@.len() as int) =~= s@);
    out.append("'");
    out
}

/// Each of `v` quoted, with a blank between neighbours.
pub open spec fn quoted_list(v: Seq<Seq<char>>) -> Seq<char> {
    text::joined(v.map_values(|s: Seq<char>| quoted(s)), " "@)
}

fn quote_list(v: &[String]) -> (r: String)
    ensures
        r@ == quoted_list(text::texts(v@)),
{
    let mut out: Vec<String> = Vec::new();
    for i in 0..v.len()
        invariant
            out@.len() == i,
            forall|j: int| 0 <= j < i ==> (#[trigger] out@[j])@ == quoted(v@[j]@),
    {
        out.push(zq(v[i].as_str()));
    }
    assert(text::texts(out@) =~= text::texts(v@).map_values(|s: Seq<char>| quoted(s)));
    join(out.as_slice(), " ")
}

// --- names and flags ----------------------------------------------------------

/// A letter, a digit or an underscore.
pub open spec fn is_name_char(c: char) -> bool {
    'a' <= c <= 'z' || 'A' <= c <= 'Z' || '0' <= c <= '9' || c == '_'
}

/// What can stand on the left of an assignment.
pub open spec fn is_valid_name(n: Seq<char>) -> bool {
    &&& n.len() > 0
    &&& !text::is_digit(n[0])
    &&& forall|i: int| 0 <= i < n.len() ==> is_name_char(#[trigger] n[i])
}

/// Can `n` stand on the left of an assignment?
pub fn valid_name(n: &str) -> (r: bool)
    ensures
        r == is_valid_name(n@),
{
    let v: Vec<char> = chars_of(n);
    if v.len() == 0 || ('0' <= v[0] && v[0] <= '9') {
        return false;
    }
    for i in 0..v.len()
        invariant
            v@ == n@,
            forall|j: int| 0 <= j < i ==> is_name_char(#[trigger] v@[j]),
    {
        let c: char = v[i];
        if !(('a' <= c && c <= 'z') || ('A' <= c && c <= 'Z') || ('0' <= c && c <= '9') || c == '_') {
            assert(!is_name_char(n@[i as int]));
            return false;
        }
    }
    true
}

/// `flag` if the attributes have `attr`.
pub open spec fn flag_for(attrs: Seq<char>, attr: Seq<char>, flag: char) -> Seq<char> {
    if text::has_part(attrs, attr) {
        seq![flag]
    } else {
        Seq::empty()
    }
}

/// The flags with which a parameter is declared: always global, then its
/// shape, then its attributes.
pub open spec fn flags_model(kind: Kind, attrs: Seq<char>) -> Seq<char> {
    "-g"@ + (match kind {
        Kind::Array => seq!['a'],
        Kind::Assoc => seq!['A'],
        _ => Seq::empty(),
    }) + flag_for(attrs, "export"@, 'x') + flag_for(attrs, "unique"@, 'U') + flag_for(
        attrs,
        "integer"@,
        'i',
    ) + flag_for(attrs, "float"@, 'F')
}

fn push_flag(f: &mut String, attrs: &str, attr: &str, flag: char)
    ensures
        final(f)@ == old(f)@ + flag_for(attrs@, attr@, flag),
{
    let ghost was = f@;
    if contains(attrs, attr) {
        f.push(flag);
        assert(f@ =~= was + seq![flag]);
    } else {
        assert(f@ =~= was + Seq::<char>::empty());
    }
}

/// The flags with which a parameter is declared.
pub fn flags(kind: Kind, attrs: &str) -> (r: String)
    ensures
        r@ == flags_model(kind, attrs@),
{
    let mut f = "-g".to_owned();
    match kind {
        Kind::Array => {
            f.push('a');
            assert(f@ =~= "-g"@ + seq!['a']);
        },
        Kind::Assoc => {
            f.push('A');
            assert(f@ =~= "-g"@ + seq!['A']);
        },
        _ => {
            assert(f@ =~= "-g"@ + Seq::<char>::empty());
        },
    }
    push_flag(&mut f, attrs, "export", 'x');
    push_flag(&mut f, attrs, "unique", 'U');
    push_flag(&mut f, attrs, "integer", 'i');
    push_flag(&mut f, attrs, "float", 'F');
    f
}

// --- statements ---------------------------------------------------------------

/// The first of `vals`, or nothing.
pub open spec fn first_of(vals: Seq<Seq<char>>) -> Seq<char> {
    if vals.len() > 0 {
        vals[0]
    } else {
        Seq::empty()
    }
}

/// `name=value` in quotes.
pub open spec fn quoted_binding(name: Seq<char>, value: Seq<char>) -> Seq<char> {
    quoted(name + "="@ + value)
}

/// `typeset` with the flags of a parameter, up to and with its name.
pub open spec fn declaration(c: ChangeModel) -> Seq<char> {
    "typeset "@ + flags_model(c.kind, c.attrs) + " "@ + c.name
}

/// The statement that gives a key its values. A parameter whose name is not
/// valid has none.
pub open spec fn set_stmt_model(c: ChangeModel, vals: Seq<Seq<char>>) -> Option<Seq<char>> {
    match c.kind {
        Kind::Autoload => Some("autoload -Uz -- "@ + quoted(c.name)),
        Kind::Func => Some(
            "function "@ + quoted(c.name) + " {\n"@ + first_of(vals) + "\n}"@,
        ),
        Kind::Alias => Some("alias -- "@ + quoted_binding(c.name, first_of(vals))),
        Kind::Galias => Some("alias -g -- "@ + quoted_binding(c.name, first_of(vals))),
        Kind::Salias => Some("alias -s -- "@ + quoted_binding(c.name, first_of(vals))),
        Kind::Compdef => Some(
            "(( $+functions[compdef] )) && compdef -- "@ + quoted(first_of(vals)) + " "@ + quoted(
                c.name,
            ),
        ),
        Kind::Scalar => if is_valid_name(c.name) {
            Some(declaration(c) + "="@ + quoted(first_of(vals)))
        } else {
            None
        },
        Kind::Array | Kind::Assoc => if is_valid_name(c.name) {
            Some(declaration(c) + "=( "@ + quoted_list(vals) + " )"@)
        } else {
            None
        },
    }
}

/// The statement that takes a key out.
pub open spec fn unset_stmt_model(c: ChangeModel) -> Option<Seq<char>> {
    match c.kind {
        Kind::Func | Kind::Autoload => Some("unfunction -- "@ + quoted(c.name)),
        Kind::Alias | Kind::Galias => Some("unalias -- "@ + quoted(c.name)),
        Kind::Salias => Some("unalias -s -- "@ + quoted(c.name)),
        Kind::Compdef => Some(
            "(( $+functions[compdef] )) && compdef -d -- "@ + quoted(c.name),
        ),
        Kind::Scalar | Kind::Array | Kind::Assoc => if is_valid_name(c.name) {
            Some("unset "@ + c.name)
        } else {
            None
        },
    }
}

fn first_or_empty(vals: &[String]) -> (r: String)
    ensures
        r@ == first_of(text::texts(vals@)),
{
    if vals.len() > 0 {
        vals[0].clone()
    } else {
        String::new()
    }
}

/// `head` followed by the quoted `name=value`.
fn bind(head: &str, name: &str, value: &str) -> (r: String)
    ensures
        r@ == head@ + quoted_binding(name@, value@),
{
    let mut pair = name.to_owned();
    pair.append("=");
    pair.append(value);
    let mut out = head.to_owned();
    out.append(zq(pair.as_str()).as_str());
    out
}

/// `head` followed by the quoted `name`.
fn name_it(head: &str, name: &str) -> (r: String)
    ensures
        r@ == head@ + quoted(name@),
{
    let mut out = head.to_owned();
    out.append(zq(name).as_str());
    out
}

fn declare(c: &Change) -> (r: String)
    ensures
        r@ == declaration(c@),
{
    let mut out = "typeset ".to_owned();
    out.append(flags(c.kind, c.attrs.as_str()).as_str());
    out.append(" ");
    out.append(c.name.as_str());
    out
}

/// The statement that gives a key its values. Aliases and functions go through
/// the builtins: a subscript in an assignment is taken literally, so the name
/// would get the quotes as well.
pub fn set_stmt(c: &Change, vals: &[String]) -> (r: Option<String>)
    ensures
        match r {
            Some(s) => set_stmt_model(c@, text::texts(vals@)) == Some(s@),
            None => set_stmt_model(c@, text::texts(vals@)) is None,
        },
{
    let name: &str = c.name.as_str();
    match c.kind {
        // Recorded by presence, so there is no body; `fpath` comes earlier.
        Kind::Autoload => Some(name_it("autoload -Uz -- ", name)),
        Kind::Func => {
            let mut out = name_it("function ", name);
            out.append(" {\n");
            out.append(first_or_empty(vals).as_str());
            out.append("\n}");
            Some(out)
        },
        Kind::Alias => Some(bind("alias -- ", name, first_or_empty(vals).as_str())),
        Kind::Galias => Some(bind("alias -g -- ", name, first_or_empty(vals).as_str())),
        Kind::Salias => Some(bind("alias -s -- ", name, first_or_empty(vals).as_str())),
        // A shell without the completion system has nothing to bind and must
        // skip this quietly.
        Kind::Compdef => {
            let mut out = name_it(
                "(( $+functions[compdef] )) && compdef -- ",
                first_or_empty(vals).as_str(),
            );
            out.append(" ");
            out.append(zq(name).as_str());
            Some(out)
        },
        Kind::Scalar => {
            if !valid_name(name) {
                return None;
            }
            let mut out = declare(c);
            out.append("=");
            out.append(zq(first_or_empty(vals).as_str()).as_str());
            Some(out)
        },
        Kind::Array | Kind::Assoc => {
            if !valid_name(name) {
                return None;
            }
            let mut out = declare(c);
            out.append("=( ");
            out.append(quote_list(vals).as_str());
            out.append(" )");
            Some(out)
        },
    }
}

/// The statement that takes a key out.
pub fn unset_stmt(c: &Change) -> (r: Option<String>)
    ensures
        match r {
            Some(s) => unset_stmt_model(c@) == Some(s@),
            None => unset_stmt_model(c@) is None,
        },
{
    let name: &str = c.name.as_str();
    match c.kind {
        Kind::Func | Kind::Autoload => Some(name_it("unfunction -- ", name)),
        // There is no `unalias -g`; plain `unalias` removes a global alias.
        Kind::Alias | Kind::Galias => Some(name_it("unalias -- ", name)),
        Kind::Salias => Some(name_it("unalias -s -- ", name)),
        Kind::Compdef => Some(name_it("(( $+functions[compdef] )) && compdef -d -- ", name)),
        Kind::Scalar | Kind::Array | Kind::Assoc => {
            if valid_name(name) {
                let mut out = "unset ".to_owned();
                out.append(name);
                Some(out)
            } else {
                None
            }
        },
    }
}

// --- guards -------------------------------------------------------------------

/// A blank and the quoted string, for each of `vals`.
pub open spec fn arguments(vals: Seq<Seq<char>>) -> Seq<char>
    decreases vals.len(),
{
    if vals.len() == 0 {
        Seq::empty()
    } else {
        arguments(vals.drop_last()) + " "@ + quoted(vals.last())
    }
}

/// The test that a key holds just these values.
pub open spec fn holds_test(c: ChangeModel, vals: Seq<Seq<char>>) -> Seq<char> {
    "_sharezed_eq "@ + state::kind_word(c.kind) + " "@ + quoted(c.name) + arguments(vals)
}

/// The test that a key is not there.
pub open spec fn absent_test(c: ChangeModel) -> Seq<char> {
    "_sharezed_absent "@ + state::kind_word(c.kind) + " "@ + quoted(c.name)
}

/// The branch that leaves a local edit alone and records it.
pub open spec fn conflict_branch(c: ChangeModel) -> Seq<char> {
    "\nelse\n  _sharezed_conflict "@ + quoted(c.name) + "\nfi\n"@
}

/// A statement under its guard: it runs if the key is still what was last
/// published for it, or already what it is to become, and a conflict is
/// recorded otherwise. For a tombstone, a key that is gone already is fine.
pub open spec fn guarded_model(c: ChangeModel, stmt: Seq<char>) -> Seq<char> {
    match (c.old, c.new) {
        (Some(old), None) => "if "@ + holds_test(c, old) + "; then\n  "@ + stmt + "\nelif "@
            + absent_test(c) + "; then\n  :"@ + conflict_branch(c),
        (None, Some(new)) => "if "@ + absent_test(c) + " || "@ + holds_test(c, new) + "; then\n  "@
            + stmt + conflict_branch(c),
        (Some(old), Some(new)) => "if "@ + holds_test(c, old) + " || "@ + holds_test(c, new)
            + "; then\n  "@ + stmt + conflict_branch(c),
        (None, None) => Seq::empty(),
    }
}

fn holds_code(c: &Change, vals: &[String]) -> (r: String)
    ensures
        r@ == holds_test(c@, text::texts(vals@)),
{
    let mut out = "_sharezed_eq ".to_owned();
    out.append(c.kind.as_str());
    out.append(" ");
    out.append(zq(c.name.as_str()).as_str());
    let ghost head = out@;
    let ghost all = text::texts(vals@);
    assert(all.take(0) =~= Seq::<Seq<char>>::empty());
    assert(head + arguments(all.take(0)) =~= head);
    for i in 0..vals.len()
        invariant
            all == text::texts(vals@),
            out@ == head + arguments(all.take(i as int)),
    {
        assert(all.take(i + 1).drop_last() =~= all.take(i as int));
        let ghost before = arguments(all.take(i as int));
        out.append(" ");
        out.append(zq(vals[i].as_str()).as_str());
        assert(head + before + " "@ + quoted(all[i as int]) =~= head + (before + " "@ + quoted(
            all[i as int],
        )));
    }
    assert(all.take(vals@.len() as int) =~= all);
    out
}

fn absent_code(c: &Change) -> (r: String)
    ensures
        r@ == absent_test(c@),
{
    let mut out = "_sharezed_absent ".to_owned();
    out.append(c.kind.as_str());
    out.append(" ");
    out.append(zq(c.name.as_str()).as_str());
    out
}

fn conflict_code(c: &Change) -> (r: String)
    ensures
        r@ == conflict_branch(c@),
{
    let mut out = name_it("\nelse\n  _sharezed_conflict ", c.name.as_str());
    out.append("\nfi\n");
    out
}

/// Puts a statement under its guard.
pub fn guarded(c: &Change, stmt: &str) -> (r: String)
    ensures
        r@ == guarded_model(c@, stmt@),
{
    match (&c.old, &c.new) {
        (Some(old), None) => {
            let mut out = "if ".to_owned();
            out.append(holds_code(c, old.as_slice()).as_str());
            out.append("; then\n  ");
            out.append(stmt);
            out.append("\nelif ");
            out.append(absent_code(c).as_str());
            out.append("; then\n  :");
            out.append(conflict_code(c).as_str());
            out
        },
        (None, Some(new)) => {
            let mut out = "if ".to_owned();
            out.append(absent_code(c).as_str());
            out.append(" || ");
            out.append(holds_code(c, new.as_slice()).as_str());
            out.append("; then\n  ");
            out.append(stmt);
            out.append(conflict_code(c).as_str());
            out
        },
        // To hold the new value already is no conflict: a shell that started
        // after the publish would report one for every key.
        (Some(old), Some(new)) => {
            let mut out = "if ".to_owned();
            out.append(holds_code(c, old.as_slice()).as_str());
            out.append(" || ");
            out.append(holds_code(c, new.as_slice()).as_str());
            out.append("; then\n  ");
            out.append(stmt);
            out.append(conflict_code(c).as_str());
            out
        },
        (None, None) => String::new(),
    }
}

// --- order --------------------------------------------------------------------

/// One of the functions that apply a payload.
pub open spec fn is_own(c: ChangeModel) -> bool {
    text::begins_with(c.name, "_sharezed_"@)
}

/// When a change is applied within its entry: ordered-list parameters first,
/// because `fpath` must land before an autoload stub; then the other
/// parameters; then functions; then aliases and completion bindings, which
/// follow the function they name. The apply machinery itself comes last, so
/// that all guards run on one version of it.
pub open spec fn rank_of(c: ChangeModel) -> int {
    if is_own(c) {
        4
    } else if state::is_list_model(c.kind, c.attrs) {
        0
    } else {
        match c.kind {
            Kind::Scalar | Kind::Array | Kind::Assoc => 1,
            Kind::Func | Kind::Autoload => 2,
            _ => 3,
        }
    }
}

/// The changes of one rank, as they come.
pub open spec fn at_rank(changes: Seq<ChangeModel>, rank: int) -> Seq<ChangeModel> {
    changes.filter(|c: ChangeModel| rank_of(c) == rank)
}

/// The changes below a rank, by rank.
pub open spec fn below_rank(changes: Seq<ChangeModel>, rank: int) -> Seq<ChangeModel>
    decreases rank,
{
    if rank <= 0 {
        Seq::empty()
    } else {
        below_rank(changes, rank - 1) + at_rank(changes, rank - 1)
    }
}

/// The changes of an entry in the order in which they are applied.
pub open spec fn ordered(changes: Seq<ChangeModel>) -> Seq<ChangeModel> {
    below_rank(changes, 5)
}

/// When a change is applied within its entry.
pub fn order(c: &Change) -> (r: u8)
    ensures
        r == rank_of(c@),
{
    if starts_with(c.name.as_str(), "_sharezed_") {
        return 4;
    }
    if is_list(c.kind, c.attrs.as_str()) {
        return 0;
    }
    match c.kind {
        Kind::Scalar | Kind::Array | Kind::Assoc => 1,
        Kind::Func | Kind::Autoload => 2,
        _ => 3,
    }
}

/// The changes that the places in `idx` pick out.
spec fn picked(changes: Seq<Change>, idx: Seq<usize>) -> Seq<ChangeModel> {
    idx.map_values(|i: usize| changes[i as int]@)
}

/// The places of the changes in the order in which they are applied.
fn sort_changes(changes: &[Change]) -> (r: Vec<usize>)
    ensures
        picked(changes@, r@) == ordered(state::change_models(changes@)),
        forall|k: int| 0 <= k < r@.len() ==> #[trigger] r@[k] < changes@.len(),
{
    let ghost all = state::change_models(changes@);
    let mut idx: Vec<usize> = Vec::new();
    assert(picked(changes@, idx@) =~= below_rank(all, 0));
    for rank in 0u8..5u8
        invariant
            all == state::change_models(changes@),
            picked(changes@, idx@) == below_rank(all, rank as int),
            forall|k: int| 0 <= k < idx@.len() ==> #[trigger] idx@[k] < changes@.len(),
    {
        let ghost below = below_rank(all, rank as int);
        let ghost pick = |c: ChangeModel| rank_of(c) == rank as int;
        proof {
            reveal(Seq::filter);
            assert(below =~= below + all.take(0).filter(pick));
        }
        for i in 0..changes.len()
            invariant
                all == state::change_models(changes@),
                pick == (|c: ChangeModel| rank_of(c) == rank as int),
                picked(changes@, idx@) == below + all.take(i as int).filter(pick),
                forall|k: int| 0 <= k < idx@.len() ==> #[trigger] idx@[k] < changes@.len(),
        {
            proof {
                reveal(Seq::filter);
                assert(all.take(i + 1).drop_last() =~= all.take(i as int));
                assert(all[i as int] == changes@[i as int]@);
            }
            if order(&changes[i]) == rank {
                let ghost before = idx@;
                idx.push(i);
                assert(picked(changes@, idx@) =~= picked(changes@, before).push(all[i as int]));
                assert((below + all.take(i as int).filter(pick)).push(all[i as int]) =~= below
                    + all.take(i as int).filter(pick).push(all[i as int]));
            }
        }
        assert(all.take(changes@.len() as int) =~= all);
    }
    idx
}

// --- generation ---------------------------------------------------------------

/// Code for the shell, and what the shell's ordered lists hold after it.
#[verifier::ext_equal]
pub struct Payload {
    pub code: Seq<char>,
    pub ours: StateModel,
}

/// The name under which the list that was live at installation is kept.
pub open spec fn base_key(c: ChangeModel) -> (Kind, Seq<char>) {
    (c.kind, "@base:"@ + c.name)
}

/// The merge base of an ordered list: what was last published for it, or else
/// what was live when the hook was installed, or else nothing.
pub open spec fn base_of(c: ChangeModel, ours: StateModel) -> Seq<Seq<char>> {
    match c.old {
        Some(old) => old,
        None => if ours.contains_key(base_key(c)) {
            ours[base_key(c)].vals
        } else {
            Seq::empty()
        },
    }
}

/// A comment line for each note.
pub open spec fn note_lines(name: Seq<char>, notes: Seq<Seq<char>>) -> Seq<char>
    decreases notes.len(),
{
    if notes.len() == 0 {
        Seq::empty()
    } else {
        note_lines(name, notes.drop_last()) + "# "@ + name + ": "@ + notes.last() + "\n"@
    }
}

/// What merging an incoming list into the live one gives.
pub open spec fn list_merge(
    c: ChangeModel,
    theirs: Seq<Seq<char>>,
    ours: StateModel,
    patterns: Seq<Seq<char>>,
) -> merge::MergedModel {
    if ours.contains_key(c.key()) {
        let live = ours[c.key()].vals;
        merge::merged(
            base_of(c, ours),
            live,
            theirs,
            merge::families_among(patterns, live, theirs),
        )
    } else {
        merge::MergedModel { list: theirs, notes: Seq::empty() }
    }
}

/// The code for an ordered list: the account of the merge, then the merged
/// list, which is what the shell holds from then on.
pub open spec fn list_payload(
    c: ChangeModel,
    theirs: Seq<Seq<char>>,
    ours: StateModel,
    patterns: Seq<Seq<char>>,
) -> Payload {
    let m = list_merge(c, theirs, ours, patterns);
    Payload {
        code: note_lines(c.name, m.notes) + declaration(c) + "=( "@ + quoted_list(m.list)
            + " )\n"@,
        ours: ours.insert(c.key(), ItemModel { attrs: c.attrs, vals: m.list }),
    }
}

/// The statement for a change that is not the merge of a list.
pub open spec fn stmt_model(c: ChangeModel) -> Option<Seq<char>> {
    match c.new {
        Some(vals) => set_stmt_model(c, vals),
        None => unset_stmt_model(c),
    }
}

/// The code for a change that is not the merge of a list: the guarded
/// statement, or the bare one for the apply machinery itself, which nobody
/// edits by hand.
pub open spec fn plain_code(c: ChangeModel) -> Seq<char> {
    match stmt_model(c) {
        None => Seq::empty(),
        Some(stmt) => if is_own(c) {
            stmt + "\n"@
        } else {
            guarded_model(c, stmt)
        },
    }
}

/// The code for one change.
pub open spec fn change_payload(
    c: ChangeModel,
    ours: StateModel,
    patterns: Seq<Seq<char>>,
) -> Payload {
    if c.new is Some && state::is_list_model(c.kind, c.attrs) {
        list_payload(c, c.new->0, ours, patterns)
    } else {
        Payload { code: plain_code(c), ours }
    }
}

/// The code for changes, one after the other.
pub open spec fn changes_payload(
    changes: Seq<ChangeModel>,
    ours: StateModel,
    patterns: Seq<Seq<char>>,
) -> Payload
    decreases changes.len(),
{
    if changes.len() == 0 {
        Payload { code: Seq::empty(), ours }
    } else {
        let before = changes_payload(changes.drop_last(), ours, patterns);
        let last = change_payload(changes.last(), before.ours, patterns);
        Payload { code: before.code + last.code, ours: last.ours }
    }
}

/// The code for one log entry; it ends with the new cursor.
pub open spec fn entry_payload(
    seq: u64,
    changes: Seq<ChangeModel>,
    ours: StateModel,
    patterns: Seq<Seq<char>>,
) -> Payload {
    let body = changes_payload(ordered(changes), ours, patterns);
    Payload {
        code: "# entry "@ + text::decimal(seq as nat) + "\n"@ + body.code + "SHAREZED_CURSOR="@
            + text::decimal(seq as nat) + "\n"@,
        ours: body.ours,
    }
}

/// The code for log entries, one after the other: each is merged against what
/// the ones before it have left.
pub open spec fn entries_payload(
    entries: Seq<(u64, Seq<ChangeModel>)>,
    ours: StateModel,
    patterns: Seq<Seq<char>>,
) -> Payload
    decreases entries.len(),
{
    if entries.len() == 0 {
        Payload { code: Seq::empty(), ours }
    } else {
        let before = entries_payload(entries.drop_last(), ours, patterns);
        let last = entry_payload(entries.last().0, entries.last().1, before.ours, patterns);
        Payload { code: before.code + last.code, ours: last.ours }
    }
}

/// What a list of log entries holds.
pub open spec fn entry_models(v: Seq<(u64, Vec<Change>)>) -> Seq<(u64, Seq<ChangeModel>)> {
    v.map_values(|e: (u64, Vec<Change>)| (e.0, state::change_models(e.1@)))
}

/// Adds a comment line for each note to `code`.
fn add_notes(code: &mut String, name: &str, notes: &[String])
    ensures
        final(code)@ == old(code)@ + note_lines(name@, text::texts(notes@)),
{
    let ghost was = code@;
    let ghost all = text::texts(notes@);
    assert(all.take(0) =~= Seq::<Seq<char>>::empty());
    assert(was =~= was + note_lines(name@, all.take(0)));
    for i in 0..notes.len()
        invariant
            all == text::texts(notes@),
            code@ == was + note_lines(name@, all.take(i as int)),
    {
        assert(all.take(i + 1).drop_last() =~= all.take(i as int));
        let ghost before = note_lines(name@, all.take(i as int));
        code.append("# ");
        code.append(name);
        code.append(": ");
        code.append(notes[i].as_str());
        code.append("\n");
        assert(code@ =~= was + (before + "# "@ + name@ + ": "@ + all[i as int] + "\n"@));
    }
    assert(all.take(notes@.len() as int) =~= all);
}

/// The merge base of an ordered list.
fn base_list(c: &Change, ours: &State) -> (r: Vec<String>)
    ensures
        text::texts(r@) == base_of(c@, ours@),
{
    match &c.old {
        Some(old) => copy_texts(old.as_slice()),
        None => {
            let mut name = "@base:".to_owned();
            name.append(c.name.as_str());
            let key: Key = (c.kind, name);
            assert(key@ == base_key(c@));
            match ours.get(&key) {
                Some(item) => copy_texts(item.vals.as_slice()),
                None => {
                    let none: Vec<String> = Vec::new();
                    assert(text::texts(none@) =~= Seq::<Seq<char>>::empty());
                    none
                },
            }
        },
    }
}

/// Adds the code for one change to `code`.
fn add_change(code: &mut String, c: &Change, ours: &mut State, families: &[Glob])
    ensures
        final(code)@ == old(code)@ + change_payload(
            c@,
            old(ours)@,
            globs::patterns(families@),
        ).code,
        final(ours)@ == change_payload(c@, old(ours)@, globs::patterns(families@)).ours,
{
    let ghost was = code@;
    let ghost live = ours@;
    let ghost pats = globs::patterns(families@);
    let list: bool = is_list(c.kind, c.attrs.as_str());
    match &c.new {
        Some(theirs) => {
            if list {
                let key: Key = c.key();
                let m: Merged = match ours.get(&key) {
                    Some(item) => {
                        let base: Vec<String> = base_list(c, ours);
                        merge(base.as_slice(), item.vals.as_slice(), theirs.as_slice(), families)
                    },
                    // Not there at all: nothing local to preserve.
                    None => {
                        let none: Vec<String> = Vec::new();
                        assert(text::texts(none@) =~= Seq::<Seq<char>>::empty());
                        Merged { list: copy_texts(theirs.as_slice()), notes: none }
                    },
                };
                assert(m@ =~= list_merge(c@, text::texts(theirs@), live, pats));
                add_notes(code, c.name.as_str(), m.notes.as_slice());
                code.append(declare(c).as_str());
                code.append("=( ");
                code.append(quote_list(m.list.as_slice()).as_str());
                code.append(" )\n");
                assert(code@ =~= was + list_payload(c@, text::texts(theirs@), live, pats).code);
                ours.insert(key, Item { attrs: c.attrs.clone(), vals: m.list });
                return;
            }
        },
        None => {},
    }
    let stmt: Option<String> = match &c.new {
        Some(vals) => set_stmt(c, vals.as_slice()),
        None => unset_stmt(c),
    };
    match stmt {
        Some(stmt) => {
            if starts_with(c.name.as_str(), "_sharezed_") {
                code.append(stmt.as_str());
                code.append("\n");
                assert(code@ =~= was + (stmt@ + "\n"@));
            } else {
                code.append(guarded(c, stmt.as_str()).as_str());
            }
        },
        None => {
            assert(code@ =~= was + Seq::<char>::empty());
        },
    }
}

/// The code that brings a shell up to date with `entries`. `ours` carries the
/// live values of the ordered-list parameters; it is brought along as entries
/// are applied, so that several generations at once are merged against the
/// right intermediate state.
pub fn generate(entries: &[(u64, Vec<Change>)], ours: &mut State, families: &[Glob]) -> (r: String)
    ensures
        r@ == entries_payload(
            entry_models(entries@),
            old(ours)@,
            globs::patterns(families@),
        ).code,
        final(ours)@ == entries_payload(
            entry_models(entries@),
            old(ours)@,
            globs::patterns(families@),
        ).ours,
{
    let ghost start = ours@;
    let ghost pats = globs::patterns(families@);
    let ghost all = entry_models(entries@);
    let mut code = String::new();
    assert(all.take(0) =~= Seq::<(u64, Seq<ChangeModel>)>::empty());
    for i in 0..entries.len()
        invariant
            pats == globs::patterns(families@),
            all == entry_models(entries@),
            code@ == entries_payload(all.take(i as int), start, pats).code,
            ours@ == entries_payload(all.take(i as int), start, pats).ours,
    {
        assert(all.take(i + 1).drop_last() =~= all.take(i as int));
        let seq: u64 = entries[i].0;
        let changes: &Vec<Change> = &entries[i].1;
        let ghost models = state::change_models(changes@);
        assert(all[i as int] == (seq, models));
        let ghost before = code@;
        let ghost live = ours@;
        let idx: Vec<usize> = sort_changes(changes.as_slice());
        let ghost sorted = ordered(models);
        code.append("# entry ");
        code.append(decimal_of(seq).as_str());
        code.append("\n");
        let ghost head = code@;
        assert(sorted.take(0) =~= Seq::<ChangeModel>::empty());
        assert(head =~= head + changes_payload(sorted.take(0), live, pats).code);
        for k in 0..idx.len()
            invariant
                pats == globs::patterns(families@),
                sorted == picked(changes@, idx@),
                forall|k: int| 0 <= k < idx@.len() ==> #[trigger] idx@[k] < changes@.len(),
                code@ == head + changes_payload(sorted.take(k as int), live, pats).code,
                ours@ == changes_payload(sorted.take(k as int), live, pats).ours,
        {
            assert(sorted.take(k + 1).drop_last() =~= sorted.take(k as int));
            let ghost so_far = changes_payload(sorted.take(k as int), live, pats);
            let at: usize = idx[k];
            assert(idx@[k as int] < changes@.len());
            let c: &Change = &changes[at];
            assert(sorted[k as int] == c@);
            add_change(&mut code, c, ours, families);
            assert(code@ =~= head + (so_far.code + change_payload(c@, so_far.ours, pats).code));
        }
        assert(sorted.take(idx@.len() as int) =~= sorted);
        code.append("SHAREZED_CURSOR=");
        code.append(decimal_of(seq).as_str());
        code.append("\n");
        assert(code@ =~= before + entry_payload(seq, models, live, pats).code);
    }
    assert(all.take(entries@.len() as int) =~= all);
    code
}

} // verus!
