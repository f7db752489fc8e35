//! What a doctor says. Every finding states what is, never what ought to be;
//! what to do about it is a detail below it. A note is for what is true and
//! stays so; only a warning makes it an error.

use crate::capture::{self, delta, desired_of, Capture, Delta};
use crate::globs::{self, Glob};
use crate::prints::{self, changed_sources, Prints};
use crate::report::{self, plural};
use crate::state::{self, Change, ChangeModel, ItemModel, Key, KeyModel, State};
use crate::table;
use crate::text::{self, contains, decimal_of, lines, pad_right};
use crate::text_laws;
use vstd::prelude::*;
use vstd::string::*;

verus! {

/// How grave a finding is.
#[derive(Clone, Copy, PartialEq, Eq, Structural)]
pub enum Level {
    Good,
    Note,
    Warn,
    /// More about the finding before it.
    Detail,
}

/// One line of the diagnosis.
pub struct Finding {
    pub level: Level,
    pub text: String,
}

/// The model of a [`Finding`].
pub struct FindingModel {
    pub level: Level,
    pub text: Seq<char>,
}

impl View for Finding {
    type V = FindingModel;

    open spec fn view(&self) -> FindingModel {
        FindingModel { level: self.level, text: self.text@ }
    }
}

/// What a list of findings holds.
pub open spec fn finding_models(v: Seq<Finding>) -> Seq<FindingModel> {
    v.map_values(|f: Finding| f@)
}

/// What is tracked: the prints as they were recorded and as they are, and how
/// many there are in all.
pub struct PrintPair {
    pub was: Prints,
    pub now: Prints,
    pub total: usize,
}

/// What the doctor looks at.
pub struct Facts {
    /// The startup file, as it is displayed, and what it holds.
    pub rc_path: String,
    pub rc: String,
    /// This shell has the hook.
    pub hooked: bool,
    pub cursor: u64,
    pub head: u64,
    /// How two captures, one right after the other, differ.
    pub flap: Vec<Change>,
    pub sources: PrintPair,
    pub commands: PrintPair,
    /// The entries of the search path that are to be looked at, each with
    /// whether it is a directory.
    pub path: Vec<(String, bool)>,
}

// --- findings -----------------------------------------------------------------

pub open spec fn finding(level: Level, text: Seq<char>) -> FindingModel {
    FindingModel { level, text }
}

/// Some line of the startup file asks for the hook.
pub open spec fn has_hook(rc: Seq<char>) -> bool {
    exists|i: int|
        0 <= i < text::lines_of(rc).len() && text::has_part(
            #[trigger] text::lines_of(rc)[i],
            "sharezed hook"@,
        )
}

pub open spec fn hook_finding(f: Facts) -> FindingModel {
    if has_hook(f.rc@) {
        finding(Level::Good, "hook installed in "@ + f.rc_path@)
    } else {
        finding(Level::Warn, "no `sharezed hook zsh` in "@ + f.rc_path@)
    }
}

pub open spec fn shell_finding(f: Facts) -> FindingModel {
    if !f.hooked {
        finding(Level::Note, "this shell has no hook, so it will not converge on its own"@)
    } else if f.cursor == f.head {
        finding(
            Level::Good,
            "this shell is up to date (gen "@ + text::decimal(f.head as nat) + ")"@,
        )
    } else {
        finding(
            Level::Warn,
            "this shell is at gen "@ + text::decimal(f.cursor as nat) + ", "@ + text::decimal(
                f.head as nat,
            ) + " is published"@,
        )
    }
}

/// A line for each key that differs between two captures.
pub open spec fn flap_details(flap: Seq<ChangeModel>) -> Seq<FindingModel> {
    flap.map_values(
        |c: ChangeModel| finding(Level::Detail, state::kind_word(c.kind) + " "@ + c.name),
    )
}

/// A bootstrap that goes by the clock, or by a file that it writes itself, is
/// no function of its text, and every turn of it would publish a generation.
pub open spec fn flap_findings(flap: Seq<ChangeModel>) -> Seq<FindingModel> {
    if flap.len() == 0 {
        seq![finding(Level::Good, "capture is reproducible"@)]
    } else {
        seq![
            finding(
                Level::Warn,
                "capture is not reproducible: "@ + report::counted(flap.len(), "key"@)
                    + " differ between two runs"@,
            ),
        ] + flap_details(flap)
    }
}

/// How the prints of one table have moved.
pub open spec fn moves(t: PrintPair) -> Seq<Seq<char>> {
    prints::moved_lines(t.was@, t.now.rows()) + prints::gone_lines(t.was.rows(), t.now@)
}

/// Nothing in a table has moved; `what` is one of what it tracks.
pub open spec fn unmoved_finding(what: Seq<char>, t: PrintPair, head: u64) -> FindingModel {
    finding(
        Level::Good,
        report::counted(t.total as nat, what) + " unchanged since gen "@ + text::decimal(
            head as nat,
        ),
    )
}

/// A line for each print of a table that has moved.
pub open spec fn move_details(t: PrintPair) -> Seq<FindingModel> {
    moves(t).map_values(|l: Seq<char>| finding(Level::Detail, l))
}

/// What is said of the sourced files.
pub open spec fn source_findings(t: PrintPair, head: u64) -> Seq<FindingModel> {
    if moves(t).len() == 0 {
        seq![unmoved_finding("sourced file"@, t, head)]
    } else {
        seq![
            finding(
                Level::Warn,
                report::counted(moves(t).len(), "sourced file"@) + " changed since gen "@
                    + text::decimal(head as nat) + " — run `sharezed reload`"@,
            ),
        ] + move_details(t)
    }
}

/// What is said of the commands. One that was upgraded is no file of the
/// user's own, so they are told what a reload is for.
pub open spec fn command_findings(t: PrintPair, head: u64) -> Seq<FindingModel> {
    if moves(t).len() == 0 {
        seq![unmoved_finding("command"@, t, head)]
    } else {
        seq![
            finding(
                Level::Warn,
                text::decimal(moves(t).len()) + " of "@ + text::decimal(t.total as nat)
                    + " traced command(s) changed since the last publish"@,
            ),
        ] + move_details(t) + seq![
            finding(Level::Detail, "run `sharezed reload` to pick up what they now produce"@),
        ]
    }
}

/// A warning for each non-empty entry among the first `n` of the search path
/// that is no directory.
pub open spec fn path_findings(path: Seq<(String, bool)>, n: int) -> Seq<FindingModel>
    decreases n,
{
    if n <= 0 {
        Seq::empty()
    } else if path[n - 1].0@.len() > 0 && !path[n - 1].1 {
        path_findings(path, n - 1).push(
            finding(Level::Warn, "PATH entry no longer exists: "@ + path[n - 1].0@),
        )
    } else {
        path_findings(path, n - 1)
    }
}

/// The whole diagnosis.
pub open spec fn diagnosis(f: Facts) -> Seq<FindingModel> {
    seq![hook_finding(f), shell_finding(f)] + flap_findings(state::change_models(f.flap@))
        + source_findings(f.sources, f.head) + command_findings(f.commands, f.head) + path_findings(f.path@, f.path@.len() as int)
}

// --- the code -----------------------------------------------------------------

fn is_hooked(rc: &str) -> (r: bool)
    ensures
        r == has_hook(rc@),
{
    let all: Vec<String> = lines(rc);
    let ghost every = text::lines_of(rc@);
    for i in 0..all.len()
        invariant
            every == text::texts(all@),
            every == text::lines_of(rc@),
            forall|j: int| 0 <= j < i ==> !text::has_part(#[trigger] every[j], "sharezed hook"@),
    {
        assert(every[i as int] == all@[i as int]@);
        if contains(all[i].as_str(), "sharezed hook") {
            return true;
        }
    }
    false
}

fn hook_line(f: &Facts) -> (r: Finding)
    ensures
        r@ == hook_finding(*f),
{
    if is_hooked(f.rc.as_str()) {
        let mut t = "hook installed in ".to_owned();
        t.append(f.rc_path.as_str());
        Finding { level: Level::Good, text: t }
    } else {
        let mut t = "no `sharezed hook zsh` in ".to_owned();
        t.append(f.rc_path.as_str());
        Finding { level: Level::Warn, text: t }
    }
}

fn shell_line(f: &Facts) -> (r: Finding)
    ensures
        r@ == shell_finding(*f),
{
    if !f.hooked {
        Finding {
            level: Level::Note,
            text: "this shell has no hook, so it will not converge on its own".to_owned(),
        }
    } else if f.cursor == f.head {
        let mut t = "this shell is up to date (gen ".to_owned();
        t.append(decimal_of(f.head).as_str());
        t.append(")");
        Finding { level: Level::Good, text: t }
    } else {
        let mut t = "this shell is at gen ".to_owned();
        t.append(decimal_of(f.cursor).as_str());
        t.append(", ");
        t.append(decimal_of(f.head).as_str());
        t.append(" is published");
        Finding { level: Level::Warn, text: t }
    }
}

/// Adds a finding.
fn add(out: &mut Vec<Finding>, f: Finding)
    ensures
        finding_models(final(out)@) == finding_models(old(out)@).push(f@),
{
    let ghost was = out@;
    out.push(f);
    assert(finding_models(out@) =~= finding_models(was).push(f@));
}

fn add_flap(out: &mut Vec<Finding>, flap: &Vec<Change>)
    ensures
        finding_models(final(out)@) == finding_models(old(out)@) + flap_findings(
            state::change_models(flap@),
        ),
{
    let ghost was = finding_models(out@);
    let ghost all = state::change_models(flap@);
    assert(all.len() == flap@.len());
    if flap.len() == 0 {
        let f = Finding { level: Level::Good, text: "capture is reproducible".to_owned() };
        let ghost m = f@;
        self::add(out, f);
        assert(was.push(m) =~= was + seq![m]);
        return;
    }
    let mut t = "capture is not reproducible: ".to_owned();
    t.append(plural(flap.len(), "key").as_str());
    t.append(" differ between two runs");
    let f = Finding { level: Level::Warn, text: t };
    let ghost m = f@;
    self::add(out, f);
    let ghost detail = |c: ChangeModel|
        finding(Level::Detail, state::kind_word(c.kind) + " "@ + c.name);
    assert(was.push(m) =~= was + seq![m] + all.take(0).map_values(detail));
    for i in 0..flap.len()
        invariant
            all == state::change_models(flap@),
            detail == (|c: ChangeModel|
                finding(Level::Detail, state::kind_word(c.kind) + " "@ + c.name)),
            finding_models(out@) == was + seq![m] + all.take(i as int).map_values(detail),
    {
        let mut t = flap[i].kind.as_str().to_owned();
        t.append(" ");
        t.append(flap[i].name.as_str());
        let d = Finding { level: Level::Detail, text: t };
        let ghost dm = d@;
        assert(all[i as int] == flap@[i as int]@);
        assert(dm == detail(all[i as int]));
        self::add(out, d);
        assert((was + seq![m] + all.take(i as int).map_values(detail)).push(dm) =~= was + seq![m]
            + all.take(i + 1).map_values(detail));
    }
    assert(all.take(flap@.len() as int) =~= all);
    assert(was + seq![m] + flap_details(all) =~= was + flap_findings(all));
}

fn unmoved_line(what: &str, t: &PrintPair, head: u64) -> (r: Finding)
    ensures
        r@ == unmoved_finding(what@, *t, head),
{
    let mut l: String = plural(t.total, what);
    l.append(" unchanged since gen ");
    l.append(decimal_of(head).as_str());
    Finding { level: Level::Good, text: l }
}

/// Adds a line for each of `changed`, which are the moves of a table.
fn add_moves(out: &mut Vec<Finding>, changed: &Vec<String>, t: &PrintPair)
    requires
        text::texts(changed@) == moves(*t),
    ensures
        finding_models(final(out)@) == finding_models(old(out)@) + move_details(*t),
{
    let ghost was = finding_models(out@);
    let ghost all = moves(*t);
    let ghost detail = |l: Seq<char>| finding(Level::Detail, l);
    assert(was =~= was + all.take(0).map_values(detail));
    for i in 0..changed.len()
        invariant
            all == text::texts(changed@),
            detail == (|l: Seq<char>| finding(Level::Detail, l)),
            finding_models(out@) == was + all.take(i as int).map_values(detail),
    {
        let d = Finding { level: Level::Detail, text: changed[i].clone() };
        let ghost dm = d@;
        assert(dm == detail(all[i as int]));
        self::add(out, d);
        assert((was + all.take(i as int).map_values(detail)).push(dm) =~= was + all.take(
            i + 1,
        ).map_values(detail));
    }
    assert(all.take(changed@.len() as int) =~= all);
}

fn add_sources(out: &mut Vec<Finding>, t: &PrintPair, head: u64)
    ensures
        finding_models(final(out)@) == finding_models(old(out)@) + source_findings(*t, head),
{
    let ghost was = finding_models(out@);
    let changed: Vec<String> = changed_sources(&t.was, &t.now);
    assert(moves(*t).len() == changed@.len());
    if changed.len() == 0 {
        self::add(out, unmoved_line("sourced file", t, head));
        assert(finding_models(out@) =~= was + source_findings(*t, head));
        return;
    }
    let mut l: String = plural(changed.len(), "sourced file");
    l.append(" changed since gen ");
    l.append(decimal_of(head).as_str());
    l.append(" — run `sharezed reload`");
    self::add(out, Finding { level: Level::Warn, text: l });
    add_moves(out, &changed, t);
    assert(finding_models(out@) =~= was + source_findings(*t, head));
}

fn add_commands(out: &mut Vec<Finding>, t: &PrintPair, head: u64)
    ensures
        finding_models(final(out)@) == finding_models(old(out)@) + command_findings(*t, head),
{
    let ghost was = finding_models(out@);
    let changed: Vec<String> = changed_sources(&t.was, &t.now);
    assert(moves(*t).len() == changed@.len());
    if changed.len() == 0 {
        self::add(out, unmoved_line("command", t, head));
        assert(finding_models(out@) =~= was + command_findings(*t, head));
        return;
    }
    let mut l: String = decimal_of(changed.len() as u64);
    l.append(" of ");
    l.append(decimal_of(t.total as u64).as_str());
    l.append(" traced command(s) changed since the last publish");
    self::add(out, Finding { level: Level::Warn, text: l });
    add_moves(out, &changed, t);
    let advice = "run `sharezed reload` to pick up what they now produce".to_owned();
    self::add(out, Finding { level: Level::Detail, text: advice });
    assert(finding_models(out@) =~= was + command_findings(*t, head));
}

fn add_path(out: &mut Vec<Finding>, path: &Vec<(String, bool)>)
    ensures
        finding_models(final(out)@) == finding_models(old(out)@) + path_findings(
            path@,
            path@.len() as int,
        ),
{
    let ghost was = finding_models(out@);
    assert(was =~= was + path_findings(path@, 0));
    for i in 0..path.len()
        invariant
            finding_models(out@) == was + path_findings(path@, i as int),
    {
        if !path[i].0.as_str().is_empty() && !path[i].1 {
            let mut t = "PATH entry no longer exists: ".to_owned();
            t.append(path[i].0.as_str());
            let f = Finding { level: Level::Warn, text: t };
            let ghost m = f@;
            let ghost before = path_findings(path@, i as int);
            self::add(out, f);
            assert((was + before).push(m) =~= was + before.push(m));
        }
    }
}

/// Diagnoses a shell and its channel.
pub fn diagnose(f: &Facts) -> (r: Vec<Finding>)
    ensures
        finding_models(r@) == diagnosis(*f),
{
    let mut out: Vec<Finding> = Vec::new();
    assert(finding_models(out@) =~= Seq::<FindingModel>::empty());
    self::add(&mut out, hook_line(f));
    self::add(&mut out, shell_line(f));
    assert(finding_models(out@) =~= seq![hook_finding(*f), shell_finding(*f)]);
    add_flap(&mut out, &f.flap);
    add_sources(&mut out, &f.sources, f.head);
    add_commands(&mut out, &f.commands, f.head);
    add_path(&mut out, &f.path);
    out
}

/// How two captures differ. A bootstrap that does the same twice gives none;
/// one whose trigger is not armed at the moment does too.
pub fn flap(first: &Capture, second: &Capture, ignore: &[Glob], volatile: &[Glob]) -> (r: Vec<Change>)
    ensures
        exists|a: Seq<(KeyModel, ItemModel)>, b: Seq<(KeyModel, ItemModel)>|
            {
                &&& table::ascending::<Key, ItemModel>(a)
                &&& table::ascending::<Key, ItemModel>(b)
                &&& table::row_map(a) == capture::desired_model(
                    first.s0@,
                    first.s1@,
                    globs::patterns(ignore@),
                    globs::patterns(volatile@),
                )
                &&& table::row_map(b) == capture::desired_model(
                    second.s0@,
                    second.s1@,
                    globs::patterns(ignore@),
                    globs::patterns(volatile@),
                )
                &&& state::change_models(r@) == #[trigger] state::difference(a, b)
            },
        r@.len() == 0 <==> capture::desired_model(
            first.s0@,
            first.s1@,
            globs::patterns(ignore@),
            globs::patterns(volatile@),
        ) == capture::desired_model(
            second.s0@,
            second.s1@,
            globs::patterns(ignore@),
            globs::patterns(volatile@),
        ),
{
    let one: State = desired_of(first, ignore, volatile);
    let d: Delta = delta(second, &one, ignore, volatile);
    proof {
        use_type_invariant(&one);
        use_type_invariant(&d.desired);
    }
    assert(state::change_models(d.changes@) == state::difference(one.rows(), d.desired.rows()));
    d.changes
}

/// A finding as it is printed.
pub open spec fn finding_text(f: FindingModel) -> Seq<char> {
    match f.level {
        Level::Detail => "       "@ + f.text,
        Level::Good => text::padded_right("ok"@, 5) + "  "@ + f.text,
        Level::Note => text::padded_right("note"@, 5) + "  "@ + f.text,
        Level::Warn => "WARN "@ + f.text,
    }
}

impl Finding {
    /// The line for a finding.
    pub fn line(&self) -> (r: String)
        ensures
            r@ == finding_text(self@),
    {
        let mut out: String = match self.level {
            Level::Detail => "       ".to_owned(),
            Level::Good => pad_right("ok", 5),
            Level::Note => pad_right("note", 5),
            Level::Warn => "WARN ".to_owned(),
        };
        match self.level {
            Level::Detail | Level::Warn => {},
            Level::Good | Level::Note => {
                out.append("  ");
            },
        }
        out.append(self.text.as_str());
        out
    }
}

/// How many warnings there are.
pub open spec fn warnings(findings: Seq<FindingModel>) -> nat {
    findings.filter(|f: FindingModel| f.level == Level::Warn).len()
}

/// The conclusion: an error that counts the warnings, if there are any.
pub fn conclude(findings: &[Finding]) -> (r: Result<(), String>)
    ensures
        match r {
            Ok(_) => warnings(finding_models(findings@)) == 0,
            Err(m) => warnings(finding_models(findings@)) > 0 && m@ == report::counted(
                warnings(finding_models(findings@)),
                "warning"@,
            ),
        },
{
    let ghost all = finding_models(findings@);
    let ghost bad = |f: FindingModel| f.level == Level::Warn;
    let mut n: usize = 0;
    proof {
        reveal(Seq::filter);
        assert(all.take(0).filter(bad).len() == 0);
    }
    for i in 0..findings.len()
        invariant
            all == finding_models(findings@),
            bad == (|f: FindingModel| f.level == Level::Warn),
            n == all.take(i as int).filter(bad).len(),
            n <= i,
    {
        proof {
            reveal(Seq::filter);
            assert(all.take(i + 1).drop_last() =~= all.take(i as int));
            assert(all[i as int] == findings@[i as int]@);
        }
        if findings[i].level == Level::Warn {
            n += 1;
        }
    }
    assert(all.take(findings@.len() as int) =~= all);
    if n == 0 {
        Ok(())
    } else {
        Err(plural(n, "warning"))
    }
}

// --- laws ---------------------------------------------------------------------

proof fn lemma_warnings_add(a: Seq<FindingModel>, b: Seq<FindingModel>)
    ensures
        warnings(a + b) == warnings(a) + warnings(b),
{
    Seq::filter_distributes_over_add(a, b, |f: FindingModel| f.level == Level::Warn);
}

proof fn lemma_no_warnings(v: Seq<FindingModel>)
    requires
        forall|i: int| 0 <= i < v.len() ==> (#[trigger] v[i]).level != Level::Warn,
    ensures
        warnings(v) == 0,
{
    let bad = |f: FindingModel| f.level == Level::Warn;
    if v.filter(bad).len() > 0 {
        let j = text::lemma_filter_source(v, bad, 0);
    }
}

proof fn lemma_warnings_one(f: FindingModel)
    ensures
        warnings(seq![f]) == if f.level == Level::Warn {
            1nat
        } else {
            0
        },
{
    reveal_with_fuel(Seq::filter, 2);
    assert(seq![f].drop_last() =~= Seq::<FindingModel>::empty());
}

proof fn lemma_path_warnings(path: Seq<(String, bool)>, n: int)
    requires
        0 <= n <= path.len(),
    ensures
        warnings(path_findings(path, n)) == 0 <==> forall|i: int|
            0 <= i < n ==> (#[trigger] path[i]).0@.len() == 0 || path[i].1,
    decreases n,
{
    if n == 0 {
        lemma_no_warnings(path_findings(path, 0));
    } else {
        lemma_path_warnings(path, n - 1);
        if path[n - 1].0@.len() > 0 && !path[n - 1].1 {
            let f = finding(Level::Warn, "PATH entry no longer exists: "@ + path[n - 1].0@);
            lemma_warnings_add(path_findings(path, n - 1), seq![f]);
            lemma_warnings_one(f);
            assert(path_findings(path, n) =~= path_findings(path, n - 1) + seq![f]);
        }
    }
}

/// The doctor is content exactly when the hook is installed, the shell is up
/// to date or has no hook, the capture is reproducible, nothing that is tracked
/// has moved, and every entry of the search path that was looked at is there.
pub proof fn a_clean_shell_gets_a_clean_bill(f: Facts)
    ensures
        warnings(diagnosis(f)) == 0 <==> {
            &&& has_hook(f.rc@)
            &&& !f.hooked || f.cursor == f.head
            &&& f.flap@.len() == 0
            &&& moves(f.sources).len() == 0
            &&& moves(f.commands).len() == 0
            &&& forall|i: int|
                0 <= i < f.path@.len() ==> (#[trigger] f.path@[i]).0@.len() == 0 || f.path@[i].1
        },
{
    let first = seq![hook_finding(f), shell_finding(f)];
    let flap = state::change_models(f.flap@);
    let a = flap_findings(flap);
    let b = source_findings(f.sources, f.head);
    let c = command_findings(f.commands, f.head);
    let d = path_findings(f.path@, f.path@.len() as int);
    lemma_warnings_add(first + a + b + c, d);
    lemma_warnings_add(first + a + b, c);
    lemma_warnings_add(first + a, b);
    lemma_warnings_add(first, a);
    assert(first =~= seq![hook_finding(f)] + seq![shell_finding(f)]);
    lemma_warnings_add(seq![hook_finding(f)], seq![shell_finding(f)]);
    lemma_warnings_one(hook_finding(f));
    lemma_warnings_one(shell_finding(f));
    assert(flap.len() == f.flap@.len());
    lemma_warnings_add(seq![a[0]], flap_details(flap));
    lemma_warnings_one(a[0]);
    lemma_no_warnings(flap_details(flap));
    lemma_table_warnings(b);
    lemma_table_warnings(c);
    lemma_path_warnings(f.path@, f.path@.len() as int);
    if flap.len() == 0 {
        assert(a =~= seq![a[0]]);
    } else {
        assert(a =~= seq![a[0]] + flap_details(flap));
    }
}

/// Only the first finding on a table can be a warning.
proof fn lemma_table_warnings(v: Seq<FindingModel>)
    requires
        v.len() > 0,
        forall|i: int| 1 <= i < v.len() ==> (#[trigger] v[i]).level != Level::Warn,
    ensures
        warnings(v) == 0 <==> v[0].level != Level::Warn,
{
    let rest = v.drop_first();
    assert(v =~= seq![v[0]] + rest);
    lemma_warnings_add(seq![v[0]], rest);
    lemma_warnings_one(v[0]);
    lemma_no_warnings(rest);
}

/// Nothing has moved exactly when the prints are what was recorded.
pub proof fn no_moves_iff_same_prints(t: PrintPair)
    requires
        table::ascending::<String, Seq<char>>(t.was.rows()),
        table::ascending::<String, Seq<char>>(t.now.rows()),
    ensures
        moves(t).len() == 0 <==> t.was@ == t.now@,
{
    let was = t.was.rows();
    let now = t.now.rows();
    let moved = |r: (Seq<char>, Seq<char>)| !(t.was@.contains_key(r.0) && t.was@[r.0] == r.1);
    let gone = |r: (Seq<char>, Seq<char>)| !t.now@.contains_key(r.0);
    if moves(t).len() == 0 {
        assert forall|k: Seq<char>| #[trigger] t.now@.dom().contains(k) implies t.was@.dom().contains(
            k,
        ) && t.was@[k] == t.now@[k] by {
            let j = choose|j: int| 0 <= j < now.len() && (#[trigger] now[j]).0 == k;
            table::lemma_row_found::<String, Seq<char>>(now, j);
            if moved(now[j]) {
                now.lemma_filter_contains(moved, j);
                assert(now.filter(moved).len() > 0);
            }
        }
        assert forall|k: Seq<char>| #[trigger] t.was@.dom().contains(k) implies t.now@.dom().contains(
            k,
        ) by {
            let j = choose|j: int| 0 <= j < was.len() && (#[trigger] was[j]).0 == k;
            if gone(was[j]) {
                was.lemma_filter_contains(gone, j);
                assert(was.filter(gone).len() > 0);
            }
        }
        assert(t.was@ =~= t.now@);
    }
    if t.was@ == t.now@ {
        if now.filter(moved).len() > 0 {
            let j = text::lemma_filter_source(now, moved, 0);
            table::lemma_row_found::<String, Seq<char>>(now, j);
        }
        if was.filter(gone).len() > 0 {
            let j = text::lemma_filter_source(was, gone, 0);
            table::lemma_row_found::<String, Seq<char>>(was, j);
        }
    }
}

/// A table gets one finding if nothing in it has moved. Otherwise it gets a
/// warning, and a detail for each print that has moved, in order.
pub proof fn moves_are_detailed(t: PrintPair, head: u64, i: int)
    requires
        table::ascending::<String, Seq<char>>(t.was.rows()),
        table::ascending::<String, Seq<char>>(t.now.rows()),
    ensures
        source_findings(t, head)[0].level == (if t.was@ == t.now@ {
            Level::Good
        } else {
            Level::Warn
        }),
        command_findings(t, head)[0].level == (if t.was@ == t.now@ {
            Level::Good
        } else {
            Level::Warn
        }),
        source_findings(t, head).len() == 1 + moves(t).len(),
        command_findings(t, head).len() == 1 + moves(t).len() + (if t.was@ == t.now@ {
            0int
        } else {
            1
        }),
        0 <= i < moves(t).len() ==> {
            &&& source_findings(t, head)[1 + i] == finding(Level::Detail, moves(t)[i])
            &&& command_findings(t, head)[1 + i] == finding(Level::Detail, moves(t)[i])
        },
{
    no_moves_iff_same_prints(t);
}

/// A capture that differs from the next one gets a warning and the kind and
/// name of each key that differs, in order.
pub proof fn flaps_are_detailed(flap: Seq<ChangeModel>, i: int)
    ensures
        flap_findings(flap).len() == 1 + flap.len(),
        flap_findings(flap)[0].level == (if flap.len() == 0 {
            Level::Good
        } else {
            Level::Warn
        }),
        0 <= i < flap.len() ==> {
            &&& flap_findings(flap)[1 + i].level == Level::Detail
            &&& text::begins_with(flap_findings(flap)[1 + i].text, state::kind_word(flap[i].kind))
            &&& text::has_part(flap_findings(flap)[1 + i].text, flap[i].name)
        },
{
    if 0 <= i < flap.len() {
        let w = state::kind_word(flap[i].kind);
        let n = flap[i].name;
        let t = flap_findings(flap)[1 + i].text;
        assert(t == w + " "@ + n);
        assert(t.subrange(0, 0int + w.len()) =~= w);
        assert(t.subrange(t.len() - n.len(), 0int + t.len()) =~= n);
        assert(text::occurs_at(t, n, t.len() - n.len()));
    }
}

/// Each entry of the search path that is not empty and no directory gets a
/// warning that ends with it, and no other entry gets any.
pub proof fn dead_entries_are_named(path: Seq<(String, bool)>, n: int)
    requires
        0 < n <= path.len(),
    ensures
        ({
            let e = path[n - 1].0@;
            let before = path_findings(path, n - 1);
            let all = path_findings(path, n);
            &&& path_findings(path, 0).len() == 0
            &&& e.len() == 0 || path[n - 1].1 ==> all == before
            &&& e.len() > 0 && !path[n - 1].1 ==> {
                &&& all.drop_last() == before
                &&& all.len() == before.len() + 1
                &&& all.last().level == Level::Warn
                &&& all.last().text.len() >= e.len()
                &&& all.last().text.skip(all.last().text.len() - e.len()) == e
            }
        }),
{
    let e = path[n - 1].0@;
    let before = path_findings(path, n - 1);
    let all = path_findings(path, n);
    if e.len() > 0 && !path[n - 1].1 {
        assert(all.drop_last() =~= before);
        let t = all.last().text;
        assert(t == "PATH entry no longer exists: "@ + e);
        assert(t.skip(t.len() - e.len()) =~= e);
    }
}

/// The first two findings: whether the startup file has the hook, and where
/// this shell stands.
pub proof fn shells_are_judged(f: Facts)
    ensures
        diagnosis(f).len() >= 2,
        diagnosis(f)[0].level == (if has_hook(f.rc@) {
            Level::Good
        } else {
            Level::Warn
        }),
        text::has_part(diagnosis(f)[0].text, f.rc_path@),
        diagnosis(f)[1].level == (if !f.hooked {
            Level::Note
        } else if f.cursor == f.head {
            Level::Good
        } else {
            Level::Warn
        }),
        f.hooked ==> text::has_part(diagnosis(f)[1].text, text::decimal(f.head as nat)),
        f.hooked ==> text::has_part(diagnosis(f)[1].text, text::decimal(f.cursor as nat)),
{
    let t = diagnosis(f)[0].text;
    let p = f.rc_path@;
    assert(t.subrange(t.len() - p.len(), 0int + t.len()) =~= p);
    assert(text::occurs_at(t, p, t.len() - p.len()));
    if f.hooked {
        let u = diagnosis(f)[1].text;
        let h = text::decimal(f.head as nat);
        let c = text::decimal(f.cursor as nat);
        if f.cursor == f.head {
            let a = "this shell is up to date (gen "@;
            assert(u.subrange(0int + a.len(), 0int + a.len() + h.len()) =~= h);
            assert(text::occurs_at(u, h, 0int + a.len()));
        } else {
            let a = "this shell is at gen "@;
            let b = a + c + ", "@;
            assert(u.subrange(0int + a.len(), 0int + a.len() + c.len()) =~= c);
            assert(text::occurs_at(u, c, 0int + a.len()));
            assert(u.subrange(0int + b.len(), 0int + b.len() + h.len()) =~= h);
            assert(text::occurs_at(u, h, 0int + b.len()));
        }
    }
}

/// A printed finding ends with what was found, and begins with how grave it is.
pub proof fn findings_are_printed(f: FindingModel)
    ensures
        finding_text(f).len() == 7 + f.text.len() - (if f.level == Level::Warn {
            2int
        } else {
            0
        }),
        finding_text(f).skip(finding_text(f).len() - f.text.len()) == f.text,
        f.level == Level::Good ==> text::begins_with(finding_text(f), "ok"@),
        f.level == Level::Note ==> text::begins_with(finding_text(f), "note"@),
        f.level == Level::Warn ==> text::begins_with(finding_text(f), "WARN"@),
        f.level == Level::Detail ==> text::begins_with(finding_text(f), "  "@),
{
    reveal_strlit("ok");
    reveal_strlit("note");
    reveal_strlit("WARN");
    reveal_strlit("WARN ");
    reveal_strlit("  ");
    reveal_strlit("       ");
    let t = finding_text(f);
    assert(t.skip(t.len() - f.text.len()) =~= f.text);
    assert(f.level == Level::Good ==> t.subrange(0, 2) =~= "ok"@);
    assert(f.level == Level::Note ==> t.subrange(0, 4) =~= "note"@);
    assert(f.level == Level::Warn ==> t.subrange(0, 4) =~= "WARN"@);
    assert(f.level == Level::Detail ==> t.subrange(0, 2) =~= "  "@);
}

/// Every line of the startup file counts, wherever it stands.
pub proof fn hooks_are_found_line_by_line(a: Seq<char>, b: Seq<char>)
    ensures
        has_hook(a.push('\n') + b) <==> has_hook(a.push('\n')) || has_hook(b),
        (forall|i: int| 0 <= i < b.len() ==> #[trigger] b[i] != '\n') ==> {
            &&& has_hook(b) <==> b.len() > 0 && text::has_part(b, "sharezed hook"@)
            &&& b.len() > 0 && b.last() != '\r' ==> (has_hook(b.push('\n')) <==> has_hook(b))
        },
{
    let hook = "sharezed hook"@;
    let l = text::lines_of(a.push('\n'));
    let r = text::lines_of(b);
    text_laws::lines_end_at_line_feeds(a, b);
    if has_hook(a.push('\n')) {
        let i = choose|i: int| 0 <= i < l.len() && text::has_part(#[trigger] l[i], hook);
        assert((l + r)[i] == l[i]);
    }
    if has_hook(b) {
        let i = choose|i: int| 0 <= i < r.len() && text::has_part(#[trigger] r[i], hook);
        assert((l + r)[l.len() + i] == r[i]);
    }
    if has_hook(a.push('\n') + b) {
        let i = choose|i: int|
            0 <= i < (l + r).len() && text::has_part(#[trigger] (l + r)[i], hook);
        if i < l.len() {
            assert((l + r)[i] == l[i]);
        } else {
            assert((l + r)[i] == r[i - l.len()]);
        }
    }
    if forall|i: int| 0 <= i < b.len() ==> #[trigger] b[i] != '\n' {
        let e = text::lines_of(b.push('\n'));
        if b.len() > 0 {
            assert(r[0] == b);
            assert(b.last() != '\r' ==> e[0] == b);
        }
    }
}

/// Warnings are counted one by one, and nothing else is.
pub proof fn only_warnings_are_counted(a: Seq<FindingModel>, b: Seq<FindingModel>, f: FindingModel)
    ensures
        warnings(a + b) == warnings(a) + warnings(b),
        warnings(seq![f]) == if f.level == Level::Warn {
            1nat
        } else {
            0
        },
{
    lemma_warnings_add(a, b);
    lemma_warnings_one(f);
}

} // verus!
