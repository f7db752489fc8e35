//! What is told about changes, channels and lists, line by line.

use crate::globs::{self, Glob};
use crate::lists::{self, lcs, norm, norms};
use crate::merge::{self, merge, Merged};
use crate::prints::{self, hex_char};
use crate::state::{self, summary, Change, ChangeModel, Kind};
use crate::text::{
    self, chars_of, decimal_of, join, listed, pad_left, pad_right, replace, split_non_empty, Cut,
};
use vstd::prelude::*;
use vstd::string::*;

verus! {

/// `n` things, in words.
pub open spec fn counted(n: nat, thing: Seq<char>) -> Seq<char> {
    text::decimal(n) + " "@ + thing + (if n == 1 {
        ""@
    } else {
        "s"@
    })
}

/// Says how many things there are.
pub fn plural(n: usize, thing: &str) -> (r: String)
    ensures
        r@ == counted(n as nat, thing@),
{
    let mut out: String = decimal_of(n as u64);
    out.append(" ");
    out.append(thing);
    if n == 1 {
        out.append("");
    } else {
        out.append("s");
    }
    out
}

// --- values -------------------------------------------------------------------

/// A control character of Unicode.
pub open spec fn is_control(c: char) -> bool {
    c as int <= 0x1f || 0x7f <= c as int <= 0x9f
}

/// Is `c` a control character?
pub fn control(c: char) -> (r: bool)
    ensures
        r == is_control(c),
{
    let n: u32 = c as u32;
    n <= 0x1f || (0x7f <= n && n <= 0x9f)
}

/// A number below 256 in hexadecimal, without leading zeros.
pub open spec fn short_hex(n: int) -> Seq<char> {
    if n < 16 {
        seq![prints::hex_digit(n)]
    } else {
        seq![prints::hex_digit(n / 16), prints::hex_digit(n % 16)]
    }
}

/// A control character as an escape.
pub open spec fn control_escape(c: char) -> Seq<char> {
    if c == '\0' {
        "\\0"@
    } else if c == '\t' {
        "\\t"@
    } else if c == '\n' {
        "\\n"@
    } else if c == '\r' {
        "\\r"@
    } else {
        "\\u{"@ + short_hex(c as int) + "}"@
    }
}

/// A character as it is shown. A prompt is mostly escape sequences: printed
/// raw they would repaint the terminal, so the escape character is spelled as
/// a shell's startup file spells it.
pub open spec fn shown_char(c: char) -> Seq<char> {
    if c == '\u{1b}' {
        "\\e"@
    } else if is_control(c) {
        control_escape(c)
    } else {
        seq![c]
    }
}

/// Adds a character as it is shown.
fn push_shown(out: &mut String, c: char)
    ensures
        final(out)@ == old(out)@ + shown_char(c),
{
    let ghost was = out@;
    if c == '\u{1b}' {
        out.append("\\e");
    } else if !control(c) {
        out.push(c);
        assert(out@ =~= was + seq![c]);
    } else if c == '\0' {
        out.append("\\0");
    } else if c == '\t' {
        out.append("\\t");
    } else if c == '\n' {
        out.append("\\n");
    } else if c == '\r' {
        out.append("\\r");
    } else {
        let n: u8 = (c as u32) as u8;
        out.append("\\u{");
        let ghost open = out@;
        if n >= 16 {
            out.push(hex_char(n / 16));
        }
        out.push(hex_char(n % 16));
        assert(out@ =~= open + short_hex(c as int));
        out.append("}");
        assert(out@ =~= was + control_escape(c));
    }
}

/// How many bytes `c` takes in UTF-8.
pub open spec fn width(c: char) -> nat {
    vstd::utf8::encode_scalar(c as u32).len()
}

fn width_of(c: char) -> (n: usize)
    ensures
        n == width(c),
        1 <= n <= 4,
{
    let n: u32 = c as u32;
    proof {
        vstd::utf8::char_is_scalar(c);
    }
    if n <= 0x7f {
        1
    } else if n <= 0x7ff {
        2
    } else if n <= 0xffff {
        3
    } else {
        4
    }
}

/// The longest beginning of `s` that takes no more than `room` bytes in UTF-8.
pub open spec fn fitting(s: Seq<char>, room: int) -> Seq<char>
    decreases s.len(),
{
    if s.len() == 0 || width(s[0]) > room {
        Seq::empty()
    } else {
        seq![s[0]] + fitting(s.drop_first(), room - width(s[0]))
    }
}

proof fn lemma_fitting(s: Seq<char>, room: int)
    ensures
        fitting(s, room).len() <= s.len(),
        fitting(s, room) == s.take(fitting(s, room).len() as int),
        fitting(s, room) == s || vstd::utf8::encode_utf8(s).len() > room,
        fitting(s, room) == s ==> s.len() == 0 || vstd::utf8::encode_utf8(s).len() <= room,
    decreases s.len(),
{
    if s.len() > 0 {
        let rest = s.drop_first();
        let left = room - width(s[0]);
        lemma_fitting(rest, left);
        assert(s =~= seq![s[0]] + rest);
        let f = fitting(s, room);
        if width(s[0]) <= room {
            let g = fitting(rest, left);
            assert(f == seq![s[0]] + g);
            assert(f =~= s.take(f.len() as int));
            if f == s {
                assert(g =~= f.drop_first());
                assert(g == rest);
            }
            if g == rest {
                assert(f =~= s);
            }
        } else {
            assert(f =~= s.take(0));
        }
    } else {
        assert(fitting(s, room) =~= s);
        assert(s.take(0) =~= s);
    }
}

/// `s`, or what of it fits into `room` bytes and an ellipsis.
pub open spec fn clipped(s: Seq<char>, room: int) -> Seq<char> {
    if vstd::utf8::encode_utf8(s).len() > room {
        fitting(s, room) + "…"@
    } else {
        s
    }
}

/// Clips a text to `room` bytes, at a character boundary.
pub fn clip(s: &str, room: usize) -> (r: String)
    ensures
        r@ == clipped(s@, room as int),
{
    let v: Vec<char> = chars_of(s);
    let mut left: usize = room;
    let mut i: usize = 0;
    assert(v@.skip(0) =~= s@);
    assert(v@.take(0) + fitting(v@, room as int) =~= fitting(v@, room as int));
    while i < v.len() && width_of(v[i]) <= left
        invariant
            i <= v@.len(),
            v@.take(i as int) + fitting(v@.skip(i as int), left as int) == fitting(
                v@,
                room as int,
            ),
        decreases v@.len() - i,
    {
        let ghost rest = v@.skip(i as int);
        assert(rest[0] == v@[i as int]);
        assert(rest.drop_first() =~= v@.skip(i + 1));
        assert(v@.take(i + 1) =~= v@.take(i as int).push(v@[i as int]));
        left = left - width_of(v[i]);
        assert(v@.take(i as int) + (seq![rest[0]] + fitting(v@.skip(i + 1), left as int))
            =~= v@.take(i + 1) + fitting(v@.skip(i + 1), left as int));
        i += 1;
    }
    proof {
        lemma_fitting(s@, room as int);
        let rest = v@.skip(i as int);
        if i < v@.len() {
            assert(rest[0] == v@[i as int]);
        }
        assert(fitting(rest, left as int) =~= Seq::<char>::empty());
        assert(v@.take(i as int) =~= fitting(s@, room as int));
    }
    if i < v.len() {
        let mut out: String = text::string_of(&v, 0, i);
        assert(out@ =~= v@.take(i as int));
        assert(fitting(s@, room as int) != s@) by {
            assert(fitting(s@, room as int).len() == i);
        }
        out.append("…");
        out
    } else {
        assert(v@.take(i as int) =~= s@);
        assert(s@.len() == 0 ==> vstd::utf8::encode_utf8(s@).len() == 0);
        s.to_owned()
    }
}

/// The values of a change on one line. Function bodies have several lines, and
/// this is what is read before an entry is trusted.
pub open spec fn shown(vals: Seq<Seq<char>>) -> Seq<char> {
    clipped(harmless(text::joined(text::words_of(text::joined(vals, " "@)), " "@)), 60)
}

/// A text with its control characters spelled out.
pub open spec fn harmless(s: Seq<char>) -> Seq<char> {
    text::spelled(s, |c: char| shown_char(c))
}

/// Spells out the control characters of a text.
fn spell_out(s: &str) -> (r: String)
    ensures
        r@ == harmless(s@),
{
    let v: Vec<char> = chars_of(s);
    let ghost spell = |c: char| shown_char(c);
    let mut out = String::new();
    assert(v@.take(0) =~= Seq::<char>::empty());
    for i in 0..v.len()
        invariant
            spell == (|c: char| shown_char(c)),
            out@ == text::spelled(v@.take(i as int), spell),
    {
        assert(v@.take(i + 1).drop_last() =~= v@.take(i as int));
        push_shown(&mut out, v[i]);
    }
    assert(v@.take(v@.len() as int) =~= s@);
    out
}

/// Shows the values of a change on one line.
pub fn show(vals: &[String]) -> (r: String)
    ensures
        r@ == shown(text::texts(vals@)),
{
    let whole: String = join(vals, " ");
    let words: Vec<String> = split_non_empty(whole.as_str(), Cut::WhiteSpace);
    let line: String = join(words.as_slice(), " ");
    clip(spell_out(line.as_str()).as_str(), 60)
}

// --- lists --------------------------------------------------------------------

/// The line for the entry at place `i` of a list. An entry is shown in full,
/// but an escape in it must not reach the terminal raw.
pub open spec fn element_line(sign: char, i: int, e: Seq<char>) -> Seq<char> {
    "      "@ + seq![sign] + " "@ + text::padded_left(text::decimal((i + 1) as nat), ' ', 3) + "  "@
        + harmless(e)
}

/// A line for each of the first `n` entries of `v` whose place `kept` does not
/// pick out.
pub open spec fn element_lines(
    v: Seq<Seq<char>>,
    kept: spec_fn(int) -> bool,
    sign: char,
    n: int,
) -> Seq<Seq<char>>
    decreases n,
{
    if n <= 0 {
        Seq::empty()
    } else if kept(n - 1) {
        element_lines(v, kept, sign, n - 1)
    } else {
        element_lines(v, kept, sign, n - 1).push(element_line(sign, n - 1, v[n - 1]))
    }
}

/// The walk passes through place `i` of the first list.
pub open spec fn passed(walk: Seq<(int, int)>, i: int) -> bool {
    exists|k: int| 0 <= k < walk.len() && (#[trigger] walk[k]).0 == i
}

/// How two lists differ: what goes, with its old place, then what comes, with
/// its new one. What moves does both, because in a list that is ordered by
/// priority the place is the meaning.
pub open spec fn element_diff_model(old: Seq<Seq<char>>, new: Seq<Seq<char>>) -> Seq<Seq<char>> {
    let walk = lists::common_walk(lists::norms_of(old), lists::norms_of(new), 0, 0);
    let all = element_lines(old, |i: int| passed(walk, i), '-', old.len() as int) + element_lines(
        new,
        |i: int| merge::anchored(walk, i),
        '+',
        new.len() as int,
    );
    if all.len() == 0 {
        seq!["        (same elements; attributes changed)"@]
    } else {
        all
    }
}

/// Does the walk pass through place `i` of the list?
fn is_passed(pairs: &Vec<(usize, usize)>, i: usize, first: bool) -> (r: bool)
    ensures
        first ==> r == passed(lists::places(pairs@), i as int),
        !first ==> r == merge::anchored(lists::places(pairs@), i as int),
{
    let ghost walk = lists::places(pairs@);
    for k in 0..pairs.len()
        invariant
            walk == lists::places(pairs@),
            forall|j: int|
                0 <= j < k ==> (if first {
                    (#[trigger] walk[j]).0
                } else {
                    walk[j].1
                }) != i as int,
    {
        let at: usize = if first {
            pairs[k].0
        } else {
            pairs[k].1
        };
        assert(walk[k as int] == (pairs@[k as int].0 as int, pairs@[k as int].1 as int));
        if at == i {
            return true;
        }
    }
    false
}

/// Adds a line for each entry of `v` that the walk does not pass through.
fn add_elements(
    out: &mut Vec<String>,
    v: &[String],
    pairs: &Vec<(usize, usize)>,
    first: bool,
    sign: char,
    Ghost(kept): Ghost<spec_fn(int) -> bool>,
)
    requires
        forall|i: int|
            #![trigger kept(i)]
            kept(i) == (if first {
                passed(lists::places(pairs@), i)
            } else {
                merge::anchored(lists::places(pairs@), i)
            }),
    ensures
        text::texts(final(out)@) == text::texts(old(out)@) + element_lines(
            text::texts(v@),
            kept,
            sign,
            v@.len() as int,
        ),
{
    let ghost was = text::texts(out@);
    let ghost all = text::texts(v@);
    assert(was =~= was + element_lines(all, kept, sign, 0));
    for i in 0..v.len()
        invariant
            all == text::texts(v@),
            forall|i: int|
                #![trigger kept(i)]
                kept(i) == (if first {
                    passed(lists::places(pairs@), i)
                } else {
                    merge::anchored(lists::places(pairs@), i)
                }),
            text::texts(out@) == was + element_lines(all, kept, sign, i as int),
    {
        assert(kept(i as int) == (if first {
            passed(lists::places(pairs@), i as int)
        } else {
            merge::anchored(lists::places(pairs@), i as int)
        }));
        if !is_passed(pairs, i, first) {
            let mut line = "      ".to_owned();
            line.push(sign);
            assert(line@ =~= "      "@ + seq![sign]);
            line.append(" ");
            line.append(pad_left(decimal_of(i as u64 + 1).as_str(), ' ', 3).as_str());
            line.append("  ");
            line.append(spell_out(v[i].as_str()).as_str());
            proof {
                text::lemma_texts_push(out@, line);
                let before = element_lines(all, kept, sign, i as int);
                assert((was + before).push(line@) =~= was + before.push(line@));
            }
            out.push(line);
        }
    }
}

/// Shows how two lists differ, entry by entry.
pub fn element_diff(old: &[String], new: &[String]) -> (r: Vec<String>)
    ensures
        text::texts(r@) == element_diff_model(text::texts(old@), text::texts(new@)),
{
    let pairs: Vec<(usize, usize)> = lcs(old, new);
    let ghost walk = lists::places(pairs@);
    let mut out: Vec<String> = Vec::new();
    assert(text::texts(out@) =~= Seq::<Seq<char>>::empty());
    let ghost gone = |i: int| passed(walk, i);
    let ghost come = |i: int| merge::anchored(walk, i);
    add_elements(&mut out, old, &pairs, true, '-', Ghost(gone));
    let ghost first = text::texts(out@);
    assert(first =~= element_lines(text::texts(old@), gone, '-', old@.len() as int));
    add_elements(&mut out, new, &pairs, false, '+', Ghost(come));
    if out.len() == 0 {
        out.push("        (same elements; attributes changed)".to_owned());
        assert(text::texts(out@) =~= seq!["        (same elements; attributes changed)"@]);
    }
    out
}

// --- changes ------------------------------------------------------------------

/// A line break and a line, for each of `lines`.
pub open spec fn appended(lines: Seq<Seq<char>>) -> Seq<char>
    decreases lines.len(),
{
    if lines.len() == 0 {
        Seq::empty()
    } else {
        appended(lines.drop_last()) + "\n"@ + lines.last()
    }
}

/// The kind and the name of a key, in columns.
pub open spec fn heading(kind: Kind, name: Seq<char>) -> Seq<char> {
    text::padded_right(state::kind_word(kind), 7) + " "@ + text::padded_right(name, 24) + " "@
}

/// What a change does, in one line; for a list that changes, one line for each
/// entry that does. Forty entries cut to one line would be two beginnings that
/// look the same.
pub open spec fn description(c: ChangeModel) -> Seq<char> {
    let what = heading(c.kind, c.name);
    match (c.old, c.new) {
        (Some(old), Some(new)) => if c.kind == Kind::Array || c.kind == Kind::Assoc {
            "  ~ "@ + what + text::decimal(old.len()) + " → "@ + text::decimal(new.len())
                + " elements"@ + appended(element_diff_model(old, new))
        } else {
            "  ~ "@ + what + shown(old) + " → "@ + shown(new)
        },
        (None, Some(new)) => "  + "@ + what + shown(new),
        (Some(old), None) => "  - "@ + what + shown(old),
        (None, None) => "  ? "@ + what,
    }
}

/// Says what a change does.
pub fn describe(c: &Change) -> (r: String)
    ensures
        r@ == description(c@),
{
    let mut what: String = pad_right(c.kind.as_str(), 7);
    what.append(" ");
    what.append(pad_right(c.name.as_str(), 24).as_str());
    what.append(" ");
    match (&c.old, &c.new) {
        (Some(old), Some(new)) => {
            let mut out = "  ~ ".to_owned();
            out.append(what.as_str());
            let list: bool = match c.kind {
                Kind::Array | Kind::Assoc => true,
                _ => false,
            };
            if list {
                out.append(decimal_of(old.len() as u64).as_str());
                out.append(" → ");
                out.append(decimal_of(new.len() as u64).as_str());
                out.append(" elements");
                let lines: Vec<String> = element_diff(old.as_slice(), new.as_slice());
                let ghost head = out@;
                let ghost all = text::texts(lines@);
                assert(all.take(0) =~= Seq::<Seq<char>>::empty());
                assert(head =~= head + appended(all.take(0)));
                for i in 0..lines.len()
                    invariant
                        all == text::texts(lines@),
                        out@ == head + appended(all.take(i as int)),
                {
                    assert(all.take(i + 1).drop_last() =~= all.take(i as int));
                    let ghost before = appended(all.take(i as int));
                    out.append("\n");
                    out.append(lines[i].as_str());
                    assert(out@ =~= head + (before + "\n"@ + all[i as int]));
                }
                assert(all.take(lines@.len() as int) =~= all);
                assert(text::texts(old@).len() == old@.len());
                assert(text::texts(new@).len() == new@.len());
            } else {
                out.append(show(old.as_slice()).as_str());
                out.append(" → ");
                out.append(show(new.as_slice()).as_str());
            }
            out
        },
        (None, Some(new)) => {
            let mut out = "  + ".to_owned();
            out.append(what.as_str());
            out.append(show(new.as_slice()).as_str());
            out
        },
        (Some(old), None) => {
            let mut out = "  - ".to_owned();
            out.append(what.as_str());
            out.append(show(old.as_slice()).as_str());
            out
        },
        (None, None) => {
            let mut out = "  ? ".to_owned();
            out.append(what.as_str());
            out
        },
    }
}

/// What each of `changes` does.
pub open spec fn descriptions(changes: Seq<ChangeModel>) -> Seq<Seq<char>> {
    changes.map_values(|c: ChangeModel| description(c))
}

/// Says what each of `changes` does.
pub fn describe_all(changes: &[Change]) -> (r: Vec<String>)
    ensures
        text::texts(r@) == descriptions(state::change_models(changes@)),
{
    let mut out: Vec<String> = Vec::new();
    for i in 0..changes.len()
        invariant
            out@.len() == i,
            forall|j: int|
                0 <= j < i ==> (#[trigger] out@[j])@ == description(changes@[j]@),
    {
        out.push(describe(&changes[i]));
    }
    assert(text::texts(out@) =~= descriptions(state::change_models(changes@)));
    out
}

// --- channels -----------------------------------------------------------------

/// Where a shell stands.
pub struct Standing {
    pub head: u64,
    pub cursor: u64,
    /// The names of the keys that were edited by hand, with colons between.
    pub conflicts: String,
    pub disabled: bool,
    pub hooked: bool,
}

/// What is said of where a shell stands.
pub open spec fn standing_lines(channel: Seq<char>, s: Standing) -> Seq<Seq<char>> {
    let pending = if s.head > s.cursor {
        s.head - s.cursor
    } else {
        0
    };
    seq![
        "channel "@ + channel + ": cursor "@ + text::decimal(s.cursor as nat) + ", head "@
            + text::decimal(s.head as nat) + (if pending == 0 {
            " (up to date)"@
        } else {
            " ("@ + text::decimal(pending as nat) + " pending)"@
        }),
    ] + (if s.conflicts@.len() > 0 {
        seq!["conflicts (local edits kept): "@ + text::replaced(s.conflicts@, ":"@, ", "@)]
    } else {
        Seq::empty()
    }) + (if s.disabled {
        seq!["DISABLED in this shell (SHAREZED_DISABLE is set)"@]
    } else {
        Seq::empty()
    }) + (if s.cursor == 0 && !s.hooked {
        seq!["note: no hook in this shell — eval \"$(sharezed hook zsh)\" in .zshrc"@]
    } else {
        Seq::empty()
    })
}

/// Says where a shell stands.
pub fn status(channel: &str, s: &Standing) -> (r: Vec<String>)
    ensures
        text::texts(r@) == standing_lines(channel@, *s),
{
    let mut first = "channel ".to_owned();
    first.append(channel);
    first.append(": cursor ");
    first.append(decimal_of(s.cursor).as_str());
    first.append(", head ");
    first.append(decimal_of(s.head).as_str());
    if s.head > s.cursor {
        let mut note = " (".to_owned();
        note.append(decimal_of(s.head - s.cursor).as_str());
        note.append(" pending)");
        first.append(note.as_str());
    } else {
        first.append(" (up to date)");
    }
    let mut out: Vec<String> = Vec::new();
    let ghost line = first@;
    out.push(first);
    let ghost l0 = text::texts(out@);
    assert(l0 =~= seq![line]);
    let ghost l1 = if s.conflicts@.len() > 0 {
        seq!["conflicts (local edits kept): "@ + text::replaced(s.conflicts@, ":"@, ", "@)]
    } else {
        Seq::<Seq<char>>::empty()
    };
    if !s.conflicts.as_str().is_empty() {
        proof {
            reveal_strlit(":");
        }
        let mut c = "conflicts (local edits kept): ".to_owned();
        c.append(replace(s.conflicts.as_str(), ":", ", ").as_str());
        proof {
            text::lemma_texts_push(out@, c);
        }
        out.push(c);
    }
    assert(text::texts(out@) =~= l0 + l1);
    let ghost l2 = if s.disabled {
        seq!["DISABLED in this shell (SHAREZED_DISABLE is set)"@]
    } else {
        Seq::<Seq<char>>::empty()
    };
    if s.disabled {
        let d = "DISABLED in this shell (SHAREZED_DISABLE is set)".to_owned();
        proof {
            text::lemma_texts_push(out@, d);
        }
        out.push(d);
    }
    assert(text::texts(out@) =~= l0 + l1 + l2);
    let ghost l3 = if s.cursor == 0 && !s.hooked {
        seq!["note: no hook in this shell — eval \"$(sharezed hook zsh)\" in .zshrc"@]
    } else {
        Seq::<Seq<char>>::empty()
    };
    if s.cursor == 0 && !s.hooked {
        let d = "note: no hook in this shell — eval \"$(sharezed hook zsh)\" in .zshrc".to_owned();
        proof {
            text::lemma_texts_push(out@, d);
        }
        out.push(d);
    }
    assert(text::texts(out@) =~= l0 + l1 + l2 + l3);
    out
}

/// What an entry is shown as: a summary, then what each change does.
pub open spec fn entry_lines(channel: Seq<char>, seq: u64, changes: Seq<ChangeModel>) -> Seq<
    Seq<char>,
> {
    seq![
        "gen "@ + text::decimal(seq as nat) + " (channel "@ + channel + "): "@
            + state::summary_model(changes),
    ] + descriptions(changes)
}

/// Shows an entry.
pub fn show_entry(channel: &str, seq: u64, changes: &[Change]) -> (r: Vec<String>)
    ensures
        text::texts(r@) == entry_lines(channel@, seq, state::change_models(changes@)),
{
    let mut first = "gen ".to_owned();
    first.append(decimal_of(seq).as_str());
    first.append(" (channel ");
    first.append(channel);
    first.append("): ");
    first.append(summary(changes).as_str());
    let ghost line = first@;
    let mut out: Vec<String> = vec![first];
    assert(text::texts(out@) =~= seq![line]);
    let mut rest: Vec<String> = describe_all(changes);
    let ghost more = text::texts(rest@);
    out.append(&mut rest);
    assert(text::texts(out@) =~= seq![line] + more);
    out
}

/// What is said of a channel without a generation.
pub fn nothing_published(channel: &str) -> (r: String)
    ensures
        r@ == "nothing published on channel "@ + channel@,
{
    let mut out = "nothing published on channel ".to_owned();
    out.append(channel);
    out
}

/// One line of the log.
pub fn log_line(seq: u64, changes: &[Change]) -> (r: String)
    ensures
        r@ == text::padded_left(text::decimal(seq as nat), ' ', 6) + "  "@ + state::summary_model(
            state::change_models(changes@),
        ),
{
    let mut out: String = pad_left(decimal_of(seq).as_str(), ' ', 6);
    out.append("  ");
    out.append(summary(changes).as_str());
    out
}

// --- the search path ----------------------------------------------------------

/// The line for one entry of the merged search path.
pub open spec fn path_line(published: Seq<Seq<char>>, i: int, e: Seq<char>) -> Seq<char> {
    "  "@ + text::padded_left(text::decimal((i + 1) as nat), ' ', 2) + ". "@ + text::padded_right(
        e,
        44,
    ) + " "@ + (if lists::norms_of(published).contains(lists::norm_of(e)) {
        "published"@
    } else {
        "local"@
    })
}

/// How the live search path was merged, entry by entry and with the account of
/// the merge. The published list is the base as well: what is shown is what
/// applying it again would give.
pub open spec fn path_lines(
    channel: Seq<char>,
    head: u64,
    published: Seq<Seq<char>>,
    ours: Seq<Seq<char>>,
    patterns: Seq<Seq<char>>,
) -> Seq<Seq<char>> {
    let first = "channel "@ + channel + ", gen "@ + text::decimal(head as nat);
    if published.len() == 0 {
        seq![first, "  path is not managed on this channel"@]
    } else {
        let m = merge::merged(
            published,
            ours,
            published,
            merge::families_among(patterns, ours, published),
        );
        seq![first] + Seq::new(m.list.len(), |i: int| path_line(published, i, m.list[i]))
            + m.notes.map_values(|n: Seq<char>| "  note: "@ + n)
    }
}

/// Shows how the live search path was merged.
pub fn path_explain(
    channel: &str,
    head: u64,
    published: &[String],
    ours: &[String],
    families: &[Glob],
) -> (r: Vec<String>)
    ensures
        text::texts(r@) == path_lines(
            channel@,
            head,
            text::texts(published@),
            text::texts(ours@),
            globs::patterns(families@),
        ),
{
    let mut first = "channel ".to_owned();
    first.append(channel);
    first.append(", gen ");
    first.append(decimal_of(head).as_str());
    let ghost line = first@;
    let mut out: Vec<String> = vec![first];
    assert(text::texts(out@) =~= seq![line]);
    if published.len() == 0 {
        let none = "  path is not managed on this channel".to_owned();
        out.push(none);
        assert(text::texts(out@) =~= seq![line, "  path is not managed on this channel"@]);
        return out;
    }
    let ghost pubs = text::texts(published@);
    let m: Merged = merge(published, ours, published, families);
    let known: Vec<String> = norms(published);
    let ghost list = text::texts(m.list@);
    let ghost want = Seq::new(list.len(), |i: int| path_line(pubs, i, list[i]));
    assert(want.take(0) =~= Seq::<Seq<char>>::empty());
    assert(seq![line] + want.take(0) =~= seq![line]);
    for i in 0..m.list.len()
        invariant
            pubs == text::texts(published@),
            list == text::texts(m.list@),
            want == Seq::new(list.len(), |i: int| path_line(pubs, i, list[i])),
            text::texts(known@) == lists::norms_of(pubs),
            text::texts(out@) == seq![line] + want.take(i as int),
    {
        let mut l = "  ".to_owned();
        l.append(pad_left(decimal_of(i as u64 + 1).as_str(), ' ', 2).as_str());
        l.append(". ");
        l.append(pad_right(m.list[i].as_str(), 44).as_str());
        l.append(" ");
        if listed(known.as_slice(), norm(m.list[i].as_str()).as_str()) {
            l.append("published");
        } else {
            l.append("local");
        }
        proof {
            text::lemma_texts_push(out@, l);
            assert(l@ == want[i as int]);
            assert((seq![line] + want.take(i as int)).push(l@) =~= seq![line] + want.take(i + 1));
        }
        out.push(l);
    }
    assert(want.take(m.list@.len() as int) =~= want);
    let ghost front = seq![line] + want;
    let ghost notes = text::texts(m.notes@);
    let ghost told = |n: Seq<char>| "  note: "@ + n;
    assert(front + notes.take(0).map_values(told) =~= front);
    for i in 0..m.notes.len()
        invariant
            notes == text::texts(m.notes@),
            told == (|n: Seq<char>| "  note: "@ + n),
            text::texts(out@) == front + notes.take(i as int).map_values(told),
    {
        let mut l = "  note: ".to_owned();
        l.append(m.notes[i].as_str());
        proof {
            text::lemma_texts_push(out@, l);
            assert((front + notes.take(i as int).map_values(told)).push(l@) =~= front + notes.take(
                i + 1,
            ).map_values(told));
        }
        out.push(l);
    }
    assert(notes.take(m.notes@.len() as int) =~= notes);
    out
}

// --- laws ---------------------------------------------------------------------

proof fn lemma_shown_char(c: char, i: int)
    requires
        0 <= i < shown_char(c).len(),
    ensures
        !is_control(shown_char(c)[i]),
{
    reveal_strlit("\\e");
    reveal_strlit("\\0");
    reveal_strlit("\\t");
    reveal_strlit("\\n");
    reveal_strlit("\\r");
    reveal_strlit("\\u{");
    reveal_strlit("}");
    if c != '\u{1b}' && is_control(c) && c != '\0' && c != '\t' && c != '\n' && c != '\r' {
        let h = short_hex(c as int);
        let s = shown_char(c);
        assert(s == "\\u{"@ + h + "}"@);
        if 3 <= i < 3 + h.len() {
            assert(s[i] == h[i - 3]);
        }
    }
}

proof fn lemma_harmless(s: Seq<char>, i: int)
    requires
        0 <= i < harmless(s).len(),
    ensures
        !is_control(harmless(s)[i]),
    decreases s.len(),
{
    if s.len() > 0 {
        let before = harmless(s.drop_last());
        if i < before.len() {
            lemma_harmless(s.drop_last(), i);
        } else {
            lemma_shown_char(s.last(), i - before.len());
        }
    }
}

/// Whatever a value holds, what is shown of it holds no control character: it
/// is one line and cannot repaint the terminal.
pub proof fn shown_values_are_harmless(vals: Seq<Seq<char>>, i: int)
    requires
        0 <= i < shown(vals).len(),
    ensures
        !is_control(shown(vals)[i]),
{
    let line = text::joined(text::words_of(text::joined(vals, " "@)), " "@);
    let s = harmless(line);
    reveal_strlit("…");
    lemma_fitting(s, 60);
    if vstd::utf8::encode_utf8(s).len() > 60 {
        let f = fitting(s, 60);
        if i < f.len() {
            assert(f[i] == s[i]);
            lemma_harmless(line, i);
        }
    } else {
        lemma_harmless(line, i);
    }
}

/// `s` holds no control character.
pub open spec fn is_plain(s: Seq<char>) -> bool {
    forall|i: int| 0 <= i < s.len() ==> !is_control(#[trigger] s[i])
}

/// `s` holds no control character but line breaks.
pub open spec fn is_plain_lines(s: Seq<char>) -> bool {
    forall|i: int| 0 <= i < s.len() ==> #[trigger] s[i] == '\n' || !is_control(s[i])
}

proof fn lemma_plain_add(a: Seq<char>, b: Seq<char>)
    requires
        is_plain(a),
        is_plain(b),
    ensures
        is_plain(a + b),
{
    assert forall|i: int| 0 <= i < (a + b).len() implies !is_control(#[trigger] (a + b)[i]) by {
        if i < a.len() {
            assert((a + b)[i] == a[i]);
        } else {
            assert((a + b)[i] == b[i - a.len()]);
        }
    }
}

proof fn lemma_plain_lines_add(a: Seq<char>, b: Seq<char>)
    requires
        is_plain_lines(a),
        is_plain_lines(b),
    ensures
        is_plain_lines(a + b),
{
    assert forall|i: int| 0 <= i < (a + b).len() implies #[trigger] (a + b)[i] == '\n'
        || !is_control((a + b)[i]) by {
        if i < a.len() {
            assert((a + b)[i] == a[i]);
        } else {
            assert((a + b)[i] == b[i - a.len()]);
        }
    }
}

proof fn lemma_plain_decimal(n: nat)
    ensures
        is_plain(text::decimal(n)),
    decreases n,
{
    if n >= 10 {
        lemma_plain_decimal(n / 10);
    }
}

proof fn lemma_plain_shown(vals: Seq<Seq<char>>)
    ensures
        is_plain(shown(vals)),
{
    assert forall|i: int| 0 <= i < shown(vals).len() implies !is_control(
        #[trigger] shown(vals)[i],
    ) by {
        shown_values_are_harmless(vals, i);
    }
}

proof fn lemma_plain_harmless(s: Seq<char>)
    ensures
        is_plain(harmless(s)),
{
    assert forall|i: int| 0 <= i < harmless(s).len() implies !is_control(
        #[trigger] harmless(s)[i],
    ) by {
        lemma_harmless(s, i);
    }
}

proof fn lemma_plain_what(kind: Kind, name: Seq<char>)
    requires
        is_plain(name),
    ensures
        is_plain(heading(kind, name)),
{
    reveal_strlit(" ");
    reveal_strlit("scalar");
    reveal_strlit("array");
    reveal_strlit("assoc");
    reveal_strlit("func");
    reveal_strlit("autoload");
    reveal_strlit("alias");
    reveal_strlit("galias");
    reveal_strlit("salias");
    reveal_strlit("compdef");
    let k = text::padded_right(state::kind_word(kind), 7);
    let n = text::padded_right(name, 24);
    assert(is_plain(state::kind_word(kind)));
    assert(is_plain(k));
    assert(is_plain(n));
    lemma_plain_add(k, " "@);
    lemma_plain_add(k + " "@, n);
    lemma_plain_add(k + " "@ + n, " "@);
}

proof fn lemma_plain_element(sign: char, i: int, e: Seq<char>)
    requires
        !is_control(sign),
    ensures
        is_plain(element_line(sign, i, e)),
{
    reveal_strlit("      ");
    reveal_strlit("  ");
    reveal_strlit(" ");
    let d = text::decimal((i + 1) as nat);
    lemma_plain_decimal((i + 1) as nat);
    lemma_plain_harmless(e);
    let p = text::padded_left(d, ' ', 3);
    assert(is_plain(p));
    lemma_plain_add("      "@, seq![sign]);
    lemma_plain_add("      "@ + seq![sign], " "@);
    lemma_plain_add("      "@ + seq![sign] + " "@, p);
    lemma_plain_add("      "@ + seq![sign] + " "@ + p, "  "@);
    lemma_plain_add("      "@ + seq![sign] + " "@ + p + "  "@, harmless(e));
}

proof fn lemma_plain_elements(
    v: Seq<Seq<char>>,
    kept: spec_fn(int) -> bool,
    sign: char,
    n: int,
    j: int,
)
    requires
        !is_control(sign),
        0 <= j < element_lines(v, kept, sign, n).len(),
    ensures
        is_plain(element_lines(v, kept, sign, n)[j]),
    decreases n,
{
    if n > 0 {
        if j < element_lines(v, kept, sign, n - 1).len() {
            lemma_plain_elements(v, kept, sign, n - 1, j);
        } else {
            lemma_plain_element(sign, n - 1, v[n - 1]);
        }
    }
}

proof fn lemma_plain_element_diff(old: Seq<Seq<char>>, new: Seq<Seq<char>>, j: int)
    requires
        0 <= j < element_diff_model(old, new).len(),
    ensures
        is_plain(element_diff_model(old, new)[j]),
{
    reveal_strlit("        (same elements; attributes changed)");
    let walk = lists::common_walk(lists::norms_of(old), lists::norms_of(new), 0, 0);
    let gone = |i: int| passed(walk, i);
    let come = |i: int| merge::anchored(walk, i);
    let first = element_lines(old, gone, '-', old.len() as int);
    let then = element_lines(new, come, '+', new.len() as int);
    if (first + then).len() > 0 {
        if j < first.len() {
            lemma_plain_elements(old, gone, '-', old.len() as int, j);
        } else {
            lemma_plain_elements(new, come, '+', new.len() as int, j - first.len());
        }
    }
}

proof fn lemma_plain_appended(lines: Seq<Seq<char>>)
    requires
        forall|j: int| 0 <= j < lines.len() ==> is_plain(#[trigger] lines[j]),
    ensures
        is_plain_lines(appended(lines)),
    decreases lines.len(),
{
    reveal_strlit("\n");
    if lines.len() > 0 {
        let before = lines.drop_last();
        assert forall|j: int| 0 <= j < before.len() implies is_plain(#[trigger] before[j]) by {
            assert(before[j] == lines[j]);
        }
        lemma_plain_appended(before);
        assert(is_plain(lines[lines.len() - 1]));
        lemma_plain_lines_add(appended(before), "\n"@);
        lemma_plain_lines_add(appended(before) + "\n"@, lines.last());
    }
}

/// Whatever the values of a change hold, its description cannot repaint the
/// terminal: it holds no control character but the line breaks before the
/// lines for the entries of a list, if the name holds none. Where no list is
/// edited it is one line.
pub proof fn descriptions_are_harmless(c: ChangeModel)
    requires
        is_plain(c.name),
    ensures
        is_plain_lines(description(c)),
        !(c.old is Some && c.new is Some && (c.kind == Kind::Array || c.kind == Kind::Assoc))
            ==> is_plain(description(c)),
{
    reveal_strlit("  ~ ");
    reveal_strlit("  + ");
    reveal_strlit("  - ");
    reveal_strlit("  ? ");
    reveal_strlit(" → ");
    reveal_strlit(" elements");
    let what = heading(c.kind, c.name);
    lemma_plain_what(c.kind, c.name);
    match (c.old, c.new) {
        (Some(old), Some(new)) => {
            lemma_plain_add("  ~ "@, what);
            if c.kind == Kind::Array || c.kind == Kind::Assoc {
                let a = text::decimal(old.len());
                let b = text::decimal(new.len());
                lemma_plain_decimal(old.len());
                lemma_plain_decimal(new.len());
                lemma_plain_add("  ~ "@ + what, a);
                lemma_plain_add("  ~ "@ + what + a, " → "@);
                lemma_plain_add("  ~ "@ + what + a + " → "@, b);
                lemma_plain_add("  ~ "@ + what + a + " → "@ + b, " elements"@);
                let lines = element_diff_model(old, new);
                assert forall|j: int| 0 <= j < lines.len() implies is_plain(
                    #[trigger] lines[j],
                ) by {
                    lemma_plain_element_diff(old, new, j);
                }
                lemma_plain_appended(lines);
                lemma_plain_lines_add(
                    "  ~ "@ + what + a + " → "@ + b + " elements"@,
                    appended(lines),
                );
            } else {
                lemma_plain_shown(old);
                lemma_plain_shown(new);
                lemma_plain_add("  ~ "@ + what, shown(old));
                lemma_plain_add("  ~ "@ + what + shown(old), " → "@);
                lemma_plain_add("  ~ "@ + what + shown(old) + " → "@, shown(new));
            }
        },
        (None, Some(new)) => {
            lemma_plain_shown(new);
            lemma_plain_add("  + "@, what);
            lemma_plain_add("  + "@ + what, shown(new));
        },
        (Some(old), None) => {
            lemma_plain_shown(old);
            lemma_plain_add("  - "@, what);
            lemma_plain_add("  - "@ + what, shown(old));
        },
        (None, None) => {
            lemma_plain_add("  ? "@, what);
        },
    }
}

proof fn lemma_no_element_lines(
    v: Seq<Seq<char>>,
    kept: spec_fn(int) -> bool,
    sign: char,
    n: int,
)
    requires
        0 <= n,
    ensures
        element_lines(v, kept, sign, n).len() == 0 <==> forall|i: int|
            0 <= i < n ==> #[trigger] kept(i),
    decreases n,
{
    if n > 0 {
        lemma_no_element_lines(v, kept, sign, n - 1);
        if kept(n - 1) && (forall|i: int| 0 <= i < n - 1 ==> #[trigger] kept(i)) {
            assert(forall|i: int| 0 <= i < n ==> #[trigger] kept(i));
        }
    }
}

/// A walk that passes through every place of both lists goes along the
/// diagonal.
proof fn lemma_full_walk(walk: Seq<(int, int)>, a: Seq<Seq<char>>, b: Seq<Seq<char>>, k: int)
    requires
        lists::is_common(a, b, 0, 0, walk),
        forall|i: int| 0 <= i < a.len() ==> #[trigger] passed(walk, i),
        forall|j: int| 0 <= j < b.len() ==> #[trigger] merge::anchored(walk, j),
        0 <= k < walk.len(),
    ensures
        walk[k] == (k, k),
    decreases k,
{
    if k > 0 {
        lemma_full_walk(walk, a, b, k - 1);
        assert(walk[k - 1].0 < walk[k].0 && walk[k - 1].1 < walk[k].1);
    }
    assert(walk[k].0 >= k && walk[k].1 >= k);
    if walk[k].0 > k {
        assert(passed(walk, k));
        let q = choose|q: int| 0 <= q < walk.len() && (#[trigger] walk[q]).0 == k;
        if q < k {
            assert(walk[q].0 <= walk[k - 1].0);
            if q < k - 1 {
                assert(walk[q].0 < walk[k - 1].0);
            }
        } else if q > k {
            assert(walk[k].0 < walk[q].0);
        }
    }
    if walk[k].1 > k {
        assert(merge::anchored(walk, k));
        let q = choose|q: int| 0 <= q < walk.len() && (#[trigger] walk[q]).1 == k;
        if q < k {
            if q < k - 1 {
                assert(walk[q].1 < walk[k - 1].1);
            }
        } else if q > k {
            assert(walk[k].1 < walk[q].1);
        }
    }
}

proof fn lemma_passed_along_itself(x: Seq<Seq<char>>, i: int, j: int)
    requires
        0 <= i <= j < x.len(),
    ensures
        passed(lists::common_walk(x, x, i, i), j),
    decreases x.len() - i,
{
    let walk = lists::common_walk(x, x, i, i);
    assert(walk[0] == (i, i));
    if i < j {
        lemma_passed_along_itself(x, i + 1, j);
        let rest = lists::common_walk(x, x, i + 1, i + 1);
        let q = choose|q: int| 0 <= q < rest.len() && (#[trigger] rest[q]).0 == j;
        assert(walk[q + 1] == rest[q]);
    }
}

/// No line tells of an entry exactly when the two lists hold the same entries
/// in the same order; what differs is spelling or attributes.
pub proof fn no_lines_iff_same_entries(old: Seq<Seq<char>>, new: Seq<Seq<char>>)
    ensures
        ({
            let walk = lists::common_walk(lists::norms_of(old), lists::norms_of(new), 0, 0);
            element_lines(old, |i: int| passed(walk, i), '-', old.len() as int).len() == 0
                && element_lines(
                new,
                |i: int| merge::anchored(walk, i),
                '+',
                new.len() as int,
            ).len() == 0
        }) <==> lists::norms_of(old) == lists::norms_of(new),
{
    let a = lists::norms_of(old);
    let b = lists::norms_of(new);
    let walk = lists::common_walk(a, b, 0, 0);
    let gone = |i: int| passed(walk, i);
    let come = |i: int| merge::anchored(walk, i);
    lists::common_walk_is_common(a, b, 0, 0);
    lemma_no_element_lines(old, gone, '-', old.len() as int);
    lemma_no_element_lines(new, come, '+', new.len() as int);
    if (forall|i: int| 0 <= i < old.len() ==> #[trigger] gone(i)) && (forall|i: int|
        0 <= i < new.len() ==> #[trigger] come(i)) {
        assert forall|i: int| 0 <= i < a.len() implies #[trigger] passed(walk, i) by {
            assert(gone(i));
        }
        assert forall|j: int| 0 <= j < b.len() implies #[trigger] merge::anchored(walk, j) by {
            assert(come(j));
        }
        assert forall|k: int| 0 <= k < walk.len() implies #[trigger] walk[k] == (k, k) by {
            lemma_full_walk(walk, a, b, k);
        }
        if a.len() > 0 {
            assert(passed(walk, a.len() - 1));
            let q = choose|q: int| 0 <= q < walk.len() && (#[trigger] walk[q]).0 == a.len() - 1;
            assert(walk[q] == (q, q));
        }
        if b.len() > 0 {
            assert(merge::anchored(walk, b.len() - 1));
            let q = choose|q: int| 0 <= q < walk.len() && (#[trigger] walk[q]).1 == b.len() - 1;
            assert(walk[q] == (q, q));
        }
        if walk.len() > 0 {
            assert(walk[walk.len() - 1] == (walk.len() - 1, walk.len() - 1));
        }
        assert forall|k: int| 0 <= k < a.len() implies a[k] == b[k] by {
            assert(walk[k] == (k, k));
            assert(a[walk[k].0] == b[walk[k].1]);
        }
        assert(a =~= b);
    }
    if a == b {
        assert(a.len() == old.len() && b.len() == new.len());
        assert forall|i: int| 0 <= i < old.len() implies #[trigger] gone(i) by {
            lemma_passed_along_itself(a, 0, i);
        }
        assert forall|i: int| 0 <= i < new.len() implies #[trigger] come(i) by {
            crate::merge_laws::lemma_walk_along_itself(a, 0, i);
        }
    }
}

} // verus!
