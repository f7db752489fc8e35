//! What holds of what is told: nothing that matters is left out, and nothing
//! is told that is not so.

use crate::lists;
use crate::merge;
use crate::path_laws;
use crate::prints;
use crate::report::{self, Standing};
use crate::state::{self, ChangeModel, Kind};
use crate::text;
use vstd::prelude::*;
use vstd::string::*;

verus! {

pub(crate) proof fn lemma_part(a: Seq<char>, w: Seq<char>, b: Seq<char>)
    ensures
        text::has_part(a + w + b, w),
{
    let s = a + w + b;
    assert(s.subrange(0int + a.len(), 0int + a.len() + w.len()) =~= w);
    assert(text::occurs_at(s, w, 0int + a.len()));
}

// --- values -------------------------------------------------------------------

/// A count begins with the number. It ends with the thing itself if there is
/// one, and with its plural otherwise.
pub proof fn counts_agree_in_number(n: nat, thing: Seq<char>)
    ensures
        report::counted(n, thing) == text::decimal(n) + seq![' '] + (if n == 1 {
            thing
        } else {
            thing.push('s')
        }),
{
    reveal_strlit(" ");
    reveal_strlit("s");
    reveal_strlit("");
    assert(" "@ =~= seq![' ']);
    assert(report::counted(n, thing) =~= text::decimal(n) + seq![' '] + (if n == 1 {
        thing
    } else {
        thing.push('s')
    }));
}

/// A text is made harmless character by character: a control character turns
/// into a spelling that begins with a backslash, and any other stays.
pub proof fn texts_are_made_harmless_one_by_one(a: Seq<char>, b: Seq<char>, c: char)
    ensures
        report::harmless(a + b) == report::harmless(a) + report::harmless(b),
        !(c as int <= 0x1f || 0x7f <= c as int <= 0x9f) ==> report::harmless(seq![c]) == seq![c],
        c as int <= 0x1f || 0x7f <= c as int <= 0x9f ==> {
            let s = report::harmless(seq![c]);
            s.len() >= 2 && s[0] == '\\'
        },
        report::harmless(Seq::empty()).len() == 0,
    decreases b.len(),
{
    let f = |c: char| report::shown_char(c);
    reveal_with_fuel(text::spelled, 2);
    assert(seq![c].drop_last() =~= Seq::<char>::empty());
    assert(report::harmless(seq![c]) =~= report::shown_char(c));
    reveal_strlit("\\e");
    reveal_strlit("\\0");
    reveal_strlit("\\t");
    reveal_strlit("\\n");
    reveal_strlit("\\r");
    reveal_strlit("\\u{");
    reveal_strlit("}");
    if b.len() == 0 {
        assert(a + b =~= a);
        assert(report::harmless(a) + report::harmless(b) =~= report::harmless(a));
    } else {
        texts_are_made_harmless_one_by_one(a, b.drop_last(), c);
        assert((a + b).drop_last() =~= a + b.drop_last());
        assert((a + b).last() == b.last());
        assert(report::harmless(a + b) =~= report::harmless(a) + report::harmless(b));
    }
}

proof fn lemma_plain_stays(s: Seq<char>)
    requires
        report::is_plain(s),
    ensures
        report::harmless(s) == s,
    decreases s.len(),
{
    if s.len() > 0 {
        let b = s.drop_last();
        assert forall|i: int| 0 <= i < b.len() implies !report::is_control(#[trigger] b[i]) by {
            assert(b[i] == s[i]);
        }
        lemma_plain_stays(b);
        assert(!report::is_control(s[s.len() - 1]));
        assert(report::harmless(s) =~= s);
    } else {
        assert(report::harmless(s) =~= s);
    }
}

/// Values that are short together, words with single blanks between them and
/// without control characters, are all shown as they are.
pub proof fn short_plain_values_are_shown(vals: Seq<Seq<char>>)
    requires
        ({
            let v = text::joined(vals, " "@);
            &&& report::is_plain(v)
            &&& text::joined(text::words_of(v), " "@) == v
            &&& vstd::utf8::encode_utf8(v).len() <= 60
        }),
    ensures
        report::shown(vals) == text::joined(vals, " "@),
{
    lemma_plain_stays(text::joined(vals, " "@));
}

/// No two characters are shown alike, so what is shown can be told apart.
pub proof fn characters_are_shown_apart(c: char, d: char)
    requires
        c != d,
    ensures
        report::harmless(seq![c]) != report::harmless(seq![d]),
{
    lemma_shown_one(c);
    lemma_shown_one(d);
    lemma_shown_shape(c);
    lemma_shown_shape(d);
    let a = report::shown_char(c);
    let b = report::shown_char(d);
    if a == b {
        assert(a.len() == b.len());
        if a.len() > 2 {
            assert(a[3] == b[3]);
            if a.len() == 6 {
                assert(a[4] == b[4]);
            }
        }
    }
}

proof fn lemma_shown_one(c: char)
    ensures
        report::harmless(seq![c]) == report::shown_char(c),
{
    reveal_with_fuel(text::spelled, 2);
    assert(seq![c].drop_last() =~= Seq::<char>::empty());
    assert(report::harmless(seq![c]) =~= report::shown_char(c));
}

/// The second character of a short escape.
spec fn escape_letter(c: char) -> char {
    if c == '\u{1b}' {
        'e'
    } else if c == '\0' {
        '0'
    } else if c == '\t' {
        't'
    } else if c == '\n' {
        'n'
    } else {
        'r'
    }
}

proof fn lemma_shown_shape(c: char)
    ensures
        ({
            let s = report::shown_char(c);
            let n = c as int;
            let short = c == '\u{1b}' || c == '\0' || c == '\t' || c == '\n' || c == '\r';
            &&& !report::is_control(c) ==> s.len() == 1 && s[0] == c
            &&& short ==> s.len() == 2 && s[1] == escape_letter(c)
            &&& report::is_control(c) && !short && n < 16 ==> s.len() == 5 && s[3]
                == prints::hex_digit(n)
            &&& report::is_control(c) && !short && n >= 16 ==> s.len() == 6 && s[3]
                == prints::hex_digit(n / 16) && s[4] == prints::hex_digit(n % 16)
        }),
{
    reveal_strlit("\\e");
    reveal_strlit("\\0");
    reveal_strlit("\\t");
    reveal_strlit("\\n");
    reveal_strlit("\\r");
    reveal_strlit("\\u{");
    reveal_strlit("}");
}

/// What is clipped is the longest beginning that fits, with an ellipsis behind
/// it; what fits is not clipped.
pub proof fn clipping_keeps_what_fits(s: Seq<char>, room: int)
    requires
        room >= 0,
    ensures
        ({
            let f = report::fitting(s, room);
            &&& f.len() <= s.len()
            &&& f == s.take(f.len() as int)
            &&& vstd::utf8::encode_utf8(f).len() <= room
            &&& f.len() < s.len() ==> vstd::utf8::encode_utf8(f).len() + report::width(
                s[f.len() as int],
            ) > room
        }),
        vstd::utf8::encode_utf8(s).len() <= room ==> report::clipped(s, room) == s,
        vstd::utf8::encode_utf8(s).len() > room ==> report::clipped(s, room) == report::fitting(
            s,
            room,
        ) + seq!['…'],
    decreases s.len(),
{
    reveal_strlit("…");
    assert("…"@ =~= seq!['…']);
    let f = report::fitting(s, room);
    if s.len() == 0 || report::width(s[0]) > room {
        assert(f =~= s.take(0));
    } else {
        let t = s.drop_first();
        let left = room - report::width(s[0]);
        clipping_keeps_what_fits(t, left);
        let g = report::fitting(t, left);
        assert(f =~= seq![s[0]] + g);
        assert(f.drop_first() =~= g);
        assert(f[0] == s[0]);
        assert(f =~= s.take(f.len() as int));
        if f.len() < s.len() {
            assert(t[g.len() as int] == s[f.len() as int]);
        }
    }
}

// --- lists --------------------------------------------------------------------

/// There is a line for each entry whose place is not kept, in order, and there
/// is no other.
pub proof fn lines_tell_what_is_not_kept(
    v: Seq<Seq<char>>,
    kept: spec_fn(int) -> bool,
    sign: char,
    n: int,
    i: int,
)
    requires
        0 <= n <= v.len(),
    ensures
        0 <= i < n && !kept(i) ==> report::element_lines(v, kept, sign, n).contains(
            report::element_line(sign, i, v[i]),
        ),
        n > 0 ==> report::element_lines(v, kept, sign, n) == report::element_lines(
            v,
            kept,
            sign,
            n - 1,
        ) + (if kept(n - 1) {
            Seq::empty()
        } else {
            seq![report::element_line(sign, n - 1, v[n - 1])]
        }),
        report::element_lines(v, kept, sign, 0).len() == 0,
    decreases n,
{
    if n > 0 {
        let before = report::element_lines(v, kept, sign, n - 1);
        let all = report::element_lines(v, kept, sign, n);
        lines_tell_what_is_not_kept(v, kept, sign, n - 1, i);
        if kept(n - 1) {
            assert(all =~= before + Seq::<Seq<char>>::empty());
        } else {
            let l = report::element_line(sign, n - 1, v[n - 1]);
            assert(all =~= before + seq![l]);
            if 0 <= i < n && !kept(i) {
                if i == n - 1 {
                    assert(all[all.len() - 1] == l);
                } else {
                    let x = report::element_line(sign, i, v[i]);
                    let k = choose|k: int| 0 <= k < before.len() && before[k] == x;
                    assert(all[k] == x);
                }
            }
        }
    }
}

/// The line for an entry holds the sign, the place as it is counted from one,
/// and the entry.
pub proof fn lines_hold_sign_place_and_entry(sign: char, i: int, e: Seq<char>)
    requires
        i >= 0,
    ensures
        ({
            let l = report::element_line(sign, i, e);
            &&& l.len() > 6 && l[6] == sign
            &&& text::has_part(l, text::decimal((i + 1) as nat))
            &&& l.len() >= report::harmless(e).len()
            &&& l.skip(l.len() - report::harmless(e).len()) == report::harmless(e)
        }),
{
    reveal_strlit("      ");
    let l = report::element_line(sign, i, e);
    let d = text::decimal((i + 1) as nat);
    let h = report::harmless(e);
    let a = "      "@ + seq![sign] + " "@ + text::run_of(' ', 3 - d.len());
    let b = "  "@ + h;
    assert(l =~= a + d + b);
    lemma_part(a, d, b);
    assert(l.skip(l.len() - h.len()) =~= h);
}

/// An entry that only the new list has comes, and one that only the old list
/// has goes: each is told with its place.
pub proof fn what_comes_and_goes_is_told(old: Seq<Seq<char>>, new: Seq<Seq<char>>, i: int)
    ensures
        0 <= i < new.len() && !path_laws::occurs(old, lists::norm_of(new[i]))
            ==> report::element_diff_model(old, new).contains(
            report::element_line('+', i, new[i]),
        ),
        0 <= i < old.len() && !path_laws::occurs(new, lists::norm_of(old[i]))
            ==> report::element_diff_model(old, new).contains(
            report::element_line('-', i, old[i]),
        ),
{
    let x = lists::norms_of(old);
    let y = lists::norms_of(new);
    let walk = lists::common_walk(x, y, 0, 0);
    lists::common_walk_is_common(x, y, 0, 0);
    let gone = |i: int| report::passed(walk, i);
    let come = |i: int| merge::anchored(walk, i);
    let a = report::element_lines(old, gone, '-', old.len() as int);
    let b = report::element_lines(new, come, '+', new.len() as int);
    if 0 <= i < new.len() && !path_laws::occurs(old, lists::norm_of(new[i])) {
        if merge::anchored(walk, i) {
            let k = choose|k: int| 0 <= k < walk.len() && (#[trigger] walk[k]).1 == i;
            assert(x[walk[k].0] == y[i]);
            assert(lists::norm_of(old[walk[k].0]) == lists::norm_of(new[i]));
        }
        lines_tell_what_is_not_kept(new, come, '+', new.len() as int, i);
        let l = report::element_line('+', i, new[i]);
        let k = choose|k: int| 0 <= k < b.len() && b[k] == l;
        assert((a + b)[a.len() + k] == l);
    }
    if 0 <= i < old.len() && !path_laws::occurs(new, lists::norm_of(old[i])) {
        if report::passed(walk, i) {
            let k = choose|k: int| 0 <= k < walk.len() && (#[trigger] walk[k]).0 == i;
            assert(x[i] == y[walk[k].1]);
            assert(lists::norm_of(new[walk[k].1]) == lists::norm_of(old[i]));
        }
        lines_tell_what_is_not_kept(old, gone, '-', old.len() as int, i);
        let l = report::element_line('-', i, old[i]);
        let k = choose|k: int| 0 <= k < a.len() && a[k] == l;
        assert((a + b)[k] == l);
    }
}

// --- changes ------------------------------------------------------------------

/// A change is told with its kind, its name and a sign for what it does; what
/// it brings ends the line.
pub proof fn changes_are_told(c: ChangeModel)
    ensures
        ({
            let d = report::description(c);
            &&& d.len() > 4
            &&& c.old is None && c.new is Some ==> d[2] == '+'
            &&& c.old is Some && c.new is None ==> d[2] == '-'
            &&& c.old is Some && c.new is Some ==> d[2] == '~'
            &&& text::begins_with(d.skip(4), state::kind_word(c.kind))
            &&& text::has_part(d, c.name)
        }),
{
    reveal_strlit("  ~ ");
    reveal_strlit("  + ");
    reveal_strlit("  - ");
    reveal_strlit("  ? ");
    reveal_strlit(" ");
    let d = report::description(c);
    let w = state::kind_word(c.kind);
    let a = text::padded_right(w, 7) + " "@;
    let b = text::run_of(' ', 24 - c.name.len()) + " "@;
    let what = report::heading(c.kind, c.name);
    assert(what =~= a + c.name + b);
    let sign = d.take(4);
    let rest = d.skip(4int + what.len());
    assert(d =~= sign + what + rest);
    assert(d =~= (sign + a) + c.name + (b + rest));
    lemma_part(sign + a, c.name, b + rest);
    assert(d.skip(4) =~= what + rest);
    assert(d.skip(4).subrange(0, 0int + w.len()) =~= w);
}

/// What a change of a single value brings and takes is told.
pub proof fn values_are_told(c: ChangeModel)
    requires
        c.kind != Kind::Array && c.kind != Kind::Assoc || c.old is None || c.new is None,
    ensures
        c.new is Some ==> {
            let d = report::description(c);
            let v = report::shown(c.new->0);
            d.len() >= v.len() && d.skip(d.len() - v.len()) == v
        },
        c.old is Some ==> text::has_part(report::description(c), report::shown(c.old->0)),
{
    let d = report::description(c);
    let what = report::heading(c.kind, c.name);
    if c.new is Some {
        let v = report::shown(c.new->0);
        assert(d.skip(d.len() - v.len()) =~= v);
    }
    if c.old is Some {
        let v = report::shown(c.old->0);
        if c.new is Some {
            let t = " → "@ + report::shown(c.new->0);
            assert(d =~= ("  ~ "@ + what) + v + t);
            lemma_part("  ~ "@ + what, v, t);
        } else {
            assert(d =~= ("  - "@ + what) + v + Seq::<char>::empty());
            lemma_part("  - "@ + what, v, Seq::empty());
        }
    }
}

/// A list that changes is told with both lengths and every line of how it
/// differs.
pub proof fn list_changes_are_told(c: ChangeModel, i: int)
    requires
        c.kind == Kind::Array || c.kind == Kind::Assoc,
        c.old is Some,
        c.new is Some,
    ensures
        text::has_part(report::description(c), text::decimal((c.old->0).len())),
        text::has_part(report::description(c), text::decimal((c.new->0).len())),
        ({
            let lines = report::element_diff_model(c.old->0, c.new->0);
            0 <= i < lines.len() ==> text::has_part(report::description(c), lines[i])
        }),
{
    let d = report::description(c);
    let lines = report::element_diff_model(c.old->0, c.new->0);
    let head = "  ~ "@ + report::heading(c.kind, c.name);
    let x = text::decimal((c.old->0).len());
    let y = text::decimal((c.new->0).len());
    let tail = report::appended(lines);
    let after = " elements"@ + tail;
    assert(d =~= head + x + (" → "@ + y + after));
    lemma_part(head, x, " → "@ + y + after);
    assert(d =~= (head + x + " → "@) + y + after);
    lemma_part(head + x + " → "@, y, after);
    if 0 <= i < lines.len() {
        lemma_appended(lines, i);
        let k = choose|k: int| text::occurs_at(tail, lines[i], k);
        let p = d.len() - tail.len();
        assert(d.subrange(p + k, p + k + lines[i].len()) =~= tail.subrange(
            k,
            k + lines[i].len(),
        ));
        assert(text::occurs_at(d, lines[i], p + k));
    }
}

proof fn lemma_appended(lines: Seq<Seq<char>>, i: int)
    requires
        0 <= i < lines.len(),
    ensures
        text::has_part(report::appended(lines), lines[i]),
    decreases lines.len(),
{
    let front = report::appended(lines.drop_last());
    let all = report::appended(lines);
    if i == lines.len() - 1 {
        assert(all =~= (front + "\n"@) + lines[i] + Seq::<char>::empty());
        lemma_part(front + "\n"@, lines[i], Seq::empty());
    } else {
        lemma_appended(lines.drop_last(), i);
        assert(lines.drop_last()[i] == lines[i]);
        let k = choose|k: int| text::occurs_at(front, lines[i], k);
        assert(all.subrange(k, k + lines[i].len()) =~= front.subrange(k, k + lines[i].len()));
        assert(text::occurs_at(all, lines[i], k));
    }
}

/// An entry is shown with one line for each change, in order, behind a line
/// that holds the generation, the channel and the summary.
pub proof fn entries_are_shown_change_by_change(
    channel: Seq<char>,
    seq: u64,
    changes: Seq<ChangeModel>,
    i: int,
)
    ensures
        ({
            let lines = report::entry_lines(channel, seq, changes);
            &&& lines.len() == 1 + changes.len()
            &&& text::has_part(lines[0], text::decimal(seq as nat))
            &&& text::has_part(lines[0], channel)
            &&& text::has_part(lines[0], state::summary_model(changes))
            &&& 0 <= i < changes.len() ==> lines[i + 1] == report::description(changes[i])
        }),
{
    let d = text::decimal(seq as nat);
    let s = state::summary_model(changes);
    let l = report::entry_lines(channel, seq, changes)[0];
    let none = Seq::<char>::empty();
    assert(l =~= "gen "@ + d + (" (channel "@ + channel + "): "@ + s));
    lemma_part("gen "@, d, " (channel "@ + channel + "): "@ + s);
    assert(l =~= ("gen "@ + d + " (channel "@) + channel + ("): "@ + s));
    lemma_part("gen "@ + d + " (channel "@, channel, "): "@ + s);
    assert(l =~= ("gen "@ + d + " (channel "@ + channel + "): "@) + s + none);
    lemma_part("gen "@ + d + " (channel "@ + channel + "): "@, s, none);
}

// --- where a shell stands -----------------------------------------------------

/// `s` ends with `part`.
pub open spec fn ends_with(s: Seq<char>, part: Seq<char>) -> bool {
    s.len() >= part.len() && s.skip(s.len() - part.len()) == part
}

/// The first line says where the shell stands: on which channel, how far it is,
/// and how far the channel is. A shell at the head, or past it, is up to date;
/// otherwise what is pending is what lies between.
pub proof fn standings_are_told(channel: Seq<char>, s: Standing)
    ensures
        ({
            let line = report::standing_lines(channel, s)[0];
            let c = text::decimal(s.cursor as nat);
            let h = text::decimal(s.head as nat);
            &&& text::has_part(line, channel)
            &&& text::has_part(line, ": cursor "@ + c)
            &&& text::has_part(line, ", head "@ + h)
            &&& s.head <= s.cursor ==> ends_with(line, " (up to date)"@)
            &&& s.head > s.cursor ==> ends_with(
                line,
                " ("@ + text::decimal((s.head - s.cursor) as nat) + " pending)"@,
            )
        }),
{
    let c = ": cursor "@ + text::decimal(s.cursor as nat);
    let h = ", head "@ + text::decimal(s.head as nat);
    let tail = if s.head <= s.cursor {
        " (up to date)"@
    } else {
        " ("@ + text::decimal((s.head - s.cursor) as nat) + " pending)"@
    };
    let line = report::standing_lines(channel, s)[0];
    lemma_standing_line(line, channel, c, h, tail);
}

proof fn lemma_standing_line(
    line: Seq<char>,
    channel: Seq<char>,
    c: Seq<char>,
    h: Seq<char>,
    tail: Seq<char>,
)
    requires
        line =~= "channel "@ + channel + c + h + tail,
    ensures
        text::has_part(line, channel),
        text::has_part(line, c),
        text::has_part(line, h),
        ends_with(line, tail),
{
    let a = "channel "@;
    lemma_part(a, channel, c + h + tail);
    assert(line =~= a + channel + (c + h + tail));
    lemma_part(a + channel, c, h + tail);
    assert(line =~= (a + channel) + c + (h + tail));
    lemma_part(a + channel + c, h, tail);
    assert(line =~= (a + channel + c) + h + tail);
    assert(line.skip(line.len() - tail.len()) =~= tail);
}

/// There is one line more for each of: conflicts, being disabled, and having no
/// hook without ever having caught up. The one on conflicts lists them all.
pub proof fn troubles_are_told(channel: Seq<char>, s: Standing)
    ensures
        ({
            let lines = report::standing_lines(channel, s);
            &&& lines.len() == 1 + (if s.conflicts@.len() > 0 {
                1int
            } else {
                0
            }) + (if s.disabled {
                1int
            } else {
                0
            }) + (if s.cursor == 0 && !s.hooked {
                1int
            } else {
                0
            })
            &&& s.conflicts@.len() > 0 ==> ends_with(
                lines[1],
                text::replaced(s.conflicts@, ":"@, ", "@),
            )
        }),
{
    if s.conflicts@.len() > 0 {
        let r = text::replaced(s.conflicts@, ":"@, ", "@);
        let m = report::standing_lines(channel, s)[1];
        assert(m == "conflicts (local edits kept): "@ + r);
        assert(m.skip(m.len() - r.len()) =~= r);
    }
}

// --- the search path ----------------------------------------------------------

/// An entry of the search path is told with its place, and as published just if
/// the published list has it, under whatever spelling.
pub proof fn entries_are_told_by_where_they_come_from(
    published: Seq<Seq<char>>,
    i: int,
    e: Seq<char>,
)
    requires
        i >= 0,
    ensures
        ({
            let l = report::path_line(published, i, e);
            &&& text::has_part(l, e)
            &&& text::has_part(l, text::decimal((i + 1) as nat))
            &&& path_laws::occurs(published, lists::norm_of(e)) ==> l.len() >= 9 && l.skip(
                l.len() - 9,
            ) == "published"@
            &&& !path_laws::occurs(published, lists::norm_of(e)) ==> l.len() >= 5 && l.skip(
                l.len() - 5,
            ) == "local"@
        }),
{
    reveal_strlit("published");
    reveal_strlit("local");
    let l = report::path_line(published, i, e);
    let d = text::decimal((i + 1) as nat);
    let n = lists::norm_of(e);
    path_laws::lemma_occurs(published, n);
    let w = if lists::norms_of(published).contains(n) {
        "published"@
    } else {
        "local"@
    };
    let fill = text::run_of(' ', 2 - d.len());
    let tail = text::run_of(' ', 44 - e.len()) + " "@ + w;
    assert(l =~= ("  "@ + fill) + d + (". "@ + e + tail));
    lemma_part("  "@ + fill, d, ". "@ + e + tail);
    assert(l =~= ("  "@ + fill + d + ". "@) + e + tail);
    lemma_part("  "@ + fill + d + ". "@, e, tail);
    assert(l.skip(l.len() - w.len()) =~= w);
}

/// A path that is not published gets two lines. Otherwise there is a line for
/// each entry of what merging it again would give, in order, and one for each
/// note, behind the first.
pub proof fn paths_are_told_entry_by_entry(
    channel: Seq<char>,
    head: u64,
    published: Seq<Seq<char>>,
    ours: Seq<Seq<char>>,
    patterns: Seq<Seq<char>>,
    i: int,
)
    ensures
        ({
            let lines = report::path_lines(channel, head, published, ours, patterns);
            let list = path_laws::outcome(published, ours, published, patterns);
            &&& published.len() == 0 ==> lines.len() == 2
            &&& published.len() > 0 ==> lines.len() >= 1 + list.len()
            &&& published.len() > 0 && 0 <= i < list.len() ==> lines[1 + i] == report::path_line(
                published,
                i,
                list[i],
            )
            &&& text::has_part(lines[0], channel)
            &&& text::has_part(lines[0], text::decimal(head as nat))
        }),
{
    let none = Seq::<char>::empty();
    let d = text::decimal(head as nat);
    let l = report::path_lines(channel, head, published, ours, patterns)[0];
    assert(l =~= "channel "@ + channel + (", gen "@ + d));
    lemma_part("channel "@, channel, ", gen "@ + d);
    assert(l =~= ("channel "@ + channel + ", gen "@) + d + none);
    lemma_part("channel "@ + channel + ", gen "@, d, none);
}

} // verus!
