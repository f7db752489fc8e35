//! What prints are good for: whatever moves is noticed, and nothing else is.

use crate::paths;
use crate::prints::{self, Probe, ProbeModel};
use crate::store::Meta;
use crate::table;
use crate::text;
use crate::tracking;
use crate::wire_laws;
use vstd::prelude::*;
use vstd::string::*;

verus! {

// --- digests ------------------------------------------------------------------

/// The value of a hexadecimal digit.
pub open spec fn hex_value(c: char) -> int {
    if '0' <= c <= '9' {
        c as int - 48
    } else {
        c as int - 87
    }
}

/// Two digits stand for each byte, the higher one first, and they are the usual
/// ones.
pub proof fn hex_spells_every_byte(bytes: Seq<u8>, i: int)
    requires
        0 <= i < bytes.len(),
    ensures
        prints::hex_of(bytes).len() == 2 * bytes.len(),
        ({
            let a = prints::hex_of(bytes)[2 * i];
            let b = prints::hex_of(bytes)[2 * i + 1];
            &&& '0' <= a <= '9' || 'a' <= a <= 'f'
            &&& '0' <= b <= '9' || 'a' <= b <= 'f'
            &&& 16 * hex_value(a) + hex_value(b) == bytes[i]
        }),
    decreases bytes.len(),
{
    let front = bytes.drop_last();
    lemma_hex_len(front);
    if i < front.len() {
        hex_spells_every_byte(front, i);
    } else {
        let n = bytes.last();
        assert(n as int / 16 < 16);
    }
}

proof fn lemma_hex_len(bytes: Seq<u8>)
    ensures
        prints::hex_of(bytes).len() == 2 * bytes.len(),
    decreases bytes.len(),
{
    if bytes.len() > 0 {
        lemma_hex_len(bytes.drop_last());
    }
}

/// Different bytes are spelled differently.
pub proof fn hex_is_injective(a: Seq<u8>, b: Seq<u8>)
    requires
        prints::hex_of(a) == prints::hex_of(b),
    ensures
        a == b,
{
    lemma_hex_len(a);
    lemma_hex_len(b);
    assert forall|i: int| 0 <= i < a.len() implies a[i] == b[i] by {
        hex_spells_every_byte(a, i);
        hex_spells_every_byte(b, i);
    }
    assert(a =~= b);
}

/// A file that was read has the digest of all of its bytes, and one that was
/// not has none. So two files have the same digest only if SHA-256 gives the
/// same for both.
pub proof fn digests_cover_the_whole_file(a: Seq<u8>, b: Seq<u8>)
    ensures
        prints::digest_of(Some(a)) == Some(prints::hex_of(prints::sha256_of(a))),
        prints::digest_of(None) is None,
        prints::digest_of(Some(a)) == prints::digest_of(Some(b)) <==> prints::sha256_of(a)
            == prints::sha256_of(b),
{
    if prints::digest_of(Some(a)) == prints::digest_of(Some(b)) {
        hex_is_injective(prints::sha256_of(a), prints::sha256_of(b));
    }
}

// --- fingerprints -------------------------------------------------------------

/// A small command goes by its content alone, as a file does.
pub proof fn scripts_go_by_their_content(p: ProbeModel)
    requires
        p.len < 16384,
    ensures
        prints::fingerprint_of(Some(p)) == prints::digest_of(p.content),
{
}

/// A command that is not there has no fingerprint, and neither has a large one
/// whose time is not known; every other large one has.
pub proof fn programs_have_fingerprints(p: ProbeModel)
    requires
        p.len >= 16384,
    ensures
        prints::fingerprint_of(Some(p)) is Some <==> p.modified is Some,
        prints::fingerprint_of(None) is None,
{
}

proof fn lemma_no_blank(n: nat, i: int)
    requires
        0 <= i < text::decimal(n).len(),
    ensures
        text::decimal(n)[i] != ' ',
{
    wire_laws::lemma_decimal_digits(n);
    assert(text::is_digit(text::decimal(n)[i]));
}

/// What stands behind the last blank of two equal texts is equal, and so is
/// what stands before it.
proof fn lemma_last_blank(a: Seq<char>, x: Seq<char>, b: Seq<char>, y: Seq<char>)
    requires
        a + " "@ + x == b + " "@ + y,
        forall|i: int| 0 <= i < x.len() ==> #[trigger] x[i] != ' ',
        forall|i: int| 0 <= i < y.len() ==> #[trigger] y[i] != ' ',
    ensures
        a == b,
        x == y,
{
    reveal_strlit(" ");
    let s = a + " "@ + x;
    let t = b + " "@ + y;
    assert(s.len() == a.len() + 1 + x.len());
    assert(t.len() == b.len() + 1 + y.len());
    assert(s[a.len() as int] == ' ');
    assert(t[b.len() as int] == ' ');
    if a.len() < b.len() {
        assert(s[b.len() as int] == x[b.len() - a.len() - 1]);
    }
    if b.len() < a.len() {
        assert(t[a.len() as int] == y[a.len() - b.len() - 1]);
    }
    assert(a =~= s.take(a.len() as int));
    assert(b =~= t.take(b.len() as int));
    assert(x =~= s.skip(1int + a.len()));
    assert(y =~= t.skip(1int + b.len()));
}

/// An upgrade of a program is noticed: its fingerprint stays the same only if
/// where it leads to, its size and its time all do.
pub proof fn upgrades_are_noticed(p: ProbeModel, q: ProbeModel)
    requires
        p.len >= 16384,
        q.len >= 16384,
        p.modified is Some,
        q.modified is Some,
    ensures
        prints::fingerprint_of(Some(p)) == prints::fingerprint_of(Some(q)) <==> p.target == q.target
            && p.len == q.len && p.modified == q.modified,
{
    let a = text::decimal(p.len as nat);
    let b = text::decimal(q.len as nat);
    let x = text::decimal(p.modified->0 as nat);
    let y = text::decimal(q.modified->0 as nat);
    if prints::fingerprint_of(Some(p)) == prints::fingerprint_of(Some(q)) {
        assert forall|i: int| 0 <= i < x.len() implies #[trigger] x[i] != ' ' by {
            lemma_no_blank(p.modified->0 as nat, i);
        }
        assert forall|i: int| 0 <= i < y.len() implies #[trigger] y[i] != ' ' by {
            lemma_no_blank(q.modified->0 as nat, i);
        }
        assert forall|i: int| 0 <= i < a.len() implies #[trigger] a[i] != ' ' by {
            lemma_no_blank(p.len as nat, i);
        }
        assert forall|i: int| 0 <= i < b.len() implies #[trigger] b[i] != ' ' by {
            lemma_no_blank(q.len as nat, i);
        }
        assert((p.target + " "@ + a) + " "@ + x == (q.target + " "@ + b) + " "@ + y);
        lemma_last_blank(p.target + " "@ + a, x, q.target + " "@ + b, y);
        lemma_last_blank(p.target, a, q.target, b);
        wire_laws::lemma_decimal_digits(p.len as nat);
        wire_laws::lemma_decimal_digits(q.len as nat);
        wire_laws::lemma_decimal_digits(p.modified->0 as nat);
        wire_laws::lemma_decimal_digits(q.modified->0 as nat);
    }
}

// --- tables -------------------------------------------------------------------

/// `f` is the path `p` with a print.
pub open spec fn prints_path(f: (Seq<char>, Option<Seq<char>>), p: Seq<char>) -> bool {
    f.0 == p && f.1 is Some
}

/// A table holds just the paths that were recorded with a print.
pub proof fn tables_hold_what_has_a_print(
    files: Seq<(Seq<char>, Option<Seq<char>>)>,
    p: Seq<char>,
)
    ensures
        prints::recorded(files).contains_key(p) <==> exists|i: int|
            0 <= i < files.len() && prints_path(#[trigger] files[i], p),
    decreases files.len(),
{
    if files.len() > 0 {
        let front = files.drop_last();
        tables_hold_what_has_a_print(front, p);
        if prints::recorded(front).contains_key(p) {
            let i = choose|i: int| 0 <= i < front.len() && prints_path(#[trigger] front[i], p);
            assert(prints_path(files[i], p));
        } else if prints::recorded(files).contains_key(p) {
            assert(prints_path(files[files.len() - 1], p));
        }
        if exists|i: int| 0 <= i < files.len() && prints_path(#[trigger] files[i], p) {
            let i = choose|i: int| 0 <= i < files.len() && prints_path(#[trigger] files[i], p);
            if i < front.len() {
                assert(prints_path(front[i], p));
            }
        }
    }
}

/// A table holds the last print that a path was recorded with.
pub proof fn tables_hold_the_last_print(
    files: Seq<(Seq<char>, Option<Seq<char>>)>,
    p: Seq<char>,
    i: int,
)
    requires
        0 <= i < files.len(),
        prints_path(files[i], p),
        forall|j: int| i < j < files.len() ==> !prints_path(#[trigger] files[j], p),
    ensures
        prints::recorded(files)[p] == files[i].1->0,
    decreases files.len(),
{
    let front = files.drop_last();
    if i < front.len() {
        assert forall|j: int| i < j < front.len() implies !prints_path(#[trigger] front[j], p) by {
            assert(!prints_path(files[j], p));
        }
        tables_hold_the_last_print(front, p, i);
        tables_hold_what_has_a_print(front, p);
        assert(prints_path(front[i], p));
        assert(!prints_path(files[files.len() - 1], p));
    }
}

/// What is recorded of a sourced file is its path and the digest of what it
/// holds; a device, or what could not be read, gets no print.
pub proof fn sources_are_recorded_by_content(files: Seq<(String, Option<Vec<u8>>)>, i: int)
    requires
        0 <= i < files.len(),
    ensures
        prints::source_prints(files).len() == files.len(),
        prints::source_prints(files)[i].0 == files[i].0@,
        prints::source_prints(files)[i].1 is None <==> files[i].1 is None || paths::is_device(
            files[i].0@,
        ),
        files[i].1 is Some && !paths::is_device(files[i].0@) ==> prints::source_prints(files)[i].1
            == Some(prints::hex_of(prints::sha256_of(files[i].1->0@))),
{
}

/// What is recorded of a command is its path and its fingerprint.
pub proof fn commands_are_recorded_by_fingerprint(files: Seq<(String, Option<Probe>)>, i: int)
    requires
        0 <= i < files.len(),
    ensures
        prints::command_prints(files).len() == files.len(),
        prints::command_prints(files)[i].0 == files[i].0@,
        prints::command_prints(files)[i].1 == prints::fingerprint_of(
            prints::optional_probe(files[i].1),
        ),
        files[i].1 is None ==> prints::command_prints(files)[i].1 is None,
        files[i].1 is Some ==> prints::command_prints(files)[i].1 == prints::fingerprint_of(
            Some(files[i].1->0@),
        ),
{
}

/// The lines on two tables: `~` for each path whose print is different, `+` for
/// each that is new, `-` for each that is gone, and no other line.
pub proof fn lines_tell_every_move(
    was: Seq<(Seq<char>, Seq<char>)>,
    now: Seq<(Seq<char>, Seq<char>)>,
    p: Seq<char>,
)
    requires
        table::ascending::<String, Seq<char>>(was),
        table::ascending::<String, Seq<char>>(now),
    ensures
        ({
            let w = table::row_map(was);
            let n = table::row_map(now);
            let lines = prints::moved_lines(w, now) + prints::gone_lines(was, n);
            &&& lines.contains("~ "@ + p) <==> w.contains_key(p) && n.contains_key(p) && w[p] != n[p]
            &&& lines.contains("+ "@ + p) <==> !w.contains_key(p) && n.contains_key(p)
            &&& lines.contains("- "@ + p) <==> w.contains_key(p) && !n.contains_key(p)
        }),
{
    reveal_strlit("~ ");
    reveal_strlit("+ ");
    reveal_strlit("- ");
    let w = table::row_map(was);
    let n = table::row_map(now);
    let moved = |r: (Seq<char>, Seq<char>)| !(w.contains_key(r.0) && w[r.0] == r.1);
    let say = |r: (Seq<char>, Seq<char>)|
        (if w.contains_key(r.0) {
            "~ "@
        } else {
            "+ "@
        }) + r.0;
    let gone = |r: (Seq<char>, Seq<char>)| !n.contains_key(r.0);
    let tell = |r: (Seq<char>, Seq<char>)| "- "@ + r.0;
    let m = now.filter(moved);
    let g = was.filter(gone);
    let a = prints::moved_lines(w, now);
    let b = prints::gone_lines(was, n);
    let lines = a + b;
    assert(a =~= m.map_values(say));
    assert(b =~= g.map_values(tell));
    // What a line tells.
    assert forall|i: int| 0 <= i < a.len() implies {
        let q = (#[trigger] a[i]).skip(2);
        &&& n.contains_key(q)
        &&& a[i] == (if w.contains_key(q) { "~ "@ } else { "+ "@ }) + q
        &&& w.contains_key(q) ==> w[q] != n[q]
    } by {
        let j = text::lemma_filter_source(now, moved, i);
        table::lemma_row_found::<String, Seq<char>>(now, j);
        assert(a[i].skip(2) =~= now[j].0);
    }
    assert forall|i: int| 0 <= i < b.len() implies {
        let q = (#[trigger] b[i]).skip(2);
        &&& w.contains_key(q)
        &&& !n.contains_key(q)
        &&& b[i] == "- "@ + q
    } by {
        let j = text::lemma_filter_source(was, gone, i);
        table::lemma_row_found::<String, Seq<char>>(was, j);
        assert(b[i].skip(2) =~= was[j].0);
    }
    assert(("~ "@ + p).skip(2) =~= p);
    assert(("+ "@ + p).skip(2) =~= p);
    assert(("- "@ + p).skip(2) =~= p);
    assert(("~ "@ + p)[0] == '~' && ("+ "@ + p)[0] == '+' && ("- "@ + p)[0] == '-');
    assert forall|l: Seq<char>| #[trigger] lines.contains(l) implies a.contains(l) || b.contains(l) by {
        let i = choose|i: int| 0 <= i < lines.len() && lines[i] == l;
        if i < a.len() {
            assert(a[i] == l);
        } else {
            assert(b[i - a.len()] == l);
        }
    }
    assert forall|i: int| 0 <= i < a.len() implies lines.contains(#[trigger] a[i]) by {
        assert(lines[i] == a[i]);
    }
    assert forall|i: int| 0 <= i < b.len() implies lines.contains(#[trigger] b[i]) by {
        assert(lines[a.len() + i] == b[i]);
    }
    // Every move has its line.
    if n.contains_key(p) && !(w.contains_key(p) && w[p] == n[p]) {
        let j = choose|j: int| 0 <= j < now.len() && (#[trigger] now[j]).0 == p;
        table::lemma_row_found::<String, Seq<char>>(now, j);
        assert(moved(now[j]));
        now.lemma_filter_contains(moved, j);
        let i = choose|i: int| 0 <= i < m.len() && m[i] == now[j];
        assert(a[i] == say(now[j]));
        assert(lines.contains(a[i]));
    }
    if w.contains_key(p) && !n.contains_key(p) {
        let j = choose|j: int| 0 <= j < was.len() && (#[trigger] was[j]).0 == p;
        assert(gone(was[j]));
        was.lemma_filter_contains(gone, j);
        let i = choose|i: int| 0 <= i < g.len() && g[i] == was[j];
        assert(b[i] == tell(was[j]));
        assert(lines.contains(b[i]));
    }
}

// --- what has moved -----------------------------------------------------------

/// What is named as moved is tracked, its print is not what was recorded, and
/// everything before it still has its print.
pub proof fn the_first_move_is_named(
    rows: Seq<(Seq<char>, Seq<char>)>,
    now: Seq<Option<Seq<char>>>,
) -> (i: int)
    requires
        tracking::first_moved(rows, now) is Some,
    ensures
        0 <= i < rows.len(),
        tracking::first_moved(rows, now) == Some(rows[i].0),
        now[i] != Some(rows[i].1),
        forall|j: int| 0 <= j < i ==> now[j] == Some((#[trigger] rows[j]).1),
    decreases rows.len(),
{
    let front = rows.drop_last();
    if tracking::first_moved(front, now) is Some {
        let i = the_first_move_is_named(front, now);
        assert forall|j: int| 0 <= j < i implies now[j] == Some((#[trigger] rows[j]).1) by {
            assert(front[j] == rows[j]);
        }
        i
    } else {
        tracking::nothing_moved_iff_all_match(front, now);
        assert forall|j: int| 0 <= j < rows.len() - 1 implies now[j] == Some(
            (#[trigger] rows[j]).1,
        ) by {
            assert(front[j] == rows[j]);
        }
        rows.len() - 1
    }
}

/// Files are looked at before commands: a command is named only if no file has
/// moved, and nothing is named only if neither has.
pub proof fn files_are_named_before_commands(
    meta: Meta,
    files: Seq<Option<Seq<char>>>,
    commands: Seq<Option<Seq<char>>>,
)
    ensures
        ({
            let f = tracking::first_moved(meta.sources.rows(), files);
            let c = tracking::first_moved(meta.commands.rows(), commands);
            let d = tracking::moved_dep(meta, files, commands);
            &&& f is Some ==> d == f
            &&& f is None ==> d == c
        }),
{
}

/// Nothing has moved only if every tracked file still holds the bytes that were
/// recorded, as far as SHA-256 tells them apart; and every tracked file that
/// holds other bytes, or cannot be read, counts as moved.
pub proof fn edits_are_noticed(
    rows: Seq<(Seq<char>, Seq<char>)>,
    files: Seq<Option<Vec<u8>>>,
    recorded: Seq<u8>,
    i: int,
)
    requires
        0 <= i < rows.len(),
        files.len() == rows.len(),
        prints::digest_of(Some(recorded)) == Some(rows[i].1),
        files[i] is None || prints::sha256_of(files[i]->0@) != prints::sha256_of(recorded),
    ensures
        tracking::first_moved(rows, tracking::digests_now(files)) is Some,
{
    let now = tracking::digests_now(files);
    tracking::nothing_moved_iff_all_match(rows, now);
    if files[i] is Some {
        digests_cover_the_whole_file(files[i]->0@, recorded);
    }
    if tracking::first_moved(rows, now) is None {
        assert(now[i] == Some(rows[i].1));
    }
}

/// A file that was touched but holds the same bytes has not moved.
pub proof fn touching_moves_nothing(
    rows: Seq<(Seq<char>, Seq<char>)>,
    files: Seq<Option<Vec<u8>>>,
    recorded: Seq<Seq<u8>>,
)
    requires
        files.len() == rows.len(),
        recorded.len() == rows.len(),
        forall|i: int|
            0 <= i < rows.len() ==> prints::digest_of(Some(#[trigger] recorded[i])) == Some(
                rows[i].1,
            ) && files[i] is Some && files[i]->0@ == recorded[i],
    ensures
        tracking::first_moved(rows, tracking::digests_now(files)) is None,
{
    let now = tracking::digests_now(files);
    assert forall|i: int| 0 <= i < rows.len() implies now[i] == Some((#[trigger] rows[i]).1) by {
        assert(prints::digest_of(Some(recorded[i])) == Some(rows[i].1));
        assert(now[i] == prints::digest_of(prints::optional_bytes(files[i])));
    }
    tracking::nothing_moved_iff_all_match(rows, now);
}

/// The prints of commands as they are now are the fingerprints of the commands.
pub proof fn commands_are_looked_at_one_by_one(files: Seq<Option<Probe>>, i: int)
    requires
        0 <= i < files.len(),
    ensures
        tracking::fingerprints_now(files).len() == files.len(),
        files[i] is None ==> tracking::fingerprints_now(files)[i] is None,
        files[i] is Some ==> tracking::fingerprints_now(files)[i] == prints::fingerprint_of(
            Some(files[i]->0@),
        ),
{
}

// --- the digest of what is tracked ----------------------------------------------

spec fn without_nul(s: Seq<char>) -> bool {
    forall|i: int| 0 <= i < s.len() ==> #[trigger] s[i] != '\0'
}

/// A print, if there is one, holds no NUL.
pub open spec fn free_of_nul(p: Option<Seq<char>>) -> bool {
    forall|i: int|
        0 <= i < tracking::print_or_empty(p).len() ==> #[trigger] tracking::print_or_empty(p)[i]
            != '\0'
}

proof fn lemma_last_nul(a: Seq<char>, x: Seq<char>, b: Seq<char>, y: Seq<char>)
    requires
        a + "\0"@ + x + "\n"@ == b + "\0"@ + y + "\n"@,
        without_nul(x),
        without_nul(y),
    ensures
        a == b,
        x == y,
{
    reveal_strlit("\0");
    reveal_strlit("\n");
    let s = a + "\0"@ + x + "\n"@;
    let t = b + "\0"@ + y + "\n"@;
    assert(s.len() == a.len() + 2 + x.len());
    assert(t.len() == b.len() + 2 + y.len());
    assert(s[a.len() as int] == '\0');
    assert(t[b.len() as int] == '\0');
    if a.len() < b.len() {
        assert(s[b.len() as int] == x[b.len() - a.len() - 1]);
    }
    if b.len() < a.len() {
        assert(t[a.len() as int] == y[a.len() - b.len() - 1]);
    }
    assert(a =~= s.take(a.len() as int));
    assert(b =~= t.take(b.len() as int));
    assert(x =~= s.subrange(1int + a.len(), s.len() - 1));
    assert(y =~= t.subrange(1int + b.len(), t.len() - 1));
}

/// The text of the prints tells every print: two sets of prints of what is
/// tracked have the same text only if each print is the same. No print holds a
/// NUL.
pub proof fn print_texts_tell_every_print(
    rows: Seq<(Seq<char>, Seq<char>)>,
    a: Seq<Option<Seq<char>>>,
    b: Seq<Option<Seq<char>>>,
    i: int,
)
    requires
        0 <= i < rows.len(),
        a.len() == rows.len(),
        b.len() == rows.len(),
        forall|j: int| 0 <= j < rows.len() ==> free_of_nul(#[trigger] a[j]),
        forall|j: int| 0 <= j < rows.len() ==> free_of_nul(#[trigger] b[j]),
        tracking::print_lines(rows, a) == tracking::print_lines(rows, b),
    ensures
        tracking::print_or_empty(a[i]) == tracking::print_or_empty(b[i]),
    decreases rows.len(),
{
    let front = rows.drop_last();
    let n = front.len() as int;
    let x = tracking::print_or_empty(a[n]);
    let y = tracking::print_or_empty(b[n]);
    lemma_print_lines_take(front, a);
    lemma_print_lines_take(front, b);
    let p = tracking::print_lines(front, a) + rows.last().0;
    let q = tracking::print_lines(front, b) + rows.last().0;
    assert(free_of_nul(a[n]) && free_of_nul(b[n]));
    lemma_last_nul(p, x, q, y);
    if i < n {
        assert(tracking::print_lines(front, a) =~= p.take(p.len() - rows.last().0.len()));
        assert(tracking::print_lines(front, b) =~= q.take(q.len() - rows.last().0.len()));
        let c = a.drop_last();
        let d = b.drop_last();
        assert forall|j: int| 0 <= j < front.len() implies free_of_nul(#[trigger] c[j]) by {
            assert(c[j] == a[j]);
        }
        assert forall|j: int| 0 <= j < front.len() implies free_of_nul(#[trigger] d[j]) by {
            assert(d[j] == b[j]);
        }
        print_texts_tell_every_print(front, c, d, i);
    }
}

/// The lines of the first rows go by the prints of the first rows.
proof fn lemma_print_lines_take(rows: Seq<(Seq<char>, Seq<char>)>, now: Seq<Option<Seq<char>>>)
    requires
        now.len() == rows.len() + 1,
    ensures
        tracking::print_lines(rows, now) == tracking::print_lines(rows, now.drop_last()),
{
    lemma_print_lines_prefix(rows, now, now.drop_last());
}

proof fn lemma_print_lines_prefix(
    rows: Seq<(Seq<char>, Seq<char>)>,
    a: Seq<Option<Seq<char>>>,
    b: Seq<Option<Seq<char>>>,
)
    requires
        forall|i: int| 0 <= i < rows.len() ==> #[trigger] a[i] == b[i],
    ensures
        tracking::print_lines(rows, a) == tracking::print_lines(rows, b),
    decreases rows.len(),
{
    if rows.len() > 0 {
        lemma_print_lines_prefix(rows.drop_last(), a, b);
        assert(a[rows.len() - 1] == b[rows.len() - 1]);
    }
}

/// The digest of what is tracked is empty exactly if nothing is tracked, given
/// that a digest has 32 bytes; otherwise it is the digest of the text of all
/// prints, files and commands.
pub proof fn digests_cover_all_that_is_tracked(
    meta: Meta,
    files: Seq<Option<Seq<char>>>,
    commands: Seq<Option<Seq<char>>>,
)
    ensures
        meta.sources.rows().len() == 0 && meta.commands.rows().len() == 0 ==> tracking::digest_now(
            meta,
            files,
            commands,
        ).len() == 0,
        meta.sources.rows().len() > 0 || meta.commands.rows().len() > 0 ==> Some(
            tracking::digest_now(meta, files, commands),
        ) == prints::digest_of(
            Some(
                vstd::utf8::encode_utf8(
                    tracking::print_lines(meta.sources.rows(), files) + tracking::print_lines(
                        meta.commands.rows(),
                        commands,
                    ),
                ),
            ),
        ),
{
}

} // verus!
