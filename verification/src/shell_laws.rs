//! What a shell makes of the code that it is handed: the words of each
//! statement, and so what a key holds once the statement has run.

use crate::payload;
use crate::payload_laws::Quoting;
use crate::state::{self, ChangeModel, Kind};
use crate::text;
use vstd::prelude::*;
use vstd::string::*;

verus! {

// --- words --------------------------------------------------------------------

/// How far a shell has read a line: the words that it has read, the word that
/// it is reading, and whether there is one. Blanks part words, quotes do not.
pub struct Line {
    pub words: Seq<Seq<char>>,
    pub word: Seq<char>,
    pub inside: bool,
    pub mode: Quoting,
}

/// A line before anything was read.
pub open spec fn new_line() -> Line {
    Line { words: Seq::empty(), word: Seq::empty(), inside: false, mode: Quoting::Bare }
}

/// One character more.
pub open spec fn read_char(l: Line, c: char) -> Line {
    match l.mode {
        Quoting::Escaped => Line { word: l.word.push(c), inside: true, mode: Quoting::Bare, ..l },
        Quoting::Quoted => if c == '\'' {
            Line { mode: Quoting::Bare, ..l }
        } else {
            Line { word: l.word.push(c), ..l }
        },
        Quoting::Bare => if c == '\'' {
            Line { inside: true, mode: Quoting::Quoted, ..l }
        } else if c == '\\' {
            Line { inside: true, mode: Quoting::Escaped, ..l }
        } else if c == ' ' {
            if l.inside {
                Line {
                    words: l.words.push(l.word),
                    word: Seq::empty(),
                    inside: false,
                    mode: Quoting::Bare,
                }
            } else {
                l
            }
        } else {
            Line { word: l.word.push(c), inside: true, ..l }
        },
    }
}

/// The line after `s` as well.
pub open spec fn read_on(l: Line, s: Seq<char>) -> Line
    decreases s.len(),
{
    if s.len() == 0 {
        l
    } else {
        read_char(read_on(l, s.drop_last()), s.last())
    }
}

/// The words that a shell reads in `s`.
pub open spec fn shell_words(s: Seq<char>) -> Seq<Seq<char>> {
    let l = read_on(new_line(), s);
    if l.inside {
        l.words.push(l.word)
    } else {
        l.words
    }
}

proof fn lemma_read_add(l: Line, a: Seq<char>, b: Seq<char>)
    ensures
        read_on(l, a + b) == read_on(read_on(l, a), b),
    decreases b.len(),
{
    if b.len() == 0 {
        assert(a + b =~= a);
    } else {
        assert((a + b).drop_last() =~= a + b.drop_last());
        lemma_read_add(l, a, b.drop_last());
    }
}

/// A character that means nothing to the shell's reader.
pub open spec fn is_plain_char(c: char) -> bool {
    c != '\'' && c != '\\' && c != ' '
}

proof fn lemma_read_plain(l: Line, s: Seq<char>)
    requires
        l.mode is Bare,
        forall|i: int| 0 <= i < s.len() ==> is_plain_char(#[trigger] s[i]),
    ensures
        read_on(l, s) == (Line { word: l.word + s, inside: l.inside || s.len() > 0, ..l }),
    decreases s.len(),
{
    if s.len() == 0 {
        assert(l.word + s =~= l.word);
    } else {
        let front = s.drop_last();
        assert forall|i: int| 0 <= i < front.len() implies is_plain_char(#[trigger] front[i]) by {
            assert(front[i] == s[i]);
        }
        lemma_read_plain(l, front);
        assert(is_plain_char(s[s.len() - 1]));
        assert((l.word + front).push(s.last()) =~= l.word + s);
    }
}

proof fn lemma_read_between_quotes(l: Line, s: Seq<char>)
    requires
        l.mode is Quoted,
        l.inside,
    ensures
        read_on(l, text::spelled(s, |c: char| payload::quoted_char(c))) == (Line {
            word: l.word + s,
            ..l
        }),
    decreases s.len(),
{
    let f = |c: char| payload::quoted_char(c);
    if s.len() == 0 {
        assert(l.word + s =~= l.word);
    } else {
        let front = s.drop_last();
        let c = s.last();
        lemma_read_between_quotes(l, front);
        let before = text::spelled(front, f);
        lemma_read_add(l, before, payload::quoted_char(c));
        let m = read_on(l, before);
        assert((l.word + front).push(c) =~= l.word + s);
        if c == '\'' {
            reveal_strlit("'\\''");
            let q = "'\\''"@;
            assert(q =~= seq!['\'', '\\', '\'', '\'']);
            assert(q.drop_last() =~= seq!['\'', '\\', '\'']);
            assert(q.drop_last().drop_last() =~= seq!['\'', '\\']);
            assert(q.drop_last().drop_last().drop_last() =~= seq!['\'']);
            assert(q.drop_last().drop_last().drop_last().drop_last() =~= Seq::<char>::empty());
            reveal_with_fuel(read_on, 5);
        } else {
            assert(seq![c].drop_last() =~= Seq::<char>::empty());
            reveal_with_fuel(read_on, 2);
        }
    }
}

/// A quoted value is one piece of a word, character for character.
pub proof fn lemma_read_quoted(l: Line, s: Seq<char>)
    requires
        l.mode is Bare,
    ensures
        read_on(l, payload::quoted(s)) == (Line { word: l.word + s, inside: true, ..l }),
{
    reveal_strlit("'");
    let body = text::spelled(s, |c: char| payload::quoted_char(c));
    assert("'"@ =~= seq!['\'']);
    lemma_read_add(l, "'"@, body);
    lemma_read_add(l, "'"@ + body, "'"@);
    assert(seq!['\''].drop_last() =~= Seq::<char>::empty());
    reveal_with_fuel(read_on, 2);
    let m = read_on(l, "'"@);
    lemma_read_between_quotes(m, s);
}

proof fn lemma_read_blank(l: Line)
    requires
        l.mode is Bare,
        l.inside,
    ensures
        read_on(l, " "@) == (Line {
            words: l.words.push(l.word),
            word: Seq::empty(),
            inside: false,
            mode: Quoting::Bare,
        }),
{
    reveal_strlit(" ");
    assert(" "@ =~= seq![' ']);
    assert(seq![' '].drop_last() =~= Seq::<char>::empty());
    reveal_with_fuel(read_on, 2);
}

/// A word of plain characters and the blank behind it.
proof fn lemma_read_word(l: Line, w: Seq<char>)
    requires
        l.mode is Bare,
        !l.inside,
        l.word.len() == 0,
        w.len() > 0,
        forall|i: int| 0 <= i < w.len() ==> is_plain_char(#[trigger] w[i]),
    ensures
        read_on(l, w + " "@) == (Line {
            words: l.words.push(w),
            word: Seq::empty(),
            inside: false,
            mode: Quoting::Bare,
        }),
{
    lemma_read_add(l, w, " "@);
    lemma_read_plain(l, w);
    assert(l.word + w =~= w);
    lemma_read_blank(read_on(l, w));
}

/// Quoted values with blanks between: each is a word.
proof fn lemma_read_quoted_list(l: Line, v: Seq<Seq<char>>)
    requires
        l.mode is Bare,
        !l.inside,
        l.word.len() == 0,
        v.len() > 0,
    ensures
        read_on(l, payload::quoted_list(v)) == (Line {
            words: l.words + v.drop_last(),
            word: v.last(),
            inside: true,
            mode: Quoting::Bare,
        }),
    decreases v.len(),
{
    let q = v.map_values(|s: Seq<char>| payload::quoted(s));
    assert(q.last() == payload::quoted(v.last()));
    if v.len() == 1 {
        lemma_read_quoted(l, v[0]);
        assert(l.word + v[0] =~= v[0]);
        assert(v.drop_last() =~= Seq::<Seq<char>>::empty());
        assert(l.words + v.drop_last() =~= l.words);
    } else {
        let front = v.drop_last();
        assert(q.drop_last() =~= front.map_values(|s: Seq<char>| payload::quoted(s)));
        let a = payload::quoted_list(front);
        lemma_read_quoted_list(l, front);
        lemma_read_add(l, a, " "@);
        lemma_read_add(l, a + " "@, q.last());
        let m = read_on(l, a);
        lemma_read_blank(m);
        let n = read_on(m, " "@);
        assert((l.words + front.drop_last()).push(front.last()) =~= l.words + front);
        lemma_read_quoted(n, v.last());
        assert(n.word + v.last() =~= v.last());
    }
}

/// A blank and a quoted value, again and again: each is a word.
proof fn lemma_read_arguments(l: Line, v: Seq<Seq<char>>)
    requires
        l.mode is Bare,
        l.inside,
    ensures
        read_on(l, payload::arguments(v)) == (if v.len() == 0 {
            l
        } else {
            Line {
                words: l.words.push(l.word) + v.drop_last(),
                word: v.last(),
                inside: true,
                mode: Quoting::Bare,
            }
        }),
    decreases v.len(),
{
    if v.len() > 0 {
        let front = v.drop_last();
        let a = payload::arguments(front);
        lemma_read_arguments(l, front);
        lemma_read_add(l, a, " "@);
        lemma_read_add(l, a + " "@, payload::quoted(v.last()));
        let m = read_on(l, a);
        lemma_read_blank(m);
        let n = read_on(m, " "@);
        if front.len() > 0 {
            assert((l.words.push(l.word) + front.drop_last()).push(front.last()) =~= l.words.push(
                l.word,
            ) + front);
        } else {
            assert(l.words.push(l.word) + front =~= l.words.push(l.word));
        }
        lemma_read_quoted(n, v.last());
        assert(n.word + v.last() =~= v.last());
    }
}

// --- statements ---------------------------------------------------------------

proof fn lemma_flags_are_plain(kind: Kind, attrs: Seq<char>)
    ensures
        payload::flags_model(kind, attrs).len() >= 2,
        forall|i: int|
            0 <= i < payload::flags_model(kind, attrs).len() ==> is_plain_char(
                #[trigger] payload::flags_model(kind, attrs)[i],
            ),
{
    reveal_strlit("-g");
}

/// Letters, each there or not: which there are, and that none is there twice.
proof fn lemma_letters(f: Seq<char>, a: Seq<char>, c: char, p: bool)
    requires
        a == f + (if p {
            seq![c]
        } else {
            Seq::empty()
        }),
        !f.contains(c),
        forall|i: int, j: int| 0 <= i < j < f.len() ==> #[trigger] f[i] != #[trigger] f[j],
    ensures
        a.contains(c) <==> p,
        forall|d: char| d != c ==> (#[trigger] a.contains(d) <==> f.contains(d)),
        forall|i: int, j: int| 0 <= i < j < a.len() ==> #[trigger] a[i] != #[trigger] a[j],
        a.take(f.len() as int) == f,
        f.len() <= a.len(),
{
    assert(a.take(f.len() as int) =~= f);
    if p {
        assert(a[f.len() as int] == c);
    } else {
        assert(a =~= f);
    }
    assert forall|d: char| d != c implies (#[trigger] a.contains(d) <==> f.contains(d)) by {
        if a.contains(d) {
            let i = choose|i: int| 0 <= i < a.len() && a[i] == d;
            assert(f[i] == d);
        }
        if f.contains(d) {
            let i = choose|i: int| 0 <= i < f.len() && f[i] == d;
            assert(a[i] == d);
        }
    }
    assert forall|i: int, j: int| 0 <= i < j < a.len() implies #[trigger] a[i] != #[trigger] a[j] by {
        if j == f.len() {
            assert(f[i] == a[i]);
            assert(f.contains(f[i]));
        } else {
            assert(a[i] == f[i] && a[j] == f[j]);
        }
    }
}

/// `attrs` has the word `w` in it.
pub open spec fn has_word(attrs: Seq<char>, w: Seq<char>) -> bool {
    exists|a: Seq<char>, b: Seq<char>| attrs == #[trigger] (a + w + b)
}

/// The flags of a declaration say what the kind and the attributes say: `-g`
/// always, `a` for an array and `A` for an association, and one letter for
/// each attribute that the shell has to be told. Nothing else, and nothing
/// twice.
pub proof fn flags_say_what_the_attributes_say(kind: Kind, attrs: Seq<char>)
    ensures
        ({
            let f = payload::flags_model(kind, attrs);
            &&& f.take(2) == "-g"@
            &&& f.contains('a') <==> kind is Array
            &&& f.contains('A') <==> kind is Assoc
            &&& f.contains('x') <==> has_word(attrs, "export"@)
            &&& f.contains('U') <==> has_word(attrs, "unique"@)
            &&& f.contains('i') <==> has_word(attrs, "integer"@)
            &&& f.contains('F') <==> has_word(attrs, "float"@)
            &&& forall|c: char| #[trigger]
                f.contains(c) ==> (c == '-' || c == 'g' || c == 'a' || c == 'A' || c == 'x' || c
                    == 'U' || c == 'i' || c == 'F')
            &&& forall|i: int, j: int| 0 <= i < j < f.len() ==> #[trigger] f[i] != #[trigger] f[j]
        }),
{
    reveal_strlit("-g");
    lemma_has_part(attrs, "export"@);
    lemma_has_part(attrs, "unique"@);
    lemma_has_part(attrs, "integer"@);
    lemma_has_part(attrs, "float"@);
    let none = Seq::<char>::empty();
    let shape = match kind {
        Kind::Array => seq!['a'],
        Kind::Assoc => seq!['A'],
        _ => none,
    };
    let f0 = "-g"@;
    let f1 = f0 + shape;
    let f2 = f1 + payload::flag_for(attrs, "export"@, 'x');
    let f3 = f2 + payload::flag_for(attrs, "unique"@, 'U');
    let f4 = f3 + payload::flag_for(attrs, "integer"@, 'i');
    let f5 = f4 + payload::flag_for(attrs, "float"@, 'F');
    let mid = f0 + (if kind is Array {
        seq!['a']
    } else {
        none
    });
    assert forall|c: char| #[trigger] f0.contains(c) implies c == '-' || c == 'g' by {
        let i = choose|i: int| 0 <= i < f0.len() && f0[i] == c;
    }
    lemma_letters(f0, mid, 'a', kind is Array);
    assert(f1 =~= mid + (if kind is Assoc {
        seq!['A']
    } else {
        none
    }));
    lemma_letters(mid, f1, 'A', kind is Assoc);
    lemma_letters(f1, f2, 'x', text::has_part(attrs, "export"@));
    lemma_letters(f2, f3, 'U', text::has_part(attrs, "unique"@));
    lemma_letters(f3, f4, 'i', text::has_part(attrs, "integer"@));
    lemma_letters(f4, f5, 'F', text::has_part(attrs, "float"@));
    assert(f5 == payload::flags_model(kind, attrs));
    assert(f5.take(2) =~= f0);
    assert forall|c: char| #[trigger] f5.contains(c) implies (c == '-' || c == 'g' || c == 'a' || c
        == 'A' || c == 'x' || c == 'U' || c == 'i' || c == 'F') by {
        if c != 'F' && c != 'i' && c != 'U' && c != 'x' && c != 'A' && c != 'a' {
            assert(f4.contains(c));
            assert(f3.contains(c));
            assert(f2.contains(c));
            assert(f1.contains(c));
            assert(mid.contains(c));
            assert(f0.contains(c));
        }
    }
}

pub(crate) proof fn lemma_has_part(s: Seq<char>, w: Seq<char>)
    ensures
        text::has_part(s, w) <==> exists|a: Seq<char>, b: Seq<char>| s == #[trigger] (a + w + b),
{
    if text::has_part(s, w) {
        let i = choose|i: int| text::occurs_at(s, w, i);
        let a = s.take(i);
        let b = s.skip(i + w.len());
        assert(s =~= a + w + b);
    }
    if exists|a: Seq<char>, b: Seq<char>| s == #[trigger] (a + w + b) {
        let (a, b) = choose|a: Seq<char>, b: Seq<char>| s == #[trigger] (a + w + b);
        assert(s.subrange(a.len() as int, (a.len() + w.len()) as int) =~= w);
        assert(text::occurs_at(s, w, a.len() as int));
    }
}

/// `typeset`, the flags and the name: two words are read, and a third begun.
proof fn lemma_read_declaration(c: ChangeModel)
    requires
        payload::is_valid_name(c.name),
    ensures
        read_on(new_line(), payload::declaration(c)) == (Line {
            words: seq!["typeset"@, payload::flags_model(c.kind, c.attrs)],
            word: c.name,
            inside: true,
            mode: Quoting::Bare,
        }),
{
    reveal_strlit("typeset ");
    reveal_strlit("typeset");
    reveal_strlit(" ");
    let f = payload::flags_model(c.kind, c.attrs);
    let l = new_line();
    assert("typeset "@ =~= "typeset"@ + " "@);
    lemma_read_word(l, "typeset"@);
    let a = read_on(l, "typeset "@);
    lemma_flags_are_plain(c.kind, c.attrs);
    lemma_read_word(a, f);
    assert("typeset "@ + f + " "@ =~= "typeset "@ + (f + " "@));
    lemma_read_add(l, "typeset "@, f + " "@);
    let b = read_on(l, "typeset "@ + f + " "@);
    lemma_read_add(l, "typeset "@ + f + " "@, c.name);
    assert forall|i: int| 0 <= i < c.name.len() implies is_plain_char(#[trigger] c.name[i]) by {
        assert(payload::is_name_char(c.name[i]));
    }
    lemma_read_plain(b, c.name);
    assert(b.word + c.name =~= c.name);
    assert(b.words =~= seq!["typeset"@, f]);
}

/// An array or an association is declared with its flags and assigned whole:
/// between the parentheses the shell reads just the values, one word each.
pub proof fn lists_are_assigned_whole(c: ChangeModel, vals: Seq<Seq<char>>)
    requires
        c.kind is Array || c.kind is Assoc,
        payload::is_valid_name(c.name),
    ensures
        payload::set_stmt_model(c, vals) is Some,
        shell_words(payload::set_stmt_model(c, vals)->0) == seq![
            "typeset"@,
            payload::flags_model(c.kind, c.attrs),
            c.name + "=("@,
        ] + vals + seq![")"@],
{
    let s = payload::set_stmt_model(c, vals)->0;
    lemma_read_assignment(c, vals);
    assert(s == payload::declaration(c) + "=( "@ + payload::quoted_list(vals) + " )"@);
}

pub(crate) proof fn lemma_read_assignment(c: ChangeModel, vals: Seq<Seq<char>>)
    requires
        payload::is_valid_name(c.name),
    ensures
        shell_words(
            payload::declaration(c) + "=( "@ + payload::quoted_list(vals) + " )"@,
        ) == seq!["typeset"@, payload::flags_model(c.kind, c.attrs), c.name + "=("@] + vals
            + seq![")"@],
{
    reveal_strlit("=( ");
    reveal_strlit("=(");
    reveal_strlit(" )");
    reveal_strlit(")");
    reveal_strlit(" ");
    let d = payload::declaration(c);
    let q = payload::quoted_list(vals);
    let l = new_line();
    let f = payload::flags_model(c.kind, c.attrs);
    lemma_read_declaration(c);
    let a = read_on(l, d);
    assert("=( "@ =~= "=("@ + " "@);
    lemma_read_add(a, "=("@, " "@);
    lemma_read_plain(a, "=("@);
    lemma_read_blank(read_on(a, "=("@));
    lemma_read_add(l, d, "=( "@);
    let b = read_on(l, d + "=( "@);
    assert(b.words =~= seq!["typeset"@, f, c.name + "=("@]);
    lemma_read_add(l, d + "=( "@, q);
    let m = read_on(l, d + "=( "@ + q);
    lemma_read_add(l, d + "=( "@ + q, " )"@);
    assert(" )"@ =~= " "@ + ")"@);
    lemma_read_add(m, " "@, ")"@);
    if vals.len() == 0 {
        assert(q =~= Seq::<char>::empty());
        assert(m == b);
        assert(" "@ =~= seq![' ']);
        assert(seq![' '].drop_last() =~= Seq::<char>::empty());
        reveal_with_fuel(read_on, 2);
        assert(read_on(m, " "@) == m);
        lemma_read_plain(m, ")"@);
        assert(m.word + ")"@ =~= ")"@);
        assert(b.words + vals =~= b.words);
    } else {
        lemma_read_quoted_list(b, vals);
        lemma_read_blank(m);
        let n = read_on(m, " "@);
        assert((b.words + vals.drop_last()).push(vals.last()) =~= b.words + vals);
        lemma_read_plain(n, ")"@);
        assert(n.word + ")"@ =~= ")"@);
    }
    assert((b.words + vals).push(")"@) =~= b.words + vals + seq![")"@]);
}

/// The value of a key that holds one: its first, or nothing.
pub open spec fn one_value(vals: Seq<Seq<char>>) -> Seq<char> {
    if vals.len() == 0 {
        Seq::empty()
    } else {
        vals[0]
    }
}

/// A scalar is declared with its flags and assigned its value, character for
/// character.
pub proof fn scalars_are_assigned(c: ChangeModel, vals: Seq<Seq<char>>)
    requires
        c.kind is Scalar,
        payload::is_valid_name(c.name),
    ensures
        payload::set_stmt_model(c, vals) is Some,
        shell_words(payload::set_stmt_model(c, vals)->0) == seq![
            "typeset"@,
            payload::flags_model(c.kind, c.attrs),
            c.name + "="@ + one_value(vals),
        ],
{
    reveal_strlit("=");
    let d = payload::declaration(c);
    let l = new_line();
    let v = one_value(vals);
    assert(payload::first_of(vals) =~= v);
    lemma_read_declaration(c);
    lemma_read_add(l, d, "="@);
    lemma_read_plain(read_on(l, d), "="@);
    lemma_read_add(l, d + "="@, payload::quoted(v));
    lemma_read_quoted(read_on(l, d + "="@), v);
    assert(shell_words(payload::set_stmt_model(c, vals)->0) =~= seq![
        "typeset"@,
        payload::flags_model(c.kind, c.attrs),
        c.name + "="@ + v,
    ]);
}

/// Each of `ws` with a blank behind it.
spec fn spaced(ws: Seq<Seq<char>>) -> Seq<char>
    decreases ws.len(),
{
    if ws.len() == 0 {
        Seq::empty()
    } else {
        spaced(ws.drop_last()) + (ws.last() + " "@)
    }
}

spec fn all_plain(ws: Seq<Seq<char>>) -> bool {
    forall|k: int|
        0 <= k < ws.len() ==> (#[trigger] ws[k]).len() > 0 && forall|i: int|
            0 <= i < ws[k].len() ==> is_plain_char(#[trigger] ws[k][i])
}

proof fn lemma_read_spaced(ws: Seq<Seq<char>>)
    requires
        all_plain(ws),
    ensures
        read_on(new_line(), spaced(ws)) == (Line { words: ws, ..new_line() }),
    decreases ws.len(),
{
    if ws.len() > 0 {
        let front = ws.drop_last();
        assert(all_plain(front)) by {
            assert forall|k: int| 0 <= k < front.len() implies (#[trigger] front[k]).len() > 0
                && forall|i: int| 0 <= i < front[k].len() ==> is_plain_char(#[trigger] front[k][i]) by {
                assert(front[k] == ws[k]);
            }
        }
        lemma_read_spaced(front);
        assert(ws[ws.len() - 1] == ws.last());
        lemma_read_add(new_line(), spaced(front), ws.last() + " "@);
        lemma_read_word(read_on(new_line(), spaced(front)), ws.last());
        assert(front.push(ws.last()) =~= ws);
    } else {
        assert(ws =~= Seq::<Seq<char>>::empty());
    }
}

/// Plain words and a quoted one behind them.
proof fn lemma_words_then_quoted(head: Seq<char>, ws: Seq<Seq<char>>, v: Seq<char>)
    requires
        all_plain(ws),
        head == spaced(ws),
    ensures
        read_on(new_line(), head + payload::quoted(v)) == (Line {
            words: ws,
            word: v,
            inside: true,
            mode: Quoting::Bare,
        }),
        shell_words(head + payload::quoted(v)) == ws.push(v),
{
    lemma_read_spaced(ws);
    lemma_read_add(new_line(), head, payload::quoted(v));
    let l = read_on(new_line(), head);
    lemma_read_quoted(l, v);
    assert(l.word + v =~= v);
}

/// A command of plain characters with one quoted operand.
pub(crate) proof fn lemma_call_with_one(command: Seq<char>, v: Seq<char>)
    requires
        command.len() > 0,
        forall|i: int| 0 <= i < command.len() ==> is_plain_char(#[trigger] command[i]),
    ensures
        shell_words(command + " "@ + payload::quoted(v)) == seq![command, v],
{
    lemma_spaced_one(command);
    lemma_words_then_quoted(command + " "@, seq![command], v);
    assert(seq![command].push(v) =~= seq![command, v]);
}

/// What a shell reads in the statement that gives a key its values, for what
/// is no parameter: the command, its options and the value, whole.
pub open spec fn set_words(c: ChangeModel, vals: Seq<Seq<char>>) -> Seq<Seq<char>> {
    let binding = c.name + "="@ + one_value(vals);
    match c.kind {
        Kind::Autoload => seq!["autoload"@, "-Uz"@, "--"@, c.name],
        Kind::Alias => seq!["alias"@, "--"@, binding],
        Kind::Galias => seq!["alias"@, "-g"@, "--"@, binding],
        Kind::Salias => seq!["alias"@, "-s"@, "--"@, binding],
        _ => seq![
            "(("@,
            "$+functions[compdef]"@,
            "))"@,
            "&&"@,
            "compdef"@,
            "--"@,
            one_value(vals),
            c.name,
        ],
    }
}

proof fn lemma_literals()
    ensures
        "autoload -Uz -- "@ == spaced(seq!["autoload"@, "-Uz"@, "--"@]),
        "alias -- "@ == spaced(seq!["alias"@, "--"@]),
        "alias -g -- "@ == spaced(seq!["alias"@, "-g"@, "--"@]),
        "alias -s -- "@ == spaced(seq!["alias"@, "-s"@, "--"@]),
        "unfunction -- "@ == spaced(seq!["unfunction"@, "--"@]),
        "unalias -- "@ == spaced(seq!["unalias"@, "--"@]),
        "unalias -s -- "@ == spaced(seq!["unalias"@, "-s"@, "--"@]),
        "unset "@ == spaced(seq!["unset"@]),
        "function "@ == spaced(seq!["function"@]),
        all_plain(seq!["autoload"@, "-Uz"@, "--"@]),
        all_plain(seq!["alias"@, "--"@]),
        all_plain(seq!["alias"@, "-g"@, "--"@]),
        all_plain(seq!["alias"@, "-s"@, "--"@]),
        all_plain(seq!["unfunction"@, "--"@]),
        all_plain(seq!["unalias"@, "--"@]),
        all_plain(seq!["unalias"@, "-s"@, "--"@]),
        all_plain(seq!["unset"@]),
        all_plain(seq!["function"@]),
{
    reveal_strlit("autoload -Uz -- ");
    reveal_strlit("alias -- ");
    reveal_strlit("alias -g -- ");
    reveal_strlit("alias -s -- ");
    reveal_strlit("unfunction -- ");
    reveal_strlit("unalias -- ");
    reveal_strlit("unalias -s -- ");
    reveal_strlit("unset ");
    reveal_strlit("function ");
    reveal_strlit("autoload");
    reveal_strlit("-Uz");
    reveal_strlit("--");
    reveal_strlit("alias");
    reveal_strlit("-g");
    reveal_strlit("-s");
    reveal_strlit("unfunction");
    reveal_strlit("unalias");
    reveal_strlit("unset");
    reveal_strlit("function");
    reveal_strlit(" ");
    lemma_spaced_one("unset"@);
    lemma_spaced_one("function"@);
    lemma_spaced_two("alias"@, "--"@);
    lemma_spaced_two("unfunction"@, "--"@);
    lemma_spaced_two("unalias"@, "--"@);
    lemma_spaced_three("autoload"@, "-Uz"@, "--"@);
    lemma_spaced_three("alias"@, "-g"@, "--"@);
    lemma_spaced_three("alias"@, "-s"@, "--"@);
    lemma_spaced_three("unalias"@, "-s"@, "--"@);
    assert("unset "@ =~= "unset"@ + " "@);
    assert("function "@ =~= "function"@ + " "@);
    assert("alias -- "@ =~= "alias"@ + " "@ + ("--"@ + " "@));
    assert("unfunction -- "@ =~= "unfunction"@ + " "@ + ("--"@ + " "@));
    assert("unalias -- "@ =~= "unalias"@ + " "@ + ("--"@ + " "@));
    assert("autoload -Uz -- "@ =~= "autoload"@ + " "@ + ("-Uz"@ + " "@) + ("--"@ + " "@));
    assert("alias -g -- "@ =~= "alias"@ + " "@ + ("-g"@ + " "@) + ("--"@ + " "@));
    assert("alias -s -- "@ =~= "alias"@ + " "@ + ("-s"@ + " "@) + ("--"@ + " "@));
    assert("unalias -s -- "@ =~= "unalias"@ + " "@ + ("-s"@ + " "@) + ("--"@ + " "@));
}

proof fn lemma_spaced_one(a: Seq<char>)
    ensures
        spaced(seq![a]) == a + " "@,
{
    assert(seq![a].drop_last() =~= Seq::<Seq<char>>::empty());
    reveal_with_fuel(spaced, 2);
    assert(Seq::<char>::empty() + (a + " "@) =~= a + " "@);
}

proof fn lemma_spaced_two(a: Seq<char>, b: Seq<char>)
    ensures
        spaced(seq![a, b]) == a + " "@ + (b + " "@),
{
    assert(seq![a, b].drop_last() =~= seq![a]);
    lemma_spaced_one(a);
}

proof fn lemma_spaced_three(a: Seq<char>, b: Seq<char>, c: Seq<char>)
    ensures
        spaced(seq![a, b, c]) == a + " "@ + (b + " "@) + (c + " "@),
{
    assert(seq![a, b, c].drop_last() =~= seq![a, b]);
    lemma_spaced_two(a, b);
}

/// The words in front of the operands of `compdef`.
spec fn compdef_head() -> Seq<Seq<char>> {
    seq!["(("@, "$+functions[compdef]"@, "))"@, "&&"@, "compdef"@]
}

proof fn lemma_compdef_literals()
    ensures
        "(( $+functions[compdef] )) && compdef -- "@ == spaced(compdef_head().push("--"@)),
        "(( $+functions[compdef] )) && compdef -d -- "@ == spaced(
            compdef_head().push("-d"@).push("--"@),
        ),
        all_plain(compdef_head().push("--"@)),
        all_plain(compdef_head().push("-d"@).push("--"@)),
{
    reveal_strlit("(( $+functions[compdef] )) && compdef -- ");
    reveal_strlit("(( $+functions[compdef] )) && compdef -d -- ");
    reveal_strlit("((");
    reveal_strlit("$+functions[compdef]");
    reveal_strlit("))");
    reveal_strlit("&&");
    reveal_strlit("compdef");
    reveal_strlit("--");
    reveal_strlit("-d");
    reveal_strlit(" ");
    let h = compdef_head();
    let three = seq!["(("@, "$+functions[compdef]"@, "))"@];
    lemma_spaced_three("(("@, "$+functions[compdef]"@, "))"@);
    let four = three.push("&&"@);
    assert(four.drop_last() =~= three);
    assert(h =~= four.push("compdef"@));
    assert(h.drop_last() =~= four);
    assert(h.push("--"@).drop_last() =~= h);
    assert(h.push("-d"@).drop_last() =~= h);
    assert(h.push("-d"@).push("--"@).drop_last() =~= h.push("-d"@));
    assert(spaced(four) == spaced(three) + ("&&"@ + " "@));
    assert(spaced(h) == spaced(four) + ("compdef"@ + " "@));
    assert(spaced(h.push("--"@)) == spaced(h) + ("--"@ + " "@));
    assert(spaced(h.push("-d"@)) == spaced(h) + ("-d"@ + " "@));
    assert(spaced(h.push("-d"@).push("--"@)) == spaced(h.push("-d"@)) + ("--"@ + " "@));
    assert("(( $+functions[compdef] )) && compdef -- "@ =~= spaced(h.push("--"@)));
    assert("(( $+functions[compdef] )) && compdef -d -- "@ =~= spaced(
        h.push("-d"@).push("--"@),
    ));
}

/// An alias, an autoload stub or a completion binding gets its name and its
/// value as the shell's own commands take them, each as one word.
pub proof fn other_keys_are_set(c: ChangeModel, vals: Seq<Seq<char>>)
    requires
        c.kind is Autoload || c.kind is Alias || c.kind is Galias || c.kind is Salias || c.kind
            is Compdef,
    ensures
        payload::set_stmt_model(c, vals) is Some,
        shell_words(payload::set_stmt_model(c, vals)->0) == set_words(c, vals),
{
    let s = payload::set_stmt_model(c, vals)->0;
    let v = one_value(vals);
    assert(payload::first_of(vals) =~= v);
    let binding = c.name + "="@ + v;
    lemma_literals();
    lemma_compdef_literals();
    match c.kind {
        Kind::Autoload => {
            lemma_words_then_quoted(
                "autoload -Uz -- "@,
                seq!["autoload"@, "-Uz"@, "--"@],
                c.name,
            );
        },
        Kind::Alias => {
            lemma_words_then_quoted("alias -- "@, seq!["alias"@, "--"@], binding);
        },
        Kind::Galias => {
            lemma_words_then_quoted("alias -g -- "@, seq!["alias"@, "-g"@, "--"@], binding);
        },
        Kind::Salias => {
            lemma_words_then_quoted("alias -s -- "@, seq!["alias"@, "-s"@, "--"@], binding);
        },
        _ => {
            let head = "(( $+functions[compdef] )) && compdef -- "@;
            let ws = compdef_head().push("--"@);
            lemma_words_then_quoted(head, ws, v);
            let a = head + payload::quoted(v);
            let l = new_line();
            lemma_read_add(l, a, " "@);
            lemma_read_blank(read_on(l, a));
            lemma_read_add(l, a + " "@, payload::quoted(c.name));
            let m = read_on(l, a + " "@);
            lemma_read_quoted(m, c.name);
            assert(m.word + c.name =~= c.name);
            assert(ws.push(v).push(c.name) =~= set_words(c, vals));
        },
    }
    assert(shell_words(s) =~= set_words(c, vals));
}

/// A function is defined under its name with its body as it is: whatever
/// stands around the body, none of the body is lost or changed.
pub proof fn functions_are_defined(c: ChangeModel, vals: Seq<Seq<char>>) -> (head: Seq<char>)
    requires
        c.kind is Func,
    ensures
        payload::set_stmt_model(c, vals) == Some(head + one_value(vals) + "\n}"@),
        shell_words(head) == seq!["function"@, c.name, "{\n"@],
{
    reveal_strlit(" {\n");
    reveal_strlit("{\n");
    reveal_strlit(" ");
    lemma_literals();
    assert(payload::first_of(vals) =~= one_value(vals));
    let a = "function "@ + payload::quoted(c.name);
    let head = a + " {\n"@;
    lemma_words_then_quoted("function "@, seq!["function"@], c.name);
    let l = new_line();
    assert(" {\n"@ =~= " "@ + "{\n"@);
    lemma_read_add(l, a, " {\n"@);
    lemma_read_add(read_on(l, a), " "@, "{\n"@);
    lemma_read_blank(read_on(l, a));
    let m = read_on(read_on(l, a), " "@);
    lemma_read_plain(m, "{\n"@);
    assert(m.word + "{\n"@ =~= "{\n"@);
    assert(shell_words(head) =~= seq!["function"@, c.name, "{\n"@]);
    head
}

/// What a shell reads in the statement that takes a key out.
pub open spec fn unset_words(c: ChangeModel) -> Seq<Seq<char>> {
    match c.kind {
        Kind::Func | Kind::Autoload => seq!["unfunction"@, "--"@, c.name],
        Kind::Alias | Kind::Galias => seq!["unalias"@, "--"@, c.name],
        Kind::Salias => seq!["unalias"@, "-s"@, "--"@, c.name],
        Kind::Compdef => seq![
            "(("@,
            "$+functions[compdef]"@,
            "))"@,
            "&&"@,
            "compdef"@,
            "-d"@,
            "--"@,
            c.name,
        ],
        Kind::Scalar | Kind::Array | Kind::Assoc => seq!["unset"@, c.name],
    }
}

/// A key is taken out by the command for its kind, under its own name. Only a
/// parameter whose name the shell would not take is left alone.
pub proof fn keys_are_taken_out(c: ChangeModel)
    requires
        (c.kind is Scalar || c.kind is Array || c.kind is Assoc) ==> payload::is_valid_name(c.name),
    ensures
        payload::unset_stmt_model(c) is Some,
        shell_words(payload::unset_stmt_model(c)->0) == unset_words(c),
{
    lemma_literals();
    lemma_compdef_literals();
    match c.kind {
        Kind::Func | Kind::Autoload => {
            lemma_words_then_quoted("unfunction -- "@, seq!["unfunction"@, "--"@], c.name);
        },
        Kind::Alias | Kind::Galias => {
            lemma_words_then_quoted("unalias -- "@, seq!["unalias"@, "--"@], c.name);
        },
        Kind::Salias => {
            lemma_words_then_quoted("unalias -s -- "@, seq!["unalias"@, "-s"@, "--"@], c.name);
        },
        Kind::Compdef => {
            lemma_words_then_quoted(
                "(( $+functions[compdef] )) && compdef -d -- "@,
                compdef_head().push("-d"@).push("--"@),
                c.name,
            );
        },
        Kind::Scalar | Kind::Array | Kind::Assoc => {
            let l = new_line();
            lemma_read_spaced(seq!["unset"@]);
            lemma_read_add(l, "unset "@, c.name);
            assert forall|i: int| 0 <= i < c.name.len() implies is_plain_char(
                #[trigger] c.name[i],
            ) by {
                assert(payload::is_name_char(c.name[i]));
            }
            let m = read_on(l, "unset "@);
            lemma_read_plain(m, c.name);
            assert(m.word + c.name =~= c.name);
        },
    }
    assert(shell_words(payload::unset_stmt_model(c)->0) =~= unset_words(c));
}

/// A parameter has a statement exactly if its name is made of letters, digits
/// and underscores, with no digit in front; any other key always has one.
pub proof fn only_odd_parameters_have_no_statement(c: ChangeModel, vals: Seq<Seq<char>>)
    ensures
        ({
            let odd = (c.kind is Scalar || c.kind is Array || c.kind is Assoc) && !(c.name.len() > 0
                && !(48 <= c.name[0] as int <= 57) && forall|i: int|
                0 <= i < c.name.len() ==> {
                    let n = (#[trigger] c.name[i]) as int;
                    48 <= n <= 57 || 65 <= n <= 90 || 97 <= n <= 122 || n == 95
                });
            &&& payload::set_stmt_model(c, vals) is None <==> odd
            &&& payload::unset_stmt_model(c) is None <==> odd
        }),
{
    assert(payload::is_valid_name(c.name) <==> (c.name.len() > 0 && !(48 <= c.name[0] as int <= 57)
        && forall|i: int|
        0 <= i < c.name.len() ==> {
            let n = (#[trigger] c.name[i]) as int;
            48 <= n <= 57 || 65 <= n <= 90 || 97 <= n <= 122 || n == 95
        })) by {
        if payload::is_valid_name(c.name) {
            assert forall|i: int| 0 <= i < c.name.len() implies {
                let n = (#[trigger] c.name[i]) as int;
                48 <= n <= 57 || 65 <= n <= 90 || 97 <= n <= 122 || n == 95
            } by {
                assert(payload::is_name_char(c.name[i]));
            }
        }
    }
}

// --- guards -------------------------------------------------------------------

/// The words for the kinds are all different, so a guard never asks about a
/// key of another kind.
pub proof fn kinds_have_words_of_their_own(a: Kind, b: Kind)
    ensures
        state::kind_word(a) == state::kind_word(b) ==> a == b,
        state::kind_word(a).len() > 0,
        forall|i: int| 0 <= i < state::kind_word(a).len() ==> 'a' <= #[trigger] state::kind_word(a)[i] <= 'z',
{
    reveal_strlit("scalar");
    reveal_strlit("array");
    reveal_strlit("assoc");
    reveal_strlit("func");
    reveal_strlit("autoload");
    reveal_strlit("alias");
    reveal_strlit("galias");
    reveal_strlit("salias");
    reveal_strlit("compdef");
    let x = state::kind_word(a);
    let y = state::kind_word(b);
    if x == y && a != b {
        assert(x.len() == y.len());
        assert(x[0] == y[0] && x[1] == y[1] && x[2] == y[2] && x[3] == y[3]);
    }
}

/// The test that a key holds certain values hands the shell's function the
/// kind, the name and all of the values.
pub proof fn tests_name_the_key_and_its_values(c: ChangeModel, vals: Seq<Seq<char>>)
    ensures
        shell_words(payload::holds_test(c, vals)) == seq![
            "_sharezed_eq"@,
            state::kind_word(c.kind),
            c.name,
        ] + vals,
        shell_words(payload::absent_test(c)) == seq![
            "_sharezed_absent"@,
            state::kind_word(c.kind),
            c.name,
        ],
{
    reveal_strlit("_sharezed_eq ");
    reveal_strlit("_sharezed_eq");
    reveal_strlit("_sharezed_absent ");
    reveal_strlit("_sharezed_absent");
    reveal_strlit(" ");
    let w = state::kind_word(c.kind);
    kinds_have_words_of_their_own(c.kind, c.kind);
    assert forall|i: int| 0 <= i < w.len() implies is_plain_char(#[trigger] w[i]) by {
        assert('a' <= w[i] <= 'z');
    }
    let e = seq!["_sharezed_eq"@, w];
    let a = seq!["_sharezed_absent"@, w];
    lemma_spaced_two("_sharezed_eq"@, w);
    lemma_spaced_two("_sharezed_absent"@, w);
    assert("_sharezed_eq "@ + w + " "@ =~= spaced(e));
    assert("_sharezed_absent "@ + w + " "@ =~= spaced(a));
    assert(all_plain(e));
    assert(all_plain(a));
    lemma_words_then_quoted("_sharezed_absent "@ + w + " "@, a, c.name);
    lemma_words_then_quoted("_sharezed_eq "@ + w + " "@, e, c.name);
    let h = "_sharezed_eq "@ + w + " "@ + payload::quoted(c.name);
    let l = new_line();
    lemma_read_add(l, h, payload::arguments(vals));
    lemma_read_arguments(read_on(l, h), vals);
    let all = seq!["_sharezed_eq"@, w, c.name] + vals;
    if vals.len() == 0 {
        assert(shell_words(payload::holds_test(c, vals)) =~= all);
    } else {
        assert((e.push(c.name) + vals.drop_last()).push(vals.last()) =~= all);
    }
    assert(shell_words(payload::absent_test(c)) =~= seq!["_sharezed_absent"@, w, c.name]);
}

} // verus!
