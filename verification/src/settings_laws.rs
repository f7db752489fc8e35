//! What holds of paths and of the settings that are made of them.

use crate::globs;
use crate::lists;
use crate::paths;
use crate::settings;
use crate::text::{self, Cut};
use crate::text_laws;
use vstd::prelude::*;
use vstd::string::*;

verus! {

// --- names --------------------------------------------------------------------

/// The names of a path are those before a slash and those behind it. A text
/// without a slash is one name, and nothing is none.
pub proof fn slashes_part_names(a: Seq<char>, b: Seq<char>)
    ensures
        paths::path_names(a.push('/') + b) == paths::path_names(a) + paths::path_names(b),
        (b.len() > 0 && forall|i: int| 0 <= i < b.len() ==> #[trigger] b[i] != '/')
            ==> paths::path_names(b) == seq![b],
        b.len() == 0 ==> paths::path_names(b).len() == 0,
{
    let cuts = Cut::At('/').picks();
    text_laws::a_cut_parts_the_text(a, '/', b, cuts);
    text_laws::only_what_is_empty_is_left_out(
        text::pieces(a, cuts),
        text::pieces(b, cuts),
        b,
    );
}

/// The names after one more character.
proof fn lemma_names_grow(s: Seq<char>, c: char)
    ensures
        c == '/' ==> paths::path_names(s.push(c)) == paths::path_names(s),
        c != '/' && (s.len() == 0 || s.last() == '/') ==> paths::path_names(s.push(c))
            == paths::path_names(s).push(seq![c]),
        s.len() > 0 && s.last() != '/' ==> {
            &&& paths::path_names(s).len() > 0
            &&& c != '/' ==> paths::path_names(s.push(c)) == paths::path_names(s).drop_last().push(
                paths::path_names(s).last().push(c),
            )
        },
{
    reveal(Seq::filter);
    let cuts = Cut::At('/').picks();
    let some = |p: Seq<char>| p.len() > 0;
    let before = text::pieces(s, cuts);
    let t = s.push(c);
    text::lemma_pieces_nonempty(s, cuts);
    assert(t.drop_last() =~= s);
    assert(before.drop_last().push(before.last()) =~= before);
    if c == '/' {
        assert(before.push(Seq::empty()).drop_last() =~= before);
    } else {
        let grown = before.drop_last().push(before.last().push(c));
        assert(grown.drop_last() =~= before.drop_last());
        assert(grown.last() == before.last().push(c));
        if s.len() == 0 || s.last() == '/' {
            assert(before.last().len() == 0);
            assert(before.last().push(c) =~= seq![c]);
        } else {
            text::lemma_pieces_nonempty(s.drop_last(), cuts);
            assert(before.last().len() > 0);
            let kept = before.drop_last().filter(some);
            assert(kept.push(before.last()).drop_last() =~= kept);
        }
    }
    if s.len() > 0 && s.last() != '/' {
        text::lemma_pieces_nonempty(s.drop_last(), cuts);
        assert(before.last().len() > 0);
    }
}

/// A slash if `s` begins with one.
spec fn root_of(s: Seq<char>) -> Seq<char> {
    if s.len() > 0 && s[0] == '/' {
        seq!['/']
    } else {
        Seq::empty()
    }
}

/// The names of `s`, with a slash between neighbours.
spec fn spelled_names(s: Seq<char>) -> Seq<char> {
    text::joined(paths::path_names(s), seq!['/'])
}

proof fn lemma_spelled_end(s: Seq<char>)
    requires
        paths::path_names(s).len() > 0,
    ensures
        spelled_names(s).len() > 0,
        spelled_names(s).last() != '/',
{
    let cuts = Cut::At('/').picks();
    let all = text::pieces(s, cuts);
    let names = paths::path_names(s);
    let some = |p: Seq<char>| p.len() > 0;
    let k = names.len() - 1;
    let j = text::lemma_filter_source(all, some, k);
    let last = names[k];
    text_laws::cutting_loses_only_the_cuts(s, cuts);
    assert(last == all[j]);
    assert(!cuts(all[j][last.len() - 1]));
    if names.len() == 1 {
        assert(spelled_names(s) == names[0]);
    } else {
        let sep = seq!['/'];
        let front = text::joined(names.drop_last(), sep);
        assert(spelled_names(s) =~= front + sep + last);
    }
}

proof fn lemma_collapsed_is_spelled(s: Seq<char>)
    ensures
        lists::collapsed(s) == root_of(s) + spelled_names(s) + (if s.len() > 0 && s.last() == '/'
            && paths::path_names(s).len() > 0 {
            seq!['/']
        } else {
            Seq::empty()
        }),
    decreases s.len(),
{
    let sep = seq!['/'];
    if s.len() == 0 {
        slashes_part_names(s, s);
        assert(lists::collapsed(s) =~= root_of(s) + spelled_names(s) + Seq::<char>::empty());
    } else {
        let b = s.drop_last();
        let c = s.last();
        let n = paths::path_names(b);
        lemma_collapsed_is_spelled(b);
        lemma_names_grow(b, c);
        assert(b.push(c) =~= s);
        assert(b.len() > 0 ==> s[0] == b[0]);
        if b.len() == 0 {
            slashes_part_names(b, b);
            assert(s =~= seq![c]);
            if c != '/' {
                assert(n.push(seq![c]) =~= seq![seq![c]]);
                assert(spelled_names(s) =~= seq![c]);
            }
            assert(lists::collapsed(s) =~= seq![c]);
        } else if c == '/' {
            assert(paths::path_names(s) == n);
        } else if b.last() == '/' {
            let m = n.push(seq![c]);
            assert(m.drop_last() =~= n);
            assert(m.last() == seq![c]);
            if n.len() == 0 {
                assert(m.len() == 1);
                assert(spelled_names(s) =~= seq![c]);
            } else {
                assert(spelled_names(s) =~= spelled_names(b) + sep + seq![c]);
            }
        } else {
            let m = n.drop_last().push(n.last().push(c));
            assert(m.drop_last() =~= n.drop_last());
            assert(m.last() == n.last().push(c));
            if n.len() == 1 {
                assert(spelled_names(s) =~= spelled_names(b).push(c));
            } else {
                assert(spelled_names(s) =~= spelled_names(b).push(c));
            }
        }
    }
}

/// The compared form of an entry is its names with single slashes between them,
/// behind a slash if the entry begins with one. So two entries are compared
/// alike just if they have the same names in the same order, and both begin
/// with a slash or neither does.
pub proof fn compared_forms_are_made_of_names(s: Seq<char>)
    ensures
        lists::norm_of(s) == (if s.len() > 0 && s[0] == '/' {
            seq!['/']
        } else {
            Seq::empty()
        }) + text::joined(paths::path_names(s), seq!['/']),
{
    lemma_collapsed_is_spelled(s);
    let r = root_of(s);
    let j = spelled_names(s);
    let c = lists::collapsed(s);
    reveal_with_fuel(lists::stripped, 2);
    if paths::path_names(s).len() > 0 {
        lemma_spelled_end(s);
        let k = r + j;
        assert(k.len() > 0 && k.last() == j.last());
        if s.last() == '/' {
            assert(c =~= k.push('/'));
            assert(c.drop_last() =~= k);
            assert(lists::stripped(k) == k);
        } else {
            assert(c =~= k);
        }
    } else {
        assert(j.len() == 0);
        assert(c =~= r);
        assert(r + j =~= r);
    }
}

// --- components ---------------------------------------------------------------

/// What stands behind a slash is appended to the components, but for dots. Only
/// what begins with a slash is rooted.
pub proof fn components_are_put_together(a: Seq<char>, b: Seq<char>)
    requires
        a.len() > 0,
    ensures
        ({
            let whole = paths::path_model(a.push('/') + b);
            &&& whole.rooted == (a[0] == '/')
            &&& whole.rooted == paths::path_model(a).rooted
            &&& paths::path_names(a).len() > 0 || a[0] == '/' ==> whole.parts == paths::path_model(
                a,
            ).parts + paths::path_names(b).filter(|n: Seq<char>| n != "."@)
        }),
{
    let kept = |n: Seq<char>| n != "."@;
    let s = a.push('/') + b;
    slashes_part_names(a, b);
    reveal_strlit("/");
    assert(s.subrange(0, 1) =~= seq![a[0]]);
    assert(a.subrange(0, 1) =~= seq![a[0]]);
    assert("/"@ =~= seq!['/']);
    assert(seq![a[0]][0] == a[0]);
    assert(seq!['/'][0] == '/');
    let n = paths::path_names(a);
    let m = paths::path_names(b);
    Seq::filter_distributes_over_add(n, m, kept);
    if n.len() > 0 || a[0] == '/' {
        let whole = paths::path_model(s);
        assert(n.len() > 0 ==> (n + m)[0] == n[0]);
        assert(whole.parts =~= paths::path_model(a).parts + m.filter(kept));
    }
}

/// A name that is no dot is a component of its own.
pub proof fn names_are_components(n: Seq<char>)
    requires
        n.len() > 0,
        n != "."@,
        forall|i: int| 0 <= i < n.len() ==> #[trigger] n[i] != '/',
    ensures
        paths::path_model(n).parts == seq![n],
        !paths::path_model(n).rooted,
{
    slashes_part_names(n, n);
    reveal_with_fuel(Seq::filter, 2);
    reveal_strlit("/");
    assert(seq![n].drop_last() =~= Seq::<Seq<char>>::empty());
    assert(seq![n].filter(|x: Seq<char>| x != "."@) =~= seq![n]);
    if paths::is_rooted(n) {
        assert(n.subrange(0, 1)[0] == n[0]);
        assert("/"@[0] == '/');
    }
}

/// Everything under the root directory's `dev` is a device; nothing that does
/// not begin with a slash is.
pub proof fn devices_lie_under_dev(s: Seq<char>, rest: Seq<char>)
    ensures
        paths::is_device("/dev/"@ + rest),
        paths::is_device(s) ==> s.len() > 0 && s[0] == '/' && paths::path_names(s).contains("dev"@),
{
    reveal_strlit("/dev/");
    reveal_strlit("dev");
    reveal_strlit("/");
    reveal_strlit(".");
    let dev = "dev"@;
    let front = seq!['/'] + dev;
    assert("/dev/"@ + rest =~= front.push('/') + rest);
    let kept = |n: Seq<char>| n != "."@;
    let none = Seq::<char>::empty();
    assert(front =~= none.push('/') + dev);
    slashes_part_names(none, dev);
    slashes_part_names(none, none);
    assert(paths::path_names(front) =~= seq![dev]);
    assert(dev.len() != "."@.len());
    reveal_with_fuel(Seq::filter, 2);
    assert(seq![dev].drop_last() =~= Seq::<Seq<char>>::empty());
    assert(seq![dev].filter(kept) =~= seq![dev]);
    components_are_put_together(front, rest);
    assert(front.subrange(0, 1) =~= "/"@);
    if paths::is_device(s) {
        assert(s.subrange(0, 1)[0] == s[0]);
        assert("/"@[0] == '/');
        let names = paths::path_names(s);
        let j = text::lemma_filter_source(names, kept, 0);
        assert(names[j] == "dev"@);
    }
}

// --- directories --------------------------------------------------------------

/// A relative name is put behind its directory, with one slash at the seam; an
/// absolute one stands for itself.
pub proof fn names_go_under_their_directory(dir: Seq<u8>, name: Seq<u8>)
    ensures
        ({
            let p = paths::path_under(dir, name);
            &&& p.len() >= name.len()
            &&& p.skip(p.len() - name.len()) == name
            &&& name.len() > 0 && name[0] == 47u8 ==> p == name
            &&& name.len() > 0 && name[0] != 47u8 ==> {
                &&& dir.len() + name.len() <= p.len() <= dir.len() + 1 + name.len()
                &&& p.take(dir.len() as int) == dir
                &&& dir.len() == 0 ==> p == name
                &&& dir.len() > 0 ==> p[p.len() - name.len() - 1] == 47u8
                &&& dir.len() > 0 && dir.last() == 47u8 ==> p == dir + name
            }
        }),
{
    let p = paths::path_under(dir, name);
    assert(p.skip(p.len() - name.len()) =~= name);
    if name.len() > 0 && name[0] != 47u8 {
        assert(p.take(dir.len() as int) =~= dir);
        if dir.len() == 0 {
            assert(p =~= name);
        }
    }
}

/// The startup file is looked for in the shell's own directory, and in the home
/// directory only if none is set.
pub proof fn startup_files_go_by_the_shells_directory(dir: Seq<u8>, home: Seq<u8>, other: Seq<u8>)
    ensures
        settings::zshrc_model(Some(dir), home) == settings::zshrc_model(Some(dir), other),
        settings::zshrc_model(None, home) == settings::zshrc_model(Some(home), other),
        settings::zshrc_model(Some(dir), home) == paths::path_under(
            dir,
            vstd::utf8::encode_utf8(".zshrc"@),
        ),
{
}

// --- lists of patterns --------------------------------------------------------

/// Blanks and colons part the patterns of a list. A word between them is a
/// pattern just if it is a well-formed glob, and it is not changed.
pub proof fn patterns_are_listed(a: Seq<char>, c: char, b: Seq<char>)
    ensures
        c == ' ' || c == ':' ==> settings::listed_globs(a.push(c) + b) == settings::listed_globs(a)
            + settings::listed_globs(b),
        (b.len() > 0 && forall|i: int| 0 <= i < b.len() ==> #[trigger] b[i] != ' ' && b[i] != ':')
            ==> settings::listed_globs(b) == if globs::glob_valid(b) {
            seq![b]
        } else {
            Seq::<Seq<char>>::empty()
        },
        b.len() == 0 ==> settings::listed_globs(b).len() == 0,
{
    let cuts = Cut::BlankOrColon.picks();
    let l = text::pieces(a, cuts);
    let r = text::pieces(b, cuts);
    let valid = |t: Seq<char>| globs::glob_valid(t);
    text_laws::a_cut_parts_the_text(a, c, b, cuts);
    text_laws::only_what_is_empty_is_left_out(l, r, b);
    Seq::filter_distributes_over_add(text::non_empty(l), text::non_empty(r), valid);
    reveal_with_fuel(Seq::filter, 2);
    assert(seq![b].drop_last() =~= Seq::<Seq<char>>::empty());
    assert(seq![b].filter(valid) =~= if globs::glob_valid(b) {
        seq![b]
    } else {
        Seq::<Seq<char>>::empty()
    });
}

/// A temporary directory has one pattern, for everything in it, however many
/// slashes end its name. Without one, or with an empty name, there is none.
pub proof fn what_is_temporary_is_volatile(t: Seq<char>)
    requires
        t.len() > 0,
    ensures
        settings::volatile_patterns(None).len() == 0,
        settings::volatile_patterns(Some(Seq::empty())).len() == 0,
        settings::volatile_patterns(Some(t)).len() == 1,
        settings::volatile_patterns(Some(t.push('/'))) == settings::volatile_patterns(Some(t)),
        settings::volatile_patterns(Some(t))[0] == lists::norm_of(t) + seq!['/', '*'],
{
    reveal_strlit("/*");
    assert("/*"@ =~= seq!['/', '*']);
    let none = Seq::<char>::empty();
    slashes_part_names(t, none);
    assert(t.push('/') + none =~= t.push('/'));
    assert(paths::path_names(t) + paths::path_names(none) =~= paths::path_names(t));
    compared_forms_are_made_of_names(t);
    compared_forms_are_made_of_names(t.push('/'));
}

// --- counters -----------------------------------------------------------------

/// White space around a counter does not count, and a text that is no number
/// counts as zero, like no text at all.
pub proof fn counters_ignore_blanks(s: Seq<char>, c: char)
    requires
        text::is_blank(c),
    ensures
        settings::counter_value(Some(s.push(c))) == settings::counter_value(Some(s)),
        settings::counter_value(Some(seq![c] + s)) == settings::counter_value(Some(s)),
        settings::counter_value(None) == 0,
        text::unsigned_value(text::trimmed_end(text::trimmed_start(s)), u64::MAX as int) is None
            ==> settings::counter_value(Some(s)) == 0,
{
    text_laws::blanks_around_do_not_count(s, c);
}

} // verus!
