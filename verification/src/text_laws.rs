//! What holds of the text functions: what is cut can be put together again,
//! what is trimmed is only blanks, and what is read is what was written.

use crate::text::{self, Cut};
use vstd::prelude::*;
use vstd::string::*;

verus! {

// --- parts --------------------------------------------------------------------

/// A part stands in a text, at its beginning, or at its end of it, exactly if
/// the text is that part with something around it.
pub proof fn parts_have_something_around_them(s: Seq<char>, part: Seq<char>)
    ensures
        text::has_part(s, part) <==> exists|a: Seq<char>, b: Seq<char>| s == #[trigger] (a + part
            + b),
        text::begins_with(s, part) <==> exists|b: Seq<char>| s == #[trigger] (part + b),
{
    crate::shell_laws::lemma_has_part(s, part);
    if text::begins_with(s, part) {
        assert(s =~= part + s.skip(part.len() as int));
    }
    if exists|b: Seq<char>| s == #[trigger] (part + b) {
        let b = choose|b: Seq<char>| s == #[trigger] (part + b);
        assert(s.subrange(0, part.len() as int) =~= part);
    }
}

// --- pieces -------------------------------------------------------------------

/// What is cut at one character can be put together again with it, and no piece
/// holds it.
pub proof fn pieces_are_put_together_again(s: Seq<char>, c: char)
    ensures
        text::joined(text::pieces(s, Cut::At(c).picks()), seq![c]) == s,
        forall|k: int, i: int|
            0 <= k < text::pieces(s, Cut::At(c).picks()).len() && 0 <= i < text::pieces(
                s,
                Cut::At(c).picks(),
            )[k].len() ==> #[trigger] text::pieces(s, Cut::At(c).picks())[k][i] != c,
    decreases s.len(),
{
    let cuts = Cut::At(c).picks();
    let sep = seq![c];
    let all = text::pieces(s, cuts);
    if s.len() == 0 {
        assert(text::joined(all, sep) =~= s);
    } else {
        let front = s.drop_last();
        let before = text::pieces(front, cuts);
        pieces_are_put_together_again(front, c);
        lemma_some_piece(front, cuts);
        if cuts(s.last()) {
            assert(all.drop_last() =~= before);
            assert(text::joined(all, sep) =~= text::joined(before, sep) + sep + Seq::empty());
            assert(text::joined(all, sep) =~= s);
        } else {
            let grown = before.last().push(s.last());
            assert(all.drop_last() =~= before.drop_last());
            assert(all.last() == grown);
            if before.len() == 1 {
                assert(all.len() == 1);
                assert(before[0] == before.last());
                assert(all[0] =~= s);
            } else {
                let j = text::joined(before.drop_last(), sep);
                assert(j + sep + grown =~= (j + sep + before.last()).push(s.last()));
                assert(text::joined(all, sep) =~= s);
            }
        }
    }
}

proof fn lemma_some_piece<T>(s: Seq<T>, cuts: spec_fn(T) -> bool)
    ensures
        text::pieces(s, cuts).len() > 0,
    decreases s.len(),
{
    if s.len() > 0 {
        lemma_some_piece(s.drop_last(), cuts);
    }
}

/// All of `parts`, one after the other.
pub open spec fn flat<T>(parts: Seq<Seq<T>>) -> Seq<T>
    decreases parts.len(),
{
    if parts.len() == 0 {
        Seq::empty()
    } else {
        flat(parts.drop_last()) + parts.last()
    }
}

/// Cutting loses nothing but the cuts, keeps the order, and leaves none in a
/// piece. There is one piece more than there are cuts.
pub proof fn cutting_loses_only_the_cuts<T>(s: Seq<T>, cuts: spec_fn(T) -> bool)
    ensures
        flat(text::pieces(s, cuts)) == s.filter(|e: T| !cuts(e)),
        text::pieces(s, cuts).len() == 1 + s.filter(cuts).len(),
        forall|k: int, i: int|
            0 <= k < text::pieces(s, cuts).len() && 0 <= i < text::pieces(s, cuts)[k].len() ==> !cuts(
                #[trigger] text::pieces(s, cuts)[k][i],
            ),
    decreases s.len(),
{
    reveal(Seq::filter);
    let all = text::pieces(s, cuts);
    let keep = |e: T| !cuts(e);
    if s.len() == 0 {
        assert(all.drop_last() =~= Seq::<Seq<T>>::empty());
        reveal_with_fuel(flat, 2);
        assert(flat(all) =~= Seq::<T>::empty());
    } else {
        let front = s.drop_last();
        let before = text::pieces(front, cuts);
        cutting_loses_only_the_cuts(front, cuts);
        lemma_some_piece(front, cuts);
        if cuts(s.last()) {
            assert(all.drop_last() =~= before);
            assert(flat(all) =~= flat(before));
        } else {
            assert(all.drop_last() =~= before.drop_last());
            assert(flat(all) =~= flat(before).push(s.last()));
        }
    }
}

/// The characters at which each way of cutting cuts.
pub proof fn cuts_pick_their_characters(c: char, sep: char)
    ensures
        (Cut::At(sep).picks())(c) <==> c == sep,
        (Cut::BlankOrColon.picks())(c) <==> c == ' ' || c == ':',
        (Cut::WhiteSpace.picks())(c) <==> text::is_blank(c),
        ('!' <= c <= '~') ==> !text::is_blank(c),
        c == ' ' || c == '\t' || c == '\n' || c == '\r' ==> text::is_blank(c),
{
}

/// The words of a text are not empty and hold no white space, and together they
/// are all that is not white space, in order.
pub proof fn words_are_what_is_not_blank(s: Seq<char>, k: int)
    ensures
        flat(text::words_of(s)) == s.filter(|c: char| !text::is_blank(c)),
        0 <= k < text::words_of(s).len() ==> text::words_of(s)[k].len() > 0 && forall|i: int|
            0 <= i < text::words_of(s)[k].len() ==> !text::is_blank(
                #[trigger] text::words_of(s)[k][i],
            ),
{
    let cuts = Cut::WhiteSpace.picks();
    let all = text::pieces(s, cuts);
    let some = |p: Seq<char>| p.len() > 0;
    cutting_loses_only_the_cuts(s, cuts);
    lemma_flat_non_empty(all);
    text::lemma_filter_agrees(s, |c: char| !cuts(c), |c: char| !text::is_blank(c));
    if 0 <= k < text::words_of(s).len() {
        let j = text::lemma_filter_source(all, some, k);
        assert forall|i: int| 0 <= i < text::words_of(s)[k].len() implies !text::is_blank(
            #[trigger] text::words_of(s)[k][i],
        ) by {
            assert(!cuts(all[j][i]));
        }
    }
}

proof fn lemma_flat_non_empty(parts: Seq<Seq<char>>)
    ensures
        flat(text::non_empty(parts)) == flat(parts),
    decreases parts.len(),
{
    reveal(Seq::filter);
    let some = |p: Seq<char>| p.len() > 0;
    if parts.len() > 0 {
        let front = parts.drop_last();
        lemma_flat_non_empty(front);
        let kept = front.filter(some);
        if some(parts.last()) {
            assert(kept.push(parts.last()).drop_last() =~= kept);
        } else {
            assert(flat(front) + parts.last() =~= flat(front));
        }
    }
}

/// Leaving out what is empty keeps everything else, in order.
pub proof fn only_what_is_empty_is_left_out(
    a: Seq<Seq<char>>,
    b: Seq<Seq<char>>,
    p: Seq<char>,
)
    ensures
        text::non_empty(a + b) == text::non_empty(a) + text::non_empty(b),
        text::non_empty(seq![p]) == if p.len() == 0 {
            Seq::<Seq<char>>::empty()
        } else {
            seq![p]
        },
{
    let some = |p: Seq<char>| p.len() > 0;
    Seq::filter_distributes_over_add(a, b, some);
    reveal_with_fuel(Seq::filter, 2);
    assert(seq![p].drop_last() =~= Seq::<Seq<char>>::empty());
    assert(text::non_empty(seq![p]) =~= if p.len() == 0 {
        Seq::<Seq<char>>::empty()
    } else {
        seq![p]
    });
}

/// To join is to put the separator between neighbours, and nowhere else.
pub proof fn joining_separates_neighbours(
    a: Seq<Seq<char>>,
    b: Seq<Seq<char>>,
    p: Seq<char>,
    sep: Seq<char>,
)
    ensures
        text::joined(Seq::empty(), sep).len() == 0,
        text::joined(seq![p], sep) == p,
        a.len() > 0 && b.len() > 0 ==> text::joined(a + b, sep) == text::joined(a, sep) + sep
            + text::joined(b, sep),
    decreases b.len(),
{
    if a.len() > 0 && b.len() > 0 {
        assert((a + b).drop_last() =~= a + b.drop_last());
        if b.len() == 1 {
            assert(a + b.drop_last() =~= a);
            assert(b[0] == b.last());
        } else {
            joining_separates_neighbours(a, b.drop_last(), p, sep);
            assert(text::joined(a + b, sep) =~= text::joined(a, sep) + sep + text::joined(b, sep));
        }
    }
}

// --- replacing ----------------------------------------------------------------

/// Replacing leaves a text alone in which the part does not stand.
pub proof fn nothing_to_replace_changes_nothing(s: Seq<char>, part: Seq<char>, with: Seq<char>)
    requires
        !text::has_part(s, part),
    ensures
        text::replaced(s, part, with) == s,
    decreases s.len(),
{
    if s.len() > 0 {
        let rest = s.drop_first();
        if text::has_part(rest, part) {
            let i = choose|i: int| text::occurs_at(rest, part, i);
            assert(s.subrange(i + 1, i + 1 + part.len()) =~= rest.subrange(i, i + part.len()));
            assert(text::occurs_at(s, part, i + 1));
        }
        assert(!text::occurs_at(s, part, 0));
        nothing_to_replace_changes_nothing(rest, part, with);
        assert(seq![s[0]] + rest =~= s);
    } else {
        assert(text::replaced(s, part, with) =~= s);
    }
}

/// The part that stands first is replaced, what is before it stays, and what
/// comes after it is looked at in the same way.
pub proof fn the_first_part_is_replaced(
    a: Seq<char>,
    part: Seq<char>,
    b: Seq<char>,
    with: Seq<char>,
)
    requires
        part.len() > 0,
        forall|i: int| 0 <= i < a.len() ==> !text::occurs_at(a + part + b, part, i),
    ensures
        text::replaced(a + part + b, part, with) == a + with + text::replaced(b, part, with),
    decreases a.len(),
{
    let s = a + part + b;
    if a.len() == 0 {
        assert(s.subrange(0, part.len() as int) =~= part);
        assert(text::occurs_at(s, part, 0));
        assert(s.skip(part.len() as int) =~= b);
        assert(a + with + text::replaced(b, part, with) =~= with + text::replaced(b, part, with));
    } else {
        let r = a.drop_first();
        let t = r + part + b;
        assert(s.drop_first() =~= t);
        assert(!text::occurs_at(s, part, 0));
        assert forall|i: int| 0 <= i < r.len() implies !text::occurs_at(t, part, i) by {
            if text::occurs_at(t, part, i) {
                assert(s.subrange(i + 1, i + 1 + part.len()) =~= t.subrange(i, i + part.len()));
                assert(text::occurs_at(s, part, i + 1));
            }
        }
        the_first_part_is_replaced(r, part, b, with);
        assert(s[0] == a[0]);
        assert(seq![s[0]] + (r + with + text::replaced(b, part, with)) =~= a + with
            + text::replaced(b, part, with));
    }
}

// --- trimming -----------------------------------------------------------------

/// Trimming takes white space off both ends, all of it, and nothing else.
pub proof fn trimming_takes_blanks_off(s: Seq<char>) -> (r: (Seq<char>, Seq<char>))
    ensures
        ({
            let t = text::trimmed_end(text::trimmed_start(s));
            &&& s == r.0 + t + r.1
            &&& forall|i: int| 0 <= i < r.0.len() ==> text::is_blank(#[trigger] r.0[i])
            &&& forall|i: int| 0 <= i < r.1.len() ==> text::is_blank(#[trigger] r.1[i])
            &&& t.len() > 0 ==> !text::is_blank(t[0]) && !text::is_blank(t.last())
        }),
{
    let m = text::trimmed_start(s);
    let t = text::trimmed_end(m);
    let a = lemma_trimmed_start(s);
    let b = lemma_trimmed_end(m);
    assert(s =~= a + t + b);
    if t.len() > 0 {
        assert(t[0] == m[0]);
    }
    (a, b)
}

proof fn lemma_trimmed_start(s: Seq<char>) -> (a: Seq<char>)
    ensures
        s == a + text::trimmed_start(s),
        forall|i: int| 0 <= i < a.len() ==> text::is_blank(#[trigger] a[i]),
        text::trimmed_start(s).len() > 0 ==> !text::is_blank(text::trimmed_start(s)[0]),
    decreases s.len(),
{
    if s.len() > 0 && text::is_blank(s[0]) {
        let r = lemma_trimmed_start(s.drop_first());
        let a = seq![s[0]] + r;
        assert(s =~= seq![s[0]] + s.drop_first());
        assert(s =~= a + text::trimmed_start(s));
        assert forall|i: int| 0 <= i < a.len() implies text::is_blank(#[trigger] a[i]) by {
            if i > 0 {
                assert(a[i] == r[i - 1]);
            }
        }
        a
    } else {
        assert(s =~= Seq::<char>::empty() + s);
        Seq::empty()
    }
}

proof fn lemma_trimmed_end(s: Seq<char>) -> (b: Seq<char>)
    ensures
        s == text::trimmed_end(s) + b,
        forall|i: int| 0 <= i < b.len() ==> text::is_blank(#[trigger] b[i]),
        text::trimmed_end(s).len() > 0 ==> !text::is_blank(text::trimmed_end(s).last()),
    decreases s.len(),
{
    if s.len() > 0 && text::is_blank(s.last()) {
        let r = lemma_trimmed_end(s.drop_last());
        let b = r.push(s.last());
        assert(s =~= s.drop_last().push(s.last()));
        assert(s =~= text::trimmed_end(s) + b);
        b
    } else {
        assert(s =~= s + Seq::<char>::empty());
        Seq::empty()
    }
}

// --- padding ------------------------------------------------------------------

/// Padding keeps the text, adds nothing but the fill, on one side, and only as
/// much as is missing.
pub proof fn padding_only_fills(s: Seq<char>, fill: char, width: int)
    requires
        0 <= width,
    ensures
        ({
            let n = if s.len() < width {
                (width - s.len()) as nat
            } else {
                0
            };
            let r = text::padded_right(s, width);
            let l = text::padded_left(s, fill, width);
            &&& r.len() == s.len() + n && l.len() == s.len() + n
            &&& r.take(s.len() as int) == s && l.skip(n as int) == s
            &&& forall|i: int| s.len() <= i < r.len() ==> #[trigger] r[i] == ' '
            &&& forall|i: int| 0 <= i < n ==> #[trigger] l[i] == fill
        }),
{
    let n = if s.len() < width {
        (width - s.len()) as nat
    } else {
        0
    };
    assert(text::padded_right(s, width).take(s.len() as int) =~= s);
    assert(text::padded_left(s, fill, width).skip(n as int) =~= s);
}

// --- numbers ------------------------------------------------------------------

/// A number has one spelling without a leading zero.
pub proof fn numbers_are_spelled_once(m: nat, n: nat)
    ensures
        text::decimal(m) == text::decimal(n) ==> m == n,
        text::decimal(n).len() > 1 ==> text::decimal(n)[0] != '0',
    decreases n,
{
    crate::wire_laws::lemma_decimal_digits(m);
    crate::wire_laws::lemma_decimal_digits(n);
    lemma_no_leading_zero(n);
}

proof fn lemma_no_leading_zero(n: nat)
    ensures
        n > 0 ==> text::decimal(n)[0] != '0',
        text::decimal(n).len() > 0,
        n < 10 ==> text::decimal(n).len() == 1,
    decreases n,
{
    if n >= 10 {
        lemma_no_leading_zero(n / 10);
        assert(text::decimal(n)[0] == text::decimal(n / 10)[0]);
    }
}

// --- lines --------------------------------------------------------------------

/// No line holds a line feed.
pub proof fn lines_hold_no_line_feed(s: Seq<char>, k: int, i: int)
    requires
        0 <= k < text::lines_of(s).len(),
        0 <= i < text::lines_of(s)[k].len(),
    ensures
        text::lines_of(s)[k][i] != '\n',
{
    let parts = text::pieces(s, Cut::At('\n').picks());
    pieces_are_put_together_again(s, '\n');
    lemma_some_piece(s, Cut::At('\n').picks());
    if k < parts.len() - 1 {
        assert(text::lines_of(s)[k] == text::without_return(parts[k]));
        assert(text::lines_of(s)[k][i] == parts[k][i]);
    } else {
        assert(text::lines_of(s)[k] == parts.last());
        assert(parts[parts.len() - 1][i] != '\n');
    }
}

// --- reading numbers ----------------------------------------------------------

/// A digit more makes a number ten times as great and adds the digit.
pub proof fn digits_count_by_their_place(s: Seq<char>, c: char)
    requires
        '0' <= c <= '9',
    ensures
        text::digits_value(s.push(c)) == 10 * text::digits_value(s) + (c as int - 48),
        text::digits_value(Seq::empty()) == 0,
{
    assert(s.push(c).drop_last() =~= s);
}

/// A plus in front changes nothing.
pub proof fn a_plus_changes_nothing(s: Seq<char>, max: int)
    requires
        s.len() > 0,
        s[0] != '+',
    ensures
        text::unsigned_value(seq!['+'] + s, max) == text::unsigned_value(s, max),
{
    assert((seq!['+'] + s).drop_first() =~= s);
}

/// A row of digits is a number if it is not too great; and nothing else is one.
pub proof fn only_digits_are_numbers(s: Seq<char>, max: int, i: int)
    ensures
        s.len() == 0 ==> text::unsigned_value(s, max) is None,
        0 <= i < s.len() && !text::is_digit(s[i]) && s[i] != '+' ==> text::unsigned_value(s, max)
            is None,
        text::unsigned_value(s, max) is Some ==> text::unsigned_value(s, max)->0 <= max,
{
    if 0 <= i < s.len() && !text::is_digit(s[i]) && s[i] != '+' {
        let body = text::unsigned_body(s);
        if s[0] == '+' {
            assert(body[i - 1] == s[i]);
        } else {
            assert(body[i] == s[i]);
        }
    }
}

// --- order --------------------------------------------------------------------

/// Texts are ordered as in a dictionary: by the first character in which they
/// differ, and a beginning comes before what it is the beginning of.
pub proof fn texts_are_ordered_as_in_a_dictionary(c: char, d: char, s: Seq<char>, t: Seq<char>)
    ensures
        text::text_before(seq![c] + s, seq![d] + t) <==> c < d || (c == d && text::text_before(
            s,
            t,
        )),
        text::text_before(Seq::empty(), s) <==> s.len() > 0,
        !text::text_before(s, Seq::empty()),
{
    assert((seq![c] + s).drop_first() =~= s);
    assert((seq![d] + t).drop_first() =~= t);
}

// --- cutting in two -----------------------------------------------------------

/// A cut parts a text: its pieces are those before the cut and those behind it.
/// Without a cut there is one piece, the text itself.
pub proof fn a_cut_parts_the_text<T>(a: Seq<T>, c: T, b: Seq<T>, cuts: spec_fn(T) -> bool)
    ensures
        cuts(c) ==> text::pieces(a.push(c) + b, cuts) == text::pieces(a, cuts) + text::pieces(
            b,
            cuts,
        ),
        (forall|i: int| 0 <= i < b.len() ==> !cuts(#[trigger] b[i])) ==> text::pieces(b, cuts)
            == seq![b],
    decreases b.len(),
{
    let whole = a.push(c) + b;
    let left = text::pieces(a, cuts);
    let right = text::pieces(b, cuts);
    if b.len() == 0 {
        assert(whole =~= a.push(c));
        assert(whole.drop_last() =~= a);
        assert(b =~= Seq::<T>::empty());
        assert(cuts(c) ==> text::pieces(whole, cuts) =~= left + right);
    } else {
        let front = b.drop_last();
        let before = text::pieces(front, cuts);
        a_cut_parts_the_text(a, c, front, cuts);
        lemma_some_piece(front, cuts);
        assert(whole.drop_last() =~= a.push(c) + front);
        assert(whole.last() == b.last());
        assert(cuts(c) ==> (left + before).drop_last() =~= left + before.drop_last());
        assert(cuts(c) ==> text::pieces(whole, cuts) =~= left + right);
        if forall|i: int| 0 <= i < b.len() ==> !cuts(#[trigger] b[i]) {
            assert forall|i: int| 0 <= i < front.len() implies !cuts(#[trigger] front[i]) by {
                assert(front[i] == b[i]);
            }
            assert(!cuts(b[b.len() - 1]));
            assert(front.push(b.last()) =~= b);
            assert(right =~= seq![b]);
        }
    }
}

/// White space around a text does not count.
pub proof fn blanks_around_do_not_count(s: Seq<char>, c: char)
    requires
        text::is_blank(c),
    ensures
        text::trimmed_end(text::trimmed_start(s.push(c))) == text::trimmed_end(
            text::trimmed_start(s),
        ),
        text::trimmed_start(seq![c] + s) == text::trimmed_start(s),
    decreases s.len(),
{
    assert((seq![c] + s).drop_first() =~= s);
    assert((seq![c] + s)[0] == c);
    if s.len() == 0 {
        assert(s.push(c)[0] == c);
        assert(s.push(c).drop_first() =~= s);
    } else if text::is_blank(s[0]) {
        blanks_around_do_not_count(s.drop_first(), c);
        assert(s.push(c).drop_first() =~= s.drop_first().push(c));
        assert(s.push(c)[0] == s[0]);
    } else {
        assert(s.push(c)[0] == s[0]);
        assert(s.push(c).drop_last() =~= s);
    }
}

/// The lines before a line feed come before those behind it. A text without a
/// line feed is one line if it holds anything, and the line feed that ends it,
/// with or without a carriage return before it, does not count.
pub proof fn lines_end_at_line_feeds(a: Seq<char>, b: Seq<char>)
    ensures
        text::lines_of(a.push('\n') + b) == text::lines_of(a.push('\n')) + text::lines_of(b),
        b.len() == 0 ==> text::lines_of(b).len() == 0,
        (forall|i: int| 0 <= i < b.len() ==> #[trigger] b[i] != '\n') ==> {
            &&& b.len() > 0 ==> text::lines_of(b) == seq![b]
            &&& text::lines_of(b.push('\n')) == seq![
                if b.len() > 0 && b.last() == '\r' {
                    b.drop_last()
                } else {
                    b
                },
            ]
        },
{
    let cuts = Cut::At('\n').picks();
    let none = Seq::<char>::empty();
    let plain = |p: Seq<char>| text::without_return(p);
    let l = text::pieces(a, cuts);
    let r = text::pieces(b, cuts);
    a_cut_parts_the_text(a, '\n', b, cuts);
    a_cut_parts_the_text(a, '\n', none, cuts);
    a_cut_parts_the_text(b, '\n', none, cuts);
    lemma_some_piece(b, cuts);
    assert(a.push('\n') + none =~= a.push('\n'));
    assert(b.push('\n') + none =~= b.push('\n'));
    assert((l + seq![none]).drop_last() =~= l);
    assert((l + seq![none]).last() == none);
    assert((r + seq![none]).drop_last() =~= r);
    assert((r + seq![none]).last() == none);
    assert((l + r).drop_last() =~= l + r.drop_last());
    assert((l + r).last() == r.last());
    assert((l + r.drop_last()).map_values(plain) =~= l.map_values(plain)
        + r.drop_last().map_values(plain));
    assert(text::lines_of(a.push('\n') + b) =~= text::lines_of(a.push('\n')) + text::lines_of(b));
    if b.len() == 0 {
        assert(b =~= none);
    }
    if forall|i: int| 0 <= i < b.len() ==> #[trigger] b[i] != '\n' {
        assert(r == seq![b]);
        assert(text::lines_of(b.push('\n')) =~= seq![text::without_return(b)]);
        if b.len() > 0 {
            assert(text::lines_of(b) =~= seq![b]);
        }
    }
}

} // verus!
