//! Text: the character-level vocabulary that the rest of the library is
//! written in. Every function here works on whole Unicode scalar values, so a
//! contract speaks of `Seq<char>`, never of bytes.

use vstd::prelude::*;
use vstd::string::*;

verus! {

/// `String::push` of the standard library appends one character and changes
/// nothing else.
pub assume_specification[ String::push ](s: &mut String, c: char)
    ensures
        final(s)@ == old(s)@.push(c),
;

/// What a list of strings holds.
pub open spec fn texts(v: Seq<String>) -> Seq<Seq<char>> {
    v.map_values(|s: String| s@)
}

pub proof fn lemma_texts_push(v: Seq<String>, s: String)
    ensures
        texts(v.push(s)) == texts(v).push(s@),
{
    assert(texts(v.push(s)) =~= texts(v).push(s@));
}

pub proof fn lemma_push_contains<T>(v: Seq<T>, e: T, x: T)
    ensures
        v.push(e).contains(x) <==> v.contains(x) || x == e,
{
    if v.contains(x) {
        let i = choose|i: int| 0 <= i < v.len() && v[i] == x;
        assert(v.push(e)[i] == x);
    }
    if x == e {
        assert(v.push(e)[v.len() as int] == x);
    }
    if v.push(e).contains(x) && x != e {
        let i = choose|i: int| 0 <= i < v.push(e).len() && v.push(e)[i] == x;
        assert(v[i] == x);
    }
}

/// Two filters that agree on every element of a sequence leave the same of it.
pub proof fn lemma_filter_agrees<T>(v: Seq<T>, p: spec_fn(T) -> bool, q: spec_fn(T) -> bool)
    requires
        forall|i: int| 0 <= i < v.len() ==> p(#[trigger] v[i]) == q(v[i]),
    ensures
        v.filter(p) == v.filter(q),
    decreases v.len(),
{
    reveal(Seq::filter);
    if v.len() > 0 {
        assert forall|i: int| 0 <= i < v.drop_last().len() implies p(#[trigger] v.drop_last()[i]) == q(
            v.drop_last()[i],
        ) by {
            assert(v.drop_last()[i] == v[i]);
        }
        lemma_filter_agrees(v.drop_last(), p, q);
        assert(p(v[v.len() - 1]) == q(v[v.len() - 1]));
    }
}

/// A filter that keeps everything changes nothing.
pub proof fn lemma_filter_all<T>(v: Seq<T>)
    ensures
        v.filter(|e: T| true) == v,
    decreases v.len(),
{
    reveal(Seq::filter);
    if v.len() > 0 {
        lemma_filter_all(v.drop_last());
        assert(v =~= v.drop_last().push(v.last()));
    } else {
        assert(v.filter(|e: T| true) =~= v);
    }
}

/// What a filter keeps comes from the sequence and passes the filter.
pub proof fn lemma_filter_source<T>(v: Seq<T>, p: spec_fn(T) -> bool, i: int) -> (j: int)
    requires
        0 <= i < v.filter(p).len(),
    ensures
        0 <= j < v.len(),
        v[j] == v.filter(p)[i],
        p(v[j]),
    decreases v.len(),
{
    reveal(Seq::filter);
    if p(v.last()) && i == v.filter(p).len() - 1 {
        v.len() - 1
    } else {
        lemma_filter_source(v.drop_last(), p, i)
    }
}

/// A filter keeps what it keeps in order.
pub proof fn lemma_filter_order<T>(v: Seq<T>, p: spec_fn(T) -> bool, i: int, j: int) -> (at: (int, int))
    requires
        0 <= i < j < v.filter(p).len(),
    ensures
        0 <= at.0 < at.1 < v.len(),
        v[at.0] == v.filter(p)[i],
        v[at.1] == v.filter(p)[j],
        p(v[at.0]),
        p(v[at.1]),
    decreases v.len(),
{
    reveal(Seq::filter);
    if p(v.last()) && j == v.filter(p).len() - 1 {
        let a = lemma_filter_source(v.drop_last(), p, i);
        (a, v.len() - 1)
    } else {
        lemma_filter_order(v.drop_last(), p, i, j)
    }
}

/// The characters of `s`, one per element.
pub fn chars_of(s: &str) -> (v: Vec<char>)
    ensures
        v@ == s@,
{
    let mut v: Vec<char> = Vec::new();
    for c in it: s.chars()
        invariant
            v@ == it.seq().take(it.index() as int),
    {
        v.push(c);
    }
    v
}

/// The string made of `v[from..to]`.
pub fn string_of(v: &Vec<char>, from: usize, to: usize) -> (s: String)
    requires
        from <= to <= v@.len(),
    ensures
        s@ == v@.subrange(from as int, to as int),
{
    let mut s = String::new();
    for i in from..to
        invariant
            from <= i <= to <= v@.len(),
            s@ == v@.subrange(from as int, i as int),
    {
        s.push(v[i]);
        assert(v@.subrange(from as int, i + 1) =~= v@.subrange(from as int, i as int).push(v@[i as int]));
    }
    s
}

/// Are the two texts the same, character for character?
pub fn same(a: &str, b: &str) -> (r: bool)
    ensures
        r == (a@ == b@),
{
    a.to_owned() == b.to_owned()
}

/// Does `list` hold `s`?
pub fn listed(list: &[String], s: &str) -> (r: bool)
    ensures
        r == texts(list@).contains(s@),
{
    for i in 0..list.len()
        invariant
            forall|j: int| 0 <= j < i ==> texts(list@)[j] != s@,
    {
        if same(list[i].as_str(), s) {
            assert(texts(list@)[i as int] == s@);
            return true;
        }
    }
    false
}

/// An element-by-element copy.
pub fn copy_texts(v: &[String]) -> (r: Vec<String>)
    ensures
        texts(r@) == texts(v@),
{
    let mut r: Vec<String> = Vec::new();
    for i in 0..v.len()
        invariant
            r@.len() == i,
            forall|j: int| 0 <= j < i ==> r@[j]@ == v@[j]@,
    {
        r.push(v[i].clone());
    }
    assert(texts(r@) =~= texts(v@));
    r
}

// --- order -------------------------------------------------------------------

/// Dictionary order by code point. It is also the order of the UTF-8 encodings.
pub open spec fn text_before(a: Seq<char>, b: Seq<char>) -> bool
    decreases a.len(),
{
    if b.len() == 0 {
        false
    } else if a.len() == 0 {
        true
    } else if a[0] != b[0] {
        a[0] < b[0]
    } else {
        text_before(a.drop_first(), b.drop_first())
    }
}

pub proof fn lemma_text_before_irreflexive(a: Seq<char>)
    ensures
        !text_before(a, a),
    decreases a.len(),
{
    if a.len() > 0 {
        lemma_text_before_irreflexive(a.drop_first());
    }
}

pub proof fn lemma_text_before_transitive(a: Seq<char>, b: Seq<char>, c: Seq<char>)
    requires
        text_before(a, b),
        text_before(b, c),
    ensures
        text_before(a, c),
    decreases a.len(),
{
    if a.len() > 0 && a[0] == b[0] && b[0] == c[0] {
        lemma_text_before_transitive(a.drop_first(), b.drop_first(), c.drop_first());
    }
}

pub proof fn lemma_text_before_total(a: Seq<char>, b: Seq<char>)
    ensures
        a == b || text_before(a, b) || text_before(b, a),
    decreases a.len(),
{
    if a.len() == 0 {
        assert(b.len() == 0 ==> a =~= b);
    } else if b.len() > 0 && a[0] == b[0] {
        lemma_text_before_total(a.drop_first(), b.drop_first());
        if a.drop_first() == b.drop_first() {
            assert(a =~= seq![a[0]] + a.drop_first());
            assert(b =~= seq![b[0]] + b.drop_first());
        }
    }
}

/// Does `a` come before `b` in dictionary order?
pub fn comes_before(a: &str, b: &str) -> (r: bool)
    ensures
        r == text_before(a@, b@),
{
    let x: Vec<char> = chars_of(a);
    let y: Vec<char> = chars_of(b);
    let mut i: usize = 0;
    assert(x@.skip(0) =~= x@ && y@.skip(0) =~= y@);
    loop
        invariant
            i <= x@.len(),
            i <= y@.len(),
            text_before(x@, y@) == text_before(x@.skip(i as int), y@.skip(i as int)),
            x@ == a@,
            y@ == b@,
        decreases x@.len() - i,
    {
        if i >= y.len() {
            return false;
        }
        if i >= x.len() {
            return true;
        }
        if x[i] != y[i] {
            return x[i] < y[i];
        }
        assert(x@.skip(i as int).drop_first() =~= x@.skip(i + 1));
        assert(y@.skip(i as int).drop_first() =~= y@.skip(i + 1));
        i += 1;
    }
}

// --- search ------------------------------------------------------------------

/// `part` stands in `s` at position `i`.
pub open spec fn occurs_at(s: Seq<char>, part: Seq<char>, i: int) -> bool {
    &&& 0 <= i
    &&& i + part.len() <= s.len()
    &&& s.subrange(i, i + part.len()) == part
}

/// `part` stands somewhere in `s`.
pub open spec fn has_part(s: Seq<char>, part: Seq<char>) -> bool {
    exists|i: int| occurs_at(s, part, i)
}

/// `s` begins with `part`.
pub open spec fn begins_with(s: Seq<char>, part: Seq<char>) -> bool {
    occurs_at(s, part, 0)
}

fn matches_at(s: &Vec<char>, part: &Vec<char>, at: usize) -> (r: bool)
    requires
        at <= s@.len(),
    ensures
        r == occurs_at(s@, part@, at as int),
{
    if part.len() > s.len() - at {
        return false;
    }
    for k in 0..part.len()
        invariant
            at + part@.len() <= s.len(),
            forall|j: int| 0 <= j < k ==> s@[at + j] == part@[j],
    {
        if s[at + k] != part[k] {
            assert(s@.subrange(at as int, at + part@.len())[k as int] != part@[k as int]);
            return false;
        }
    }
    assert(s@.subrange(at as int, at + part@.len()) =~= part@);
    true
}

/// Does `part` stand anywhere in `s`?
pub fn contains(s: &str, part: &str) -> (r: bool)
    ensures
        r == has_part(s@, part@),
{
    let v: Vec<char> = chars_of(s);
    let p: Vec<char> = chars_of(part);
    let mut i: usize = 0;
    loop
        invariant
            i <= v@.len(),
            v@ == s@,
            p@ == part@,
            forall|j: int| 0 <= j < i ==> !occurs_at(s@, part@, j),
        decreases v@.len() - i,
    {
        if matches_at(&v, &p, i) {
            return true;
        }
        if i == v.len() {
            return false;
        }
        i += 1;
    }
}

/// Does `s` begin with `part`?
pub fn starts_with(s: &str, part: &str) -> (r: bool)
    ensures
        r == begins_with(s@, part@),
{
    matches_at(&chars_of(s), &chars_of(part), 0)
}

/// `s` with every occurrence of `part`, found from the left and not
/// overlapping, replaced by `with`.
pub open spec fn replaced(s: Seq<char>, part: Seq<char>, with: Seq<char>) -> Seq<char>
    decreases s.len(),
{
    if s.len() == 0 {
        Seq::empty()
    } else if part.len() > 0 && occurs_at(s, part, 0) {
        with + replaced(s.skip(part.len() as int), part, with)
    } else {
        seq![s[0]] + replaced(s.drop_first(), part, with)
    }
}

/// Replaces every occurrence of `part` in `s`.
pub fn replace(s: &str, part: &str, with: &str) -> (r: String)
    requires
        part@.len() > 0,
    ensures
        r@ == replaced(s@, part@, with@),
{
    let v: Vec<char> = chars_of(s);
    let p: Vec<char> = chars_of(part);
    let mut out = String::new();
    let mut i: usize = 0;
    assert(v@.skip(0) =~= v@);
    while i < v.len()
        invariant
            i <= v@.len(),
            v@ == s@,
            p@ == part@,
            part@.len() > 0,
            out@ + replaced(s@.skip(i as int), part@, with@) == replaced(s@, part@, with@),
        decreases v@.len() - i,
    {
        let ghost rest = s@.skip(i as int);
        let ghost before = out@;
        assert(rest.subrange(0, part@.len() as int) =~= s@.subrange(i as int, i + part@.len()) || i
            + part@.len() > s@.len());
        if matches_at(&v, &p, i) {
            out.append(with);
            assert(rest.skip(part@.len() as int) =~= s@.skip(i + part@.len()));
            assert(before + (with@ + replaced(s@.skip(i + part@.len()), part@, with@)) =~= out@
                + replaced(s@.skip(i + part@.len()), part@, with@));
            i += p.len();
        } else {
            out.push(v[i]);
            assert(rest.drop_first() =~= s@.skip(i + 1));
            assert(before + (seq![s@[i as int]] + replaced(s@.skip(i + 1), part@, with@)) =~= out@
                + replaced(s@.skip(i + 1), part@, with@));
            i += 1;
        }
    }
    assert(out@ + replaced(s@.skip(i as int), part@, with@) =~= out@);
    out
}

// --- joining and padding -----------------------------------------------------

/// `parts`, one after the other, with `sep` between neighbours.
pub open spec fn joined(parts: Seq<Seq<char>>, sep: Seq<char>) -> Seq<char>
    decreases parts.len(),
{
    if parts.len() == 0 {
        Seq::empty()
    } else if parts.len() == 1 {
        parts[0]
    } else {
        joined(parts.drop_last(), sep) + sep + parts.last()
    }
}

/// Joins `parts` with `sep` between neighbours.
pub fn join(parts: &[String], sep: &str) -> (r: String)
    ensures
        r@ == joined(texts(parts@), sep@),
{
    let mut out = String::new();
    let ghost all = texts(parts@);
    for i in 0..parts.len()
        invariant
            all == texts(parts@),
            out@ == joined(all.take(i as int), sep@),
    {
        assert(all.take(i + 1).drop_last() =~= all.take(i as int));
        if i > 0 {
            out.append(sep);
            out.append(parts[i].as_str());
        } else {
            out.append(parts[i].as_str());
            assert(out@ =~= all[0]);
        }
    }
    assert(all.take(parts@.len() as int) =~= all);
    out
}

/// `n` copies of `c`.
pub open spec fn run_of(c: char, n: int) -> Seq<char> {
    Seq::new(if n > 0 { n as nat } else { 0 }, |i: int| c)
}

/// `s`, filled up on the right with blanks to `width` characters.
pub open spec fn padded_right(s: Seq<char>, width: int) -> Seq<char> {
    s + run_of(' ', width - s.len())
}

/// `s`, filled up on the left with `fill` to `width` characters.
pub open spec fn padded_left(s: Seq<char>, fill: char, width: int) -> Seq<char> {
    run_of(fill, width - s.len()) + s
}

fn fill_of(c: char, n: usize) -> (r: String)
    ensures
        r@ == run_of(c, n as int),
{
    let mut out = String::new();
    for i in 0..n
        invariant
            out@ == run_of(c, i as int),
    {
        out.push(c);
        assert(out@ =~= run_of(c, i + 1));
    }
    out
}

/// Left-aligns `s` in a field of `width` characters.
pub fn pad_right(s: &str, width: usize) -> (r: String)
    ensures
        r@ == padded_right(s@, width as int),
{
    let n: usize = s.unicode_len();
    let mut out = s.to_owned();
    if n < width {
        out.append(fill_of(' ', width - n).as_str());
    } else {
        assert(out@ =~= padded_right(s@, width as int));
    }
    out
}

/// Right-aligns `s` in a field of `width` characters.
pub fn pad_left(s: &str, fill: char, width: usize) -> (r: String)
    ensures
        r@ == padded_left(s@, fill, width as int),
{
    let n: usize = s.unicode_len();
    if n < width {
        let mut out = fill_of(fill, width - n);
        out.append(s);
        out
    } else {
        assert(s@ =~= padded_left(s@, fill, width as int));
        s.to_owned()
    }
}

// --- numbers -----------------------------------------------------------------

/// The decimal digit of value `d`.
pub open spec fn digit(d: int) -> char {
    (48 + d) as char
}

/// `n` in decimal, without leading zeros.
pub open spec fn decimal(n: nat) -> Seq<char>
    decreases n,
{
    if n < 10 {
        seq![digit(n as int)]
    } else {
        decimal(n / 10).push(digit((n % 10) as int))
    }
}

fn digit_of(d: u64) -> (c: char)
    requires
        d < 10,
    ensures
        c == digit(d as int),
{
    match d {
        0 => '0',
        1 => '1',
        2 => '2',
        3 => '3',
        4 => '4',
        5 => '5',
        6 => '6',
        7 => '7',
        8 => '8',
        _ => '9',
    }
}

/// Writes `n` in decimal.
pub fn decimal_of(n: u64) -> (r: String)
    ensures
        r@ == decimal(n as nat),
    decreases n,
{
    let mut out: String = if n < 10 {
        String::new()
    } else {
        decimal_of(n / 10)
    };
    out.push(digit_of(n % 10));
    assert(n < 10 ==> out@ =~= seq![digit(n as int)]);
    out
}

pub open spec fn is_digit(c: char) -> bool {
    '0' <= c <= '9'
}

/// The number that a row of digits stands for.
pub open spec fn digits_value(s: Seq<char>) -> nat
    decreases s.len(),
{
    if s.len() == 0 {
        0
    } else {
        (digits_value(s.drop_last()) * 10 + (s.last() as int - '0' as int)) as nat
    }
}

/// The digits of a number as one may write it: a leading `+` is allowed.
pub open spec fn unsigned_body(s: Seq<char>) -> Seq<char> {
    if s.len() > 0 && s[0] == '+' {
        s.drop_first()
    } else {
        s
    }
}

/// The number that `s` spells: an optional `+`, then one digit or more and
/// nothing else, and no greater than `max`.
pub open spec fn unsigned_value(s: Seq<char>, max: int) -> Option<nat> {
    let body = unsigned_body(s);
    if body.len() > 0 && (forall|i: int| 0 <= i < body.len() ==> is_digit(#[trigger] body[i]))
        && digits_value(body) <= max {
        Some(digits_value(body))
    } else {
        None
    }
}

proof fn lemma_digits_value_grows(s: Seq<char>, i: int)
    requires
        0 <= i <= s.len(),
        forall|j: int| 0 <= j < s.len() ==> is_digit(#[trigger] s[j]),
    ensures
        digits_value(s.take(i)) <= digits_value(s),
    decreases s.len() - i,
{
    if i < s.len() {
        lemma_digits_value_grows(s, i + 1);
        assert(s.take(i + 1).drop_last() =~= s.take(i));
        assert(is_digit(s[i]));
    } else {
        assert(s.take(i) =~= s);
    }
}

/// Reads an unsigned number of at most 64 bits.
pub fn parse_u64(s: &str) -> (r: Option<u64>)
    ensures
        match r {
            Some(n) => unsigned_value(s@, u64::MAX as int) == Some(n as nat),
            None => unsigned_value(s@, u64::MAX as int) is None,
        },
{
    let v: Vec<char> = chars_of(s);
    let start: usize = if v.len() > 0 && v[0] == '+' {
        1
    } else {
        0
    };
    let ghost body = unsigned_body(s@);
    assert(body =~= v@.skip(start as int));
    if start == v.len() {
        return None;
    }
    let mut n: u64 = 0;
    for i in start..v.len()
        invariant
            start <= v@.len(),
            body == v@.skip(start as int),
            body == unsigned_body(s@),
            forall|j: int| start <= j < i ==> is_digit(#[trigger] v@[j]),
            n == digits_value(body.take(i - start)),
    {
        let c: char = v[i];
        let ghost k = i - start;
        assert(body[k] == c);
        assert(body.take(k + 1).drop_last() =~= body.take(k));
        if !('0' <= c && c <= '9') {
            return None;
        }
        let d: u64 = (c as u32 - '0' as u32) as u64;
        if n > (u64::MAX - d) / 10 {
            proof {
                assert(n * 10 + d > u64::MAX);
                if forall|j: int| 0 <= j < body.len() ==> is_digit(#[trigger] body[j]) {
                    lemma_digits_value_grows(body, k + 1);
                }
            }
            return None;
        }
        n = n * 10 + d;
    }
    assert(body.take(body.len() as int) =~= body);
    assert forall|j: int| 0 <= j < body.len() implies is_digit(#[trigger] body[j]) by {
        assert(is_digit(v@[start + j]));
    }
    Some(n)
}

/// Reads an unsigned number of the machine's word size.
pub fn parse_usize(s: &str) -> (r: Option<usize>)
    ensures
        match r {
            Some(n) => unsigned_value(s@, usize::MAX as int) == Some(n as nat),
            None => unsigned_value(s@, usize::MAX as int) is None,
        },
{
    match parse_u64(s) {
        Some(n) => {
            if n <= usize::MAX as u64 {
                Some(n as usize)
            } else {
                None
            }
        },
        None => None,
    }
}

// --- splitting ---------------------------------------------------------------

/// The pieces of `s` between the elements that `cuts` picks out. There is
/// always one piece more than there are cuts, so the split of nothing is one
/// empty piece.
pub open spec fn pieces<T>(s: Seq<T>, cuts: spec_fn(T) -> bool) -> Seq<Seq<T>>
    decreases s.len(),
{
    if s.len() == 0 {
        seq![Seq::empty()]
    } else {
        let before = pieces(s.drop_last(), cuts);
        if cuts(s.last()) {
            before.push(Seq::empty())
        } else {
            before.drop_last().push(before.last().push(s.last()))
        }
    }
}

pub proof fn lemma_pieces_nonempty<T>(s: Seq<T>, cuts: spec_fn(T) -> bool)
    ensures
        pieces(s, cuts).len() > 0,
    decreases s.len(),
{
    if s.len() > 0 {
        lemma_pieces_nonempty(s.drop_last(), cuts);
    }
}

/// The white space of Unicode.
pub open spec fn is_blank(c: char) -> bool {
    let n = c as int;
    ||| 0x9 <= n <= 0xd
    ||| n == 0x20
    ||| n == 0x85
    ||| n == 0xa0
    ||| n == 0x1680
    ||| 0x2000 <= n <= 0x200a
    ||| n == 0x2028
    ||| n == 0x2029
    ||| n == 0x202f
    ||| n == 0x205f
    ||| n == 0x3000
}

/// Is `c` white space?
pub fn blank(c: char) -> (r: bool)
    ensures
        r == is_blank(c),
{
    let n: u32 = c as u32;
    (0x9 <= n && n <= 0xd) || n == 0x20 || n == 0x85 || n == 0xa0 || n == 0x1680 || (0x2000 <= n
        && n <= 0x200a) || n == 0x2028 || n == 0x2029 || n == 0x202f || n == 0x205f || n == 0x3000
}

/// Where to cut a text.
#[derive(Clone, Copy)]
pub enum Cut {
    /// At every occurrence of one character.
    At(char),
    /// At every blank or colon.
    BlankOrColon,
    /// At every white-space character.
    WhiteSpace,
}

impl Cut {
    pub open spec fn picks(self) -> spec_fn(char) -> bool {
        match self {
            Cut::At(sep) => |c: char| c == sep,
            Cut::BlankOrColon => |c: char| c == ' ' || c == ':',
            Cut::WhiteSpace => |c: char| is_blank(c),
        }
    }

    fn here(self, c: char) -> (r: bool)
        ensures
            r == self.picks()(c),
    {
        match self {
            Cut::At(sep) => c == sep,
            Cut::BlankOrColon => c == ' ' || c == ':',
            Cut::WhiteSpace => blank(c),
        }
    }
}

/// Cuts `s` into its pieces.
pub fn split(s: &str, cut: Cut) -> (r: Vec<String>)
    ensures
        texts(r@) == pieces(s@, cut.picks()),
{
    let v: Vec<char> = chars_of(s);
    let mut out: Vec<String> = Vec::new();
    let mut piece = String::new();
    assert(texts(out@).push(piece@) =~= pieces(v@.take(0), cut.picks()));
    for i in 0..v.len()
        invariant
            texts(out@).push(piece@) == pieces(v@.take(i as int), cut.picks()),
    {
        let ghost was = texts(out@).push(piece@);
        assert(v@.take(i + 1).drop_last() =~= v@.take(i as int));
        assert(was.drop_last() =~= texts(out@));
        if cut.here(v[i]) {
            proof {
                lemma_texts_push(out@, piece);
            }
            out.push(piece);
            piece = String::new();
        } else {
            piece.push(v[i]);
        }
        assert(texts(out@).push(piece@) =~= pieces(v@.take(i + 1), cut.picks()));
    }
    assert(v@.take(v@.len() as int) =~= s@);
    proof {
        lemma_texts_push(out@, piece);
    }
    out.push(piece);
    out
}

/// The non-empty ones of `parts`, in order.
pub open spec fn non_empty(parts: Seq<Seq<char>>) -> Seq<Seq<char>> {
    parts.filter(|p: Seq<char>| p.len() > 0)
}

/// Cuts `s` and keeps the pieces that hold something.
pub fn split_non_empty(s: &str, cut: Cut) -> (r: Vec<String>)
    ensures
        texts(r@) == non_empty(pieces(s@, cut.picks())),
{
    let parts: Vec<String> = split(s, cut);
    let mut out: Vec<String> = Vec::new();
    let ghost all = texts(parts@);
    let ghost keep = |p: Seq<char>| p.len() > 0;
    proof {
        reveal(Seq::filter);
        assert(all.take(0).filter(keep) =~= texts(out@));
    }
    for i in 0..parts.len()
        invariant
            all == texts(parts@),
            keep == (|p: Seq<char>| p.len() > 0),
            texts(out@) == all.take(i as int).filter(keep),
    {
        proof {
            reveal(Seq::filter);
            assert(all.take(i + 1).drop_last() =~= all.take(i as int));
        }
        if !parts[i].as_str().is_empty() {
            proof {
                lemma_texts_push(out@, parts@[i as int]);
            }
            out.push(parts[i].clone());
        }
    }
    assert(all.take(parts@.len() as int) =~= all);
    out
}

/// The words of `s`: what stands between white space.
pub open spec fn words_of(s: Seq<char>) -> Seq<Seq<char>> {
    non_empty(pieces(s, Cut::WhiteSpace.picks()))
}

/// `s` without the white space at its start.
pub open spec fn trimmed_start(s: Seq<char>) -> Seq<char>
    decreases s.len(),
{
    if s.len() > 0 && is_blank(s[0]) {
        trimmed_start(s.drop_first())
    } else {
        s
    }
}

/// `s` without the white space at its end.
pub open spec fn trimmed_end(s: Seq<char>) -> Seq<char>
    decreases s.len(),
{
    if s.len() > 0 && is_blank(s.last()) {
        trimmed_end(s.drop_last())
    } else {
        s
    }
}

/// `s` without the white space around it.
pub fn trim(s: &str) -> (r: String)
    ensures
        r@ == trimmed_end(trimmed_start(s@)),
{
    let v: Vec<char> = chars_of(s);
    let mut a: usize = 0;
    assert(v@.skip(0) =~= s@);
    while a < v.len() && blank(v[a])
        invariant
            a <= v@.len(),
            trimmed_start(v@.skip(a as int)) == trimmed_start(s@),
        decreases v@.len() - a,
    {
        assert(v@.skip(a as int).drop_first() =~= v@.skip(a + 1));
        a += 1;
    }
    let mut b: usize = v.len();
    assert(v@.subrange(a as int, b as int) =~= v@.skip(a as int));
    while a < b && blank(v[b - 1])
        invariant
            a <= b <= v@.len(),
            trimmed_end(v@.subrange(a as int, b as int)) == trimmed_end(trimmed_start(s@)),
        decreases b - a,
    {
        assert(v@.subrange(a as int, b as int).drop_last() =~= v@.subrange(a as int, b - 1));
        b -= 1;
    }
    string_of(&v, a, b)
}

/// A line without the carriage return that may end it.
pub open spec fn without_return(s: Seq<char>) -> Seq<char> {
    if s.len() > 0 && s.last() == '\r' {
        s.drop_last()
    } else {
        s
    }
}

/// The lines of `s`. Each ends in a line feed, with or without a carriage
/// return before it; only what follows the last line feed may do without, and
/// it is a line if it holds anything.
pub open spec fn lines_of(s: Seq<char>) -> Seq<Seq<char>> {
    let parts = pieces(s, Cut::At('\n').picks());
    let ended = parts.drop_last().map_values(|p: Seq<char>| without_return(p));
    if parts.last().len() > 0 {
        ended.push(parts.last())
    } else {
        ended
    }
}

/// Cuts `s` into its lines.
pub fn lines(s: &str) -> (r: Vec<String>)
    ensures
        texts(r@) == lines_of(s@),
{
    let parts: Vec<String> = split(s, Cut::At('\n'));
    let mut out: Vec<String> = Vec::new();
    let ghost all = texts(parts@);
    proof {
        lemma_pieces_nonempty(s@, Cut::At('\n').picks());
        assert(all.len() == parts@.len());
    }
    let last: usize = parts.len() - 1;
    for i in 0..last
        invariant
            last == parts@.len() - 1,
            all == texts(parts@),
            out@.len() == i,
            forall|j: int| 0 <= j < i ==> out@[j]@ == without_return(#[trigger] all[j]),
    {
        let v: Vec<char> = chars_of(parts[i].as_str());
        assert(v@ == all[i as int]);
        if v.len() > 0 && v[v.len() - 1] == '\r' {
            let cut: usize = v.len() - 1;
            out.push(string_of(&v, 0, cut));
            assert(v@.subrange(0, cut as int) =~= v@.drop_last());
        } else {
            out.push(parts[i].clone());
        }
    }
    assert(texts(out@) =~= all.drop_last().map_values(|p: Seq<char>| without_return(p)));
    if !parts[last].as_str().is_empty() {
        proof {
            lemma_texts_push(out@, parts@[last as int]);
        }
        out.push(parts[last].clone());
    }
    out
}

// --- character by character --------------------------------------------------

/// What `f` makes of each character of `s`, one after the other.
pub open spec fn spelled(s: Seq<char>, f: spec_fn(char) -> Seq<char>) -> Seq<char>
    decreases s.len(),
{
    if s.len() == 0 {
        Seq::empty()
    } else {
        spelled(s.drop_last(), f) + f(s.last())
    }
}

} // verus!
