//! Ordered lists of path-like entries: when two entries are the same, which
//! entries of a list count, and what two lists have in common.

use crate::text::{self, chars_of, listed, string_of};
use vstd::prelude::*;
use vstd::string::*;

verus! {

// --- one entry ---------------------------------------------------------------

/// `s` with every run of slashes shortened to one.
pub open spec fn collapsed(s: Seq<char>) -> Seq<char>
    decreases s.len(),
{
    if s.len() == 0 {
        Seq::empty()
    } else {
        let before = s.drop_last();
        if s.last() == '/' && before.len() > 0 && before.last() == '/' {
            collapsed(before)
        } else {
            collapsed(before).push(s.last())
        }
    }
}

/// `s` without the slashes that end it; a lone slash stays.
pub open spec fn stripped(s: Seq<char>) -> Seq<char>
    decreases s.len(),
{
    if s.len() > 1 && s.last() == '/' {
        stripped(s.drop_last())
    } else {
        s
    }
}

/// The form of an entry that comparisons go by. It is lexical: doubled and
/// trailing slashes do not count, and nothing is looked up on disk.
pub open spec fn norm_of(s: Seq<char>) -> Seq<char> {
    stripped(collapsed(s))
}

/// The form of an entry that comparisons go by.
pub fn norm(s: &str) -> (r: String)
    ensures
        r@ == norm_of(s@),
{
    let v: Vec<char> = chars_of(s);
    let mut kept: Vec<char> = Vec::new();
    assert(v@.take(0) =~= Seq::<char>::empty());
    for i in 0..v.len()
        invariant
            kept@ == collapsed(v@.take(i as int)),
    {
        assert(v@.take(i + 1).drop_last() =~= v@.take(i as int));
        if !(v[i] == '/' && i > 0 && v[i - 1] == '/') {
            kept.push(v[i]);
        }
    }
    assert(v@.take(v@.len() as int) =~= s@);
    let mut n: usize = kept.len();
    assert(kept@.take(n as int) =~= kept@);
    while n > 1 && kept[n - 1] == '/'
        invariant
            n <= kept@.len(),
            stripped(kept@.take(n as int)) == stripped(kept@),
        decreases n,
    {
        assert(kept@.take(n as int).drop_last() =~= kept@.take(n - 1));
        n -= 1;
    }
    assert(kept@.subrange(0, n as int) =~= kept@.take(n as int));
    string_of(&kept, 0, n)
}

/// The compared forms of a list of entries.
pub open spec fn norms_of(v: Seq<Seq<char>>) -> Seq<Seq<char>> {
    v.map_values(|s: Seq<char>| norm_of(s))
}

/// The compared forms of a list of entries.
pub fn norms(v: &[String]) -> (r: Vec<String>)
    ensures
        text::texts(r@) == norms_of(text::texts(v@)),
{
    let mut out: Vec<String> = Vec::new();
    for i in 0..v.len()
        invariant
            out@.len() == i,
            forall|j: int| 0 <= j < i ==> out@[j]@ == norm_of(v@[j]@),
    {
        out.push(norm(v[i].as_str()));
    }
    assert(text::texts(out@) =~= norms_of(text::texts(v@)));
    out
}

// --- duplicates --------------------------------------------------------------

/// `v` without the entries that an earlier one already stands for.
pub open spec fn deduped(v: Seq<Seq<char>>) -> Seq<Seq<char>>
    decreases v.len(),
{
    if v.len() == 0 {
        Seq::empty()
    } else {
        let before = deduped(v.drop_last());
        if norms_of(v.drop_last()).contains(norm_of(v.last())) {
            before
        } else {
            before.push(v.last())
        }
    }
}

/// Keeps the first of the entries that are the same.
pub fn dedup(v: &[String]) -> (r: Vec<String>)
    ensures
        text::texts(r@) == deduped(text::texts(v@)),
{
    let mut out: Vec<String> = Vec::new();
    let mut seen: Vec<String> = Vec::new();
    let ghost all = text::texts(v@);
    assert(all.take(0) =~= Seq::<Seq<char>>::empty());
    assert(text::texts(out@) =~= Seq::<Seq<char>>::empty());
    assert(text::texts(seen@) =~= norms_of(all.take(0)));
    for i in 0..v.len()
        invariant
            all == text::texts(v@),
            text::texts(out@) == deduped(all.take(i as int)),
            text::texts(seen@) == norms_of(all.take(i as int)),
    {
        let n = norm(v[i].as_str());
        assert(all.take(i + 1).drop_last() =~= all.take(i as int));
        if !listed(seen.as_slice(), n.as_str()) {
            proof {
                text::lemma_texts_push(out@, v@[i as int]);
            }
            out.push(v[i].clone());
        }
        proof {
            text::lemma_texts_push(seen@, n);
            assert(text::texts(seen@.push(n)) =~= norms_of(all.take(i + 1)));
        }
        seen.push(n);
    }
    assert(all.take(v@.len() as int) =~= all);
    out
}

// --- longest common subsequence ----------------------------------------------

/// The length of the longest sequence that runs through both `a` from `i` on
/// and `b` from `j` on.
pub open spec fn common_len(a: Seq<Seq<char>>, b: Seq<Seq<char>>, i: int, j: int) -> nat
    decreases a.len() - i, b.len() - j,
{
    if i >= a.len() || j >= b.len() {
        0
    } else if a[i] == b[j] {
        common_len(a, b, i + 1, j + 1) + 1
    } else {
        let skip_a = common_len(a, b, i + 1, j);
        let skip_b = common_len(a, b, i, j + 1);
        if skip_a >= skip_b {
            skip_a
        } else {
            skip_b
        }
    }
}

/// The places, in `a` and in `b`, of one longest common subsequence: where
/// both ways on are equally long, the element of `a` is passed over.
pub open spec fn common_walk(a: Seq<Seq<char>>, b: Seq<Seq<char>>, i: int, j: int) -> Seq<(int, int)>
    decreases a.len() - i, b.len() - j,
{
    if i >= a.len() || j >= b.len() {
        Seq::empty()
    } else if a[i] == b[j] {
        seq![(i, j)] + common_walk(a, b, i + 1, j + 1)
    } else if common_len(a, b, i + 1, j) >= common_len(a, b, i, j + 1) {
        common_walk(a, b, i + 1, j)
    } else {
        common_walk(a, b, i, j + 1)
    }
}

/// `walk` picks equal elements of `a` from `i` on and of `b` from `j` on, in
/// the order of both.
pub open spec fn is_common(
    a: Seq<Seq<char>>,
    b: Seq<Seq<char>>,
    i: int,
    j: int,
    walk: Seq<(int, int)>,
) -> bool {
    &&& forall|k: int|
        0 <= k < walk.len() ==> i <= (#[trigger] walk[k]).0 < a.len() && j <= walk[k].1 < b.len()
            && a[walk[k].0] == b[walk[k].1]
    &&& forall|k: int, l: int|
        0 <= k < l < walk.len() ==> (#[trigger] walk[k]).0 < (#[trigger] walk[l]).0 && walk[k].1
            < walk[l].1
}

/// What the walk picks out is a common subsequence, of the length that
/// `common_len` gives.
pub proof fn common_walk_is_common(a: Seq<Seq<char>>, b: Seq<Seq<char>>, i: int, j: int)
    requires
        0 <= i,
        0 <= j,
    ensures
        is_common(a, b, i, j, common_walk(a, b, i, j)),
        common_walk(a, b, i, j).len() == common_len(a, b, i, j),
    decreases a.len() - i, b.len() - j,
{
    if i < a.len() && j < b.len() {
        if a[i] == b[j] {
            common_walk_is_common(a, b, i + 1, j + 1);
            let rest = common_walk(a, b, i + 1, j + 1);
            let walk = common_walk(a, b, i, j);
            assert forall|k: int| 0 <= k < walk.len() implies i <= (#[trigger] walk[k]).0 < a.len()
                && j <= walk[k].1 < b.len() && a[walk[k].0] == b[walk[k].1] by {
                if k > 0 {
                    assert(walk[k] == rest[k - 1]);
                }
            }
            assert forall|k: int, l: int| 0 <= k < l < walk.len() implies (#[trigger] walk[k]).0 < (
            #[trigger] walk[l]).0 && walk[k].1 < walk[l].1 by {
                assert(walk[l] == rest[l - 1]);
                if k > 0 {
                    assert(walk[k] == rest[k - 1]);
                }
            }
        } else if common_len(a, b, i + 1, j) >= common_len(a, b, i, j + 1) {
            common_walk_is_common(a, b, i + 1, j);
        } else {
            common_walk_is_common(a, b, i, j + 1);
        }
    }
}

/// No common subsequence of two lists is longer than the walk.
pub proof fn common_walk_is_longest(
    a: Seq<Seq<char>>,
    b: Seq<Seq<char>>,
    i: int,
    j: int,
    other: Seq<(int, int)>,
)
    requires
        0 <= i,
        0 <= j,
        is_common(a, b, i, j, other),
    ensures
        other.len() <= common_walk(a, b, i, j).len(),
    decreases a.len() - i, b.len() - j,
{
    common_walk_is_common(a, b, i, j);
    if other.len() > 0 {
        let (x, y) = other[0];
        assert(i <= x < a.len() && j <= y < b.len() && a[x] == b[y]);
        let rest = other.drop_first();
        assert forall|k: int| 0 <= k < rest.len() implies x < (#[trigger] rest[k]).0 < a.len() && y
            < rest[k].1 < b.len() && a[rest[k].0] == b[rest[k].1] by {
            assert(rest[k] == other[k + 1]);
            assert(other[0].0 < other[k + 1].0);
        }
        if a[i] == b[j] {
            assert(is_common(a, b, i + 1, j + 1, rest)) by {
                assert forall|k: int, l: int| 0 <= k < l < rest.len() implies (#[trigger] rest[k]).0
                    < (#[trigger] rest[l]).0 && rest[k].1 < rest[l].1 by {
                    assert(rest[k] == other[k + 1] && rest[l] == other[l + 1]);
                }
            }
            common_walk_is_longest(a, b, i + 1, j + 1, rest);
            common_walk_is_common(a, b, i + 1, j + 1);
        } else if x > i {
            assert forall|k: int| 0 <= k < other.len() implies i + 1 <= (#[trigger] other[k]).0 by {
                if k > 0 {
                    assert(other[0].0 < other[k].0);
                }
            }
            assert(is_common(a, b, i + 1, j, other));
            common_walk_is_longest(a, b, i + 1, j, other);
            common_walk_is_common(a, b, i + 1, j);
        } else {
            assert forall|k: int| 0 <= k < other.len() implies j + 1 <= (#[trigger] other[k]).1 by {
                if k > 0 {
                    assert(other[0].1 < other[k].1);
                }
            }
            assert(is_common(a, b, i, j + 1, other));
            common_walk_is_longest(a, b, i, j + 1, other);
            common_walk_is_common(a, b, i, j + 1);
        }
    }
}

/// The places in `v` as numbers.
pub open spec fn places(v: Seq<(usize, usize)>) -> Seq<(int, int)> {
    v.map_values(|p: (usize, usize)| (p.0 as int, p.1 as int))
}

/// `rows` is the table of `common_len`, stored from the far corner: row `k`
/// belongs to place `x.len() - k` and its cell `m` to place `y.len() - m`.
spec fn is_common_table(x: Seq<Seq<char>>, y: Seq<Seq<char>>, rows: Seq<Vec<usize>>) -> bool {
    &&& forall|k: int| 0 <= k < rows.len() ==> (#[trigger] rows[k])@.len() == y.len() + 1
    &&& forall|k: int, m: int|
        0 <= k < rows.len() && 0 <= m <= y.len() ==> #[trigger] rows[k]@[m] == common_len(
            x,
            y,
            x.len() - k,
            y.len() - m,
        )
}

fn common_table(a: &Vec<String>, b: &Vec<String>) -> (rows: Vec<Vec<usize>>)
    ensures
        rows@.len() == a@.len() + 1,
        is_common_table(text::texts(a@), text::texts(b@), rows@),
{
    let ghost x = text::texts(a@);
    let ghost y = text::texts(b@);
    let mut rows: Vec<Vec<usize>> = Vec::new();
    let mut last: Vec<usize> = Vec::new();
    last.push(0);
    for m in 0..b.len()
        invariant
            last@.len() == m + 1,
            forall|k: int| 0 <= k <= m ==> last@[k] == 0,
    {
        last.push(0);
    }
    rows.push(last);
    let mut i: usize = a.len();
    while i > 0
        invariant
            i <= a.len(),
            x == text::texts(a@),
            y == text::texts(b@),
            rows@.len() == a@.len() - i + 1,
            is_common_table(x, y, rows@),
        decreases i,
    {
        let above: usize = rows.len() - 1;
        let mut row: Vec<usize> = Vec::new();
        row.push(0);
        let mut j: usize = b.len();
        while j > 0
            invariant
                0 < i <= a.len(),
                j <= b.len(),
                x == text::texts(a@),
                y == text::texts(b@),
                above == a@.len() - i,
                above < rows@.len(),
                is_common_table(x, y, rows@),
                row@.len() == b@.len() - j + 1,
                forall|m: int|
                    0 <= m < row@.len() ==> #[trigger] row@[m] == common_len(
                        x,
                        y,
                        i - 1,
                        y.len() - m,
                    ),
            decreases j,
        {
            let at: usize = row.len() - 1;
            assert(rows@[above as int]@.len() == y.len() + 1);
            assert(rows@[above as int]@[at as int] == common_len(x, y, i as int, j as int));
            assert(rows@[above as int]@[at + 1] == common_len(x, y, i as int, j - 1));
            assert(row@[at as int] == common_len(x, y, i - 1, j as int));
            proof {
                lemma_common_len_bound(x, y, i as int, j as int);
            }
            let cell: usize = if a[i - 1] == b[j - 1] {
                rows[above][at] + 1
            } else {
                let skip_a: usize = rows[above][at + 1];
                let skip_b: usize = row[at];
                if skip_a >= skip_b {
                    skip_a
                } else {
                    skip_b
                }
            };
            assert(x[i - 1] == a@[i - 1]@ && y[j - 1] == b@[j - 1]@);
            row.push(cell);
            j -= 1;
        }
        let ghost before = rows@;
        rows.push(row);
        i -= 1;
        assert forall|k: int, m: int|
            0 <= k < rows@.len() && 0 <= m <= y.len() implies #[trigger] rows@[k]@[m] == common_len(
            x,
            y,
            x.len() - k,
            y.len() - m,
        ) by {
            if k < before.len() {
                assert(rows@[k] == before[k]);
            }
        }
    }
    rows
}

proof fn lemma_common_len_bound(a: Seq<Seq<char>>, b: Seq<Seq<char>>, i: int, j: int)
    requires
        0 <= i <= a.len(),
        0 <= j,
    ensures
        common_len(a, b, i, j) <= a.len() - i,
    decreases a.len() - i, b.len() - j,
{
    if i < a.len() && j < b.len() {
        if a[i] == b[j] {
            lemma_common_len_bound(a, b, i + 1, j + 1);
        } else {
            lemma_common_len_bound(a, b, i + 1, j);
            lemma_common_len_bound(a, b, i, j + 1);
        }
    }
}

/// The places of the entries that two lists have in common, in the order of
/// both. Entries are compared in their compared form.
pub fn lcs(old: &[String], new: &[String]) -> (r: Vec<(usize, usize)>)
    ensures
        places(r@) == common_walk(norms_of(text::texts(old@)), norms_of(text::texts(new@)), 0, 0),
{
    let a: Vec<String> = norms(old);
    let b: Vec<String> = norms(new);
    let ghost x = text::texts(a@);
    let ghost y = text::texts(b@);
    let rows: Vec<Vec<usize>> = common_table(&a, &b);
    let mut out: Vec<(usize, usize)> = Vec::new();
    let mut i: usize = 0;
    let mut j: usize = 0;
    assert(places(out@) + common_walk(x, y, 0, 0) =~= common_walk(x, y, 0, 0));
    while i < a.len() && j < b.len()
        invariant
            i <= a.len(),
            j <= b.len(),
            x == text::texts(a@),
            y == text::texts(b@),
            rows@.len() == a@.len() + 1,
            is_common_table(x, y, rows@),
            places(out@) + common_walk(x, y, i as int, j as int) == common_walk(x, y, 0, 0),
        decreases a@.len() - i, b@.len() - j,
    {
        assert(x[i as int] == a@[i as int]@ && y[j as int] == b@[j as int]@);
        assert(rows@[a@.len() - (i + 1)]@[b@.len() - j] == common_len(x, y, i + 1, j as int));
        assert(rows@[a@.len() - i]@[b@.len() - (j + 1)] == common_len(x, y, i as int, j + 1));
        if a[i] == b[j] {
            let ghost before = out@;
            out.push((i, j));
            assert(places(out@) =~= places(before).push((i as int, j as int)));
            assert(places(before) + (seq![(i as int, j as int)] + common_walk(x, y, i + 1, j + 1))
                =~= places(out@) + common_walk(x, y, i + 1, j + 1));
            i += 1;
            j += 1;
        } else if rows[a.len() - i - 1][b.len() - j] >= rows[a.len() - i][b.len() - j - 1] {
            i += 1;
        } else {
            j += 1;
        }
    }
    assert(places(out@) + common_walk(x, y, i as int, j as int) =~= places(out@));
    out
}

} // verus!
