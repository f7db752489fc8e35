//! The files and commands that the last capture went through: have they moved,
//! and what do they look like now?

use crate::prints::{
    self, file_digest, fingerprint, sha256, Prints, Probe,
};
use crate::store::Meta;
use crate::text;
use vstd::prelude::*;
use vstd::string::*;

verus! {

/// The digests of files as they are now.
pub open spec fn digests_now(files: Seq<Option<Vec<u8>>>) -> Seq<Option<Seq<char>>> {
    files.map_values(|f: Option<Vec<u8>>| prints::digest_of(prints::optional_bytes(f)))
}

/// The fingerprints of commands as they are now.
pub open spec fn fingerprints_now(files: Seq<Option<Probe>>) -> Seq<Option<Seq<char>>> {
    files.map_values(|f: Option<Probe>| prints::fingerprint_of(prints::optional_probe(f)))
}

/// The first path whose print is no longer what was recorded.
pub open spec fn first_moved(rows: Seq<(Seq<char>, Seq<char>)>, now: Seq<Option<Seq<char>>>) -> Option<
    Seq<char>,
>
    decreases rows.len(),
{
    if rows.len() == 0 {
        None
    } else {
        match first_moved(rows.drop_last(), now) {
            Some(p) => Some(p),
            None => if now[rows.len() - 1] != Some(rows.last().1) {
                Some(rows.last().0)
            } else {
                None
            },
        }
    }
}

/// The first tracked file, or else the first tracked command, that has moved.
pub open spec fn moved_dep(
    meta: Meta,
    files: Seq<Option<Seq<char>>>,
    commands: Seq<Option<Seq<char>>>,
) -> Option<Seq<char>> {
    match first_moved(meta.sources.rows(), files) {
        Some(p) => Some(p),
        None => first_moved(meta.commands.rows(), commands),
    }
}

/// Is the print what was recorded?
fn is_same(now: &Option<String>, was: &String) -> (r: bool)
    ensures
        r == (prints::optional_text(*now) == Some(was@)),
{
    match now {
        Some(n) => *n == *was,
        None => false,
    }
}

/// The first path of a table whose print has moved, with the prints as they are
/// now given, one for each row.
pub fn moved_among(table: &Prints, now: &[Option<String>]) -> (r: Option<String>)
    requires
        now@.len() == table.rows().len(),
    ensures
        prints::optional_text(r) == first_moved(
            table.rows(),
            now@.map_values(|p: Option<String>| prints::optional_text(p)),
        ),
{
    let ghost rows = table.rows();
    let ghost seen = now@.map_values(|p: Option<String>| prints::optional_text(p));
    let n: usize = table.len();
    assert(rows.take(0) =~= Seq::<(Seq<char>, Seq<char>)>::empty());
    for i in 0..n
        invariant
            n == rows.len(),
            n == now@.len(),
            rows == table.rows(),
            seen == now@.map_values(|p: Option<String>| prints::optional_text(p)),
            first_moved(rows.take(i as int), seen) is None,
    {
        assert(rows.take(i + 1).drop_last() =~= rows.take(i as int));
        assert(seen[i as int] == prints::optional_text(now@[i as int]));
        if !is_same(&now[i], table.value_at(i)) {
            proof {
                lemma_moved_stays(rows, seen, i + 1);
            }
            return Some(table.key_at(i).clone());
        }
    }
    assert(rows.take(n as int) =~= rows);
    None
}

proof fn lemma_moved_stays(
    rows: Seq<(Seq<char>, Seq<char>)>,
    now: Seq<Option<Seq<char>>>,
    k: int,
)
    requires
        0 <= k <= rows.len(),
        first_moved(rows.take(k), now) is Some,
    ensures
        first_moved(rows, now) == first_moved(rows.take(k), now),
    decreases rows.len(),
{
    if k < rows.len() {
        assert(rows.drop_last().take(k) =~= rows.take(k));
        lemma_moved_stays(rows.drop_last(), now, k);
    } else {
        assert(rows.take(k) =~= rows);
    }
}

fn digests(files: &[Option<Vec<u8>>]) -> (r: Vec<Option<String>>)
    ensures
        r@.map_values(|p: Option<String>| prints::optional_text(p)) == digests_now(files@),
{
    let mut out: Vec<Option<String>> = Vec::new();
    for i in 0..files.len()
        invariant
            out@.len() == i,
            forall|j: int|
                0 <= j < i ==> prints::optional_text(#[trigger] out@[j]) == prints::digest_of(
                    prints::optional_bytes(files@[j]),
                ),
    {
        out.push(file_digest(&files[i]));
    }
    assert(out@.map_values(|p: Option<String>| prints::optional_text(p)) =~= digests_now(files@));
    out
}

fn current_fingerprints(files: &[Option<Probe>]) -> (r: Vec<Option<String>>)
    ensures
        r@.map_values(|p: Option<String>| prints::optional_text(p)) == fingerprints_now(files@),
{
    let mut out: Vec<Option<String>> = Vec::new();
    for i in 0..files.len()
        invariant
            out@.len() == i,
            forall|j: int|
                0 <= j < i ==> prints::optional_text(#[trigger] out@[j])
                    == prints::fingerprint_of(prints::optional_probe(files@[j])),
    {
        out.push(fingerprint(&files[i]));
    }
    assert(out@.map_values(|p: Option<String>| prints::optional_text(p)) =~= fingerprints_now(
        files@,
    ));
    out
}

/// The first tracked file or command whose print no longer matches. The files
/// are given as they are now, one for each row of the two tables.
pub fn stale_dep(meta: &Meta, files: &[Option<Vec<u8>>], commands: &[Option<Probe>]) -> (r: Option<
    String,
>)
    requires
        files@.len() == meta.sources.rows().len(),
        commands@.len() == meta.commands.rows().len(),
    ensures
        prints::optional_text(r) == moved_dep(
            *meta,
            digests_now(files@),
            fingerprints_now(commands@),
        ),
{
    let f: Vec<Option<String>> = digests(files);
    assert(f@.len() == digests_now(files@).len());
    match moved_among(&meta.sources, f.as_slice()) {
        Some(p) => Some(p),
        None => {
            let c: Vec<Option<String>> = current_fingerprints(commands);
            assert(c@.len() == fingerprints_now(commands@).len());
            moved_among(&meta.commands, c.as_slice())
        },
    }
}

// --- the digest of it all -----------------------------------------------------

/// A print, or nothing where there is none.
pub open spec fn print_or_empty(p: Option<Seq<char>>) -> Seq<char> {
    match p {
        Some(p) => p,
        None => Seq::empty(),
    }
}

/// A line for each path with its print as it is now.
pub open spec fn print_lines(rows: Seq<(Seq<char>, Seq<char>)>, now: Seq<Option<Seq<char>>>) -> Seq<
    char,
>
    decreases rows.len(),
{
    if rows.len() == 0 {
        Seq::empty()
    } else {
        print_lines(rows.drop_last(), now) + rows.last().0 + "\0"@ + print_or_empty(
            now[rows.len() - 1],
        ) + "\n"@
    }
}

/// The tracked files and commands as they are now, in one digest. It is empty
/// when nothing is tracked yet, which must never count as a match.
pub open spec fn digest_now(
    meta: Meta,
    files: Seq<Option<Seq<char>>>,
    commands: Seq<Option<Seq<char>>>,
) -> Seq<char> {
    if meta.sources.rows().len() == 0 && meta.commands.rows().len() == 0 {
        Seq::empty()
    } else {
        prints::sha256_text(
            vstd::utf8::encode_utf8(
                print_lines(meta.sources.rows(), files) + print_lines(
                    meta.commands.rows(),
                    commands,
                ),
            ),
        )
    }
}

fn add_prints(out: &mut String, table: &Prints, now: &[Option<String>])
    requires
        now@.len() == table.rows().len(),
    ensures
        final(out)@ == old(out)@ + print_lines(
            table.rows(),
            now@.map_values(|p: Option<String>| prints::optional_text(p)),
        ),
{
    let ghost was = out@;
    let ghost rows = table.rows();
    let ghost seen = now@.map_values(|p: Option<String>| prints::optional_text(p));
    let n: usize = table.len();
    assert(rows.take(0) =~= Seq::<(Seq<char>, Seq<char>)>::empty());
    assert(was =~= was + print_lines(rows.take(0), seen));
    for i in 0..n
        invariant
            n == rows.len(),
            n == now@.len(),
            rows == table.rows(),
            seen == now@.map_values(|p: Option<String>| prints::optional_text(p)),
            out@ == was + print_lines(rows.take(i as int), seen),
    {
        assert(rows.take(i + 1).drop_last() =~= rows.take(i as int));
        assert(seen[i as int] == prints::optional_text(now@[i as int]));
        let ghost before = print_lines(rows.take(i as int), seen);
        out.append(table.key_at(i).as_str());
        out.append("\0");
        match &now[i] {
            Some(p) => {
                out.append(p.as_str());
            },
            None => {},
        }
        out.append("\n");
        assert(out@ =~= was + (before + rows[i as int].0 + "\0"@ + print_or_empty(seen[i as int])
            + "\n"@));
    }
    assert(rows.take(n as int) =~= rows);
}

/// The text that the digest is made of, with the prints as they are now given,
/// one for each row of the two tables.
pub fn print_text(meta: &Meta, files: &[Option<String>], commands: &[Option<String>]) -> (r: String)
    requires
        files@.len() == meta.sources.rows().len(),
        commands@.len() == meta.commands.rows().len(),
    ensures
        r@ == print_lines(
            meta.sources.rows(),
            files@.map_values(|p: Option<String>| prints::optional_text(p)),
        ) + print_lines(
            meta.commands.rows(),
            commands@.map_values(|p: Option<String>| prints::optional_text(p)),
        ),
{
    let mut buf = String::new();
    add_prints(&mut buf, &meta.sources, files);
    let ghost first = print_lines(
        meta.sources.rows(),
        files@.map_values(|p: Option<String>| prints::optional_text(p)),
    );
    assert(buf@ =~= first);
    add_prints(&mut buf, &meta.commands, commands);
    buf
}

/// The tracked files and commands as they are now, in one digest. [`stale_dep`]
/// asks whether they are what was last published; this is for the question
/// whether they are what was last captured.
pub fn dep_digest(meta: &Meta, files: &[Option<Vec<u8>>], commands: &[Option<Probe>]) -> (r: String)
    requires
        files@.len() == meta.sources.rows().len(),
        commands@.len() == meta.commands.rows().len(),
    ensures
        r@ == digest_now(*meta, digests_now(files@), fingerprints_now(commands@)),
{
    if meta.sources.is_empty() && meta.commands.is_empty() {
        let none = String::new();
        assert(none@ =~= Seq::<char>::empty());
        return none;
    }
    let f: Vec<Option<String>> = digests(files);
    let c: Vec<Option<String>> = current_fingerprints(commands);
    assert(f@.len() == digests_now(files@).len());
    assert(c@.len() == fingerprints_now(commands@).len());
    let buf: String = print_text(meta, f.as_slice(), c.as_slice());
    sha256(buf.as_str().as_bytes())
}

// --- what is recorded ---------------------------------------------------------

/// What a capture that answers for itself records: its prints, and no memory
/// of an earlier one that did not publish.
pub fn fresh_meta(sources: Prints, commands: Prints) -> (r: Meta)
    ensures
        r.bootstrap@.len() == 0,
        r.sources == sources,
        r.commands == commands,
        r.stalled@.len() == 0,
{
    Meta { bootstrap: String::new(), sources, commands, stalled: String::new() }
}

/// What a capture that may not publish records: nothing but the digest that it
/// was made for.
pub fn stalled_meta(meta: Meta, digest: String) -> (r: Meta)
    ensures
        r == (Meta { stalled: digest, ..meta }),
{
    Meta { bootstrap: meta.bootstrap, sources: meta.sources, commands: meta.commands, stalled: digest }
}

// --- laws ---------------------------------------------------------------------

/// Nothing has moved exactly when every print is what was recorded.
pub proof fn nothing_moved_iff_all_match(
    rows: Seq<(Seq<char>, Seq<char>)>,
    now: Seq<Option<Seq<char>>>,
)
    ensures
        first_moved(rows, now) is None <==> forall|i: int|
            0 <= i < rows.len() ==> now[i] == Some((#[trigger] rows[i]).1),
    decreases rows.len(),
{
    if rows.len() > 0 {
        let before = rows.drop_last();
        nothing_moved_iff_all_match(before, now);
        if first_moved(rows, now) is None {
            assert forall|i: int| 0 <= i < rows.len() implies now[i] == Some(
                (#[trigger] rows[i]).1,
            ) by {
                if i < before.len() {
                    assert(before[i] == rows[i]);
                }
            }
        }
        if forall|i: int| 0 <= i < rows.len() ==> now[i] == Some((#[trigger] rows[i]).1) {
            assert forall|i: int| 0 <= i < before.len() implies now[i] == Some(
                (#[trigger] before[i]).1,
            ) by {
                assert(before[i] == rows[i]);
            }
            assert(rows[rows.len() - 1] == rows.last());
        }
    }
}

/// A capture that may not publish leaves the question whether anything has
/// moved as it was: the prompt goes on asking.
pub proof fn stalling_leaves_prints_stale(
    meta: Meta,
    digest: String,
    files: Seq<Option<Seq<char>>>,
    commands: Seq<Option<Seq<char>>>,
)
    ensures
        moved_dep(Meta { stalled: digest, ..meta }, files, commands) == moved_dep(
            meta,
            files,
            commands,
        ),
        digest_now(Meta { stalled: digest, ..meta }, files, commands) == digest_now(
            meta,
            files,
            commands,
        ),
{
}

} // verus!
