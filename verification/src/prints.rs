//! Fingerprints of the files and commands that a capture went through, and
//! what they say about whether another capture is due.

use crate::paths::{self, device};
use crate::table::{Place, Table, TableKey};
use crate::text::{self, comes_before, decimal_of};
use vstd::prelude::*;
use vstd::string::*;

verus! {

// --- digests ------------------------------------------------------------------

/// What `sha2::Sha256::digest` makes of these bytes.
pub uninterp spec fn sha256_of(data: Seq<u8>) -> Seq<u8>;

/// Calls `sha2::Sha256::digest`. The digest has 32 bytes and depends on the
/// data alone; which digest it is, is left to the `sha2` crate.
#[verifier::external_body]
fn sha256_digest(data: &[u8]) -> (r: Vec<u8>)
    ensures
        r@ == sha256_of(data@),
        r@.len() == 32,
{
    <sha2::Sha256 as sha2::Digest>::digest(data).to_vec()
}

/// The hexadecimal digit of value `d`.
pub open spec fn hex_digit(d: int) -> char {
    if d < 10 {
        (48 + d) as char
    } else {
        (87 + d) as char
    }
}

/// `bytes` in hexadecimal, two digits each.
pub open spec fn hex_of(bytes: Seq<u8>) -> Seq<char>
    decreases bytes.len(),
{
    if bytes.len() == 0 {
        Seq::empty()
    } else {
        hex_of(bytes.drop_last()).push(hex_digit(bytes.last() as int / 16)).push(
            hex_digit(bytes.last() as int % 16),
        )
    }
}

/// The hexadecimal digit of value `d`.
pub fn hex_char(d: u8) -> (c: char)
    requires
        d < 16,
    ensures
        c == hex_digit(d as int),
{
    match d {
        0 => '0',
        1 => '1',
        2 => '2',
        3 => '3',
        4 => '4',
        5 => '5',
        6 => '6',
        7 => '7',
        8 => '8',
        9 => '9',
        10 => 'a',
        11 => 'b',
        12 => 'c',
        13 => 'd',
        14 => 'e',
        _ => 'f',
    }
}

/// Writes `bytes` in hexadecimal.
pub fn hex(bytes: &[u8]) -> (r: String)
    ensures
        r@ == hex_of(bytes@),
{
    let mut out = String::new();
    assert(bytes@.take(0) =~= Seq::<u8>::empty());
    for i in 0..bytes.len()
        invariant
            out@ == hex_of(bytes@.take(i as int)),
    {
        assert(bytes@.take(i + 1).drop_last() =~= bytes@.take(i as int));
        let b: u8 = bytes[i];
        out.push(hex_char(b / 16));
        out.push(hex_char(b % 16));
    }
    assert(bytes@.take(bytes@.len() as int) =~= bytes@);
    out
}

/// The SHA-256 digest of `data`, in hexadecimal.
pub open spec fn sha256_text(data: Seq<u8>) -> Seq<char> {
    hex_of(sha256_of(data))
}

/// The SHA-256 digest of `data`, in hexadecimal.
pub fn sha256(data: &[u8]) -> (r: String)
    ensures
        r@ == sha256_text(data@),
{
    hex(sha256_digest(data).as_slice())
}

// --- fingerprints -------------------------------------------------------------

/// Below this size a file is a script, whose content is what matters. Above it
/// is a compiled program, and hashing all of them would take too long.
pub const HASH_BELOW: u64 = 16384;

/// What is known of a command's file: its size, its content if it was read,
/// where it leads to if it is a link, and when it was last changed, in seconds
/// since 1970.
pub struct Probe {
    pub len: u64,
    pub content: Option<Vec<u8>>,
    pub target: String,
    pub modified: Option<u64>,
}

/// The model of a [`Probe`].
pub struct ProbeModel {
    pub len: u64,
    pub content: Option<Seq<u8>>,
    pub target: Seq<char>,
    pub modified: Option<u64>,
}

/// What optional bytes hold.
pub open spec fn optional_bytes(v: Option<Vec<u8>>) -> Option<Seq<u8>> {
    match v {
        Some(v) => Some(v@),
        None => None,
    }
}

impl View for Probe {
    type V = ProbeModel;

    open spec fn view(&self) -> ProbeModel {
        ProbeModel {
            len: self.len,
            content: optional_bytes(self.content),
            target: self.target@,
            modified: self.modified,
        }
    }
}

/// What an optional probe holds.
pub open spec fn optional_probe(p: Option<Probe>) -> Option<ProbeModel> {
    match p {
        Some(p) => Some(p@),
        None => None,
    }
}

/// The fingerprint of a command: the digest of a script, and the link target,
/// size and time of a program. Package managers put the version into the link
/// target, so that is enough to notice an upgrade.
pub open spec fn fingerprint_of(p: Option<ProbeModel>) -> Option<Seq<char>> {
    match p {
        None => None,
        Some(p) => if p.len < HASH_BELOW {
            match p.content {
                Some(data) => Some(sha256_text(data)),
                None => None,
            }
        } else {
            match p.modified {
                Some(t) => Some(
                    p.target + " "@ + text::decimal(p.len as nat) + " "@ + text::decimal(t as nat),
                ),
                None => None,
            }
        },
    }
}

/// What an optional string holds.
pub open spec fn optional_text(s: Option<String>) -> Option<Seq<char>> {
    match s {
        Some(s) => Some(s@),
        None => None,
    }
}

/// The fingerprint of a command.
pub fn fingerprint(p: &Option<Probe>) -> (r: Option<String>)
    ensures
        optional_text(r) == fingerprint_of(optional_probe(*p)),
{
    match p {
        None => None,
        Some(p) => {
            if p.len < HASH_BELOW {
                match &p.content {
                    Some(data) => Some(sha256(data.as_slice())),
                    None => None,
                }
            } else {
                match p.modified {
                    Some(t) => {
                        let mut out = p.target.clone();
                        out.append(" ");
                        out.append(decimal_of(p.len).as_str());
                        out.append(" ");
                        out.append(decimal_of(t).as_str());
                        Some(out)
                    },
                    None => None,
                }
            }
        },
    }
}

/// The digest of a sourced file, if it could be read.
pub open spec fn digest_of(content: Option<Seq<u8>>) -> Option<Seq<char>> {
    match content {
        Some(data) => Some(sha256_text(data)),
        None => None,
    }
}

/// The digest of a sourced file, if it could be read.
pub fn file_digest(content: &Option<Vec<u8>>) -> (r: Option<String>)
    ensures
        optional_text(r) == digest_of(optional_bytes(*content)),
{
    match content {
        Some(data) => Some(sha256(data.as_slice())),
        None => None,
    }
}

// --- tables of fingerprints ---------------------------------------------------

impl TableKey for String {
    open spec fn precedes(a: Seq<char>, b: Seq<char>) -> bool {
        text::text_before(a, b)
    }

    proof fn irreflexive(a: Seq<char>) {
        text::lemma_text_before_irreflexive(a);
    }

    proof fn transitive(a: Seq<char>, b: Seq<char>, c: Seq<char>) {
        text::lemma_text_before_transitive(a, b, c);
    }

    proof fn total(a: Seq<char>, b: Seq<char>) {
        text::lemma_text_before_total(a, b);
    }

    fn place(&self, other: &Self) -> (r: Place) {
        if *self == *other {
            Place::Same
        } else if comes_before(self.as_str(), other.as_str()) {
            Place::Before
        } else {
            proof {
                text::lemma_text_before_total(self@, other@);
            }
            Place::After
        }
    }
}

/// Fingerprints by path.
pub type Prints = Table<String, String>;

/// The model of a table of fingerprints.
pub type PrintsModel = Map<Seq<char>, Seq<char>>;

/// The table that comes of recording one path after the other; a path without
/// a fingerprint is passed over.
pub open spec fn recorded(files: Seq<(Seq<char>, Option<Seq<char>>)>) -> PrintsModel
    decreases files.len(),
{
    if files.len() == 0 {
        Map::empty()
    } else {
        let before = recorded(files.drop_last());
        match files.last().1 {
            Some(f) => before.insert(files.last().0, f),
            None => before,
        }
    }
}

/// What sourced files say: the digest of each that was read and is no device.
pub open spec fn source_prints(files: Seq<(String, Option<Vec<u8>>)>) -> Seq<
    (Seq<char>, Option<Seq<char>>),
> {
    files.map_values(
        |f: (String, Option<Vec<u8>>)|
            (
                f.0@,
                if paths::is_device(f.0@) {
                    None
                } else {
                    digest_of(optional_bytes(f.1))
                },
            ),
    )
}

/// What a list of paths with optional prints holds.
pub open spec fn print_models(files: Seq<(String, Option<String>)>) -> Seq<
    (Seq<char>, Option<Seq<char>>),
> {
    files.map_values(|f: (String, Option<String>)| (f.0@, optional_text(f.1)))
}

/// Records prints by path; a path without one is passed over, and a later one
/// replaces an earlier one.
pub fn record(files: &[(String, Option<String>)]) -> (r: Prints)
    ensures
        r@ == recorded(print_models(files@)),
{
    let ghost all = print_models(files@);
    let mut out: Prints = Table::new();
    assert(all.take(0) =~= Seq::<(Seq<char>, Option<Seq<char>>)>::empty());
    for i in 0..files.len()
        invariant
            all == print_models(files@),
            out@ == recorded(all.take(i as int)),
    {
        assert(all.take(i + 1).drop_last() =~= all.take(i as int));
        if let Some(h) = &files[i].1 {
            out.insert(files[i].0.clone(), h.clone());
        }
    }
    assert(all.take(files@.len() as int) =~= all);
    out
}

/// Records the digests of the sourced files. `None` stands for what is not a
/// file or could not be read.
pub fn hash_sources(files: &[(String, Option<Vec<u8>>)]) -> (r: Prints)
    ensures
        r@ == recorded(source_prints(files@)),
{
    let ghost all = source_prints(files@);
    let mut out: Vec<(String, Option<String>)> = Vec::new();
    for i in 0..files.len()
        invariant
            all == source_prints(files@),
            out@.len() == i,
            forall|j: int|
                0 <= j < i ==> (#[trigger] out@[j]).0@ == all[j].0 && optional_text(out@[j].1)
                    == all[j].1,
    {
        let print: Option<String> = if device(files[i].0.as_str()) {
            None
        } else {
            file_digest(&files[i].1)
        };
        out.push((files[i].0.clone(), print));
    }
    assert(print_models(out@) =~= all);
    record(out.as_slice())
}

/// What commands say: the fingerprint of each.
pub open spec fn command_prints(files: Seq<(String, Option<Probe>)>) -> Seq<
    (Seq<char>, Option<Seq<char>>),
> {
    files.map_values(
        |f: (String, Option<Probe>)| (f.0@, fingerprint_of(optional_probe(f.1))),
    )
}

/// Records the fingerprints of the commands. `None` stands for what could not
/// be examined.
pub fn fingerprints(files: &[(String, Option<Probe>)]) -> (r: Prints)
    ensures
        r@ == recorded(command_prints(files@)),
{
    let ghost all = command_prints(files@);
    let mut out: Vec<(String, Option<String>)> = Vec::new();
    for i in 0..files.len()
        invariant
            all == command_prints(files@),
            out@.len() == i,
            forall|j: int|
                0 <= j < i ==> (#[trigger] out@[j]).0@ == all[j].0 && optional_text(out@[j].1)
                    == all[j].1,
    {
        out.push((files[i].0.clone(), fingerprint(&files[i].1)));
    }
    assert(print_models(out@) =~= all);
    record(out.as_slice())
}

// --- what moved ---------------------------------------------------------------

/// `~ path` for a print that is different and `+ path` for one that is new.
pub open spec fn moved_lines(was: PrintsModel, now: Seq<(Seq<char>, Seq<char>)>) -> Seq<Seq<char>> {
    now.filter(
        |r: (Seq<char>, Seq<char>)| !(was.contains_key(r.0) && was[r.0] == r.1),
    ).map_values(
        |r: (Seq<char>, Seq<char>)|
            (if was.contains_key(r.0) {
                "~ "@
            } else {
                "+ "@
            }) + r.0,
    )
}

/// `- path` for a print that is gone.
pub open spec fn gone_lines(was: Seq<(Seq<char>, Seq<char>)>, now: PrintsModel) -> Seq<Seq<char>> {
    was.filter(|r: (Seq<char>, Seq<char>)| !now.contains_key(r.0)).map_values(
        |r: (Seq<char>, Seq<char>)| "- "@ + r.0,
    )
}

/// How two tables of fingerprints differ, one line for each path.
pub fn changed_sources(was: &Prints, now: &Prints) -> (r: Vec<String>)
    ensures
        text::texts(r@) == moved_lines(was@, now.rows()) + gone_lines(was.rows(), now@),
{
    let ghost nr = now.rows();
    let ghost wr = was.rows();
    let mut out: Vec<String> = Vec::new();
    let n: usize = now.len();
    let ghost moved = |r: (Seq<char>, Seq<char>)| !(was@.contains_key(r.0) && was@[r.0] == r.1);
    let ghost line = |r: (Seq<char>, Seq<char>)|
        (if was@.contains_key(r.0) {
            "~ "@
        } else {
            "+ "@
        }) + r.0;
    proof {
        reveal(Seq::filter);
        assert(text::texts(out@) =~= nr.take(0).filter(moved).map_values(line));
    }
    for i in 0..n
        invariant
            n == nr.len(),
            nr == now.rows(),
            moved == (|r: (Seq<char>, Seq<char>)|
                !(was@.contains_key(r.0) && was@[r.0] == r.1)),
            line == (|r: (Seq<char>, Seq<char>)|
                (if was@.contains_key(r.0) {
                    "~ "@
                } else {
                    "+ "@
                }) + r.0),
            text::texts(out@) == nr.take(i as int).filter(moved).map_values(line),
    {
        let path: &String = now.key_at(i);
        let print: &String = now.value_at(i);
        let ghost row = nr[i as int];
        proof {
            reveal(Seq::filter);
            assert(nr.take(i + 1).drop_last() =~= nr.take(i as int));
            assert(row == (path@, print@));
        }
        let before: Option<&String> = was.get(path);
        let same: bool = match before {
            Some(b) => *b == *print,
            None => false,
        };
        if !same {
            let mut l: String = match before {
                Some(_) => "~ ".to_owned(),
                None => "+ ".to_owned(),
            };
            l.append(path.as_str());
            proof {
                text::lemma_texts_push(out@, l);
                let kept = nr.take(i as int).filter(moved);
                assert(l@ == line(row));
                assert(kept.push(row).map_values(line) =~= kept.map_values(line).push(line(row)));
            }
            out.push(l);
        }
    }
    assert(nr.take(n as int) =~= nr);
    let ghost first = text::texts(out@);
    assert(first == moved_lines(was@, nr));
    let m: usize = was.len();
    let ghost gone = |r: (Seq<char>, Seq<char>)| !now@.contains_key(r.0);
    let ghost stone = |r: (Seq<char>, Seq<char>)| "- "@ + r.0;
    proof {
        reveal(Seq::filter);
        assert(first =~= first + wr.take(0).filter(gone).map_values(stone));
    }
    for i in 0..m
        invariant
            m == wr.len(),
            wr == was.rows(),
            gone == (|r: (Seq<char>, Seq<char>)| !now@.contains_key(r.0)),
            stone == (|r: (Seq<char>, Seq<char>)| "- "@ + r.0),
            text::texts(out@) == first + wr.take(i as int).filter(gone).map_values(stone),
    {
        let path: &String = was.key_at(i);
        let ghost row = wr[i as int];
        proof {
            reveal(Seq::filter);
            assert(wr.take(i + 1).drop_last() =~= wr.take(i as int));
        }
        if !now.contains_key(path) {
            let mut l = "- ".to_owned();
            l.append(path.as_str());
            proof {
                text::lemma_texts_push(out@, l);
                let kept = wr.take(i as int).filter(gone);
                assert(kept.push(row).map_values(stone) =~= kept.map_values(stone).push(stone(row)));
                assert((first + kept.map_values(stone)).push(l@) =~= first + kept.map_values(
                    stone,
                ).push(l@));
            }
            out.push(l);
        }
    }
    assert(wr.take(m as int) =~= wr);
    out
}

} // verus!
