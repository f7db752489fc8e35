//! File paths, as text and as bytes: which spellings name the same file, and
//! how a name is put under a directory.

use crate::text::{self, same, split_non_empty, starts_with, Cut};
use vstd::prelude::*;
use vstd::string::*;

verus! {

/// The components of a path. Repeated and trailing slashes do not count, and
/// neither does a `.` except at the very start of a relative path.
#[verifier::ext_equal]
pub struct PathModel {
    pub rooted: bool,
    pub parts: Seq<Seq<char>>,
}

pub open spec fn is_rooted(s: Seq<char>) -> bool {
    text::begins_with(s, "/"@)
}

/// The names between the slashes of a path.
pub open spec fn path_names(s: Seq<char>) -> Seq<Seq<char>> {
    text::non_empty(text::pieces(s, Cut::At('/').picks()))
}

/// The components that `s` names.
pub open spec fn path_model(s: Seq<char>) -> PathModel {
    let names = path_names(s);
    let rest = names.filter(|n: Seq<char>| n != "."@);
    PathModel {
        rooted: is_rooted(s),
        parts: if !is_rooted(s) && names.len() > 0 && names[0] == "."@ {
            seq!["."@] + rest
        } else {
            rest
        },
    }
}

/// A path taken apart.
pub struct PathParts {
    pub rooted: bool,
    pub parts: Vec<String>,
}

impl View for PathParts {
    type V = PathModel;

    open spec fn view(&self) -> PathModel {
        PathModel { rooted: self.rooted, parts: text::texts(self.parts@) }
    }
}

/// Takes a path apart.
pub fn components(s: &str) -> (r: PathParts)
    ensures
        r@ == path_model(s@),
{
    let rooted: bool = starts_with(s, "/");
    let names: Vec<String> = split_non_empty(s, Cut::At('/'));
    let ghost all = text::texts(names@);
    let ghost keep = |n: Seq<char>| n != "."@;
    let mut parts: Vec<String> = Vec::new();
    if !rooted && names.len() > 0 && same(names[0].as_str(), ".") {
        parts.push(".".to_owned());
    }
    let ghost lead = text::texts(parts@);
    proof {
        reveal(Seq::filter);
        assert(lead =~= lead + all.take(0).filter(keep));
    }
    for i in 0..names.len()
        invariant
            all == text::texts(names@),
            keep == (|n: Seq<char>| n != "."@),
            text::texts(parts@) == lead + all.take(i as int).filter(keep),
    {
        proof {
            reveal(Seq::filter);
            assert(all.take(i + 1).drop_last() =~= all.take(i as int));
        }
        if !same(names[i].as_str(), ".") {
            proof {
                text::lemma_texts_push(parts@, names@[i as int]);
                assert((lead + all.take(i as int).filter(keep)).push(all[i as int]) =~= lead
                    + all.take(i as int).filter(keep).push(all[i as int]));
            }
            parts.push(names[i].clone());
        }
    }
    assert(all.take(names@.len() as int) =~= all);
    let r = PathParts { rooted, parts };
    assert(r@ =~= path_model(s@));
    r
}

/// Do the two spellings name the same path?
pub fn same_path(a: &str, b: &str) -> (r: bool)
    ensures
        r == (path_model(a@) == path_model(b@)),
{
    let x: PathParts = components(a);
    let y: PathParts = components(b);
    let r: bool = x.rooted == y.rooted && crate::state::same_texts(
        x.parts.as_slice(),
        y.parts.as_slice(),
    );
    proof {
        if x@ == y@ {
            assert(text::texts(x.parts@) == text::texts(y.parts@));
        }
    }
    r
}

/// The path is a device file: it lies under `/dev`.
pub open spec fn is_device(s: Seq<char>) -> bool {
    let m = path_model(s);
    m.rooted && m.parts.len() > 0 && m.parts[0] == "dev"@
}

/// Is the path a device file? A process substitution shows up as one; what it
/// held cannot be read again, and its name may mean something else by now.
pub fn device(s: &str) -> (r: bool)
    ensures
        r == is_device(s@),
{
    let m: PathParts = components(s);
    assert(m@.parts == text::texts(m.parts@));
    m.rooted && m.parts.len() > 0 && same(m.parts[0].as_str(), "dev")
}

// --- paths as bytes -----------------------------------------------------------

/// `name` under the directory `dir`; an absolute `name` stands for itself.
pub open spec fn path_under(dir: Seq<u8>, name: Seq<u8>) -> Seq<u8> {
    if name.len() > 0 && name[0] == 47u8 {
        name
    } else if dir.len() == 0 || dir.last() == 47u8 {
        dir + name
    } else {
        dir.push(47u8) + name
    }
}

/// Puts `name` under the directory `dir`.
pub fn join_path(dir: &[u8], name: &[u8]) -> (r: Vec<u8>)
    ensures
        r@ == path_under(dir@, name@),
{
    let mut out: Vec<u8> = Vec::new();
    if !(name.len() > 0 && name[0] == 47u8) {
        for i in 0..dir.len()
            invariant
                out@ == dir@.take(i as int),
        {
            out.push(dir[i]);
            assert(dir@.take(i + 1) =~= dir@.take(i as int).push(dir@[i as int]));
        }
        assert(dir@.take(dir@.len() as int) =~= dir@);
        if dir.len() > 0 && dir[dir.len() - 1] != 47u8 {
            out.push(47u8);
        }
    }
    let ghost head = out@;
    assert(head + name@.take(0) =~= head);
    for i in 0..name.len()
        invariant
            out@ == head + name@.take(i as int),
    {
        out.push(name[i]);
        assert(head + name@.take(i + 1) =~= (head + name@.take(i as int)).push(name@[i as int]));
    }
    assert(name@.take(name@.len() as int) =~= name@);
    assert(out@ =~= path_under(dir@, name@));
    out
}

} // verus!
