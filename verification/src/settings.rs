//! What the environment says, as far as it decides anything.

use crate::globs::{self, Glob};
use crate::lists::{self, norm};
use crate::paths::{self, join_path};
use crate::text::{self, parse_u64, split_non_empty, trim, Cut};
use vstd::prelude::*;
use vstd::string::*;

verus! {

/// The well-formed globs of a list that blanks or colons separate.
pub open spec fn listed_globs(list: Seq<char>) -> Seq<Seq<char>> {
    globs::valid_globs(text::non_empty(text::pieces(list, Cut::BlankOrColon.picks())))
}

/// The globs of names that are dropped at capture and never enter the log.
pub fn ignore_globs(list: &str) -> (r: Vec<Glob>)
    ensures
        globs::patterns(r@) == listed_globs(list@),
{
    globs::compile(split_non_empty(list, Cut::BlankOrColon).as_slice())
}

/// What an optional text holds.
pub open spec fn text_of(s: Option<&str>) -> Option<Seq<char>> {
    match s {
        Some(s) => Some(s@),
        None => None,
    }
}

/// The patterns for what belongs to one session: everything in the temporary
/// directory. Without one there is none; an empty one would match every
/// absolute path there is.
pub open spec fn volatile_patterns(tmpdir: Option<Seq<char>>) -> Seq<Seq<char>> {
    match tmpdir {
        Some(t) if t.len() > 0 => seq![lists::norm_of(t) + "/*"@],
        _ => Seq::empty(),
    }
}

/// The globs of list entries that belong to one session.
pub fn volatile_globs(tmpdir: Option<&str>) -> (r: Vec<Glob>)
    ensures
        globs::patterns(r@) == globs::valid_globs(volatile_patterns(text_of(tmpdir))),
{
    let mut texts: Vec<String> = Vec::new();
    match tmpdir {
        Some(t) => {
            if !t.is_empty() {
                let mut p: String = norm(t);
                p.append("/*");
                texts.push(p);
            }
        },
        None => {},
    }
    assert(text::texts(texts@) =~= volatile_patterns(text_of(tmpdir)));
    globs::compile(texts.as_slice())
}

/// The number that a counter's text stands for; without one, or if it is no
/// number, the counter is at zero.
pub open spec fn counter_value(s: Option<Seq<char>>) -> nat {
    match s {
        Some(s) => match text::unsigned_value(
            text::trimmed_end(text::trimmed_start(s)),
            u64::MAX as int,
        ) {
            Some(n) => n,
            None => 0,
        },
        None => 0,
    }
}

/// Reads a counter: the cursor of a shell, or the head of the log.
pub fn counter(s: Option<&str>) -> (n: u64)
    ensures
        n as nat == counter_value(text_of(s)),
{
    match s {
        Some(s) => match parse_u64(trim(s).as_str()) {
            Some(n) => n,
            None => 0,
        },
        None => 0,
    }
}

/// What an optional directory holds.
pub open spec fn bytes_of(d: Option<&[u8]>) -> Option<Seq<u8>> {
    match d {
        Some(d) => Some(d@),
        None => None,
    }
}

/// Where the hook belongs: the shell's own startup file.
pub open spec fn zshrc_model(zdotdir: Option<Seq<u8>>, home: Seq<u8>) -> Seq<u8> {
    paths::path_under(
        match zdotdir {
            Some(d) => d,
            None => home,
        },
        vstd::utf8::encode_utf8(".zshrc"@),
    )
}

/// Where the hook belongs, whatever is being captured.
pub fn zshrc(zdotdir: Option<&[u8]>, home: &[u8]) -> (r: Vec<u8>)
    ensures
        r@ == zshrc_model(bytes_of(zdotdir), home@),
{
    match zdotdir {
        Some(d) => join_path(d, ".zshrc".as_bytes()),
        None => join_path(home, ".zshrc".as_bytes()),
    }
}

/// The live search path, cut at its colons.
pub fn live_path(path: &str) -> (r: Vec<String>)
    ensures
        text::texts(r@) == text::pieces(path@, Cut::At(':').picks()),
{
    text::split(path, Cut::At(':'))
}

} // verus!
