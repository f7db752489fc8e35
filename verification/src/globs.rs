//! Glob patterns, by the `glob` crate.

use vstd::prelude::*;
use vstd::string::*;

verus! {

/// `glob::Pattern::new` accepts this pattern.
pub uninterp spec fn glob_valid(pattern: Seq<char>) -> bool;

/// `glob::Pattern::matches` says that the pattern matches this text.
pub uninterp spec fn glob_matches(pattern: Seq<char>, text: Seq<char>) -> bool;

/// Calls `glob::Pattern::new`. Whether it succeeds depends on the text of the
/// pattern alone; which patterns are well formed is left to the `glob` crate.
#[verifier::external_body]
fn pattern_compiles(pattern: &str) -> (r: bool)
    ensures
        r == glob_valid(pattern@),
{
    glob::Pattern::new(pattern).is_ok()
}

/// Calls `glob::Pattern::matches` on the compiled pattern, with the default
/// options. The answer depends on the pattern's text and on the text matched
/// alone; the matching rules are left to the `glob` crate.
#[verifier::external_body]
fn pattern_matches(pattern: &str, text: &str) -> (r: bool)
    requires
        glob_valid(pattern@),
    ensures
        r == glob_matches(pattern@, text@),
{
    glob::Pattern::new(pattern).unwrap().matches(text)
}

/// A well-formed glob pattern. Its view is the pattern as it was written.
pub struct Glob {
    text: String,
}

impl View for Glob {
    type V = Seq<char>;

    closed spec fn view(&self) -> Seq<char> {
        self.text@
    }
}

/// What a list of globs holds.
pub open spec fn patterns(v: Seq<Glob>) -> Seq<Seq<char>> {
    v.map_values(|g: Glob| g@)
}

/// One of the patterns matches `text`.
pub open spec fn any_matches(patterns: Seq<Seq<char>>, text: Seq<char>) -> bool {
    exists|i: int| 0 <= i < patterns.len() && glob_matches(#[trigger] patterns[i], text)
}

/// The well-formed ones of `texts`, in order.
pub open spec fn valid_globs(texts: Seq<Seq<char>>) -> Seq<Seq<char>> {
    texts.filter(|t: Seq<char>| glob_valid(t))
}

impl Glob {
    #[verifier::type_invariant]
    spec fn well_formed(&self) -> bool {
        glob_valid(self.text@)
    }

    /// Compiles a pattern; `None` if it is not well formed.
    pub fn new(text: &str) -> (r: Option<Glob>)
        ensures
            match r {
                Some(g) => glob_valid(text@) && g@ == text@,
                None => !glob_valid(text@),
            },
    {
        if pattern_compiles(text) {
            Some(Glob { text: text.to_owned() })
        } else {
            None
        }
    }

    /// The pattern as it was written.
    pub fn as_str(&self) -> (r: &str)
        ensures
            r@ == self@,
    {
        self.text.as_str()
    }

    /// Does the pattern match all of `text`?
    pub fn matches(&self, text: &str) -> (r: bool)
        ensures
            r == glob_matches(self@, text@),
    {
        proof {
            use_type_invariant(self);
        }
        pattern_matches(self.text.as_str(), text)
    }
}

/// Does one of `globs` match `text`?
pub fn any_match(globs: &[Glob], text: &str) -> (r: bool)
    ensures
        r == any_matches(patterns(globs@), text@),
{
    for i in 0..globs.len()
        invariant
            forall|j: int|
                0 <= j < i ==> !glob_matches(#[trigger] patterns(globs@)[j], text@),
    {
        if globs[i].matches(text) {
            assert(glob_matches(patterns(globs@)[i as int], text@));
            return true;
        }
    }
    false
}

/// Compiles the well-formed ones of `texts`; the others are dropped.
pub fn compile(texts: &[String]) -> (r: Vec<Glob>)
    ensures
        patterns(r@) == valid_globs(crate::text::texts(texts@)),
{
    let mut out: Vec<Glob> = Vec::new();
    let ghost all = crate::text::texts(texts@);
    let ghost keep = |t: Seq<char>| glob_valid(t);
    proof {
        reveal(Seq::filter);
        assert(patterns(out@) =~= all.take(0).filter(keep));
    }
    for i in 0..texts.len()
        invariant
            all == crate::text::texts(texts@),
            keep == (|t: Seq<char>| glob_valid(t)),
            patterns(out@) == all.take(i as int).filter(keep),
    {
        proof {
            reveal(Seq::filter);
            assert(all.take(i + 1).drop_last() =~= all.take(i as int));
        }
        if let Some(g) = Glob::new(texts[i].as_str()) {
            let ghost before = out@;
            out.push(g);
            assert(patterns(out@) =~= patterns(before).push(all[i as int]));
        }
    }
    assert(all.take(texts@.len() as int) =~= all);
    out
}

} // verus!
