//! Shell state: what a shell knows, keyed by kind and name, and the difference
//! between two such states.

use crate::globs::{self, any_match, Glob};
use crate::lists::{self, norm};
use crate::table::{self, Duplicate, Place, Table, TableKey};
use crate::text::{self, comes_before, contains, copy_texts, decimal_of, join, listed, same};
use vstd::prelude::*;
use vstd::string::*;

verus! {

/// What kind of thing a name stands for.
#[derive(Clone, Copy, Debug, PartialEq, Eq, PartialOrd, Ord, Hash, Structural)]
pub enum Kind {
    Scalar,
    Array,
    Assoc,
    Func,
    Autoload,
    Alias,
    Galias,
    Salias,
    /// A completion binding: the name is the command and the value the
    /// completion function.
    Compdef,
}

impl View for Kind {
    type V = Kind;

    open spec fn view(&self) -> Kind {
        *self
    }
}

/// The word for a kind.
pub open spec fn kind_word(k: Kind) -> Seq<char> {
    match k {
        Kind::Scalar => "scalar"@,
        Kind::Array => "array"@,
        Kind::Assoc => "assoc"@,
        Kind::Func => "func"@,
        Kind::Autoload => "autoload"@,
        Kind::Alias => "alias"@,
        Kind::Galias => "galias"@,
        Kind::Salias => "salias"@,
        Kind::Compdef => "compdef"@,
    }
}

/// The place of a kind among the kinds.
pub open spec fn kind_rank(k: Kind) -> int {
    match k {
        Kind::Scalar => 0,
        Kind::Array => 1,
        Kind::Assoc => 2,
        Kind::Func => 3,
        Kind::Autoload => 4,
        Kind::Alias => 5,
        Kind::Galias => 6,
        Kind::Salias => 7,
        Kind::Compdef => 8,
    }
}

impl Kind {
    /// The word that the shell-side helpers know this kind by.
    pub fn as_str(self) -> (r: &'static str)
        ensures
            r@ == kind_word(self),
    {
        match self {
            Kind::Scalar => "scalar",
            Kind::Array => "array",
            Kind::Assoc => "assoc",
            Kind::Func => "func",
            Kind::Autoload => "autoload",
            Kind::Alias => "alias",
            Kind::Galias => "galias",
            Kind::Salias => "salias",
            Kind::Compdef => "compdef",
        }
    }

    fn rank(self) -> (r: u8)
        ensures
            r == kind_rank(self),
    {
        match self {
            Kind::Scalar => 0,
            Kind::Array => 1,
            Kind::Assoc => 2,
            Kind::Func => 3,
            Kind::Autoload => 4,
            Kind::Alias => 5,
            Kind::Galias => 6,
            Kind::Salias => 7,
            Kind::Compdef => 8,
        }
    }
}

/// A key: what is named, and its name.
pub type Key = (Kind, String);

/// The model of a key.
pub type KeyModel = (Kind, Seq<char>);

impl Duplicate for Key {
    fn duplicate(&self) -> (r: Self) {
        (self.0, self.1.clone())
    }
}

impl TableKey for Key {
    open spec fn precedes(a: KeyModel, b: KeyModel) -> bool {
        kind_rank(a.0) < kind_rank(b.0) || (a.0 == b.0 && text::text_before(a.1, b.1))
    }

    proof fn irreflexive(a: KeyModel) {
        text::lemma_text_before_irreflexive(a.1);
    }

    proof fn transitive(a: KeyModel, b: KeyModel, c: KeyModel) {
        if a.0 == b.0 && b.0 == c.0 {
            text::lemma_text_before_transitive(a.1, b.1, c.1);
        }
    }

    proof fn total(a: KeyModel, b: KeyModel) {
        text::lemma_text_before_total(a.1, b.1);
    }

    fn place(&self, other: &Self) -> (r: Place) {
        let a: u8 = self.0.rank();
        let b: u8 = other.0.rank();
        if a < b {
            Place::Before
        } else if a > b {
            Place::After
        } else if self.1 == other.1 {
            Place::Same
        } else if comes_before(self.1.as_str(), other.1.as_str()) {
            Place::Before
        } else {
            proof {
                text::lemma_text_before_total(self.1@, other.1@);
            }
            Place::After
        }
    }
}

/// What a key holds: its attributes and its values.
#[derive(Debug, PartialEq, Eq)]
pub struct Item {
    pub attrs: String,
    pub vals: Vec<String>,
}

/// The model of an item.
pub struct ItemModel {
    pub attrs: Seq<char>,
    pub vals: Seq<Seq<char>>,
}

impl View for Item {
    type V = ItemModel;

    open spec fn view(&self) -> ItemModel {
        ItemModel { attrs: self.attrs@, vals: text::texts(self.vals@) }
    }
}

impl Duplicate for Item {
    fn duplicate(&self) -> (r: Self) {
        Item { attrs: self.attrs.clone(), vals: copy_texts(self.vals.as_slice()) }
    }
}

impl Clone for Item {
    fn clone(&self) -> (r: Self)
        ensures
            r@ == self@,
    {
        self.duplicate()
    }
}

/// Everything a shell knows that is worth sharing.
pub type State = Table<Key, Item>;

/// The model of a state.
pub type StateModel = Map<KeyModel, ItemModel>;

/// The transition of one key between two generations. Without `new` it is a
/// tombstone; `old` is the merge base, the value last published for this key.
#[derive(Debug)]
pub struct Change {
    pub kind: Kind,
    pub name: String,
    pub attrs: String,
    pub new: Option<Vec<String>>,
    pub old: Option<Vec<String>>,
}

/// The model of a change.
pub struct ChangeModel {
    pub kind: Kind,
    pub name: Seq<char>,
    pub attrs: Seq<char>,
    pub new: Option<Seq<Seq<char>>>,
    pub old: Option<Seq<Seq<char>>>,
}

/// What an optional list of strings holds.
pub open spec fn optional_texts(v: Option<Vec<String>>) -> Option<Seq<Seq<char>>> {
    match v {
        Some(v) => Some(text::texts(v@)),
        None => None,
    }
}

impl View for Change {
    type V = ChangeModel;

    open spec fn view(&self) -> ChangeModel {
        ChangeModel {
            kind: self.kind,
            name: self.name@,
            attrs: self.attrs@,
            new: optional_texts(self.new),
            old: optional_texts(self.old),
        }
    }
}

/// What a list of changes holds.
pub open spec fn change_models(v: Seq<Change>) -> Seq<ChangeModel> {
    v.map_values(|c: Change| c@)
}

impl ChangeModel {
    pub open spec fn key(self) -> KeyModel {
        (self.kind, self.name)
    }
}

fn copy_optional(v: &Option<Vec<String>>) -> (r: Option<Vec<String>>)
    ensures
        optional_texts(r) == optional_texts(*v),
{
    match v {
        Some(v) => Some(copy_texts(v.as_slice())),
        None => None,
    }
}

impl Duplicate for Change {
    fn duplicate(&self) -> (r: Self) {
        Change {
            kind: self.kind,
            name: self.name.clone(),
            attrs: self.attrs.clone(),
            new: copy_optional(&self.new),
            old: copy_optional(&self.old),
        }
    }
}

impl Clone for Change {
    fn clone(&self) -> (r: Self)
        ensures
            r@ == self@,
    {
        self.duplicate()
    }
}

impl Change {
    /// The key that changes.
    pub fn key(&self) -> (r: Key)
        ensures
            r@ == self@.key(),
    {
        (self.kind, self.name.clone())
    }
}

/// An ordered-list parameter: an array that is tied to a scalar.
pub open spec fn is_list_model(kind: Kind, attrs: Seq<char>) -> bool {
    kind == Kind::Array && text::has_part(attrs, "tied"@)
}

/// Is this an ordered-list parameter (`path`, `fpath` and their kin)? Those
/// are merged entry by entry instead of as one value.
pub fn is_list(kind: Kind, attrs: &str) -> (r: bool)
    ensures
        r == is_list_model(kind, attrs@),
{
    kind == Kind::Array && contains(attrs, "tied")
}

// --- what the bootstrap did ---------------------------------------------------

/// What of `s1` is new or different against `s0`, without the names that
/// `ignored` picks out.
pub open spec fn effect_model(
    s0: StateModel,
    s1: StateModel,
    ignored: spec_fn(Seq<char>) -> bool,
) -> StateModel {
    s1.restrict(
        Set::new(
            |k: KeyModel| !(s0.contains_key(k) && s0[k] == s1[k]) && !ignored(k.1),
        ),
    )
}

/// Do the two lists hold the same strings?
pub fn same_texts(a: &[String], b: &[String]) -> (r: bool)
    ensures
        r == (text::texts(a@) == text::texts(b@)),
{
    if a.len() != b.len() {
        assert(text::texts(a@).len() != text::texts(b@).len());
        return false;
    }
    for i in 0..a.len()
        invariant
            a@.len() == b@.len(),
            forall|j: int| 0 <= j < i ==> a@[j]@ == b@[j]@,
    {
        if a[i] != b[i] {
            assert(text::texts(a@)[i as int] != text::texts(b@)[i as int]);
            return false;
        }
    }
    assert(text::texts(a@) =~= text::texts(b@));
    true
}

impl Item {
    /// Do the two items hold the same?
    pub fn same(&self, other: &Item) -> (r: bool)
        ensures
            r == (self@ == other@),
    {
        self.attrs == other.attrs && same_texts(self.vals.as_slice(), other.vals.as_slice())
    }
}

/// The effect of a bootstrap, with the ignored names given.
pub fn effect_without(s0: &State, s1: &State, ignored: &[String]) -> (r: State)
    ensures
        r@ == effect_model(s0@, s1@, |n: Seq<char>| text::texts(ignored@).contains(n)),
{
    let ghost rows = s1.rows();
    let ghost names = text::texts(ignored@);
    let ghost keep = |k: KeyModel| !(s0@.contains_key(k) && s0@[k] == s1@[k]) && !names.contains(k.1);
    let mut out: State = Table::new();
    let n: usize = s1.len();
    proof {
        use_type_invariant(s1);
    }
    for i in 0..n
        invariant
            n == rows.len(),
            rows == s1.rows(),
            table::ascending::<Key, ItemModel>(rows),
            names == text::texts(ignored@),
            keep == (|k: KeyModel|
                !(s0@.contains_key(k) && s0@[k] == s1@[k]) && !names.contains(k.1)),
            forall|k: KeyModel| #[trigger]
                out@.contains_key(k) <==> table::has_row(rows.take(i as int), k) && keep(k),
            forall|k: KeyModel| #[trigger] out@.contains_key(k) ==> out@[k] == s1@[k],
    {
        let key: &Key = s1.key_at(i);
        let item: &Item = s1.value_at(i);
        let ghost before = out@;
        proof {
            table::lemma_row_found::<Key, ItemModel>(rows, i as int);
        }
        let unchanged: bool = match s0.get(key) {
            Some(was) => was.same(item),
            None => false,
        };
        if !unchanged && !listed(ignored, key.1.as_str()) {
            out.insert(key.duplicate(), item.duplicate());
        }
        assert forall|k: KeyModel| #[trigger]
            out@.contains_key(k) <==> table::has_row(rows.take(i + 1), k) && keep(k) by {
            table::lemma_has_row_grows(rows, i as int, k);
            assert(before.contains_key(k) <==> table::has_row(rows.take(i as int), k) && keep(k));
        }
        assert forall|k: KeyModel| #[trigger] out@.contains_key(k) implies out@[k] == s1@[k] by {
            assert(before.contains_key(k) || k == key@);
        }
    }
    assert(rows.take(rows.len() as int) =~= rows);
    proof {
        let want = effect_model(s0@, s1@, |n: Seq<char>| names.contains(n));
        assert forall|k: KeyModel| #[trigger] out@.dom().contains(k) <==> want.dom().contains(k) by {
            assert(out@.contains_key(k) <==> table::has_row(rows, k) && keep(k));
        }
        assert(out@ =~= want);
    }
    out
}

/// The desired state: what the bootstrap added or changed against a clean
/// shell, without the names that a glob of `ignore` matches.
pub fn effect(s0: &State, s1: &State, ignore: &[Glob]) -> (r: State)
    ensures
        r@ == effect_model(
            s0@,
            s1@,
            |n: Seq<char>| globs::any_matches(globs::patterns(ignore@), n),
        ),
{
    let ghost rows = s1.rows();
    let ghost pats = globs::patterns(ignore@);
    let mut ignored: Vec<String> = Vec::new();
    let n: usize = s1.len();
    for i in 0..n
        invariant
            n == rows.len(),
            rows == s1.rows(),
            pats == globs::patterns(ignore@),
            forall|j: int|
                0 <= j < i ==> text::texts(ignored@).contains((#[trigger] rows[j]).0.1)
                    == globs::any_matches(pats, rows[j].0.1),
            forall|x: Seq<char>| #[trigger]
                text::texts(ignored@).contains(x) ==> globs::any_matches(pats, x),
    {
        let key: &Key = s1.key_at(i);
        let ghost before = text::texts(ignored@);
        if any_match(ignore, key.1.as_str()) {
            proof {
                text::lemma_texts_push(ignored@, key.1);
            }
            ignored.push(key.1.clone());
        }
        assert forall|j: int| 0 <= j < i + 1 implies text::texts(ignored@).contains(
            (#[trigger] rows[j]).0.1,
        ) == globs::any_matches(pats, rows[j].0.1) by {
            text::lemma_push_contains(before, key.1@, rows[j].0.1);
        }
        assert forall|x: Seq<char>| #[trigger]
            text::texts(ignored@).contains(x) implies globs::any_matches(pats, x) by {
            text::lemma_push_contains(before, key.1@, x);
        }
    }
    let r: State = effect_without(s0, s1, ignored.as_slice());
    proof {
        let names = text::texts(ignored@);
        let a = effect_model(s0@, s1@, |x: Seq<char>| names.contains(x));
        let b = effect_model(s0@, s1@, |x: Seq<char>| globs::any_matches(pats, x));
        assert forall|k: KeyModel| #[trigger] a.dom().contains(k) <==> b.dom().contains(k) by {
            if s1@.contains_key(k) {
                let j = choose|j: int| 0 <= j < rows.len() && (#[trigger] rows[j]).0 == k;
                assert(table::has_row(rows, k));
                assert(names.contains(rows[j].0.1) == globs::any_matches(pats, rows[j].0.1));
            }
        }
        assert(a =~= b);
    }
    r
}

// --- session-scoped entries ---------------------------------------------------

/// `item` without the list entries that `volatile` picks out by their compared
/// form.
pub open spec fn settled_item(
    kind: Kind,
    item: ItemModel,
    volatile: spec_fn(Seq<char>) -> bool,
) -> ItemModel {
    if is_list_model(kind, item.attrs) {
        ItemModel {
            attrs: item.attrs,
            vals: item.vals.filter(|e: Seq<char>| !volatile(lists::norm_of(e))),
        }
    } else {
        item
    }
}

/// `state` with its ordered lists freed of volatile entries.
pub open spec fn settled_model(state: StateModel, volatile: spec_fn(Seq<char>) -> bool) -> StateModel {
    Map::new(
        |k: KeyModel| state.contains_key(k),
        |k: KeyModel| settled_item(k.0, state[k], volatile),
    )
}

/// The entries of a list whose compared form is not among `names`.
fn unlisted(vals: &[String], names: &[String]) -> (r: Vec<String>)
    ensures
        text::texts(r@) == text::texts(vals@).filter(
            |e: Seq<char>| !text::texts(names@).contains(lists::norm_of(e)),
        ),
{
    let ghost all = text::texts(vals@);
    let ghost out_of = text::texts(names@);
    let ghost keep = |e: Seq<char>| !out_of.contains(lists::norm_of(e));
    let mut out: Vec<String> = Vec::new();
    proof {
        reveal(Seq::filter);
        assert(text::texts(out@) =~= all.take(0).filter(keep));
    }
    for i in 0..vals.len()
        invariant
            all == text::texts(vals@),
            out_of == text::texts(names@),
            keep == (|e: Seq<char>| !out_of.contains(lists::norm_of(e))),
            text::texts(out@) == all.take(i as int).filter(keep),
    {
        proof {
            reveal(Seq::filter);
            assert(all.take(i + 1).drop_last() =~= all.take(i as int));
        }
        if !listed(names, norm(vals[i].as_str()).as_str()) {
            proof {
                text::lemma_texts_push(out@, vals@[i as int]);
            }
            out.push(vals[i].clone());
        }
    }
    assert(all.take(vals@.len() as int) =~= all);
    out
}

/// Drops from the ordered lists the entries whose compared form is among
/// `names`.
pub fn drop_entries(state: &mut State, names: &[String])
    ensures
        final(state)@ == settled_model(
            old(state)@,
            |n: Seq<char>| text::texts(names@).contains(n),
        ),
{
    let ghost rows = state.rows();
    let ghost was = state@;
    let ghost volatile = |n: Seq<char>| text::texts(names@).contains(n);
    let mut out: State = Table::new();
    let n: usize = state.len();
    proof {
        use_type_invariant(&*state);
    }
    for i in 0..n
        invariant
            n == rows.len(),
            rows == state.rows(),
            was == state@,
            table::ascending::<Key, ItemModel>(rows),
            volatile == (|n: Seq<char>| text::texts(names@).contains(n)),
            forall|k: KeyModel| #[trigger]
                out@.contains_key(k) <==> table::has_row(rows.take(i as int), k),
            forall|k: KeyModel| #[trigger]
                out@.contains_key(k) ==> out@[k] == settled_item(k.0, was[k], volatile),
    {
        let key: &Key = state.key_at(i);
        let item: &Item = state.value_at(i);
        let ghost before = out@;
        proof {
            table::lemma_row_found::<Key, ItemModel>(rows, i as int);
        }
        let kept: Item = if is_list(key.0, item.attrs.as_str()) {
            proof {
                let f = |e: Seq<char>| !volatile(lists::norm_of(e));
                let g = |e: Seq<char>| !text::texts(names@).contains(lists::norm_of(e));
                assert(f =~= g);
            }
            Item { attrs: item.attrs.clone(), vals: unlisted(item.vals.as_slice(), names) }
        } else {
            item.duplicate()
        };
        assert(kept@ == settled_item(key.0, item@, volatile));
        out.insert(key.duplicate(), kept);
        assert forall|k: KeyModel| #[trigger]
            out@.contains_key(k) <==> table::has_row(rows.take(i + 1), k) by {
            table::lemma_has_row_grows(rows, i as int, k);
            assert(before.contains_key(k) <==> table::has_row(rows.take(i as int), k));
        }
        assert forall|k: KeyModel| #[trigger] out@.contains_key(k) implies out@[k] == settled_item(
            k.0,
            was[k],
            volatile,
        ) by {
            assert(before.contains_key(k) || k == key@);
        }
    }
    assert(rows.take(rows.len() as int) =~= rows);
    assert(out@ =~= settled_model(was, volatile)) by {
        assert forall|k: KeyModel| #[trigger] out@.dom().contains(k) <==> was.dom().contains(k) by {
            assert(out@.contains_key(k) <==> table::has_row(rows, k));
        }
    }
    *state = out;
}

/// Adds to `names` the compared forms of the entries that a glob matches.
fn note_matched(vals: &[String], globs: &[Glob], names: &mut Vec<String>)
    ensures
        forall|x: Seq<char>| #[trigger]
            text::texts(final(names)@).contains(x) <==> text::texts(old(names)@).contains(x) || (
            lists::norms_of(text::texts(vals@)).contains(x) && globs::any_matches(
                globs::patterns(globs@),
                x,
            )),
{
    let ghost all = lists::norms_of(text::texts(vals@));
    let ghost pats = globs::patterns(globs@);
    let ghost was = text::texts(names@);
    for i in 0..vals.len()
        invariant
            all == lists::norms_of(text::texts(vals@)),
            pats == globs::patterns(globs@),
            forall|x: Seq<char>| #[trigger]
                text::texts(names@).contains(x) <==> was.contains(x) || (all.take(
                    i as int,
                ).contains(x) && globs::any_matches(pats, x)),
    {
        let n: String = norm(vals[i].as_str());
        let ghost before = text::texts(names@);
        let ghost e = n@;
        assert(all.take(i + 1) =~= all.take(i as int).push(e));
        if any_match(globs, n.as_str()) {
            proof {
                text::lemma_texts_push(names@, n);
            }
            names.push(n);
        }
        assert forall|x: Seq<char>| #[trigger]
            text::texts(names@).contains(x) <==> was.contains(x) || (all.take(i + 1).contains(x)
                && globs::any_matches(pats, x)) by {
            text::lemma_push_contains(before, e, x);
            text::lemma_push_contains(all.take(i as int), e, x);
            assert(before.contains(x) <==> was.contains(x) || (all.take(i as int).contains(x)
                && globs::any_matches(pats, x)));
        }
    }
    assert(all.take(vals@.len() as int) =~= all);
}

/// Drops session-scoped entries from the ordered lists: those whose compared
/// form a glob matches. A list entry under a temporary directory belongs to
/// one session, so it must not reach the others.
pub fn drop_volatile(state: &mut State, globs: &[Glob])
    ensures
        final(state)@ == settled_model(
            old(state)@,
            |n: Seq<char>| globs::any_matches(globs::patterns(globs@), n),
        ),
{
    let ghost rows = state.rows();
    let ghost was = state@;
    let ghost pats = globs::patterns(globs@);
    let mut names: Vec<String> = Vec::new();
    let n: usize = state.len();
    proof {
        use_type_invariant(&*state);
    }
    for i in 0..n
        invariant
            n == rows.len(),
            rows == state.rows(),
            pats == globs::patterns(globs@),
            forall|x: Seq<char>| #[trigger]
                text::texts(names@).contains(x) ==> globs::any_matches(pats, x),
            forall|j: int, x: Seq<char>|
                0 <= j < i && #[trigger] lists::norms_of(rows[j].1.vals).contains(x)
                    && globs::any_matches(pats, x) ==> text::texts(names@).contains(x),
    {
        note_matched(state.value_at(i).vals.as_slice(), globs, &mut names);
    }
    drop_entries(state, names.as_slice());
    proof {
        let found = text::texts(names@);
        let f = |x: Seq<char>| found.contains(x);
        let g = |x: Seq<char>| globs::any_matches(pats, x);
        let a = settled_model(was, f);
        let b = settled_model(was, g);
        assert forall|k: KeyModel| #[trigger] a.dom().contains(k) implies a[k] == b[k] by {
            let j = choose|j: int| 0 <= j < rows.len() && (#[trigger] rows[j]).0 == k;
            assert(table::has_row(rows, k));
            table::lemma_row_found::<Key, ItemModel>(rows, j);
            let vals = was[k].vals;
            assert(rows[j].1.vals == vals);
            let p = |e: Seq<char>| !f(lists::norm_of(e));
            let q = |e: Seq<char>| !g(lists::norm_of(e));
            assert forall|i: int| 0 <= i < vals.len() implies p(#[trigger] vals[i]) == q(vals[i]) by {
                assert(lists::norms_of(vals)[i] == lists::norm_of(vals[i]));
                assert(lists::norms_of(rows[j].1.vals).contains(lists::norm_of(vals[i])));
            }
            text::lemma_filter_agrees(vals, p, q);
        }
        assert(a =~= b);
    }
}

// --- difference ---------------------------------------------------------------

/// The values that a state holds under a key.
pub open spec fn vals_at(state: StateModel, k: KeyModel) -> Option<Seq<Seq<char>>> {
    if state.contains_key(k) {
        Some(state[k].vals)
    } else {
        None
    }
}

/// The state holds just this item under the key of the row.
pub open spec fn has_same(state: StateModel, row: (KeyModel, ItemModel)) -> bool {
    state.contains_key(row.0) && state[row.0] == row.1
}

/// The change that brings a row in.
pub open spec fn edit_of(prev: StateModel, row: (KeyModel, ItemModel)) -> ChangeModel {
    ChangeModel {
        kind: row.0.0,
        name: row.0.1,
        attrs: row.1.attrs,
        new: Some(row.1.vals),
        old: vals_at(prev, row.0),
    }
}

/// The change that takes a row out.
pub open spec fn tombstone_of(row: (KeyModel, ItemModel)) -> ChangeModel {
    ChangeModel {
        kind: row.0.0,
        name: row.0.1,
        attrs: row.1.attrs,
        new: None,
        old: Some(row.1.vals),
    }
}

/// One change for each row that is new or different against `prev`.
pub open spec fn edits(prev: StateModel, rows: Seq<(KeyModel, ItemModel)>) -> Seq<ChangeModel> {
    rows.filter(|r: (KeyModel, ItemModel)| !has_same(prev, r)).map_values(
        |r: (KeyModel, ItemModel)| edit_of(prev, r),
    )
}

/// One tombstone for each row whose key `next` no longer has.
pub open spec fn tombstones(rows: Seq<(KeyModel, ItemModel)>, next: StateModel) -> Seq<ChangeModel> {
    rows.filter(|r: (KeyModel, ItemModel)| !next.contains_key(r.0)).map_values(
        |r: (KeyModel, ItemModel)| tombstone_of(r),
    )
}

/// The changes from one state to the next, both given by their rows: the
/// edits in key order, then the tombstones in key order.
pub open spec fn difference(
    prev: Seq<(KeyModel, ItemModel)>,
    next: Seq<(KeyModel, ItemModel)>,
) -> Seq<ChangeModel> {
    edits(table::row_map(prev), next) + tombstones(prev, table::row_map(next))
}

/// The changes that lead from `prev` to `next`.
pub fn diff(prev: &State, next: &State) -> (r: Vec<Change>)
    ensures
        change_models(r@) == difference(prev.rows(), next.rows()),
{
    let ghost pr = prev.rows();
    let ghost nr = next.rows();
    let mut out: Vec<Change> = Vec::new();
    let n: usize = next.len();
    let ghost fresh = |r: (KeyModel, ItemModel)| !has_same(prev@, r);
    let ghost edit = |r: (KeyModel, ItemModel)| edit_of(prev@, r);
    proof {
        reveal(Seq::filter);
        assert(change_models(out@) =~= nr.take(0).filter(fresh).map_values(edit));
    }
    for i in 0..n
        invariant
            n == nr.len(),
            nr == next.rows(),
            fresh == (|r: (KeyModel, ItemModel)| !has_same(prev@, r)),
            edit == (|r: (KeyModel, ItemModel)| edit_of(prev@, r)),
            change_models(out@) == nr.take(i as int).filter(fresh).map_values(edit),
    {
        let key: &Key = next.key_at(i);
        let item: &Item = next.value_at(i);
        let ghost row = nr[i as int];
        let ghost before = out@;
        proof {
            reveal(Seq::filter);
            assert(nr.take(i + 1).drop_last() =~= nr.take(i as int));
            assert(row == (key@, item@));
        }
        let old: Option<&Item> = prev.get(key);
        let same: bool = match old {
            Some(was) => was.same(item),
            None => false,
        };
        if !same {
            let base: Option<Vec<String>> = match old {
                Some(was) => Some(copy_texts(was.vals.as_slice())),
                None => None,
            };
            out.push(
                Change {
                    kind: key.0,
                    name: key.1.clone(),
                    attrs: item.attrs.clone(),
                    new: Some(copy_texts(item.vals.as_slice())),
                    old: base,
                },
            );
            proof {
                let c = out@.last();
                assert(c@ == edit_of(prev@, row));
                assert(change_models(out@) =~= change_models(before).push(c@));
                let kept = nr.take(i as int).filter(fresh);
                assert(kept.push(row).map_values(edit) =~= kept.map_values(edit).push(edit(row)));
            }
        }
    }
    assert(nr.take(n as int) =~= nr);
    let ghost first = change_models(out@);
    assert(first == edits(prev@, nr));
    let m: usize = prev.len();
    let ghost gone = |r: (KeyModel, ItemModel)| !next@.contains_key(r.0);
    let ghost stone = |r: (KeyModel, ItemModel)| tombstone_of(r);
    proof {
        reveal(Seq::filter);
        assert(first =~= first + pr.take(0).filter(gone).map_values(stone));
    }
    for i in 0..m
        invariant
            m == pr.len(),
            pr == prev.rows(),
            gone == (|r: (KeyModel, ItemModel)| !next@.contains_key(r.0)),
            stone == (|r: (KeyModel, ItemModel)| tombstone_of(r)),
            change_models(out@) == first + pr.take(i as int).filter(gone).map_values(stone),
    {
        let key: &Key = prev.key_at(i);
        let item: &Item = prev.value_at(i);
        let ghost row = pr[i as int];
        let ghost before = out@;
        proof {
            reveal(Seq::filter);
            assert(pr.take(i + 1).drop_last() =~= pr.take(i as int));
            assert(row == (key@, item@));
        }
        if !next.contains_key(key) {
            out.push(
                Change {
                    kind: key.0,
                    name: key.1.clone(),
                    attrs: item.attrs.clone(),
                    new: None,
                    old: Some(copy_texts(item.vals.as_slice())),
                },
            );
            proof {
                let c = out@.last();
                assert(c@ == tombstone_of(row));
                assert(change_models(out@) =~= change_models(before).push(c@));
                let kept = pr.take(i as int).filter(gone);
                assert(kept.push(row).map_values(stone) =~= kept.map_values(stone).push(stone(row)));
                assert((first + kept.map_values(stone)).push(c@) =~= first + kept.map_values(
                    stone,
                ).push(c@));
            }
        }
    }
    assert(pr.take(m as int) =~= pr);
    out
}

/// `state` after one change.
pub open spec fn changed(state: StateModel, c: ChangeModel) -> StateModel {
    match c.new {
        Some(vals) => state.insert(c.key(), ItemModel { attrs: c.attrs, vals }),
        None => state.remove(c.key()),
    }
}

/// `state` after `changes`, one after the other.
pub open spec fn replayed(state: StateModel, changes: Seq<ChangeModel>) -> StateModel
    decreases changes.len(),
{
    if changes.len() == 0 {
        state
    } else {
        changed(replayed(state, changes.drop_last()), changes.last())
    }
}

/// Replays `changes` on `state`.
pub fn apply(state: &mut State, changes: &[Change])
    ensures
        final(state)@ == replayed(old(state)@, change_models(changes@)),
{
    let ghost start = state@;
    let ghost all = change_models(changes@);
    assert(all.take(0) =~= Seq::<ChangeModel>::empty());
    for i in 0..changes.len()
        invariant
            all == change_models(changes@),
            state@ == replayed(start, all.take(i as int)),
    {
        assert(all.take(i + 1).drop_last() =~= all.take(i as int));
        let c: &Change = &changes[i];
        assert(all[i as int] == c@);
        match &c.new {
            Some(vals) => {
                state.insert(
                    c.key(),
                    Item { attrs: c.attrs.clone(), vals: copy_texts(vals.as_slice()) },
                );
            },
            None => {
                state.remove(&c.key());
            },
        }
    }
    assert(all.take(changes@.len() as int) =~= all);
}

// --- summary ------------------------------------------------------------------

/// The classes that a summary counts by.
pub enum Class {
    Param,
    Function,
    Alias,
    Compdef,
}

impl Kind {
    pub open spec fn class(self) -> Class {
        match self {
            Kind::Scalar | Kind::Array | Kind::Assoc => Class::Param,
            Kind::Func | Kind::Autoload => Class::Function,
            Kind::Alias | Kind::Galias | Kind::Salias => Class::Alias,
            Kind::Compdef => Class::Compdef,
        }
    }
}

/// `-` for what goes, `+` for what is new and `~` for what is different.
pub open spec fn sign_of(c: ChangeModel) -> char {
    if c.new is None {
        '-'
    } else if c.old is None {
        '+'
    } else {
        '~'
    }
}

/// How many of `changes` are of this class and sign.
pub open spec fn tally(changes: Seq<ChangeModel>, class: Class, sign: char) -> nat {
    changes.filter(|c: ChangeModel| c.kind.class() == class && sign_of(c) == sign).len()
}

/// `+2 functions`, or nothing if there are none.
pub open spec fn tally_part(n: nat, sign: char, one: Seq<char>, many: Seq<char>) -> Seq<Seq<char>> {
    if n == 0 {
        Seq::empty()
    } else {
        seq![seq![sign] + text::decimal(n) + " "@ + (if n == 1 { one } else { many })]
    }
}

/// What a summary says of one class.
pub open spec fn class_parts(
    changes: Seq<ChangeModel>,
    class: Class,
    one: Seq<char>,
    many: Seq<char>,
) -> Seq<Seq<char>> {
    tally_part(tally(changes, class, '+'), '+', one, many) + tally_part(
        tally(changes, class, '~'),
        '~',
        one,
        many,
    ) + tally_part(tally(changes, class, '-'), '-', one, many)
}

/// How many changes of each class and sign there are, in words.
pub open spec fn summary_model(changes: Seq<ChangeModel>) -> Seq<char> {
    text::joined(
        class_parts(changes, Class::Param, "param"@, "params"@) + class_parts(
            changes,
            Class::Function,
            "function"@,
            "functions"@,
        ) + class_parts(changes, Class::Alias, "alias"@, "aliases"@) + class_parts(
            changes,
            Class::Compdef,
            "compdef"@,
            "compdefs"@,
        ),
        ", "@,
    )
}

impl Class {
    fn covers(&self, kind: Kind) -> (r: bool)
        ensures
            r == (kind.class() == *self),
    {
        match self {
            Class::Param => match kind {
                Kind::Scalar | Kind::Array | Kind::Assoc => true,
                _ => false,
            },
            Class::Function => match kind {
                Kind::Func | Kind::Autoload => true,
                _ => false,
            },
            Class::Alias => match kind {
                Kind::Alias | Kind::Galias | Kind::Salias => true,
                _ => false,
            },
            Class::Compdef => match kind {
                Kind::Compdef => true,
                _ => false,
            },
        }
    }
}

/// The sign of a change.
fn sign(c: &Change) -> (r: char)
    ensures
        r == sign_of(c@),
{
    match (&c.new, &c.old) {
        (None, _) => '-',
        (Some(_), None) => '+',
        (Some(_), Some(_)) => '~',
    }
}

/// Adds what a summary says of one class and sign to `parts`.
fn add_tally(
    changes: &[Change],
    class: &Class,
    mark: char,
    one: &str,
    many: &str,
    parts: &mut Vec<String>,
)
    ensures
        text::texts(final(parts)@) == text::texts(old(parts)@) + tally_part(
            tally(change_models(changes@), *class, mark),
            mark,
            one@,
            many@,
        ),
{
    let ghost all = change_models(changes@);
    let ghost pick = |c: ChangeModel| c.kind.class() == *class && sign_of(c) == mark;
    let mut n: usize = 0;
    proof {
        reveal(Seq::filter);
        assert(all.take(0).filter(pick).len() == 0);
    }
    for i in 0..changes.len()
        invariant
            all == change_models(changes@),
            pick == (|c: ChangeModel| c.kind.class() == *class && sign_of(c) == mark),
            n == all.take(i as int).filter(pick).len(),
            n <= i,
    {
        proof {
            reveal(Seq::filter);
            assert(all.take(i + 1).drop_last() =~= all.take(i as int));
            assert(all[i as int] == changes@[i as int]@);
        }
        if class.covers(changes[i].kind) && sign(&changes[i]) == mark {
            n += 1;
        }
    }
    assert(all.take(changes@.len() as int) =~= all);
    let ghost was = text::texts(parts@);
    if n > 0 {
        let mut part = String::new();
        part.push(mark);
        assert(part@ =~= seq![mark]);
        part.append(decimal_of(n as u64).as_str());
        part.append(" ");
        part.append(if n == 1 { one } else { many });
        proof {
            text::lemma_texts_push(parts@, part);
        }
        parts.push(part);
        assert(was.push(part@) =~= was + seq![part@]);
    } else {
        assert(was =~= was + Seq::<Seq<char>>::empty());
    }
}

/// Adds what a summary says of one class to `parts`.
fn add_class(changes: &[Change], class: Class, one: &str, many: &str, parts: &mut Vec<String>)
    ensures
        text::texts(final(parts)@) == text::texts(old(parts)@) + class_parts(
            change_models(changes@),
            class,
            one@,
            many@,
        ),
{
    let ghost was = text::texts(parts@);
    add_tally(changes, &class, '+', one, many, parts);
    add_tally(changes, &class, '~', one, many, parts);
    add_tally(changes, &class, '-', one, many, parts);
    assert(text::texts(parts@) =~= was + class_parts(change_models(changes@), class, one@, many@));
}

/// `~1 param, +2 functions, -1 alias`
pub fn summary(changes: &[Change]) -> (r: String)
    ensures
        r@ == summary_model(change_models(changes@)),
{
    let mut parts: Vec<String> = Vec::new();
    let ghost all = change_models(changes@);
    add_class(changes, Class::Param, "param", "params", &mut parts);
    add_class(changes, Class::Function, "function", "functions", &mut parts);
    add_class(changes, Class::Alias, "alias", "aliases", &mut parts);
    add_class(changes, Class::Compdef, "compdef", "compdefs", &mut parts);
    assert(text::texts(parts@) =~= class_parts(all, Class::Param, "param"@, "params"@)
        + class_parts(all, Class::Function, "function"@, "functions"@) + class_parts(
        all,
        Class::Alias,
        "alias"@,
        "aliases"@,
    ) + class_parts(all, Class::Compdef, "compdef"@, "compdefs"@));
    join(parts.as_slice(), ", ")
}

} // verus!
