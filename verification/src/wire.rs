//! The capture stream: NUL-delimited fields, `kind`, `name`, attributes and
//! the number of values, then the values themselves.

use crate::state::{Item, ItemModel, Key, Kind, State, StateModel};
use crate::table::Table;
use crate::text::{self, parse_usize, same, starts_with};
use vstd::prelude::*;
use vstd::string::*;

verus! {

/// What `String::from_utf8_lossy` makes of bytes that are not UTF-8.
pub uninterp spec fn utf8_lossy(bytes: Seq<u8>) -> Seq<char>;

/// Calls `String::from_utf8_lossy`. What is valid UTF-8 is decoded; of the
/// rest it is said only that the text depends on the bytes alone.
#[verifier::external_body]
pub(crate) fn decode_lossy(bytes: &[u8]) -> (r: String)
    ensures
        r@ == if vstd::utf8::valid_utf8(bytes@) {
            vstd::utf8::decode_utf8(bytes@)
        } else {
            utf8_lossy(bytes@)
        },
{
    String::from_utf8_lossy(bytes).into_owned()
}

/// What the `Debug` format of a string shows.
pub uninterp spec fn debug_text(s: Seq<char>) -> Seq<char>;

/// Formats a string with `{:?}`: quoted, with escapes. Which characters are
/// escaped, and how, is left to the standard library.
#[verifier::external_body]
fn debug_of(s: &str) -> (r: String)
    ensures
        r@ == debug_text(s@),
{
    format!("{:?}", s)
}

// --- fields -------------------------------------------------------------------

/// The text that bytes stand for.
pub open spec fn decoded(bytes: Seq<u8>) -> Seq<char> {
    if vstd::utf8::valid_utf8(bytes) {
        vstd::utf8::decode_utf8(bytes)
    } else {
        utf8_lossy(bytes)
    }
}

/// The fields of a stream: what stands between the NULs, decoded.
pub open spec fn fields_of(bytes: Seq<u8>) -> Seq<Seq<char>> {
    text::pieces(bytes, |b: u8| b == 0).map_values(|p: Seq<u8>| decoded(p))
}

/// Cuts a stream into its fields.
fn fields(bytes: &[u8]) -> (r: Vec<String>)
    ensures
        text::texts(r@) == fields_of(bytes@),
{
    let ghost cuts = |b: u8| b == 0;
    let ghost decode = |p: Seq<u8>| decoded(p);
    let mut out: Vec<String> = Vec::new();
    let mut piece: Vec<u8> = Vec::new();
    let ghost mut done: Seq<Seq<u8>> = Seq::empty();
    assert(done.push(piece@) =~= text::pieces(bytes@.take(0), cuts));
    assert(text::texts(out@) =~= done.map_values(decode));
    for i in 0..bytes.len()
        invariant
            cuts == (|b: u8| b == 0),
            decode == (|p: Seq<u8>| decoded(p)),
            done.push(piece@) == text::pieces(bytes@.take(i as int), cuts),
            text::texts(out@) == done.map_values(decode),
    {
        assert(bytes@.take(i + 1).drop_last() =~= bytes@.take(i as int));
        assert(done.push(piece@).drop_last() =~= done);
        if bytes[i] == 0 {
            let f: String = decode_lossy(piece.as_slice());
            proof {
                text::lemma_texts_push(out@, f);
                assert(done.push(piece@).map_values(decode) =~= done.map_values(decode).push(f@));
                done = done.push(piece@);
            }
            out.push(f);
            piece = Vec::new();
        } else {
            piece.push(bytes[i]);
        }
        assert(done.push(piece@) =~= text::pieces(bytes@.take(i + 1), cuts));
    }
    assert(bytes@.take(bytes@.len() as int) =~= bytes@);
    let f: String = decode_lossy(piece.as_slice());
    proof {
        text::lemma_texts_push(out@, f);
        assert(done.push(piece@).map_values(decode) =~= done.map_values(decode).push(f@));
    }
    out.push(f);
    out
}

// --- records ------------------------------------------------------------------

/// What can be wrong with a stream.
#[derive(Debug)]
pub enum WireError {
    /// The stream ends in the middle of a record of this kind.
    TruncatedRecord { kind: String },
    /// The number of values, here as it was written, is no number.
    BadCount { count: String, name: String },
    /// The stream ends before the last value of this name.
    TruncatedValues { name: String },
    /// No kind goes by this word.
    UnknownKind { kind: String },
}

/// The model of a [`WireError`].
pub enum WireFault {
    TruncatedRecord { kind: Seq<char> },
    BadCount { count: Seq<char>, name: Seq<char> },
    TruncatedValues { name: Seq<char> },
    UnknownKind { kind: Seq<char> },
}

impl View for WireError {
    type V = WireFault;

    open spec fn view(&self) -> WireFault {
        match self {
            WireError::TruncatedRecord { kind } => WireFault::TruncatedRecord { kind: kind@ },
            WireError::BadCount { count, name } => WireFault::BadCount {
                count: count@,
                name: name@,
            },
            WireError::TruncatedValues { name } => WireFault::TruncatedValues { name: name@ },
            WireError::UnknownKind { kind } => WireFault::UnknownKind { kind: kind@ },
        }
    }
}

/// The kind that a record's first word and its attributes stand for.
pub open spec fn wire_kind(word: Seq<char>, attrs: Seq<char>) -> Option<Kind> {
    if word == "param"@ {
        if text::begins_with(attrs, "association"@) {
            Some(Kind::Assoc)
        } else if text::begins_with(attrs, "array"@) {
            Some(Kind::Array)
        } else {
            Some(Kind::Scalar)
        }
    } else if word == "func"@ {
        Some(Kind::Func)
    } else if word == "autoload"@ {
        Some(Kind::Autoload)
    } else if word == "alias"@ {
        Some(Kind::Alias)
    } else if word == "galias"@ {
        Some(Kind::Galias)
    } else if word == "salias"@ {
        Some(Kind::Salias)
    } else if word == "compdef"@ {
        Some(Kind::Compdef)
    } else {
        None
    }
}

/// What reading the records from field `i` on adds to `state`. An empty kind
/// ends the stream; a later record for the same key replaces an earlier one.
pub open spec fn read_records(fields: Seq<Seq<char>>, i: int, state: StateModel) -> Result<
    StateModel,
    WireFault,
>
    decreases fields.len() - i,
{
    if i >= fields.len() || fields[i].len() == 0 {
        Ok(state)
    } else if i + 3 >= fields.len() {
        Err(WireFault::TruncatedRecord { kind: fields[i] })
    } else {
        let name = fields[i + 1];
        let attrs = fields[i + 2];
        match text::unsigned_value(fields[i + 3], usize::MAX as int) {
            None => Err(WireFault::BadCount { count: fields[i + 3], name }),
            Some(n) => if i + 4 + n > fields.len() {
                Err(WireFault::TruncatedValues { name })
            } else {
                match wire_kind(fields[i], attrs) {
                    None => Err(WireFault::UnknownKind { kind: fields[i] }),
                    Some(kind) => read_records(
                        fields,
                        i + 4 + n,
                        state.insert(
                            (kind, name),
                            ItemModel { attrs, vals: fields.subrange(i + 4, i + 4 + n) },
                        ),
                    ),
                }
            },
        }
    }
}

/// The state that a stream's fields describe.
pub open spec fn wire_state(fields: Seq<Seq<char>>) -> Result<StateModel, WireFault> {
    read_records(fields, 0, Map::empty())
}

fn kind_of(word: &str, attrs: &str) -> (r: Option<Kind>)
    ensures
        r == wire_kind(word@, attrs@),
{
    if same(word, "param") {
        if starts_with(attrs, "association") {
            Some(Kind::Assoc)
        } else if starts_with(attrs, "array") {
            Some(Kind::Array)
        } else {
            Some(Kind::Scalar)
        }
    } else if same(word, "func") {
        Some(Kind::Func)
    } else if same(word, "autoload") {
        Some(Kind::Autoload)
    } else if same(word, "alias") {
        Some(Kind::Alias)
    } else if same(word, "galias") {
        Some(Kind::Galias)
    } else if same(word, "salias") {
        Some(Kind::Salias)
    } else if same(word, "compdef") {
        Some(Kind::Compdef)
    } else {
        None
    }
}

fn copy_range(v: &[String], from: usize, to: usize) -> (r: Vec<String>)
    requires
        from <= to <= v@.len(),
    ensures
        text::texts(r@) == text::texts(v@).subrange(from as int, to as int),
{
    let mut out: Vec<String> = Vec::new();
    for i in from..to
        invariant
            from <= i <= to <= v@.len(),
            out@.len() == i - from,
            forall|j: int| 0 <= j < i - from ==> (#[trigger] out@[j])@ == v@[from + j]@,
    {
        out.push(v[i].clone());
    }
    assert(text::texts(out@) =~= text::texts(v@).subrange(from as int, to as int));
    out
}

/// Reads the state that a stream's fields describe.
pub fn parse_fields(fields: &[String]) -> (r: Result<State, WireError>)
    ensures
        match r {
            Ok(s) => wire_state(text::texts(fields@)) == Ok::<StateModel, WireFault>(s@),
            Err(e) => wire_state(text::texts(fields@)) == Err::<StateModel, WireFault>(e@),
        },
{
    let ghost all = text::texts(fields@);
    let mut state: State = Table::new();
    let mut i: usize = 0;
    while i < fields.len() && !fields[i].as_str().is_empty()
        invariant
            i <= fields.len(),
            all == text::texts(fields@),
            read_records(all, i as int, state@) == wire_state(all),
        decreases fields.len() - i,
    {
        let left: usize = fields.len() - i;
        if left <= 3 {
            return Err(WireError::TruncatedRecord { kind: fields[i].clone() });
        }
        let n: usize = match parse_usize(fields[i + 3].as_str()) {
            Some(n) => n,
            None => {
                return Err(
                    WireError::BadCount {
                        count: fields[i + 3].clone(),
                        name: fields[i + 1].clone(),
                    },
                );
            },
        };
        if n > left - 4 {
            return Err(WireError::TruncatedValues { name: fields[i + 1].clone() });
        }
        let kind: Kind = match kind_of(fields[i].as_str(), fields[i + 2].as_str()) {
            Some(k) => k,
            None => {
                return Err(WireError::UnknownKind { kind: fields[i].clone() });
            },
        };
        let item = Item {
            attrs: fields[i + 2].clone(),
            vals: copy_range(fields, i + 4, i + 4 + n),
        };
        let key: Key = (kind, fields[i + 1].clone());
        assert(key@ == (kind, all[i + 1]));
        state.insert(key, item);
        i = i + 4 + n;
    }
    Ok(state)
}

/// The message for a fault. `shown` is the field at fault as `Debug` shows it.
pub open spec fn fault_message(fault: WireFault, shown: Seq<char>) -> Seq<char> {
    match fault {
        WireFault::TruncatedRecord { kind } => "truncated record for "@ + kind,
        WireFault::BadCount { count, name } => "bad nvals "@ + shown + " for "@ + name,
        WireFault::TruncatedValues { name } => "truncated values for "@ + name,
        WireFault::UnknownKind { kind } => "unknown kind "@ + shown,
    }
}

/// The field at fault, where the message quotes one.
pub open spec fn quoted_field(fault: WireFault) -> Seq<char> {
    match fault {
        WireFault::BadCount { count, name } => count,
        WireFault::UnknownKind { kind } => kind,
        _ => Seq::empty(),
    }
}

impl WireError {
    /// The message for the error, with the quoted field given.
    pub fn message(&self, shown: &str) -> (r: String)
        ensures
            r@ == fault_message(self@, shown@),
    {
        match self {
            WireError::TruncatedRecord { kind } => {
                let mut m = "truncated record for ".to_owned();
                m.append(kind.as_str());
                m
            },
            WireError::BadCount { count: _, name } => {
                let mut m = "bad nvals ".to_owned();
                m.append(shown);
                m.append(" for ");
                m.append(name.as_str());
                m
            },
            WireError::TruncatedValues { name } => {
                let mut m = "truncated values for ".to_owned();
                m.append(name.as_str());
                m
            },
            WireError::UnknownKind { kind: _ } => {
                let mut m = "unknown kind ".to_owned();
                m.append(shown);
                m
            },
        }
    }

    fn quoted(&self) -> (r: String)
        ensures
            r@ == debug_text(quoted_field(self@)),
    {
        match self {
            WireError::BadCount { count, name: _ } => debug_of(count.as_str()),
            WireError::UnknownKind { kind } => debug_of(kind.as_str()),
            _ => {
                let none = String::new();
                debug_of(none.as_str())
            },
        }
    }
}

/// Reads a capture stream.
pub fn parse_wire(buf: &[u8]) -> (r: Result<State, String>)
    ensures
        match r {
            Ok(s) => wire_state(fields_of(buf@)) == Ok::<StateModel, WireFault>(s@),
            Err(m) => match wire_state(fields_of(buf@)) {
                Ok(_) => false,
                Err(fault) => m@ == fault_message(fault, debug_text(quoted_field(fault))),
            },
        },
{
    let parts: Vec<String> = fields(buf);
    match parse_fields(parts.as_slice()) {
        Ok(s) => Ok(s),
        Err(e) => Err(e.message(e.quoted().as_str())),
    }
}

} // verus!
