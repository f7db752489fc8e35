//! What the capture stream and the numbers in it give back.

use crate::report_laws;
use crate::state::{self, ItemModel, KeyModel, Kind, StateModel};
use crate::text;
use crate::wire::{self, WireFault};
use vstd::prelude::*;
use vstd::string::*;

verus! {

// --- numbers ------------------------------------------------------------------

pub proof fn lemma_decimal_digits(n: nat)
    ensures
        text::decimal(n).len() > 0,
        forall|i: int|
            0 <= i < text::decimal(n).len() ==> text::is_digit(#[trigger] text::decimal(n)[i]),
        text::digits_value(text::decimal(n)) == n,
    decreases n,
{
    if n < 10 {
        let d = text::decimal(n);
        assert(d.drop_last() =~= Seq::<char>::empty());
        reveal_with_fuel(text::digits_value, 2);
    } else {
        lemma_decimal_digits(n / 10);
        let d = text::decimal(n);
        let front = text::decimal(n / 10);
        assert(d.drop_last() =~= front);
        assert forall|i: int| 0 <= i < d.len() implies text::is_digit(#[trigger] d[i]) by {
            if i < front.len() {
                assert(text::is_digit(front[i]));
            }
        }
    }
}

/// A number that was written in decimal is read back.
pub proof fn numbers_are_read_back(n: nat, max: int)
    requires
        n <= max,
    ensures
        text::unsigned_value(text::decimal(n), max) == Some(n),
{
    lemma_decimal_digits(n);
    let d = text::decimal(n);
    assert(text::is_digit(d[0]));
    assert(text::unsigned_body(d) == d);
}

// --- records ------------------------------------------------------------------

/// The word that a record begins with.
pub open spec fn record_word(kind: Kind) -> Seq<char> {
    match kind {
        Kind::Scalar | Kind::Array | Kind::Assoc => "param"@,
        _ => state::kind_word(kind),
    }
}

/// The fields of one record.
pub open spec fn record_fields(row: (KeyModel, ItemModel)) -> Seq<Seq<char>> {
    seq![
        record_word(row.0.0),
        row.0.1,
        row.1.attrs,
        text::decimal(row.1.vals.len()),
    ] + row.1.vals
}

/// The fields of records, one after the other.
pub open spec fn records_fields(rows: Seq<(KeyModel, ItemModel)>) -> Seq<Seq<char>>
    decreases rows.len(),
{
    if rows.len() == 0 {
        Seq::empty()
    } else {
        record_fields(rows[0]) + records_fields(rows.drop_first())
    }
}

/// A row that a record can stand for: its attributes say what kind of
/// parameter it is.
pub open spec fn can_record(row: (KeyModel, ItemModel)) -> bool {
    &&& wire::wire_kind(record_word(row.0.0), row.1.attrs) == Some(row.0.0)
    &&& row.1.vals.len() <= usize::MAX
}

/// `state` with the rows put in, one after the other.
pub open spec fn with_rows(s: StateModel, rows: Seq<(KeyModel, ItemModel)>) -> StateModel
    decreases rows.len(),
{
    if rows.len() == 0 {
        s
    } else {
        with_rows(s.insert(rows[0].0, rows[0].1), rows.drop_first())
    }
}

proof fn lemma_read_records(
    fields: Seq<Seq<char>>,
    i: int,
    s: StateModel,
    rows: Seq<(KeyModel, ItemModel)>,
)
    requires
        0 <= i <= fields.len(),
        fields.skip(i) == records_fields(rows).push(Seq::<char>::empty()),
        forall|k: int| 0 <= k < rows.len() ==> can_record(#[trigger] rows[k]),
    ensures
        wire::read_records(fields, i, s) == Ok::<StateModel, WireFault>(with_rows(s, rows)),
    decreases rows.len(),
{
    let left = fields.skip(i);
    if rows.len() == 0 {
        assert(left.len() == 1);
        assert(left[0] == fields[i]);
    } else {
        let row = rows[0];
        let rest = rows.drop_first();
        let n = row.1.vals.len();
        let f = record_fields(row);
        assert(can_record(row));
        assert(left.len() == f.len() + records_fields(rest).len() + 1);
        assert(left[0] == fields[i] && left[1] == fields[i + 1] && left[2] == fields[i + 2] && left[3]
            == fields[i + 3]);
        assert(left[0] == f[0] && left[1] == f[1] && left[2] == f[2] && left[3] == f[3]);
        numbers_are_read_back(n, usize::MAX as int);
        assert(fields[i].len() > 0) by {
            reveal_strlit("param");
            reveal_strlit("func");
            reveal_strlit("autoload");
            reveal_strlit("alias");
            reveal_strlit("galias");
            reveal_strlit("salias");
            reveal_strlit("compdef");
        }
        assert(fields.subrange(i + 4, i + 4 + n) =~= left.subrange(4, 4int + n));
        assert(left.subrange(4, 4int + n) =~= row.1.vals);
        assert(fields.skip(i + 4 + n) =~= left.skip(4int + n));
        assert(left.skip(4int + n) =~= records_fields(rest).push(Seq::<char>::empty()));
        assert forall|k: int| 0 <= k < rest.len() implies can_record(#[trigger] rest[k]) by {
            assert(rest[k] == rows[k + 1]);
        }
        lemma_read_records(fields, i + 4 + n, s.insert(row.0, row.1), rest);
    }
}

/// A state that was written to a capture stream, record by record, is read
/// back. The stream ends in a NUL, so its last field is empty.
pub proof fn records_are_read_back(rows: Seq<(KeyModel, ItemModel)>)
    requires
        forall|k: int| 0 <= k < rows.len() ==> can_record(#[trigger] rows[k]),
    ensures
        wire::wire_state(records_fields(rows).push(Seq::<char>::empty())) == Ok::<
            StateModel,
            WireFault,
        >(with_rows(Map::empty(), rows)),
{
    let fields = records_fields(rows).push(Seq::<char>::empty());
    assert(fields.skip(0) =~= fields);
    lemma_read_records(fields, 0, Map::empty(), rows);
}

/// Every kind has its record: all but the parameters whatever the attributes
/// are, and a parameter by what its attributes begin with.
pub proof fn every_kind_can_be_recorded(kind: Kind, attrs: Seq<char>)
    ensures
        wire::wire_kind(record_word(kind), attrs) == Some(kind) <==> match kind {
            Kind::Assoc => text::begins_with(attrs, "association"@),
            Kind::Array => text::begins_with(attrs, "array"@) && !text::begins_with(
                attrs,
                "association"@,
            ),
            Kind::Scalar => !text::begins_with(attrs, "array"@) && !text::begins_with(
                attrs,
                "association"@,
            ),
            _ => true,
        },
{
    reveal_strlit("param");
    reveal_strlit("func");
    reveal_strlit("autoload");
    reveal_strlit("alias");
    reveal_strlit("galias");
    reveal_strlit("salias");
    reveal_strlit("compdef");
    let w = record_word(kind);
    assert("param"@.len() == 5 && "func"@.len() == 4 && "autoload"@.len() == 8 && "alias"@.len() == 5
        && "galias"@.len() == 6 && "salias"@.len() == 6 && "compdef"@.len() == 7);
    assert("param"@[0] == 'p' && "alias"@[0] == 'a' && "galias"@[0] == 'g' && "salias"@[0] == 's');
}

// --- bytes --------------------------------------------------------------------

/// The bytes of a stream: each field in UTF-8, with a NUL behind it.
pub open spec fn stream_bytes(fields: Seq<Seq<char>>) -> Seq<u8>
    decreases fields.len(),
{
    if fields.len() == 0 {
        Seq::empty()
    } else {
        stream_bytes(fields.drop_last()) + vstd::utf8::encode_utf8(fields.last()).push(0u8)
    }
}

/// `s` holds no NUL character.
pub open spec fn without_nul(s: Seq<char>) -> bool {
    forall|i: int| 0 <= i < s.len() ==> #[trigger] s[i] != '\0'
}

proof fn lemma_scalar_bytes(c: u32)
    requires
        0 < c <= 0x10ffff,
    ensures
        forall|i: int|
            0 <= i < vstd::utf8::encode_scalar(c).len() ==> #[trigger] vstd::utf8::encode_scalar(
                c,
            )[i] != 0,
{
    assert(0 < c <= 0x7f ==> vstd::utf8::leading_byte_width_1(c) != 0) by (bit_vector);
    assert(vstd::utf8::leading_byte_width_2(c) != 0) by (bit_vector);
    assert(vstd::utf8::leading_byte_width_3(c) != 0) by (bit_vector);
    assert(vstd::utf8::leading_byte_width_4(c) != 0) by (bit_vector);
    assert(vstd::utf8::last_continuation_byte(c) != 0) by (bit_vector);
    assert(vstd::utf8::second_last_continuation_byte(c) != 0) by (bit_vector);
    assert(vstd::utf8::third_last_continuation_byte(c) != 0) by (bit_vector);
}

proof fn lemma_char_bytes(c: char)
    requires
        c != '\0',
    ensures
        forall|i: int|
            0 <= i < vstd::utf8::encode_scalar(c as u32).len()
                ==> #[trigger] vstd::utf8::encode_scalar(c as u32)[i] != 0,
{
    vstd::utf8::char_is_scalar(c);
    lemma_scalar_bytes(c as u32);
}

proof fn lemma_text_bytes(s: Seq<char>)
    requires
        without_nul(s),
    ensures
        forall|i: int|
            0 <= i < vstd::utf8::encode_utf8(s).len() ==> #[trigger] vstd::utf8::encode_utf8(s)[i]
                != 0,
    decreases s.len(),
{
    if s.len() > 0 {
        let rest = s.drop_first();
        assert forall|i: int| 0 <= i < rest.len() implies #[trigger] rest[i] != '\0' by {
            assert(s[i + 1] != '\0');
        }
        lemma_text_bytes(rest);
        assert(s[0] != '\0');
        lemma_char_bytes(s[0]);
        let front = vstd::utf8::encode_scalar(s[0] as u32);
        let all = vstd::utf8::encode_utf8(s);
        assert forall|i: int| 0 <= i < all.len() implies #[trigger] all[i] != 0 by {
            if i < front.len() {
                assert(all[i] == front[i]);
            } else {
                assert(all[i] == vstd::utf8::encode_utf8(rest)[i - front.len()]);
            }
        }
    }
}

/// Bytes without a NUL, then one NUL, add one piece.
proof fn lemma_pieces_field(front: Seq<u8>, field: Seq<u8>, n: int)
    requires
        forall|i: int| 0 <= i < field.len() ==> #[trigger] field[i] != 0,
        0 <= n <= field.len(),
        text::pieces(front, |b: u8| b == 0).len() > 0,
        text::pieces(front, |b: u8| b == 0).last() == Seq::<u8>::empty(),
    ensures
        text::pieces(front + field.take(n), |b: u8| b == 0) == text::pieces(
            front,
            |b: u8| b == 0,
        ).drop_last().push(field.take(n)),
    decreases n,
{
    let cuts = |b: u8| b == 0;
    let p = text::pieces(front, cuts);
    if n == 0 {
        assert(front + field.take(0) =~= front);
        assert(field.take(0) =~= Seq::<u8>::empty());
        assert(p =~= p.drop_last().push(field.take(0)));
    } else {
        lemma_pieces_field(front, field, n - 1);
        let s = front + field.take(n);
        assert(s.drop_last() =~= front + field.take(n - 1));
        assert(s.last() == field[n - 1]);
        assert(field.take(n) =~= field.take(n - 1).push(field[n - 1]));
        assert(p.drop_last().push(field.take(n - 1)).drop_last() =~= p.drop_last());
    }
}

proof fn lemma_stream_pieces(fields: Seq<Seq<char>>)
    requires
        forall|k: int| 0 <= k < fields.len() ==> without_nul(#[trigger] fields[k]),
    ensures
        text::pieces(stream_bytes(fields), |b: u8| b == 0) == fields.map_values(
            |f: Seq<char>| vstd::utf8::encode_utf8(f),
        ).push(Seq::<u8>::empty()),
    decreases fields.len(),
{
    let cuts = |b: u8| b == 0;
    let encode = |f: Seq<char>| vstd::utf8::encode_utf8(f);
    if fields.len() == 0 {
        assert(text::pieces(stream_bytes(fields), cuts) =~= fields.map_values(encode).push(
            Seq::<u8>::empty(),
        ));
    } else {
        let before = fields.drop_last();
        assert forall|k: int| 0 <= k < before.len() implies without_nul(#[trigger] before[k]) by {
            assert(before[k] == fields[k]);
        }
        lemma_stream_pieces(before);
        assert(without_nul(fields[fields.len() - 1]));
        let field = encode(fields.last());
        lemma_text_bytes(fields.last());
        let front = stream_bytes(before);
        lemma_pieces_field(front, field, field.len() as int);
        assert(field.take(field.len() as int) =~= field);
        let s = stream_bytes(fields);
        assert(s.drop_last() =~= front + field);
        assert(s.last() == 0);
        let p = text::pieces(front, cuts);
        assert(p.drop_last() =~= before.map_values(encode));
        assert(fields.map_values(encode) =~= before.map_values(encode).push(field));
    }
}

/// What was written to a stream as NUL-ended UTF-8 is read back, record by
/// record, as long as no field holds a NUL of its own.
pub proof fn streams_are_read_back(rows: Seq<(KeyModel, ItemModel)>)
    requires
        forall|k: int| 0 <= k < rows.len() ==> can_record(#[trigger] rows[k]),
        forall|k: int|
            0 <= k < records_fields(rows).len() ==> without_nul(#[trigger] records_fields(rows)[k]),
    ensures
        wire::wire_state(wire::fields_of(stream_bytes(records_fields(rows)))) == Ok::<
            StateModel,
            WireFault,
        >(with_rows(Map::empty(), rows)),
{
    let fields = records_fields(rows);
    let encode = |f: Seq<char>| vstd::utf8::encode_utf8(f);
    let decode = |p: Seq<u8>| wire::decoded(p);
    lemma_stream_pieces(fields);
    let p = fields.map_values(encode).push(Seq::<u8>::empty());
    assert forall|k: int| 0 <= k < p.len() implies decode(#[trigger] p[k]) == fields.push(
        Seq::<char>::empty(),
    )[k] by {
        if k < fields.len() {
            vstd::utf8::encode_utf8_valid_utf8(fields[k]);
            vstd::utf8::encode_utf8_decode_utf8(fields[k]);
        } else {
            assert(vstd::utf8::decode_utf8(Seq::<u8>::empty()) =~= Seq::<char>::empty());
        }
    }
    assert(wire::fields_of(stream_bytes(fields)) =~= fields.push(Seq::<char>::empty()));
    records_are_read_back(rows);
}

// --- streams that break off ---------------------------------------------------

/// What is read from a field on depends only on the fields from there on.
proof fn lemma_read_from(front: Seq<Seq<char>>, rest: Seq<Seq<char>>, i: int, s: StateModel)
    requires
        0 <= i,
    ensures
        wire::read_records(front + rest, front.len() + i, s) == wire::read_records(rest, i, s),
    decreases rest.len() - i,
{
    let all = front + rest;
    let j = front.len() + i;
    if i < rest.len() && rest[i].len() > 0 && i + 3 < rest.len() {
        assert(all[j] == rest[i]);
        assert(all[j + 1] == rest[i + 1]);
        assert(all[j + 2] == rest[i + 2]);
        assert(all[j + 3] == rest[i + 3]);
        match text::unsigned_value(rest[i + 3], usize::MAX as int) {
            Some(n) => if i + 4 + n <= rest.len() {
                match wire::wire_kind(rest[i], rest[i + 2]) {
                    Some(kind) => {
                        let vals = rest.subrange(i + 4, i + 4 + n);
                        assert(all.subrange(j + 4, j + 4 + n) =~= vals);
                        lemma_read_from(
                            front,
                            rest,
                            i + 4 + n,
                            s.insert(
                                (kind, rest[i + 1]),
                                ItemModel { attrs: rest[i + 2], vals },
                            ),
                        );
                    },
                    None => {},
                }
            },
            None => {},
        }
    } else if i < rest.len() {
        assert(all[j] == rest[i]);
    }
}

/// A whole record is put into the state, under its kind and its name, in place
/// of an earlier one; then reading goes on behind it. A record of an unknown
/// kind stops the reading and is named.
pub proof fn records_are_read_one_by_one(
    word: Seq<char>,
    name: Seq<char>,
    attrs: Seq<char>,
    vals: Seq<Seq<char>>,
    rest: Seq<Seq<char>>,
    s: StateModel,
)
    requires
        word.len() > 0,
        vals.len() <= usize::MAX,
    ensures
        ({
            let record = seq![word, name, attrs, text::decimal(vals.len())] + vals;
            wire::read_records(record + rest, 0, s) == match wire::wire_kind(word, attrs) {
                Some(kind) => wire::read_records(
                    rest,
                    0,
                    s.insert((kind, name), ItemModel { attrs, vals }),
                ),
                None => Err(WireFault::UnknownKind { kind: word }),
            }
        }),
{
    let record = seq![word, name, attrs, text::decimal(vals.len())] + vals;
    let all = record + rest;
    let n = vals.len();
    numbers_are_read_back(n, usize::MAX as int);
    assert(all[0] == word && all[1] == name && all[2] == attrs && all[3] == text::decimal(n));
    assert(all.subrange(4, 4int + n) =~= vals);
    match wire::wire_kind(word, attrs) {
        Some(kind) => {
            lemma_read_from(record, rest, 0, s.insert((kind, name), ItemModel { attrs, vals }));
            assert(record.len() == 4 + n);
        },
        None => {},
    }
}

/// A record that breaks off, a count that is no number, and values that are
/// missing each stop the reading with a fault that names the record. An empty
/// kind ends it, whatever follows.
pub proof fn broken_records_stop_the_reading(
    word: Seq<char>,
    name: Seq<char>,
    attrs: Seq<char>,
    count: Seq<char>,
    rest: Seq<Seq<char>>,
    s: StateModel,
)
    requires
        word.len() > 0,
    ensures
        wire::read_records(seq![word], 0, s) == Err::<StateModel, WireFault>(
            WireFault::TruncatedRecord { kind: word },
        ),
        wire::read_records(seq![word, name], 0, s) == Err::<StateModel, WireFault>(
            WireFault::TruncatedRecord { kind: word },
        ),
        wire::read_records(seq![word, name, attrs], 0, s) == Err::<StateModel, WireFault>(
            WireFault::TruncatedRecord { kind: word },
        ),
        text::unsigned_value(count, usize::MAX as int) is None ==> wire::read_records(
            seq![word, name, attrs, count] + rest,
            0,
            s,
        ) == Err::<StateModel, WireFault>(WireFault::BadCount { count, name }),
        text::unsigned_value(count, usize::MAX as int) is Some && text::unsigned_value(
            count,
            usize::MAX as int,
        )->0 > rest.len() ==> wire::read_records(seq![word, name, attrs, count] + rest, 0, s)
            == Err::<StateModel, WireFault>(WireFault::TruncatedValues { name }),
        wire::read_records(seq![Seq::<char>::empty()] + rest, 0, s) == Ok::<StateModel, WireFault>(
            s,
        ),
        wire::read_records(Seq::empty(), 0, s) == Ok::<StateModel, WireFault>(s),
{
    let all = seq![word, name, attrs, count] + rest;
    assert(all[0] == word && all[1] == name && all[2] == attrs && all[3] == count);
    assert((seq![Seq::<char>::empty()] + rest)[0].len() == 0);
}

/// A fault is told with what the reader needs to find it.
pub proof fn faults_are_told(fault: WireFault, shown: Seq<char>)
    ensures
        match fault {
            WireFault::TruncatedRecord { kind } => text::has_part(
                wire::fault_message(fault, shown),
                kind,
            ),
            WireFault::BadCount { count, name } => {
                &&& text::has_part(wire::fault_message(fault, shown), shown)
                &&& text::has_part(wire::fault_message(fault, shown), name)
                &&& wire::quoted_field(fault) == count
            },
            WireFault::TruncatedValues { name } => text::has_part(
                wire::fault_message(fault, shown),
                name,
            ),
            WireFault::UnknownKind { kind } => {
                &&& text::has_part(wire::fault_message(fault, shown), shown)
                &&& wire::quoted_field(fault) == kind
            },
        },
{
    let none = Seq::<char>::empty();
    let m = wire::fault_message(fault, shown);
    match fault {
        WireFault::TruncatedRecord { kind } => {
            let a = "truncated record for "@;
            assert(m =~= a + kind + none);
            report_laws::lemma_part(a, kind, none);
        },
        WireFault::BadCount { count, name } => {
            let a = "bad nvals "@;
            assert(m =~= a + shown + (" for "@ + name));
            report_laws::lemma_part(a, shown, " for "@ + name);
            assert(m =~= (a + shown + " for "@) + name + none);
            report_laws::lemma_part(a + shown + " for "@, name, none);
        },
        WireFault::TruncatedValues { name } => {
            let a = "truncated values for "@;
            assert(m =~= a + name + none);
            report_laws::lemma_part(a, name, none);
        },
        WireFault::UnknownKind { kind } => {
            let a = "unknown kind "@;
            assert(m =~= a + shown + none);
            report_laws::lemma_part(a, shown, none);
        },
    }
}

} // verus!
