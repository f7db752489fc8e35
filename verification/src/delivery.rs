//! What a shell is handed: the code to catch up, and the hook that asks for it.

use crate::globs::{self, Glob};
use crate::payload::{self, generate, zq};
use crate::state::{self, Change, State, StateModel};
use crate::table::Table;
use crate::text::{self, decimal_of, replace};
use crate::wire::{self, decode_lossy, parse_wire};
use vstd::prelude::*;
use vstd::string::*;

verus! {

/// The entries that a shell at `cursor` has yet to be handed: all up to `head`,
/// in order.
pub open spec fn pending_entries(cursor: u64, head: u64) -> Seq<u64> {
    Seq::new(
        if cursor < head {
            (head - cursor) as nat
        } else {
            0
        },
        |i: int| (cursor + 1 + i) as u64,
    )
}

/// Which entries a shell at `cursor` has yet to be handed.
pub fn pending(cursor: u64, head: u64) -> (r: Vec<u64>)
    ensures
        r@ == pending_entries(cursor, head),
{
    let mut out: Vec<u64> = Vec::new();
    let mut n: u64 = cursor;
    while n < head
        invariant
            cursor <= n,
            n <= head || n == cursor,
            out@.len() == n - cursor,
            forall|i: int| 0 <= i < out@.len() ==> #[trigger] out@[i] == cursor + 1 + i,
        decreases head - n,
    {
        n += 1;
        out.push(n);
    }
    assert(out@ =~= pending_entries(cursor, head));
    out
}

/// The code that brings a shell to `head`. Without an entry it still moves the
/// cursor, so that no shell keeps asking for what it cannot reach.
pub open spec fn catch_up_code(
    ours: StateModel,
    entries: Seq<(u64, Seq<state::ChangeModel>)>,
    head: u64,
    patterns: Seq<Seq<char>>,
) -> Seq<char> {
    payload::entries_payload(entries, ours, patterns).code + (if entries.len() == 0 {
        "SHAREZED_CURSOR="@ + text::decimal(head as nat) + "\n"@
    } else {
        Seq::empty()
    })
}

/// The code that brings a shell, whose ordered lists are `ours`, to `head`.
pub fn catch_up(ours: State, entries: &[(u64, Vec<Change>)], head: u64, families: &[Glob]) -> (r:
    String)
    ensures
        r@ == catch_up_code(
            ours@,
            payload::entry_models(entries@),
            head,
            globs::patterns(families@),
        ),
{
    let mut lists: State = ours;
    let mut out: String = generate(entries, &mut lists, families);
    let ghost code = out@;
    assert(payload::entry_models(entries@).len() == entries@.len());
    if entries.len() == 0 {
        let mut line = "SHAREZED_CURSOR=".to_owned();
        line.append(decimal_of(head).as_str());
        line.append("\n");
        out.append(line.as_str());
    } else {
        assert(code =~= code + Seq::<char>::empty());
    }
    out
}

/// Answers a shell that has sent the state of its ordered lists: the code that
/// it is to evaluate, or what is wrong with what it has sent.
pub fn export(buf: &[u8], entries: &[(u64, Vec<Change>)], head: u64, families: &[Glob]) -> (r: Result<
    String,
    String,
>)
    ensures
        match wire::wire_state(wire::fields_of(buf@)) {
            Ok(ours) => r matches Ok(code) && code@ == catch_up_code(
                ours,
                payload::entry_models(entries@),
                head,
                globs::patterns(families@),
            ),
            Err(fault) => r matches Err(m) && m@ == wire::fault_message(
                fault,
                wire::debug_text(wire::quoted_field(fault)),
            ),
        },
{
    match parse_wire(buf) {
        Ok(ours) => Ok(catch_up(ours, entries, head, families)),
        Err(m) => Err(m),
    }
}

/// The hook with its three names filled in, one after the other.
pub open spec fn hook_model(
    template: Seq<char>,
    bin: Seq<char>,
    channel: Seq<char>,
    head: Seq<char>,
) -> Seq<char> {
    text::replaced(
        text::replaced(
            text::replaced(template, "@BIN@"@, payload::quoted(bin)),
            "@CHANNEL@"@,
            payload::quoted(channel),
        ),
        "@HEAD@"@,
        payload::quoted(head),
    )
}

/// Fills in the hook: the program, the channel, and the file that holds the
/// channel's head.
pub fn hook(template: &str, bin: &str, channel: &str, head: &str) -> (r: String)
    ensures
        r@ == hook_model(template@, bin@, channel@, head@),
{
    proof {
        reveal_strlit("@BIN@");
        reveal_strlit("@CHANNEL@");
        reveal_strlit("@HEAD@");
    }
    let a: String = replace(template, "@BIN@", zq(bin).as_str());
    let b: String = replace(a.as_str(), "@CHANNEL@", zq(channel).as_str());
    replace(b.as_str(), "@HEAD@", zq(head).as_str())
}

/// The code that a bare shell has to be able to parse before `changes` are
/// published: their payload for a shell without any list.
pub fn trial_code(changes: &[Change]) -> (r: String)
    ensures
        r@ == payload::entries_payload(
            seq![(0u64, state::change_models(changes@))],
            Map::empty(),
            Seq::empty(),
        ).code,
{
    let mut copy: Vec<Change> = Vec::new();
    for i in 0..changes.len()
        invariant
            copy@.len() == i,
            forall|j: int| 0 <= j < i ==> (#[trigger] copy@[j])@ == changes@[j]@,
    {
        copy.push(changes[i].clone());
    }
    assert(state::change_models(copy@) =~= state::change_models(changes@));
    let entries: Vec<(u64, Vec<Change>)> = vec![(0u64, copy)];
    let mut none: State = Table::new();
    let families: Vec<Glob> = Vec::new();
    assert(payload::entry_models(entries@) =~= seq![(0u64, state::change_models(changes@))]);
    assert(globs::patterns(families@) =~= Seq::<Seq<char>>::empty());
    generate(entries.as_slice(), &mut none, families.as_slice())
}

/// What is said of a payload that a shell cannot parse.
pub open spec fn fault_text(complaint: Seq<u8>) -> Seq<char> {
    "generated payload does not parse, refusing to publish:\n"@ + wire::decoded(complaint)
}

/// Says that a payload is not published, and what the shell complained of.
pub fn payload_fault(complaint: &[u8]) -> (r: String)
    ensures
        r@ == fault_text(complaint@),
{
    let mut m = "generated payload does not parse, refusing to publish:\n".to_owned();
    m.append(decode_lossy(complaint).as_str());
    m
}

} // verus!
