use sharezed::prints::{
    changed_sources, file_digest, fingerprint, fingerprints, hash_sources, hex, record, sha256,
    Prints, Probe, HASH_BELOW,
};
use sharezed::revert::{already_reverted, revert, reverted, step, Action, Event, Phase};
use sharezed::settings::{counter, ignore_globs, live_path, volatile_globs, zshrc};
use sharezed::state::{apply, diff, summary, Change, Item, Kind, State};
use sharezed::store::{
    check_access, frame_lines, head_text, replay_plan, snapshot_seq, snapshots, unframe_lines,
    Meta, Step, Store, SNAPSHOT_EVERY,
};
use sharezed::tracking::{
    dep_digest, fresh_meta, moved_among, print_text, stale_dep, stalled_meta,
};

fn text(bytes: &[u8]) -> String {
    String::from_utf8(bytes.to_vec()).unwrap()
}

fn state(rows: &[(&str, &str)]) -> State {
    let mut s = State::new();
    for (name, value) in rows {
        s.insert(
            (Kind::Scalar, name.to_string()),
            Item { attrs: String::new(), vals: vec![value.to_string()] },
        );
    }
    s
}

#[test]
fn a_channel_has_its_files() {
    let s = Store::located(None, b"/home/m", "user");
    assert_eq!(text(&s.dir), "/home/m/.local/state/sharezed/user");
    assert_eq!(text(&s.head_path()), "/home/m/.local/state/sharezed/user/head");
    assert_eq!(text(&s.lock_path()), "/home/m/.local/state/sharezed/user/.lock");
    assert_eq!(text(&s.meta_path()), "/home/m/.local/state/sharezed/user/meta.json");
    assert_eq!(text(&s.entry_path(7)), "/home/m/.local/state/sharezed/user/000007.jsonl");
    assert_eq!(
        text(&s.snapshot_path(1234567)),
        "/home/m/.local/state/sharezed/user/snapshot-1234567.jsonl"
    );
    let s = Store::located(Some(b"/state/"), b"/home/m", "work");
    assert_eq!(text(&s.dir), "/state/sharezed/work");
    let s = Store::located(Some(b"/state"), b"", "/elsewhere");
    assert_eq!(text(&s.dir), "/elsewhere", "an absolute name stands for itself");
    let s = Store::located(None, b"", "user");
    assert_eq!(text(&s.dir), ".local/state/sharezed/user");
}

#[test]
fn a_channel_is_the_owners_alone() {
    assert_eq!(check_access("/d", 1000, 1000, 0o40700), Ok(()));
    assert_eq!(
        check_access("/d", 0, 1000, 0o40777),
        Err("/d is owned by uid 0, not you".to_string())
    );
    for mode in [0o40710, 0o40701, 0o40704, 0o40720] {
        assert_eq!(
            check_access("/d", 7, 7, mode),
            Err("/d is group/world accessible".to_string())
        );
    }
}

#[test]
fn the_head_is_read_leniently() {
    assert_eq!(Store::head(None), 0);
    assert_eq!(Store::head(Some("12\n")), 12);
    assert_eq!(Store::head(Some(" +7\t")), 7);
    assert_eq!(Store::head(Some("x")), 0);
    assert_eq!(Store::head(Some("")), 0);
    assert_eq!(Store::head(Some("18446744073709551615")), u64::MAX);
    assert_eq!(Store::head(Some("18446744073709551616")), 0);
    assert_eq!(Store::head(Some(&head_text(42))), 42);
    assert_eq!(head_text(8), "8\n");
    assert_eq!(Store::next_seq(41), 42);
}

#[test]
fn snapshots_are_found_by_name() {
    assert_eq!(snapshot_seq("snapshot-000040.jsonl"), Some(40));
    assert_eq!(snapshot_seq("snapshot-+40.jsonl"), Some(40));
    assert_eq!(snapshot_seq("snapshot-.jsonl"), None);
    assert_eq!(snapshot_seq("snapshot-40.tmp"), None);
    assert_eq!(snapshot_seq("000040.jsonl"), None);
    assert_eq!(snapshot_seq("snapshot-.jsonl.jsonl"), None);
    let names: Vec<String> = ["snapshot-000040.jsonl", "head", "snapshot-000020.jsonl"]
        .iter()
        .map(|s| s.to_string())
        .collect();
    assert_eq!(snapshots(&names), [20, 40]);
    let r = replay_plan(&[20, 40], 39);
    assert_eq!((r.snapshot, r.after), (Some(20), 20));
    let r = replay_plan(&[20, 40], 40);
    assert_eq!((r.snapshot, r.after), (Some(40), 40));
    let r = replay_plan(&[20, 40], 19);
    assert_eq!((r.snapshot, r.after), (None, 0));
}

fn words(steps: &[Step]) -> Vec<String> {
    steps
        .iter()
        .map(|s| match s {
            Step::Entry { seq } => format!("entry {seq}"),
            Step::Snapshot { seq, changes } => format!("snapshot {seq}: {}", summary(changes)),
            Step::Drop { seq } => format!("drop {seq}"),
            Step::Head { seq } => format!("head {seq}"),
        })
        .collect()
}

#[test]
fn the_head_moves_last() {
    let s = state(&[("A", "1"), ("B", "2")]);
    assert_eq!(words(&Store::publish(&s, &[], 7)), ["entry 7", "head 7"]);
    assert_eq!(SNAPSHOT_EVERY, 20);
    assert_eq!(
        words(&Store::publish(&s, &[20, 40, 60], 40)),
        ["entry 40", "snapshot 40: +2 params", "drop 20", "head 40"]
    );
}

#[test]
fn replaying_gives_what_was_published() {
    let (a, b) = (state(&[("A", "1")]), state(&[("A", "2"), ("B", "3")]));
    let c = state(&[("B", "4")]);
    let entries =
        [diff(&State::new(), &a), diff(&a, &b), diff(&b, &c)];
    assert_eq!(Store::desired(&None, &entries), c);
    assert_eq!(Store::desired(&None, &entries[..2]), b);
    let snapshot = Some(diff(&State::new(), &b));
    assert_eq!(Store::desired(&snapshot, &entries[2..]), c, "a snapshot changes nothing");
    assert_eq!(Store::desired(&None, &[]), State::new());
}

#[test]
fn lines_are_framed_and_read_back() {
    let parts = vec!["{\"a\":1}".to_string(), "{}".to_string()];
    assert_eq!(frame_lines(&parts), "{\"a\":1}\n{}\n");
    assert_eq!(unframe_lines(&frame_lines(&parts)), parts);
    assert_eq!(unframe_lines("a\r\nb\n\nc"), ["a", "b", "", "c"]);
    assert!(unframe_lines("").is_empty());
}

#[test]
fn digests_are_sha256() {
    assert_eq!(
        sha256(b"abc"),
        "ba7816bf8f01cfea414140de5dae2223b00361a396177a9cb410ff61f20015ad"
    );
    assert_eq!(
        sha256(b""),
        "e3b0c44298fc1c149afbf4c8996fb92427ae41e4649b934ca495991b7852b855"
    );
    assert_eq!(hex(&[0, 9, 10, 0xab, 0xff]), "00090aabff");
    assert_eq!(file_digest(&None), None);
    assert_eq!(file_digest(&Some(b"abc".to_vec())), Some(sha256(b"abc")));
}

fn probe(len: u64, content: Option<&[u8]>, modified: Option<u64>) -> Option<Probe> {
    Some(Probe {
        len,
        content: content.map(|c| c.to_vec()),
        target: "../Cellar/flux/2.1.0/bin/flux".to_string(),
        modified,
    })
}

#[test]
fn small_commands_go_by_content_and_large_ones_by_metadata() {
    assert_eq!(HASH_BELOW, 16 * 1024);
    assert_eq!(fingerprint(&probe(3, Some(b"abc"), None)), Some(sha256(b"abc")));
    assert_eq!(fingerprint(&probe(3, None, Some(9))), None);
    assert_eq!(
        fingerprint(&probe(16384, None, Some(1700000000))),
        Some("../Cellar/flux/2.1.0/bin/flux 16384 1700000000".to_string())
    );
    assert_eq!(fingerprint(&probe(16384, Some(b"abc"), None)), None);
    assert_eq!(fingerprint(&None), None);
}

fn prints(rows: &[(&str, &str)]) -> Prints {
    let rows: Vec<(String, Option<String>)> =
        rows.iter().map(|(p, h)| (p.to_string(), Some(h.to_string()))).collect();
    record(&rows)
}

#[test]
fn process_substitutions_are_not_hashed() {
    let files = [
        ("/dev/fd/12".to_string(), Some(b"x".to_vec())),
        ("//dev/null".to_string(), Some(b"x".to_vec())),
        ("/device".to_string(), Some(b"abc".to_vec())),
        ("/gone".to_string(), None),
        ("/a".to_string(), Some(b"".to_vec())),
    ];
    let p = hash_sources(&files);
    assert_eq!(p, prints(&[("/device", &sha256(b"abc")), ("/a", &sha256(b""))]));
    assert_eq!(p.key_at(0), "/a");
    let commands = [("/dev/x".to_string(), probe(1, Some(b"abc"), None)), ("/b".to_string(), None)];
    assert_eq!(fingerprints(&commands), prints(&[("/dev/x", &sha256(b"abc"))]));
}

#[test]
fn moves_between_two_tables() {
    let was = prints(&[("/a", "1"), ("/b", "2"), ("/z", "3")]);
    let now = prints(&[("/a", "1"), ("/b", "5"), ("/c", "6")]);
    assert_eq!(changed_sources(&was, &now), ["~ /b", "+ /c", "- /z"]);
    assert!(changed_sources(&was, &was.clone()).is_empty());
}

fn meta() -> Meta {
    fresh_meta(
        hash_sources(&[
            ("/a".to_string(), Some(b"one".to_vec())),
            ("/b".to_string(), Some(b"two".to_vec())),
        ]),
        fingerprints(&[("/bin/c".to_string(), probe(3, Some(b"abc"), None))]),
    )
}

#[test]
fn the_first_that_moved_is_named() {
    let m = meta();
    let file = |s: &str| Some(s.as_bytes().to_vec());
    let cmd = || [probe(3, Some(b"abc"), None)];
    assert_eq!(stale_dep(&m, &[file("one"), file("two")], &cmd()), None);
    assert_eq!(stale_dep(&m, &[file("one"), file("2")], &cmd()), Some("/b".to_string()));
    assert_eq!(stale_dep(&m, &[None, file("2")], &cmd()), Some("/a".to_string()));
    assert_eq!(
        stale_dep(&m, &[file("one"), file("two")], &[None]),
        Some("/bin/c".to_string())
    );
    let t = prints(&[("/a", "1")]);
    assert_eq!(moved_among(&t, &[Some("1".to_string())]), None);
    assert_eq!(moved_among(&t, &[None]), Some("/a".to_string()));
}

#[test]
fn what_is_tracked_has_a_digest() {
    let m = meta();
    let file = |s: &str| Some(s.as_bytes().to_vec());
    let expected = format!(
        "/a\0{}\n/b\0\n/bin/c\0{}\n",
        sha256(b"1"),
        sha256(b"abc")
    );
    assert_eq!(
        print_text(&m, &[Some(sha256(b"1")), None], &[Some(sha256(b"abc"))]),
        expected
    );
    let commands = [probe(3, Some(b"abc"), None)];
    assert_eq!(dep_digest(&m, &[file("1"), None], &commands), sha256(expected.as_bytes()));
    let none = fresh_meta(Prints::new(), Prints::new());
    assert_eq!(dep_digest(&none, &[], &[]), "");
    let s = stalled_meta(meta(), "d".to_string());
    assert_eq!((s.stalled.as_str(), s.sources.len(), s.commands.len()), ("d", 2, 1));
    assert_eq!(m.stalled, "");
}

#[test]
fn settings_are_read_from_the_environment() {
    let globs = ignore_globs("*TOKEN*  *SECRET*:[:X");
    let texts: Vec<&str> = globs.iter().map(|g| g.as_str()).collect();
    assert_eq!(texts, ["*TOKEN*", "*SECRET*", "X"]);
    assert!(globs[0].matches("MYTOKEN") && !globs[0].matches("EDITOR"));
    assert!(volatile_globs(None).is_empty());
    assert!(volatile_globs(Some("")).is_empty(), "an empty one would drop every absolute path");
    assert_eq!(volatile_globs(Some("/var/T//"))[0].as_str(), "/var/T/*");
    assert!(volatile_globs(Some("/[")).is_empty());
    assert_eq!(counter(Some(" 9 ")), 9);
    assert_eq!(counter(Some("nine")), 0);
    assert_eq!(text(&zshrc(Some(b"/z"), b"/home/m")), "/z/.zshrc");
    assert_eq!(text(&zshrc(None, b"/home/m/")), "/home/m/.zshrc");
    assert_eq!(text(&zshrc(None, b"")), ".zshrc");
    assert_eq!(live_path("/a::/b"), ["/a", "", "/b"]);
    assert_eq!(live_path(""), [""]);
}

#[test]
fn reverting_publishes_the_inverse() {
    let before = state(&[("A", "1"), ("GONE", "x")]);
    let after = state(&[("A", "2"), ("NEW", "y")]);
    let entry: Vec<Change> = diff(&before, &after);
    let r = revert(&after, &before, &entry);
    assert_eq!(r.target, before);
    let mut replayed = after.clone();
    apply(&mut replayed, &r.changes);
    assert_eq!(replayed, before);
    assert!(revert(&before, &before, &entry).changes.is_empty());
    assert_eq!(already_reverted(3), "entry 3 is already reverted");
    assert_eq!(
        reverted(9, 3, &r.changes),
        "gen 9: reverted entry 3 (+1 param, ~1 param, -1 param)"
    );
}

#[test]
fn reverting_leaves_later_changes_of_other_keys() {
    let (a, b) = (state(&[]), state(&[("A", "1")]));
    let now = state(&[("A", "1"), ("B", "2")]);
    let r = revert(&now, &a, &diff(&a, &b));
    assert_eq!(r.target, state(&[("B", "2")]));
}

fn with_attrs(attrs: &str) -> State {
    let mut s = State::new();
    s.insert(
        (Kind::Scalar, "EDITOR".to_string()),
        Item { attrs: attrs.to_string(), vals: vec!["vim".to_string()] },
    );
    s
}

#[test]
fn reverting_takes_attributes_back() {
    let (before, after) = (with_attrs("scalar"), with_attrs("scalar-export"));
    let entry = diff(&before, &after);
    let r = revert(&after, &before, &entry);
    assert_eq!(r.target, before);
    assert_eq!(summary(&r.changes), "~1 param");
    assert_eq!(r.changes[0].attrs, "scalar");
    let entries = [diff(&State::new(), &before), entry, r.changes];
    assert_eq!(Store::desired(&None, &entries), before, "the inverse is published");
}

#[test]
fn a_reversal_is_validated_before_it_is_published() {
    let entry = || diff(&State::new(), &state(&[("A", "1")]));
    let turn = step(3, Phase::Comparing, Event::Compared { changes: entry() }).unwrap();
    assert!(matches!(turn.action, Action::Validate));
    assert_eq!(turn.said, None);
    let turn = step(3, turn.phase, Event::Validated { fault: None }).unwrap();
    assert!(matches!(turn.action, Action::Publish));
    let turn = step(3, turn.phase, Event::Published { seq: 9 }).unwrap();
    assert!(matches!(turn.action, Action::Finish));
    assert_eq!(turn.said.unwrap(), "gen 9: reverted entry 3 (+1 param)");
}

#[test]
fn a_reversal_without_a_change_publishes_nothing() {
    let turn = step(3, Phase::Comparing, Event::Compared { changes: vec![] }).unwrap();
    assert!(matches!(turn.action, Action::Finish));
    assert_eq!(turn.said.unwrap(), "entry 3 is already reverted");
    assert!(step(3, turn.phase, Event::Published { seq: 9 }).is_none());
}

#[test]
fn a_reversal_that_does_not_parse_is_refused() {
    let changes = diff(&State::new(), &state(&[("A", "1")]));
    let fault = Event::Validated { fault: Some(b"zsh: parse error".to_vec()) };
    let turn = step(3, Phase::Validating { changes }, fault).unwrap();
    match turn.action {
        Action::Fail { message } => assert_eq!(
            message,
            "generated payload does not parse, refusing to publish:\nzsh: parse error"
        ),
        _ => panic!("it must fail"),
    }
}
