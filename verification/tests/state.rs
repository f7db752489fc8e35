use sharezed::capture::{capture_command, clean_room, delta, desired_of, Capture, Remains};
use sharezed::globs::Glob;
use sharezed::state::{
    apply, diff, drop_entries, drop_volatile, effect, effect_without, is_list, summary, Change, Item,
    Kind, State,
};
use sharezed::wire::{parse_fields, parse_wire, WireError};

fn wire(recs: &[&[&str]]) -> Vec<u8> {
    let mut out = Vec::new();
    for r in recs {
        for f in *r {
            out.extend_from_slice(f.as_bytes());
            out.push(0);
        }
    }
    out
}

fn vals(s: &State, kind: Kind, name: &str) -> Vec<String> {
    s.get(&(kind, name.to_string())).unwrap().vals.clone()
}

fn keys(s: &State) -> Vec<String> {
    (0..s.len()).map(|i| s.key_at(i).1.clone()).collect()
}

#[test]
fn parses_every_kind() {
    let s = parse_wire(&wire(&[
        &["param", "EDITOR", "scalar-export", "1", "vim"],
        &[
            "param",
            "path",
            "array-tied-special",
            "2",
            "/bin",
            "/usr/bin",
        ],
        &["param", "A", "association", "2", "k", "v"],
        &["param", "EMPTY", "array", "0"],
        &["func", "work", "", "1", "print hi"],
        &["autoload", "zmv", "", "0"],
        &["alias", "gs", "", "1", "git status"],
    ]))
    .unwrap();
    assert_eq!(vals(&s, Kind::Scalar, "EDITOR"), ["vim"]);
    assert_eq!(vals(&s, Kind::Array, "path"), ["/bin", "/usr/bin"]);
    assert_eq!(vals(&s, Kind::Assoc, "A"), ["k", "v"]);
    assert!(vals(&s, Kind::Array, "EMPTY").is_empty());
    assert_eq!(vals(&s, Kind::Func, "work"), ["print hi"]);
    assert!(
        vals(&s, Kind::Autoload, "zmv").is_empty(),
        "presence only"
    );
    assert_eq!(s.len(), 7);
    assert!(parse_wire(&wire(&[&["param", "X", "scalar", "3", "only-one"]])).is_err());
}

#[test]
fn diff_carries_tombstones_and_base() {
    let mut prev = parse_wire(&wire(&[
        &["param", "GONE", "scalar", "1", "x"],
        &["param", "EDITOR", "scalar", "1", "vim"],
    ]))
    .unwrap();
    let next = parse_wire(&wire(&[&["param", "EDITOR", "scalar", "1", "acme"]])).unwrap();

    let d = diff(&prev, &next);
    assert_eq!(d.len(), 2);
    let tomb = d.iter().find(|c| c.name == "GONE").unwrap();
    assert!(tomb.new.is_none() && tomb.old.as_deref() == Some(&["x".to_string()][..]));
    let edit = d.iter().find(|c| c.name == "EDITOR").unwrap();
    assert_eq!(edit.old.as_deref(), Some(&["vim".to_string()][..]));

    apply(&mut prev, &d);
    assert_eq!(prev, next, "replaying Δ reproduces the desired state");
    assert!(diff(&prev, &next).is_empty());
}

#[test]
fn session_scoped_path_elements_are_dropped() {
    let mut s = parse_wire(&wire(&[&[
        "param",
        "path",
        "array-tied",
        "3",
        "/usr/bin",
        "/var/folders/x/T//cmux-cli-shims/UUID",
        "/home/m/bin",
    ]]))
    .unwrap();
    drop_volatile(&mut s, &[Glob::new("/var/folders/x/T/*").unwrap()]);
    assert_eq!(
        vals(&s, Kind::Array, "path"),
        ["/usr/bin", "/home/m/bin"],
        "the doubled slash must not let it through"
    );
}

#[test]
fn effect_keeps_only_what_the_bootstrap_changed() {
    let s0 = parse_wire(&wire(&[
        &["param", "HOME", "scalar", "1", "/home/m"],
        &["param", "EDITOR", "scalar", "1", "vi"],
    ]))
    .unwrap();
    let s1 = parse_wire(&wire(&[
        &["param", "HOME", "scalar", "1", "/home/m"],
        &["param", "EDITOR", "scalar", "1", "acme"],
        &["param", "MYTOKEN", "scalar", "1", "sekrit"],
    ]))
    .unwrap();
    let ignore = [Glob::new("*TOKEN*").unwrap()];
    let d = effect(&s0, &s1, &ignore);
    assert_eq!(keys(&d), ["EDITOR"]);
    assert_eq!(effect(&s0, &s1, &[]).len(), 2);
}

#[test]
fn only_ordered_lists_are_freed_of_volatile_entries() {
    let mut s = parse_wire(&wire(&[
        &["param", "list", "array", "1", "/tmp/x"],
        &["param", "path", "array-tied", "2", "/tmp/x/", "/b"],
        &["param", "one", "scalar-tied", "1", "/tmp/x"],
    ]))
    .unwrap();
    drop_entries(&mut s, &["/tmp/x".to_string()]);
    assert_eq!(vals(&s, Kind::Array, "list"), ["/tmp/x"]);
    assert_eq!(vals(&s, Kind::Array, "path"), ["/b"]);
    assert_eq!(vals(&s, Kind::Scalar, "one"), ["/tmp/x"]);
    let again = s.clone();
    drop_entries(&mut s, &["/tmp/x".to_string()]);
    assert_eq!(s, again);
}

#[test]
fn ignored_names_can_be_given_by_name() {
    let s1 = parse_wire(&wire(&[
        &["alias", "a", "", "1", "x"],
        &["func", "a", "", "1", "x"],
        &["alias", "b", "", "1", "x"],
    ]))
    .unwrap();
    let d = effect_without(&State::new(), &s1, &["a".to_string()]);
    assert_eq!(keys(&d), ["b"]);
    assert!(effect_without(&s1, &s1, &[]).is_empty());
}

#[test]
fn lists_are_tied_arrays() {
    assert!(is_list(Kind::Array, "array-tied"));
    assert!(!is_list(Kind::Array, "array"));
    assert!(!is_list(Kind::Scalar, "scalar-tied"));
}

#[test]
fn every_fault_of_a_stream_has_its_message() {
    let err = |recs: &[&[&str]]| parse_wire(&wire(recs)).unwrap_err();
    assert_eq!(err(&[&["alias", "x"]]), "truncated record for alias");
    assert_eq!(err(&[&["alias", "x", "", "two", "v"]]), "bad nvals \"two\" for x");
    assert_eq!(err(&[&["alias", "x", "", "-1", "v"]]), "bad nvals \"-1\" for x");
    assert_eq!(err(&[&["alias", "x", "", "\t", "v"]]), "bad nvals \"\\t\" for x");
    assert_eq!(err(&[&["alias", "x", "", "3", "v"]]), "truncated values for x");
    assert_eq!(
        err(&[&["alias", "x", "", "18446744073709551615", "v"]]),
        "truncated values for x"
    );
    assert_eq!(err(&[&["thing", "x", "", "0"]]), "unknown kind \"thing\"");
    let fields = vec!["thing".to_string(), "x".to_string(), String::new(), "0".to_string()];
    let e = parse_fields(&fields).unwrap_err();
    assert!(matches!(e, WireError::UnknownKind { .. }));
    assert_eq!(e.message("<shown>"), "unknown kind <shown>");
}

#[test]
fn streams_end_at_an_empty_kind() {
    assert!(parse_wire(b"").unwrap().is_empty());
    let mut bytes = wire(&[&["alias", "x", "", "+1", "v"]]);
    bytes.push(0);
    bytes.extend_from_slice(b"rubbish");
    let s = parse_wire(&bytes).unwrap();
    assert_eq!(keys(&s), ["x"]);
    let s = parse_wire(b"alias\0x\0\01\0\xff\0alias\0x\0\01\0later\0").unwrap();
    assert_eq!(vals(&s, Kind::Alias, "x"), ["later"], "the last record counts");
    let s = parse_wire(b"alias\0x\0\01\0a\xffb\0").unwrap();
    assert_eq!(vals(&s, Kind::Alias, "x"), ["a\u{fffd}b"]);
}

#[test]
fn words_for_every_kind_are_read() {
    let s = parse_wire(&wire(&[
        &["galias", "g", "", "1", "v"],
        &["salias", "s", "", "1", "v"],
        &["compdef", "c", "", "1", "v"],
        &["param", "z", "", "0"],
    ]))
    .unwrap();
    assert_eq!(vals(&s, Kind::Galias, "g"), ["v"]);
    assert_eq!(vals(&s, Kind::Salias, "s"), ["v"]);
    assert_eq!(vals(&s, Kind::Compdef, "c"), ["v"]);
    assert!(vals(&s, Kind::Scalar, "z").is_empty());
    let words: Vec<&str> = [
        Kind::Scalar,
        Kind::Array,
        Kind::Assoc,
        Kind::Func,
        Kind::Autoload,
        Kind::Alias,
        Kind::Galias,
        Kind::Salias,
        Kind::Compdef,
    ]
    .iter()
    .map(|k| k.as_str())
    .collect();
    assert_eq!(
        words,
        [
            "scalar", "array", "assoc", "func", "autoload", "alias", "galias", "salias", "compdef"
        ]
    );
}

fn change(kind: Kind, name: &str, new: bool, old: bool) -> Change {
    let own = |b: bool| if b { Some(vec!["v".to_string()]) } else { None };
    Change {
        kind,
        name: name.to_string(),
        attrs: String::new(),
        new: own(new),
        old: own(old),
    }
}

#[test]
fn summaries_count_by_class_and_sign() {
    let cs = [
        change(Kind::Alias, "a", false, true),
        change(Kind::Func, "f", true, false),
        change(Kind::Autoload, "g", true, false),
        change(Kind::Scalar, "s", true, true),
        change(Kind::Compdef, "c", true, false),
        change(Kind::Salias, "x", false, false),
    ];
    assert_eq!(summary(&cs), "~1 param, +2 functions, -2 aliases, +1 compdef");
    assert_eq!(summary(&[]), "");
}

#[test]
fn changes_name_their_key() {
    assert_eq!(change(Kind::Alias, "a", true, false).key(), (Kind::Alias, "a".to_string()));
    let c = change(Kind::Alias, "a", true, false);
    assert_eq!(c.clone().new, c.new);
}

#[test]
fn states_are_walked_in_key_order() {
    let mut s = State::new();
    for (k, n) in [(Kind::Func, "b"), (Kind::Scalar, "z"), (Kind::Func, "a"), (Kind::Func, "é")] {
        s.insert((k, n.to_string()), Item { attrs: String::new(), vals: vec![n.to_string()] });
    }
    assert_eq!(keys(&s), ["z", "a", "b", "é"]);
    s.remove(&(Kind::Func, "a".to_string()));
    s.remove(&(Kind::Func, "nowhere".to_string()));
    assert_eq!(keys(&s), ["z", "b", "é"]);
    assert!(s.contains_key(&(Kind::Func, "b".to_string())));
    assert!(s.get(&(Kind::Alias, "b".to_string())).is_none());
}

fn remains(s0: &[&[&str]], s1: &[&[&str]]) -> Remains {
    Remains {
        s0: Ok(wire(s0)),
        s1: Ok(wire(s1)),
        sources: Some("/a/x\n/a//x\n./b\nb\n/a/./x/\n".to_string()),
        commands: None,
        status: "exit status: 0".to_string(),
    }
}

#[test]
fn a_capture_is_put_together() {
    let c = clean_room(&remains(&[], &[&["alias", "a", "", "1", "b"]])).unwrap();
    assert!(c.s0.is_empty());
    assert_eq!(vals(&c.s1, Kind::Alias, "a"), ["b"]);
    assert_eq!(c.sources, ["/a/x", "./b", "b"]);
    assert!(c.commands.is_empty());
    assert_eq!(capture_command("/tmp/it's"), r"source '/tmp/it'\''s'");
}

#[test]
fn a_capture_without_a_state_says_why() {
    let mut r = remains(&[], &[]);
    r.s1 = Err("No such file".to_string());
    assert_eq!(
        clean_room(&r).err().unwrap(),
        "capture produced no state (No such file); zsh exited with exit status: 0"
    );
    r.s0 = Ok(b"odd\0".to_vec());
    assert_eq!(clean_room(&r).err().unwrap(), "truncated record for odd");
}

#[test]
fn a_delta_leads_from_what_is_published() {
    let c: Capture = clean_room(&remains(
        &[],
        &[
            &["param", "path", "array-tied", "2", "/tmp/t/x", "/b"],
            &["param", "TOKEN", "scalar", "1", "s"],
        ],
    ))
    .unwrap();
    let ignore = [Glob::new("TOKEN").unwrap()];
    let volatile = [Glob::new("/tmp/t/*").unwrap()];
    let want = desired_of(&c, &ignore, &volatile);
    assert_eq!(keys(&want), ["path"]);
    assert_eq!(vals(&want, Kind::Array, "path"), ["/b"]);
    let d = delta(&c, &State::new(), &ignore, &volatile);
    assert_eq!(d.desired, want);
    assert_eq!(summary(&d.changes), "+1 param");
    assert!(delta(&c, &want, &ignore, &volatile).changes.is_empty());
}
