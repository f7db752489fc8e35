use sharezed::delivery::{catch_up, export, hook, payload_fault, pending, trial_code};
use sharezed::payload::{flags, generate, guarded, order, set_stmt, unset_stmt, valid_name, zq};
use sharezed::state::{Change, Item, Kind, State};

fn change(
    kind: Kind,
    name: &str,
    attrs: &str,
    new: Option<&[&str]>,
    old: Option<&[&str]>,
) -> Change {
    let own = |v: Option<&[&str]>| v.map(|v| v.iter().map(|s| s.to_string()).collect());
    Change {
        kind,
        name: name.into(),
        attrs: attrs.into(),
        new: own(new),
        old: own(old),
    }
}

#[test]
fn quoting_survives_hostile_values() {
    assert_eq!(zq("it's"), r"'it'\''s'");
    let c = change(
        Kind::Scalar,
        "X",
        "scalar-export",
        Some(&["a'b; rm -rf /"]),
        None,
    );
    let p = generate(&[(1, vec![c])], &mut State::new(), &[]);
    assert!(p.contains(r"typeset -gx X='a'\''b; rm -rf /'"), "{}", p);
    assert!(p.contains("_sharezed_absent scalar 'X' || _sharezed_eq scalar 'X'"));
    assert!(p.ends_with("SHAREZED_CURSOR=1\n"));
}

#[test]
fn edits_are_guarded_by_the_previously_published_value() {
    let c = change(
        Kind::Func,
        "work",
        "",
        Some(&["print new"]),
        Some(&["print old"]),
    );
    let p = generate(&[(7, vec![c])], &mut State::new(), &[]);
    assert!(p.contains("_sharezed_eq func 'work' 'print old'"), "{}", p);
    assert!(p.contains("function 'work' {\nprint new\n}"), "{}", p);
    assert!(p.contains("_sharezed_conflict 'work'"));
}

#[test]
fn tombstones_and_autoload_stubs() {
    let tomb = change(Kind::Alias, "gs", "", None, Some(&["git status"]));
    let stub = change(Kind::Autoload, "zmv", "", Some(&[]), None);
    let add = change(Kind::Alias, "ll", "", Some(&["ls -l"]), None);
    let p = generate(&[(2, vec![tomb, stub, add])], &mut State::new(), &[]);
    assert!(p.contains("unalias -- 'gs'"), "{}", p);
    assert!(
        p.contains("elif _sharezed_absent alias 'gs'; then\n  :"),
        "{}",
        p
    );
    assert!(p.contains("autoload -Uz -- 'zmv'"), "{}", p);
    assert!(p.contains("alias -- 'll=ls -l'"), "{}", p);
}

#[test]
fn a_compdef_binding_lands_after_the_function_it_names() {
    let f = change(Kind::Func, "_ccwt", "", Some(&["print hi"]), None);
    let b = change(Kind::Compdef, "ccwt", "", Some(&["_ccwt"]), None);
    let p = generate(&[(1, vec![b, f])], &mut State::new(), &[]);
    let bind = "(( $+functions[compdef] )) && compdef -- '_ccwt' 'ccwt'";
    assert!(p.contains(bind), "{p}");
    assert!(
        p.find("function '_ccwt'").unwrap() < p.find(bind).unwrap(),
        "{p}"
    );
    assert!(p.contains("_sharezed_absent compdef 'ccwt'"), "{p}");

    let gone = change(Kind::Compdef, "ccwt", "", None, Some(&["_ccwt"]));
    let p = generate(&[(2, vec![gone])], &mut State::new(), &[]);
    assert!(
        p.contains("(( $+functions[compdef] )) && compdef -d -- 'ccwt'"),
        "{p}"
    );
}

#[test]
fn a_new_list_param_merges_against_the_hook_install_base() {
    let c = change(
        Kind::Array,
        "path",
        "array-tied",
        Some(&["/opt/x", "/usr/bin"]),
        None,
    );
    let mut ours = State::new();
    let item = |v: &[&str]| Item {
        attrs: "array-tied".into(),
        vals: v.iter().map(|s| s.to_string()).collect(),
    };
    ours.insert((Kind::Array, "path".into()), item(&["/me/bin", "/usr/bin"]));
    ours.insert((Kind::Array, "@base:path".into()), item(&["/usr/bin"]));
    let p = generate(&[(1, vec![c])], &mut ours, &[]);
    assert!(
        p.contains("path=( '/me/bin' '/opt/x' '/usr/bin' )"),
        "{}",
        p
    );
}

#[test]
fn list_params_merge_instead_of_overwriting() {
    let c = change(
        Kind::Array,
        "path",
        "array-tied-unique-special",
        Some(&["/usr/bin", "/opt/new"]),
        Some(&["/usr/bin"]),
    );
    let mut ours = State::new();
    ours.insert(
        (Kind::Array, "path".into()),
        Item {
            attrs: "array-tied-unique-special".into(),
            vals: vec!["/home/m/bin".into(), "/usr/bin".into()],
        },
    );
    let p = generate(&[(3, vec![c])], &mut ours, &[]);
    assert!(
        p.contains("typeset -gaU path=( '/home/m/bin' '/usr/bin' '/opt/new' )"),
        "{}",
        p
    );
    assert_eq!(ours.get(&(Kind::Array, "path".into())).unwrap().vals.len(), 3);
}

#[test]
fn a_whole_payload_is_as_written() {
    let c = change(Kind::Scalar, "X", "scalar", Some(&["new"]), Some(&["old"]));
    let p = generate(&[(12, vec![c])], &mut State::new(), &[]);
    assert_eq!(
        p,
        "# entry 12\nif _sharezed_eq scalar 'X' 'old' || _sharezed_eq scalar 'X' 'new'; then\n  \
         typeset -g X='new'\nelse\n  _sharezed_conflict 'X'\nfi\nSHAREZED_CURSOR=12\n"
    );
}

#[test]
fn an_unknown_list_takes_the_incoming_one() {
    let c = change(
        Kind::Array,
        "fpath",
        "array-tied",
        Some(&["/a", "/a/"]),
        None,
    );
    let mut ours = State::new();
    let p = generate(&[(1, vec![c])], &mut ours, &[]);
    assert_eq!(p, "# entry 1\ntypeset -ga fpath=( '/a' '/a/' )\nSHAREZED_CURSOR=1\n");
    assert_eq!(
        ours.get(&(Kind::Array, "fpath".into())).unwrap().vals,
        vec!["/a".to_string(), "/a/".to_string()]
    );
}

#[test]
fn notes_of_a_merge_become_comments() {
    let c = change(
        Kind::Array,
        "path",
        "array-tied",
        Some(&["/a", "/b"]),
        Some(&["/a", "/b"]),
    );
    let mut ours = State::new();
    ours.insert(
        (Kind::Array, "path".into()),
        Item { attrs: "array-tied".into(), vals: vec!["/a".into()] },
    );
    let p = generate(&[(4, vec![c])], &mut ours, &[]);
    assert_eq!(
        p,
        "# entry 4\n# path: kept deleted: /b (upstream still wants it)\n\
         typeset -ga path=( '/a' )\nSHAREZED_CURSOR=4\n"
    );
}

#[test]
fn a_shell_is_handed_what_it_has_not_seen() {
    assert_eq!(pending(2, 5), [3, 4, 5]);
    assert!(pending(5, 5).is_empty());
    assert!(pending(9, 5).is_empty());
    assert_eq!(pending(u64::MAX - 1, u64::MAX), [u64::MAX]);
    assert!(pending(u64::MAX, u64::MAX).is_empty());
}

#[test]
fn changes_are_ordered_by_what_they_need() {
    assert_eq!(order(&change(Kind::Array, "fpath", "array-tied", None, None)), 0);
    assert_eq!(order(&change(Kind::Array, "a", "array", None, None)), 1);
    assert_eq!(order(&change(Kind::Scalar, "s", "", None, None)), 1);
    assert_eq!(order(&change(Kind::Assoc, "h", "association-tied", None, None)), 1);
    assert_eq!(order(&change(Kind::Autoload, "f", "", None, None)), 2);
    assert_eq!(order(&change(Kind::Func, "f", "", None, None)), 2);
    assert_eq!(order(&change(Kind::Salias, "s", "", None, None)), 3);
    assert_eq!(order(&change(Kind::Compdef, "c", "", None, None)), 3);
    assert_eq!(order(&change(Kind::Func, "_sharezed_precmd", "", None, None)), 4);
    let stub = change(Kind::Autoload, "zmv", "", Some(&[]), None);
    let fpath = change(Kind::Array, "fpath", "array-tied", Some(&["/f"]), None);
    let own = change(Kind::Func, "_sharezed_x", "", Some(&["body"]), Some(&["was"]));
    let p = generate(&[(1, vec![own, stub, fpath])], &mut State::new(), &[]);
    let at = |s: &str| p.find(s).unwrap();
    assert!(at("fpath=(") < at("autoload -Uz"));
    assert!(at("autoload -Uz") < at("function '_sharezed_x'"));
    assert!(
        p.contains("function '_sharezed_x' {\nbody\n}\nSHAREZED_CURSOR=1\n"),
        "the machinery itself is not guarded: {p}"
    );
}

#[test]
fn several_entries_at_once_are_the_same_as_one_by_one() {
    let list = |new: &[&str], old: Option<&[&str]>| {
        change(Kind::Array, "path", "array-tied", Some(new), old)
    };
    let start = || {
        let mut s = State::new();
        s.insert(
            (Kind::Array, "path".into()),
            Item { attrs: "array-tied".into(), vals: vec!["/me".into(), "/a".into()] },
        );
        s
    };
    let first = || (1, vec![list(&["/a", "/b"], Some(&["/a"]))]);
    let second = || (2, vec![list(&["/b"], Some(&["/a", "/b"]))]);
    let mut together = start();
    let all = generate(&[first(), second()], &mut together, &[]);
    let mut apart = start();
    let one = generate(&[first()], &mut apart, &[]);
    let two = generate(&[second()], &mut apart, &[]);
    assert_eq!(all, one + &two);
    assert_eq!(together, apart);
    assert_eq!(
        together.get(&(Kind::Array, "path".into())).unwrap().vals,
        vec!["/me".to_string(), "/b".to_string()]
    );
}

#[test]
fn statements_for_every_kind() {
    let set = |k: Kind, n: &str, a: &str, v: &[&str]| {
        let vals: Vec<String> = v.iter().map(|s| s.to_string()).collect();
        set_stmt(&change(k, n, a, Some(v), None), &vals)
    };
    assert_eq!(set(Kind::Galias, "G", "", &["| grep"]).unwrap(), "alias -g -- 'G=| grep'");
    assert_eq!(set(Kind::Salias, "txt", "", &["vi"]).unwrap(), "alias -s -- 'txt=vi'");
    assert_eq!(set(Kind::Assoc, "h", "association", &["k", "v"]).unwrap(), "typeset -gA h=( 'k' 'v' )");
    assert_eq!(set(Kind::Array, "a", "array-unique", &[]).unwrap(), "typeset -gaU a=(  )");
    assert_eq!(set(Kind::Scalar, "n", "integer-export", &["1"]).unwrap(), "typeset -gxi n='1'");
    assert_eq!(set(Kind::Scalar, "n", "float", &[]).unwrap(), "typeset -gF n=''");
    for (k, a) in [(Kind::Scalar, ""), (Kind::Array, "array-tied"), (Kind::Assoc, "x")] {
        assert!(set(k, "v", a, &["1"]).unwrap().starts_with("typeset -g"));
    }
    assert_eq!(set(Kind::Scalar, "no-name", "", &["1"]), None);
    assert_eq!(set(Kind::Array, "1a", "", &["1"]), None);
    let unset = |k: Kind, n: &str| unset_stmt(&change(k, n, "", None, Some(&["x"])));
    assert_eq!(unset(Kind::Func, "f").unwrap(), "unfunction -- 'f'");
    assert_eq!(unset(Kind::Autoload, "f").unwrap(), "unfunction -- 'f'");
    assert_eq!(unset(Kind::Galias, "G").unwrap(), "unalias -- 'G'");
    assert_eq!(unset(Kind::Salias, "s").unwrap(), "unalias -s -- 's'");
    assert_eq!(unset(Kind::Scalar, "X").unwrap(), "unset X");
    assert_eq!(unset(Kind::Scalar, "a b"), None);
}

#[test]
fn names_and_flags() {
    assert!(valid_name("_a1"));
    assert!(!valid_name(""));
    assert!(!valid_name("1a"));
    assert!(!valid_name("a-b"));
    assert!(!valid_name("ä"));
    assert_eq!(flags(Kind::Scalar, "scalar-float-integer-unique-export"), "-gxUiF");
    assert_eq!(flags(Kind::Array, "array-export"), "-gax");
    assert_eq!(flags(Kind::Assoc, ""), "-gA");
}

#[test]
fn a_guard_for_each_transition() {
    let added = change(Kind::Alias, "a", "", Some(&["1", "2"]), None);
    assert_eq!(
        guarded(&added, "S"),
        "if _sharezed_absent alias 'a' || _sharezed_eq alias 'a' '1' '2'; then\n  S\nelse\n  \
         _sharezed_conflict 'a'\nfi\n"
    );
    let gone = change(Kind::Alias, "a", "", None, Some(&["1"]));
    assert_eq!(
        guarded(&gone, "S"),
        "if _sharezed_eq alias 'a' '1'; then\n  S\nelif _sharezed_absent alias 'a'; then\n  :\n\
         else\n  _sharezed_conflict 'a'\nfi\n"
    );
    assert_eq!(guarded(&change(Kind::Alias, "a", "", None, None), "S"), "");
}

#[test]
fn a_shell_that_cannot_advance_is_told_where_the_head_is() {
    assert_eq!(catch_up(State::new(), &[], 9, &[]), "SHAREZED_CURSOR=9\n");
    let c = change(Kind::Alias, "a", "", Some(&["b"]), None);
    let code = export(b"", &[(9, vec![c])], 9, &[]).unwrap();
    assert!(code.starts_with("# entry 9\n"));
    assert!(code.ends_with("fi\nSHAREZED_CURSOR=9\n"));
    assert_eq!(export(b"odd\0", &[], 1, &[]).unwrap_err(), "truncated record for odd");
    let code = export(
        b"param\0path\0array-tied\01\0/me\0",
        &[(2, vec![change(Kind::Array, "path", "array-tied", Some(&["/x"]), Some(&[]))])],
        2,
        &[],
    )
    .unwrap();
    assert!(code.contains("path=( '/me' '/x' )"), "{code}");
}

#[test]
fn a_hook_is_filled_in() {
    assert_eq!(
        hook("@BIN@ --channel @CHANNEL@ <@HEAD@ @BIN@", "/bin/it's", "user", "/s/head"),
        r"'/bin/it'\''s' --channel 'user' <'/s/head' '/bin/it'\''s'"
    );
    assert_eq!(
        hook("@BIN@", "@CHANNEL@", "c", "h"),
        "''c''",
        "one replacement follows the other"
    );
}

#[test]
fn a_trial_is_the_payload_for_a_bare_shell() {
    let c = || change(Kind::Array, "path", "array-tied", Some(&["/a"]), Some(&["/b"]));
    assert_eq!(trial_code(&[c()]), generate(&[(0, vec![c()])], &mut State::new(), &[]));
    assert_eq!(
        payload_fault(b"zsh: bad \xff"),
        "generated payload does not parse, refusing to publish:\nzsh: bad \u{fffd}"
    );
}
