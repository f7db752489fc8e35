use sharezed::capture::trace_list;
use sharezed::doctor::{conclude, diagnose, flap, Facts, Finding, Level, PrintPair};
use sharezed::capture::Capture;
use sharezed::globs::{any_match, Glob};
use sharezed::paths::{device, join_path, same_path};
use sharezed::prints::{record, Prints};
use sharezed::state::{Item, Kind, State};
use sharezed::text::{
    blank, comes_before, contains, decimal_of, join, lines, listed, pad_left, pad_right, parse_u64,
    parse_usize, replace, split, split_non_empty, starts_with, trim, Cut,
};
use std::path::{Path, PathBuf};

const PATHS: [&str; 22] = [
    "", "/", "//", "a", "a/", "./a", "a/.", "a/./b", "a/b", "a//b", "/a", "//a", "/./a", "/a/..",
    "..", ".", "./", "./.", "/dev", "/dev/fd/3", "dev/fd", "/device/x",
];

#[test]
fn paths_compare_as_those_of_the_system() {
    for a in PATHS {
        for b in PATHS {
            assert_eq!(same_path(a, b), Path::new(a) == Path::new(b), "{a:?} {b:?}");
            let joined = join_path(a.as_bytes(), b.as_bytes());
            let expected = PathBuf::from(a).join(b);
            assert_eq!(joined, expected.to_str().unwrap().as_bytes(), "{a:?} {b:?}");
        }
        assert_eq!(device(a), Path::new(a).starts_with("/dev/"), "{a:?}");
    }
}

#[test]
fn traces_name_each_path_once() {
    let t = trace_list(&Some("/a\n/b\r\n/a/\n\n/b\n".to_string()));
    assert_eq!(t, ["/a", "/b", ""]);
    assert!(trace_list(&None).is_empty());
}

#[test]
fn blanks_are_those_of_the_system() {
    for n in 0..=0x10ffffu32 {
        if let Some(c) = char::from_u32(n) {
            assert_eq!(blank(c), c.is_whitespace(), "{n:x}");
        }
    }
}

const TEXTS: [&str; 12] = [
    "", "a", "b", "ab", "ba", "aa", "aaa", " a b ", "\u{a0}x\u{2003}", "é", "a\r\n\r\nb\r", "\u{1F600}z",
];

#[test]
fn texts_behave_as_those_of_the_system() {
    for a in TEXTS {
        for b in TEXTS {
            assert_eq!(comes_before(a, b), a < b, "{a:?} {b:?}");
            assert_eq!(contains(a, b), a.contains(b), "{a:?} {b:?}");
            assert_eq!(starts_with(a, b), a.starts_with(b), "{a:?} {b:?}");
            if !b.is_empty() {
                assert_eq!(replace(a, b, "<>"), a.replace(b, "<>"), "{a:?} {b:?}");
            }
        }
        assert_eq!(trim(a), a.trim());
        assert_eq!(lines(a), a.lines().collect::<Vec<_>>(), "{a:?}");
        assert_eq!(split(a, Cut::At('a')), a.split('a').collect::<Vec<_>>());
        assert_eq!(
            split_non_empty(a, Cut::WhiteSpace),
            a.split_whitespace().collect::<Vec<_>>()
        );
        assert_eq!(pad_right(a, 3), format!("{a:<3}"));
        assert_eq!(pad_left(a, ' ', 3), format!("{a:>3}"));
    }
    assert_eq!(split_non_empty("a:b  c:", Cut::BlankOrColon), ["a", "b", "c"]);
    let v: Vec<String> = TEXTS.iter().map(|s| s.to_string()).collect();
    assert_eq!(join(&v, ", "), v.join(", "));
    assert!(listed(&v, "ba") && !listed(&v, "bb"));
}

#[test]
fn numbers_are_read_as_the_system_reads_them() {
    for s in [
        "", "+", "-", "0", "00", "+0", "-0", "42", "+42", "++1", " 1", "1 ", "1_0", "a", "٣",
        "18446744073709551615", "18446744073709551616", "099999999999999999999999",
    ] {
        assert_eq!(parse_u64(s), s.parse::<u64>().ok(), "{s:?}");
        assert_eq!(parse_usize(s), s.parse::<usize>().ok(), "{s:?}");
    }
    for n in [0, 9, 10, 99, 100, 1234567, u64::MAX] {
        assert_eq!(decimal_of(n), n.to_string());
        assert_eq!(parse_u64(&decimal_of(n)), Some(n));
    }
}

#[test]
fn globs_match_whole_texts() {
    let g = |p: &str| Glob::new(p).unwrap();
    assert!(g("*TOKEN*").matches("MYTOKEN2"));
    assert!(!g("TOKEN").matches("MYTOKEN"));
    assert!(g("/t/*").matches("/t/a/b"), "a star crosses slashes");
    assert!(g("[ab]?").matches("ax") && !g("[ab]?").matches("cx"));
    assert!(any_match(&[g("a"), g("b")], "b"));
    assert!(!any_match(&[g("a"), g("b")], "c"));
    assert!(!any_match(&[], ""));
}

fn prints(rows: &[(&str, &str)]) -> Prints {
    let rows: Vec<(String, Option<String>)> =
        rows.iter().map(|(p, h)| (p.to_string(), Some(h.to_string()))).collect();
    record(&rows)
}

fn clean() -> Facts {
    Facts {
        rc_path: "/h/.zshrc".to_string(),
        rc: "# rc\neval \"$(sharezed hook zsh)\"\n".to_string(),
        hooked: true,
        cursor: 5,
        head: 5,
        flap: vec![],
        sources: PrintPair { was: prints(&[("/a", "1")]), now: prints(&[("/a", "1")]), total: 14 },
        commands: PrintPair { was: Prints::new(), now: Prints::new(), total: 1 },
        path: vec![("/bin".to_string(), true), (String::new(), false)],
    }
}

fn said(f: &[Finding]) -> Vec<String> {
    f.iter().map(|f| f.line()).collect()
}

#[test]
fn a_clean_shell_has_no_warning() {
    let f = diagnose(&clean());
    assert_eq!(
        said(&f),
        [
            "ok     hook installed in /h/.zshrc",
            "ok     this shell is up to date (gen 5)",
            "ok     capture is reproducible",
            "ok     14 sourced files unchanged since gen 5",
            "ok     1 command unchanged since gen 5",
        ]
    );
    assert_eq!(conclude(&f), Ok(()));
}

fn scalar(name: &str, value: &str) -> State {
    let mut s = State::new();
    s.insert(
        (Kind::Scalar, name.to_string()),
        Item { attrs: String::new(), vals: vec![value.to_string()] },
    );
    s
}

#[test]
fn every_warning_is_worded_and_counted() {
    let capture = |v: &str| Capture {
        s0: State::new(),
        s1: scalar("CLOCK", v),
        sources: vec![],
        commands: vec![],
    };
    let facts = Facts {
        rc: "sharezed\nhook".to_string(),
        cursor: 3,
        flap: flap(&capture("1"), &capture("2"), &[], &[]),
        commands: PrintPair {
            was: prints(&[("/bin/flux", "1")]),
            now: prints(&[("/bin/flux", "2"), ("/bin/x", "3")]),
            total: 8,
        },
        path: vec![("/gone".to_string(), false), ("/bin".to_string(), true)],
        ..clean()
    };
    let f = diagnose(&facts);
    assert_eq!(
        said(&f),
        [
            "WARN no `sharezed hook zsh` in /h/.zshrc",
            "WARN this shell is at gen 3, 5 is published",
            "WARN capture is not reproducible: 1 key differ between two runs",
            "       scalar CLOCK",
            "ok     14 sourced files unchanged since gen 5",
            "WARN 2 of 8 traced command(s) changed since the last publish",
            "       ~ /bin/flux",
            "       + /bin/x",
            "       run `sharezed reload` to pick up what they now produce",
            "WARN PATH entry no longer exists: /gone",
        ]
    );
    assert_eq!(conclude(&f), Err("5 warnings".to_string()));
    assert!(flap(&capture("1"), &capture("1"), &[], &[]).is_empty());
    let ignore = [Glob::new("CLOCK").unwrap()];
    assert!(flap(&capture("1"), &capture("2"), &ignore, &[]).is_empty());
}

#[test]
fn an_upgraded_command_is_noticed() {
    let flux = "/opt/homebrew/bin/flux";
    let facts = Facts {
        commands: PrintPair {
            was: prints(&[(flux, "1"), ("/bin/git", "2")]),
            now: prints(&[(flux, "3"), ("/bin/git", "2")]),
            total: 8,
        },
        ..clean()
    };
    let lines = said(&diagnose(&facts));
    assert_eq!(
        lines[4..],
        [
            "WARN 1 of 8 traced command(s) changed since the last publish",
            "       ~ /opt/homebrew/bin/flux",
            "       run `sharezed reload` to pick up what they now produce",
        ]
    );
    let facts = Facts {
        sources: PrintPair { was: prints(&[("/a", "1")]), now: Prints::new(), total: 13 },
        ..clean()
    };
    let lines = said(&diagnose(&facts));
    assert_eq!(lines[3], "WARN 1 sourced file changed since gen 5 — run `sharezed reload`");
    assert_eq!(lines[4], "       - /a");
    assert_eq!(lines[5], "ok     1 command unchanged since gen 5");
}

#[test]
fn a_note_is_no_warning() {
    let f = diagnose(&Facts { hooked: false, cursor: 0, ..clean() });
    assert_eq!(f[1].line(), "note   this shell has no hook, so it will not converge on its own");
    assert_eq!(conclude(&f), Ok(()));
    let one = [Finding { level: Level::Warn, text: "x".to_string() }];
    assert_eq!(conclude(&one), Err("1 warning".to_string()));
}
