use sharezed::globs::Glob;
use sharezed::report::{
    clip, control, describe, describe_all, element_diff, log_line, nothing_published, path_explain,
    plural, show, show_entry, status, Standing,
};
use sharezed::state::{Change, Kind};

fn v(s: &[&str]) -> Vec<String> {
    s.iter().map(|x| x.to_string()).collect()
}

fn change(kind: Kind, name: &str, new: Option<&[&str]>, old: Option<&[&str]>) -> Change {
    Change { kind, name: name.to_string(), attrs: String::new(), new: new.map(v), old: old.map(v) }
}

#[test]
fn list_changes_render_element_wise() {
    // /c moves to the front, /b goes away, /new arrives
    let d = element_diff(&v(&["/a", "/b", "/c"]), &v(&["/c", "/new", "/a"]));
    assert_eq!(
        d,
        [
            "      -   1  /a",
            "      -   2  /b",
            "      +   2  /new",
            "      +   3  /a",
        ],
        "a move is a removal plus an addition: in a priority-ordered list the index is the meaning"
    );
    assert!(element_diff(&v(&["/a"]), &v(&["/a"]))[0].contains("attributes changed"));
}

#[test]
fn lists_that_differ_in_spelling_only_show_no_element() {
    assert_eq!(
        element_diff(&v(&["/a/"]), &v(&["/a"])),
        ["        (same elements; attributes changed)"]
    );
}

#[test]
fn list_changes_are_described_by_their_elements() {
    let c = change(
        Kind::Array,
        "path",
        Some(&["/opt/b", "/a", "/b", "/c", "/d", "/e"]),
        Some(&["/a", "/b", "/c", "/d", "/e"]),
    );
    assert_eq!(
        describe(&c),
        "  ~ array   path                     5 → 6 elements\n      +   1  /opt/b"
    );
    let c = change(Kind::Assoc, "h", Some(&["k", "v"]), Some(&["k", "w"]));
    assert_eq!(
        describe(&c),
        "  ~ assoc   h                        2 → 2 elements\n      -   2  w\n      +   2  v"
    );
}

#[test]
fn other_changes_are_described_in_a_line() {
    assert_eq!(
        describe(&change(Kind::Scalar, "EDITOR", Some(&["hx"]), Some(&["vim"]))),
        "  ~ scalar  EDITOR                   vim → hx"
    );
    assert_eq!(
        describe(&change(Kind::Func, "work", Some(&["print  \"working\n\tin $1\""]), None)),
        "  + func    work                     print \"working in $1\""
    );
    assert_eq!(
        describe(&change(Kind::Alias, "gs", None, Some(&["git status"]))),
        "  - alias   gs                       git status"
    );
    assert_eq!(
        describe(&change(Kind::Array, "a", Some(&["x", "y"]), None)),
        "  + array   a                        x y"
    );
    assert_eq!(
        describe(&change(Kind::Autoload, "a_name_of_more_than_twenty_four", None, None)),
        "  ? autoload a_name_of_more_than_twenty_four "
    );
    let cs = [
        change(Kind::Alias, "a", Some(&["1"]), None),
        change(Kind::Alias, "b", None, Some(&["2"])),
    ];
    assert_eq!(describe_all(&cs), [describe(&cs[0]), describe(&cs[1])]);
}

#[test]
fn escapes_do_not_reach_the_terminal() {
    assert_eq!(show(&v(&["\u{1b}[7mnew%# "])), "\\e[7mnew%#");
    let shown = show(&v(&["a\u{0}b\u{7f}c\u{9f}d\u{7}"]));
    let expected: String = "a\u{0}b\u{7f}c\u{9f}d\u{7}"
        .chars()
        .flat_map(|c| if c.is_control() { c.escape_debug().collect() } else { vec![c] })
        .collect();
    assert_eq!(shown, expected);
    assert!(!shown.chars().any(|c| c.is_control()));
    assert_eq!(show(&v(&["  a ", "\n\t", "b\u{a0}c"])), "a b c");
    assert_eq!(show(&[]), "");
}

#[test]
fn escapes_in_list_entries_do_not_reach_the_terminal() {
    let c = change(
        Kind::Array,
        "psvar",
        Some(&["a", "\u{1b}[7mnew\n\u{7}"]),
        Some(&["a", "\u{1b}[0mold"]),
    );
    assert_eq!(
        describe(&c),
        "  ~ array   psvar                    2 → 2 elements\n      -   2  \\e[0mold\n      \
         +   2  \\e[7mnew\\n\\u{7}"
    );
    let long = "x".repeat(100);
    assert_eq!(element_diff(&[], &[long.clone()]), [format!("      +   1  {long}")]);
}

#[test]
fn every_control_character_is_shown_escaped() {
    for n in 0..=0x10ffffu32 {
        if let Some(c) = char::from_u32(n) {
            assert_eq!(control(c), c.is_control(), "{n:x}");
            if c.is_control() && !c.is_whitespace() && c != '\u{1b}' {
                let expected: String = c.escape_debug().collect();
                assert_eq!(show(&[c.to_string()]), expected, "{n:x}");
            }
        }
    }
}

#[test]
fn long_values_are_cut_at_a_character() {
    let long = "x".repeat(60);
    assert_eq!(show(&[long.clone()]), long);
    assert_eq!(show(&[long.clone() + "y"]), long + "…");
    let s = "x".repeat(59) + "é";
    assert_eq!(show(&[s]), "x".repeat(59) + "…", "the é takes bytes 60 and 61");
    let s = "é".repeat(31);
    assert_eq!(show(&[s]), "é".repeat(30) + "…");
    assert_eq!(clip("añb", 1), "a…");
    assert_eq!(clip("añb", 2), "a…");
    assert_eq!(clip("añb", 3), "añ…");
    assert_eq!(clip("añb", 4), "añb");
}

#[test]
fn counts_take_a_plural() {
    assert_eq!(plural(0, "file"), "0 files");
    assert_eq!(plural(1, "file"), "1 file");
    assert_eq!(plural(14, "file"), "14 files");
}

fn standing(head: u64, cursor: u64, conflicts: &str, disabled: bool, hooked: bool) -> Vec<String> {
    status("user", &Standing { head, cursor, conflicts: conflicts.to_string(), disabled, hooked })
}

#[test]
fn the_standing_of_a_shell() {
    assert_eq!(standing(7, 7, "", false, true), ["channel user: cursor 7, head 7 (up to date)"]);
    assert_eq!(
        standing(9, 7, "PS1:EDITOR", true, true),
        [
            "channel user: cursor 7, head 9 (2 pending)",
            "conflicts (local edits kept): PS1, EDITOR",
            "DISABLED in this shell (SHAREZED_DISABLE is set)",
        ]
    );
    assert_eq!(
        standing(3, 9, "", false, false),
        ["channel user: cursor 9, head 3 (up to date)"],
        "a cursor past the head has nothing pending"
    );
    assert_eq!(
        standing(0, 0, "", false, false),
        [
            "channel user: cursor 0, head 0 (up to date)",
            "note: no hook in this shell — eval \"$(sharezed hook zsh)\" in .zshrc",
        ]
    );
    assert_eq!(standing(0, 0, "", false, true).len(), 1);
}

#[test]
fn entries_are_shown_and_listed() {
    let cs = [change(Kind::Alias, "gs", Some(&["git status"]), None)];
    assert_eq!(
        show_entry("user", 3, &cs),
        ["gen 3 (channel user): +1 alias".to_string(), describe(&cs[0])]
    );
    assert_eq!(log_line(3, &cs), "     3  +1 alias");
    assert_eq!(log_line(1234567, &[]), "1234567  ");
    assert_eq!(nothing_published("work"), "nothing published on channel work");
}

#[test]
fn a_search_path_is_explained() {
    let lines = path_explain("user", 4, &v(&["/usr/bin", "/bin"]), &v(&["/me", "/bin/"]), &[]);
    assert_eq!(
        lines,
        [
            "channel user, gen 4".to_string(),
            format!("   1. {:<44} local", "/me"),
            format!("   2. {:<44} published", "/bin"),
            "  note: kept deleted: /usr/bin (upstream still wants it)".to_string(),
        ]
    );
    assert_eq!(
        path_explain("user", 0, &[], &v(&["/bin"]), &[]),
        ["channel user, gen 0", "  path is not managed on this channel"]
    );
    let family = [Glob::new("/nvm/*").unwrap()];
    let lines = path_explain("user", 1, &v(&["/nvm/2"]), &v(&["/nvm/1", "/nvm/2"]), &family);
    assert_eq!(lines[1], format!("   1. {:<44} published", "/nvm/2"));
    assert_eq!(lines.len(), 3);
}
