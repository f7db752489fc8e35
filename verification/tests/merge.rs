use sharezed::globs::Glob;
use sharezed::lists::{dedup, lcs, norm};
use sharezed::merge::{
    default_families, lcs_anchors, merge, merge_members, Family, Merged,
};

fn v(s: &[&str]) -> Vec<String> {
    s.iter().map(|x| x.to_string()).collect()
}

fn m(b: &[&str], o: &[&str], t: &[&str]) -> Merged {
    merge(&v(b), &v(o), &v(t), &[])
}

#[test]
fn s1_prepends_survive_an_upstream_insert() {
    let r = m(
        &["/usr/bin", "/bin"],
        &["/home/m/bin", "/usr/bin", "/bin"],
        &["/usr/bin", "/opt/new", "/bin"],
    );
    assert_eq!(r.list, v(&["/home/m/bin", "/usr/bin", "/opt/new", "/bin"]));
}

#[test]
fn s2_three_prepends_keep_their_relative_order() {
    let r = m(
        &["/usr/bin"],
        &["/a", "/b", "/c", "/usr/bin"],
        &["/usr/bin", "/bin"],
    );
    assert_eq!(r.list, v(&["/a", "/b", "/c", "/usr/bin", "/bin"]));
}

#[test]
fn s3_reapplying_a_generation_is_idempotent() {
    let (base, theirs) = (v(&["/usr/bin", "/bin"]), v(&["/usr/bin", "/bin"]));
    let once = merge(
        &base,
        &v(&["/home/m/bin", "/usr/bin", "/bin"]),
        &theirs,
        &[],
    );
    let twice = merge(&base, &once.list, &theirs, &[]);
    assert_eq!(once.list, twice.list);
    assert_eq!(once.list, v(&["/home/m/bin", "/usr/bin", "/bin"]));
}

#[test]
fn s4_a_local_append_is_not_promoted() {
    let r = m(
        &["/usr/bin", "/bin"],
        &["/usr/bin", "/bin", "/tail"],
        &["/usr/bin", "/bin"],
    );
    assert_eq!(r.list, v(&["/usr/bin", "/bin", "/tail"]));
}

#[test]
fn s5_a_mid_list_insert_follows_its_anchor_through_a_reversal() {
    let r = m(
        &["/a", "/b", "/c"],
        &["/a", "/b", "/mine", "/c"],
        &["/c", "/b", "/a"],
    );
    assert_eq!(r.list, v(&["/c", "/b", "/mine", "/a"]));
}

#[test]
fn s6_a_locally_deleted_entry_stays_deleted() {
    let r = m(&["/a", "/b"], &["/a"], &["/a", "/b"]);
    assert_eq!(r.list, v(&["/a"]));
    assert!(r.notes.iter().any(|n| n.starts_with("kept deleted: /b")));
}

#[test]
fn s7_prepending_something_upstream_has_lower_down_hoists_it() {
    let r = m(
        &["/a", "/b", "/c"],
        &["/c", "/a", "/b"],
        &["/a", "/b", "/c"],
    );
    assert_eq!(r.list, v(&["/c", "/a", "/b"]));
    assert!(r.notes.iter().any(|n| n.starts_with("hoisted: /c")));
}

#[test]
fn s8_upstream_drops_an_untouched_entry() {
    let r = m(&["/a", "/b"], &["/a", "/b"], &["/a"]);
    assert_eq!(r.list, v(&["/a"]));
}

#[test]
fn s9_an_insert_whose_anchor_vanished_is_flagged_orphan() {
    let r = m(&["/a", "/b"], &["/a", "/mine", "/b"], &["/b"]);
    assert_eq!(r.list, v(&["/mine", "/b"]));
    assert!(r.notes.iter().any(|n| n.contains("orphan: /mine")));
}

#[test]
fn s10_trailing_slashes_are_the_same_entry() {
    let r = m(
        &["/usr/bin"],
        &["/opt/x/", "/usr/bin"],
        &["/opt/x//", "/usr/bin"],
    );
    assert_eq!(r.list.len(), 2, "no duplicate: {:?}", r.list);
    assert_eq!(norm("/opt/x/"), norm("/opt/x//"));
}

#[test]
fn s11_a_newer_family_member_evicts_the_local_prepend() {
    let fam = [Glob::new("/nvm/*/bin").unwrap()];
    let r = merge(
        &v(&["/usr/bin"]),
        &v(&["/nvm/v18/bin", "/usr/bin"]),
        &v(&["/nvm/v20/bin", "/usr/bin"]),
        &fam,
    );
    assert_eq!(r.list, v(&["/nvm/v20/bin", "/usr/bin"]));
    assert!(r.notes.iter().any(|n| n.contains("evicted: /nvm/v18/bin")));
}

#[test]
fn s12_an_empty_component_is_preserved() {
    let r = m(&["/usr/bin"], &["", "/usr/bin"], &["/usr/bin", "/bin"]);
    assert_eq!(r.list, v(&["", "/usr/bin", "/bin"]));
}

#[test]
fn norm_is_lexical_only() {
    assert_eq!(norm("//a//b//"), "/a/b");
    assert_eq!(norm("/"), "/");
    assert_eq!(norm(""), "");
    assert_eq!(dedup(&v(&["/a", "/a/", "/b", "/a//"])), v(&["/a", "/b"]));
}

#[test]
fn norm_keeps_dots_and_the_root() {
    assert_eq!(norm("///"), "/");
    assert_eq!(norm("a/./b/../c/"), "a/./b/../c");
    assert_eq!(norm(&norm("//x///y/")), norm("//x///y/"));
}

#[test]
fn every_note_is_worded_in_full() {
    let r = m(&["/a", "/b"], &["/a"], &["/a", "/b"]);
    assert_eq!(r.notes, v(&["kept deleted: /b (upstream still wants it)"]));
    let r = m(&["/a", "/b"], &["/a", "/mine", "/b"], &["/b"]);
    assert_eq!(r.notes, v(&["orphan: /mine (anchor /a gone)"]));
    let r = m(
        &["/a", "/b", "/c"],
        &["/c", "/a", "/b"],
        &["/a", "/b", "/c"],
    );
    assert_eq!(r.notes, v(&["hoisted: /c"]));
    let fam = [Family { pattern: "F".to_string(), members: v(&["/old", "/new"]) }];
    let r = merge_members(&v(&["/x"]), &v(&["/old", "/x"]), &v(&["/new", "/x"]), &fam);
    assert_eq!(r.list, v(&["/new", "/x"]));
    assert_eq!(r.notes, v(&["evicted: /old (superseded in family F)"]));
}

#[test]
fn an_addition_the_incoming_list_has_keeps_its_incoming_place() {
    let r = m(&["/a", "/b"], &["/a", "/new", "/b"], &["/new", "/a", "/b"]);
    assert_eq!(r.list, v(&["/new", "/a", "/b"]));
    assert!(r.notes.is_empty());
}

#[test]
fn untouched_lists_are_replaced() {
    let r = m(&["/a", "/b/"], &["/a/", "/b"], &["/z", "/b", "/z/"]);
    assert_eq!(r.list, v(&["/z", "/b"]));
    assert!(r.notes.is_empty());
}

#[test]
fn several_insertions_behind_one_anchor_keep_their_order() {
    let r = m(
        &["/a", "/b"],
        &["/a", "/1", "/2", "/b", "/3"],
        &["/b", "/a"],
    );
    assert_eq!(r.list, v(&["/b", "/3", "/a", "/1", "/2"]));
}

#[test]
fn several_orphans_keep_their_order() {
    let r = m(
        &["/a", "/b"],
        &["/0", "/a", "/1", "/2", "/b"],
        &["/b"],
    );
    assert_eq!(r.list, v(&["/0", "/1", "/2", "/b"]));
}

#[test]
fn reapplying_can_undo_a_hoist_that_looks_like_an_anchor() {
    let once = m(&["/a"], &["/c", "/a"], &["/a", "/c"]);
    assert_eq!(once.list, v(&["/c", "/a"]));
    let twice = merge(&v(&["/a", "/c"]), &once.list, &v(&["/a", "/c"]), &[]);
    assert_eq!(twice.list, v(&["/a", "/c"]));
}

#[test]
fn reapplying_spells_anchors_as_the_incoming_list_does() {
    let theirs = v(&["/c", "/b"]);
    let once = merge(&v(&["/b"]), &v(&["/c/", "/b"]), &theirs, &[]);
    assert_eq!(once.list, v(&["/c/", "/b"]));
    let twice = merge(&theirs, &once.list, &theirs, &[]);
    assert_eq!(twice.list, v(&["/c", "/b"]));
}

#[test]
fn reapplying_keeps_insertions_prepends_and_orphans() {
    let theirs = v(&["/n", "/b", "/a"]);
    let fam = [Glob::new("/nvm/*/bin").unwrap()];
    let once = merge(
        &v(&["/a", "/b", "/gone"]),
        &v(&["/p", "/a", "/i", "/b", "/gone", "/o"]),
        &theirs,
        &fam,
    );
    assert_eq!(once.list, v(&["/p", "/o", "/n", "/b", "/a", "/i"]));
    let twice = merge(&theirs, &once.list, &theirs, &fam);
    assert_eq!(twice.list, once.list);
}

#[test]
fn reapplying_keeps_an_addition_that_arrives() {
    let theirs = v(&["/new", "/a", "/b"]);
    let once = merge(&v(&["/a", "/b"]), &v(&["/a", "/new", "/b"]), &theirs, &[]);
    assert_eq!(once.list, theirs);
    assert_eq!(merge(&theirs, &once.list, &theirs, &[]).list, once.list);
}

#[test]
fn reapplying_a_hoist_can_keep_it_or_not() {
    let theirs = v(&["/a", "/b", "/c"]);
    let once = merge(&theirs, &v(&["/c", "/a", "/b"]), &theirs, &[]);
    assert_eq!(once.list, v(&["/c", "/a", "/b"]));
    assert_eq!(merge(&theirs, &once.list, &theirs, &[]).list, once.list);
    let theirs = v(&["x", "y", "z"]);
    let once = merge(&v(&["y"]), &v(&["x", "z", "y"]), &theirs, &[]);
    assert_ne!(merge(&theirs, &once.list, &theirs, &[]).list, once.list);
}

#[test]
fn ties_pass_over_the_first_list() {
    assert_eq!(lcs(&v(&["a", "b"]), &v(&["b", "a"])), vec![(1, 0)]);
    assert_eq!(lcs(&v(&["/x/", "y"]), &v(&["/x", "y"])), vec![(0, 0), (1, 1)]);
    assert_eq!(
        lcs_anchors(&v(&["a", "b"]), &v(&["b", "a"])),
        vec![true, false]
    );
    assert_eq!(lcs(&v(&["/a", "/b", "/c"]), &v(&["/c", "/new", "/a"])), vec![(2, 0)]);
}

#[test]
fn families_are_rooted_in_the_home_directory() {
    let fams = default_families("/home/m", "  ~/x/*  [ /y/~/z ");
    let texts: Vec<&str> = fams.iter().map(|g| g.as_str()).collect();
    assert_eq!(
        texts,
        vec![
            "/home/m/.nvm/versions/node/*/bin",
            "/home/m/.pyenv/versions/*/bin",
            "/home/m/.rbenv/versions/*/bin",
            "/home/m/.rustup/toolchains/*/bin",
            "/home/m/.asdf/installs/*/*/bin",
            "/home/m/x/*",
            "/y//home/m/z",
        ]
    );
    assert!(fams[0].matches("/home/m/.nvm/versions/node/v20.1.0/bin"));
    assert!(!fams[0].matches("/home/x/.nvm/versions/node/v20.1.0/bin"));
}

#[test]
fn malformed_globs_are_refused() {
    assert!(Glob::new("[").is_none());
    assert!(Glob::new("***").is_none());
    assert_eq!(Glob::new("a*").unwrap().as_str(), "a*");
}
