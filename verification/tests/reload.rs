use sharezed::reload::{step, Action, Event, Inspection, Options, Phase, Turn};
use sharezed::state::{Change, Kind};

fn asked() -> Options {
    Options {
        force: false,
        silent: false,
        check: false,
        dry_run: false,
        if_noop: false,
        plain: false,
    }
}

fn seen(files: usize, stale: Option<&str>, stalled: &str, digest: &str) -> Event {
    Event::Inspected {
        seen: Inspection {
            head: 5,
            files,
            commands: 10,
            stale: stale.map(|s| s.to_string()),
            stalled: stalled.to_string(),
            digest: digest.to_string(),
        },
    }
}

fn edit() -> Vec<Change> {
    vec![Change {
        kind: Kind::Scalar,
        name: "EDITOR".to_string(),
        attrs: "scalar".to_string(),
        new: Some(vec!["hx".to_string()]),
        old: Some(vec!["vim".to_string()]),
    }]
}

fn word(a: &Action) -> String {
    match a {
        Action::Check => "check".to_string(),
        Action::Lock => "lock".to_string(),
        Action::Inspect => "inspect".to_string(),
        Action::Capture => "capture".to_string(),
        Action::Validate => "validate".to_string(),
        Action::SaveFresh => "save".to_string(),
        Action::SaveStalled { digest } => format!("stall {digest}"),
        Action::Publish => "publish".to_string(),
        Action::Finish { code } => format!("exit {code}"),
        Action::Fail { message } => format!("fail {message}"),
    }
}

/// Plays a reload through: the actions it asked for, and what it said.
fn play(o: &Options, events: Vec<Event>) -> (String, Vec<String>) {
    let (mut done, mut said) = (Vec::new(), Vec::new());
    let mut phase = Phase::Begun;
    for event in events {
        let turn: Turn = step(o, "user", phase, event).expect("an event it waits for");
        done.push(word(&turn.action));
        said.extend(turn.said);
        phase = turn.phase;
    }
    (done.join(", "), said)
}

fn locked() -> Event {
    Event::Locked { missing: None }
}

fn captured(changes: Vec<Change>) -> Event {
    Event::Captured { head: 5, changes }
}

fn valid() -> Event {
    Event::Validated { fault: None }
}

#[test]
fn an_edit_is_published_and_recorded_afterwards() {
    let (done, said) = play(
        &asked(),
        vec![
            Event::Asked,
            locked(),
            seen(14, Some("/h/.zshrc"), "", "d"),
            captured(edit()),
            valid(),
            Event::Published { seq: 6 },
            Event::Saved,
        ],
    );
    assert_eq!(done, "lock, inspect, capture, validate, publish, save, exit 0");
    assert_eq!(
        said,
        ["changed: /h/.zshrc", "gen 5 → gen 6: ~1 param", "published to channel 'user'"]
    );
}

#[test]
fn unmoved_files_are_not_captured() {
    let (done, said) = play(&asked(), vec![Event::Asked, locked(), seen(14, None, "", "d")]);
    assert_eq!(done, "lock, inspect, exit 0");
    assert_eq!(said, ["gen 5: 14 files and 10 commands unchanged"]);
    let force = Options { force: true, ..asked() };
    let (done, said) = play(&force, vec![Event::Asked, locked(), seen(14, None, "", "d")]);
    assert_eq!(done, "lock, inspect, capture");
    assert!(said.is_empty());
    let (done, _) = play(&asked(), vec![Event::Asked, locked(), seen(0, None, "", "")]);
    assert_eq!(done, "lock, inspect, capture", "nothing is tracked before the first capture");
}

#[test]
fn a_check_only_looks() {
    let check = Options { check: true, ..asked() };
    let moved = Event::Checked { stale: Some("/h/.zshrc".to_string()) };
    let (done, said) = play(&check, vec![Event::Asked, moved]);
    assert_eq!(done, "check, exit 1");
    assert_eq!(said, ["changed: /h/.zshrc"]);
    let (done, said) = play(&check, vec![Event::Asked, Event::Checked { stale: None }]);
    assert_eq!(done, "check, exit 0");
    assert!(said.is_empty());
}

#[test]
fn a_dry_run_neither_publishes_nor_records() {
    let dry = Options { dry_run: true, ..asked() };
    let begin = || vec![Event::Asked, locked(), seen(1, Some("/h/.zshrc"), "", "d")];
    let mut events = begin();
    events.extend([captured(edit()), valid()]);
    let (done, said) = play(&dry, events);
    assert_eq!(done, "lock, inspect, capture, validate, exit 1");
    assert_eq!(
        said,
        [
            "changed: /h/.zshrc",
            "gen 5: would publish ~1 param",
            "  ~ scalar  EDITOR                   vim → hx",
        ]
    );
    let mut events = begin();
    events.push(captured(vec![]));
    let (done, said) = play(&dry, events);
    assert_eq!(done, "lock, inspect, capture, exit 0");
    assert_eq!(said, ["changed: /h/.zshrc", "gen 5: nothing to publish"]);
    let plain = Options { plain: true, ..dry };
    let mut events = begin();
    events.extend([captured(edit()), valid()]);
    assert_eq!(play(&plain, events).1.len(), 2);
}

#[test]
fn settling_records_the_harmless_case_and_leaves_the_real_one() {
    let settle = Options { if_noop: true, ..asked() };
    let begin = || vec![Event::Asked, locked(), seen(1, Some("/h/.zshrc"), "", "d")];
    let mut events = begin();
    events.extend([captured(vec![]), Event::Saved]);
    let (done, said) = play(&settle, events);
    assert_eq!(done, "lock, inspect, capture, save, exit 0");
    assert_eq!(said[1], "gen 5: nothing to publish");
    let mut events = begin();
    events.extend([captured(edit()), valid(), Event::Saved]);
    let (done, said) = play(&settle, events);
    assert_eq!(done, "lock, inspect, capture, validate, stall d, exit 1");
    assert_eq!(said[1], "gen 5: would publish ~1 param");
}

#[test]
fn settling_answers_from_memory_while_nothing_moves() {
    let settle = Options { if_noop: true, ..asked() };
    let stalled = || vec![Event::Asked, locked(), seen(1, Some("/h/.zshrc"), "d", "d")];
    let (done, said) = play(&settle, stalled());
    assert_eq!(done, "lock, inspect, exit 1");
    assert_eq!(
        said,
        [
            "changed: /h/.zshrc",
            "gen 5: still something to publish, unchanged since the last capture",
        ]
    );
    let moved = vec![Event::Asked, locked(), seen(1, Some("/h/.zshrc"), "d", "e")];
    assert_eq!(play(&settle, moved).0, "lock, inspect, capture");
    let untracked = vec![Event::Asked, locked(), seen(0, None, "", "")];
    assert_eq!(play(&settle, untracked).0, "lock, inspect, capture");
    let force = Options { force: true, ..settle };
    assert_eq!(play(&force, stalled()).0, "lock, inspect, capture");
    assert_eq!(play(&asked(), stalled()).0, "lock, inspect, capture");
}

#[test]
fn a_payload_that_does_not_parse_is_not_published() {
    let fault = Event::Validated { fault: Some(b"zsh: parse error".to_vec()) };
    let events = vec![Event::Asked, locked(), seen(0, None, "", ""), captured(edit()), fault];
    let (done, said) = play(&asked(), events);
    assert_eq!(
        done,
        "lock, inspect, capture, validate, fail generated payload does not parse, refusing to \
         publish:\nzsh: parse error"
    );
    assert!(said.is_empty());
}

#[test]
fn a_missing_bootstrap_is_an_error() {
    let missing = Event::Locked { missing: Some("/h/boot.zsh".to_string()) };
    let (done, _) = play(&asked(), vec![Event::Asked, missing]);
    assert_eq!(done, "lock, fail bootstrap /h/boot.zsh is not a file");
}

#[test]
fn silence_covers_all_but_the_exit_code() {
    let silent = Options { silent: true, dry_run: true, ..asked() };
    let events = vec![
        Event::Asked,
        locked(),
        seen(1, Some("/h/.zshrc"), "", "d"),
        captured(edit()),
        valid(),
    ];
    let (done, said) = play(&silent, events);
    assert_eq!(done, "lock, inspect, capture, validate, exit 1");
    assert!(said.is_empty());
}

#[test]
fn events_out_of_turn_are_not_taken() {
    assert!(step(&asked(), "user", Phase::Begun, Event::Saved).is_none());
    assert!(step(&asked(), "user", Phase::Done, Event::Asked).is_none());
    assert!(step(&asked(), "user", Phase::Inspecting, captured(vec![])).is_none());
}
