use mush::history::HistoryEntry;
use mush::repl::{render_prompt, step, Effect, Session};
use mush::timestamp::Timestamp;

fn ts(h: u8, m: u8, s: u8) -> Timestamp {
    Timestamp::new(2021, 6, 7, h, m, s, 123_456_789, -300).unwrap()
}

fn session() -> Session {
    Session { session_time: ts(12, 0, 0), fallback_mode: false }
}

#[test]
fn simple_command_logs_then_spawns() {
    let mut sess = session();
    let effects = step(&mut sess, "ls -la", ts(12, 0, 1), Some(String::from("/home/u")));
    assert_eq!(effects.len(), 2);
    match &effects[0] {
        Effect::Log(e) => {
            assert_eq!(e.line, "ls -la");
            assert!(!e.fallback_mode);
            assert_eq!(e.cwd.as_deref(), Some("/home/u"));
            assert_eq!(e.session_time, ts(12, 0, 0));
            assert_eq!(e.command_time, ts(12, 0, 1));
        }
        other => panic!("expected a log entry first, got {:?}", other),
    }
    match &effects[1] {
        Effect::Spawn(prog, args) => {
            assert_eq!(prog, "ls");
            assert_eq!(args, &vec![String::from("-la")]);
        }
        other => panic!("expected a spawn, got {:?}", other),
    }
    assert!(!sess.fallback_mode);
}

#[test]
fn log_comes_before_spawn() {
    let mut sess = session();
    let effects = step(&mut sess, "sleep 100", ts(12, 0, 1), None);
    let log_at = effects
        .iter()
        .position(|e| matches!(e, Effect::Log(_)))
        .expect("one log effect");
    for (i, e) in effects.iter().enumerate() {
        if matches!(e, Effect::Spawn(..)) {
            assert!(log_at < i, "the audit record must precede the spawn");
        }
    }
    assert_eq!(
        effects.iter().filter(|e| matches!(e, Effect::Log(_))).count(),
        1
    );
}

#[test]
fn fallback_mode_hands_line_to_bash_verbatim() {
    let mut sess = Session { session_time: ts(12, 0, 0), fallback_mode: true };
    let effects = step(&mut sess, "echo $HOME | cat", ts(12, 0, 2), None);
    assert_eq!(effects.len(), 2);
    match &effects[0] {
        Effect::Log(e) => {
            assert_eq!(e.line, "echo $HOME | cat");
            assert!(e.fallback_mode);
        }
        other => panic!("expected a log entry first, got {:?}", other),
    }
    match &effects[1] {
        Effect::Spawn(prog, args) => {
            assert_eq!(prog, "bash");
            assert_eq!(
                args,
                &vec![String::from("-c"), String::from("echo $HOME | cat")]
            );
        }
        other => panic!("expected a spawn, got {:?}", other),
    }
}

#[test]
fn empty_line_does_nothing() {
    let mut sess = session();
    let effects = step(&mut sess, "", ts(12, 0, 1), None);
    assert!(effects.is_empty());
    let effects = step(&mut sess, "   \t  ", ts(12, 0, 1), None);
    assert!(effects.is_empty());
    assert!(!sess.fallback_mode);
}

#[test]
fn toggle_twice_restores_mode_and_logs_nothing() {
    let mut sess = session();
    let effects = step(&mut sess, "\u{14}", ts(12, 0, 1), None);
    assert!(effects.is_empty());
    assert!(sess.fallback_mode);
    let effects = step(&mut sess, "\u{14}", ts(12, 0, 2), None);
    assert!(effects.is_empty());
    assert!(!sess.fallback_mode);
}

#[test]
fn toggle_line_is_trimmed_first() {
    let mut sess = session();
    let effects = step(&mut sess, "  \u{14}  ", ts(12, 0, 1), None);
    assert!(effects.is_empty());
    assert!(sess.fallback_mode);
}

#[test]
fn exit_is_logged_then_exits() {
    let mut sess = session();
    let effects = step(&mut sess, "exit", ts(12, 0, 1), None);
    assert_eq!(effects.len(), 2);
    assert!(matches!(effects[0], Effect::Log(_)));
    assert!(matches!(effects[1], Effect::Exit));
}

#[test]
fn exit_works_in_fallback_mode_too() {
    let mut sess = Session { session_time: ts(12, 0, 0), fallback_mode: true };
    let effects = step(&mut sess, "exit", ts(12, 0, 1), None);
    assert!(matches!(effects[1], Effect::Exit));
}

#[test]
fn cd_without_argument_goes_home() {
    let mut sess = session();
    let effects = step(&mut sess, "cd", ts(12, 0, 1), None);
    assert_eq!(effects.len(), 2);
    assert!(matches!(effects[0], Effect::Log(_)));
    assert!(matches!(effects[1], Effect::ChdirHome));
}

#[test]
fn cd_with_argument_names_the_path() {
    let mut sess = session();
    let effects = step(&mut sess, "cd /nonexistent", ts(12, 0, 1), None);
    assert_eq!(effects.len(), 2);
    match &effects[1] {
        Effect::Chdir(p) => assert_eq!(p, "/nonexistent"),
        other => panic!("expected a directory change, got {:?}", other),
    }
}

#[test]
fn cd_arguments_are_joined_with_single_spaces() {
    let mut sess = session();
    let effects = step(&mut sess, "cd my   dir", ts(12, 0, 1), None);
    match &effects[1] {
        Effect::Chdir(p) => assert_eq!(p, "my dir"),
        other => panic!("expected a directory change, got {:?}", other),
    }
}

#[test]
fn command_line_is_trimmed_and_split_on_whitespace() {
    let mut sess = session();
    let effects = step(&mut sess, "  grep\t-r  needle   .  ", ts(12, 0, 1), None);
    match &effects[0] {
        Effect::Log(e) => assert_eq!(e.line, "grep\t-r  needle   ."),
        other => panic!("expected a log entry first, got {:?}", other),
    }
    match &effects[1] {
        Effect::Spawn(prog, args) => {
            assert_eq!(prog, "grep");
            assert_eq!(
                args,
                &vec![
                    String::from("-r"),
                    String::from("needle"),
                    String::from(".")
                ]
            );
        }
        other => panic!("expected a spawn, got {:?}", other),
    }
}

#[test]
fn prompt_shows_user_host_and_directory() {
    let p = render_prompt(false, "u", "h", "/tmp");
    assert_eq!(p, "u@h:/tmp> ");
    let p = render_prompt(true, "u", "h", "???");
    assert_eq!(p, "(bash) u@h:???> ");
}

#[test]
fn whitespace_predicate_matches_std() {
    for u in 0u32..=0x3001 {
        if let Some(c) = char::from_u32(u) {
            assert_eq!(
                mush::text::is_space(c),
                c.is_whitespace(),
                "disagreement on U+{:04X}",
                u
            );
        }
    }
}

#[test]
fn entry_fields_survive_the_step() {
    let mut sess = Session { session_time: ts(1, 2, 3), fallback_mode: false };
    let effects = step(&mut sess, "true", ts(4, 5, 6), Some(String::from("/")));
    match &effects[0] {
        Effect::Log(e) => {
            let expect = HistoryEntry {
                session_time: ts(1, 2, 3),
                command_time: ts(4, 5, 6),
                line: String::from("true"),
                cwd: Some(String::from("/")),
                fallback_mode: false,
            };
            assert_eq!(e.session_time, expect.session_time);
            assert_eq!(e.command_time, expect.command_time);
            assert_eq!(e.line, expect.line);
            assert_eq!(e.cwd, expect.cwd);
            assert_eq!(e.fallback_mode, expect.fallback_mode);
        }
        other => panic!("expected a log entry first, got {:?}", other),
    }
}
