//! The read-interpret-execute core: classifying one submitted line into the
//! effects to perform, and rendering the prompt. The loop around it reads
//! lines, performs the returned effects in order, and repeats.
use vstd::prelude::*;
use vstd::string::{StrSliceExecFns, StringExecFns};
use crate::history::HistoryEntry;
use crate::text::{joined, join_words, lemma_words_nonempty, split_words, str_eq, trim_line,
    trimmed, words_of};
use crate::timestamp::Timestamp;

verus! {

/// Session-level state: fixed start time and the mutable fallback flag.
pub struct Session {
    /// When this shell process started.
    pub session_time: Timestamp,
    /// Whether every line is handed verbatim to the system command
    /// interpreter instead of being tokenized here.
    pub fallback_mode: bool,
}

/// One outward effect of a submitted line, to be performed in order.
#[derive(Debug)]
pub enum Effect {
    /// Append this entry to the history log.
    Log(HistoryEntry),
    /// Terminate the process with success status.
    Exit,
    /// Set the working directory to the home directory; failing to resolve
    /// home here is the one fatal built-in failure.
    ChdirHome,
    /// Set the working directory to this path; on failure, report and go on.
    Chdir(String),
    /// Spawn the program with the arguments and wait; on failure, report
    /// and go on.
    Spawn(String, Vec<String>),
}

/// The control character that toggles fallback mode when submitted as the
/// whole line.
pub open spec fn toggle_text() -> Seq<char> {
    seq!['\u{14}']
}

/// The fallback flag after a line is submitted: flipped exactly by the
/// toggle control character.
pub open spec fn next_fallback(fb: bool, line: Seq<char>) -> bool {
    if trimmed(line) == toggle_text() {
        !fb
    } else {
        fb
    }
}

/// Whether a submitted line produces a history entry: every line except the
/// empty one and the fallback toggle.
pub open spec fn logs_entry(line: Seq<char>) -> bool {
    trimmed(line).len() > 0 && trimmed(line) != toggle_text()
}

/// The history entry a submitted line produces: the session time, this
/// command's time, the trimmed line, the working directory as resolved, and
/// the fallback flag at submission.
pub open spec fn log_effect(
    sess: Session,
    command_time: Timestamp,
    cwd: Option<String>,
    t: Seq<char>,
    eff: Effect,
) -> bool {
    &&& eff matches Effect::Log(e)
    &&& e.session_time == sess.session_time
    &&& e.command_time == command_time
    &&& e.line@ == t
    &&& e.cwd.deep_view() == cwd.deep_view()
    &&& e.fallback_mode == sess.fallback_mode
}

/// How a logged line is dispatched, from the trimmed line `t` and the
/// fallback flag: the built-ins `exit` and `cd` first, then either the
/// system interpreter with the verbatim line, or the first word as the
/// program and the rest as its arguments.
pub open spec fn dispatch_effect(fb: bool, t: Seq<char>, eff: Effect) -> bool {
    let ws = words_of(t);
    let head = ws[0];
    if head == "exit"@ {
        eff is Exit
    } else if head == "cd"@ {
        if ws.len() == 1 {
            eff is ChdirHome
        } else {
            eff matches Effect::Chdir(p) && p@ == joined(ws.skip(1))
        }
    } else if fb {
        eff matches Effect::Spawn(prog, args) && prog@ == "bash"@ && args.deep_view() =~= seq![
            "-c"@,
            t,
        ]
    } else {
        eff matches Effect::Spawn(prog, args) && prog@ == head && args.deep_view() =~= ws.skip(1)
    }
}

/// Interprets one submitted line. The returned effects are performed in
/// order; every line other than the empty line and the fallback toggle
/// yields exactly one history entry, at the front — before any spawn — and
/// then exactly one dispatch effect.
pub fn step(session: &mut Session, line: &str, command_time: Timestamp, cwd: Option<String>) -> (r:
    Vec<Effect>)
    ensures
        final (session).session_time == old(session).session_time,
        final (session).fallback_mode == next_fallback(old(session).fallback_mode, line@),
        !logs_entry(line@) ==> r@.len() == 0,
        logs_entry(line@) ==> {
            &&& r@.len() == 2
            &&& log_effect(*old(session), command_time, cwd, trimmed(line@), r@[0])
            &&& !(r@[1] is Log)
            &&& dispatch_effect(old(session).fallback_mode, trimmed(line@), r@[1])
        },
{
    let t = trim_line(line);
    if t.is_empty() {
        proof {
            assert(trimmed(line@).len() == 0);
            assert(toggle_text().len() == 1);
        }
        return Vec::new();
    }
    let is_toggle = t.unicode_len() == 1 && t.get_char(0) == '\u{14}';
    if is_toggle {
        proof {
            assert(t@ =~= toggle_text());
        }
        session.fallback_mode = !session.fallback_mode;
        return Vec::new();
    }
    proof {
        if t@.len() == 1 {
            assert(t@[0] != toggle_text()[0]);
        }
        assert(t@ != toggle_text());
        lemma_words_nonempty(t@);
    }
    let words = split_words(t);
    proof {
        assert(words@.len() == words.deep_view().len());
        assert(words.deep_view()[0] == words@[0]@);
    }
    let mut r: Vec<Effect> = Vec::new();
    let entry = HistoryEntry {
        session_time: session.session_time,
        command_time,
        line: t.to_owned(),
        cwd,
        fallback_mode: session.fallback_mode,
    };
    r.push(Effect::Log(entry));
    let head = &words[0];
    if str_eq(head.as_str(), "exit") {
        r.push(Effect::Exit);
    } else if str_eq(head.as_str(), "cd") {
        if words.len() == 1 {
            r.push(Effect::ChdirHome);
        } else {
            let p = join_words(&words, 1);
            proof {
                assert(words.deep_view().skip(1) =~~= words_of(t@).skip(1));
            }
            r.push(Effect::Chdir(p));
        }
    } else if session.fallback_mode {
        let mut args: Vec<String> = Vec::new();
        args.push("-c".to_owned());
        args.push(t.to_owned());
        proof {
            assert(args.deep_view() =~= seq!["-c"@, t@]);
        }
        r.push(Effect::Spawn("bash".to_owned(), args));
    } else {
        let mut args: Vec<String> = Vec::new();
        let n = words.len();
        let mut i: usize = 1;
        while i < n
            invariant
                1 <= i <= n,
                n == words@.len(),
                args.deep_view() =~= words.deep_view().subrange(1, i as int),
            decreases n - i,
        {
            let ghost prev = args.deep_view();
            args.push(words[i].clone());
            proof {
                assert(args.deep_view() =~~= prev.push(words@[i as int]@));
                assert(args.deep_view() =~~= words.deep_view().subrange(1, i as int + 1));
            }
            i = i + 1;
        }
        proof {
            assert(words.deep_view().subrange(1, n as int) =~~= words.deep_view().skip(1));
            assert(words.deep_view().skip(1) =~~= words_of(t@).skip(1));
        }
        r.push(Effect::Spawn(head.clone(), args));
    }
    r
}

/// The prompt: an indicator when fallback mode is active, then
/// `user@host:cwd> `.
pub open spec fn prompt_text(fb: bool, user: Seq<char>, host: Seq<char>, cwd: Seq<char>) -> Seq<
    char,
> {
    (if fb {
        "(bash) "@
    } else {
        Seq::<char>::empty()
    }) + user + seq!['@'] + host + seq![':'] + cwd + seq!['>', ' ']
}

/// Renders the prompt from the session flag and the resolved user, host and
/// working-directory strings.
pub fn render_prompt(fallback: bool, user: &str, host: &str, cwd: &str) -> (r: String)
    ensures
        r@ == prompt_text(fallback, user@, host@, cwd@),
{
    proof {
        reveal_strlit("@");
        reveal_strlit(":");
        reveal_strlit("> ");
        assert("@"@ =~= seq!['@']);
        assert(":"@ =~= seq![':']);
        assert("> "@ =~= seq!['>', ' ']);
    }
    let mut r = String::new();
    if fallback {
        r.append("(bash) ");
    }
    r.append(user);
    r.append("@");
    r.append(host);
    r.append(":");
    r.append(cwd);
    r.append("> ");
    proof {
        assert(r@ =~= prompt_text(fallback, user@, host@, cwd@));
    }
    r
}

/// Submitting the fallback toggle logs nothing, and submitting it twice
/// leaves fallback mode as it was.
pub proof fn lemma_toggle_twice(fb: bool, line: Seq<char>)
    requires
        trimmed(line) == toggle_text(),
    ensures
        !logs_entry(line),
        next_fallback(fb, line) == !fb,
        next_fallback(next_fallback(fb, line), line) == fb,
{
}

} // verus!
