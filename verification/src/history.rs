//! The history log: one entry per submitted command, serialized as one CSV
//! row, with a header row written only when the log file does not yet exist.
//! The row shape is proved invertible, and appending is proved to yield
//! exactly one header however many entries are written.
use vstd::prelude::*;
use vstd::string::{StrSliceExecFns, StringExecFns};
use crate::digits::all_digits;
use crate::timestamp::{expect_char, parse_timestamp, timestamp_text, Timestamp};

verus! {

/// One durable audit record of a submitted command line.
#[derive(Debug)]
pub struct HistoryEntry {
    /// When the shell session started.
    pub session_time: Timestamp,
    /// When this command was submitted.
    pub command_time: Timestamp,
    /// The submitted line, as logged.
    pub line: String,
    /// The working directory at submission, when it could be resolved.
    pub cwd: Option<String>,
    /// Whether fallback mode was active at submission.
    pub fallback_mode: bool,
}

/// The characters that force a CSV field into quotes.
pub open spec fn is_special_char(c: char) -> bool {
    c == ',' || c == '"' || c == '\r' || c == '\n'
}

pub open spec fn needs_quoting(s: Seq<char>) -> bool {
    exists|i: int| 0 <= i < s.len() && is_special_char(s[i])
}

pub open spec fn no_special(s: Seq<char>) -> bool {
    forall|i: int| 0 <= i < s.len() ==> !is_special_char(s[i])
}

/// The field content with every quote doubled.
pub open spec fn doubled(s: Seq<char>) -> Seq<char>
    decreases s.len(),
{
    if s.len() == 0 {
        Seq::empty()
    } else if s[0] == '"' {
        seq!['"', '"'] + doubled(s.skip(1))
    } else {
        seq![s[0]] + doubled(s.skip(1))
    }
}

/// A field as it stands in a row: quoted, with quotes doubled, exactly when
/// it holds a delimiter, a quote or a line break.
pub open spec fn escaped(s: Seq<char>) -> Seq<char> {
    if needs_quoting(s) {
        seq!['"'] + doubled(s) + seq!['"']
    } else {
        s
    }
}

proof fn lemma_doubled_push(s: Seq<char>, c: char)
    ensures
        doubled(s.push(c)) == doubled(s) + (if c == '"' {
            seq!['"', '"']
        } else {
            seq![c]
        }),
    decreases s.len(),
{
    let tail: Seq<char> = if c == '"' {
        seq!['"', '"']
    } else {
        seq![c]
    };
    if s.len() == 0 {
        assert(s.push(c)[0] == c);
        assert(s.push(c).skip(1) =~= Seq::<char>::empty());
        if c == '"' {
            assert(doubled(s.push(c)) == seq!['"', '"'] + doubled(s.push(c).skip(1)));
        } else {
            assert(doubled(s.push(c)) == seq![c] + doubled(s.push(c).skip(1)));
        }
        assert(doubled(s.push(c).skip(1)) == Seq::<char>::empty());
        assert(doubled(s) == Seq::<char>::empty());
        assert(doubled(s.push(c)) =~= doubled(s) + tail);
    } else {
        let head: Seq<char> = if s[0] == '"' {
            seq!['"', '"']
        } else {
            seq![s[0]]
        };
        assert(s.push(c)[0] == s[0]);
        assert(s.push(c).skip(1) =~= s.skip(1).push(c));
        assert(doubled(s.push(c)) == head + doubled(s.skip(1).push(c)));
        lemma_doubled_push(s.skip(1), c);
        assert(head + (doubled(s.skip(1)) + tail) =~= (head + doubled(s.skip(1))) + tail);
        assert(doubled(s) == head + doubled(s.skip(1)));
    }
}

/// Writes one field as it stands in a row.
pub fn escape_field(f: &str) -> (r: String)
    ensures
        r@ == escaped(f@),
{
    let n = f.unicode_len();
    let mut quote = false;
    let mut i: usize = 0;
    while i < n
        invariant
            i <= n,
            n == f@.len(),
            quote == needs_quoting(f@.take(i as int)),
        decreases n - i,
    {
        let c = f.get_char(i);
        let ghost pre = f@.take(i as int);
        let ghost ext = f@.take(i as int + 1);
        proof {
            assert(ext =~= pre.push(f@[i as int]));
            if needs_quoting(pre) {
                let k = choose|k: int| 0 <= k < pre.len() && #[trigger] is_special_char(pre[k]);
                assert(ext[k] == pre[k]);
                assert(needs_quoting(ext));
            }
        }
        if c == ',' || c == '"' || c == '\r' || c == '\n' {
            quote = true;
            proof {
                assert(ext[i as int] == f@[i as int]);
                assert(needs_quoting(ext));
            }
        } else {
            proof {
                if needs_quoting(ext) {
                    let k = choose|k: int| 0 <= k < ext.len() && #[trigger] is_special_char(ext[k]);
                    if k == i {
                        assert(is_special_char(f@[i as int]));
                        assert(false);
                    } else {
                        assert(pre[k] == ext[k]);
                        assert(needs_quoting(pre));
                    }
                }
            }
        }
        i = i + 1;
    }
    proof {
        assert(f@.take(n as int) =~= f@);
    }
    if !quote {
        return f.to_owned();
    }
    proof {
        reveal_strlit("\"");
        reveal_strlit("\"\"");
    }
    let mut r = String::new();
    r.append("\"");
    let mut i: usize = 0;
    while i < n
        invariant
            i <= n,
            n == f@.len(),
            r@ == seq!['"'] + doubled(f@.take(i as int)),
        decreases n - i,
    {
        let c = f.get_char(i);
        proof {
            assert(f@.take(i as int + 1) =~= f@.take(i as int).push(f@[i as int]));
            lemma_doubled_push(f@.take(i as int), f@[i as int]);
            reveal_strlit("\"");
            reveal_strlit("\"\"");
            assert("\"\""@ =~= seq!['"', '"']);
        }
        if c == '"' {
            r.append("\"\"");
        } else {
            let piece = f.substring_char(i, i + 1);
            proof {
                assert(piece@ =~= seq![f@[i as int]]);
            }
            r.append(piece);
        }
        i = i + 1;
    }
    r.append("\"");
    proof {
        assert(f@.take(n as int) =~= f@);
        assert(r@ =~= escaped(f@));
    }
    r
}

/// `true` / `false`, as a bool stands in a row.
pub open spec fn bool_text(b: bool) -> Seq<char> {
    if b {
        seq!['t', 'r', 'u', 'e']
    } else {
        seq!['f', 'a', 'l', 's', 'e']
    }
}

/// The working directory field: the path, or empty when unresolvable.
pub open spec fn cwd_seq(cwd: Option<String>) -> Seq<char> {
    match cwd {
        Some(p) => p@,
        None => Seq::empty(),
    }
}

/// One serialized row: session time, command time, command line, working
/// directory (may be empty), fallback flag, ending in a line feed.
pub open spec fn row_text(e: HistoryEntry) -> Seq<char> {
    timestamp_text(e.session_time) + seq![','] + timestamp_text(e.command_time) + seq![',']
        + escaped(e.line@) + seq![','] + escaped(cwd_seq(e.cwd)) + seq![','] + bool_text(
        e.fallback_mode,
    ) + seq!['\n']
}

/// The name of the log file, kept directly under the home directory.
pub open spec fn history_file_name() -> Seq<char> {
    ".mush_history.csv"@
}

/// The log file's well-known name, for the caller to resolve under home.
pub fn history_file_name_str() -> (r: &'static str)
    ensures
        r@ == history_file_name(),
{
    ".mush_history.csv"
}

/// The header row, written once when the log is first created.
pub open spec fn header_text() -> Seq<char> {
    "Session started,Command started,Command,Current directory,Fallback mode\n"@
}

/// What one log call appends: the row, preceded by the header when the log
/// file did not yet exist.
pub open spec fn payload_text(e: HistoryEntry, already_exists: bool) -> Seq<char> {
    if already_exists {
        row_text(e)
    } else {
        header_text() + row_text(e)
    }
}

impl HistoryEntry {
    /// Serializes this entry as one row.
    pub fn row_string(&self) -> (r: String)
        ensures
            r@ == row_text(*self),
    {
        proof {
            reveal_strlit(",");
            reveal_strlit("\n");
            reveal_strlit("true");
            reveal_strlit("false");
            assert(","@ =~= seq![',']);
            assert("\n"@ =~= seq!['\n']);
            assert("true"@ =~= seq!['t', 'r', 'u', 'e']);
            assert("false"@ =~= seq!['f', 'a', 'l', 's', 'e']);
        }
        let mut r = self.session_time.render();
        r.append(",");
        let ct = self.command_time.render();
        r.append(ct.as_str());
        r.append(",");
        let line = escape_field(self.line.as_str());
        r.append(line.as_str());
        r.append(",");
        match &self.cwd {
            Some(p) => {
                let c = escape_field(p.as_str());
                r.append(c.as_str());
            },
            None => {
                proof {
                    assert(escaped(cwd_seq(self.cwd)) =~= Seq::<char>::empty());
                }
            },
        }
        r.append(",");
        if self.fallback_mode {
            r.append("true");
        } else {
            r.append("false");
        }
        r.append("\n");
        proof {
            assert(r@ =~= row_text(*self));
        }
        r
    }
}

/// The header row as a string.
pub fn header_string() -> (r: String)
    ensures
        r@ == header_text(),
{
    "Session started,Command started,Command,Current directory,Fallback mode\n".to_owned()
}

/// Everything one log call writes, given whether the log file already
/// existed as a regular file before the call.
pub fn log_string(e: &HistoryEntry, already_exists: bool) -> (r: String)
    ensures
        r@ == payload_text(*e, already_exists),
{
    if already_exists {
        e.row_string()
    } else {
        let mut r = header_string();
        let row = e.row_string();
        r.append(row.as_str());
        r
    }
}

/// The log file after the entries were appended in order to a log that did
/// not exist beforehand: each write saw the file absent exactly when nothing
/// had been written yet.
pub open spec fn file_text(es: Seq<HistoryEntry>) -> Seq<char>
    decreases es.len(),
{
    if es.len() == 0 {
        Seq::empty()
    } else {
        file_text(es.drop_last()) + payload_text(es.last(), es.len() > 1)
    }
}

/// The data rows alone, in order.
pub open spec fn rows_text(es: Seq<HistoryEntry>) -> Seq<char>
    decreases es.len(),
{
    if es.len() == 0 {
        Seq::empty()
    } else {
        rows_text(es.drop_last()) + row_text(es.last())
    }
}

/// Writing any number of entries to a fresh log yields exactly one header
/// row, followed by the data rows in submission order.
pub proof fn lemma_one_header(es: Seq<HistoryEntry>)
    requires
        es.len() > 0,
    ensures
        file_text(es) == header_text() + rows_text(es),
    decreases es.len(),
{
    if es.len() == 1 {
        assert(file_text(es.drop_last()) == Seq::<char>::empty());
        assert(rows_text(es.drop_last()) == Seq::<char>::empty());
        assert(file_text(es) == Seq::<char>::empty() + (header_text() + row_text(es.last())));
        assert(Seq::<char>::empty() + (header_text() + row_text(es.last())) =~= header_text() + (
        Seq::<char>::empty() + row_text(es.last())));
        assert(Seq::<char>::empty() + row_text(es.last()) =~= row_text(es.last()));
    } else {
        lemma_one_header(es.drop_last());
        assert(file_text(es) == (header_text() + rows_text(es.drop_last())) + row_text(es.last()));
        assert((header_text() + rows_text(es.drop_last())) + row_text(es.last()) =~= header_text()
            + (rows_text(es.drop_last()) + row_text(es.last())));
    }
}

/// Length of the leading run free of delimiter, quote and line-break
/// characters: how far an unquoted field reaches.
pub open spec fn plain_run(s: Seq<char>) -> nat
    decreases s.len(),
{
    if s.len() > 0 && !is_special_char(s[0]) {
        1 + plain_run(s.skip(1))
    } else {
        0
    }
}

/// Reads a quoted field body after its opening quote: the content with
/// doubled quotes folded back, and the remainder after the closing quote.
pub open spec fn quoted_scan(s: Seq<char>) -> Option<(Seq<char>, Seq<char>)>
    decreases s.len(),
{
    if s.len() == 0 {
        None
    } else if s[0] == '"' {
        if s.len() >= 2 && s[1] == '"' {
            match quoted_scan(s.skip(2)) {
                Some((c, r)) => Some((seq!['"'] + c, r)),
                None => None,
            }
        } else {
            Some((Seq::empty(), s.skip(1)))
        }
    } else {
        match quoted_scan(s.skip(1)) {
            Some((c, r)) => Some((seq![s[0]] + c, r)),
            None => None,
        }
    }
}

/// Reads one field: quoted when it opens with a quote, plain otherwise.
/// The remainder starts at the delimiter or terminator that ended it.
pub open spec fn parse_field(s: Seq<char>) -> Option<(Seq<char>, Seq<char>)> {
    if s.len() > 0 && s[0] == '"' {
        quoted_scan(s.skip(1))
    } else {
        let k = plain_run(s) as int;
        Some((s.take(k), s.skip(k)))
    }
}

/// Reads one field followed by the delimiter; the remainder starts after
/// the comma.
pub open spec fn parse_field_comma(s: Seq<char>) -> Option<(Seq<char>, Seq<char>)> {
    match parse_field(s) {
        Some((f, r)) => match expect_char(r, ',') {
            Some(r2) => Some((f, r2)),
            None => None,
        },
        None => None,
    }
}

/// Interprets the five raw fields of a row: two timestamps, the line, the
/// working directory (absent when the field is empty), and the flag.
pub open spec fn row_fields(
    f1: Seq<char>,
    f2: Seq<char>,
    f3: Seq<char>,
    f4: Seq<char>,
    f5: Seq<char>,
) -> Option<(Timestamp, Timestamp, Seq<char>, Option<Seq<char>>, bool)> {
    match (parse_timestamp(f1), parse_timestamp(f2)) {
        (Some(t1), Some(t2)) => {
            let cwd: Option<Seq<char>> = if f4.len() == 0 {
                None
            } else {
                Some(f4)
            };
            if f5 == bool_text(true) {
                Some((t1, t2, f3, cwd, true))
            } else if f5 == bool_text(false) {
                Some((t1, t2, f3, cwd, false))
            } else {
                None
            }
        },
        _ => None,
    }
}

/// Reads a whole row back: the five fields of [`row_text`], `None` unless
/// the text is exactly one well-formed row.
#[verifier::opaque]
pub open spec fn parse_row(s: Seq<char>) -> Option<
    (Timestamp, Timestamp, Seq<char>, Option<Seq<char>>, bool),
> {
    match parse_field_comma(s) {
        Some((f1, r1)) => match parse_field_comma(r1) {
            Some((f2, r2)) => match parse_field_comma(r2) {
                Some((f3, r3)) => match parse_field_comma(r3) {
                    Some((f4, r4)) => match parse_field(r4) {
                        Some((f5, r5)) => match expect_char(r5, '\n') {
                            Some(r6) => {
                                if r6.len() == 0 {
                                    row_fields(f1, f2, f3, f4, f5)
                                } else {
                                    None
                                }
                            },
                            None => None,
                        },
                        None => None,
                    },
                    None => None,
                },
                None => None,
            },
            None => None,
        },
        None => None,
    }
}

proof fn lemma_plain_run_concat(a: Seq<char>, rest: Seq<char>)
    requires
        no_special(a),
        rest.len() == 0 || is_special_char(rest[0]),
    ensures
        plain_run(a + rest) == a.len(),
    decreases a.len(),
{
    if a.len() == 0 {
        assert(a + rest =~= rest);
    } else {
        assert((a + rest)[0] == a[0]);
        assert((a + rest).skip(1) =~= a.skip(1) + rest);
        assert(no_special(a.skip(1)));
        lemma_plain_run_concat(a.skip(1), rest);
    }
}

proof fn lemma_quoted_scan_round_trip(f: Seq<char>, rest: Seq<char>)
    requires
        rest.len() > 0,
        rest[0] != '"',
    ensures
        quoted_scan(doubled(f) + (seq!['"'] + rest)) == Some((f, rest)),
    decreases f.len(),
{
    let s = doubled(f) + (seq!['"'] + rest);
    if f.len() == 0 {
        assert(doubled(f) == Seq::<char>::empty());
        assert(s =~= seq!['"'] + rest);
        assert(s[0] == '"');
        assert(s.len() >= 2 ==> s[1] == rest[0]);
        assert(s.skip(1) =~= rest);
    } else if f[0] == '"' {
        assert(doubled(f) == seq!['"', '"'] + doubled(f.skip(1)));
        assert(s[0] == '"');
        assert(s[1] == '"');
        assert(s.skip(2) =~= doubled(f.skip(1)) + (seq!['"'] + rest));
        lemma_quoted_scan_round_trip(f.skip(1), rest);
        assert(seq!['"'] + f.skip(1) =~= f);
    } else {
        assert(doubled(f) == seq![f[0]] + doubled(f.skip(1)));
        assert(s[0] == f[0]);
        assert(s.skip(1) =~= doubled(f.skip(1)) + (seq!['"'] + rest));
        lemma_quoted_scan_round_trip(f.skip(1), rest);
        assert(seq![f[0]] + f.skip(1) =~= f);
    }
}

proof fn lemma_parse_field_round_trip(f: Seq<char>, rest: Seq<char>)
    requires
        rest.len() > 0,
        rest[0] == ',' || rest[0] == '\n',
    ensures
        parse_field(escaped(f) + rest) == Some((f, rest)),
{
    let s = escaped(f) + rest;
    if needs_quoting(f) {
        assert(s =~= seq!['"'] + (doubled(f) + (seq!['"'] + rest)));
        assert(s[0] == '"');
        assert(s.skip(1) =~= doubled(f) + (seq!['"'] + rest));
        lemma_quoted_scan_round_trip(f, rest);
    } else {
        assert(s =~= f + rest);
        assert(forall|i: int| 0 <= i < f.len() ==> !(#[trigger] is_special_char(f[i])));
        if f.len() > 0 {
            assert(s[0] == f[0]);
            assert(!is_special_char(f[0]));
        }
        lemma_plain_run_concat(f, rest);
        assert(s.take(f.len() as int) =~= f);
        assert(s.skip(f.len() as int) =~= rest);
    }
}

proof fn lemma_no_special_concat(a: Seq<char>, b: Seq<char>)
    requires
        no_special(a),
        no_special(b),
    ensures
        no_special(a + b),
{
    assert forall|i: int| 0 <= i < (a + b).len() implies !(#[trigger] is_special_char(
        (a + b)[i],
    )) by {
        if i < a.len() {
            assert((a + b)[i] == a[i]);
        } else {
            assert((a + b)[i] == b[i - a.len()]);
        }
    }
}

proof fn lemma_digits_no_special(s: Seq<char>)
    requires
        all_digits(s),
    ensures
        no_special(s),
{
    assert forall|i: int| 0 <= i < s.len() implies !(#[trigger] is_special_char(s[i])) by {
        assert(crate::digits::is_digit_char(s[i]));
    }
}

proof fn lemma_timestamp_text_no_special(t: Timestamp)
    ensures
        no_special(timestamp_text(t)),
{
    crate::digits::lemma_dec_digits_len(t.year as int, 4);
    crate::digits::lemma_dec_digits_len(t.month as int, 2);
    crate::digits::lemma_dec_digits_len(t.day as int, 2);
    crate::digits::lemma_dec_digits_len(t.hour as int, 2);
    crate::digits::lemma_dec_digits_len(t.minute as int, 2);
    crate::digits::lemma_dec_digits_len(t.second as int, 2);
    lemma_digits_no_special(crate::digits::dec_digits(t.year as int, 4));
    lemma_digits_no_special(crate::digits::dec_digits(t.month as int, 2));
    lemma_digits_no_special(crate::digits::dec_digits(t.day as int, 2));
    lemma_digits_no_special(crate::digits::dec_digits(t.hour as int, 2));
    lemma_digits_no_special(crate::digits::dec_digits(t.minute as int, 2));
    lemma_digits_no_special(crate::digits::dec_digits(t.second as int, 2));
    let frac = crate::timestamp::frac_text(t.micros as int);
    let off = crate::timestamp::offset_text(t.offset_minutes as int);
    assert(no_special(frac)) by {
        if t.micros != 0 {
            if t.micros as int % 1000 == 0 {
                crate::digits::lemma_dec_digits_len(t.micros as int / 1000, 3);
                lemma_digits_no_special(crate::digits::dec_digits(t.micros as int / 1000, 3));
                lemma_no_special_concat(
                    seq!['.'],
                    crate::digits::dec_digits(t.micros as int / 1000, 3),
                );
            } else {
                crate::digits::lemma_dec_digits_len(t.micros as int, 6);
                lemma_digits_no_special(crate::digits::dec_digits(t.micros as int, 6));
                lemma_no_special_concat(seq!['.'], crate::digits::dec_digits(t.micros as int, 6));
            }
        }
    };
    assert(no_special(off)) by {
        let m = t.offset_minutes as int;
        if m != 0 {
            let a = if m < 0 {
                -m
            } else {
                m
            };
            crate::digits::lemma_dec_digits_len(a / 60, 2);
            crate::digits::lemma_dec_digits_len(a % 60, 2);
            lemma_digits_no_special(crate::digits::dec_digits(a / 60, 2));
            lemma_digits_no_special(crate::digits::dec_digits(a % 60, 2));
            lemma_no_special_concat(
                seq![if m < 0 {
                    '-'
                } else {
                    '+'
                }],
                crate::digits::dec_digits(a / 60, 2),
            );
            lemma_no_special_concat(
                (seq![if m < 0 {
                    '-'
                } else {
                    '+'
                }] + crate::digits::dec_digits(a / 60, 2)),
                seq![':'],
            );
            lemma_no_special_concat(
                ((seq![if m < 0 {
                    '-'
                } else {
                    '+'
                }] + crate::digits::dec_digits(a / 60, 2)) + seq![':']),
                crate::digits::dec_digits(a % 60, 2),
            );
        }
    };
    let core = timestamp_text(t);
    assert forall|i: int| 0 <= i < core.len() implies !(#[trigger] is_special_char(core[i])) by {
        lemma_no_special_concat(crate::digits::dec_digits(t.year as int, 4), seq!['-']);
        let p1 = crate::digits::dec_digits(t.year as int, 4) + seq!['-'];
        lemma_no_special_concat(p1, crate::digits::dec_digits(t.month as int, 2));
        let p2 = p1 + crate::digits::dec_digits(t.month as int, 2);
        lemma_no_special_concat(p2, seq!['-']);
        let p3 = p2 + seq!['-'];
        lemma_no_special_concat(p3, crate::digits::dec_digits(t.day as int, 2));
        let p4 = p3 + crate::digits::dec_digits(t.day as int, 2);
        lemma_no_special_concat(p4, seq!['T']);
        let p5 = p4 + seq!['T'];
        lemma_no_special_concat(p5, crate::digits::dec_digits(t.hour as int, 2));
        let p6 = p5 + crate::digits::dec_digits(t.hour as int, 2);
        lemma_no_special_concat(p6, seq![':']);
        let p7 = p6 + seq![':'];
        lemma_no_special_concat(p7, crate::digits::dec_digits(t.minute as int, 2));
        let p8 = p7 + crate::digits::dec_digits(t.minute as int, 2);
        lemma_no_special_concat(p8, seq![':']);
        let p9 = p8 + seq![':'];
        lemma_no_special_concat(p9, crate::digits::dec_digits(t.second as int, 2));
        let p10 = p9 + crate::digits::dec_digits(t.second as int, 2);
        lemma_no_special_concat(p10, frac);
        let p11 = p10 + frac;
        lemma_no_special_concat(p11, off);
        assert(core == p11 + off);
    }
}

/// A row written for a valid entry parses back to the same session time,
/// command time, line, working directory and fallback flag. (A present but
/// empty working directory cannot be told apart from an absent one; a real
/// path is never empty.)
proof fn lemma_field_comma(f: Seq<char>, rest: Seq<char>)
    ensures
        parse_field_comma(escaped(f) + (seq![','] + rest)) == Some((f, rest)),
{
    lemma_parse_field_round_trip(f, seq![','] + rest);
    crate::timestamp::lemma_expect_char_prefix(',', rest);
}

proof fn lemma_row_fields(e: HistoryEntry)
    requires
        e.session_time.wf(),
        e.command_time.wf(),
        e.cwd matches Some(p) ==> p@.len() > 0,
    ensures
        row_fields(
            timestamp_text(e.session_time),
            timestamp_text(e.command_time),
            e.line@,
            cwd_seq(e.cwd),
            bool_text(e.fallback_mode),
        ) == Some(
            (
                e.session_time,
                e.command_time,
                e.line@,
                match e.cwd {
                    Some(p) => Some(p@),
                    None => None,
                },
                e.fallback_mode,
            ),
        ),
{
    crate::timestamp::lemma_timestamp_round_trip(e.session_time);
    crate::timestamp::lemma_timestamp_round_trip(e.command_time);
    assert(bool_text(true).len() != bool_text(false).len());
    match e.cwd {
        Some(p) => {
            assert(cwd_seq(e.cwd) == p@);
        },
        None => {
            assert(cwd_seq(e.cwd).len() == 0);
        },
    }
}

/// A row written for a valid entry parses back to the same session time,
/// command time, line, working directory and fallback flag. (A present but
/// empty working directory cannot be told apart from an absent one; a real
/// path is never empty.)
#[verifier::rlimit(100)]
#[verifier::spinoff_prover]
pub proof fn lemma_row_round_trip(e: HistoryEntry)
    requires
        e.session_time.wf(),
        e.command_time.wf(),
        e.cwd matches Some(p) ==> p@.len() > 0,
    ensures
        parse_row(row_text(e)) == Some(
            (
                e.session_time,
                e.command_time,
                e.line@,
                match e.cwd {
                    Some(p) => Some(p@),
                    None => None,
                },
                e.fallback_mode,
            ),
        ),
{
    reveal(parse_row);
    let st = timestamp_text(e.session_time);
    let ct = timestamp_text(e.command_time);
    let lf = escaped(e.line@);
    let cf = escaped(cwd_seq(e.cwd));
    let bf = bool_text(e.fallback_mode);
    lemma_timestamp_text_no_special(e.session_time);
    lemma_timestamp_text_no_special(e.command_time);
    assert(escaped(st) == st);
    assert(escaped(ct) == ct);
    assert(no_special(bf));
    assert(escaped(bf) == bf);
    let r4 = bf + seq!['\n'];
    let r3 = cf + (seq![','] + r4);
    let r2 = lf + (seq![','] + r3);
    let r1 = ct + (seq![','] + r2);
    assert(row_text(e) =~= st + (seq![','] + r1));
    lemma_field_comma(st, r1);
    lemma_field_comma(ct, r2);
    lemma_field_comma(e.line@, r3);
    lemma_field_comma(cwd_seq(e.cwd), r4);
    lemma_parse_field_round_trip(bf, seq!['\n']);
    assert(r4 =~= escaped(bf) + seq!['\n']);
    crate::timestamp::lemma_expect_char_prefix('\n', Seq::<char>::empty());
    assert(seq!['\n'] =~= seq!['\n'] + Seq::<char>::empty());
    lemma_row_fields(e);
}


} // verus!
