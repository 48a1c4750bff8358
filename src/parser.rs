//! Reading history lines into records, one strategy per format.
use vstd::prelude::*;
use crate::models::{fresh, records, texts, HistoryEntry, Record};
use crate::normalize::{normalize, normalized};
use crate::shell::{format_spec, HistoryFormat, ShellType};
use crate::text::{
    chars_of, first_index, first_index_of, has_prefix, i64_value, is_blank, is_digit, parse_i64, slice_string,
    trim, trim_bounds, trim_start, trim_start_index,
};
use crate::time::{in_stamp_range, Stamp};
use vstd::string::StrSliceExecFns;

verus! {

/// What a line says of a record: the epoch second it was run at, where the
/// line gives one, and the command.
pub struct Parsed {
    pub epoch: Option<i64>,
    pub command: Seq<char>,
}

/// `ts` is what `epoch` becomes in the local zone: no time where the line
/// gives none, else that instant; only an instant outside chrono's range may
/// be left without a time.
pub open spec fn stamped(ts: Option<Stamp>, epoch: Option<i64>) -> bool {
    match epoch {
        None => ts is None,
        Some(e) => match ts {
            Some(t) => t.secs == e,
            None => !in_stamp_range(e as int),
        },
    }
}

pub open spec fn realizes(r: Record, p: Parsed) -> bool {
    r.command == p.command && r.session_id is None && stamped(r.timestamp, p.epoch)
}

/// `rs` are the records that `ps` describe, one for one.
pub open spec fn realizes_all(rs: Seq<Record>, ps: Seq<Parsed>) -> bool {
    rs.len() == ps.len() && forall|i: int| 0 <= i < rs.len() ==> realizes(#[trigger] rs[i], ps[i])
}

/// A plain line: every non-blank line is an untimed command, trimmed.
pub open spec fn plain_line(l: Seq<char>) -> Option<Parsed> {
    if is_blank(l) {
        None
    } else {
        Some(Parsed { epoch: None, command: trim(l) })
    }
}

/// The length of the run of ASCII digits that `s` begins with.
pub open spec fn digit_run(s: Seq<char>) -> nat
    decreases s.len(),
{
    if s.len() > 0 && is_digit(s[0]) {
        1 + digit_run(s.drop_first())
    } else {
        0
    }
}

/// The epoch digits and the command text of a line `: <epoch>:<duration>;<command>`.
pub open spec fn timestamped_fields(l: Seq<char>) -> Option<(Seq<char>, Seq<char>)> {
    if has_prefix(l, seq![':', ' ']) {
        let a = l.skip(2);
        let k = digit_run(a) as int;
        if k > 0 && k < a.len() && a[k] == ':' {
            let b = a.skip(k + 1);
            let m = digit_run(b) as int;
            if m > 0 && m < b.len() && b[m] == ';' {
                Some((a.take(k), b.skip(m + 1)))
            } else {
                None
            }
        } else {
            None
        }
    } else {
        None
    }
}

/// A timestamped line gives its epoch and its trimmed command, and nothing
/// where that command is empty; any other non-blank line is kept verbatim as
/// an untimed command.
pub open spec fn timestamped_line(l: Seq<char>) -> Option<Parsed> {
    match timestamped_fields(l) {
        Some((e, c)) => if trim(c).len() == 0 {
            None
        } else {
            Some(Parsed { epoch: i64_value(e), command: trim(c) })
        },
        None => if is_blank(l) {
            None
        } else {
            Some(Parsed { epoch: None, command: l })
        },
    }
}

/// A tab-separated line `<epoch>\t<command>`, trimmed first; where there is
/// no tab with a command after it, or the epoch does not parse, the trimmed
/// line is an untimed command.
pub open spec fn tab_line(l: Seq<char>) -> Option<Parsed> {
    let t = trim(l);
    let p = first_index(t, '\t') as int;
    if t.len() == 0 {
        None
    } else if p + 1 < t.len() && i64_value(t.take(p)) is Some {
        Some(Parsed { epoch: i64_value(t.take(p)), command: t.skip(p + 1) })
    } else {
        Some(Parsed { epoch: None, command: t })
    }
}

/// The format of the time in a live-log line.
pub const LIVE_TIME_FORMAT: &'static str = "%Y-%m-%dT%H:%M:%S%z";

/// The instant that chrono's `DateTime::parse_from_str` reads from `text`
/// under `format`, in whole seconds since the epoch.
pub uninterp spec fn parsed_instant(text: Seq<char>, format: Seq<char>) -> Option<i64>;

/// A live-log line `<time>|<command>`: split at the first `|`; a line without
/// one, whose time does not parse, or whose command is blank, gives nothing.
pub open spec fn live_line(l: Seq<char>) -> Option<Parsed> {
    let p = first_index(l, '|') as int;
    if p < l.len() {
        match parsed_instant(l.take(p), LIVE_TIME_FORMAT@) {
            Some(e) => if trim(l.skip(p + 1)).len() == 0 {
                None
            } else {
                Some(Parsed { epoch: Some(e), command: trim(l.skip(p + 1)) })
            },
            None => None,
        }
    } else {
        None
    }
}

/// The formats that read each line on its own.
#[derive(Clone, Copy, Debug, PartialEq, Eq, Structural)]
pub enum LineFormat {
    Plain,
    Timestamped,
    TabSeparated,
    Live,
}

pub open spec fn line_spec(f: LineFormat, l: Seq<char>) -> Option<Parsed> {
    match f {
        LineFormat::Plain => plain_line(l),
        LineFormat::Timestamped => timestamped_line(l),
        LineFormat::TabSeparated => tab_line(l),
        LineFormat::Live => live_line(l),
    }
}

/// What the lines `ls` describe, read one by one in format `f`.
pub open spec fn lines_spec(f: LineFormat, ls: Seq<Seq<char>>) -> Seq<Parsed> {
    ls.filter_map(|l: Seq<char>| line_spec(f, l))
}

/// Relies on chrono's `DateTime::parse_from_str`: the instant that `text`
/// names under `format`, as `DateTime::timestamp` gives it; `None` where it
/// does not parse.
#[verifier::external_body]
fn parse_instant(text: &str, format: &str) -> (r: Option<i64>)
    ensures
        r == parsed_instant(text@, format@),
{
    match chrono::DateTime::parse_from_str(text, format) {
        Ok(t) => Some(t.timestamp()),
        Err(_) => None,
    }
}

/// The local time of `epoch`, where there is one.
pub fn stamp_of(epoch: Option<i64>) -> (r: Option<Stamp>)
    ensures
        stamped(r, epoch),
{
    match epoch {
        Some(e) => Stamp::at(e),
        None => None,
    }
}

fn digit_run_of(s: &Vec<char>, from: usize) -> (k: usize)
    requires
        from <= s@.len(),
    ensures
        from + k <= s@.len(),
        k == digit_run(s@.skip(from as int)),
{
    let n = s.len() - from;
    let mut k: usize = 0;
    assert(s@.skip(from as int) == s@.skip(from + k));
    while k < n && '0' <= s[from + k] && s[from + k] <= '9'
        invariant
            from <= s@.len(),
            from + n == s.len(),
            k <= n,
            digit_run(s@.skip(from as int)) == k + digit_run(s@.skip(from + k)),
        decreases n - k,
    {
        assert(s@.skip(from + k).drop_first() == s@.skip(from + k + 1));
        k = k + 1;
    }
    k
}

/// The record that a plain line describes.
fn read_plain_line(line: &str) -> (r: Option<(Option<i64>, String)>)
    ensures
        match plain_line(line@) {
            None => r is None,
            Some(p) => r matches Some((e, c)) && e == p.epoch && c@ == p.command,
        },
{
    let cs = chars_of(line);
    let (i, j) = trim_bounds(&cs);
    if i == j {
        None
    } else {
        Some((None, slice_string(line, i, j)))
    }
}

/// The record that a `: <epoch>:<duration>;<command>` line describes.
fn read_timestamped_line(line: &str) -> (r: Option<(Option<i64>, String)>)
    ensures
        match timestamped_line(line@) {
            None => r is None,
            Some(p) => r matches Some((e, c)) && e == p.epoch && c@ == p.command,
        },
{
    let cs = chars_of(line);
    let ghost l = cs@;
    if cs.len() >= 2 && cs[0] == ':' && cs[1] == ' ' {
        assert(l.subrange(0, 2) =~= seq![':', ' ']);
        let k = digit_run_of(&cs, 2);
        let ghost a = l.skip(2);
        if k > 0 && 2 + k < cs.len() && cs[2 + k] == ':' {
            assert(a[k as int] == ':');
            let m = digit_run_of(&cs, 3 + k);
            let ghost b = a.skip(k + 1);
            assert(b == l.skip(3 + k));
            if m > 0 && 3 + k + m < cs.len() && cs[3 + k + m] == ';' {
                assert(b[m as int] == ';');
                let epoch = parse_i64(&cs, 2, 2 + k);
                assert(l.subrange(2, 2 + k) == a.take(k as int));
                let rest = slice_string(line, 4 + k + m, cs.len());
                assert(rest@ == b.skip(m + 1));
                let rc = chars_of(rest.as_str());
                let (i, j) = trim_bounds(&rc);
                if i == j {
                    return None;
                }
                return Some((epoch, slice_string(rest.as_str(), i, j)));
            }
            assert(timestamped_fields(l) is None);
        }
        assert(timestamped_fields(l) is None);
    } else {
        assert(!has_prefix(l, seq![':', ' '])) by {
            if has_prefix(l, seq![':', ' ']) {
                assert(l.subrange(0, 2)[0] == ':');
                assert(l.subrange(0, 2)[1] == ' ');
            }
        }
    }
    let (i, j) = trim_bounds(&cs);
    if i == j {
        None
    } else {
        Some((None, line.to_owned()))
    }
}

/// The record that a `<epoch>\t<command>` line describes.
fn read_tab_line(line: &str) -> (r: Option<(Option<i64>, String)>)
    ensures
        match tab_line(line@) {
            None => r is None,
            Some(p) => r matches Some((e, c)) && e == p.epoch && c@ == p.command,
        },
{
    let t = crate::text::trimmed(line);
    let tc = chars_of(t.as_str());
    if tc.len() == 0 {
        return None;
    }
    let p = first_index_of(&tc, '\t');
    if p < tc.len() - 1 {
        let epoch = parse_i64(&tc, 0, p);
        assert(tc@.subrange(0, p as int) == tc@.take(p as int));
        if epoch.is_some() {
            return Some((epoch, slice_string(t.as_str(), p + 1, tc.len())));
        }
    }
    Some((None, t))
}

/// The record that a live-log line describes.
fn read_live_line(line: &str) -> (r: Option<(Option<i64>, String)>)
    ensures
        match live_line(line@) {
            None => r is None,
            Some(p) => r matches Some((e, c)) && e == p.epoch && c@ == p.command,
        },
{
    let cs = chars_of(line);
    let p = first_index_of(&cs, '|');
    if p < cs.len() {
        let when = slice_string(line, 0, p);
        assert(when@ == line@.take(p as int));
        match parse_instant(when.as_str(), LIVE_TIME_FORMAT) {
            Some(e) => {
                let rest = slice_string(line, p + 1, cs.len());
                assert(rest@ == line@.skip(p + 1));
                let command = crate::text::trimmed(rest.as_str());
                if command.as_str().unicode_len() == 0 {
                    None
                } else {
                    Some((Some(e), command))
                }
            },
            None => None,
        }
    } else {
        None
    }
}

/// The record that one line describes in format `f`.
pub fn read_line(f: LineFormat, line: &str) -> (r: Option<(Option<i64>, String)>)
    ensures
        match line_spec(f, line@) {
            None => r is None,
            Some(p) => r matches Some((e, c)) && e == p.epoch && c@ == p.command,
        },
{
    match f {
        LineFormat::Plain => read_plain_line(line),
        LineFormat::Timestamped => read_timestamped_line(line),
        LineFormat::TabSeparated => read_tab_line(line),
        LineFormat::Live => read_live_line(line),
    }
}

/// The records that `lines` describe, read one by one in format `f`.
pub fn read_lines(f: LineFormat, lines: &Vec<String>) -> (r: Vec<HistoryEntry>)
    ensures
        realizes_all(records(r@), lines_spec(f, texts(lines@))),
{
    let ghost pick = |l: Seq<char>| line_spec(f, l);
    let mut out: Vec<HistoryEntry> = Vec::new();
    let mut i: usize = 0;
    while i < lines.len()
        invariant
            i <= lines@.len(),
            pick == (|l: Seq<char>| line_spec(f, l)),
            realizes_all(records(out@), texts(lines@).take(i as int).filter_map(pick)),
        decreases lines.len() - i,
    {
        let ghost before = texts(lines@).take(i as int);
        let ghost after = texts(lines@).take(i + 1);
        assert(after.drop_last() == before);
        assert(after.last() == lines@[i as int]@);
        let got = read_line(f, lines[i].as_str());
        let ghost prev = records(out@);
        match got {
            Some((epoch, command)) => {
                let ghost want = line_spec(f, after.last())->Some_0;
                assert(after.filter_map(pick) == before.filter_map(pick) + seq![want]);
                let e = HistoryEntry::new(command, stamp_of(epoch));
                out.push(e);
                assert(records(out@) == prev.push(e@));
                assert(realizes(e@, want));
            },
            None => {
                assert(after.filter_map(pick) == before.filter_map(pick));
            },
        }
        i = i + 1;
    }
    assert(texts(lines@).take(lines@.len() as int) == texts(lines@));
    out
}

/// The records done, with the pending one closed: kept unless its command is
/// empty.
pub open spec fn close_pending(done: Seq<Parsed>, pending: Option<Parsed>) -> Seq<Parsed> {
    match pending {
        Some(p) => if p.command.len() > 0 {
            done.push(p)
        } else {
            done
        },
        None => done,
    }
}

/// The state of a structured read: the records done, and the one pending.
pub open spec fn structured_step(state: (Seq<Parsed>, Option<Parsed>), l: Seq<char>) -> (
    Seq<Parsed>,
    Option<Parsed>,
) {
    let t = trim_start(l);
    if has_prefix(t, "- cmd: "@) {
        (
            close_pending(state.0, state.1),
            Some(Parsed { epoch: None, command: t.skip("- cmd: "@.len() as int) }),
        )
    } else if has_prefix(t, "when: "@) {
        match state.1 {
            Some(p) => (
                state.0,
                Some(Parsed { epoch: i64_value(t.skip("when: "@.len() as int)), command: p.command }),
            ),
            None => state,
        }
    } else {
        state
    }
}

pub open spec fn structured_scan(ls: Seq<Seq<char>>) -> (Seq<Parsed>, Option<Parsed>)
    decreases ls.len(),
{
    if ls.len() == 0 {
        (Seq::empty(), None)
    } else {
        structured_step(structured_scan(ls.drop_last()), ls.last())
    }
}

/// What structured blocks describe: a `- cmd: <command>` line opens a
/// record, a later `when: <epoch>` line gives the open record its time, and
/// the next `- cmd:` line or the end closes it; a record with an empty
/// command is dropped.
pub open spec fn structured_spec(ls: Seq<Seq<char>>) -> Seq<Parsed> {
    let s = structured_scan(ls);
    close_pending(s.0, s.1)
}

pub open spec fn pending_matches(p: Option<(Option<i64>, String)>, q: Option<Parsed>) -> bool {
    match q {
        None => p is None,
        Some(x) => p matches Some((e, c)) && e == x.epoch && c@ == x.command,
    }
}

/// Whether `m` follows position `at` of `s`, as a prefix of `s[at..]`.
fn marker_at(s: &Vec<char>, at: usize, m: &str) -> (r: bool)
    requires
        at <= s@.len(),
    ensures
        r == has_prefix(s@.subrange(at as int, s@.len() as int), m@),
{
    let mc = chars_of(m);
    let r = crate::text::matches_at(s, &mc, at);
    let ghost sub = s@.subrange(at as int, s@.len() as int);
    proof {
        if mc@.len() <= sub.len() {
            assert(sub.subrange(0, mc@.len() as int) == s@.subrange(at as int, at + mc@.len()));
        }
    }
    r
}

/// The records that structured `- cmd:` / `when:` blocks describe.
pub fn read_structured(lines: &Vec<String>) -> (r: Vec<HistoryEntry>)
    ensures
        realizes_all(records(r@), structured_spec(texts(lines@))),
{
    let mut done: Vec<HistoryEntry> = Vec::new();
    let mut pending: Option<(Option<i64>, String)> = None;
    let mut i: usize = 0;
    while i < lines.len()
        invariant
            i <= lines@.len(),
            realizes_all(records(done@), structured_scan(texts(lines@).take(i as int)).0),
            pending_matches(pending, structured_scan(texts(lines@).take(i as int)).1),
        decreases lines.len() - i,
    {
        let ghost before = texts(lines@).take(i as int);
        let ghost after = texts(lines@).take(i + 1);
        assert(after.drop_last() == before);
        assert(after.last() == lines@[i as int]@);
        let ghost st = structured_scan(before);
        let line = lines[i].as_str();
        let cs = chars_of(line);
        let s = trim_start_index(&cs);
        let ghost t = trim_start(cs@);
        if marker_at(&cs, s, "- cmd: ") {
            let ml = "- cmd: ".unicode_len();
            assert(ml <= cs@.subrange(s as int, cs@.len() as int).len());
            let n = cs.len();
            assert(s + ml <= n);
            let start = s + ml;
            assert(t.skip("- cmd: "@.len() as int) == cs@.subrange(start as int, cs@.len() as int));
            let command = slice_string(line, start, cs.len());
            match pending {
                Some((epoch, c)) => {
                    if c.as_str().unicode_len() > 0 {
                        let e = HistoryEntry::new(c, stamp_of(epoch));
                        let ghost prev = records(done@);
                        done.push(e);
                        assert(records(done@) == prev.push(e@));
                    }
                },
                None => {},
            }
            pending = Some((None, command));
        } else if marker_at(&cs, s, "when: ") {
            let ml = "when: ".unicode_len();
            assert(ml <= cs@.subrange(s as int, cs@.len() as int).len());
            let n = cs.len();
            assert(s + ml <= n);
            let start = s + ml;
            assert(t.skip("when: "@.len() as int) == cs@.subrange(start as int, cs@.len() as int));
            match pending {
                Some((_, c)) => {
                    pending = Some((parse_i64(&cs, start, cs.len()), c));
                },
                None => {},
            }
        }
        i = i + 1;
    }
    assert(texts(lines@).take(lines@.len() as int) == texts(lines@));
    match pending {
        Some((epoch, c)) => {
            if c.as_str().unicode_len() > 0 {
                let e = HistoryEntry::new(c, stamp_of(epoch));
                let ghost prev = records(done@);
                done.push(e);
                assert(records(done@) == prev.push(e@));
            }
        },
        None => {},
    }
    done
}

/// The epoch second inferred for line `i` of `n`: the anchor for the last
/// line, one minute earlier for each line before it; none without an anchor
/// or where the value leaves the `i64` range.
pub open spec fn inferred_epoch(anchor: Option<Stamp>, n: int, i: int) -> Option<i64> {
    match anchor {
        None => None,
        Some(a) => {
            let v = a.secs - 60 * (n - 1 - i);
            if i64::MIN <= v <= i64::MAX {
                Some(v as i64)
            } else {
                None
            }
        },
    }
}

/// Approximate times for `line_count` lines whose file was last modified at
/// `anchor`: the last line at the anchor, each earlier one a minute before
/// the next.
pub fn infer_timestamps(anchor: Option<Stamp>, line_count: usize) -> (r: Vec<Option<Stamp>>)
    ensures
        r@.len() == line_count,
        forall|i: int|
            0 <= i < line_count ==> stamped(#[trigger] r@[i], inferred_epoch(anchor, line_count as int, i)),
{
    let mut out: Vec<Option<Stamp>> = Vec::new();
    let mut i: usize = 0;
    while i < line_count
        invariant
            i <= line_count,
            out@.len() == i,
            forall|j: int|
                0 <= j < i ==> stamped(#[trigger] out@[j], inferred_epoch(anchor, line_count as int, j)),
        decreases line_count - i,
    {
        let s = match anchor {
            None => None,
            Some(a) => {
                let v: i128 = a.secs as i128 - 60 * ((line_count - 1 - i) as i128);
                if i64::MIN as i128 <= v && v <= i64::MAX as i128 {
                    Stamp::at(v as i64)
                } else {
                    None
                }
            },
        };
        out.push(s);
        i = i + 1;
    }
    out
}

/// What a plain file whose times are inferred from `anchor` describes.
pub open spec fn inferred_spec(ls: Seq<Seq<char>>, anchor: Option<Stamp>) -> Seq<Parsed> {
    let base = lines_spec(LineFormat::Plain, ls);
    Seq::new(
        base.len(),
        |i: int| Parsed { epoch: inferred_epoch(anchor, base.len() as int, i), command: base[i].command },
    )
}

/// The records of a plain file, with times inferred from `anchor`.
pub fn read_inferred(lines: &Vec<String>, anchor: Option<Stamp>) -> (r: Vec<HistoryEntry>)
    ensures
        realizes_all(records(r@), inferred_spec(texts(lines@), anchor)),
{
    let base = read_lines(LineFormat::Plain, lines);
    let ghost want = inferred_spec(texts(lines@), anchor);
    let stamps = infer_timestamps(anchor, base.len());
    let mut out: Vec<HistoryEntry> = Vec::new();
    let mut i: usize = 0;
    while i < base.len()
        invariant
            i <= base@.len(),
            stamps@.len() == base@.len(),
            want.len() == base@.len(),
            realizes_all(records(base@), lines_spec(LineFormat::Plain, texts(lines@))),
            want == inferred_spec(texts(lines@), anchor),
            forall|j: int|
                0 <= j < base@.len() ==> stamped(#[trigger] stamps@[j], inferred_epoch(anchor, base@.len() as int, j)),
            records(out@).len() == i,
            forall|j: int| 0 <= j < i ==> realizes(#[trigger] records(out@)[j], want[j]),
        decreases base.len() - i,
    {
        assert(realizes(records(base@)[i as int], lines_spec(LineFormat::Plain, texts(lines@))[i as int]));
        let e = HistoryEntry::new(base[i].command.clone(), stamps[i]);
        let ghost prev = records(out@);
        out.push(e);
        assert(records(out@) == prev.push(e@));
        i = i + 1;
    }
    out
}

/// What a history file in format `f` describes; `modified` is the time the
/// file was last modified, where known.
pub open spec fn history_spec(f: HistoryFormat, ls: Seq<Seq<char>>, modified: Option<Stamp>) -> Seq<Parsed> {
    match f {
        HistoryFormat::Plain => lines_spec(LineFormat::Plain, ls),
        HistoryFormat::PlainInferred => inferred_spec(ls, modified),
        HistoryFormat::Timestamped => lines_spec(LineFormat::Timestamped, ls),
        HistoryFormat::TabSeparated => lines_spec(LineFormat::TabSeparated, ls),
        HistoryFormat::Structured => structured_spec(ls),
    }
}

/// The records in the lines of `shell`'s history file; `modified` is the
/// time the file was last modified, where known.
pub fn read_history(shell: ShellType, lines: &Vec<String>, modified: Option<Stamp>) -> (r: Vec<HistoryEntry>)
    ensures
        realizes_all(records(r@), history_spec(format_spec(shell), texts(lines@), modified)),
        fresh(records(r@)),
{
    let r = match shell.format() {
        HistoryFormat::Plain => read_lines(LineFormat::Plain, lines),
        HistoryFormat::PlainInferred => read_inferred(lines, modified),
        HistoryFormat::Timestamped => read_lines(LineFormat::Timestamped, lines),
        HistoryFormat::TabSeparated => read_lines(LineFormat::TabSeparated, lines),
        HistoryFormat::Structured => read_structured(lines),
    };
    proof {
        lemma_history_nonempty(format_spec(shell), texts(lines@), modified);
        lemma_realized_fresh(records(r@), history_spec(format_spec(shell), texts(lines@), modified));
    }
    r
}

/// The records of a live log.
pub fn parse_heist_live_history(lines: &Vec<String>) -> (r: Vec<HistoryEntry>)
    ensures
        realizes_all(records(r@), lines_spec(LineFormat::Live, texts(lines@))),
        fresh(records(r@)),
{
    let r = read_lines(LineFormat::Live, lines);
    proof {
        lemma_lines_nonempty(LineFormat::Live, texts(lines@));
        lemma_realized_fresh(records(r@), lines_spec(LineFormat::Live, texts(lines@)));
    }
    r
}

/// The history of `shell`: the records of its history file (`lines`, last
/// modified at `modified` where known) and of the live log (`live_lines`),
/// merged and normalized.
pub fn parse_history(
    shell: ShellType,
    lines: &Vec<String>,
    modified: Option<Stamp>,
    live_lines: &Vec<String>,
) -> (r: Vec<HistoryEntry>)
    ensures
        exists|raw: Seq<Record>|
            realizes_all(
                raw,
                history_spec(format_spec(shell), texts(lines@), modified) + lines_spec(
                    LineFormat::Live,
                    texts(live_lines@),
                ),
            ) && normalized(raw, records(r@)),
        fresh(records(r@)),
{
    let mut entries = read_history(shell, lines, modified);
    let mut live = parse_heist_live_history(live_lines);
    let ghost a = records(entries@);
    let ghost b = records(live@);
    entries.append(&mut live);
    let ghost want = history_spec(format_spec(shell), texts(lines@), modified) + lines_spec(
        LineFormat::Live,
        texts(live_lines@),
    );
    assert(records(entries@) == a + b);
    assert(realizes_all(a + b, want)) by {
        assert forall|i: int| 0 <= i < (a + b).len() implies realizes(#[trigger] (a + b)[i], want[i]) by {
            if i >= a.len() {
                assert(realizes(b[i - a.len()], lines_spec(LineFormat::Live, texts(live_lines@))[i - a.len()]));
            }
        }
    }
    proof {
        lemma_history_nonempty(format_spec(shell), texts(lines@), modified);
        lemma_lines_nonempty(LineFormat::Live, texts(live_lines@));
        assert(all_commands(want));
        lemma_realized_fresh(a + b, want);
    }
    normalize(&entries)
}

/// Every non-blank line of a plain history file gives one record, in order:
/// untimed, its command the trimmed line.
pub proof fn plain_lines_give_one_record_each(ls: Seq<Seq<char>>, rs: Seq<Record>)
    requires
        forall|i: int| 0 <= i < ls.len() ==> !is_blank(#[trigger] ls[i]),
        realizes_all(rs, history_spec(HistoryFormat::Plain, ls, None)),
    ensures
        rs.len() == ls.len(),
        forall|i: int|
            0 <= i < ls.len() ==> (#[trigger] rs[i]).timestamp is None && rs[i].command == trim(ls[i]),
{
    lemma_plain_lines(ls);
    assert forall|i: int| 0 <= i < ls.len() implies (#[trigger] rs[i]).timestamp is None && rs[i].command == trim(ls[i]) by {
        assert(realizes(rs[i], lines_spec(LineFormat::Plain, ls)[i]));
    }
}

proof fn lemma_plain_lines(ls: Seq<Seq<char>>)
    requires
        forall|i: int| 0 <= i < ls.len() ==> !is_blank(#[trigger] ls[i]),
    ensures
        lines_spec(LineFormat::Plain, ls).len() == ls.len(),
        forall|i: int|
            0 <= i < ls.len() ==> #[trigger] lines_spec(LineFormat::Plain, ls)[i] == (Parsed {
                epoch: None,
                command: trim(ls[i]),
            }),
    decreases ls.len(),
{
    if ls.len() > 0 {
        let init = ls.drop_last();
        assert forall|i: int| 0 <= i < init.len() implies !is_blank(#[trigger] init[i]) by {
            assert(init[i] == ls[i]);
        }
        lemma_plain_lines(init);
        assert(!is_blank(ls[ls.len() - 1]));
    }
}

/// A non-blank line without the `: <epoch>:<duration>;` shape is kept
/// verbatim, untimed.
pub proof fn unmatched_timestamped_line_kept_verbatim(l: Seq<char>, rs: Seq<Record>)
    requires
        !is_blank(l),
        timestamped_fields(l) is None,
        realizes_all(rs, history_spec(HistoryFormat::Timestamped, seq![l], None)),
    ensures
        rs.len() == 1,
        rs[0].timestamp is None,
        rs[0].command == l,
{
    let ls = seq![l];
    assert(ls.drop_last() == Seq::<Seq<char>>::empty());
    assert(ls.last() == l);
    let f = |x: Seq<char>| line_spec(LineFormat::Timestamped, x);
    assert(Seq::<Seq<char>>::empty().filter_map(f) == Seq::<Parsed>::empty());
    assert(lines_spec(LineFormat::Timestamped, ls) =~= seq![Parsed { epoch: None, command: l }]);
    assert(realizes(rs[0], lines_spec(LineFormat::Timestamped, ls)[0]));
}

/// Every command in `ps` is non-empty.
pub open spec fn all_commands(ps: Seq<Parsed>) -> bool {
    forall|i: int| 0 <= i < ps.len() ==> (#[trigger] ps[i]).command.len() > 0
}

proof fn lemma_line_nonempty(f: LineFormat, l: Seq<char>)
    ensures
        line_spec(f, l) matches Some(p) ==> p.command.len() > 0,
{
    if l.len() == 0 {
        assert(trim_start(l) == l);
        assert(trim(l) == l);
    }
}

proof fn lemma_lines_nonempty(f: LineFormat, ls: Seq<Seq<char>>)
    ensures
        all_commands(lines_spec(f, ls)),
    decreases ls.len(),
{
    if ls.len() > 0 {
        lemma_lines_nonempty(f, ls.drop_last());
        lemma_line_nonempty(f, ls.last());
    }
}

proof fn lemma_structured_nonempty(ls: Seq<Seq<char>>)
    ensures
        all_commands(structured_scan(ls).0),
        all_commands(structured_spec(ls)),
    decreases ls.len(),
{
    if ls.len() > 0 {
        lemma_structured_nonempty(ls.drop_last());
    }
}

/// Every record a history file or a live log describes has a command.
proof fn lemma_history_nonempty(f: HistoryFormat, ls: Seq<Seq<char>>, modified: Option<Stamp>)
    ensures
        all_commands(history_spec(f, ls, modified)),
{
    lemma_lines_nonempty(LineFormat::Plain, ls);
    lemma_lines_nonempty(LineFormat::Timestamped, ls);
    lemma_lines_nonempty(LineFormat::TabSeparated, ls);
    lemma_structured_nonempty(ls);
}

proof fn lemma_realized_fresh(rs: Seq<Record>, ps: Seq<Parsed>)
    requires
        realizes_all(rs, ps),
        all_commands(ps),
    ensures
        fresh(rs),
{
    assert forall|i: int| 0 <= i < rs.len() implies (#[trigger] rs[i]).command.len() > 0 && rs[i].session_id is None by {
        assert(realizes(rs[i], ps[i]));
    }
}

} // verus!
