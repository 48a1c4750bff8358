//! Aggregations over a slice of records: command frequency, alias
//! candidates, dangerous commands, directories, hosts, hours and weekdays.
use vstd::prelude::*;
use vstd::string::StringExecFns;
use crate::models::{records, HistoryEntry, Record};
use crate::ranking::{pairs_view, rank_counts, ranked_by};
use crate::text::{
    begins_with, chars_of, contains_seq, first_word, first_word_of, has_infix, has_prefix,
    slice_string, trim, trimmed,
};

verus! {

/// The first word of each record's command.
pub open spec fn command_words(rs: Seq<Record>) -> Seq<Seq<char>> {
    rs.map_values(|r: Record| first_word(r.command))
}

/// `r` is the first `n` entries of the ranking of `keys`.
pub open spec fn top_of(keys: Seq<Seq<char>>, r: Seq<(Seq<char>, nat)>, n: int) -> bool {
    exists|full: Seq<(Seq<char>, nat)>|
        ranked_by(keys, full) && r == full.take(if n < full.len() {
            n
        } else {
            full.len() as int
        })
}

fn first_n(v: Vec<(String, usize)>, n: usize) -> (r: Vec<(String, usize)>)
    ensures
        pairs_view(r@) == pairs_view(v@).take(if n < v@.len() {
            n as int
        } else {
            v@.len() as int
        }),
{
    let m = if n < v.len() {
        n
    } else {
        v.len()
    };
    let mut out: Vec<(String, usize)> = Vec::new();
    let mut i: usize = 0;
    while i < m
        invariant
            i <= m <= v@.len(),
            pairs_view(out@) == pairs_view(v@).take(i as int),
        decreases m - i,
    {
        let p = (v[i].0.clone(), v[i].1);
        let ghost prev = pairs_view(out@);
        out.push(p);
        assert(pairs_view(out@) == prev.push((v@[i as int].0@, v@[i as int].1 as nat)));
        assert(pairs_view(v@).take(i + 1) == pairs_view(v@).take(i as int).push(
            pairs_view(v@)[i as int],
        ));
        i = i + 1;
    }
    out
}

/// The `n` most frequent first words of the commands in `history`, with
/// their counts; words of equal count in the order they first occur.
pub fn top_commands(history: &Vec<HistoryEntry>, n: usize) -> (r: Vec<(String, usize)>)
    ensures
        top_of(command_words(records(history@)), pairs_view(r@), n as int),
{
    let ghost want = command_words(records(history@));
    let mut keys: Vec<String> = Vec::new();
    let mut i: usize = 0;
    while i < history.len()
        invariant
            i <= history@.len(),
            want == command_words(records(history@)),
            keys@.len() == i,
            forall|j: int| 0 <= j < i ==> (#[trigger] keys@[j])@ == want[j],
        decreases history.len() - i,
    {
        keys.push(first_word_of(history[i].command.as_str()));
        i = i + 1;
    }
    assert(crate::models::texts(keys@) == want);
    let full = rank_counts(&keys);
    let r = first_n(full, n);
    r
}

/// The trimmed commands of `rs` longer than fifteen characters.
pub open spec fn alias_keys(rs: Seq<Record>) -> Seq<Seq<char>> {
    rs.filter_map(
        |r: Record|
            if trim(r.command).len() > 15 {
                Some(trim(r.command))
            } else {
                None
            },
    )
}

/// The decimal digits of `n`.
pub open spec fn decimal(n: nat) -> Seq<char>
    decreases n,
{
    if n < 10 {
        seq![(n + 48) as char]
    } else {
        decimal(n / 10).push(((n % 10) + 48) as char)
    }
}

/// The name suggested for the `n`-th alias: `a1`, `a2`, ...
pub open spec fn alias_name(n: nat) -> Seq<char> {
    seq!['a'] + decimal(n)
}

/// The decimal digit `d` as a one-character string.
fn digit_str(d: usize) -> (r: &'static str)
    requires
        d < 10,
    ensures
        r@ == seq![(d + 48) as char],
{
    proof {
        reveal_strlit("0");
        reveal_strlit("1");
        reveal_strlit("2");
        reveal_strlit("3");
        reveal_strlit("4");
        reveal_strlit("5");
        reveal_strlit("6");
        reveal_strlit("7");
        reveal_strlit("8");
        reveal_strlit("9");
    }
    let r = if d == 0 {
        "0"
    } else if d == 1 {
        "1"
    } else if d == 2 {
        "2"
    } else if d == 3 {
        "3"
    } else if d == 4 {
        "4"
    } else if d == 5 {
        "5"
    } else if d == 6 {
        "6"
    } else if d == 7 {
        "7"
    } else if d == 8 {
        "8"
    } else {
        "9"
    };
    assert(r@ =~= seq![(d + 48) as char]);
    r
}

/// The decimal digits of `n`, written after `s`.
fn write_decimal(s: &mut String, n: usize)
    ensures
        final(s)@ == old(s)@ + decimal(n as nat),
    decreases n,
{
    if n >= 10 {
        write_decimal(s, n / 10);
    }
    s.append(digit_str(n % 10));
}

/// A suggested alias for a long command.
#[derive(Clone, Debug)]
pub struct AliasSuggestion {
    pub alias: String,
    pub command: String,
    pub count: usize,
}

/// Up to ten long commands of `history` (trimmed, over fifteen characters),
/// the most frequent first, ties in the order they first occur, each with its
/// count and a short name `a1`, `a2`, ...
pub fn suggest_aliases(history: &Vec<HistoryEntry>) -> (r: Vec<AliasSuggestion>)
    ensures
        exists|full: Seq<(Seq<char>, nat)>|
            {
                &&& ranked_by(alias_keys(records(history@)), full)
                &&& r@.len() == (if full.len() < 10 {
                    full.len() as int
                } else {
                    10
                })
                &&& forall|i: int|
                    0 <= i < r@.len() ==> (#[trigger] r@[i]).command@ == full[i].0 && r@[i].count
                        == full[i].1 && r@[i].alias@ == alias_name((i + 1) as nat)
            },
{
    let ghost want = alias_keys(records(history@));
    let ghost pick = |r: Record|
        if trim(r.command).len() > 15 {
            Some(trim(r.command))
        } else {
            None
        };
    let mut keys: Vec<String> = Vec::new();
    let mut i: usize = 0;
    while i < history.len()
        invariant
            i <= history@.len(),
            pick == (|r: Record|
                if trim(r.command).len() > 15 {
                    Some(trim(r.command))
                } else {
                    None
                }),
            crate::models::texts(keys@) == records(history@).take(i as int).filter_map(pick),
        decreases history.len() - i,
    {
        let ghost before = records(history@).take(i as int);
        let ghost after = records(history@).take(i + 1);
        assert(after.drop_last() == before);
        assert(after.last() == history@[i as int]@);
        let t = trimmed(history[i].command.as_str());
        let ghost prev = crate::models::texts(keys@);
        let tc = chars_of(t.as_str());
        if tc.len() > 15 {
            keys.push(t);
            assert(crate::models::texts(keys@) == prev.push(trim(history@[i as int]@.command)));
        }
        i = i + 1;
    }
    assert(records(history@).take(history@.len() as int) == records(history@));
    let full = rank_counts(&keys);
    let ghost fv = pairs_view(full@);
    let m: usize = if full.len() < 10 {
        full.len()
    } else {
        10
    };
    let mut out: Vec<AliasSuggestion> = Vec::new();
    let mut j: usize = 0;
    while j < m
        invariant
            j <= m <= full@.len(),
            m <= 10,
            fv == pairs_view(full@),
            out@.len() == j,
            forall|k: int|
                0 <= k < j ==> (#[trigger] out@[k]).command@ == fv[k].0 && out@[k].count == fv[k].1
                    && out@[k].alias@ == alias_name((k + 1) as nat),
        decreases m - j,
    {
        let mut alias = String::from_str("a");
        proof {
            reveal_strlit("a");
        }
        write_decimal(&mut alias, j + 1);
        let s = AliasSuggestion { alias, command: full[j].0.clone(), count: full[j].1 };
        out.push(s);
        j = j + 1;
    }
    out
}

/// The catalog of risky substrings, in the order they are tried.
pub open spec fn danger_catalog() -> Seq<Seq<char>> {
    seq![
        "rm -rf"@,
        "rm -r /"@,
        "dd if="@,
        "mkfs"@,
        ":(){ :|:& };:"@,
        "shutdown"@,
        "reboot"@,
        "curl | sh"@,
        "wget | sh"@,
        "chmod 777 /"@,
        "chown root"@,
        "> /dev/sda"@,
        "/dev/sda"@,
        ":(){ :|: & };:"@,
        "rm -rf --no-preserve-root"@,
        "poweroff"@,
        "halt"@,
        "init 0"@,
        "mkfs.ext"@,
        "dd of=/dev/"@,
        "mv /"@,
        "cp /dev/null"@,
        "yes | rm"@,
        "yes | dd"@,
        "yes | mkfs"@,
    ]
}

/// The catalog of risky substrings.
pub fn danger_patterns() -> (r: Vec<&'static str>)
    ensures
        r@.len() == danger_catalog().len(),
        forall|i: int| 0 <= i < r@.len() ==> (#[trigger] r@[i])@ == danger_catalog()[i],
{
    let r = vec![
        "rm -rf",
        "rm -r /",
        "dd if=",
        "mkfs",
        ":(){ :|:& };:",
        "shutdown",
        "reboot",
        "curl | sh",
        "wget | sh",
        "chmod 777 /",
        "chown root",
        "> /dev/sda",
        "/dev/sda",
        ":(){ :|: & };:",
        "rm -rf --no-preserve-root",
        "poweroff",
        "halt",
        "init 0",
        "mkfs.ext",
        "dd of=/dev/",
        "mv /",
        "cp /dev/null",
        "yes | rm",
        "yes | dd",
        "yes | mkfs",
    ];
    assert(r@.len() == 25);
    r
}

/// The first entry of `cat`, from position `j` on, that occurs in `c`.
pub open spec fn first_hit(c: Seq<char>, cat: Seq<Seq<char>>, j: int) -> Option<int>
    decreases cat.len() - j,
{
    if j < 0 || j >= cat.len() {
        None
    } else if has_infix(c, cat[j]) {
        Some(j)
    } else {
        first_hit(c, cat, j + 1)
    }
}

/// The first catalog entry that occurs in `command`, if any.
pub fn danger_pattern(command: &str) -> (r: Option<&'static str>)
    ensures
        match first_hit(command@, danger_catalog(), 0) {
            Some(i) => r matches Some(p) && p@ == danger_catalog()[i],
            None => r is None,
        },
{
    let cat = danger_patterns();
    let cs = chars_of(command);
    let mut j: usize = 0;
    while j < cat.len()
        invariant
            j <= cat@.len(),
            cat@.len() == danger_catalog().len(),
            forall|i: int| 0 <= i < cat@.len() ==> (#[trigger] cat@[i])@ == danger_catalog()[i],
            cs@ == command@,
            first_hit(command@, danger_catalog(), 0) == first_hit(command@, danger_catalog(), j as int),
        decreases cat.len() - j,
    {
        let pc = chars_of(cat[j]);
        if contains_seq(&cs, &pc) {
            return Some(cat[j]);
        }
        j = j + 1;
    }
    None
}

/// A command that contains a catalog entry, and the first entry it contains.
#[derive(Clone, Debug)]
pub struct DangerFlag {
    pub command: String,
    pub pattern: &'static str,
}

/// The flagged records of `rs`: each command with the first catalog entry it
/// contains.
pub open spec fn flags_spec(rs: Seq<Record>) -> Seq<(Seq<char>, Seq<char>)> {
    rs.filter_map(
        |r: Record|
            match first_hit(r.command, danger_catalog(), 0) {
                Some(i) => Some((r.command, danger_catalog()[i])),
                None => None,
            },
    )
}

/// The commands of `history` that contain an entry of the catalog, in
/// order, each with the first entry it contains.
pub fn flag_dangerous(history: &Vec<HistoryEntry>) -> (r: Vec<DangerFlag>)
    ensures
        r@.len() == flags_spec(records(history@)).len(),
        forall|i: int|
            0 <= i < r@.len() ==> ((#[trigger] r@[i]).command@, r@[i].pattern@) == flags_spec(
                records(history@),
            )[i],
{
    let ghost pick = |r: Record|
        match first_hit(r.command, danger_catalog(), 0) {
            Some(i) => Some((r.command, danger_catalog()[i])),
            None => None,
        };
    let mut out: Vec<DangerFlag> = Vec::new();
    let mut i: usize = 0;
    while i < history.len()
        invariant
            i <= history@.len(),
            pick == (|r: Record|
                match first_hit(r.command, danger_catalog(), 0) {
                    Some(i) => Some((r.command, danger_catalog()[i])),
                    None => None,
                }),
            out@.len() == records(history@).take(i as int).filter_map(pick).len(),
            forall|k: int|
                0 <= k < out@.len() ==> ((#[trigger] out@[k]).command@, out@[k].pattern@)
                    == records(history@).take(i as int).filter_map(pick)[k],
        decreases history.len() - i,
    {
        let ghost before = records(history@).take(i as int);
        let ghost after = records(history@).take(i + 1);
        assert(after.drop_last() == before);
        assert(after.last() == history@[i as int]@);
        match danger_pattern(history[i].command.as_str()) {
            Some(p) => {
                out.push(DangerFlag { command: history[i].command.clone(), pattern: p });
            },
            None => {},
        }
        i = i + 1;
    }
    assert(records(history@).take(history@.len() as int) == records(history@));
    out
}

/// The directory that a `cd <dir>` command moves to.
pub open spec fn cd_target(c: Seq<char>) -> Option<Seq<char>> {
    if has_prefix(c, "cd "@) {
        Some(trim(c.skip("cd "@.len() as int)))
    } else {
        None
    }
}

/// The current directory after the commands `cs`, starting from `~`.
pub open spec fn cursor(cs: Seq<Seq<char>>) -> Seq<char>
    decreases cs.len(),
{
    if cs.len() == 0 {
        "~"@
    } else {
        match cd_target(cs.last()) {
            Some(d) => d,
            None => cursor(cs.drop_last()),
        }
    }
}

/// The directory each record is attributed to: the current directory after
/// it ran.
pub open spec fn directory_keys(rs: Seq<Record>) -> Seq<Seq<char>> {
    Seq::new(rs.len(), |i: int| cursor(rs.take(i + 1).map_values(|r: Record| r.command)))
}

/// The directory each command of `history` is attributed to.
pub fn directory_attribution(history: &Vec<HistoryEntry>) -> (r: Vec<String>)
    ensures
        crate::models::texts(r@) == directory_keys(records(history@)),
{
    let ghost rs = records(history@);
    let ghost cmds = rs.map_values(|r: Record| r.command);
    let mut cur = String::from_str("~");
    let cd = chars_of("cd ");
    let mut out: Vec<String> = Vec::new();
    let mut i: usize = 0;
    while i < history.len()
        invariant
            i <= history@.len(),
            rs == records(history@),
            cmds == rs.map_values(|r: Record| r.command),
            cd@ == "cd "@,
            cur@ == cursor(cmds.take(i as int)),
            out@.len() == i,
            forall|k: int| 0 <= k < i ==> (#[trigger] out@[k])@ == directory_keys(rs)[k],
        decreases history.len() - i,
    {
        let ghost before = cmds.take(i as int);
        let ghost after = cmds.take(i + 1);
        assert(after.drop_last() == before);
        assert(after.last() == history@[i as int].command@);
        assert(rs.take(i + 1).map_values(|r: Record| r.command) == after);
        let c = history[i].command.as_str();
        let cs = chars_of(c);
        if begins_with(&cs, &cd) {
            let rest = slice_string(c, cd.len(), cs.len());
            assert(rest@ == c@.skip("cd "@.len() as int));
            cur = trimmed(rest.as_str());
        }
        out.push(cur.clone());
        i = i + 1;
    }
    out
}

/// How many directories the per-directory stats show.
pub const DIRECTORY_ROWS: usize = 15;

/// The fifteen directories that `history` is attributed to most, each with
/// its count, the most used first; ties in the order they first occur.
pub fn per_directory_stats(history: &Vec<HistoryEntry>) -> (r: Vec<(String, usize)>)
    ensures
        top_of(directory_keys(records(history@)), pairs_view(r@), DIRECTORY_ROWS as int),
{
    let dirs = directory_attribution(history);
    let full = rank_counts(&dirs);
    first_n(full, DIRECTORY_ROWS)
}

/// Every record attributed to the one host `host`: nothing for an empty
/// history, else `host` with the number of records.
pub fn per_host_stats(history: &Vec<HistoryEntry>, host: &str) -> (r: Vec<(String, usize)>)
    ensures
        history@.len() == 0 ==> r@.len() == 0,
        history@.len() > 0 ==> r@.len() == 1 && r@[0].0@ == host@ && r@[0].1 == history@.len(),
{
    let mut out: Vec<(String, usize)> = Vec::new();
    if history.len() > 0 {
        out.push((host.to_owned(), history.len()));
    }
    out
}

/// Record `r` is timed, and ran in local hour `h` (of weekday `d`, where
/// `d` is given).
pub open spec fn falls_in(r: Record, d: Option<int>, h: int) -> bool {
    match r.timestamp {
        Some(t) => t.hour_spec() == h && match d {
            Some(w) => t.weekday_spec() == w,
            None => true,
        },
        None => false,
    }
}

/// How many records of `rs` fall in hour `h` (of weekday `d`, where given).
pub open spec fn bucket_count(rs: Seq<Record>, d: Option<int>, h: int) -> nat
    decreases rs.len(),
{
    if rs.len() == 0 {
        0
    } else {
        bucket_count(rs.drop_last(), d, h) + (if falls_in(rs.last(), d, h) {
            1nat
        } else {
            0nat
        })
    }
}

fn count_bucket(history: &Vec<HistoryEntry>, d: Option<usize>, h: usize) -> (r: usize)
    ensures
        r == bucket_count(
            records(history@),
            match d {
                Some(w) => Some(w as int),
                None => None,
            },
            h as int,
        ),
{
    let ghost dd = match d {
        Some(w) => Some(w as int),
        None => None::<int>,
    };
    let mut n: usize = 0;
    let mut i: usize = 0;
    while i < history.len()
        invariant
            i <= history@.len(),
            n <= i,
            dd == (match d {
                Some(w) => Some(w as int),
                None => None::<int>,
            }),
            n == bucket_count(records(history@).take(i as int), dd, h as int),
        decreases history.len() - i,
    {
        let ghost before = records(history@).take(i as int);
        let ghost after = records(history@).take(i + 1);
        assert(after.drop_last() == before);
        assert(after.last() == history@[i as int]@);
        let hit = match history[i].timestamp {
            Some(t) => t.hour() == h && match d {
                Some(w) => t.weekday() == w,
                None => true,
            },
            None => false,
        };
        if hit {
            n = n + 1;
        }
        i = i + 1;
    }
    assert(records(history@).take(history@.len() as int) == records(history@));
    n
}

/// The number of timed records of `history` in each local hour, `0..24`.
pub fn time_of_day_stats(history: &Vec<HistoryEntry>) -> (r: Vec<usize>)
    ensures
        r@.len() == 24,
        forall|h: int| 0 <= h < 24 ==> #[trigger] r@[h] == bucket_count(records(history@), None, h),
{
    let mut out: Vec<usize> = Vec::new();
    let mut h: usize = 0;
    while h < 24
        invariant
            h <= 24,
            out@.len() == h,
            forall|k: int| 0 <= k < h ==> #[trigger] out@[k] == bucket_count(records(history@), None, k),
        decreases 24 - h,
    {
        out.push(count_bucket(history, None, h));
        h = h + 1;
    }
    out
}

/// The number of timed records of `history` in each local weekday (Monday
/// first) and hour: seven rows of twenty-four.
pub fn heatmap_stats(history: &Vec<HistoryEntry>) -> (r: Vec<Vec<usize>>)
    ensures
        r@.len() == 7,
        forall|d: int| 0 <= d < 7 ==> (#[trigger] r@[d])@.len() == 24,
        forall|d: int, h: int|
            0 <= d < 7 && 0 <= h < 24 ==> #[trigger] r@[d]@[h] == bucket_count(
                records(history@),
                Some(d),
                h,
            ),
{
    let mut rows: Vec<Vec<usize>> = Vec::new();
    let mut d: usize = 0;
    while d < 7
        invariant
            d <= 7,
            rows@.len() == d,
            forall|k: int| 0 <= k < d ==> (#[trigger] rows@[k])@.len() == 24,
            forall|k: int, h: int|
                0 <= k < d && 0 <= h < 24 ==> #[trigger] rows@[k]@[h] == bucket_count(
                    records(history@),
                    Some(k),
                    h,
                ),
        decreases 7 - d,
    {
        let mut row: Vec<usize> = Vec::new();
        let mut h: usize = 0;
        while h < 24
            invariant
                h <= 24,
                d < 7,
                row@.len() == h,
                forall|k: int| 0 <= k < h ==> #[trigger] row@[k] == bucket_count(
                    records(history@),
                    Some(d as int),
                    k,
                ),
            decreases 24 - h,
        {
            row.push(count_bucket(history, Some(d), h));
            h = h + 1;
        }
        rows.push(row);
        d = d + 1;
    }
    rows
}

/// The symbol that shows a heatmap count: blank for none, then `.` up to 2,
/// `*` up to 5, `o` up to 10, `#` above.
pub open spec fn density_spec(count: nat) -> char {
    if count == 0 {
        ' '
    } else if count <= 2 {
        '.'
    } else if count <= 5 {
        '*'
    } else if count <= 10 {
        'o'
    } else {
        '#'
    }
}

pub fn density_symbol(count: usize) -> (r: char)
    ensures
        r == density_spec(count as nat),
{
    if count == 0 {
        ' '
    } else if count <= 2 {
        '.'
    } else if count <= 5 {
        '*'
    } else if count <= 10 {
        'o'
    } else {
        '#'
    }
}

} // verus!
