//! Selecting the records a query asks for: by command prefix, by regular
//! expression, by local date range.
use vstd::prelude::*;
use chrono::Datelike;
use crate::models::{records, HistoryEntry, Record};
use crate::text::{begins_with, chars_of, first_index, first_index_of, has_prefix, slice_string};

verus! {

#[verifier::external_type_specification]
#[verifier::external_body]
pub struct ExRegex(regex::Regex);

/// Whether regex's `Regex::new` accepts `pattern`.
pub uninterp spec fn regex_valid(pattern: Seq<char>) -> bool;

/// Whether regex's `Regex::is_match` finds `pattern` in `text`.
pub uninterp spec fn regex_match(pattern: Seq<char>, text: Seq<char>) -> bool;

/// The day that chrono's `NaiveDate::parse_from_str` reads from `text` under
/// `format`, as `num_days_from_ce` counts it.
pub uninterp spec fn calendar_day(text: Seq<char>, format: Seq<char>) -> Option<i32>;

/// A compiled regular expression, with the pattern it was compiled from.
struct SearchPattern {
    source: String,
    re: regex::Regex,
}

impl SearchPattern {
    /// The pattern this expression was compiled from.
    closed spec fn source(&self) -> Seq<char> {
        self.source@
    }

    /// Relies on regex's `Regex::new`: compiles `pattern`, `None` where it is
    /// no valid expression.
    #[verifier::external_body]
    fn compile(pattern: &str) -> (r: Option<SearchPattern>)
        ensures
            r is Some == regex_valid(pattern@),
            r matches Some(p) ==> p.source() == pattern@,
    {
        match regex::Regex::new(pattern) {
            Ok(re) => Some(SearchPattern { source: pattern.to_owned(), re }),
            Err(_) => None,
        }
    }

    /// Relies on regex's `Regex::is_match`: whether the expression matches
    /// somewhere in `text`.
    #[verifier::external_body]
    fn is_match(&self, text: &str) -> (r: bool)
        ensures
            r == regex_match(self.source(), text@),
    {
        self.re.is_match(text)
    }
}

/// Relies on chrono's `NaiveDate::parse_from_str` and
/// `Datelike::num_days_from_ce`: the day `text` names under `format`, `None`
/// where it does not parse.
#[verifier::external_body]
fn parse_calendar_day(text: &str, format: &str) -> (r: Option<i32>)
    ensures
        r == calendar_day(text@, format@),
{
    match chrono::NaiveDate::parse_from_str(text, format) {
        Ok(d) => Some(d.num_days_from_ce()),
        Err(_) => None,
    }
}

/// The format of each end of a date range.
pub const DATE_FORMAT: &'static str = "%Y-%m-%d";

/// Which records to keep.
#[derive(Clone, Debug)]
pub struct Query {
    /// Keep commands that begin with this text.
    pub filter: Option<String>,
    /// Keep commands that this regular expression matches.
    pub search: Option<String>,
    /// Keep timed records whose local date lies in `<start>:<end>`, both
    /// included.
    pub range: Option<String>,
}

/// Why a query cannot be run.
#[derive(Clone, Copy, Debug, PartialEq, Eq, Structural)]
pub enum QueryError {
    InvalidSearchPattern,
    /// The start of the range is no date.
    InvalidStartDate,
    /// The start is a date but the end of the range is not.
    InvalidEndDate,
}

/// The two halves of `s` around its only `:`; `None` unless it has exactly one.
pub open spec fn colon_split(s: Seq<char>) -> Option<(Seq<char>, Seq<char>)> {
    let p = first_index(s, ':') as int;
    if p < s.len() && first_index(s.skip(p + 1), ':') == s.len() - p - 1 {
        Some((s.take(p), s.skip(p + 1)))
    } else {
        None
    }
}

/// The days, counted from the common era, that a range `<start>:<end>`
/// names; no bounds where there is no range or it has not exactly two parts.
pub open spec fn range_bounds(range: Option<Seq<char>>) -> Result<Option<(i32, i32)>, QueryError> {
    match range {
        None => Ok(None),
        Some(s) => match colon_split(s) {
            None => Ok(None),
            Some((a, b)) => match (calendar_day(a, DATE_FORMAT@), calendar_day(b, DATE_FORMAT@)) {
                (Some(lo), Some(hi)) => Ok(Some((lo, hi))),
                (None, _) => Err(QueryError::InvalidStartDate),
                (Some(_), None) => Err(QueryError::InvalidEndDate),
            },
        },
    }
}

pub open spec fn opt_view(s: Option<String>) -> Option<Seq<char>> {
    match s {
        Some(x) => Some(x@),
        None => None,
    }
}

/// Whether a query keeps record `r`, given its range bounds.
pub open spec fn keeps(q: Query, bounds: Option<(i32, i32)>, r: Record) -> bool {
    &&& match q.filter {
        Some(p) => has_prefix(r.command, p@),
        None => true,
    }
    &&& match q.search {
        Some(p) => regex_match(p@, r.command),
        None => true,
    }
    &&& match bounds {
        Some((lo, hi)) => match r.timestamp {
            Some(t) => lo <= t.day_from_ce_spec() <= hi,
            None => false,
        },
        None => true,
    }
}

fn split_range(s: &str) -> (r: Option<(String, String)>)
    ensures
        match colon_split(s@) {
            None => r is None,
            Some((a, b)) => r matches Some((x, y)) && x@ == a && y@ == b,
        },
{
    let cs = chars_of(s);
    let p = first_index_of(&cs, ':');
    if p < cs.len() {
        let rest = slice_string(s, p + 1, cs.len());
        let rc = chars_of(rest.as_str());
        let q = first_index_of(&rc, ':');
        if q == rc.len() {
            return Some((slice_string(s, 0, p), rest));
        }
    }
    None
}

fn bounds_of(range: &Option<String>) -> (r: Result<Option<(i32, i32)>, QueryError>)
    ensures
        r == range_bounds(opt_view(*range)),
{
    match range {
        None => Ok(None),
        Some(s) => match split_range(s.as_str()) {
            None => Ok(None),
            Some((a, b)) => {
                let lo = parse_calendar_day(a.as_str(), DATE_FORMAT);
                let hi = parse_calendar_day(b.as_str(), DATE_FORMAT);
                match (lo, hi) {
                    (Some(x), Some(y)) => Ok(Some((x, y))),
                    (None, _) => Err(QueryError::InvalidStartDate),
                    (Some(_), None) => Err(QueryError::InvalidEndDate),
                }
            },
        },
    }
}

/// The records of `history` that `query` keeps, in order; an error where
/// its search pattern is no valid expression, or else where an end of its
/// range is no date.
pub fn select_entries(history: &Vec<HistoryEntry>, query: &Query) -> (r: Result<
    Vec<HistoryEntry>,
    QueryError,
>)
    ensures
        match query.search {
            Some(p) => !regex_valid(p@),
            None => false,
        } ==> r == Err::<Vec<HistoryEntry>, QueryError>(QueryError::InvalidSearchPattern),
        match query.search {
            Some(p) => regex_valid(p@),
            None => true,
        } ==> match range_bounds(opt_view(query.range)) {
            Err(e) => r == Err::<Vec<HistoryEntry>, QueryError>(e),
            Ok(b) => r matches Ok(v) && records(v@) == records(history@).filter(
                |x: Record| keeps(*query, b, x),
            ),
        },
{
    let pattern = match &query.search {
        Some(p) => match SearchPattern::compile(p.as_str()) {
            Some(sp) => Some(sp),
            None => {
                return Err(QueryError::InvalidSearchPattern);
            },
        },
        None => None,
    };
    let bounds = match bounds_of(&query.range) {
        Ok(b) => b,
        Err(e) => {
            return Err(e);
        },
    };
    let prefix: Option<Vec<char>> = match &query.filter {
        Some(f) => Some(chars_of(f.as_str())),
        None => None,
    };
    let ghost keep = |x: Record| keeps(*query, bounds, x);
    let mut out: Vec<HistoryEntry> = Vec::new();
    let mut i: usize = 0;
    while i < history.len()
        invariant
            i <= history@.len(),
            keep == (|x: Record| keeps(*query, bounds, x)),
            match query.filter {
                Some(f) => prefix matches Some(pc) && pc@ == f@,
                None => prefix is None,
            },
            match query.search {
                Some(p) => pattern matches Some(sp) && sp.source() == p@,
                None => pattern is None,
            },
            records(out@) == records(history@).take(i as int).filter(keep),
        decreases history.len() - i,
    {
        let ghost before = records(history@).take(i as int);
        let ghost after = records(history@).take(i + 1);
        assert(after.drop_last() == before);
        assert(after.last() == history@[i as int]@);
        let e = &history[i];
        let by_prefix = match &prefix {
            Some(pc) => {
                let cs = chars_of(e.command.as_str());
                begins_with(&cs, pc)
            },
            None => true,
        };
        let by_search = match &pattern {
            Some(sp) => sp.is_match(e.command.as_str()),
            None => true,
        };
        let by_range = match bounds {
            Some((lo, hi)) => match e.timestamp {
                Some(t) => {
                    let d = t.day_from_ce();
                    lo as i64 <= d && d <= hi as i64
                },
                None => false,
            },
            None => true,
        };
        let ghost prev = records(out@);
        if by_prefix && by_search && by_range {
            out.push(e.copy());
            assert(records(out@) == prev.push(e@));
        }
        proof {
            reveal(Seq::filter);
        }
        i = i + 1;
    }
    assert(records(history@).take(history@.len() as int) == records(history@));
    Ok(out)
}

} // verus!
