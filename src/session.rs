//! Splitting a normalized stream into sessions at long gaps between timed
//! records.
use vstd::prelude::*;
use crate::models::{ref_records, records, HistoryEntry, Record, Session};
use crate::time::Stamp;

verus! {

/// `b` is more than `gap` minutes after `a`.
pub open spec fn gap_exceeded(a: Stamp, b: Stamp, gap: int) -> bool {
    b.secs - a.secs > 60 * gap
}

/// The time of the last timed record of `rs`.
pub open spec fn last_time(rs: Seq<Record>) -> Option<Stamp>
    decreases rs.len(),
{
    if rs.len() == 0 {
        None
    } else if rs.last().timestamp is Some {
        rs.last().timestamp
    } else {
        last_time(rs.drop_last())
    }
}

/// The time of the first timed record of `rs`.
pub open spec fn first_time(rs: Seq<Record>) -> Option<Stamp>
    decreases rs.len(),
{
    if rs.len() == 0 {
        None
    } else if rs[0].timestamp is Some {
        rs[0].timestamp
    } else {
        first_time(rs.drop_first())
    }
}

/// Record `i` of `rs` is timed, and more than `gap` minutes later than the
/// last timed record before it.
pub open spec fn opens_session(rs: Seq<Record>, i: int, gap: int) -> bool {
    match (rs[i].timestamp, last_time(rs.take(i))) {
        (Some(t), Some(l)) => gap_exceeded(l, t, gap),
        _ => false,
    }
}

/// `rs` split into sessions: the first record opens the first session, and
/// each record that `opens_session` opens the next; every other record joins
/// the session open before it.
pub open spec fn segment(rs: Seq<Record>, gap: int) -> Seq<Seq<Record>>
    decreases rs.len(),
{
    if rs.len() == 0 {
        Seq::empty()
    } else {
        let p = segment(rs.drop_last(), gap);
        if p.len() == 0 || opens_session(rs, rs.len() - 1, gap) {
            p.push(seq![rs.last()])
        } else {
            p.update(p.len() - 1, p.last().push(rs.last()))
        }
    }
}

pub open spec fn groups_view<'a>(g: Seq<Vec<&'a HistoryEntry>>) -> Seq<Seq<Record>> {
    g.map_values(|v: Vec<&'a HistoryEntry>| ref_records(v@))
}

proof fn lemma_segment_empty(rs: Seq<Record>, gap: int)
    ensures
        (segment(rs, gap).len() == 0) == (rs.len() == 0),
{
}

fn gap_exceeds(last: Stamp, t: Stamp, gap_minutes: i64) -> (r: bool)
    ensures
        r == gap_exceeded(last, t, gap_minutes as int),
{
    (t.secs as i128 - last.secs as i128) > 60 * (gap_minutes as i128)
}

/// The sessions of `entries`: a new one opens at each timed record more than
/// `gap_minutes` minutes after the previous timed record; untimed records join
/// the session that is open.
pub fn group_sessions<'a>(entries: &'a [&'a HistoryEntry], gap_minutes: i64) -> (r: Vec<
    Vec<&'a HistoryEntry>,
>)
    ensures
        groups_view(r@) == segment(ref_records(entries@), gap_minutes as int),
{
    let ghost rs = ref_records(entries@);
    let mut sessions: Vec<Vec<&'a HistoryEntry>> = Vec::new();
    let mut current: Vec<&'a HistoryEntry> = Vec::new();
    let mut last_ts: Option<Stamp> = None;
    let mut i: usize = 0;
    while i < entries.len()
        invariant
            i <= entries@.len(),
            rs == ref_records(entries@),
            last_ts == last_time(rs.take(i as int)),
            i == 0 ==> sessions@.len() == 0 && current@.len() == 0,
            i > 0 ==> {
                let seg = segment(rs.take(i as int), gap_minutes as int);
                &&& seg.len() == sessions@.len() + 1
                &&& groups_view(sessions@) == seg.drop_last()
                &&& ref_records(current@) == seg.last()
            },
        decreases entries.len() - i,
    {
        let e: &'a HistoryEntry = entries[i];
        let ghost before = rs.take(i as int);
        let ghost after = rs.take(i + 1);
        assert(after.drop_last() == before);
        assert(after.last() == e@);
        assert(after.take(i as int) == before);
        let mut opens = false;
        match e.timestamp {
            Some(ts) => {
                match last_ts {
                    Some(last) => {
                        opens = gap_exceeds(last, ts, gap_minutes);
                    },
                    None => {},
                }
                last_ts = Some(ts);
            },
            None => {},
        }
        assert(opens == (i > 0 && opens_session(after, i as int, gap_minutes as int)));
        let ghost prev_groups = groups_view(sessions@);
        let ghost cur = ref_records(current@);
        if opens {
            let done = current;
            sessions.push(done);
            assert(groups_view(sessions@) == prev_groups.push(cur));
            current = Vec::new();
        }
        let ghost cur2 = ref_records(current@);
        current.push(e);
        assert(ref_records(current@) == cur2.push(e@));
        proof {
            lemma_segment_empty(before, gap_minutes as int);
            let seg = segment(after, gap_minutes as int);
            if i > 0 && !opens {
                assert(seg.drop_last() == segment(before, gap_minutes as int).drop_last());
            }
            if i > 0 && opens {
                assert(seg.drop_last() == segment(before, gap_minutes as int));
            }
        }
        i = i + 1;
    }
    assert(rs.take(entries@.len() as int) == rs);
    if current.len() > 0 {
        let ghost prev_groups = groups_view(sessions@);
        let ghost cur = ref_records(current@);
        sessions.push(current);
        assert(groups_view(sessions@) == prev_groups.push(cur));
    }
    sessions
}

/// `rs` marked as members of session `id`.
pub open spec fn in_session(rs: Seq<Record>, id: u64) -> Seq<Record> {
    rs.map_values(|x: Record| Record { session_id: Some(id), ..x })
}

fn first_time_of(g: &Vec<&HistoryEntry>) -> (r: Option<Stamp>)
    ensures
        r == first_time(ref_records(g@)),
{
    let ghost rs = ref_records(g@);
    let mut i: usize = 0;
    assert(rs.skip(0) == rs);
    while i < g.len()
        invariant
            i <= g@.len(),
            rs == ref_records(g@),
            first_time(rs) == first_time(rs.skip(i as int)),
        decreases g.len() - i,
    {
        assert(rs.skip(i as int)[0] == g@[i as int]@);
        if g[i].timestamp.is_some() {
            return g[i].timestamp;
        }
        assert(rs.skip(i as int).drop_first() == rs.skip(i + 1));
        i = i + 1;
    }
    None
}

fn last_time_of(g: &Vec<&HistoryEntry>) -> (r: Option<Stamp>)
    ensures
        r == last_time(ref_records(g@)),
{
    let ghost rs = ref_records(g@);
    let mut i: usize = g.len();
    assert(rs.take(i as int) == rs);
    while i > 0
        invariant
            i <= g@.len(),
            rs == ref_records(g@),
            last_time(rs) == last_time(rs.take(i as int)),
        decreases i,
    {
        assert(rs.take(i as int).last() == g@[i - 1]@);
        if g[i - 1].timestamp.is_some() {
            return g[i - 1].timestamp;
        }
        assert(rs.take(i as int).drop_last() == rs.take(i - 1));
        i = i - 1;
    }
    None
}

/// The sessions of `entries` (see `group_sessions`), numbered from 0, each
/// member marked with its session's number.
pub fn build_sessions(entries: &Vec<HistoryEntry>, gap_minutes: i64) -> (r: Vec<Session>)
    ensures
        r@.len() == segment(records(entries@), gap_minutes as int).len(),
        forall|i: int|
            0 <= i < r@.len() ==> {
                let g = #[trigger] segment(records(entries@), gap_minutes as int)[i];
                &&& r@[i].id == i
                &&& r@[i].start == first_time(g)
                &&& r@[i].end == last_time(g)
                &&& records(r@[i].commands@) == in_session(g, i as u64)
            },
{
    let mut refs: Vec<&HistoryEntry> = Vec::new();
    let mut k: usize = 0;
    while k < entries.len()
        invariant
            k <= entries@.len(),
            ref_records(refs@) == records(entries@).take(k as int),
        decreases entries.len() - k,
    {
        let ghost prev = ref_records(refs@);
        refs.push(&entries[k]);
        assert(ref_records(refs@) == prev.push(entries@[k as int]@));
        assert(records(entries@).take(k + 1) == records(entries@).take(k as int).push(entries@[k as int]@));
        k = k + 1;
    }
    assert(records(entries@).take(entries@.len() as int) == records(entries@));
    let groups = group_sessions(refs.as_slice(), gap_minutes);
    let ghost seg = segment(records(entries@), gap_minutes as int);
    let mut out: Vec<Session> = Vec::new();
    let mut i: usize = 0;
    while i < groups.len()
        invariant
            i <= groups@.len(),
            groups_view(groups@) == seg,
            seg == segment(records(entries@), gap_minutes as int),
            out@.len() == i,
            forall|j: int|
                0 <= j < i ==> {
                    let g = #[trigger] seg[j];
                    &&& out@[j].id == j
                    &&& out@[j].start == first_time(g)
                    &&& out@[j].end == last_time(g)
                    &&& records(out@[j].commands@) == in_session(g, j as u64)
                },
        decreases groups.len() - i,
    {
        let g = &groups[i];
        let ghost gv = ref_records(g@);
        assert(gv == seg[i as int]);
        let id = i as u64;
        let mut commands: Vec<HistoryEntry> = Vec::new();
        let mut m: usize = 0;
        while m < g.len()
            invariant
                m <= g@.len(),
                gv == ref_records(g@),
                records(commands@) == in_session(gv.take(m as int), id),
            decreases g.len() - m,
        {
            let src: &HistoryEntry = g[m];
            let e = HistoryEntry {
                timestamp: src.timestamp,
                command: src.command.clone(),
                session_id: Some(id),
            };
            let ghost prev = records(commands@);
            commands.push(e);
            assert(records(commands@) == prev.push(e@));
            assert(gv.take(m + 1) == gv.take(m as int).push(gv[m as int]));
            assert(in_session(gv.take(m + 1), id) == in_session(gv.take(m as int), id).push(e@));
            m = m + 1;
        }
        assert(gv.take(g@.len() as int) == gv);
        let s = Session { id, start: first_time_of(g), end: last_time_of(g), commands };
        out.push(s);
        i = i + 1;
    }
    out
}

} // verus!
