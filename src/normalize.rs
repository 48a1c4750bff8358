//! Ordering merged records by time and collapsing adjacent duplicates.
use vstd::prelude::*;
use crate::models::{fresh, records, HistoryEntry, Record};
use crate::time::Stamp;

verus! {

broadcast use vstd::seq_lib::group_seq_properties;

/// The sort key of a time: no time sorts before every instant.
pub open spec fn time_key(t: Option<Stamp>) -> int {
    match t {
        None => i64::MIN - 1,
        Some(s) => s.secs as int,
    }
}

pub open spec fn key_of(r: Record) -> int {
    time_key(r.timestamp)
}

/// Whether a record's time has key `k`.
pub open spec fn with_key(k: int) -> spec_fn(Record) -> bool {
    |r: Record| key_of(r) == k
}

pub open spec fn sorted_by_time(rs: Seq<Record>) -> bool {
    forall|i: int, j: int| 0 <= i < j < rs.len() ==> key_of(rs[i]) <= key_of(rs[j])
}

/// `s` is `a` sorted by time, records of equal time keeping their order.
pub open spec fn stable_time_sort(a: Seq<Record>, s: Seq<Record>) -> bool {
    &&& sorted_by_time(s)
    &&& forall|k: int| #[trigger] s.filter(with_key(k)) == a.filter(with_key(k))
}

/// Two records with the same time and the same command.
pub open spec fn duplicates(a: Record, b: Record) -> bool {
    key_of(a) == key_of(b) && a.command == b.command
}

/// `rs` with each record dropped that duplicates the last one kept before it.
pub open spec fn dedup(rs: Seq<Record>) -> Seq<Record>
    decreases rs.len(),
{
    if rs.len() == 0 {
        rs
    } else {
        let p = dedup(rs.drop_last());
        if p.len() > 0 && duplicates(p.last(), rs.last()) {
            p
        } else {
            p.push(rs.last())
        }
    }
}

/// `r` is the normal form of `a`: sorted by time, stably, with adjacent
/// duplicates collapsed.
pub open spec fn normalized(a: Seq<Record>, r: Seq<Record>) -> bool {
    exists|s: Seq<Record>| stable_time_sort(a, s) && r == dedup(s)
}

proof fn lemma_filter_none(s: Seq<Record>, k: int)
    requires
        forall|j: int| 0 <= j < s.len() ==> key_of(#[trigger] s[j]) != k,
    ensures
        s.filter(with_key(k)) == Seq::<Record>::empty(),
    decreases s.len(),
{
    reveal(Seq::filter);
    if s.len() > 0 {
        lemma_filter_none(s.drop_last(), k);
    }
}

proof fn lemma_filter_insert(s: Seq<Record>, p: int, x: Record, k: int)
    requires
        0 <= p <= s.len(),
        forall|j: int| p <= j < s.len() ==> key_of(#[trigger] s[j]) > key_of(x),
    ensures
        s.insert(p, x).filter(with_key(k)) == (if key_of(x) == k {
            s.filter(with_key(k)).push(x)
        } else {
            s.filter(with_key(k))
        }),
{
    reveal(Seq::filter);
    let f = with_key(k);
    assert(s.insert(p, x) == s.take(p) + seq![x] + s.skip(p));
    assert(s == s.take(p) + s.skip(p));
    Seq::filter_distributes_over_add(s.take(p) + seq![x], s.skip(p), f);
    Seq::filter_distributes_over_add(s.take(p), seq![x], f);
    Seq::filter_distributes_over_add(s.take(p), s.skip(p), f);
    assert(seq![x].drop_last() == Seq::<Record>::empty());
    if key_of(x) == k {
        lemma_filter_none(s.skip(p), k);
    }
}

/// Whether time `a` sorts after time `b`.
fn later(a: &Option<Stamp>, b: &Option<Stamp>) -> (r: bool)
    ensures
        r == (time_key(*a) > time_key(*b)),
{
    match (a, b) {
        (None, _) => false,
        (Some(_), None) => true,
        (Some(x), Some(y)) => x.secs > y.secs,
    }
}

/// Whether times `a` and `b` are the same instant, or both absent.
fn same_time(a: &Option<Stamp>, b: &Option<Stamp>) -> (r: bool)
    ensures
        r == (time_key(*a) == time_key(*b)),
{
    match (a, b) {
        (None, None) => true,
        (Some(x), Some(y)) => x.secs == y.secs,
        _ => false,
    }
}

/// `v` sorted by time; records of equal time keep their order.
pub fn sort_by_time(v: &Vec<HistoryEntry>) -> (r: Vec<HistoryEntry>)
    ensures
        stable_time_sort(records(v@), records(r@)),
        fresh(records(v@)) ==> fresh(records(r@)),
{
    let mut out: Vec<HistoryEntry> = Vec::new();
    let mut i: usize = 0;
    while i < v.len()
        invariant
            i <= v@.len(),
            stable_time_sort(records(v@).take(i as int), records(out@)),
            fresh(records(v@)) ==> fresh(records(out@)),
        decreases v.len() - i,
    {
        let x = v[i].copy();
        let mut p: usize = out.len();
        while p > 0 && later(&out[p - 1].timestamp, &x.timestamp)
            invariant
                p <= out@.len(),
                forall|j: int| p <= j < out@.len() ==> key_of(#[trigger] records(out@)[j]) > key_of(x@),
            decreases p,
        {
            p = p - 1;
        }
        let ghost old_out = records(out@);
        let ghost xv = x@;
        out.insert(p, x);
        assert(records(out@) == old_out.insert(p as int, xv));
        assert(fresh(records(v@)) ==> fresh(records(out@))) by {
            if fresh(records(v@)) {
                assert(records(v@)[i as int] == xv);
                assert forall|j: int| 0 <= j < records(out@).len() implies (#[trigger] records(out@)[j]).command.len() > 0
                    && records(out@)[j].session_id is None by {
                    if j < p {
                        assert(records(out@)[j] == old_out[j]);
                    } else if j > p {
                        assert(records(out@)[j] == old_out[j - 1]);
                    }
                }
            }
        }
        let ghost before = records(v@).take(i as int);
        let ghost after = records(v@).take(i + 1);
        assert(after.drop_last() == before);
        assert(after.last() == xv);
        assert forall|k: int| #[trigger] records(out@).filter(with_key(k)) == after.filter(with_key(k)) by {
            lemma_filter_insert(old_out, p as int, xv, k);
            reveal(Seq::filter);
        }
        assert forall|a: int, b: int| 0 <= a < b < records(out@).len() implies key_of(records(out@)[a]) <= key_of(records(out@)[b]) by {
            if p > 0 && a < p {
                assert(key_of(old_out[p - 1]) <= key_of(xv));
            }
        }
        i = i + 1;
    }
    assert(records(v@).take(v@.len() as int) == records(v@));
    out
}

/// `s` with adjacent duplicates collapsed.
pub fn dedup_adjacent(s: &Vec<HistoryEntry>) -> (r: Vec<HistoryEntry>)
    ensures
        records(r@) == dedup(records(s@)),
        fresh(records(s@)) ==> fresh(records(r@)),
{
    let mut out: Vec<HistoryEntry> = Vec::new();
    let mut i: usize = 0;
    while i < s.len()
        invariant
            i <= s@.len(),
            records(out@) == dedup(records(s@).take(i as int)),
            fresh(records(s@)) ==> fresh(records(out@)),
        decreases s.len() - i,
    {
        let ghost before = records(s@).take(i as int);
        let ghost after = records(s@).take(i + 1);
        assert(after.drop_last() == before);
        let n = out.len();
        if n > 0 && same_time(&out[n - 1].timestamp, &s[i].timestamp) && out[n - 1].command
            == s[i].command {
        } else {
            let ghost prev = records(out@);
            out.push(s[i].copy());
            assert(records(out@) == prev.push(s@[i as int]@));
            assert(records(s@)[i as int] == s@[i as int]@);
        }
        i = i + 1;
    }
    assert(records(s@).take(s@.len() as int) == records(s@));
    out
}

/// `entries` sorted by time, stably, with adjacent duplicates collapsed.
pub fn normalize(entries: &Vec<HistoryEntry>) -> (r: Vec<HistoryEntry>)
    ensures
        normalized(records(entries@), records(r@)),
        fresh(records(entries@)) ==> fresh(records(r@)),
{
    let s = sort_by_time(entries);
    let r = dedup_adjacent(&s);
    assert(stable_time_sort(records(entries@), records(s@)) && records(r@) == dedup(records(s@)));
    r
}

/// Records of `s` with the same time have the same command.
pub open spec fn time_fixes_command(s: Seq<Record>) -> bool {
    forall|i: int, j: int|
        0 <= i < s.len() && 0 <= j < s.len() && key_of(s[i]) == key_of(s[j]) ==> (#[trigger] s[i]).command
            == (#[trigger] s[j]).command
}

/// Some record of `s` has key `k`.
pub open spec fn key_in(s: Seq<Record>, k: int) -> bool {
    exists|i: int| 0 <= i < s.len() && key_of(s[i]) == k
}

proof fn lemma_filter_push(s: Seq<Record>, x: Record, k: int)
    ensures
        s.push(x).filter(with_key(k)) == (if key_of(x) == k {
            s.filter(with_key(k)).push(x)
        } else {
            s.filter(with_key(k))
        }),
{
    reveal(Seq::filter);
    assert(s.push(x).drop_last() == s);
}

proof fn lemma_key_in_filter(s: Seq<Record>, k: int)
    ensures
        key_in(s, k) <==> s.filter(with_key(k)).len() > 0,
    decreases s.len(),
{
    reveal(Seq::filter);
    if s.len() > 0 {
        let init = s.drop_last();
        lemma_key_in_filter(init, k);
        assert(s == init.push(s.last()));
        lemma_filter_push(init, s.last(), k);
        if key_in(s, k) && key_of(s.last()) != k {
            let i = choose|i: int| 0 <= i < s.len() && key_of(s[i]) == k;
            assert(init[i] == s[i]);
        }
        if key_in(init, k) {
            let i = choose|i: int| 0 <= i < init.len() && key_of(init[i]) == k;
            assert(s[i] == init[i]);
        }
        if key_of(s.last()) == k {
            assert(key_of(s[s.len() - 1]) == k);
        }
    }
}

proof fn lemma_filter_member(s: Seq<Record>, k: int)
    requires
        s.filter(with_key(k)).len() > 0,
    ensures
        exists|w: int| 0 <= w < s.len() && s[w] == s.filter(with_key(k))[0] && key_of(s[w]) == k,
{
    let f = with_key(k);
    broadcast use vstd::seq_lib::group_filter_ensures;

    assert(s.filter(f).contains(s.filter(f)[0]));
    s.lemma_filter_contains_rev(f, s.filter(f)[0]);
    s.lemma_filter_pred(f, 0);
}

/// On a sorted sequence whose times fix the commands, collapsing adjacent
/// duplicates keeps the first record of each time, in increasing time.
proof fn lemma_dedup_shape(s: Seq<Record>)
    requires
        sorted_by_time(s),
        time_fixes_command(s),
    ensures
        forall|i: int, j: int|
            0 <= i < j < dedup(s).len() ==> key_of(#[trigger] dedup(s)[i]) < key_of(#[trigger] dedup(s)[j]),
        forall|i: int|
            0 <= i < dedup(s).len() ==> s.filter(with_key(key_of(#[trigger] dedup(s)[i]))).len() > 0
                && dedup(s)[i] == s.filter(with_key(key_of(dedup(s)[i])))[0],
        forall|k: int| #[trigger] key_in(s, k) ==> key_in(dedup(s), k),
        s.len() > 0 ==> dedup(s).len() > 0 && key_of(dedup(s).last()) == key_of(s.last()),
    decreases s.len(),
{
    if s.len() > 0 {
        let init = s.drop_last();
        let x = s.last();
        assert(s == init.push(x));
        assert(sorted_by_time(init));
        assert(time_fixes_command(init)) by {
            assert forall|i: int, j: int|
                0 <= i < init.len() && 0 <= j < init.len() && key_of(init[i]) == key_of(init[j]) implies (#[trigger] init[i]).command
                == (#[trigger] init[j]).command by {
                assert(init[i] == s[i] && init[j] == s[j]);
            }
        }
        lemma_dedup_shape(init);
        let p = dedup(init);
        assert forall|k: int| true implies #[trigger] s.filter(with_key(k)) == (if key_of(x) == k {
            init.filter(with_key(k)).push(x)
        } else {
            init.filter(with_key(k))
        }) by {
            lemma_filter_push(init, x, k);
        }
        if init.len() > 0 {
            let kl = key_of(p.last());
            assert(kl == key_of(init.last()));
            assert(init.filter(with_key(kl)).len() > 0);
            lemma_filter_member(init, kl);
            let w = choose|w: int|
                0 <= w < init.len() && init[w] == init.filter(with_key(kl))[0] && key_of(init[w]) == kl;
            assert(p[p.len() - 1] == p.last());
            assert(p.last() == init[w]);
            assert(key_of(init[w]) <= key_of(x)) by {
                assert(s[w] == init[w]);
                assert(s[s.len() - 1] == x);
            }
            if key_of(init[w]) == key_of(x) {
                assert(s[w] == init[w]);
                assert(s[s.len() - 1] == x);
                assert(s[w].command == s[s.len() - 1].command);
                assert(duplicates(p.last(), x));
            }
        }
        if p.len() > 0 && duplicates(p.last(), x) {
            assert(dedup(s) == p);
            assert forall|i: int| 0 <= i < p.len() implies s.filter(with_key(key_of(#[trigger] p[i]))).len() > 0
                && p[i] == s.filter(with_key(key_of(p[i])))[0] by {
                let k = key_of(p[i]);
                assert(init.filter(with_key(k)).len() > 0);
                if key_of(x) == k {
                    assert(init.filter(with_key(k)).push(x)[0] == init.filter(with_key(k))[0]);
                }
            }
            assert forall|k: int| #[trigger] key_in(s, k) implies key_in(p, k) by {
                if key_of(x) == k {
                    assert(key_of(p[p.len() - 1]) == k);
                } else {
                    let i = choose|i: int| 0 <= i < s.len() && key_of(s[i]) == k;
                    assert(init[i] == s[i]);
                    assert(key_in(init, k));
                }
            }
        } else {
            let d = p.push(x);
            assert(dedup(s) == d);
            assert forall|j: int| 0 <= j < init.len() implies key_of(#[trigger] init[j]) < key_of(x) by {
                assert(s[j] == init[j]);
                assert(s[s.len() - 1] == x);
                assert(key_of(init[j]) <= key_of(init.last())) by {
                    assert(s[init.len() - 1] == init.last());
                }
            }
            lemma_filter_none(init, key_of(x));
            assert forall|i: int, j: int| 0 <= i < j < d.len() implies key_of(#[trigger] d[i]) < key_of(#[trigger] d[j]) by {
                if j == d.len() - 1 {
                    assert(d[i] == p[i]);
                    let k = key_of(p[i]);
                    lemma_filter_member(init, k);
                }
            }
            assert forall|i: int| 0 <= i < d.len() implies s.filter(with_key(key_of(#[trigger] d[i]))).len() > 0
                && d[i] == s.filter(with_key(key_of(d[i])))[0] by {
                if i < p.len() {
                    assert(d[i] == p[i]);
                    let k = key_of(p[i]);
                    lemma_filter_member(init, k);
                    assert(k != key_of(x));
                } else {
                    assert(d[i] == x);
                    assert(s.filter(with_key(key_of(x))) == Seq::<Record>::empty().push(x));
                }
            }
            assert forall|k: int| #[trigger] key_in(s, k) implies key_in(d, k) by {
                if key_of(x) == k {
                    assert(key_of(d[d.len() - 1]) == k);
                } else {
                    let i = choose|i: int| 0 <= i < s.len() && key_of(s[i]) == k;
                    assert(init[i] == s[i]);
                    assert(key_in(init, k));
                    let m = choose|m: int| 0 <= m < p.len() && key_of(p[m]) == k;
                    assert(d[m] == p[m]);
                }
            }
        }
    }
}

proof fn lemma_sort_keeps_time_fixes_command(a: Seq<Record>, s: Seq<Record>)
    requires
        stable_time_sort(a, s),
        time_fixes_command(a),
    ensures
        time_fixes_command(s),
{
    assert forall|i: int, j: int|
        0 <= i < s.len() && 0 <= j < s.len() && key_of(s[i]) == key_of(s[j]) implies (#[trigger] s[i]).command
        == (#[trigger] s[j]).command by {
        let f = with_key(key_of(s[i]));
        s.lemma_filter_contains(f, i);
        s.lemma_filter_contains(f, j);
        a.lemma_filter_contains_rev(f, s[i]);
        a.lemma_filter_contains_rev(f, s[j]);
        let p = choose|p: int| 0 <= p < a.len() && a[p] == s[i];
        let q = choose|q: int| 0 <= q < a.len() && a[q] == s[j];
    }
}

/// Two sequences in strictly increasing time, each holding the other's
/// records, are the same sequence.
proof fn lemma_unique_by_time(r1: Seq<Record>, r2: Seq<Record>)
    requires
        forall|i: int, j: int| 0 <= i < j < r1.len() ==> key_of(#[trigger] r1[i]) < key_of(#[trigger] r1[j]),
        forall|i: int, j: int| 0 <= i < j < r2.len() ==> key_of(#[trigger] r2[i]) < key_of(#[trigger] r2[j]),
        forall|i: int| 0 <= i < r1.len() ==> r2.contains(#[trigger] r1[i]),
        forall|i: int| 0 <= i < r2.len() ==> r1.contains(#[trigger] r2[i]),
    ensures
        r1 == r2,
    decreases r1.len(),
{
    if r1.len() == 0 {
        if r2.len() > 0 {
            assert(r1.contains(r2[0]));
        }
        assert(r1 =~= r2);
    } else {
        assert(r2.contains(r1[0]));
        assert(r1.contains(r2[0]));
        let q = choose|q: int| 0 <= q < r2.len() && r2[q] == r1[0];
        let p = choose|p: int| 0 <= p < r1.len() && r1[p] == r2[0];
        if q > 0 {
            assert(key_of(r2[0]) < key_of(r2[q]));
            if p > 0 {
                assert(key_of(r1[0]) < key_of(r1[p]));
            }
        }
        let t1 = r1.drop_first();
        let t2 = r2.drop_first();
        assert forall|i: int| 0 <= i < t1.len() implies t2.contains(#[trigger] t1[i]) by {
            assert(t1[i] == r1[i + 1]);
            assert(key_of(r1[0]) < key_of(r1[i + 1]));
            assert(r2.contains(r1[i + 1]));
            let j = choose|j: int| 0 <= j < r2.len() && r2[j] == r1[i + 1];
            assert(j != 0);
            assert(t2[j - 1] == r2[j]);
        }
        assert forall|i: int| 0 <= i < t2.len() implies t1.contains(#[trigger] t2[i]) by {
            assert(t2[i] == r2[i + 1]);
            assert(key_of(r2[0]) < key_of(r2[i + 1]));
            assert(r1.contains(r2[i + 1]));
            let j = choose|j: int| 0 <= j < r1.len() && r1[j] == r2[i + 1];
            assert(j != 0);
            assert(t1[j - 1] == r1[j]);
        }
        assert forall|i: int, j: int| 0 <= i < j < t1.len() implies key_of(#[trigger] t1[i]) < key_of(#[trigger] t1[j]) by {
            assert(t1[i] == r1[i + 1] && t1[j] == r1[j + 1]);
        }
        assert forall|i: int, j: int| 0 <= i < j < t2.len() implies key_of(#[trigger] t2[i]) < key_of(#[trigger] t2[j]) by {
            assert(t2[i] == r2[i + 1] && t2[j] == r2[j + 1]);
        }
        lemma_unique_by_time(t1, t2);
        assert(r1 =~= seq![r1[0]] + t1);
        assert(r2 =~= seq![r2[0]] + t2);
    }
}

/// Normalizing a list concatenated with itself gives what normalizing the
/// list gives, wherever records of the same time in it share their command.
pub proof fn normalizing_doubled_list_changes_nothing(l: Seq<Record>, r1: Seq<Record>, r2: Seq<Record>)
    requires
        time_fixes_command(l),
        normalized(l, r1),
        normalized(l + l, r2),
    ensures
        r1 == r2,
{
    let s1 = choose|s: Seq<Record>| stable_time_sort(l, s) && r1 == dedup(s);
    let s2 = choose|s: Seq<Record>| stable_time_sort(l + l, s) && r2 == dedup(s);
    let ll = l + l;
    assert(time_fixes_command(ll)) by {
        assert forall|i: int, j: int|
            0 <= i < ll.len() && 0 <= j < ll.len() && key_of(ll[i]) == key_of(ll[j]) implies (#[trigger] ll[i]).command
            == (#[trigger] ll[j]).command by {
            let a = if i < l.len() { i } else { i - l.len() };
            let b = if j < l.len() { j } else { j - l.len() };
            assert(ll[i] == l[a] && ll[j] == l[b]);
        }
    }
    lemma_sort_keeps_time_fixes_command(l, s1);
    lemma_sort_keeps_time_fixes_command(ll, s2);
    lemma_dedup_shape(s1);
    lemma_dedup_shape(s2);
    assert forall|k: int| #[trigger] ll.filter(with_key(k)) == l.filter(with_key(k)) + l.filter(with_key(k)) by {
        Seq::filter_distributes_over_add(l, l, with_key(k));
    }
    assert forall|k: int| l.filter(with_key(k)).len() > 0 implies #[trigger] ll.filter(with_key(k))[0] == l.filter(with_key(k))[0] by {
        assert(ll.filter(with_key(k)) == l.filter(with_key(k)) + l.filter(with_key(k)));
    }
    assert forall|i: int| 0 <= i < r1.len() implies r2.contains(#[trigger] r1[i]) by {
        let k = key_of(r1[i]);
        assert(s1.filter(with_key(k)).len() > 0);
        lemma_key_in_filter(s1, k);
        lemma_key_in_filter(s2, k);
        assert(s2.filter(with_key(k)) == ll.filter(with_key(k)));
        assert(key_in(s2, k));
        let j = choose|j: int| 0 <= j < r2.len() && key_of(r2[j]) == k;
        assert(r2[j] == s2.filter(with_key(k))[0]);
    }
    assert forall|i: int| 0 <= i < r2.len() implies r1.contains(#[trigger] r2[i]) by {
        let k = key_of(r2[i]);
        assert(s2.filter(with_key(k)).len() > 0);
        assert(l.filter(with_key(k)).len() > 0);
        lemma_key_in_filter(s1, k);
        assert(key_in(s1, k));
        let j = choose|j: int| 0 <= j < r1.len() && key_of(r1[j]) == k;
        assert(r1[j] == s1.filter(with_key(k))[0]);
    }
    lemma_unique_by_time(r1, r2);
}

/// No record of `d` duplicates the one before it.
pub open spec fn no_adjacent_duplicates(d: Seq<Record>) -> bool {
    forall|i: int| 0 <= i < d.len() - 1 ==> !duplicates(#[trigger] d[i], d[i + 1])
}

proof fn lemma_dedup_sorted(s: Seq<Record>)
    requires
        sorted_by_time(s),
    ensures
        sorted_by_time(dedup(s)),
        no_adjacent_duplicates(dedup(s)),
        forall|i: int| 0 <= i < dedup(s).len() ==> s.contains(#[trigger] dedup(s)[i]),
    decreases s.len(),
{
    if s.len() > 0 {
        let init = s.drop_last();
        let x = s.last();
        assert(sorted_by_time(init));
        lemma_dedup_sorted(init);
        let p = dedup(init);
        assert forall|i: int| 0 <= i < p.len() implies s.contains(#[trigger] p[i]) by {
            let w = choose|w: int| 0 <= w < init.len() && init[w] == p[i];
            assert(s[w] == init[w]);
        }
        assert forall|i: int| 0 <= i < p.len() implies key_of(#[trigger] p[i]) <= key_of(x) by {
            let w = choose|w: int| 0 <= w < init.len() && init[w] == p[i];
            assert(s[w] == init[w]);
            assert(s[s.len() - 1] == x);
        }
        if !(p.len() > 0 && duplicates(p.last(), x)) {
            let d = p.push(x);
            assert(dedup(s) == d);
            assert(s.contains(x)) by {
                assert(s[s.len() - 1] == x);
            }
            assert forall|i: int, j: int| 0 <= i < j < d.len() implies key_of(d[i]) <= key_of(d[j]) by {
                if j == d.len() - 1 {
                    assert(d[i] == p[i]);
                }
            }
            assert forall|i: int| 0 <= i < d.len() - 1 implies !duplicates(#[trigger] d[i], d[i + 1]) by {
                if i == d.len() - 2 {
                    assert(d[i] == p.last());
                }
            }
        }
    }
}

proof fn lemma_dedup_keeps_distinct(d: Seq<Record>)
    requires
        no_adjacent_duplicates(d),
    ensures
        dedup(d) == d,
    decreases d.len(),
{
    if d.len() > 0 {
        let init = d.drop_last();
        assert forall|i: int| 0 <= i < init.len() - 1 implies !duplicates(#[trigger] init[i], init[i + 1]) by {
            assert(init[i] == d[i] && init[i + 1] == d[i + 1]);
        }
        lemma_dedup_keeps_distinct(init);
        if init.len() > 0 {
            assert(init.last() == d[d.len() - 2]);
        }
        assert(d == init.push(d.last()));
    }
}

/// A sorted sequence is its own stable sort.
proof fn lemma_sorted_sort_unique(a: Seq<Record>, s: Seq<Record>)
    requires
        sorted_by_time(a),
        stable_time_sort(a, s),
    ensures
        s == a,
    decreases a.len(),
{
    reveal(Seq::filter);
    if a.len() == 0 {
        if s.len() > 0 {
            let k = key_of(s[0]);
            lemma_key_in_filter(s, k);
            lemma_key_in_filter(a, k);
        }
        assert(s =~= a);
    } else {
        let kk = key_of(a.last());
        lemma_key_in_filter(a, kk);
        assert(key_of(a[a.len() - 1]) == kk);
        lemma_key_in_filter(s, kk);
        assert(s.len() > 0);
        let ks = key_of(s.last());
        lemma_key_in_filter(s, ks);
        assert(key_of(s[s.len() - 1]) == ks);
        lemma_key_in_filter(a, ks);
        let w = choose|w: int| 0 <= w < a.len() && key_of(a[w]) == ks;
        let v = choose|v: int| 0 <= v < s.len() && key_of(s[v]) == kk;
        assert(ks <= kk);
        assert(kk <= ks);
        let ai = a.drop_last();
        let si = s.drop_last();
        assert(a == ai.push(a.last()));
        assert(s == si.push(s.last()));
        lemma_filter_push(ai, a.last(), kk);
        lemma_filter_push(si, s.last(), kk);
        assert(s.last() == s.filter(with_key(kk)).last());
        assert(a.last() == a.filter(with_key(kk)).last());
        assert forall|k: int| #[trigger] si.filter(with_key(k)) == ai.filter(with_key(k)) by {
            lemma_filter_push(ai, a.last(), k);
            lemma_filter_push(si, s.last(), k);
            if k == kk {
                assert(si.filter(with_key(k)) == s.filter(with_key(k)).drop_last());
                assert(ai.filter(with_key(k)) == a.filter(with_key(k)).drop_last());
            }
        }
        assert(sorted_by_time(ai));
        assert(sorted_by_time(si));
        lemma_sorted_sort_unique(ai, si);
    }
}

/// Normalizing a normalized list changes nothing.
pub proof fn normalizing_is_idempotent(l: Seq<Record>, r1: Seq<Record>, r2: Seq<Record>)
    requires
        normalized(l, r1),
        normalized(r1, r2),
    ensures
        r1 == r2,
{
    let s1 = choose|s: Seq<Record>| stable_time_sort(l, s) && r1 == dedup(s);
    let s2 = choose|s: Seq<Record>| stable_time_sort(r1, s) && r2 == dedup(s);
    lemma_dedup_sorted(s1);
    lemma_sorted_sort_unique(r1, s2);
    lemma_dedup_keeps_distinct(r1);
}

/// A normalized stream is sorted by time, untimed records first, and no
/// record of it repeats the time and command of the one before.
pub proof fn normalized_stream_is_sorted_and_collapsed(a: Seq<Record>, r: Seq<Record>)
    requires
        normalized(a, r),
    ensures
        sorted_by_time(r),
        no_adjacent_duplicates(r),
{
    let s = choose|s: Seq<Record>| stable_time_sort(a, s) && r == dedup(s);
    lemma_dedup_sorted(s);
}

} // verus!
