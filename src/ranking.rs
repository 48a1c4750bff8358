//! Counting keys and ranking them by count, ties going to the key seen first.
use vstd::prelude::*;
use crate::models::texts;

verus! {

/// How many times `k` occurs in `keys`.
pub open spec fn occurrences(keys: Seq<Seq<char>>, k: Seq<char>) -> nat
    decreases keys.len(),
{
    if keys.len() == 0 {
        0
    } else {
        occurrences(keys.drop_last(), k) + (if keys.last() == k {
            1nat
        } else {
            0nat
        })
    }
}

/// The position of the first occurrence of `k` in `keys`.
pub open spec fn first_seen(keys: Seq<Seq<char>>, k: Seq<char>) -> int
    decreases keys.len(),
{
    if keys.len() == 0 || keys[0] == k {
        0
    } else {
        1 + first_seen(keys.drop_first(), k)
    }
}

/// `a` ranks before `b` among `keys`: it occurs more often, or as often and
/// first.
pub open spec fn outranks(keys: Seq<Seq<char>>, a: Seq<char>, b: Seq<char>) -> bool {
    occurrences(keys, a) > occurrences(keys, b) || (occurrences(keys, a) == occurrences(keys, b)
        && first_seen(keys, a) < first_seen(keys, b))
}

/// `r` lists each distinct key of `keys` once with its count, from the most
/// frequent down, keys of equal count in the order they first occur.
pub open spec fn ranked_by(keys: Seq<Seq<char>>, r: Seq<(Seq<char>, nat)>) -> bool {
    &&& forall|i: int|
        0 <= i < r.len() ==> keys.contains(#[trigger] r[i].0) && r[i].1 == occurrences(
            keys,
            r[i].0,
        )
    &&& forall|k: Seq<char>| #[trigger] keys.contains(k) ==> exists|i: int| 0 <= i < r.len() && r[i].0 == k
    &&& forall|i: int, j: int| 0 <= i < j < r.len() ==> outranks(keys, r[i].0, r[j].0)
}

pub open spec fn pairs_view(r: Seq<(String, usize)>) -> Seq<(Seq<char>, nat)> {
    r.map_values(|p: (String, usize)| (p.0@, p.1 as nat))
}

proof fn lemma_first_seen_push(ks: Seq<Seq<char>>, x: Seq<char>, k: Seq<char>)
    ensures
        ks.contains(k) ==> first_seen(ks.push(x), k) == first_seen(ks, k) && 0 <= first_seen(ks, k)
            < ks.len(),
        (!ks.contains(k) && x == k) ==> first_seen(ks.push(x), k) == ks.len(),
    decreases ks.len(),
{
    if ks.len() > 0 {
        assert(ks.push(x).drop_first() == ks.drop_first().push(x));
        if ks[0] != k {
            if ks.contains(k) {
                let w = choose|w: int| 0 <= w < ks.len() && ks[w] == k;
                assert(ks.drop_first()[w - 1] == k);
            }
            if !ks.contains(k) {
                assert forall|w: int| 0 <= w < ks.drop_first().len() implies ks.drop_first()[w] != k by {
                    assert(ks[w + 1] == ks.drop_first()[w]);
                }
            }
            lemma_first_seen_push(ks.drop_first(), x, k);
        }
    } else {
        assert(ks.push(x)[0] == x);
    }
}

proof fn lemma_occurrences_absent(ks: Seq<Seq<char>>, k: Seq<char>)
    requires
        !ks.contains(k),
    ensures
        occurrences(ks, k) == 0,
    decreases ks.len(),
{
    if ks.len() > 0 {
        assert(ks.last() == ks[ks.len() - 1]);
        assert forall|w: int| 0 <= w < ks.drop_last().len() implies ks.drop_last()[w] != k by {
            assert(ks[w] == ks.drop_last()[w]);
        }
        lemma_occurrences_absent(ks.drop_last(), k);
    }
}

/// The distinct keys of `keys` in order of first occurrence, with their counts.
fn tally(keys: &Vec<String>) -> (r: (Vec<String>, Vec<usize>))
    ensures
        r.0@.len() == r.1@.len(),
        forall|j: int|
            0 <= j < r.0@.len() ==> texts(keys@).contains(#[trigger] r.0@[j]@) && r.1@[j]
                == occurrences(texts(keys@), r.0@[j]@),
        forall|k: Seq<char>|
            #[trigger] texts(keys@).contains(k) ==> exists|j: int| 0 <= j < r.0@.len() && r.0@[j]@ == k,
        forall|a: int, b: int|
            0 <= a < b < r.0@.len() ==> first_seen(texts(keys@), r.0@[a]@) < first_seen(
                texts(keys@),
                r.0@[b]@,
            ),
{
    let ghost all = texts(keys@);
    let mut dk: Vec<String> = Vec::new();
    let mut dc: Vec<usize> = Vec::new();
    let mut i: usize = 0;
    while i < keys.len()
        invariant
            i <= keys@.len(),
            all == texts(keys@),
            dk@.len() == dc@.len(),
            forall|j: int|
                0 <= j < dk@.len() ==> all.take(i as int).contains(#[trigger] dk@[j]@) && dc@[j]
                    == occurrences(all.take(i as int), dk@[j]@) && dc@[j] <= i,
            forall|k: Seq<char>|
                #[trigger] all.take(i as int).contains(k) ==> exists|j: int|
                    0 <= j < dk@.len() && dk@[j]@ == k,
            forall|a: int, b: int|
                0 <= a < b < dk@.len() ==> first_seen(all.take(i as int), dk@[a]@) < first_seen(
                    all.take(i as int),
                    dk@[b]@,
                ),
        decreases keys.len() - i,
    {
        let ghost ks = all.take(i as int);
        let ghost ks2 = all.take(i + 1);
        let ghost x = keys@[i as int]@;
        assert(ks2 == ks.push(x));
        let mut j: usize = 0;
        while j < dk.len() && dk[j] != keys[i]
            invariant
                j <= dk@.len(),
                forall|m: int| 0 <= m < j ==> dk@[m]@ != x,
                i < keys@.len(),
                x == keys@[i as int]@,
            decreases dk.len() - j,
        {
            j = j + 1;
        }
        proof {
            assert forall|k: Seq<char>| ks.contains(k) implies first_seen(ks2, k) == first_seen(ks, k)
                && 0 <= first_seen(ks, k) < ks.len() by {
                lemma_first_seen_push(ks, x, k);
            }
            assert forall|k: Seq<char>| #[trigger] occurrences(ks2, k) == occurrences(ks, k) + (if x
                == k {
                1nat
            } else {
                0nat
            }) by {
                assert(ks2.drop_last() == ks);
            }
            assert forall|k: Seq<char>| #[trigger] ks2.contains(k) implies ks.contains(k) || k == x by {
                let w = choose|w: int| 0 <= w < ks2.len() && ks2[w] == k;
                if w < ks.len() {
                    assert(ks[w] == k);
                }
            }
            assert forall|k: Seq<char>| ks.contains(k) implies #[trigger] ks2.contains(k) by {
                let w = choose|w: int| 0 <= w < ks.len() && ks[w] == k;
                assert(ks2[w] == k);
            }
            assert(ks2[i as int] == x);
            assert(ks2.contains(x));
        }
        let ghost old_dk = dk@;
        let ghost old_dc = dc@;
        if j < dk.len() {
            assert(dk@[j as int]@ == x);
            proof {
                assert forall|m: int| 0 <= m < dk@.len() && m != j implies dk@[m]@ != x by {
                    if dk@[m]@ == x {
                        if m < j {
                            assert(first_seen(ks, dk@[m]@) < first_seen(ks, dk@[j as int]@));
                        } else {
                            assert(first_seen(ks, dk@[j as int]@) < first_seen(ks, dk@[m]@));
                        }
                    }
                }
            }
            let c = dc[j] + 1;
            dc.set(j, c);
            assert forall|k: Seq<char>| #[trigger] ks2.contains(k) implies exists|m: int|
                0 <= m < dk@.len() && dk@[m]@ == k by {
                if k == x {
                    assert(dk@[j as int]@ == k);
                }
            }
        } else {
            proof {
                assert(!ks.contains(x));
                lemma_first_seen_push(ks, x, x);
            }
            dk.push(keys[i].clone());
            dc.push(1);
            assert(dk@[old_dk.len() as int]@ == x);
            assert forall|k: Seq<char>| #[trigger] ks2.contains(k) implies exists|m: int|
                0 <= m < dk@.len() && dk@[m]@ == k by {
                if k == x {
                    assert(dk@[old_dk.len() as int]@ == k);
                } else {
                    assert(ks.contains(k));
                    let m = choose|m: int| 0 <= m < old_dk.len() && old_dk[m]@ == k;
                    assert(dk@[m]@ == k);
                }
            }
        }
        proof {
            if j == old_dk.len() {
                lemma_occurrences_absent(ks, x);
            }
            assert forall|m: int| 0 <= m < dk@.len() implies ks2.contains(#[trigger] dk@[m]@)
                && dc@[m] == occurrences(ks2, dk@[m]@) && dc@[m] <= i + 1 by {
                if m < old_dk.len() {
                    assert(dk@[m] == old_dk[m]);
                    assert(ks.contains(old_dk[m]@));
                    assert(occurrences(ks2, dk@[m]@) == occurrences(ks, dk@[m]@) + (if x == dk@[m]@ {
                        1nat
                    } else {
                        0nat
                    }));
                } else {
                    assert(occurrences(ks2, x) == occurrences(ks, x) + 1);
                }
            }
        }
        i = i + 1;
    }
    assert(all.take(keys@.len() as int) == all);
    (dk, dc)
}

/// Index `a` comes before index `b`: a larger count, or an equal count and
/// an earlier index.
pub open spec fn beats(dc: Seq<usize>, a: int, b: int) -> bool {
    dc[a] > dc[b] || (dc[a] == dc[b] && a < b)
}

/// `t` stands somewhere in `ord`.
pub open spec fn lists(ord: Seq<usize>, t: int) -> bool {
    exists|p: int| 0 <= p < ord.len() && ord[p] == t
}

/// The indices of `dc`, from the largest count down, equal counts by index.
fn order_by_count(dc: &Vec<usize>) -> (ord: Vec<usize>)
    ensures
        ord@.len() == dc@.len(),
        forall|p: int| 0 <= p < ord@.len() ==> ord@[p] < dc@.len(),
        forall|t: int| 0 <= t < dc@.len() ==> #[trigger] lists(ord@, t),
        forall|p: int, q: int|
            0 <= p < q < ord@.len() ==> beats(dc@, ord@[p] as int, ord@[q] as int),
{
    let mut ord: Vec<usize> = Vec::new();
    let mut j: usize = 0;
    while j < dc.len()
        invariant
            j <= dc@.len(),
            ord@.len() == j,
            forall|p: int| 0 <= p < ord@.len() ==> ord@[p] < j,
            forall|t: int| 0 <= t < j ==> #[trigger] lists(ord@, t),
            forall|p: int, q: int|
                0 <= p < q < ord@.len() ==> beats(dc@, ord@[p] as int, ord@[q] as int),
        decreases dc.len() - j,
    {
        let mut p: usize = ord.len();
        while p > 0 && dc[ord[p - 1]] < dc[j]
            invariant
                p <= ord@.len(),
                j < dc@.len(),
                forall|m: int| 0 <= m < ord@.len() ==> ord@[m] < j,
                forall|q: int| p <= q < ord@.len() ==> dc@[#[trigger] ord@[q] as int] < dc@[j as int],
            decreases p,
        {
            p = p - 1;
        }
        let ghost old_ord = ord@;
        ord.insert(p, j);
        assert(ord@ == old_ord.insert(p as int, j));
        proof {
            assert forall|q: int| 0 <= q < p implies dc@[old_ord[q] as int] >= dc@[j as int] by {
                if q < p - 1 {
                    assert(beats(dc@, old_ord[q] as int, old_ord[p - 1] as int));
                }
            }
            assert forall|t: int| 0 <= t < j + 1 implies #[trigger] lists(ord@, t) by {
                if t == j {
                    assert(ord@[p as int] == t);
                } else {
                    assert(lists(old_ord, t));
                    let m = choose|m: int| 0 <= m < old_ord.len() && old_ord[m] == t;
                    if m < p {
                        assert(ord@[m] == t);
                    } else {
                        assert(ord@[m + 1] == t);
                    }
                }
            }
        }
        j = j + 1;
    }
    ord
}

/// Each distinct key of `keys` with its count, from the most frequent down;
/// keys of equal count in the order they first occur.
pub fn rank_counts(keys: &Vec<String>) -> (r: Vec<(String, usize)>)
    ensures
        ranked_by(texts(keys@), pairs_view(r@)),
{
    let ghost all = texts(keys@);
    let (dk, dc) = tally(keys);
    let ord = order_by_count(&dc);
    let mut out: Vec<(String, usize)> = Vec::new();
    let mut p: usize = 0;
    while p < ord.len()
        invariant
            p <= ord@.len(),
            out@.len() == p,
            dk@.len() == dc@.len(),
            forall|q: int| 0 <= q < ord@.len() ==> ord@[q] < dc@.len(),
            forall|q: int|
                0 <= q < p ==> (#[trigger] out@[q]).0@ == dk@[ord@[q] as int]@ && out@[q].1
                    == dc@[ord@[q] as int],
        decreases ord.len() - p,
    {
        let t = ord[p];
        out.push((dk[t].clone(), dc[t]));
        p = p + 1;
    }
    let ghost pv = pairs_view(out@);
    assert forall|i: int| 0 <= i < pv.len() implies all.contains(#[trigger] pv[i].0) && pv[i].1
        == occurrences(all, pv[i].0) by {
        assert(pv[i] == (out@[i].0@, out@[i].1 as nat));
    }
    assert forall|k: Seq<char>| #[trigger] all.contains(k) implies exists|i: int|
        0 <= i < pv.len() && pv[i].0 == k by {
        let t = choose|t: int| 0 <= t < dk@.len() && dk@[t]@ == k;
        assert(lists(ord@, t));
        let i = choose|i: int| 0 <= i < ord@.len() && ord@[i] == t;
        assert(pv[i] == (out@[i].0@, out@[i].1 as nat));
    }
    assert forall|i: int, j: int| 0 <= i < j < pv.len() implies outranks(all, pv[i].0, pv[j].0) by {
        assert(pv[i] == (out@[i].0@, out@[i].1 as nat));
        assert(pv[j] == (out@[j].0@, out@[j].1 as nat));
        assert(beats(dc@, ord@[i] as int, ord@[j] as int));
    }
    out
}

proof fn lemma_contains_iff_occurs(ks: Seq<Seq<char>>, k: Seq<char>)
    ensures
        ks.contains(k) <==> occurrences(ks, k) > 0,
    decreases ks.len(),
{
    if ks.len() > 0 {
        lemma_contains_iff_occurs(ks.drop_last(), k);
        if ks.contains(k) && ks.last() != k {
            let w = choose|w: int| 0 <= w < ks.len() && ks[w] == k;
            assert(ks.drop_last()[w] == k);
        }
        if ks.drop_last().contains(k) {
            let w = choose|w: int| 0 <= w < ks.drop_last().len() && ks.drop_last()[w] == k;
            assert(ks[w] == k);
        }
        if ks.last() == k {
            assert(ks[ks.len() - 1] == k);
        }
    } else {
        assert(!ks.contains(k));
    }
}

/// Some entry of `r` has key `k`.
pub open spec fn has_key(r: Seq<(Seq<char>, nat)>, k: Seq<char>) -> bool {
    exists|j: int| 0 <= j < r.len() && r[j].0 == k
}

/// `r` is ordered strictly by `outranks`, with the counts of `keys`.
pub open spec fn strictly_ranked(keys: Seq<Seq<char>>, r: Seq<(Seq<char>, nat)>) -> bool {
    &&& forall|i: int, j: int| 0 <= i < j < r.len() ==> outranks(keys, #[trigger] r[i].0, #[trigger] r[j].0)
    &&& forall|i: int| 0 <= i < r.len() ==> (#[trigger] r[i]).1 == occurrences(keys, r[i].0)
}

proof fn lemma_tail_ranked(keys: Seq<Seq<char>>, r: Seq<(Seq<char>, nat)>)
    requires
        strictly_ranked(keys, r),
        r.len() > 0,
    ensures
        strictly_ranked(keys, r.drop_first()),
        forall|i: int| 0 <= i < r.drop_first().len() ==> #[trigger] r.drop_first()[i] == r[i + 1],
{
    let t = r.drop_first();
    assert forall|i: int, j: int| 0 <= i < j < t.len() implies outranks(keys, #[trigger] t[i].0, #[trigger] t[j].0) by {
        assert(t[i] == r[i + 1] && t[j] == r[j + 1]);
        assert(outranks(keys, r[i + 1].0, r[j + 1].0));
    }
    assert forall|i: int| 0 <= i < t.len() implies (#[trigger] t[i]).1 == occurrences(keys, t[i].0) by {
        assert(t[i] == r[i + 1]);
    }
}

/// Two sequences each ordered strictly by `outranks`, each holding the other's
/// keys, with the counts of `keys`, are the same sequence.
proof fn lemma_ranking_unique(keys: Seq<Seq<char>>, r1: Seq<(Seq<char>, nat)>, r2: Seq<(Seq<char>, nat)>)
    requires
        strictly_ranked(keys, r1),
        strictly_ranked(keys, r2),
        forall|i: int| 0 <= i < r1.len() ==> has_key(r2, (#[trigger] r1[i]).0),
        forall|i: int| 0 <= i < r2.len() ==> has_key(r1, (#[trigger] r2[i]).0),
    ensures
        r1 == r2,
    decreases r1.len(),
{
    if r1.len() == 0 {
        if r2.len() > 0 {
            assert(has_key(r1, r2[0].0));
        }
        assert(r1 =~= r2);
    } else {
        assert(has_key(r2, r1[0].0));
        let q = choose|j: int| 0 <= j < r2.len() && r2[j].0 == r1[0].0;
        assert(has_key(r1, r2[0].0));
        let p = choose|j: int| 0 <= j < r1.len() && r1[j].0 == r2[0].0;
        if q > 0 {
            assert(outranks(keys, r2[0].0, r2[q].0));
            if p > 0 {
                assert(outranks(keys, r1[0].0, r1[p].0));
            }
        }
        assert(r1[0].0 == r2[0].0);
        assert(r1[0] == r2[0]);
        let t1 = r1.drop_first();
        let t2 = r2.drop_first();
        lemma_tail_ranked(keys, r1);
        lemma_tail_ranked(keys, r2);
        assert forall|i: int| 0 <= i < t1.len() implies has_key(t2, (#[trigger] t1[i]).0) by {
            assert(t1[i] == r1[i + 1]);
            assert(outranks(keys, r1[0].0, r1[i + 1].0));
            assert(has_key(r2, r1[i + 1].0));
            let j = choose|j: int| 0 <= j < r2.len() && r2[j].0 == r1[i + 1].0;
            assert(j != 0);
            assert(t2[j - 1] == r2[j]);
        }
        assert forall|i: int| 0 <= i < t2.len() implies has_key(t1, (#[trigger] t2[i]).0) by {
            assert(t2[i] == r2[i + 1]);
            assert(outranks(keys, r2[0].0, r2[i + 1].0));
            assert(has_key(r1, r2[i + 1].0));
            let j = choose|j: int| 0 <= j < r1.len() && r1[j].0 == r2[i + 1].0;
            assert(j != 0);
            assert(t1[j - 1] == r1[j]);
        }
        lemma_ranking_unique(keys, t1, t2);
        assert(r1 =~= seq![r1[0]] + t1);
        assert(r2 =~= seq![r2[0]] + t2);
    }
}

/// In a ranking, keys of equal count stand in the order they first occur.
pub proof fn ranking_ties_keep_first_appearance(
    keys: Seq<Seq<char>>,
    r: Seq<(Seq<char>, nat)>,
    i: int,
    j: int,
)
    requires
        ranked_by(keys, r),
        0 <= i < j < r.len(),
        r[i].1 == r[j].1,
    ensures
        first_seen(keys, r[i].0) < first_seen(keys, r[j].0),
{
    assert(outranks(keys, r[i].0, r[j].0));
}

/// Reordering keys so that each keeps its count and the distinct keys keep
/// the order in which they first occur leaves the first `n` of the ranking
/// unchanged.
pub proof fn top_ignores_reordering(
    k1: Seq<Seq<char>>,
    k2: Seq<Seq<char>>,
    t1: Seq<(Seq<char>, nat)>,
    t2: Seq<(Seq<char>, nat)>,
    n: int,
)
    requires
        forall|k: Seq<char>| #[trigger] occurrences(k1, k) == occurrences(k2, k),
        forall|a: Seq<char>, b: Seq<char>|
            k1.contains(a) && k1.contains(b) ==> (first_seen(k1, a) < first_seen(k1, b) <==> first_seen(
                k2,
                a,
            ) < first_seen(k2, b)),
        crate::analytics::top_of(k1, t1, n),
        crate::analytics::top_of(k2, t2, n),
    ensures
        t1 == t2,
{
    let f1 = choose|f: Seq<(Seq<char>, nat)>|
        ranked_by(k1, f) && t1 == f.take(if n < f.len() {
            n
        } else {
            f.len() as int
        });
    let f2 = choose|f: Seq<(Seq<char>, nat)>|
        ranked_by(k2, f) && t2 == f.take(if n < f.len() {
            n
        } else {
            f.len() as int
        });
    assert forall|k: Seq<char>| k1.contains(k) <==> #[trigger] k2.contains(k) by {
        lemma_contains_iff_occurs(k1, k);
        lemma_contains_iff_occurs(k2, k);
    }
    assert forall|i: int| 0 <= i < f2.len() implies (#[trigger] f2[i]).1 == occurrences(k1, f2[i].0) by {}
    assert forall|i: int, j: int| 0 <= i < j < f2.len() implies outranks(k1, #[trigger] f2[i].0, #[trigger] f2[j].0) by {
        assert(outranks(k2, f2[i].0, f2[j].0));
        assert(k1.contains(f2[i].0) && k1.contains(f2[j].0));
    }
    assert forall|i: int, j: int| 0 <= i < j < f1.len() implies outranks(k1, #[trigger] f1[i].0, #[trigger] f1[j].0) by {
        assert(outranks(k1, f1[i].0, f1[j].0));
    }
    assert forall|i: int| 0 <= i < f1.len() implies has_key(f2, (#[trigger] f1[i]).0) by {
        assert(k2.contains(f1[i].0));
    }
    assert forall|i: int| 0 <= i < f2.len() implies has_key(f1, (#[trigger] f2[i]).0) by {
        assert(k1.contains(f2[i].0));
    }
    lemma_ranking_unique(k1, f1, f2);
}

} // verus!
