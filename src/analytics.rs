//! Dashboard figures computed from a snapshot of every tag.

use vstd::prelude::*;
use crate::calendar::{
    calendar_month, iso_of_instant, month_number, month_of_instant, previous_month,
    rfc3339_text, trailing_month_labels, month_abbrev, month_back,
};
use crate::model::Iman;
use crate::rank::{
    is_ranking, lemma_full_ranking_length, lemma_listing_is_long, lemma_listing_is_short,
    positions_where, rank_desc, ranks_before,
};

verus! {

/// How many of the positions `0..n` satisfy `p`.
pub open spec fn count_where(n: nat, p: spec_fn(int) -> bool) -> nat
    decreases n,
{
    if n == 0 {
        0
    } else {
        count_where((n - 1) as nat, p) + if p(n - 1) {
            1nat
        } else {
            0nat
        }
    }
}

proof fn lemma_count_where_bounded(n: nat, p: spec_fn(int) -> bool)
    ensures
        count_where(n, p) <= n,
    decreases n,
{
    if n > 0 {
        lemma_count_where_bounded((n - 1) as nat, p);
    }
}

/// Position `k` holds an active tag.
pub open spec fn is_active_at(tags: Seq<Iman>) -> spec_fn(int) -> bool {
    |k: int| tags[k].active
}

/// Position `k` holds an active tag whose activation month lies `d` months
/// before `now`.
pub open spec fn activated_months_before(
    tags: Seq<Iman>,
    months: Seq<Option<(i32, u32)>>,
    now: (i32, u32),
    d: int,
) -> spec_fn(int) -> bool {
    |k: int|
        tags[k].active && match months[k] {
            Some(m) => month_number(now) - month_number(m) == d,
            None => false,
        }
}

/// Position `k` holds an active tag activated in the calendar month `ym`.
pub open spec fn activated_in(
    tags: Seq<Iman>,
    months: Seq<Option<(i32, u32)>>,
    ym: (int, int),
) -> spec_fn(int) -> bool {
    |k: int|
        tags[k].active && match months[k] {
            Some(m) => m.0 as int == ym.0 && m.1 as int == ym.1,
            None => false,
        }
}

/// Activation figures by month.
pub struct MonthlyActivity {
    /// Activations per month over the six months that end with the current
    /// one, oldest first.
    pub counts: Vec<usize>,
    /// Activations in the current calendar month.
    pub this_month: usize,
    /// Activations in the previous calendar month.
    pub last_month: usize,
}

/// Number of active tags.
pub fn count_active(tags: &Vec<Iman>) -> (r: usize)
    ensures
        r == count_where(tags@.len(), is_active_at(tags@)),
{
    let mut r: usize = 0;
    let mut i: usize = 0;
    while i < tags.len()
        invariant
            i <= tags.len(),
            r == count_where(i as nat, is_active_at(tags@)),
        decreases tags.len() - i,
    {
        proof {
            lemma_count_where_bounded(i as nat, is_active_at(tags@));
        }
        if tags[i].active {
            r = r + 1;
        }
        i = i + 1;
    }
    r
}

/// Activation figures for the snapshot `tags`, where `months[k]` is the
/// calendar month in which `tags[k]` was activated, if known, and `now` is
/// the current calendar month.
pub fn monthly_activity(
    tags: &Vec<Iman>,
    months: &Vec<Option<(i32, u32)>>,
    now: (i32, u32),
) -> (r: MonthlyActivity)
    requires
        tags.len() == months.len(),
    ensures
        r.counts@.len() == 6,
        forall|b: int|
            0 <= b < 6 ==> r.counts@[b] == count_where(
                tags@.len(),
                activated_months_before(tags@, months@, now, 5 - b),
            ),
        r.this_month == count_where(tags@.len(), activated_in(tags@, months@, (now.0 as int, now.1 as int))),
        r.last_month == count_where(tags@.len(), activated_in(tags@, months@, previous_month(now))),
{
    let n = tags.len();
    let mut counts: Vec<usize> = vec![0, 0, 0, 0, 0, 0];
    let mut this_month: usize = 0;
    let mut last_month: usize = 0;
    let now_number: i64 = now.0 as i64 * 12 + now.1 as i64;
    let (prev_year, prev_month): (i64, i64) = if now.1 == 1 {
        (now.0 as i64 - 1, 12)
    } else {
        (now.0 as i64, now.1 as i64 - 1)
    };
    let mut i: usize = 0;
    while i < n
        invariant
            n == tags.len() == months.len(),
            i <= n,
            now_number == month_number(now),
            (prev_year as int, prev_month as int) == previous_month(now),
            counts@.len() == 6,
            forall|b: int|
                0 <= b < 6 ==> counts@[b] == count_where(
                    i as nat,
                    activated_months_before(tags@, months@, now, 5 - b),
                ),
            this_month == count_where(i as nat, activated_in(tags@, months@, (now.0 as int, now.1 as int))),
            last_month == count_where(i as nat, activated_in(tags@, months@, previous_month(now))),
        decreases n - i,
    {
        proof {
            lemma_count_where_bounded(i as nat, activated_in(tags@, months@, (now.0 as int, now.1 as int)));
            lemma_count_where_bounded(i as nat, activated_in(tags@, months@, previous_month(now)));
            assert forall|b: int| 0 <= b < 6 implies counts@[b] <= i by {
                lemma_count_where_bounded(i as nat, activated_months_before(tags@, months@, now, 5 - b));
            }
        }
        let ghost old_counts = counts@;
        if tags[i].active {
            match months[i] {
                Some(m) => {
                    if m.0 == now.0 && m.1 == now.1 {
                        this_month = this_month + 1;
                    }
                    if m.0 as i64 == prev_year && m.1 as i64 == prev_month {
                        last_month = last_month + 1;
                    }
                    let diff: i64 = now_number - (m.0 as i64 * 12 + m.1 as i64);
                    if 0 <= diff && diff < 6 {
                        let b = (5 - diff) as usize;
                        let c = counts[b];
                        counts.set(b, c + 1);
                    }
                },
                None => {},
            }
        }
        assert forall|b: int|
            0 <= b < 6 implies counts@[b] == count_where(
                (i + 1) as nat,
                activated_months_before(tags@, months@, now, 5 - b),
            ) by {
            assert(old_counts[b] == count_where(
                i as nat,
                activated_months_before(tags@, months@, now, 5 - b),
            ));
        }
        i = i + 1;
    }
    MonthlyActivity { counts, this_month, last_month }
}

proof fn lemma_count_where_none(n: nat, p: spec_fn(int) -> bool)
    requires
        forall|k: int| 0 <= k < n ==> !#[trigger] p(k),
    ensures
        count_where(n, p) == 0,
    decreases n,
{
    if n > 0 {
        lemma_count_where_none((n - 1) as nat, p);
    }
}

/// Visit counts of the snapshot, position by position.
pub open spec fn visit_keys(tags: Seq<Iman>) -> Seq<i64> {
    Seq::new(tags.len(), |k: int| tags[k].visitas as i64)
}

/// Which tags of the snapshot have been visited at least once.
pub open spec fn was_visited(tags: Seq<Iman>) -> Seq<bool> {
    Seq::new(tags.len(), |k: int| tags[k].visitas > 0)
}

/// Position `k` holds a tag visited at least once.
pub open spec fn visited_at(tags: Seq<Iman>) -> spec_fn(int) -> bool {
    |k: int| tags[k].visitas > 0
}

proof fn lemma_count_is_set_size(n: nat, p: spec_fn(int) -> bool)
    ensures
        positions_where(n as int, p).finite(),
        positions_where(n as int, p).len() == count_where(n, p),
    decreases n,
{
    if n == 0 {
        assert(positions_where(0, p) =~= Set::empty());
    } else {
        let m = (n - 1) as nat;
        lemma_count_is_set_size(m, p);
        if p(m as int) {
            assert(positions_where(n as int, p) =~= positions_where(m as int, p).insert(m as int));
        } else {
            assert(positions_where(n as int, p) =~= positions_where(m as int, p));
        }
    }
}

/// The visit ranking lists the visited tags, ten at most and as many as
/// there are up to ten; each has at least the visits of the next, tags of
/// equal visits in snapshot order; no tag left out has more visits than a
/// listed one. Where visit counts differ from tag to tag, the order is
/// strict and every tag left out has fewer visits than every listed one.
pub proof fn law_top_ranking(tags: Seq<Iman>, r: Seq<usize>)
    requires
        tags.len() <= usize::MAX,
        is_ranking(visit_keys(tags), was_visited(tags), TOP_LIMIT as nat, r),
    ensures
        r.len() == if count_where(tags.len(), visited_at(tags)) < TOP_LIMIT {
            count_where(tags.len(), visited_at(tags))
        } else {
            TOP_LIMIT as nat
        },
        forall|a: int| 0 <= a < r.len() ==> r[a] < tags.len() && tags[r[a] as int].visitas > 0,
        forall|a: int, b: int|
            0 <= a < b < r.len() ==> tags[r[a] as int].visitas > tags[r[b] as int].visitas || (
            tags[r[a] as int].visitas == tags[r[b] as int].visitas && r[a] < r[b]),
        forall|a: int, i: int|
            0 <= a < r.len() && 0 <= i < tags.len() && !r.contains(i as usize)
                ==> #[trigger] tags[i].visitas <= tags[#[trigger] r[a] as int].visitas,
        (forall|i: int, j: int|
            0 <= i < j < tags.len() ==> tags[i].visitas != tags[j].visitas) ==> {
            &&& forall|a: int, b: int|
                0 <= a < b < r.len() ==> tags[r[a] as int].visitas > tags[r[b] as int].visitas
            &&& forall|a: int, i: int|
                0 <= a < r.len() && 0 <= i < tags.len() && !r.contains(i as usize)
                    ==> #[trigger] tags[i].visitas < tags[#[trigger] r[a] as int].visitas
        },
{
    let n = tags.len();
    let keys = visit_keys(tags);
    let s = positions_where(n as int, visited_at(tags));
    lemma_count_is_set_size(n, visited_at(tags));
    assert forall|a: int| 0 <= a < r.len() implies r[a] < n && tags[r[a] as int].visitas > 0 by {
        assert(was_visited(tags)[r[a] as int]);
    }
    assert forall|a: int, b: int| 0 <= a < b < r.len() implies tags[r[a] as int].visitas
        > tags[r[b] as int].visitas || (tags[r[a] as int].visitas == tags[r[b] as int].visitas
        && r[a] < r[b]) by {
        assert(ranks_before(keys, r[a] as int, r[b] as int));
        assert(keys[r[a] as int] == tags[r[a] as int].visitas as i64);
        assert(keys[r[b] as int] == tags[r[b] as int].visitas as i64);
    }
    assert forall|a: int, b: int| 0 <= a < b < r.len() implies r[a] != r[b] by {
        assert(ranks_before(keys, r[a] as int, r[b] as int));
    }
    assert forall|a: int| 0 <= a < r.len() implies s.contains(#[trigger] r[a] as int) by {
        assert(was_visited(tags)[r[a] as int]);
    }
    lemma_listing_is_short(r, s);
    if r.len() < TOP_LIMIT {
        assert forall|i: int| #[trigger] s.contains(i) implies 0 <= i <= usize::MAX && r.contains(
            i as usize,
        ) by {
            assert(was_visited(tags)[i]);
        }
        lemma_listing_is_long(r, s);
    }
    assert forall|a: int, i: int|
        0 <= a < r.len() && 0 <= i < n && !r.contains(i as usize) implies #[trigger] tags[i].visitas
        <= tags[#[trigger] r[a] as int].visitas by {
        let last = r.len() - 1;
        if tags[i].visitas > 0 {
            assert(was_visited(tags)[i]);
            assert(ranks_before(keys, r[last] as int, i));
            assert(keys[i] == tags[i].visitas as i64);
            assert(keys[r[last] as int] == tags[r[last] as int].visitas as i64);
            if a < last {
                assert(ranks_before(keys, r[a] as int, r[last] as int));
                assert(keys[r[a] as int] == tags[r[a] as int].visitas as i64);
            }
        }
    }
    if forall|i: int, j: int| 0 <= i < j < n ==> tags[i].visitas != tags[j].visitas {
        assert forall|a: int, b: int| 0 <= a < b < r.len() implies tags[r[a] as int].visitas
            > tags[r[b] as int].visitas by {
            assert(r[a] != r[b]);
            if r[a] < r[b] {
                assert(tags[r[a] as int].visitas != tags[r[b] as int].visitas);
            } else {
                assert(tags[r[b] as int].visitas != tags[r[a] as int].visitas);
            }
        }
        assert forall|a: int, i: int|
            0 <= a < r.len() && 0 <= i < n && !r.contains(i as usize) implies #[trigger] tags[i].visitas
            < tags[#[trigger] r[a] as int].visitas by {
            assert(tags[i].visitas <= tags[r[a] as int].visitas);
            assert(i != r[a] as int) by {
                assert(r[a] == (i as usize) ==> r.contains(i as usize));
            }
            if i < r[a] as int {
                assert(tags[i].visitas != tags[r[a] as int].visitas);
            } else {
                assert(tags[r[a] as int].visitas != tags[i].visitas);
            }
        }
    }
}

/// Length of the visit ranking.
pub const TOP_LIMIT: usize = 10;

/// Positions of the most visited tags, most visits first, tags of equal
/// visits in snapshot order, at most ten; tags never visited are left out.
pub fn top_visited(tags: &Vec<Iman>) -> (r: Vec<usize>)
    ensures
        is_ranking(visit_keys(tags@), was_visited(tags@), TOP_LIMIT as nat, r@),
{
    let mut keys: Vec<i64> = Vec::new();
    let mut visited: Vec<bool> = Vec::new();
    let mut i: usize = 0;
    while i < tags.len()
        invariant
            i <= tags.len(),
            keys@.len() == i,
            visited@.len() == i,
            forall|k: int| 0 <= k < i ==> keys@[k] == tags@[k].visitas as i64,
            forall|k: int| 0 <= k < i ==> visited@[k] == (tags@[k].visitas > 0),
        decreases tags.len() - i,
    {
        keys.push(tags[i].visitas as i64);
        visited.push(tags[i].visitas > 0);
        i = i + 1;
    }
    assert(keys@ =~= visit_keys(tags@));
    assert(visited@ =~= was_visited(tags@));
    rank_desc(&keys, &visited, TOP_LIMIT)
}

/// The batch a tag belongs to: its batch name and batch instant, when it has
/// both.
pub open spec fn batch_key(t: Iman) -> Option<(Seq<char>, i64)> {
    match (t.lote_nombre, t.lote_fecha) {
        (Some(n), Some(f)) => Some((n@, f)),
        _ => None,
    }
}

/// The distinct batches of a snapshot, in the order of their first tag.
pub open spec fn batch_keys(tags: Seq<Iman>) -> Seq<(Seq<char>, i64)>
    decreases tags.len(),
{
    if tags.len() == 0 {
        seq![]
    } else {
        let prev = batch_keys(tags.drop_last());
        match batch_key(tags.last()) {
            Some(k) => if prev.contains(k) {
                prev
            } else {
                prev.push(k)
            },
            None => prev,
        }
    }
}

/// Position `k` holds a tag of batch `key`.
pub open spec fn in_batch(tags: Seq<Iman>, key: (Seq<char>, i64)) -> spec_fn(int) -> bool {
    |k: int| batch_key(tags[k]) == Some(key)
}

/// Position `k` holds a tag of batch `key` that has been visited.
pub open spec fn assigned_in_batch(tags: Seq<Iman>, key: (Seq<char>, i64)) -> spec_fn(int) -> bool {
    |k: int| batch_key(tags[k]) == Some(key) && tags[k].visitas > 0
}

/// Totals of one batch.
pub struct BatchSummary {
    pub nombre: String,
    pub created_at: i64,
    /// Tags in the batch.
    pub total: usize,
    /// Tags in the batch that have been visited, that is written to a tag.
    pub asignados: usize,
}

/// `s` holds the totals of batch `key` over the snapshot `tags`.
pub open spec fn summarizes(tags: Seq<Iman>, s: BatchSummary, key: (Seq<char>, i64)) -> bool {
    &&& s.nombre@ == key.0
    &&& s.created_at == key.1
    &&& s.total == count_where(tags.len(), in_batch(tags, key))
    &&& s.asignados == count_where(tags.len(), assigned_in_batch(tags, key))
}

/// Position of the batch named `name` with instant `stamp`, or `names.len()`.
fn find_batch(names: &Vec<String>, stamps: &Vec<i64>, name: &String, stamp: i64) -> (g: usize)
    requires
        names@.len() == stamps@.len(),
    ensures
        g <= names@.len(),
        g < names@.len() ==> names@[g as int]@ == name@ && stamps@[g as int] == stamp,
        forall|h: int| 0 <= h < g ==> (names@[h]@, stamps@[h]) != (name@, stamp),
{
    let mut g: usize = 0;
    while g < names.len()
        invariant
            g <= names@.len(),
            names@.len() == stamps@.len(),
            forall|h: int| 0 <= h < g ==> (names@[h]@, stamps@[h]) != (name@, stamp),
        decreases names@.len() - g,
    {
        if names[g] == *name && stamps[g] == stamp {
            return g;
        }
        g = g + 1;
    }
    g
}

/// Totals of every batch of the snapshot, in the order of each batch's first tag.
pub fn group_batches(tags: &Vec<Iman>) -> (r: Vec<BatchSummary>)
    ensures
        r@.len() == batch_keys(tags@).len(),
        forall|g: int| 0 <= g < r@.len() ==> summarizes(tags@, r@[g], batch_keys(tags@)[g]),
{
    let n = tags.len();
    let mut names: Vec<String> = Vec::new();
    let mut stamps: Vec<i64> = Vec::new();
    let mut totals: Vec<usize> = Vec::new();
    let mut assigned: Vec<usize> = Vec::new();
    let mut i: usize = 0;
    while i < n
        invariant
            n == tags.len(),
            i <= n,
            names@.len() == batch_keys(tags@.subrange(0, i as int)).len(),
            stamps@.len() == names@.len(),
            totals@.len() == names@.len(),
            assigned@.len() == names@.len(),
            forall|g: int|
                0 <= g < names@.len() ==> batch_keys(tags@.subrange(0, i as int))[g] == (
                names@[g]@,
                stamps@[g],
            ),
            forall|g: int|
                0 <= g < names@.len() ==> totals@[g] == count_where(
                    i as nat,
                    in_batch(tags@, (names@[g]@, stamps@[g])),
                ),
            forall|g: int|
                0 <= g < names@.len() ==> assigned@[g] == count_where(
                    i as nat,
                    assigned_in_batch(tags@, (names@[g]@, stamps@[g])),
                ),
            forall|a: int, b: int|
                0 <= a < b < names@.len() ==> (names@[a]@, stamps@[a]) != (names@[b]@, stamps@[b]),
            forall|k: int|
                0 <= k < i && batch_key(tags@[k]) is Some ==> batch_keys(
                    tags@.subrange(0, i as int),
                ).contains(batch_key(tags@[k])->0),
        decreases n - i,
    {
        let ghost keys = batch_keys(tags@.subrange(0, i as int));
        assert(tags@.subrange(0, i + 1).drop_last() =~= tags@.subrange(0, i as int));
        assert(tags@.subrange(0, i + 1).last() == tags@[i as int]);
        proof {
            assert forall|g: int| 0 <= g < names@.len() implies totals@[g] <= i && assigned@[g]
                <= i by {
                lemma_count_where_bounded(i as nat, in_batch(tags@, (names@[g]@, stamps@[g])));
                lemma_count_where_bounded(
                    i as nat,
                    assigned_in_batch(tags@, (names@[g]@, stamps@[g])),
                );
            }
        }
        let t = &tags[i];
        match (&t.lote_nombre, &t.lote_fecha) {
            (Some(name), Some(stamp)) => {
                let ghost key = (name@, *stamp);
                let g = find_batch(&names, &stamps, name, *stamp);
                if g < names.len() {
                    assert((names@[g as int]@, stamps@[g as int]) == key);
                    assert(keys[g as int] == key);
                    let tot = totals[g];
                    totals.set(g, tot + 1);
                    if t.visitas > 0 {
                        let a = assigned[g];
                        assigned.set(g, a + 1);
                    }
                } else {
                    assert(!keys.contains(key));
                    proof {
                        lemma_count_where_none(i as nat, in_batch(tags@, key));
                        lemma_count_where_none(i as nat, assigned_in_batch(tags@, key));
                    }
                    names.push(name.clone());
                    stamps.push(*stamp);
                    totals.push(1);
                    assigned.push(if t.visitas > 0 { 1 } else { 0 });
                    assert(batch_keys(tags@.subrange(0, i + 1)) =~= keys.push(key));
                    assert forall|k: int|
                        0 <= k < i + 1 && batch_key(tags@[k]) is Some implies keys.push(
                            key,
                        ).contains(batch_key(tags@[k])->0) by {
                        if k < i {
                            let j = choose|j: int|
                                0 <= j < keys.len() && keys[j] == batch_key(tags@[k])->0;
                            assert(keys.push(key)[j] == keys[j]);
                        } else {
                            assert(keys.push(key)[keys.len() as int] == key);
                        }
                    }
                }
            },
            _ => {},
        }
        i = i + 1;
    }
    assert(tags@.subrange(0, n as int) =~= tags@);
    let mut r: Vec<BatchSummary> = Vec::new();
    let mut g: usize = 0;
    while g < names.len()
        invariant
            g <= names@.len(),
            stamps@.len() == names@.len(),
            totals@.len() == names@.len(),
            assigned@.len() == names@.len(),
            r@.len() == g,
            forall|h: int|
                0 <= h < g ==> r@[h].nombre == names@[h] && r@[h].created_at == stamps@[h]
                    && r@[h].total == totals@[h] && r@[h].asignados == assigned@[h],
        decreases names@.len() - g,
    {
        r.push(
            BatchSummary {
                nombre: names[g].clone(),
                created_at: stamps[g],
                total: totals[g],
                asignados: assigned[g],
            },
        );
        g = g + 1;
    }
    r
}

/// Instants of the distinct batches of a snapshot, in the order of their
/// first tag.
pub open spec fn batch_stamps(tags: Seq<Iman>) -> Seq<i64> {
    Seq::new(batch_keys(tags).len(), |g: int| batch_keys(tags)[g].1)
}

/// Every one of `n` positions may be ranked.
pub open spec fn all_ranked(n: nat) -> Seq<bool> {
    Seq::new(n, |g: int| true)
}

fn copy_summary(s: &BatchSummary) -> (r: BatchSummary)
    ensures
        r == *s,
{
    BatchSummary { nombre: s.nombre.clone(), created_at: s.created_at, total: s.total, asignados: s.asignados }
}

/// Totals of every batch of the snapshot, newest batch first; batches of
/// equal instant in the order of their first tag.
pub fn batch_rollups(tags: &Vec<Iman>) -> (r: Vec<BatchSummary>)
    ensures
        r@.len() == batch_keys(tags@).len(),
        exists|order: Seq<usize>|
            {
                &&& is_ranking(
                    batch_stamps(tags@),
                    all_ranked(batch_keys(tags@).len()),
                    batch_keys(tags@).len(),
                    order,
                )
                &&& r@.len() == order.len()
                &&& forall|a: int|
                    0 <= a < r@.len() ==> summarizes(tags@, r@[a], batch_keys(tags@)[order[a] as int])
            },
{
    let groups = group_batches(tags);
    let mut stamps: Vec<i64> = Vec::new();
    let mut eligible: Vec<bool> = Vec::new();
    let mut g: usize = 0;
    while g < groups.len()
        invariant
            g <= groups@.len(),
            groups@.len() == batch_keys(tags@).len(),
            forall|h: int| 0 <= h < groups@.len() ==> summarizes(tags@, groups@[h], batch_keys(tags@)[h]),
            stamps@.len() == g,
            eligible@.len() == g,
            forall|h: int| 0 <= h < g ==> stamps@[h] == batch_keys(tags@)[h].1,
            forall|h: int| 0 <= h < g ==> eligible@[h],
        decreases groups@.len() - g,
    {
        stamps.push(groups[g].created_at);
        eligible.push(true);
        g = g + 1;
    }
    assert(stamps@ =~= batch_stamps(tags@));
    assert(eligible@ =~= all_ranked(batch_keys(tags@).len()));
    let order = rank_desc(&stamps, &eligible, groups.len());
    proof {
        lemma_full_ranking_length(stamps@, eligible@, order@);
    }
    let mut r: Vec<BatchSummary> = Vec::new();
    let mut a: usize = 0;
    while a < order.len()
        invariant
            a <= order@.len(),
            groups@.len() == batch_keys(tags@).len(),
            forall|h: int| 0 <= h < groups@.len() ==> summarizes(tags@, groups@[h], batch_keys(tags@)[h]),
            forall|b: int| 0 <= b < order@.len() ==> order@[b] < groups@.len(),
            r@.len() == a,
            forall|b: int|
                0 <= b < a ==> summarizes(tags@, r@[b], batch_keys(tags@)[order@[b] as int]),
        decreases order@.len() - a,
    {
        r.push(copy_summary(&groups[order[a]]));
        a = a + 1;
    }
    r
}

/// The calendar month in which each tag of the snapshot was activated,
/// where it has an activation instant that chrono can represent.
pub open spec fn activation_months(tags: Seq<Iman>) -> Seq<Option<(i32, u32)>> {
    Seq::new(
        tags.len(),
        |k: int|
            match tags[k].activated_at {
                Some(ms) => calendar_month(ms),
                None => None,
            },
    )
}

/// Activation month of every tag of the snapshot.
pub fn activation_months_of(tags: &Vec<Iman>) -> (r: Vec<Option<(i32, u32)>>)
    ensures
        r@ == activation_months(tags@),
{
    let mut r: Vec<Option<(i32, u32)>> = Vec::new();
    let mut i: usize = 0;
    while i < tags.len()
        invariant
            i <= tags.len(),
            r@.len() == i,
            forall|k: int| 0 <= k < i ==> r@[k] == activation_months(tags@)[k],
        decreases tags.len() - i,
    {
        let m = match tags[i].activated_at {
            Some(ms) => month_of_instant(ms),
            None => None,
        };
        r.push(m);
        i = i + 1;
    }
    assert(r@ =~= activation_months(tags@));
    r
}

/// Text of an optional string.
pub open spec fn text_of(o: Option<String>) -> Option<Seq<char>> {
    match o {
        Some(s) => Some(s@),
        None => None,
    }
}

/// RFC 3339 text of an optional instant.
pub open spec fn iso_of(ms: Option<i64>) -> Option<Seq<char>> {
    match ms {
        Some(x) => rfc3339_text(x),
        None => None,
    }
}

fn iso_of_optional(ms: Option<i64>) -> (r: Option<String>)
    ensures
        text_of(r) == iso_of(ms),
{
    match ms {
        Some(x) => iso_of_instant(x),
        None => None,
    }
}

fn copy_text(o: &Option<String>) -> (r: Option<String>)
    ensures
        r == *o,
{
    match o {
        Some(s) => Some(s.clone()),
        None => None,
    }
}

/// One line of the visit ranking.
pub struct TopEntry {
    pub codigo: String,
    pub target_url: Option<String>,
    pub visitas: u32,
    /// Last scan, in RFC 3339 form.
    pub last_scan_iso: Option<String>,
}

/// `e` shows the tag `t`.
pub open spec fn shows_tag(e: TopEntry, t: Iman) -> bool {
    &&& e.codigo == t.codigo
    &&& e.target_url == t.target_url
    &&& e.visitas == t.visitas
    &&& text_of(e.last_scan_iso) == iso_of(t.last_scan_at)
}

/// The visit ranking of the snapshot, as shown on the dashboard.
pub fn top_entries(tags: &Vec<Iman>) -> (r: Vec<TopEntry>)
    ensures
        exists|order: Seq<usize>|
            {
                &&& is_ranking(visit_keys(tags@), was_visited(tags@), TOP_LIMIT as nat, order)
                &&& r@.len() == order.len()
                &&& forall|a: int| 0 <= a < r@.len() ==> shows_tag(r@[a], tags@[order[a] as int])
            },
{
    let order = top_visited(tags);
    let mut r: Vec<TopEntry> = Vec::new();
    let mut a: usize = 0;
    while a < order.len()
        invariant
            a <= order@.len(),
            forall|b: int| 0 <= b < order@.len() ==> order@[b] < tags@.len(),
            r@.len() == a,
            forall|b: int| 0 <= b < a ==> shows_tag(r@[b], tags@[order@[b] as int]),
        decreases order@.len() - a,
    {
        let t = &tags[order[a]];
        r.push(
            TopEntry {
                codigo: t.codigo.clone(),
                target_url: copy_text(&t.target_url),
                visitas: t.visitas,
                last_scan_iso: iso_of_optional(t.last_scan_at),
            },
        );
        a = a + 1;
    }
    r
}

/// One line of the batch history.
pub struct BatchEntry {
    pub summary: BatchSummary,
    /// The batch instant, in RFC 3339 form.
    pub created_at_iso: Option<String>,
}

/// Everything the dashboard shows.
pub struct DashboardView {
    /// Number of tags.
    pub total: usize,
    /// Number of active tags.
    pub active: usize,
    /// Number of tags not yet active.
    pub available: usize,
    /// The most visited tags.
    pub top: Vec<TopEntry>,
    /// Every batch, newest first.
    pub batches: Vec<BatchEntry>,
    /// Short names of the six months that end with the current one.
    pub month_labels: Vec<String>,
    /// Activations by month.
    pub activity: MonthlyActivity,
}

/// The batch history as shown on the dashboard.
pub fn batch_entries(tags: &Vec<Iman>) -> (r: Vec<BatchEntry>)
    ensures
        r@.len() == batch_keys(tags@).len(),
        exists|order: Seq<usize>|
            {
                &&& is_ranking(
                    batch_stamps(tags@),
                    all_ranked(batch_keys(tags@).len()),
                    batch_keys(tags@).len(),
                    order,
                )
                &&& r@.len() == order.len()
                &&& forall|a: int|
                    0 <= a < r@.len() ==> summarizes(
                        tags@,
                        r@[a].summary,
                        batch_keys(tags@)[order[a] as int],
                    ) && text_of(r@[a].created_at_iso) == rfc3339_text(r@[a].summary.created_at)
            },
{
    let mut rollups = batch_rollups(tags);
    let ghost order = choose|order: Seq<usize>|
        {
            &&& is_ranking(
                batch_stamps(tags@),
                all_ranked(batch_keys(tags@).len()),
                batch_keys(tags@).len(),
                order,
            )
            &&& rollups@.len() == order.len()
            &&& forall|a: int|
                0 <= a < rollups@.len() ==> summarizes(
                    tags@,
                    rollups@[a],
                    batch_keys(tags@)[order[a] as int],
                )
        };
    let ghost all = rollups@;
    let mut r: Vec<BatchEntry> = Vec::new();
    let mut a: usize = 0;
    while a < rollups.len()
        invariant
            a <= all.len(),
            rollups@.len() == all.len(),
            forall|b: int| 0 <= b < all.len() ==> rollups@[b] == all[b],
            r@.len() == a,
            forall|b: int|
                0 <= b < a ==> r@[b].summary == all[b] && text_of(r@[b].created_at_iso)
                    == rfc3339_text(all[b].created_at),
        decreases all.len() - a,
    {
        let s = copy_summary(&rollups[a]);
        let iso = iso_of_instant(s.created_at);
        r.push(BatchEntry { summary: s, created_at_iso: iso });
        a = a + 1;
    }
    assert forall|b: int| 0 <= b < r@.len() implies summarizes(
        tags@,
        r@[b].summary,
        batch_keys(tags@)[order[b] as int],
    ) && text_of(r@[b].created_at_iso) == rfc3339_text(r@[b].summary.created_at) by {
        assert(summarizes(tags@, all[b], batch_keys(tags@)[order[b] as int]));
    }
    r
}

/// The dashboard for the snapshot `tags` at the instant `now_ms`; `None`
/// where chrono cannot place `now_ms` in the calendar.
pub fn build_dashboard(tags: &Vec<Iman>, now_ms: i64) -> (r: Option<DashboardView>)
    ensures
        r is None <==> calendar_month(now_ms) is None,
        r matches Some(v) ==> {
            let now = calendar_month(now_ms)->0;
            let active = count_where(tags@.len(), is_active_at(tags@));
            let months = activation_months(tags@);
            &&& v.total == tags@.len()
            &&& v.active == active
            &&& v.available == tags@.len() - active
            &&& v.month_labels@.len() == 6
            &&& forall|b: int|
                0 <= b < 6 ==> v.month_labels@[b]@ == month_abbrev(month_back(now.1 as int, 5 - b))
            &&& v.activity.counts@.len() == 6
            &&& forall|b: int|
                0 <= b < 6 ==> v.activity.counts@[b] == count_where(
                    tags@.len(),
                    activated_months_before(tags@, months, now, 5 - b),
                )
            &&& v.activity.this_month == count_where(
                tags@.len(),
                activated_in(tags@, months, (now.0 as int, now.1 as int)),
            )
            &&& v.activity.last_month == count_where(
                tags@.len(),
                activated_in(tags@, months, previous_month(now)),
            )
            &&& exists|order: Seq<usize>|
                {
                    &&& is_ranking(visit_keys(tags@), was_visited(tags@), TOP_LIMIT as nat, order)
                    &&& v.top@.len() == order.len()
                    &&& forall|a: int|
                        0 <= a < v.top@.len() ==> shows_tag(v.top@[a], tags@[order[a] as int])
                }
            &&& v.batches@.len() == batch_keys(tags@).len()
            &&& exists|order: Seq<usize>|
                {
                    &&& is_ranking(
                        batch_stamps(tags@),
                        all_ranked(batch_keys(tags@).len()),
                        batch_keys(tags@).len(),
                        order,
                    )
                    &&& v.batches@.len() == order.len()
                    &&& forall|a: int|
                        0 <= a < v.batches@.len() ==> summarizes(
                            tags@,
                            v.batches@[a].summary,
                            batch_keys(tags@)[order[a] as int],
                        ) && text_of(v.batches@[a].created_at_iso) == rfc3339_text(
                            v.batches@[a].summary.created_at,
                        )
                }
        },
{
    let now = match month_of_instant(now_ms) {
        Some(ym) => ym,
        None => {
            return None;
        },
    };
    let active = count_active(tags);
    proof {
        lemma_count_where_bounded(tags@.len(), is_active_at(tags@));
    }
    let months = activation_months_of(tags);
    let activity = monthly_activity(tags, &months, now);
    let month_labels = trailing_month_labels(now);
    let top = top_entries(tags);
    let batches = batch_entries(tags);
    Some(
        DashboardView {
            total: tags.len(),
            active,
            available: tags.len() - active,
            top,
            batches,
            month_labels,
            activity,
        },
    )
}

} // verus!
