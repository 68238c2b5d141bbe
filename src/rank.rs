//! Ranking of positions by a key, largest first, ties by position.

use vstd::prelude::*;
use vstd::set_lib::{lemma_int_range, lemma_len_subset, set_int_range};

verus! {

/// Position `i` ranks ahead of position `j`: its key is larger, or the keys
/// are equal and `i` comes first.
pub open spec fn ranks_before(keys: Seq<i64>, i: int, j: int) -> bool {
    keys[i] > keys[j] || (keys[i] == keys[j] && i < j)
}

/// `r` lists the eligible positions of `keys` in rank order, as many as
/// `limit` allows: every listed position is eligible, each ranks ahead of
/// the next, and an eligible position that is left out ranks behind the
/// last listed one, which only happens once `limit` positions are listed.
pub open spec fn is_ranking(keys: Seq<i64>, eligible: Seq<bool>, limit: nat, r: Seq<usize>) -> bool {
    &&& r.len() <= limit
    &&& forall|a: int| 0 <= a < r.len() ==> r[a] < keys.len() && eligible[r[a] as int]
    &&& forall|a: int, b: int|
        0 <= a < b < r.len() ==> ranks_before(keys, r[a] as int, r[b] as int)
    &&& forall|i: int|
        0 <= i < keys.len() && eligible[i] ==> (r.contains(i as usize) || (r.len() == limit
            && (limit == 0 || ranks_before(keys, r[r.len() - 1] as int, i))))
}

/// Position `j` may be listed after the positions already in `r`.
pub open spec fn is_candidate(keys: Seq<i64>, eligible: Seq<bool>, r: Seq<usize>, j: int) -> bool {
    eligible[j] && (r.len() == 0 || ranks_before(keys, r[r.len() - 1] as int, j))
}

/// The best position that may follow `r`, if there is one.
fn next_in_rank(keys: &Vec<i64>, eligible: &Vec<bool>, r: &Vec<usize>) -> (best: Option<usize>)
    requires
        keys.len() == eligible.len(),
        forall|a: int| 0 <= a < r.len() ==> r[a] < keys.len(),
    ensures
        match best {
            Some(b) => b < keys.len() && is_candidate(keys@, eligible@, r@, b as int) && forall|
                j: int,
            |
                0 <= j < keys.len() && is_candidate(keys@, eligible@, r@, j) && j != b
                    ==> ranks_before(keys@, b as int, j),
            None => forall|j: int|
                0 <= j < keys.len() ==> !is_candidate(keys@, eligible@, r@, j),
        },
{
    let n = keys.len();
    let mut best: Option<usize> = None;
    let mut i: usize = 0;
    while i < n
        invariant
            n == keys.len() == eligible.len(),
            i <= n,
            forall|a: int| 0 <= a < r.len() ==> r[a] < keys.len(),
            match best {
                Some(b) => b < i && is_candidate(keys@, eligible@, r@, b as int) && forall|j: int|
                    0 <= j < i && is_candidate(keys@, eligible@, r@, j) && j != b
                        ==> ranks_before(keys@, b as int, j),
                None => forall|j: int| 0 <= j < i ==> !is_candidate(keys@, eligible@, r@, j),
            },
        decreases n - i,
    {
        let candidate = eligible[i] && (r.len() == 0 || {
            let last = r[r.len() - 1];
            keys[last] > keys[i] || (keys[last] == keys[i] && last < i)
        });
        assert(candidate == is_candidate(keys@, eligible@, r@, i as int));
        if candidate {
            match best {
                None => {
                    best = Some(i);
                },
                Some(b) => {
                    if keys[i] > keys[b] {
                        assert forall|j: int|
                            0 <= j < i + 1 && is_candidate(keys@, eligible@, r@, j) && j != i
                                implies ranks_before(keys@, i as int, j) by {
                            if j != b {
                                assert(ranks_before(keys@, b as int, j));
                            }
                        }
                        best = Some(i);
                    }
                },
            }
        }
        i = i + 1;
    }
    best
}

/// The eligible positions of `keys`, largest key first and ties in order of
/// position, at most `limit` of them.
pub fn rank_desc(keys: &Vec<i64>, eligible: &Vec<bool>, limit: usize) -> (r: Vec<usize>)
    requires
        keys.len() == eligible.len(),
    ensures
        is_ranking(keys@, eligible@, limit as nat, r@),
{
    let n = keys.len();
    let mut r: Vec<usize> = Vec::new();
    while r.len() < limit
        invariant
            n == keys.len() == eligible.len(),
            r.len() <= limit,
            forall|a: int| 0 <= a < r.len() ==> r[a] < n && eligible[r[a] as int],
            forall|a: int, b: int|
                0 <= a < b < r.len() ==> ranks_before(keys@, r[a] as int, r[b] as int),
            forall|i: int|
                0 <= i < n && eligible[i] ==> (r@.contains(i as usize) || r.len() == 0
                    || ranks_before(keys@, r[r.len() - 1] as int, i)),
        decreases limit - r.len(),
    {
        match next_in_rank(keys, eligible, &r) {
            None => {
                assert forall|i: int|
                    0 <= i < n && eligible[i] implies r@.contains(i as usize) by {
                    assert(!is_candidate(keys@, eligible@, r@, i));
                }
                return r;
            },
            Some(b) => {
                let ghost old_r = r@;
                r.push(b);
                assert forall|a: int, c: int|
                    0 <= a < c < r.len() implies ranks_before(keys@, r[a] as int, r[c] as int) by {
                    if c == r.len() - 1 && a < old_r.len() - 1 {
                        assert(ranks_before(keys@, old_r[a] as int, old_r[old_r.len() - 1] as int));
                    }
                }
                assert forall|i: int|
                    0 <= i < n && eligible[i] implies (r@.contains(i as usize) || r.len() == 0
                        || ranks_before(keys@, r[r.len() - 1] as int, i)) by {
                    if old_r.contains(i as usize) {
                        let k = choose|k: int| 0 <= k < old_r.len() && old_r[k] == i as usize;
                        assert(r@[k] == i as usize);
                    } else if i == b as int {
                        assert(r@[r.len() - 1] == i as usize);
                    } else {
                        assert(is_candidate(keys@, eligible@, old_r, i));
                    }
                }
            },
        }
    }
    r
}

/// The positions below `n` that satisfy `p`.
pub open spec fn positions_where(n: int, p: spec_fn(int) -> bool) -> Set<int> {
    Set::new(|i: int| 0 <= i < n && p(i))
}

/// The positions listed in `r`.
pub open spec fn listed(r: Seq<usize>) -> Set<int> {
    r.map_values(|x: usize| x as int).to_set()
}

/// A list that holds every position of a set holds at least as many
/// entries as the set has members.
pub proof fn lemma_listing_is_long(r: Seq<usize>, s: Set<int>)
    requires
        s.finite(),
        forall|i: int| #[trigger] s.contains(i) ==> 0 <= i <= usize::MAX && r.contains(i as usize),
    ensures
        s.len() <= r.len(),
{
    let m = r.map_values(|x: usize| x as int);
    assert forall|i: int| s.contains(i) implies m.to_set().contains(i) by {
        let k = choose|k: int| 0 <= k < r.len() && r[k] == i as usize;
        assert(m[k] == i);
    }
    m.lemma_cardinality_of_set();
    lemma_len_subset(s, m.to_set());
}

/// A list of distinct positions, all members of a finite set, holds at
/// most as many entries as the set has members.
pub proof fn lemma_listing_is_short(r: Seq<usize>, s: Set<int>)
    requires
        s.finite(),
        forall|a: int, b: int| 0 <= a < b < r.len() ==> r[a] != r[b],
        forall|a: int| 0 <= a < r.len() ==> s.contains(#[trigger] r[a] as int),
    ensures
        r.len() <= s.len(),
{
    let m = r.map_values(|x: usize| x as int);
    assert forall|a: int, b: int| 0 <= a < m.len() && 0 <= b < m.len() && a != b implies m[a] != m[b] by {
        if a < b {
            assert(r[a] != r[b]);
        } else {
            assert(r[b] != r[a]);
        }
    }
    assert(m.no_duplicates());
    m.unique_seq_to_set();
    assert forall|i: int| m.to_set().contains(i) implies s.contains(i) by {
        let k = choose|k: int| 0 <= k < m.len() && m[k] == i;
        assert(s.contains(r[k] as int));
    }
    lemma_len_subset(m.to_set(), s);
}

/// Every position below `n` forms a set of `n` members.
pub proof fn lemma_all_positions(n: nat)
    ensures
        positions_where(n as int, |i: int| true).finite(),
        positions_where(n as int, |i: int| true).len() == n,
{
    lemma_int_range(0, n as int);
    assert(positions_where(n as int, |i: int| true) =~= set_int_range(0, n as int));
}

/// A ranking that may list every position and every position is eligible
/// lists all of them.
pub proof fn lemma_full_ranking_length(keys: Seq<i64>, eligible: Seq<bool>, r: Seq<usize>)
    requires
        keys.len() == eligible.len(),
        keys.len() <= usize::MAX,
        forall|i: int| 0 <= i < eligible.len() ==> eligible[i],
        is_ranking(keys, eligible, keys.len(), r),
    ensures
        r.len() == keys.len(),
{
    if r.len() < keys.len() {
        let s = positions_where(keys.len() as int, |i: int| true);
        lemma_all_positions(keys.len());
        assert forall|i: int| #[trigger] s.contains(i) implies 0 <= i <= usize::MAX && r.contains(i as usize) by {
            assert(eligible[i]);
        }
        lemma_listing_is_long(r, s);
    }
}

} // verus!
