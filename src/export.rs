//! CSV exports of tag codes with their scan URLs.

use vstd::prelude::*;
use crate::model::Iman;
use crate::text::{
    lemma_sorts_before_total, lemma_sorts_before_transitive,
    sorts_before, text_less,
};

verus! {

/// First line of every export.
pub open spec fn csv_header() -> Seq<char> {
    "codigo,url_completa\n"@
}

/// The export line of the tag `code`: the code and the URL that resolves it.
pub open spec fn csv_row(code: Seq<char>, base: Seq<char>) -> Seq<char> {
    code + ","@ + base + "/v/"@ + code + "\n"@
}

/// The export lines of `codes`, in order.
pub open spec fn csv_rows(codes: Seq<Seq<char>>, base: Seq<char>) -> Seq<char>
    decreases codes.len(),
{
    if codes.len() == 0 {
        seq![]
    } else {
        csv_rows(codes.drop_last(), base) + csv_row(codes.last(), base)
    }
}

/// A whole export of `codes` under the public base URL `base`.
pub open spec fn csv_text(codes: Seq<Seq<char>>, base: Seq<char>) -> Seq<char> {
    csv_header() + csv_rows(codes, base)
}

/// Text of each tag's code.
pub open spec fn codes_of(tags: Seq<Iman>) -> Seq<Seq<char>> {
    Seq::new(tags.len(), |k: int| tags[k].codigo@)
}

/// Text of the codes of the tags at positions `order`.
pub open spec fn codes_at(tags: Seq<Iman>, order: Seq<usize>) -> Seq<Seq<char>> {
    Seq::new(order.len(), |k: int| tags[order[k] as int].codigo@)
}

/// The export of the tags at positions `order` of `tags`, in that order.
pub fn csv_for(tags: &Vec<Iman>, order: &Vec<usize>, base_url: &str) -> (r: String)
    requires
        forall|k: int| 0 <= k < order@.len() ==> order@[k] < tags@.len(),
    ensures
        r@ == csv_text(codes_at(tags@, order@), base_url@),
{
    let mut r = String::from_str("codigo,url_completa\n");
    let mut k: usize = 0;
    while k < order.len()
        invariant
            k <= order@.len(),
            forall|j: int| 0 <= j < order@.len() ==> order@[j] < tags@.len(),
            r@ == csv_header() + csv_rows(codes_at(tags@, order@.subrange(0, k as int)), base_url@),
        decreases order@.len() - k,
    {
        let code = tags[order[k]].codigo.as_str();
        r.append(code);
        r.append(",");
        r.append(base_url);
        r.append("/v/");
        r.append(code);
        r.append("\n");
        let ghost prefix = codes_at(tags@, order@.subrange(0, k + 1));
        assert(prefix.drop_last() =~= codes_at(tags@, order@.subrange(0, k as int)));
        assert(prefix.last() == code@);
        assert(r@ =~= csv_header() + csv_rows(prefix, base_url@));
        k = k + 1;
    }
    assert(order@.subrange(0, order@.len() as int) =~= order@);
    r
}

/// `t` has not been configured and has not yet been exported.
pub open spec fn awaits_export(t: Iman) -> bool {
    !t.active && !t.exported
}

/// Positions of the tags that await export, in order.
pub open spec fn awaiting_positions(tags: Seq<Iman>) -> Seq<usize>
    decreases tags.len(),
{
    if tags.len() == 0 {
        seq![]
    } else if awaits_export(tags.last()) {
        awaiting_positions(tags.drop_last()).push((tags.len() - 1) as usize)
    } else {
        awaiting_positions(tags.drop_last())
    }
}

/// Codes of the tags that await export, in order.
pub open spec fn awaiting_codes(tags: Seq<Iman>) -> Seq<Seq<char>>
    decreases tags.len(),
{
    if tags.len() == 0 {
        seq![]
    } else if awaits_export(tags.last()) {
        awaiting_codes(tags.drop_last()).push(tags.last().codigo@)
    } else {
        awaiting_codes(tags.drop_last())
    }
}

proof fn lemma_awaiting_positions(tags: Seq<Iman>)
    requires
        tags.len() <= usize::MAX,
    ensures
        forall|k: int|
            0 <= k < awaiting_positions(tags).len() ==> awaiting_positions(tags)[k] < tags.len(),
        codes_at(tags, awaiting_positions(tags)) == awaiting_codes(tags),
    decreases tags.len(),
{
    if tags.len() > 0 {
        let prev = tags.drop_last();
        lemma_awaiting_positions(prev);
        assert(codes_at(tags, awaiting_positions(prev)) =~= codes_at(prev, awaiting_positions(prev)));
        if awaits_export(tags.last()) {
            let pos = awaiting_positions(prev).push((tags.len() - 1) as usize);
            assert(pos == awaiting_positions(tags));
            assert(codes_at(tags, pos) =~= codes_at(tags, awaiting_positions(prev)).push(
                tags.last().codigo@,
            ));
        } else {
            assert(awaiting_positions(tags) == awaiting_positions(prev));
        }
    }
}

/// Whether `t` awaits export.
pub fn is_awaiting_export(t: &Iman) -> (r: bool)
    ensures
        r == awaits_export(*t),
{
    !t.active && !t.exported
}

/// Positions of the tags that await export, in order.
pub fn awaiting_export(tags: &Vec<Iman>) -> (r: Vec<usize>)
    ensures
        r@ == awaiting_positions(tags@),
{
    let mut r: Vec<usize> = Vec::new();
    let mut i: usize = 0;
    while i < tags.len()
        invariant
            i <= tags.len(),
            r@ == awaiting_positions(tags@.subrange(0, i as int)),
        decreases tags.len() - i,
    {
        assert(tags@.subrange(0, i + 1).drop_last() =~= tags@.subrange(0, i as int));
        if is_awaiting_export(&tags[i]) {
            r.push(i);
        }
        i = i + 1;
    }
    assert(tags@.subrange(0, tags@.len() as int) =~= tags@);
    r
}

/// The export of every tag that awaits export, or `None` when there is none.
pub fn export_awaiting(tags: &Vec<Iman>, base_url: &str) -> (r: Option<String>)
    ensures
        r is None <==> awaiting_codes(tags@).len() == 0,
        r matches Some(csv) ==> csv@ == csv_text(awaiting_codes(tags@), base_url@),
{
    let order = awaiting_export(tags);
    proof {
        assert(tags@.len() == tags.len());
        lemma_awaiting_positions(tags@);
    }
    if order.len() == 0 {
        return None;
    }
    Some(csv_for(tags, &order, base_url))
}

/// `t` marked as exported when it awaits export.
pub open spec fn marked(t: Iman) -> Iman {
    if awaits_export(t) {
        Iman { exported: true, ..t }
    } else {
        t
    }
}

/// Marks as exported every tag that awaits export.
pub fn mark_awaiting(tags: &mut Vec<Iman>)
    ensures
        final(tags)@.len() == old(tags)@.len(),
        forall|k: int| 0 <= k < old(tags)@.len() ==> final(tags)@[k] == marked(old(tags)@[k]),
{
    let mut i: usize = 0;
    while i < tags.len()
        invariant
            i <= tags.len(),
            tags@.len() == old(tags)@.len(),
            forall|k: int| 0 <= k < i ==> tags@[k] == marked(old(tags)@[k]),
            forall|k: int| i <= k < tags@.len() ==> tags@[k] == old(tags)@[k],
        decreases tags.len() - i,
    {
        if is_awaiting_export(&tags[i]) {
            tags[i].exported = true;
        }
        i = i + 1;
    }
}

/// `t` belongs to the export of batch `name`: when `available_only`, only
/// tags never visited, and when `stamp` is given, only tags of the batch
/// created at that instant.
pub open spec fn in_batch_export(t: Iman, name: Seq<char>, available_only: bool, stamp: Option<i64>) -> bool {
    &&& (t.lote_nombre matches Some(n) && n@ == name)
    &&& (available_only ==> t.visitas == 0)
    &&& (stamp matches Some(ts) ==> t.lote_fecha == Some(ts))
}

/// Which tags belong to the export of batch `name`.
pub open spec fn batch_selection(tags: Seq<Iman>, name: Seq<char>, available_only: bool, stamp: Option<i64>) -> Seq<bool> {
    Seq::new(tags.len(), |k: int| in_batch_export(tags[k], name, available_only, stamp))
}

/// Position `i` comes before position `j`: its code sorts first, or the
/// codes are equal and `i` comes first.
pub open spec fn code_ranks_before(codes: Seq<Seq<char>>, i: int, j: int) -> bool {
    sorts_before(codes[i], codes[j]) || (codes[i] == codes[j] && i < j)
}

/// `r` lists the eligible positions in order of code, as many as `limit`
/// allows; an eligible position left out comes after the last listed one.
pub open spec fn is_code_ordering(codes: Seq<Seq<char>>, eligible: Seq<bool>, limit: nat, r: Seq<usize>) -> bool {
    &&& r.len() <= limit
    &&& forall|a: int| 0 <= a < r.len() ==> r[a] < codes.len() && eligible[r[a] as int]
    &&& forall|a: int, b: int|
        0 <= a < b < r.len() ==> code_ranks_before(codes, r[a] as int, r[b] as int)
    &&& forall|i: int|
        0 <= i < codes.len() && eligible[i] ==> (r.contains(i as usize) || (r.len() == limit
            && (limit == 0 || code_ranks_before(codes, r[r.len() - 1] as int, i))))
}

/// Position `j` may follow the positions already in `r`.
pub open spec fn follows_in_code_order(codes: Seq<Seq<char>>, eligible: Seq<bool>, r: Seq<usize>, j: int) -> bool {
    eligible[j] && (r.len() == 0 || code_ranks_before(codes, r[r.len() - 1] as int, j))
}

proof fn lemma_code_ranks_before_transitive(codes: Seq<Seq<char>>, i: int, j: int, k: int)
    requires
        code_ranks_before(codes, i, j),
        code_ranks_before(codes, j, k),
    ensures
        code_ranks_before(codes, i, k),
{
    if sorts_before(codes[i], codes[j]) && sorts_before(codes[j], codes[k]) {
        lemma_sorts_before_transitive(codes[i], codes[j], codes[k]);
    }
}

/// The first position in code order that may follow `r`, if there is one.
fn next_in_code_order(tags: &Vec<Iman>, eligible: &Vec<bool>, r: &Vec<usize>) -> (best: Option<usize>)
    requires
        tags.len() == eligible.len(),
        forall|a: int| 0 <= a < r.len() ==> r[a] < tags.len(),
    ensures
        match best {
            Some(b) => b < tags.len() && follows_in_code_order(codes_of(tags@), eligible@, r@, b as int)
                && forall|j: int|
                0 <= j < tags.len() && follows_in_code_order(codes_of(tags@), eligible@, r@, j) && j
                    != b ==> code_ranks_before(codes_of(tags@), b as int, j),
            None => forall|j: int|
                0 <= j < tags.len() ==> !follows_in_code_order(codes_of(tags@), eligible@, r@, j),
        },
{
    let ghost codes = codes_of(tags@);
    let n = tags.len();
    let mut best: Option<usize> = None;
    let mut i: usize = 0;
    while i < n
        invariant
            n == tags.len() == eligible.len(),
            codes == codes_of(tags@),
            i <= n,
            forall|a: int| 0 <= a < r.len() ==> r[a] < tags.len(),
            match best {
                Some(b) => b < i && follows_in_code_order(codes, eligible@, r@, b as int) && forall|
                    j: int,
                |
                    0 <= j < i && follows_in_code_order(codes, eligible@, r@, j) && j != b
                        ==> code_ranks_before(codes, b as int, j),
                None => forall|j: int|
                    0 <= j < i ==> !follows_in_code_order(codes, eligible@, r@, j),
            },
        decreases n - i,
    {
        let candidate = eligible[i] && (r.len() == 0 || {
            let last = r[r.len() - 1];
            let lt = text_less(tags[last].codigo.as_str(), tags[i].codigo.as_str());
            let gt = text_less(tags[i].codigo.as_str(), tags[last].codigo.as_str());
            proof {
                if !lt && !gt {
                    lemma_sorts_before_total(codes[last as int], codes[i as int]);
                }
            }
            lt || (!gt && last < i)
        });
        assert(candidate == follows_in_code_order(codes, eligible@, r@, i as int));
        if candidate {
            match best {
                None => {
                    best = Some(i);
                },
                Some(b) => {
                    let lt = text_less(tags[i].codigo.as_str(), tags[b].codigo.as_str());
                    if lt {
                        assert forall|j: int|
                            0 <= j < i + 1 && follows_in_code_order(codes, eligible@, r@, j) && j
                                != i implies code_ranks_before(codes, i as int, j) by {
                            assert(code_ranks_before(codes, i as int, b as int));
                            if j != b {
                                lemma_code_ranks_before_transitive(codes, i as int, b as int, j);
                            }
                        }
                        best = Some(i);
                    } else {
                        let gt = text_less(tags[b].codigo.as_str(), tags[i].codigo.as_str());
                        proof {
                            if !gt {
                                lemma_sorts_before_total(codes[b as int], codes[i as int]);
                            }
                        }
                        assert(code_ranks_before(codes, b as int, i as int));
                    }
                },
            }
        }
        i = i + 1;
    }
    best
}

/// The eligible positions of `tags` in order of code, ties in order of
/// position.
pub fn order_by_code(tags: &Vec<Iman>, eligible: &Vec<bool>) -> (r: Vec<usize>)
    requires
        tags.len() == eligible.len(),
    ensures
        is_code_ordering(codes_of(tags@), eligible@, tags@.len(), r@),
{
    let ghost codes = codes_of(tags@);
    let n = tags.len();
    let mut r: Vec<usize> = Vec::new();
    while r.len() < n
        invariant
            n == tags.len() == eligible.len(),
            codes == codes_of(tags@),
            r.len() <= n,
            forall|a: int| 0 <= a < r.len() ==> r[a] < n && eligible[r[a] as int],
            forall|a: int, b: int|
                0 <= a < b < r.len() ==> code_ranks_before(codes, r[a] as int, r[b] as int),
            forall|i: int|
                0 <= i < n && eligible[i] ==> (r@.contains(i as usize) || r.len() == 0
                    || code_ranks_before(codes, r[r.len() - 1] as int, i)),
        decreases n - r.len(),
    {
        match next_in_code_order(tags, eligible, &r) {
            None => {
                assert forall|i: int|
                    0 <= i < n && eligible[i] implies r@.contains(i as usize) by {
                    assert(!follows_in_code_order(codes, eligible@, r@, i));
                }
                return r;
            },
            Some(b) => {
                let ghost old_r = r@;
                r.push(b);
                assert forall|a: int, c: int|
                    0 <= a < c < r.len() implies code_ranks_before(codes, r[a] as int, r[c] as int) by {
                    if c == r.len() - 1 && a < old_r.len() - 1 {
                        lemma_code_ranks_before_transitive(
                            codes,
                            old_r[a] as int,
                            old_r[old_r.len() - 1] as int,
                            b as int,
                        );
                    }
                }
                assert forall|i: int|
                    0 <= i < n && eligible[i] implies (r@.contains(i as usize) || r.len() == 0
                        || code_ranks_before(codes, r[r.len() - 1] as int, i)) by {
                    if old_r.contains(i as usize) {
                        let k = choose|k: int| 0 <= k < old_r.len() && old_r[k] == i as usize;
                        assert(r@[k] == i as usize);
                    } else if i == b as int {
                        assert(r@[r.len() - 1] == i as usize);
                    } else {
                        assert(follows_in_code_order(codes, eligible@, old_r, i));
                    }
                }
            },
        }
    }
    r
}

/// Whether `t` belongs to the export of batch `name`.
pub fn is_in_batch_export(t: &Iman, name: &str, available_only: bool, stamp: Option<i64>) -> (r: bool)
    ensures
        r == in_batch_export(*t, name@, available_only, stamp),
{
    let named = match &t.lote_nombre {
        Some(n) => *n == String::from_str(name),
        None => false,
    };
    let fresh = !available_only || t.visitas == 0;
    let dated = match stamp {
        Some(ts) => match t.lote_fecha {
            Some(f) => f == ts,
            None => false,
        },
        None => true,
    };
    named && fresh && dated
}

/// Export mode that keeps only tags never visited.
pub open spec fn available_mode() -> Seq<char> {
    "available"@
}

/// The export of batch `lote_nombre`, sorted by code: only tags never
/// visited when `tipo` is `available`, every tag of the batch otherwise, and
/// only the batch created at instant `ts` when it is given.
pub fn export_batch(tags: &Vec<Iman>, lote_nombre: &str, tipo: &str, ts: Option<i64>, base_url: &str) -> (r: String)
    ensures
        exists|order: Seq<usize>|
            {
                &&& is_code_ordering(
                    codes_of(tags@),
                    batch_selection(tags@, lote_nombre@, tipo@ == available_mode(), ts),
                    tags@.len(),
                    order,
                )
                &&& r@ == csv_text(codes_at(tags@, order), base_url@)
            },
{
    let available_only = String::from_str(tipo) == String::from_str("available");
    let mut eligible: Vec<bool> = Vec::new();
    let mut i: usize = 0;
    while i < tags.len()
        invariant
            i <= tags.len(),
            eligible@.len() == i,
            forall|k: int|
                0 <= k < i ==> eligible@[k] == in_batch_export(tags@[k], lote_nombre@, available_only, ts),
        decreases tags.len() - i,
    {
        eligible.push(is_in_batch_export(&tags[i], lote_nombre, available_only, ts));
        i = i + 1;
    }
    assert(eligible@ =~= batch_selection(tags@, lote_nombre@, tipo@ == available_mode(), ts));
    let order = order_by_code(tags, &eligible);
    csv_for(tags, &order, base_url)
}

/// File name offered for the export of batch `name` in mode `mode`.
pub open spec fn batch_export_file(name: Seq<char>, mode: Seq<char>) -> Seq<char> {
    "lote_"@ + name + "_"@ + mode + ".csv"@
}

/// File name offered for the export of batch `lote_nombre` in mode `tipo`.
pub fn batch_export_filename(lote_nombre: &str, tipo: &str) -> (r: String)
    ensures
        r@ == batch_export_file(lote_nombre@, tipo@),
{
    let mut r = String::from_str("lote_");
    r.append(lote_nombre);
    r.append("_");
    r.append(tipo);
    r.append(".csv");
    r
}

} // verus!
