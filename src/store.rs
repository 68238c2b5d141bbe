//! An in-memory tag collection with the store's atomic operations, and the
//! laws that hold of any sequence of them.

use vstd::prelude::*;
use crate::export::{awaiting_codes, awaits_export, csv_text, export_awaiting, marked, mark_awaiting};
use crate::model::{GenerateLoteRequest, Iman};
use crate::provisioning::{batch_code, batch_size, batch_slug, generate_lote, is_fresh_tag, TOKEN_MODULUS};
use crate::resolution::{
    apply_configuration, configured, record_scan, resolution_for, resolves_to, scanned,
    trimmed, url_verdict, validate_target_url, ConfigError, Resolution,
};

verus! {

/// A tag is active exactly when it has a target, and an active tag's
/// target is not empty.
pub open spec fn tag_consistent(t: Iman) -> bool {
    if t.active {
        t.target_url matches Some(u) && u@.len() > 0
    } else {
        t.target_url is None
    }
}

/// Every tag of the collection is consistent.
pub open spec fn all_consistent(tags: Seq<Iman>) -> bool {
    forall|k: int| 0 <= k < tags.len() ==> tag_consistent(#[trigger] tags[k])
}

/// `i` is the first position of `tags` whose code is `code`.
pub open spec fn is_first_with_code(tags: Seq<Iman>, code: Seq<char>, i: int) -> bool {
    &&& 0 <= i < tags.len()
    &&& tags[i].codigo@ == code
    &&& forall|j: int| 0 <= j < i ==> tags[j].codigo@ != code
}

/// The first position of `tags` whose code is `code`, if any: the tag that
/// a lookup by code finds.
pub open spec fn position_of(tags: Seq<Iman>, code: Seq<char>) -> Option<int> {
    if exists|i: int| is_first_with_code(tags, code, i) {
        Some(choose|i: int| is_first_with_code(tags, code, i))
    } else {
        None
    }
}

proof fn lemma_position_of(tags: Seq<Iman>, code: Seq<char>, i: int)
    requires
        is_first_with_code(tags, code, i),
    ensures
        position_of(tags, code) == Some(i),
{
    let j = choose|j: int| is_first_with_code(tags, code, j);
    assert(is_first_with_code(tags, code, j));
    if j < i {
        assert(tags[j].codigo@ != code);
    } else if i < j {
        assert(tags[i].codigo@ != code);
    }
}

/// Tags that carry the same codes in the same places are found alike.
proof fn lemma_position_of_same_codes(a: Seq<Iman>, b: Seq<Iman>, code: Seq<char>)
    requires
        a.len() == b.len(),
        forall|k: int| 0 <= k < a.len() ==> a[k].codigo == b[k].codigo,
    ensures
        position_of(a, code) == position_of(b, code),
{
    if exists|i: int| is_first_with_code(a, code, i) {
        let i = choose|i: int| is_first_with_code(a, code, i);
        lemma_position_of(a, code, i);
        lemma_position_of(b, code, i);
    } else if exists|i: int| is_first_with_code(b, code, i) {
        let i = choose|i: int| is_first_with_code(b, code, i);
        assert(is_first_with_code(a, code, i));
    }
}

/// Position of the first tag whose code is `code`.
pub fn find_code(tags: &Vec<Iman>, code: &str) -> (r: Option<usize>)
    ensures
        match r {
            Some(i) => position_of(tags@, code@) == Some(i as int),
            None => position_of(tags@, code@) is None,
        },
{
    let wanted = String::from_str(code);
    let mut i: usize = 0;
    while i < tags.len()
        invariant
            i <= tags.len(),
            wanted@ == code@,
            forall|j: int| 0 <= j < i ==> tags@[j].codigo@ != code@,
        decreases tags.len() - i,
    {
        if tags[i].codigo == wanted {
            proof {
                lemma_position_of(tags@, code@, i as int);
            }
            return Some(i);
        }
        i = i + 1;
    }
    None
}

/// The collection after one resolution of `code` at instant `now`: the tag
/// found, if any, has one more visit and `now` as its last scan.
pub open spec fn after_scan(tags: Seq<Iman>, code: Seq<char>, now: i64) -> Seq<Iman> {
    match position_of(tags, code) {
        Some(i) => tags.update(i, scanned(tags[i], now)),
        None => tags,
    }
}

/// The tag that a resolution of `code` at instant `now` returns: the tag
/// found, as it stands after the update.
pub open spec fn scan_result(tags: Seq<Iman>, code: Seq<char>, now: i64) -> Option<Iman> {
    match position_of(tags, code) {
        Some(i) => Some(scanned(tags[i], now)),
        None => None,
    }
}

/// Every tag of the collection marked as exported where it awaited export.
pub open spec fn marked_all(tags: Seq<Iman>) -> Seq<Iman> {
    Seq::new(tags.len(), |k: int| marked(tags[k]))
}

fn copy_tag(t: &Iman) -> (r: Iman)
    ensures
        r == *t,
{
    Iman {
        id: t.id,
        codigo: t.codigo.clone(),
        target_url: match &t.target_url {
            Some(u) => Some(u.clone()),
            None => None,
        },
        active: t.active,
        visitas: t.visitas,
        activated_at: t.activated_at,
        last_scan_at: t.last_scan_at,
        exported: t.exported,
        lote_nombre: match &t.lote_nombre {
            Some(n) => Some(n.clone()),
            None => None,
        },
        lote_fecha: t.lote_fecha,
    }
}

/// A collection of tags held in memory, with the operations that the
/// engines perform on the store, each one atomic.
pub struct TagStore {
    pub tags: Vec<Iman>,
}

impl TagStore {
    /// An empty collection.
    pub fn new() -> (r: TagStore)
        ensures
            r.tags@.len() == 0,
    {
        TagStore { tags: Vec::new() }
    }

    /// A collection holding `tags`.
    pub fn from_tags(tags: Vec<Iman>) -> (r: TagStore)
        ensures
            r.tags@ == tags@,
    {
        TagStore { tags }
    }

    /// Resolves a scan of `code` at instant `now`: the tag found, if any,
    /// is counted and stamped in one step, and the outcome is decided on
    /// the tag as it stands afterwards.
    pub fn resolve(&mut self, code: &str, now: i64) -> (r: Resolution)
        ensures
            final(self).tags@ == after_scan(old(self).tags@, code@, now),
            resolves_to(code@, scan_result(old(self).tags@, code@, now), r),
            all_consistent(old(self).tags@) ==> all_consistent(final(self).tags@),
    {
        match find_code(&self.tags, code) {
            None => resolution_for(code, None),
            Some(i) => {
                record_scan(&mut self.tags[i], now);
                let found = copy_tag(&self.tags[i]);
                resolution_for(code, Some(found))
            },
        }
    }

    /// Sets the target of the tag `code` from the raw input `raw_url` at
    /// instant `now`. The input is trimmed and checked; when it passes, the
    /// tag found, if any, is configured. A code that no tag has changes
    /// nothing and still succeeds.
    pub fn configure(&mut self, code: &str, raw_url: &str, now: i64) -> (r: Result<(), ConfigError>)
        ensures
            match r {
                Ok(()) => url_verdict(trimmed(raw_url@)) is Ok,
                Err(e) => url_verdict(trimmed(raw_url@)) == Err::<(), ConfigError>(e),
            },
            final(self).tags@.len() == old(self).tags@.len(),
            r is Err || position_of(old(self).tags@, code@) is None ==> final(self).tags@ == old(
                self,
            ).tags@,
            r is Ok ==> match position_of(old(self).tags@, code@) {
                Some(i) => configured(
                    old(self).tags@[i],
                    final(self).tags@[i],
                    trimmed(raw_url@),
                    now,
                ) && forall|j: int|
                    0 <= j < old(self).tags@.len() && j != i ==> final(self).tags@[j] == old(
                        self,
                    ).tags@[j],
                None => true,
            },
            all_consistent(old(self).tags@) ==> all_consistent(final(self).tags@),
    {
        let url = match validate_target_url(raw_url) {
            Ok(u) => u,
            Err(e) => {
                return Err(e);
            },
        };
        match find_code(&self.tags, code) {
            None => {},
            Some(i) => {
                proof {
                    reveal_strlit("https://");
                }
                assert(url@.len() >= 8);
                apply_configuration(&mut self.tags[i], url, now);
                assert(tag_consistent(self.tags@[i as int]));
                assert forall|k: int|
                    all_consistent(old(self).tags@) && 0 <= k < self.tags@.len() implies tag_consistent(
                        #[trigger] self.tags@[k],
                    ) by {
                    if k != i {
                        assert(self.tags@[k] == old(self).tags@[k]);
                    }
                }
            },
        }
        Ok(())
    }

    /// Provisions the batch that `request` asks for, with `unix_secs` the
    /// current time in seconds and `now` the batch instant, and adds all of
    /// its tags in one step.
    pub fn insert_batch(&mut self, request: &GenerateLoteRequest, unix_secs: u64, now: i64)
        ensures
            final(self).tags@.len() == old(self).tags@.len() + batch_size(request.cantidad),
            forall|k: int|
                0 <= k < old(self).tags@.len() ==> final(self).tags@[k] == old(self).tags@[k],
            forall|j: int|
                old(self).tags@.len() <= j < final(self).tags@.len() ==> is_fresh_tag(
                    final(self).tags@[j],
                    batch_code(
                        batch_slug(request.nombre_lote@),
                        (unix_secs % TOKEN_MODULUS) as nat,
                        (j - old(self).tags@.len() + 1) as nat,
                    ),
                    request.nombre_lote@,
                    now,
                ),
            all_consistent(old(self).tags@) ==> all_consistent(final(self).tags@),
    {
        let mut batch = generate_lote(request, unix_secs, now);
        self.tags.append(&mut batch);
    }

    /// Exports every tag that awaits export and marks them exported; `None`
    /// when there is none, which changes nothing.
    pub fn export_unexported(&mut self, base_url: &str) -> (r: Option<String>)
        ensures
            r is None <==> awaiting_codes(old(self).tags@).len() == 0,
            r matches Some(csv) ==> csv@ == csv_text(awaiting_codes(old(self).tags@), base_url@),
            final(self).tags@ == marked_all(old(self).tags@),
            all_consistent(old(self).tags@) ==> all_consistent(final(self).tags@),
    {
        let r = export_awaiting(&self.tags, base_url);
        mark_awaiting(&mut self.tags);
        assert(self.tags@ =~= marked_all(old(self).tags@));
        r
    }
}

/// The collection after resolutions of `code` at each instant of `times`,
/// one after the other.
pub open spec fn after_scans(tags: Seq<Iman>, code: Seq<char>, times: Seq<i64>) -> Seq<Iman>
    decreases times.len(),
{
    if times.len() == 0 {
        tags
    } else {
        after_scan(after_scans(tags, code, times.drop_last()), code, times.last())
    }
}

/// No resolution is lost: after any number of resolutions of an existing
/// code, its tag's counter has grown by exactly that number, as long as the
/// counter stays within its range; the same tag is found throughout.
pub proof fn law_scans_all_counted(tags: Seq<Iman>, code: Seq<char>, times: Seq<i64>)
    requires
        position_of(tags, code) is Some,
        tags[position_of(tags, code)->0].visitas + times.len() <= u32::MAX,
    ensures
        after_scans(tags, code, times).len() == tags.len(),
        position_of(after_scans(tags, code, times), code) == position_of(tags, code),
        after_scans(tags, code, times)[position_of(tags, code)->0].visitas == tags[position_of(
            tags,
            code,
        )->0].visitas + times.len(),
    decreases times.len(),
{
    if times.len() > 0 {
        let prev = after_scans(tags, code, times.drop_last());
        law_scans_all_counted(tags, code, times.drop_last());
        let i = position_of(tags, code)->0;
        let next = prev.update(i, scanned(prev[i], times.last()));
        assert(after_scans(tags, code, times) == next);
        lemma_position_of_same_codes(prev, next, code);
    }
}

proof fn lemma_nothing_awaits(tags: Seq<Iman>)
    requires
        forall|k: int| 0 <= k < tags.len() ==> !awaits_export(tags[k]),
    ensures
        awaiting_codes(tags).len() == 0,
    decreases tags.len(),
{
    if tags.len() > 0 {
        lemma_nothing_awaits(tags.drop_last());
    }
}

/// Exports drain: once an export has marked what it selected, nothing
/// awaits export, so an export right after it finds nothing.
pub proof fn law_export_drains(tags: Seq<Iman>)
    ensures
        awaiting_codes(marked_all(tags)).len() == 0,
{
    lemma_nothing_awaits(marked_all(tags));
}

} // verus!
