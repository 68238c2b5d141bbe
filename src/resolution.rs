//! Resolving a scanned code and configuring a tag's target.

use vstd::prelude::*;
use crate::model::Iman;
use crate::text::{contains_text, has_infix, has_prefix, starts_with_text};

verus! {

/// What a scan leads to.
pub enum Resolution {
    /// No tag has the scanned code.
    NotFound,
    /// The tag is configured: redirect to its target.
    Redirect(String),
    /// The tag exists but has no usable target yet: ask for one, showing
    /// the scanned code.
    NeedsSetup(String),
}

/// `t` has a target that a scan can be redirected to.
pub open spec fn redirects(t: Iman) -> bool {
    t.active && (t.target_url matches Some(u) && u@.len() > 0)
}

/// `r` is what a scan of `code` leads to, where `found` is the tag as it
/// stands after the scan was counted, if the code exists.
pub open spec fn resolves_to(code: Seq<char>, found: Option<Iman>, r: Resolution) -> bool {
    match found {
        None => r is NotFound,
        Some(t) => if redirects(t) {
            r == Resolution::Redirect(t.target_url->0)
        } else {
            r matches Resolution::NeedsSetup(c) && c@ == code
        },
    }
}

/// What a scan of `codigo` leads to, given the tag as it stands after the
/// scan was counted, if the code exists.
pub fn resolution_for(codigo: &str, found: Option<Iman>) -> (r: Resolution)
    ensures
        resolves_to(codigo@, found, r),
{
    match found {
        None => Resolution::NotFound,
        Some(t) => {
            if t.active {
                match t.target_url {
                    Some(u) => {
                        if u.as_str().unicode_len() > 0 {
                            return Resolution::Redirect(u);
                        }
                    },
                    None => {},
                }
            }
            Resolution::NeedsSetup(String::from_str(codigo))
        },
    }
}

/// The counter increment of one scan: one more, up to the counter's limit.
pub open spec fn one_more(n: u32) -> u32 {
    if n < u32::MAX {
        (n + 1) as u32
    } else {
        n
    }
}

/// `t` after a scan at instant `now`.
pub open spec fn scanned(t: Iman, now: i64) -> Iman {
    Iman { visitas: one_more(t.visitas), last_scan_at: Some(now), ..t }
}

/// Counts a scan of `t` at instant `now`.
pub fn record_scan(t: &mut Iman, now: i64)
    ensures
        *final(t) == scanned(*old(t), now),
{
    if t.visitas < u32::MAX {
        t.visitas = t.visitas + 1;
    }
    t.last_scan_at = Some(now);
}

/// Why a target URL was refused.
#[derive(PartialEq, Eq, Structural, Clone, Copy, Debug)]
pub enum ConfigError {
    /// The URL does not start with `https://`.
    InsecureScheme,
    /// The URL names none of the accepted platforms.
    DisallowedDomain,
}

/// The platforms a tag may lead to.
pub open spec fn allowed_domains() -> Seq<Seq<char>> {
    seq![
        "instagram.com"@,
        "tiktok.com"@,
        "facebook.com"@,
        "youtube.com"@,
        "twitter.com"@,
        "x.com"@,
    ]
}

/// Verdict on a target URL that has already been trimmed.
pub open spec fn url_verdict(url: Seq<char>) -> Result<(), ConfigError> {
    if !has_prefix(url, "https://"@) {
        Err(ConfigError::InsecureScheme)
    } else if !(exists|d: int| 0 <= d < allowed_domains().len() && has_infix(url, allowed_domains()[d])) {
        Err(ConfigError::DisallowedDomain)
    } else {
        Ok(())
    }
}

/// Checks a trimmed target URL: it must start with `https://` and name one
/// of the accepted platforms.
pub fn check_target_url(url: &str) -> (r: Result<(), ConfigError>)
    ensures
        r == url_verdict(url@),
{
    if !starts_with_text(url, "https://") {
        return Err(ConfigError::InsecureScheme);
    }
    let domains: [&str; 6] = [
        "instagram.com",
        "tiktok.com",
        "facebook.com",
        "youtube.com",
        "twitter.com",
        "x.com",
    ];
    assert(domains@.len() == 6);
    let mut k: usize = 0;
    while k < 6
        invariant
            k <= 6,
            has_prefix(url@, "https://"@),
            forall|d: int| 0 <= d < 6 ==> #[trigger] domains@[d]@ == allowed_domains()[d],
            forall|d: int| 0 <= d < k ==> !has_infix(url@, allowed_domains()[d]),
        decreases 6 - k,
    {
        if contains_text(url, domains[k]) {
            assert(has_infix(url@, allowed_domains()[k as int]));
            assert(allowed_domains().len() == 6);
            return Ok(());
        }
        k = k + 1;
    }
    Err(ConfigError::DisallowedDomain)
}

/// `c` has the Unicode White_Space property.
pub open spec fn is_white_space(c: char) -> bool {
    let u = c as int;
    ||| 0x09 <= u <= 0x0D
    ||| u == 0x20
    ||| u == 0x85
    ||| u == 0xA0
    ||| u == 0x1680
    ||| 0x2000 <= u <= 0x200A
    ||| u == 0x2028
    ||| u == 0x2029
    ||| u == 0x202F
    ||| u == 0x205F
    ||| u == 0x3000
}

/// `s` without its leading whitespace.
pub open spec fn trim_start(s: Seq<char>) -> Seq<char>
    decreases s.len(),
{
    if s.len() > 0 && is_white_space(s[0]) {
        trim_start(s.drop_first())
    } else {
        s
    }
}

/// `s` without its trailing whitespace.
pub open spec fn trim_end(s: Seq<char>) -> Seq<char>
    decreases s.len(),
{
    if s.len() > 0 && is_white_space(s.last()) {
        trim_end(s.drop_last())
    } else {
        s
    }
}

/// `s` without its leading and trailing whitespace.
pub open spec fn trimmed(s: Seq<char>) -> Seq<char> {
    trim_end(trim_start(s))
}

/// Relies on `str::trim`: leading and trailing characters with the Unicode
/// White_Space property removed.
#[verifier::external_body]
fn trim_text(s: &str) -> (r: &str)
    ensures
        r@ == trimmed(s@),
{
    s.trim()
}

/// The target URL to store for the raw input `raw`: the input trimmed, when
/// it passes the checks.
pub fn validate_target_url(raw: &str) -> (r: Result<String, ConfigError>)
    ensures
        match r {
            Ok(u) => url_verdict(trimmed(raw@)) is Ok && u@ == trimmed(raw@),
            Err(e) => url_verdict(trimmed(raw@)) == Err::<(), ConfigError>(e),
        },
{
    let url = trim_text(raw);
    match check_target_url(url) {
        Ok(()) => Ok(String::from_str(url)),
        Err(e) => Err(e),
    }
}

/// `new` is `old` configured to lead to `url` at instant `now`. The
/// activation instant is set by the first configuration only.
pub open spec fn configured(old: Iman, new: Iman, url: Seq<char>, now: i64) -> bool {
    &&& (new.target_url matches Some(u) && u@ == url)
    &&& new.active
    &&& new.activated_at == if old.activated_at is Some {
        old.activated_at
    } else {
        Some(now)
    }
    &&& new.last_scan_at == Some(now)
    &&& new.id == old.id
    &&& new.codigo == old.codigo
    &&& new.visitas == old.visitas
    &&& new.exported == old.exported
    &&& new.lote_nombre == old.lote_nombre
    &&& new.lote_fecha == old.lote_fecha
}

/// Sets the target of `t` to the accepted URL `url` at instant `now`; the
/// activation instant is kept where `t` already has one.
pub fn apply_configuration(t: &mut Iman, url: String, now: i64)
    ensures
        configured(*old(t), *final(t), url@, now),
{
    t.target_url = Some(url);
    t.active = true;
    if t.activated_at.is_none() {
        t.activated_at = Some(now);
    }
    t.last_scan_at = Some(now);
}

} // verus!
