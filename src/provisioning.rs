//! Provisioning of a batch of new, unconfigured tags.

use vstd::prelude::*;
use crate::model::{GenerateLoteRequest, Iman};
use crate::text::push_char;

verus! {

/// The decimal digit `d` (0 to 9).
pub open spec fn digit_char(d: int) -> char {
    if d == 0 {
        '0'
    } else if d == 1 {
        '1'
    } else if d == 2 {
        '2'
    } else if d == 3 {
        '3'
    } else if d == 4 {
        '4'
    } else if d == 5 {
        '5'
    } else if d == 6 {
        '6'
    } else if d == 7 {
        '7'
    } else if d == 8 {
        '8'
    } else {
        '9'
    }
}

/// `n` written in decimal, without leading zeros.
pub open spec fn decimal(n: nat) -> Seq<char>
    decreases n,
{
    if n < 10 {
        seq![digit_char(n as int)]
    } else {
        decimal(n / 10).push(digit_char((n % 10) as int))
    }
}

/// `n` written in decimal, padded with zeros to at least four digits.
pub open spec fn padded4(n: nat) -> Seq<char> {
    let zeros: Seq<char> = if n < 10 {
        seq!['0', '0', '0']
    } else if n < 100 {
        seq!['0', '0']
    } else if n < 1000 {
        seq!['0']
    } else {
        seq![]
    };
    zeros + decimal(n)
}

fn digit(d: u64) -> (c: char)
    requires
        d < 10,
    ensures
        c == digit_char(d as int),
{
    if d == 0 {
        '0'
    } else if d == 1 {
        '1'
    } else if d == 2 {
        '2'
    } else if d == 3 {
        '3'
    } else if d == 4 {
        '4'
    } else if d == 5 {
        '5'
    } else if d == 6 {
        '6'
    } else if d == 7 {
        '7'
    } else if d == 8 {
        '8'
    } else {
        '9'
    }
}

/// Appends `n` in decimal.
pub fn push_decimal(out: &mut String, n: u64)
    ensures
        final(out)@ == old(out)@ + decimal(n as nat),
    decreases n,
{
    if n >= 10 {
        push_decimal(out, n / 10);
    }
    push_char(out, digit(n % 10));
    assert(n >= 10 ==> decimal(n as nat) == decimal((n / 10) as nat).push(digit_char((n % 10) as int)));
}

/// Appends `n` in decimal, padded with zeros to at least four digits.
pub fn push_padded4(out: &mut String, n: u64)
    ensures
        final(out)@ == old(out)@ + padded4(n as nat),
{
    let ghost start = out@;
    if n < 10 {
        push_char(out, '0');
        push_char(out, '0');
        push_char(out, '0');
    } else if n < 100 {
        push_char(out, '0');
        push_char(out, '0');
    } else if n < 1000 {
        push_char(out, '0');
    }
    let ghost padded = out@;
    push_decimal(out, n);
    assert(out@ =~= start + padded4(n as nat));
}

/// `s` without its space characters.
pub open spec fn without_spaces(s: Seq<char>) -> Seq<char>
    decreases s.len(),
{
    if s.len() == 0 {
        s
    } else if s.last() == ' ' {
        without_spaces(s.drop_last())
    } else {
        without_spaces(s.drop_last()).push(s.last())
    }
}

/// `s` without its space characters.
pub fn strip_spaces(s: &str) -> (r: String)
    ensures
        r@ == without_spaces(s@),
{
    let n = s.unicode_len();
    let mut r = String::new();
    let mut i: usize = 0;
    while i < n
        invariant
            n == s@.len(),
            i <= n,
            r@ == without_spaces(s@.subrange(0, i as int)),
        decreases n - i,
    {
        let c = s.get_char(i);
        assert(s@.subrange(0, i + 1).drop_last() =~= s@.subrange(0, i as int));
        if c != ' ' {
            push_char(&mut r, c);
        }
        i = i + 1;
    }
    assert(s@.subrange(0, n as int) =~= s@);
    r
}

/// `s` in upper case, as `str::to_uppercase` writes it.
pub uninterp spec fn upper_of(s: Seq<char>) -> Seq<char>;

/// Relies on `str::to_uppercase`: the upper-case form of the text.
#[verifier::external_body]
fn to_upper(s: &str) -> (r: String)
    ensures
        r@ == upper_of(s@),
{
    s.to_uppercase()
}

/// The code prefix of a batch name: spaces removed, in upper case.
pub open spec fn batch_slug(name: Seq<char>) -> Seq<char> {
    upper_of(without_spaces(name))
}

/// Code prefix of the batch named `nombre_lote`.
pub fn slug_of(nombre_lote: &str) -> (r: String)
    ensures
        r@ == batch_slug(nombre_lote@),
{
    let bare = strip_spaces(nombre_lote);
    to_upper(bare.as_str())
}

/// Code of the tag numbered `seq_no` in a batch with prefix `slug` and
/// uniqueness token `token`: `{slug}-{token}-{seq_no, four digits}`.
pub open spec fn batch_code(slug: Seq<char>, token: nat, seq_no: nat) -> Seq<char> {
    slug + seq!['-'] + decimal(token) + seq!['-'] + padded4(seq_no)
}

/// `t` is a new, unconfigured tag with code `code` in the batch `name`
/// created at instant `created`.
pub open spec fn is_fresh_tag(t: Iman, code: Seq<char>, name: Seq<char>, created: i64) -> bool {
    &&& t.id is None
    &&& t.codigo@ == code
    &&& t.target_url is None
    &&& !t.active
    &&& t.visitas == 0
    &&& t.activated_at is None
    &&& t.last_scan_at is None
    &&& !t.exported
    &&& (t.lote_nombre matches Some(n) && n@ == name)
    &&& t.lote_fecha == Some(created)
}

/// Number of tags a request for `cantidad` produces.
pub open spec fn batch_size(cantidad: i32) -> nat {
    if cantidad > 0 {
        cantidad as nat
    } else {
        0
    }
}

/// The tags of a batch named `nombre_lote` with code prefix `slug`, token
/// `token`, created at instant `now_ms`, numbered from 1 to `cantidad`.
pub fn batch_with_slug(slug: &str, nombre_lote: &str, token: u64, cantidad: i32, now_ms: i64) -> (r: Vec<Iman>)
    ensures
        r@.len() == batch_size(cantidad),
        forall|k: int|
            0 <= k < r@.len() ==> is_fresh_tag(
                r@[k],
                batch_code(slug@, token as nat, (k + 1) as nat),
                nombre_lote@,
                now_ms,
            ),
{
    let mut r: Vec<Iman> = Vec::new();
    let mut i: i64 = 1;
    if cantidad <= 0 {
        return r;
    }
    while i <= cantidad as i64
        invariant
            1 <= i <= cantidad + 1,
            r@.len() == i - 1,
            forall|k: int|
                0 <= k < r@.len() ==> is_fresh_tag(
                    r@[k],
                    batch_code(slug@, token as nat, (k + 1) as nat),
                    nombre_lote@,
                    now_ms,
                ),
        decreases cantidad + 1 - i,
    {
        let mut codigo = String::from_str(slug);
        push_char(&mut codigo, '-');
        push_decimal(&mut codigo, token);
        push_char(&mut codigo, '-');
        push_padded4(&mut codigo, i as u64);
        assert(codigo@ =~= batch_code(slug@, token as nat, i as nat));
        r.push(
            Iman {
                id: None,
                codigo,
                target_url: None,
                active: false,
                visitas: 0,
                activated_at: None,
                last_scan_at: None,
                exported: false,
                lote_nombre: Some(String::from_str(nombre_lote)),
                lote_fecha: Some(now_ms),
            },
        );
        i = i + 1;
    }
    r
}

/// The uniqueness token keeps the last six decimal digits of the clock.
pub const TOKEN_MODULUS: u64 = 1000000;

/// The tags that `request` provisions, where `unix_secs` is the current
/// time in seconds and `now_ms` the batch instant in milliseconds.
pub fn generate_lote(request: &GenerateLoteRequest, unix_secs: u64, now_ms: i64) -> (r: Vec<Iman>)
    ensures
        r@.len() == batch_size(request.cantidad),
        forall|k: int|
            0 <= k < r@.len() ==> is_fresh_tag(
                r@[k],
                batch_code(
                    batch_slug(request.nombre_lote@),
                    (unix_secs % TOKEN_MODULUS) as nat,
                    (k + 1) as nat,
                ),
                request.nombre_lote@,
                now_ms,
            ),
{
    let slug = slug_of(request.nombre_lote.as_str());
    batch_with_slug(slug.as_str(), request.nombre_lote.as_str(), unix_secs % TOKEN_MODULUS, request.cantidad, now_ms)
}

} // verus!
