//! The `Content-Disposition` header of a multipart section.

use crate::error::{fails_as, Error, Failure};
use crate::outside::{
    decode_iso_8859, decode_named_charset, extended_value, iso_8859_text, named_charset_text,
    parse_extended_value, string_from_utf8,
};
use vstd::prelude::*;
use vstd::string::StringSliceAdditionalSpecFns;
use vstd::utf8::{decode_utf8, valid_utf8};

verus! {

/// An ASCII whitespace byte: space, tab, line feed, vertical tab, form feed or carriage return.
pub open spec fn is_ws(b: u8) -> bool {
    b == 32 || b == 9 || b == 10 || b == 11 || b == 12 || b == 13
}

/// The first index in `[i, end)` that holds `c`, or `end`.
pub open spec fn find_from(s: Seq<u8>, i: int, end: int, c: u8) -> int
    decreases end - i,
{
    if i >= end {
        end
    } else if s[i] == c {
        i
    } else {
        find_from(s, i + 1, end, c)
    }
}

/// The length of the UTF-8 encoding of a Unicode whitespace character (as `char::is_whitespace`
/// has it) that starts at index `i` and ends by `end`, or 0 where none does: the ASCII ones,
/// U+0085, U+00A0, U+1680, U+2000 to U+200A, U+2028, U+2029, U+202F, U+205F and U+3000.
pub open spec fn ws_at(s: Seq<u8>, i: int, end: int) -> int {
    if 0 <= i < end && is_ws(s[i]) {
        1
    } else if 0 <= i && i + 2 <= end && s[i] == 0xC2 && (s[i + 1] == 0x85 || s[i + 1] == 0xA0) {
        2
    } else if 0 <= i && i + 3 <= end && ((s[i] == 0xE1 && s[i + 1] == 0x9A && s[i + 2] == 0x80) || (
    s[i] == 0xE2 && s[i + 1] == 0x80 && (s[i + 2] <= 0x8A || s[i + 2] == 0xA8 || s[i + 2] == 0xA9
        || s[i + 2] == 0xAF)) || (s[i] == 0xE2 && s[i + 1] == 0x81 && s[i + 2] == 0x9F) || (s[i]
        == 0xE3 && s[i + 1] == 0x80 && s[i + 2] == 0x80)) && 0x80 <= s[i + 2] {
        3
    } else {
        0
    }
}

/// The length of such a whitespace character that ends at index `j` and starts at or after `a`,
/// or 0 where none does.
pub open spec fn ws_before(s: Seq<u8>, a: int, j: int) -> int {
    if a <= j - 1 && j <= s.len() && is_ws(s[j - 1]) {
        1
    } else if a <= j - 2 && j <= s.len() && ws_at(s, j - 2, j) == 2 {
        2
    } else if a <= j - 3 && j <= s.len() && ws_at(s, j - 3, j) == 3 {
        3
    } else {
        0
    }
}

/// The first index in `[i, end)` where no whitespace character starts, or `end`.
pub open spec fn skip_ws(s: Seq<u8>, i: int, end: int) -> int
    decreases end - i,
{
    if i >= end || i < 0 || end > s.len() {
        end
    } else if ws_at(s, i, end) > 0 {
        skip_ws(s, i + ws_at(s, i, end), end)
    } else {
        i
    }
}

/// `j` with the whitespace characters that end `s[a..j]` taken off.
pub open spec fn back_ws(s: Seq<u8>, a: int, j: int) -> int
    decreases j - a,
{
    if j <= a || j > s.len() {
        a
    } else if ws_before(s, a, j) > 0 {
        back_ws(s, a, j - ws_before(s, a, j))
    } else {
        j
    }
}

/// `s[a..b]` with leading and trailing whitespace taken off.
pub open spec fn trimmed(s: Seq<u8>, a: int, b: int) -> Seq<u8> {
    let x = skip_ws(s, a, b);
    s.subrange(x, back_ws(s, x, b))
}

/// An ASCII byte in lower case.
pub open spec fn lower_byte(b: u8) -> u8 {
    if 65 <= b <= 90 {
        (b + 32) as u8
    } else {
        b
    }
}

/// Bytes with ASCII letters in lower case.
pub open spec fn lower(s: Seq<u8>) -> Seq<u8> {
    s.map_values(|b: u8| lower_byte(b))
}

/// A value with one pair of enclosing double quotes taken off.
pub open spec fn unquoted(v: Seq<u8>) -> Seq<u8> {
    if v.len() >= 2 && v[0] == 34 && v[v.len() - 1] == 34 {
        v.subrange(1, v.len() - 1)
    } else {
        v
    }
}

/// The parameter key `name`.
pub open spec fn key_name() -> Seq<u8> {
    seq![110u8, 97, 109, 101]
}

/// The parameter key `filename`.
pub open spec fn key_filename() -> Seq<u8> {
    seq![102u8, 105, 108, 101, 110, 97, 109, 101]
}

/// The parameter key `filename*`, a filename in an extended encoding.
pub open spec fn key_filename_ext() -> Seq<u8> {
    seq![102u8, 105, 108, 101, 110, 97, 109, 101, 42]
}

/// The raw `name`, `filename` and `filename*` values of a disposition.
pub type Params = (Option<Seq<u8>>, Option<Seq<u8>>, Option<Seq<u8>>);

/// The `name`, `filename` and `filename*` values so far, updated by the parameter `s[i..j]`:
/// `key=value`, with the key trimmed and compared without case and the value trimmed (and, but
/// for `filename*`, unquoted). Text after a second `=` is dropped, or, when `strict`, the whole
/// parameter is.
pub open spec fn apply_param(
    s: Seq<u8>,
    i: int,
    j: int,
    strict: bool,
    acc: Params,
) -> Params {
    let k = find_from(s, i, j, 61);
    if k >= j {
        acc
    } else {
        let k2 = find_from(s, k + 1, j, 61);
        if strict && k2 < j {
            acc
        } else {
            let key = lower(trimmed(s, i, k));
            let val = unquoted(trimmed(s, k + 1, k2));
            if key == key_name() {
                (Some(val), acc.1, acc.2)
            } else if key == key_filename() {
                (acc.0, Some(val), acc.2)
            } else if key == key_filename_ext() {
                (acc.0, acc.1, Some(trimmed(s, k + 1, k2)))
            } else {
                acc
            }
        }
    }
}

/// The `name`, `filename` and `filename*` values given by the `;`-separated parameters of `s`
/// from index `i` on, later ones overriding earlier ones.
pub open spec fn params_from(
    s: Seq<u8>,
    i: int,
    strict: bool,
    acc: Params,
) -> Params
    decreases s.len() + 1 - i,
{
    if i > s.len() || i < 0 {
        acc
    } else {
        let j = find_from(s, i, s.len() as int, 59);
        if j < i || j > s.len() {
            acc
        } else {
            params_from(s, j + 1, strict, apply_param(s, i, j, strict, acc))
        }
    }
}

/// The disposition type of a raw header value: its first `;`-separated part, trimmed, in lower
/// case.
pub open spec fn disposition_type(s: Seq<u8>) -> Seq<u8> {
    lower(trimmed(s, 0, find_from(s, 0, s.len() as int, 59)))
}

/// The `name`, `filename` and `filename*` parameters of a raw header value, as bytes.
pub open spec fn disposition_params(s: Seq<u8>, strict: bool) -> Params {
    params_from(s, find_from(s, 0, s.len() as int, 59) + 1, strict, (None, None, None))
}

/// Optional bytes are absent or valid UTF-8.
pub open spec fn valid_opt(o: Option<Seq<u8>>) -> bool {
    match o {
        Some(b) => valid_utf8(b),
        None => true,
    }
}

/// The text of optional bytes.
pub open spec fn text_opt(o: Option<Seq<u8>>) -> Option<Seq<char>> {
    match o {
        Some(b) => Some(decode_utf8(b)),
        None => None,
    }
}

/// The view of an optional string.
pub open spec fn string_opt(o: Option<String>) -> Option<Seq<char>> {
    match o {
        Some(s) => Some(s@),
        None => None,
    }
}

/// The view of optional bytes.
pub open spec fn bytes_opt(o: Option<Vec<u8>>) -> Option<Seq<u8>> {
    match o {
        Some(v) => Some(v@),
        None => None,
    }
}

fn find_byte(s: &[u8], i: usize, end: usize, c: u8) -> (r: usize)
    requires
        i <= end <= s@.len(),
    ensures
        r == find_from(s@, i as int, end as int, c),
        i <= r <= end,
{
    let mut k = i;
    while k < end
        invariant
            i <= k <= end <= s@.len(),
            find_from(s@, i as int, end as int, c) == find_from(s@, k as int, end as int, c),
        decreases end - k,
    {
        if s[k] == c {
            return k;
        }
        k = k + 1;
    }
    k
}

fn ws_at_exec(s: &[u8], i: usize, end: usize) -> (r: usize)
    requires
        i < end <= s@.len(),
    ensures
        r == ws_at(s@, i as int, end as int),
{
    let b = s[i];
    if b == 32 || b == 9 || b == 10 || b == 11 || b == 12 || b == 13 {
        return 1;
    }
    if end - i >= 2 && b == 0xC2 && (s[i + 1] == 0x85 || s[i + 1] == 0xA0) {
        return 2;
    }
    if end - i >= 3 {
        let c = s[i + 1];
        let d = s[i + 2];
        if ((b == 0xE1 && c == 0x9A && d == 0x80) || (b == 0xE2 && c == 0x80 && (d <= 0x8A || d == 0xA8
            || d == 0xA9 || d == 0xAF)) || (b == 0xE2 && c == 0x81 && d == 0x9F) || (b == 0xE3 && c
            == 0x80 && d == 0x80)) && 0x80 <= d {
            return 3;
        }
    }
    0
}

fn ws_before_exec(s: &[u8], a: usize, j: usize) -> (r: usize)
    requires
        a < j <= s@.len(),
    ensures
        r == ws_before(s@, a as int, j as int),
{
    let b = s[j - 1];
    if b == 32 || b == 9 || b == 10 || b == 11 || b == 12 || b == 13 {
        return 1;
    }
    if j - a >= 2 && ws_at_exec(s, j - 2, j) == 2 {
        return 2;
    }
    if j - a >= 3 && ws_at_exec(s, j - 3, j) == 3 {
        return 3;
    }
    0
}

fn skip_ws_exec(s: &[u8], i: usize, end: usize) -> (r: usize)
    requires
        i <= end <= s@.len(),
    ensures
        r == skip_ws(s@, i as int, end as int),
        i <= r <= end,
{
    let mut k = i;
    while k < end
        invariant
            i <= k <= end <= s@.len(),
            skip_ws(s@, i as int, end as int) == skip_ws(s@, k as int, end as int),
        decreases end - k,
    {
        let w = ws_at_exec(s, k, end);
        if w == 0 {
            return k;
        }
        k = k + w;
    }
    k
}

fn back_ws_exec(s: &[u8], a: usize, j: usize) -> (r: usize)
    requires
        a <= j <= s@.len(),
    ensures
        r == back_ws(s@, a as int, j as int),
        a <= r <= j,
{
    let mut k = j;
    while k > a
        invariant
            a <= k <= j <= s@.len(),
            back_ws(s@, a as int, j as int) == back_ws(s@, a as int, k as int),
        decreases k - a,
    {
        let w = ws_before_exec(s, a, k);
        if w == 0 {
            return k;
        }
        k = k - w;
    }
    k
}

/// Where `trimmed(s, a, b)` lies in `s`.
fn trim_bounds(s: &[u8], a: usize, b: usize) -> (r: (usize, usize))
    requires
        a <= b <= s@.len(),
    ensures
        a <= r.0 <= r.1 <= b,
        s@.subrange(r.0 as int, r.1 as int) == trimmed(s@, a as int, b as int),
{
    let x = skip_ws_exec(s, a, b);
    let y = back_ws_exec(s, x, b);
    (x, y)
}

/// `s[a..b]`, or its lower-case form.
pub(crate) fn copy_range(s: &[u8], a: usize, b: usize, lowercase: bool) -> (r: Vec<u8>)
    requires
        a <= b <= s@.len(),
    ensures
        lowercase ==> r@ == lower(s@.subrange(a as int, b as int)),
        !lowercase ==> r@ == s@.subrange(a as int, b as int),
{
    let mut r: Vec<u8> = Vec::new();
    let mut k = a;
    while k < b
        invariant
            a <= k <= b <= s@.len(),
            r@.len() == k - a,
            forall|m: int| 0 <= m < k - a ==> #[trigger] r@[m] == if lowercase {
                lower_byte(s@[a + m])
            } else {
                s@[a + m]
            },
        decreases b - k,
    {
        let c = s[k];
        if lowercase && 65 <= c && c <= 90 {
            r.push(c + 32);
        } else {
            r.push(c);
        }
        k = k + 1;
    }
    if lowercase {
        assert(r@ =~= lower(s@.subrange(a as int, b as int)));
    } else {
        assert(r@ =~= s@.subrange(a as int, b as int));
    }
    r
}

/// Whether `s[a..b]` equals `word`, a lower-case ASCII word, without regard to case.
pub(crate) fn eq_lower(s: &[u8], a: usize, b: usize, word: &[u8]) -> (r: bool)
    requires
        a <= b <= s@.len(),
    ensures
        r == (lower(s@.subrange(a as int, b as int)) == word@),
{
    let l = copy_range(s, a, b, true);
    if l.len() != word.len() {
        return false;
    }
    let mut k: usize = 0;
    while k < l.len()
        invariant
            l@.len() == word@.len(),
            l@ == lower(s@.subrange(a as int, b as int)),
            k <= l@.len(),
            forall|m: int| 0 <= m < k ==> l@[m] == word@[m],
        decreases l@.len() - k,
    {
        if l[k] != word[k] {
            return false;
        }
        k = k + 1;
    }
    assert(l@ =~= word@);
    true
}


/// The raw parameter values, as bytes.
pub type RawParams = (Option<Vec<u8>>, Option<Vec<u8>>, Option<Vec<u8>>);

/// The byte view of raw parameter values.
pub open spec fn params_view(p: RawParams) -> Params {
    (bytes_opt(p.0), bytes_opt(p.1), bytes_opt(p.2))
}

fn apply_param_exec(
    s: &[u8],
    i: usize,
    j: usize,
    strict: bool,
    acc: RawParams,
) -> (r: RawParams)
    requires
        i <= j <= s@.len(),
    ensures
        params_view(r) == apply_param(s@, i as int, j as int, strict, params_view(acc)),
{
    let k = find_byte(s, i, j, 61);
    if k >= j {
        return acc;
    }
    let k2 = find_byte(s, k + 1, j, 61);
    if strict && k2 < j {
        return acc;
    }
    let (ka, kb) = trim_bounds(s, i, k);
    let (va, vb) = trim_bounds(s, k + 1, k2);
    let ghost v = s@.subrange(va as int, vb as int);
    let quoted = vb - va >= 2 && s[va] == 34 && s[vb - 1] == 34;
    let val = if quoted {
        copy_range(s, va + 1, vb - 1, false)
    } else {
        copy_range(s, va, vb, false)
    };
    proof {
        if quoted {
            assert(val@ =~= unquoted(v));
        } else {
            assert(val@ =~= unquoted(v));
        }
    }
    let name_key: Vec<u8> = vec![110u8, 97, 109, 101];
    let filename_key: Vec<u8> = vec![102u8, 105, 108, 101, 110, 97, 109, 101];
    let ext_key: Vec<u8> = vec![102u8, 105, 108, 101, 110, 97, 109, 101, 42];
    assert(name_key@ =~= key_name());
    assert(filename_key@ =~= key_filename());
    assert(ext_key@ =~= key_filename_ext());
    if eq_lower(s, ka, kb, name_key.as_slice()) {
        (Some(val), acc.1, acc.2)
    } else if eq_lower(s, ka, kb, filename_key.as_slice()) {
        (acc.0, Some(val), acc.2)
    } else if eq_lower(s, ka, kb, ext_key.as_slice()) {
        (acc.0, acc.1, Some(copy_range(s, va, vb, false)))
    } else {
        acc
    }
}

fn parse_params(s: &[u8], start: usize, strict: bool) -> (r: RawParams)
    requires
        start <= s@.len() + 1,
    ensures
        params_view(r) == params_from(s@, start as int, strict, (None, None, None)),
{
    let mut acc: RawParams = (None, None, None);
    if start > s.len() {
        return acc;
    }
    let mut i = start;
    loop
        invariant
            i <= s@.len(),
            params_from(s@, start as int, strict, (None, None, None)) == params_from(
                s@,
                i as int,
                strict,
                params_view(acc),
            ),
        decreases s@.len() - i,
    {
        let j = find_byte(s, i, s.len(), 59);
        acc = apply_param_exec(s, i, j, strict, acc);
        if j >= s.len() {
            assert(params_from(s@, j + 1, strict, params_view(acc)) == params_view(acc));
            return acc;
        }
        i = j + 1;
    }
}

/// Decodes optional bytes as UTF-8; `Err` when they are not valid.
fn decode_opt(o: Option<Vec<u8>>) -> (r: Result<Option<String>, Error>)
    ensures
        match r {
            Ok(t) => valid_opt(bytes_opt(o)) && string_opt(t) == text_opt(bytes_opt(o)),
            Err(e) => !valid_opt(bytes_opt(o)) && e is Utf8,
        },
{
    match o {
        Some(b) => match string_from_utf8(b) {
            Some(t) => Ok(Some(t)),
            None => Err(Error::Utf8),
        },
        None => Ok(None),
    }
}

/// A part of ISO-8859 that filenames are decoded from.
#[derive(Clone, Copy, Debug, PartialEq, Eq)]
pub enum IsoPart {
    P1,
    P2,
    P3,
    P4,
    P5,
    P6,
    P7,
    P8,
    P10,
}

/// Another character set that filenames are decoded from.
#[derive(Clone, Copy, Debug, PartialEq, Eq)]
pub enum NamedCharset {
    UsAscii,
    EucJp,
    Iso2022Jp,
    Big5,
    Koi8R,
    Utf8,
}

/// A character set that filenames are decoded from.
#[derive(Clone, Copy, Debug, PartialEq, Eq)]
pub enum Charset {
    Iso(IsoPart),
    Named(NamedCharset),
}

/// The character set that a name stands for, without regard to ASCII case: US-ASCII,
/// ISO-8859-1 to -8, ISO-8859-10, EUC-JP, ISO-2022-JP, Big5, KOI8-R or UTF-8; `None` for any
/// other name.
pub open spec fn charset_named(name: Seq<u8>) -> Option<Charset> {
    let l = lower(name);
    if l == "us-ascii".spec_bytes() {
        Some(Charset::Named(NamedCharset::UsAscii))
    } else if l == "iso-8859-1".spec_bytes() {
        Some(Charset::Iso(IsoPart::P1))
    } else if l == "iso-8859-2".spec_bytes() {
        Some(Charset::Iso(IsoPart::P2))
    } else if l == "iso-8859-3".spec_bytes() {
        Some(Charset::Iso(IsoPart::P3))
    } else if l == "iso-8859-4".spec_bytes() {
        Some(Charset::Iso(IsoPart::P4))
    } else if l == "iso-8859-5".spec_bytes() {
        Some(Charset::Iso(IsoPart::P5))
    } else if l == "iso-8859-6".spec_bytes() {
        Some(Charset::Iso(IsoPart::P6))
    } else if l == "iso-8859-7".spec_bytes() {
        Some(Charset::Iso(IsoPart::P7))
    } else if l == "iso-8859-8".spec_bytes() {
        Some(Charset::Iso(IsoPart::P8))
    } else if l == "iso-8859-10".spec_bytes() {
        Some(Charset::Iso(IsoPart::P10))
    } else if l == "euc-jp".spec_bytes() {
        Some(Charset::Named(NamedCharset::EucJp))
    } else if l == "iso-2022-jp".spec_bytes() {
        Some(Charset::Named(NamedCharset::Iso2022Jp))
    } else if l == "big5".spec_bytes() {
        Some(Charset::Named(NamedCharset::Big5))
    } else if l == "koi8-r".spec_bytes() {
        Some(Charset::Named(NamedCharset::Koi8R))
    } else if l == "utf-8".spec_bytes() {
        Some(Charset::Named(NamedCharset::Utf8))
    } else {
        None
    }
}

/// What a character set makes of some bytes: the text, or the decoder's message.
pub open spec fn charset_text(set: Charset, bytes: Seq<u8>) -> Result<Seq<char>, Seq<char>> {
    match set {
        Charset::Iso(p) => iso_8859_text(p, bytes),
        Charset::Named(n) => named_charset_text(n, bytes),
    }
}

/// The filename of a disposition: where `filename*` is given, its value
/// `charset'language'escaped` unescaped and decoded from the named character set,
/// which must be one that `charset_named` knows; else the plain `filename`.
pub open spec fn filename_of(ext: Option<Seq<u8>>, plain: Option<Seq<char>>) -> Result<Option<Seq<char>>, Failure> {
    match ext {
        None => Ok(plain),
        Some(x) => if !valid_utf8(x) {
            Err(Failure::Fail(Error::Header))
        } else {
            match extended_value(decode_utf8(x)) {
                None => Err(Failure::Fail(Error::Header)),
                Some(bytes) => {
                    let label = x.subrange(0, find_from(x, 0, x.len() as int, 39));
                    if !valid_utf8(label) {
                        Err(Failure::Fail(Error::Header))
                    } else {
                        match charset_named(label) {
                            None => Err(Failure::Unsupported(decode_utf8(label))),
                            Some(set) => match charset_text(set, bytes) {
                                Err(m) => Err(Failure::Undecodable(m)),
                                Ok(t) => Ok(Some(t)),
                            },
                        }
                    }
                },
            }
        },
    }
}

/// What a raw `Content-Disposition` value says: its disposition type, `name` and filename (see
/// `filename_of`). Fails on an empty value, on a value that is not valid UTF-8, and where
/// `filename_of` fails.
pub open spec fn disposition_of(raw: Seq<u8>, strict: bool) -> Result<(Seq<char>, Option<Seq<char>>, Option<Seq<char>>), Failure> {
    if raw.len() == 0 {
        Err(Failure::Fail(Error::Header))
    } else if !valid_utf8(raw) {
        Err(Failure::Fail(Error::Utf8))
    } else {
        let p = disposition_params(raw, strict);
        if !(valid_utf8(disposition_type(raw)) && valid_opt(p.0) && valid_opt(p.1)) {
            Err(Failure::Fail(Error::Utf8))
        } else {
            match filename_of(p.2, text_opt(p.1)) {
                Err(f) => Err(f),
                Ok(fname) => Ok((decode_utf8(disposition_type(raw)), text_opt(p.0), fname)),
            }
        }
    }
}

fn charset_by_name(name: &[u8]) -> (r: Option<Charset>)
    ensures
        r == charset_named(name@),
{
    let n = name.len();
    assert(name@.subrange(0, n as int) =~= name@);
    if eq_lower(name, 0, n, "us-ascii".as_bytes()) {
        Some(Charset::Named(NamedCharset::UsAscii))
    } else if eq_lower(name, 0, n, "iso-8859-1".as_bytes()) {
        Some(Charset::Iso(IsoPart::P1))
    } else if eq_lower(name, 0, n, "iso-8859-2".as_bytes()) {
        Some(Charset::Iso(IsoPart::P2))
    } else if eq_lower(name, 0, n, "iso-8859-3".as_bytes()) {
        Some(Charset::Iso(IsoPart::P3))
    } else if eq_lower(name, 0, n, "iso-8859-4".as_bytes()) {
        Some(Charset::Iso(IsoPart::P4))
    } else if eq_lower(name, 0, n, "iso-8859-5".as_bytes()) {
        Some(Charset::Iso(IsoPart::P5))
    } else if eq_lower(name, 0, n, "iso-8859-6".as_bytes()) {
        Some(Charset::Iso(IsoPart::P6))
    } else if eq_lower(name, 0, n, "iso-8859-7".as_bytes()) {
        Some(Charset::Iso(IsoPart::P7))
    } else if eq_lower(name, 0, n, "iso-8859-8".as_bytes()) {
        Some(Charset::Iso(IsoPart::P8))
    } else if eq_lower(name, 0, n, "iso-8859-10".as_bytes()) {
        Some(Charset::Iso(IsoPart::P10))
    } else if eq_lower(name, 0, n, "euc-jp".as_bytes()) {
        Some(Charset::Named(NamedCharset::EucJp))
    } else if eq_lower(name, 0, n, "iso-2022-jp".as_bytes()) {
        Some(Charset::Named(NamedCharset::Iso2022Jp))
    } else if eq_lower(name, 0, n, "big5".as_bytes()) {
        Some(Charset::Named(NamedCharset::Big5))
    } else if eq_lower(name, 0, n, "koi8-r".as_bytes()) {
        Some(Charset::Named(NamedCharset::Koi8R))
    } else if eq_lower(name, 0, n, "utf-8".as_bytes()) {
        Some(Charset::Named(NamedCharset::Utf8))
    } else {
        None
    }
}

/// Decodes bytes from a character set.
fn decode_in(set: Charset, bytes: &[u8]) -> (r: Result<String, String>)
    ensures
        match r {
            Ok(t) => charset_text(set, bytes@) == Ok::<Seq<char>, Seq<char>>(t@),
            Err(m) => charset_text(set, bytes@) == Err::<Seq<char>, Seq<char>>(m@),
        },
{
    match set {
        Charset::Iso(p) => decode_iso_8859(p, bytes),
        Charset::Named(n) => decode_named_charset(n, bytes),
    }
}

/// The filename of a disposition: that of `filename*` where given, else `plain`.
fn resolve_filename(ext: Option<Vec<u8>>, plain: Option<String>) -> (r: Result<Option<String>, Error>)
    ensures
        match filename_of(bytes_opt(ext), string_opt(plain)) {
            Ok(f) => match r {
                Ok(g) => string_opt(g) == f,
                Err(_) => false,
            },
            Err(f) => match r {
                Ok(_) => false,
                Err(e) => fails_as(e, f),
            },
        },
{
    let x = match ext {
        None => return Ok(plain),
        Some(x) => x,
    };
    let q = find_byte(x.as_slice(), 0, x.len(), 39);
    let label_bytes = copy_range(x.as_slice(), 0, q, false);
    let text = match string_from_utf8(x) {
        Some(t) => t,
        None => return Err(Error::Header),
    };
    let bytes = match parse_extended_value(text.as_str()) {
        None => return Err(Error::Header),
        Some(b) => b,
    };
    let set = charset_by_name(label_bytes.as_slice());
    let label = match string_from_utf8(label_bytes) {
        Some(l) => l,
        None => return Err(Error::Header),
    };
    let set = match set {
        None => return Err(Error::UnsupportedCharset(label)),
        Some(c) => c,
    };
    match decode_in(set, bytes.as_slice()) {
        Ok(t) => Ok(Some(t)),
        Err(m) => Err(Error::Decoding(m)),
    }
}

/// A `Content-Disposition` header as found within multipart sections: its disposition type and
/// its `name` and filename.
#[derive(Clone, Debug, PartialEq)]
pub struct ContentDisposition {
    pub disposition: String,
    pub name: Option<String>,
    pub filename: Option<String>,
}

impl ContentDisposition {
    /// The header's name.
    pub fn header_name() -> (r: &'static str)
        ensures
            r@ == "Content-Disposition"@,
    {
        "Content-Disposition"
    }

    /// Parses a raw header value: the disposition type is its first `;`-separated part, trimmed
    /// and in lower case; each later part `key=value` with key `name`, `filename` or
    /// `filename*` (in any case) sets that parameter to the trimmed value, without enclosing
    /// quotes. See `disposition_of` for the filename and the failures.
    pub fn parse_header(raw: &[u8]) -> (r: Result<ContentDisposition, Error>)
        ensures
            match disposition_of(raw@, false) {
                Ok(t) => match r {
                    Ok(cd) => cd.disposition@ == t.0 && string_opt(cd.name) == t.1 && string_opt(cd.filename) == t.2,
                    Err(_) => false,
                },
                Err(f) => match r {
                    Ok(_) => false,
                    Err(e) => fails_as(e, f),
                },
            },
    {
        if raw.len() == 0 {
            return Err(Error::Header);
        }
        let whole = copy_range(raw, 0, raw.len(), false);
        assert(raw@.subrange(0, raw@.len() as int) =~= raw@);
        if string_from_utf8(whole).is_none() {
            return Err(Error::Utf8);
        }
        let j = find_byte(raw, 0, raw.len(), 59);
        let (a, b) = trim_bounds(raw, 0, j);
        let d = copy_range(raw, a, b, true);
        let (n, f, x) = if j < raw.len() {
            parse_params(raw, j + 1, false)
        } else {
            assert(params_from(raw@, j + 1, false, (None, None, None)) == (None::<Seq<u8>>, None::<Seq<u8>>, None::<Seq<u8>>));
            (None, None, None)
        };
        let disposition = match string_from_utf8(d) {
            Some(t) => t,
            None => return Err(Error::Utf8),
        };
        let name = match decode_opt(n) {
            Ok(t) => t,
            Err(e) => return Err(e),
        };
        let plain = match decode_opt(f) {
            Ok(t) => t,
            Err(e) => return Err(e),
        };
        let filename = match resolve_filename(x, plain) {
            Ok(t) => t,
            Err(e) => return Err(e),
        };
        Ok(ContentDisposition { disposition, name, filename })
    }
}

/// A `Content-Disposition` header of type `form-data`, with its `name` and filename.
#[derive(Clone, Debug, PartialEq)]
pub struct ContentDispositionFormData {
    pub name: Option<String>,
    pub filename: Option<String>,
}

impl ContentDispositionFormData {
    /// The header's name.
    pub fn header_name() -> (r: &'static str)
        ensures
            r@ == "Content-Disposition"@,
    {
        "Content-Disposition"
    }

    /// Parses a raw header value whose disposition type is `form-data` (trimmed, in any case);
    /// fails with `Header` on an empty value, with `Utf8` on a value that is not valid UTF-8, and
    /// with `Header` on another type. Each later `;`-separated part of
    /// the form `key=value`, with exactly one `=`, and key `name`, `filename` or `filename*` in
    /// any case, sets that parameter; see `disposition_of` for the filename and the failures.
    pub fn parse_header(raw: &[u8]) -> (r: Result<ContentDispositionFormData, Error>)
        ensures
            raw@.len() == 0 ==> r matches Err(Error::Header),
            raw@.len() > 0 && !valid_utf8(raw@) ==> r matches Err(Error::Utf8),
            raw@.len() > 0 && valid_utf8(raw@) && disposition_type(raw@) != form_data_type() ==> r matches Err(Error::Header),
            raw@.len() > 0 && valid_utf8(raw@) && disposition_type(raw@) == form_data_type() ==> match disposition_of(raw@, true) {
                Ok(t) => match r {
                    Ok(cd) => string_opt(cd.name) == t.1 && string_opt(cd.filename) == t.2,
                    Err(_) => false,
                },
                Err(f) => match r {
                    Ok(_) => false,
                    Err(e) => fails_as(e, f),
                },
            },
    {
        if raw.len() == 0 {
            return Err(Error::Header);
        }
        let whole = copy_range(raw, 0, raw.len(), false);
        assert(raw@.subrange(0, raw@.len() as int) =~= raw@);
        if string_from_utf8(whole).is_none() {
            return Err(Error::Utf8);
        }
        let j = find_byte(raw, 0, raw.len(), 59);
        let (a, b) = trim_bounds(raw, 0, j);
        let form_data: Vec<u8> = vec![102u8, 111, 114, 109, 45, 100, 97, 116, 97];
        assert(form_data@ =~= form_data_type());
        if !eq_lower(raw, a, b, form_data.as_slice()) {
            return Err(Error::Header);
        }
        let d = copy_range(raw, a, b, true);
        if string_from_utf8(d).is_none() {
            return Err(Error::Utf8);
        }
        let (n, f, x) = if j < raw.len() {
            parse_params(raw, j + 1, true)
        } else {
            assert(params_from(raw@, j + 1, true, (None, None, None)) == (None::<Seq<u8>>, None::<Seq<u8>>, None::<Seq<u8>>));
            (None, None, None)
        };
        let name = match decode_opt(n) {
            Ok(t) => t,
            Err(e) => return Err(e),
        };
        let plain = match decode_opt(f) {
            Ok(t) => t,
            Err(e) => return Err(e),
        };
        let filename = match resolve_filename(x, plain) {
            Ok(t) => t,
            Err(e) => return Err(e),
        };
        Ok(ContentDispositionFormData { name, filename })
    }
}

/// The disposition type `form-data`.
pub open spec fn form_data_type() -> Seq<u8> {
    seq![102u8, 111, 114, 109, 45, 100, 97, 116, 97]
}

} // verus!
