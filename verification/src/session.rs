//! The signed session cookie: `user_id.signature`, where the signature is
//! the HMAC-SHA256 of the user id under the server secret, in URL-safe
//! base64 without padding.
use vstd::prelude::*;
use vstd::string::*;
use vstd::utf8::encode_utf8;

use base64::Engine;
use hmac::Mac;

use crate::text::{chars_of, dec_string, push_int, string_of_range};

verus! {

/// HMAC-SHA256 of `msg` under `key`.
pub uninterp spec fn hmac_sha256_tag(key: Seq<u8>, msg: Seq<u8>) -> Seq<u8>;

/// The character of the URL-safe base64 alphabet for the 6-bit value `v`:
/// `A`-`Z`, `a`-`z`, `0`-`9`, `-`, `_`.
pub open spec fn b64url_char(v: int) -> char {
    if v < 26 {
        (65 + v) as char
    } else if v < 52 {
        (71 + v) as char
    } else if v < 62 {
        (v - 4) as char
    } else if v == 62 {
        '-'
    } else {
        '_'
    }
}

/// `bytes` in URL-safe base64 without padding: each group of three bytes
/// becomes four characters of six bits each, and a last group of one or two
/// bytes becomes two or three characters, its unused low bits zero.
pub open spec fn b64url_encoded(bytes: Seq<u8>) -> Seq<char>
    decreases bytes.len(),
{
    if bytes.len() == 0 {
        Seq::empty()
    } else if bytes.len() == 1 {
        let b0 = bytes[0] as int;
        seq![b64url_char(b0 / 4), b64url_char((b0 % 4) * 16)]
    } else if bytes.len() == 2 {
        let b0 = bytes[0] as int;
        let b1 = bytes[1] as int;
        seq![b64url_char(b0 / 4), b64url_char((b0 % 4) * 16 + b1 / 16), b64url_char((b1 % 16) * 4)]
    } else {
        let b0 = bytes[0] as int;
        let b1 = bytes[1] as int;
        let b2 = bytes[2] as int;
        seq![
            b64url_char(b0 / 4),
            b64url_char((b0 % 4) * 16 + b1 / 16),
            b64url_char((b1 % 16) * 4 + b2 / 64),
            b64url_char(b2 % 64),
        ] + b64url_encoded(bytes.skip(3))
    }
}

/// A character of the URL-safe base64 alphabet.
pub open spec fn is_b64url_char(c: char) -> bool {
    ('A' <= c <= 'Z') || ('a' <= c <= 'z') || ('0' <= c <= '9') || c == '-' || c == '_'
}

/// `n` bytes take `4n/3` characters, rounded up.
pub proof fn lemma_b64url_len(bytes: Seq<u8>)
    ensures
        b64url_encoded(bytes).len() == (4 * bytes.len() + 2) / 3,
    decreases bytes.len(),
{
    if bytes.len() >= 3 {
        lemma_b64url_len(bytes.skip(3));
    }
}

/// The encoding uses the URL-safe alphabet only.
pub proof fn lemma_b64url_alphabet(bytes: Seq<u8>)
    ensures
        forall|i: int|
            0 <= i < b64url_encoded(bytes).len() ==> is_b64url_char(#[trigger] b64url_encoded(bytes)[i]),
    decreases bytes.len(),
{
    if bytes.len() >= 3 {
        lemma_b64url_alphabet(bytes.skip(3));
        let head = seq![
            b64url_char(bytes[0] as int / 4),
            b64url_char((bytes[0] as int % 4) * 16 + bytes[1] as int / 16),
            b64url_char((bytes[1] as int % 16) * 4 + bytes[2] as int / 64),
            b64url_char(bytes[2] as int % 64),
        ];
        let e = b64url_encoded(bytes);
        assert(e == head + b64url_encoded(bytes.skip(3)));
        assert forall|i: int| 0 <= i < e.len() implies is_b64url_char(#[trigger] e[i]) by {
            if i >= 4 {
                assert(e[i] == b64url_encoded(bytes.skip(3))[i - 4]);
            }
        }
    }
}

proof fn lemma_b64url_char_injective(v: int, w: int)
    requires
        0 <= v < 64,
        0 <= w < 64,
        b64url_char(v) == b64url_char(w),
    ensures
        v == w,
{
}

/// Different bytes have different encodings.
pub proof fn lemma_b64url_injective(a: Seq<u8>, b: Seq<u8>)
    requires
        b64url_encoded(a) == b64url_encoded(b),
    ensures
        a == b,
    decreases a.len(),
{
    lemma_b64url_len(a);
    lemma_b64url_len(b);
    let ea = b64url_encoded(a);
    assert(a.len() == b.len()) by (nonlinear_arith)
        requires
            (4 * a.len() + 2) / 3 == (4 * b.len() + 2) / 3,
    {
    }
    if a.len() >= 1 {
        let a0 = a[0] as int;
        let b0 = b[0] as int;
        let eb = b64url_encoded(b);
        assert(ea[0] == b64url_char(a0 / 4));
        assert(eb[0] == b64url_char(b0 / 4));
        lemma_b64url_char_injective(a0 / 4, b0 / 4);
        if a.len() == 1 {
            assert(ea[1] == b64url_char((a0 % 4) * 16));
            assert(eb[1] == b64url_char((b0 % 4) * 16));
            lemma_b64url_char_injective((a0 % 4) * 16, (b0 % 4) * 16);
            assert(a0 == b0);
            assert(a =~= b);
        } else {
            let a1 = a[1] as int;
            let b1 = b[1] as int;
            assert(ea[1] == b64url_char((a0 % 4) * 16 + a1 / 16));
            assert(eb[1] == b64url_char((b0 % 4) * 16 + b1 / 16));
            lemma_b64url_char_injective((a0 % 4) * 16 + a1 / 16, (b0 % 4) * 16 + b1 / 16);
            assert(a0 % 4 == b0 % 4 && a1 / 16 == b1 / 16) by (nonlinear_arith)
                requires
                    (a0 % 4) * 16 + a1 / 16 == (b0 % 4) * 16 + b1 / 16,
                    0 <= a0 % 4 < 4,
                    0 <= b0 % 4 < 4,
                    0 <= a1 / 16 < 16,
                    0 <= b1 / 16 < 16,
            {
            }
            assert(a0 == b0);
            if a.len() == 2 {
                assert(ea[2] == b64url_char((a1 % 16) * 4));
                assert(eb[2] == b64url_char((b1 % 16) * 4));
                lemma_b64url_char_injective((a1 % 16) * 4, (b1 % 16) * 4);
                assert(a1 == b1);
                assert(a =~= b);
            } else {
                let a2 = a[2] as int;
                let b2 = b[2] as int;
                assert(ea[2] == b64url_char((a1 % 16) * 4 + a2 / 64));
                assert(eb[2] == b64url_char((b1 % 16) * 4 + b2 / 64));
                lemma_b64url_char_injective((a1 % 16) * 4 + a2 / 64, (b1 % 16) * 4 + b2 / 64);
                assert(a1 % 16 == b1 % 16 && a2 / 64 == b2 / 64) by (nonlinear_arith)
                    requires
                        (a1 % 16) * 4 + a2 / 64 == (b1 % 16) * 4 + b2 / 64,
                        0 <= a1 % 16 < 16,
                        0 <= b1 % 16 < 16,
                        0 <= a2 / 64 < 4,
                        0 <= b2 / 64 < 4,
                {
                }
                assert(ea[3] == b64url_char(a2 % 64));
                assert(eb[3] == b64url_char(b2 % 64));
                lemma_b64url_char_injective(a2 % 64, b2 % 64);
                assert(a1 == b1);
                assert(a2 == b2);
                let ra = b64url_encoded(a.skip(3));
                let rb = b64url_encoded(b.skip(3));
                assert(ra =~= ea.skip(4));
                assert(rb =~= eb.skip(4));
                lemma_b64url_injective(a.skip(3), b.skip(3));
                assert(a =~= seq![a[0], a[1], a[2]] + a.skip(3));
                assert(b =~= seq![b[0], b[1], b[2]] + b.skip(3));
            }
        }
    } else {
        assert(a =~= b);
    }
}

/// HMAC-SHA256 of `msg` under `key` (`Hmac::<Sha256>::new_from_slice`,
/// `update`, `finalize`). HMAC takes keys of any length, so
/// `new_from_slice` cannot fail; the tag is the named value of key and
/// message, 32 bytes long (the SHA-256 output size).
#[verifier::external_body]
fn hmac_sha256(key: &[u8], msg: &[u8]) -> (tag: Vec<u8>)
    ensures
        tag@ == hmac_sha256_tag(key@, msg@),
        tag@.len() == 32,
{
    let mut mac = hmac::Hmac::<sha2::Sha256>::new_from_slice(key).unwrap();
    mac.update(msg);
    mac.finalize().into_bytes().to_vec()
}

/// Whether `tag` is the HMAC-SHA256 of `msg` under `key`
/// (`Mac::verify_slice`, which compares in constant time and rejects a tag
/// of another length).
#[verifier::external_body]
fn hmac_sha256_matches(key: &[u8], msg: &[u8], tag: &[u8]) -> (r: bool)
    ensures
        r == (tag@ == hmac_sha256_tag(key@, msg@)),
{
    let mut mac = hmac::Hmac::<sha2::Sha256>::new_from_slice(key).unwrap();
    mac.update(msg);
    mac.verify_slice(tag).is_ok()
}

/// `bytes` in URL-safe base64 without padding (`URL_SAFE_NO_PAD.encode`).
#[verifier::external_body]
pub(crate) fn b64url_encode(bytes: &[u8]) -> (s: String)
    ensures
        s@ == b64url_encoded(bytes@),
{
    base64::engine::general_purpose::URL_SAFE_NO_PAD.encode(bytes)
}

/// The bytes that URL-safe base64 text without padding stands for
/// (`URL_SAFE_NO_PAD.decode`). The engine requires no padding and rejects
/// set trailing bits, a lone last character and any character outside the
/// alphabet, so it accepts exactly the texts that are the encoding of some
/// bytes, and gives those bytes.
#[verifier::external_body]
fn b64url_decode(s: &str) -> (r: Option<Vec<u8>>)
    ensures
        match r {
            Some(v) => b64url_encoded(v@) == s@,
            None => forall|b: Seq<u8>| #[trigger] b64url_encoded(b) != s@,
        },
{
    match base64::engine::general_purpose::URL_SAFE_NO_PAD.decode(s) {
        Ok(v) => Some(v),
        Err(_) => None,
    }
}

/// A signed-in user, as the session cookie names it.
pub struct Session {
    pub user_id: String,
}

/// The cookie value for `user_id`: the id, a dot, and its signature.
pub open spec fn signed_cookie(user_id: Seq<char>, secret: Seq<u8>) -> Seq<char> {
    user_id.push('.') + b64url_encoded(hmac_sha256_tag(secret, encode_utf8(user_id)))
}

/// The user a cookie value names, if its signature is valid: the value is
/// cut at its first dot into the id and the signature, which must be the
/// base64 of the id's HMAC.
pub open spec fn verified_user(value: Seq<char>, secret: Seq<u8>) -> Option<Seq<char>> {
    match value.index_of_first('.') {
        None => None,
        Some(i) => {
            let user_id = value.take(i);
            if value.skip(i + 1) == b64url_encoded(hmac_sha256_tag(secret, encode_utf8(user_id))) {
                Some(user_id)
            } else {
                None
            }
        },
    }
}

/// A cookie value names user `user_id` exactly when it is the signed cookie
/// of that user under the same secret and the id holds no dot: only
/// `sign_cookie` makes values that `verify_cookie` accepts.
pub proof fn lemma_verified_iff_signed(value: Seq<char>, secret: Seq<u8>, user_id: Seq<char>)
    ensures
        verified_user(value, secret) == Some(user_id) <==> (!user_id.contains('.') && value
            == signed_cookie(user_id, secret)),
{
    value.index_of_first_ensures('.');
    if verified_user(value, secret) == Some(user_id) {
        let i = value.index_of_first('.').unwrap();
        assert(user_id == value.take(i));
        if user_id.contains('.') {
            let j = choose|j: int| 0 <= j < user_id.len() && user_id[j] == '.';
            assert(value[j] == '.');
        }
        assert(value =~= signed_cookie(user_id, secret));
    }
    if !user_id.contains('.') && value == signed_cookie(user_id, secret) {
        let u = user_id;
        assert(value[u.len() as int] == '.');
        assert(value.contains('.'));
        let i = value.index_of_first('.').unwrap();
        if i < u.len() {
            assert(u[i] == value[i]);
            assert(u.contains('.'));
        }
        assert(i == u.len());
        assert(value.take(i) =~= u);
        assert(value.skip(i + 1) =~= b64url_encoded(hmac_sha256_tag(secret, encode_utf8(u))));
    }
}

/// Signs `user_id` with `secret`: the id, a dot, and 43 characters of
/// signature. Unless the id holds a dot, the cookie verifies under the same
/// secret and names the same user.
pub fn sign_cookie(user_id: &str, secret: &[u8]) -> (r: String)
    ensures
        r@ == signed_cookie(user_id@, secret@),
        r@.len() == user_id@.len() + 44,
        !user_id@.contains('.') ==> verified_user(r@, secret@) == Some(user_id@),
{
    let tag = hmac_sha256(secret, user_id.as_bytes());
    let sig = b64url_encode(tag.as_slice());
    let mut r = user_id.to_owned();
    r.push('.');
    r.append(sig.as_str());
    proof {
        lemma_b64url_len(tag@);
        assert(r@ =~= signed_cookie(user_id@, secret@));
        lemma_verified_iff_signed(r@, secret@, user_id@);
    }
    r
}

/// The user that a cookie value names, if it carries a valid signature
/// under `secret`.
pub fn verify_cookie(value: &str, secret: &[u8]) -> (r: Option<String>)
    ensures
        match r {
            Some(u) => verified_user(value@, secret@) == Some(u@),
            None => verified_user(value@, secret@) is None,
        },
{
    let v = chars_of(value);
    let mut i: usize = 0;
    while i < v.len() && v[i] != '.'
        invariant
            v@ == value@,
            i <= v@.len(),
            forall|j: int| 0 <= j < i ==> v@[j] != '.',
        decreases v.len() - i,
    {
        i = i + 1;
    }
    proof {
        value@.index_of_first_ensures('.');
    }
    if i == v.len() {
        assert(!value@.contains('.'));
        return None;
    }
    proof {
        let k = value@.index_of_first('.').unwrap();
        assert(k == i as int);
    }
    let user_part = string_of_range(&v, 0, i);
    let sig_part = string_of_range(&v, i + 1, v.len());
    assert(user_part@ =~= value@.take(i as int));
    assert(sig_part@ =~= value@.skip(i + 1));
    let ghost expected = hmac_sha256_tag(secret@, encode_utf8(user_part@));
    match b64url_decode(sig_part.as_str()) {
        None => {
            assert(b64url_encoded(expected) != sig_part@);
            None
        },
        Some(tag) => {
            if hmac_sha256_matches(secret, user_part.as_str().as_bytes(), tag.as_slice()) {
                Some(user_part)
            } else {
                proof {
                    if b64url_encoded(expected) == sig_part@ {
                        lemma_b64url_injective(tag@, expected);
                    }
                }
                None
            }
        },
    }
}

/// A character that `char::is_whitespace` accepts (the Unicode White_Space property).
pub open spec fn is_ws(c: char) -> bool {
    ('\u{9}' <= c <= '\u{d}') || c == ' ' || c == '\u{85}' || c == '\u{a0}' || c == '\u{1680}'
        || ('\u{2000}' <= c <= '\u{200a}') || c == '\u{2028}' || c == '\u{2029}' || c == '\u{202f}'
        || c == '\u{205f}' || c == '\u{3000}'
}

fn is_ws_exec(c: char) -> (r: bool)
    ensures
        r == is_ws(c),
{
    ('\u{9}' <= c && c <= '\u{d}') || c == ' ' || c == '\u{85}' || c == '\u{a0}' || c == '\u{1680}'
        || ('\u{2000}' <= c && c <= '\u{200a}') || c == '\u{2028}' || c == '\u{2029}' || c
        == '\u{202f}' || c == '\u{205f}' || c == '\u{3000}'
}

/// `s` without leading white space.
pub open spec fn trim_start(s: Seq<char>) -> Seq<char>
    decreases s.len(),
{
    if s.len() > 0 && is_ws(s[0]) {
        trim_start(s.drop_first())
    } else {
        s
    }
}

/// `s` without trailing white space.
pub open spec fn trim_end(s: Seq<char>) -> Seq<char>
    decreases s.len(),
{
    if s.len() > 0 && is_ws(s.last()) {
        trim_end(s.drop_last())
    } else {
        s
    }
}

/// `s` without leading and trailing white space (`str::trim`).
pub open spec fn trim(s: Seq<char>) -> Seq<char> {
    trim_end(trim_start(s))
}

/// The pieces of `s` between the separators (`str::split`): one more piece
/// than there are separators.
pub open spec fn split_on(s: Seq<char>, sep: char) -> Seq<Seq<char>>
    decreases s.len(),
{
    if s.len() == 0 {
        seq![Seq::empty()]
    } else {
        let rest = split_on(s.drop_last(), sep);
        if s.last() == sep {
            rest.push(Seq::empty())
        } else {
            rest.update(rest.len() - 1, rest.last().push(s.last()))
        }
    }
}

/// Whether `s` begins with `p`.
pub open spec fn starts_with(s: Seq<char>, p: Seq<char>) -> bool {
    p.len() <= s.len() && s.take(p.len() as int) == p
}

/// The value of the first trimmed piece that begins with `key`: what
/// follows its first `=`.
pub open spec fn cookie_value_in(pieces: Seq<Seq<char>>, key: Seq<char>) -> Option<Seq<char>>
    decreases pieces.len(),
{
    if pieces.len() == 0 {
        None
    } else {
        let t = trim(pieces[0]);
        if starts_with(t, key) {
            match t.index_of_first('=') {
                Some(i) => Some(t.skip(i + 1)),
                None => None,
            }
        } else {
            cookie_value_in(pieces.drop_first(), key)
        }
    }
}

/// The value of cookie `name` in a `Cookie` header: the header is cut at
/// `;`, each piece trimmed, and the first piece that begins with `name=`
/// gives what follows its first `=`. `None` without a header.
pub open spec fn extracted_cookie(header: Option<Seq<char>>, name: Seq<char>) -> Option<Seq<char>> {
    match header {
        None => None,
        Some(h) => cookie_value_in(split_on(h, ';'), name.push('=')),
    }
}

proof fn lemma_split_nonempty(s: Seq<char>, sep: char)
    ensures
        split_on(s, sep).len() >= 1,
    decreases s.len(),
{
    if s.len() > 0 {
        lemma_split_nonempty(s.drop_last(), sep);
    }
}

pub open spec fn char_vec_views(v: Seq<Vec<char>>) -> Seq<Seq<char>> {
    v.map_values(|x: Vec<char>| x@)
}

/// The pieces of `h` between the separators.
fn split_chars(h: &Vec<char>, sep: char) -> (pieces: Vec<Vec<char>>)
    ensures
        char_vec_views(pieces@) == split_on(h@, sep),
{
    let mut pieces: Vec<Vec<char>> = Vec::new();
    pieces.push(Vec::new());
    assert(char_vec_views(pieces@) =~= split_on(h@.take(0), sep));
    let mut i: usize = 0;
    while i < h.len()
        invariant
            i <= h@.len(),
            char_vec_views(pieces@) == split_on(h@.take(i as int), sep),
        decreases h.len() - i,
    {
        let c = h[i];
        let ghost before = char_vec_views(pieces@);
        proof {
            lemma_split_nonempty(h@.take(i as int), sep);
            assert(h@.take(i + 1).drop_last() =~= h@.take(i as int));
            assert(h@.take(i + 1).last() == c);
        }
        if c == sep {
            pieces.push(Vec::new());
            assert(char_vec_views(pieces@) =~= before.push(Seq::empty()));
        } else {
            let last = pieces.pop();
            match last {
                Some(mut l) => {
                    let ghost lv = l@;
                    assert(lv == before.last());
                    l.push(c);
                    pieces.push(l);
                    assert(char_vec_views(pieces@) =~= before.update(
                        before.len() - 1,
                        before.last().push(c),
                    ));
                },
                None => {
                    assert(false);
                },
            }
        }
        i = i + 1;
    }
    assert(h@.take(h@.len() as int) =~= h@);
    pieces
}

proof fn lemma_trim_start_skip(s: Seq<char>, i: int)
    requires
        0 <= i <= s.len(),
        forall|j: int| 0 <= j < i ==> is_ws(#[trigger] s[j]),
    ensures
        trim_start(s) == trim_start(s.skip(i)),
    decreases i,
{
    if i > 0 {
        assert(is_ws(s[0]));
        let d = s.drop_first();
        assert forall|j: int| 0 <= j < i - 1 implies is_ws(#[trigger] d[j]) by {
            assert(d[j] == s[j + 1]);
        }
        lemma_trim_start_skip(d, i - 1);
        assert(d.skip(i - 1) =~= s.skip(i));
    } else {
        assert(s.skip(0) =~= s);
    }
}

proof fn lemma_trim_end_take(s: Seq<char>, i: int)
    requires
        0 <= i <= s.len(),
        forall|j: int| i <= j < s.len() ==> is_ws(#[trigger] s[j]),
    ensures
        trim_end(s) == trim_end(s.take(i)),
    decreases s.len() - i,
{
    if i < s.len() {
        assert(is_ws(s.last()));
        let d = s.drop_last();
        assert forall|j: int| i <= j < d.len() implies is_ws(#[trigger] d[j]) by {
            assert(d[j] == s[j]);
        }
        lemma_trim_end_take(d, i);
        assert(d.take(i) =~= s.take(i));
    } else {
        assert(s.take(i) =~= s);
    }
}

/// The bounds of `v` without leading and trailing white space.
fn trim_bounds(v: &Vec<char>) -> (r: (usize, usize))
    ensures
        r.0 <= r.1 <= v@.len(),
        v@.subrange(r.0 as int, r.1 as int) == trim(v@),
{
    let mut lo: usize = 0;
    while lo < v.len() && is_ws_exec(v[lo])
        invariant
            lo <= v@.len(),
            forall|j: int| 0 <= j < lo ==> is_ws(#[trigger] v@[j]),
        decreases v.len() - lo,
    {
        lo = lo + 1;
    }
    let mut hi: usize = v.len();
    while hi > lo && is_ws_exec(v[hi - 1])
        invariant
            lo <= hi <= v@.len(),
            forall|j: int| hi <= j < v@.len() ==> is_ws(#[trigger] v@[j]),
        decreases hi - lo,
    {
        hi = hi - 1;
    }
    proof {
        lemma_trim_start_skip(v@, lo as int);
        let st = v@.skip(lo as int);
        if st.len() > 0 {
            assert(st[0] == v@[lo as int]);
        }
        assert(trim_start(v@) == st);
        let k = (hi - lo) as int;
        assert forall|j: int| k <= j < st.len() implies is_ws(#[trigger] st[j]) by {
            assert(st[j] == v@[j + lo]);
        }
        lemma_trim_end_take(st, k);
        let tk = st.take(k);
        if tk.len() > 0 {
            assert(tk.last() == v@[hi - 1]);
        }
        assert(tk =~= v@.subrange(lo as int, hi as int));
    }
    (lo, hi)
}

/// The value of cookie `name` in the `Cookie` header, if the header is
/// there and sets it.
pub fn extract_cookie(cookie_header: Option<&str>, name: &str) -> (r: Option<String>)
    ensures
        match r {
            Some(v) => extracted_cookie(crate::text::opt_str(cookie_header), name@) == Some(v@),
            None => extracted_cookie(crate::text::opt_str(cookie_header), name@) is None,
        },
{
    let header = match cookie_header {
        Some(h) => h,
        None => {
            return None;
        },
    };
    let mut key = chars_of(name);
    key.push('=');
    let hv = chars_of(header);
    let pieces = split_chars(&hv, ';');
    let ghost all = char_vec_views(pieces@);
    let mut k: usize = 0;
    assert(all.skip(0) =~= all);
    assert(extracted_cookie(crate::text::opt_str(cookie_header), name@) == cookie_value_in(all, key@));
    while k < pieces.len()
        invariant
            all == char_vec_views(pieces@),
            key@ == name@.push('='),
            extracted_cookie(crate::text::opt_str(cookie_header), name@) == cookie_value_in(all, key@),
            k <= pieces@.len(),
            cookie_value_in(all, key@) == cookie_value_in(all.skip(k as int), key@),
        decreases pieces.len() - k,
    {
        let piece = &pieces[k];
        let (lo, hi) = trim_bounds(piece);
        let ghost rest = all.skip(k as int);
        proof {
            assert(rest[0] == piece@);
            assert(rest.drop_first() =~= all.skip(k + 1));
        }
        // does the trimmed piece begin with the key?
        let mut starts = hi - lo >= key.len();
        let mut m: usize = 0;
        while starts && m < key.len()
            invariant
                lo <= hi <= piece@.len(),
                m <= key@.len(),
                starts ==> lo + key@.len() <= hi,
                starts ==> forall|x: int| 0 <= x < m ==> piece@[lo + x] == key@[x],
                !starts ==> (hi - lo < key@.len() || (m < key@.len() && lo + m < hi && piece@[lo + m] != key@[m as int])),
            decreases key.len() - m + if starts { 1int } else { 0int },
        {
            if piece[lo + m] != key[m] {
                starts = false;
            } else {
                m = m + 1;
            }
        }
        let ghost t = piece@.subrange(lo as int, hi as int);
        proof {
            assert(t == trim(rest[0]));
            if starts {
                assert(t.take(key@.len() as int) =~= key@);
                assert(starts_with(t, key@));
            } else if key@.len() <= t.len() {
                assert(t[m as int] == piece@[lo + m]);
                assert(t.take(key@.len() as int)[m as int] != key@[m as int]);
                assert(!starts_with(t, key@));
            }
        }
        if starts {
            // the value follows the first '='
            let mut e: usize = lo;
            while e < hi && piece[e] != '='
                invariant
                    lo <= e <= hi <= piece@.len(),
                    forall|x: int| lo <= x < e ==> piece@[x] != '=',
                decreases hi - e,
            {
                e = e + 1;
            }
            proof {
                t.index_of_first_ensures('=');
                let klen = key@.len() as int;
                assert(t[klen - 1] == key@[klen - 1]);
                assert(t.contains('='));
                let i = t.index_of_first('=').unwrap();
                if e < hi {
                    assert(t[e - lo] == '=');
                    assert(i == e - lo) by {
                        if i < e - lo {
                            assert(piece@[i + lo] == t[i]);
                        }
                    }
                } else {
                    assert(piece@[i + lo] == t[i]);
                }
                assert(t.skip(i + 1) =~= piece@.subrange(e + 1, hi as int));
                assert(cookie_value_in(rest, key@) == Some(t.skip(i + 1)));
            }
            return Some(string_of_range(piece, e + 1, hi));
        }
        assert(cookie_value_in(rest, key@) == cookie_value_in(all.skip(k + 1), key@));
        k = k + 1;
    }
    proof {
        assert(all.skip(k as int).len() == 0);
    }
    None
}

/// The `Set-Cookie` header that signs the user in for thirty days.
pub open spec fn session_cookie_header(user_id: Seq<char>, secret: Seq<u8>) -> Seq<char> {
    "deadair_session="@ + signed_cookie(user_id, secret) + "; Path=/; HttpOnly; SameSite=Lax; Max-Age="@
        + dec_string(60 * 60 * 24 * 30int)
}

/// The `Set-Cookie` header that signs `user_id` in for thirty days.
pub fn set_cookie_header(user_id: &str, secret: &[u8]) -> (r: String)
    ensures
        r@ == session_cookie_header(user_id@, secret@),
{
    let value = sign_cookie(user_id, secret);
    let mut r = "deadair_session=".to_owned();
    r.append(value.as_str());
    r.append("; Path=/; HttpOnly; SameSite=Lax; Max-Age=");
    push_int(&mut r, 60 * 60 * 24 * 30);
    assert(r@ =~= session_cookie_header(user_id@, secret@));
    r
}

/// The `Set-Cookie` header that signs the user out.
pub fn clear_cookie_header() -> (r: String)
    ensures
        r@ == "deadair_session=; Path=/; HttpOnly; Max-Age=0"@,
{
    "deadair_session=; Path=/; HttpOnly; Max-Age=0".to_owned()
}

} // verus!
