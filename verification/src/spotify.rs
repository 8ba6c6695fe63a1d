//! The Spotify authorization address.
use vstd::prelude::*;
use vstd::string::*;
use vstd::utf8::encode_utf8;

verus! {

/// A byte that form encoding (`application/x-www-form-urlencoded`) keeps as it is.
pub open spec fn form_unchanged(b: u8) -> bool {
    b == 42 || b == 45 || b == 46 || (48 <= b <= 57) || (65 <= b <= 90) || b == 95 || (97 <= b <= 122)
}

/// An upper-case hexadecimal digit.
pub open spec fn hex_upper(d: int) -> char {
    if d < 10 {
        (48 + d) as char
    } else {
        (55 + d) as char
    }
}

/// How form encoding writes one byte: kept, `+` for a space, `%XX` otherwise.
pub open spec fn form_byte(b: u8) -> Seq<char> {
    if form_unchanged(b) {
        seq![b as char]
    } else if b == 32 {
        seq!['+']
    } else {
        seq!['%', hex_upper(b as int / 16), hex_upper(b as int % 16)]
    }
}

/// `bytes` form encoded.
pub open spec fn form_encoded(bytes: Seq<u8>) -> Seq<char>
    decreases bytes.len(),
{
    if bytes.len() == 0 {
        Seq::empty()
    } else {
        form_encoded(bytes.drop_last()) + form_byte(bytes.last())
    }
}

/// `key=value`, both form encoded.
pub open spec fn query_pair(key: Seq<char>, value: Seq<char>) -> Seq<char> {
    form_encoded(encode_utf8(key)) + seq!['='] + form_encoded(encode_utf8(value))
}

/// The scopes the tracker asks for.
pub open spec fn scopes() -> Seq<char> {
    "user-read-playback-state user-read-recently-played"@
}

/// The address that asks the user to authorize the tracker.
pub open spec fn authorize_url_spec(client_id: Seq<char>, redirect_uri: Seq<char>, state: Seq<char>) -> Seq<char> {
    "https://accounts.spotify.com/authorize"@ + seq!['?'] + query_pair("response_type"@, "code"@)
        + seq!['&'] + query_pair("client_id"@, client_id) + seq!['&'] + query_pair(
        "redirect_uri"@,
        redirect_uri,
    ) + seq!['&'] + query_pair("scope"@, scopes()) + seq!['&'] + query_pair("state"@, state)
}

/// `query` with `key=value` added, both form encoded and behind a `&`
/// where `query` is not empty (`form_urlencoded::Serializer::new(query)`,
/// `append_pair`, `finish`). Form encoding, as `byte_serialize` does it on
/// the UTF-8 bytes: `*-._`, digits and ASCII letters stay, a space becomes
/// `+`, and any other byte becomes `%` and two upper-case hexadecimal digits.
#[verifier::external_body]
fn form_append_pair(query: String, key: &str, value: &str) -> (r: String)
    ensures
        r@ == (if query@.len() > 0 {
            query@.push('&')
        } else {
            query@
        }) + query_pair(key@, value@),
{
    url::form_urlencoded::Serializer::new(query).append_pair(key, value).finish()
}

/// The address that asks the user to authorize the tracker, with the code
/// flow's parameters form encoded.
pub fn authorize_url(client_id: &str, redirect_uri: &str, state: &str) -> (r: String)
    ensures
        r@ == authorize_url_spec(client_id@, redirect_uri@, state@),
{
    let q = String::new();
    let q = form_append_pair(q, "response_type", "code");
    let q = form_append_pair(q, "client_id", client_id);
    let q = form_append_pair(q, "redirect_uri", redirect_uri);
    let q = form_append_pair(q, "scope", "user-read-playback-state user-read-recently-played");
    let q = form_append_pair(q, "state", state);
    let mut r = "https://accounts.spotify.com/authorize".to_owned();
    r.push('?');
    r.append(q.as_str());
    assert(r@ =~= authorize_url_spec(client_id@, redirect_uri@, state@));
    r
}

} // verus!
