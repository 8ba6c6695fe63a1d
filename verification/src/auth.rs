//! Signing in with Spotify: the login page, the redirect back, and what
//! the server does for a signed-in user.
use vstd::prelude::*;
use vstd::string::*;

use crate::clock::now_timestamp;
use crate::models::{TokenData, UserProfile};
use crate::session::{b64url_encode, b64url_encoded};
use crate::spotify::{authorize_url, authorize_url_spec};
use crate::text::{chars_of, opt_view, string_of_range};

verus! {

/// The query of `/auth/login`.
pub struct LoginParams {
    pub manual: Option<bool>,
}

/// The query with which Spotify redirects back to `/callback`.
pub struct CallbackParams {
    pub code: String,
    pub state: Option<String>,
}

/// The query of `/callback-manual`: the redirect address, pasted by hand.
pub struct ManualCallbackParams {
    pub url: String,
}

/// The server's settings.
pub struct Config {
    pub spotify_client_id: String,
    pub spotify_client_secret: String,
    pub deadair_secret: Vec<u8>,
    pub db_path: String,
    pub port: u16,
    pub reconcile: bool,
    pub host: String,
}

/// The login page, up to the authorization address.
pub const LOGIN_PAGE_HEAD: &'static str = "<!DOCTYPE html>\n<html><head><meta charset=\"utf-8\"><title>deadair</title>\n<style>body{font-family:'SF Mono',monospace;max-width:40em;margin:4em auto;padding:0 1em}\ninput{width:100%;padding:0.5em;font-family:inherit;margin:0.5em 0}a{color:#000}</style>\n</head><body>\n<h1>deadair</h1>\n<p><a href=\"";

/// The login page, after the authorization address.
pub const LOGIN_PAGE_TAIL: &'static str = "\">authorize with spotify</a></p>\n<p>after authorizing, paste the redirect URL below:</p>\n<form method=\"get\" action=\"/callback-manual\">\n<input type=\"text\" name=\"url\" placeholder=\"paste redirect URL here\" autofocus>\n<button type=\"submit\">submit</button>\n</form>\n</body></html>";

/// The address Spotify sends the user back to.
pub open spec fn redirect_uri_spec(host: Seq<char>) -> Seq<char> {
    host + "/callback"@
}

/// The address Spotify sends the user back to: `{host}/callback`.
pub fn redirect_uri(host: &str) -> (r: String)
    ensures
        r@ == redirect_uri_spec(host@),
{
    let mut r = host.to_owned();
    r.append("/callback");
    r
}

/// The page for signing in by hand: a link to authorize, and a form to
/// paste the address Spotify redirected to.
pub open spec fn login_page_html(url: Seq<char>) -> Seq<char> {
    LOGIN_PAGE_HEAD@ + url + LOGIN_PAGE_TAIL@
}

/// What `/auth/login` answers.
pub enum LoginResponse {
    /// The page for signing in by hand.
    Page(String),
    /// A redirect to this address.
    Redirect(String),
}

/// What `/auth/login` answers: the sign-in page with the authorization link
/// when asked for the manual flow, a redirect to Spotify otherwise.
pub fn login_response(client_id: &str, host: &str, state: &str, params: &LoginParams) -> (r: LoginResponse)
    ensures
        ({
            let url = authorize_url_spec(client_id@, redirect_uri_spec(host@), state@);
            match r {
                LoginResponse::Page(p) => params.manual == Some(true) && p@ == login_page_html(url),
                LoginResponse::Redirect(u) => params.manual != Some(true) && u@ == url,
            }
        }),
{
    let back = redirect_uri(host);
    let url = authorize_url(client_id, back.as_str(), state);
    let manual = match params.manual {
        Some(b) => b,
        None => false,
    };
    if manual {
        let mut p = LOGIN_PAGE_HEAD.to_owned();
        p.append(url.as_str());
        p.append(LOGIN_PAGE_TAIL);
        LoginResponse::Page(p)
    } else {
        LoginResponse::Redirect(url)
    }
}

/// The name pairs of an address's query, as `url` reads the address
/// (`Url::parse`, then `query_pairs`); `None` where it is no address.
pub uninterp spec fn url_query_pairs(s: Seq<char>) -> Option<Seq<(Seq<char>, Seq<char>)>>;

pub open spec fn pair_views(v: Seq<(String, String)>) -> Seq<(Seq<char>, Seq<char>)> {
    v.map_values(|p: (String, String)| (p.0@, p.1@))
}

/// The decoded `name=value` pairs of the query of address `s`
/// (`Url::parse`, `query_pairs`); `None` where `url` rejects the address.
#[verifier::external_body]
fn query_pairs_of(s: &str) -> (r: Option<Vec<(String, String)>>)
    ensures
        match r {
            Some(v) => url_query_pairs(s@) == Some(pair_views(v@)),
            None => url_query_pairs(s@) is None,
        },
{
    match url::Url::parse(s) {
        Ok(u) => Some(u.query_pairs().map(|(k, v)| (k.into_owned(), v.into_owned())).collect()),
        Err(_) => None,
    }
}

/// Why no authorization code could be read from a pasted address.
#[derive(Debug, PartialEq, Eq, Structural)]
pub enum CodeError {
    /// Neither the text nor `http://localhost` followed by it is an address.
    InvalidUrl,
    /// The address has no `code` in its query.
    NoCode,
}

/// The value of the first pair named `code`.
pub open spec fn first_code(pairs: Seq<(Seq<char>, Seq<char>)>) -> Option<Seq<char>>
    decreases pairs.len(),
{
    if pairs.len() == 0 {
        None
    } else if pairs[0].0 == "code"@ {
        Some(pairs[0].1)
    } else {
        first_code(pairs.drop_first())
    }
}

/// The authorization code in a pasted redirect address: the text is read as
/// an address, or else as a path on `http://localhost`; the code is the
/// first query pair named `code`.
pub open spec fn code_from_redirect_spec(input: Seq<char>) -> Result<Seq<char>, CodeError> {
    let pairs = match url_query_pairs(input) {
        Some(p) => Some(p),
        None => url_query_pairs("http://localhost"@ + input),
    };
    match pairs {
        None => Err(CodeError::InvalidUrl),
        Some(p) => match first_code(p) {
            Some(c) => Ok(c),
            None => Err(CodeError::NoCode),
        },
    }
}

/// The authorization code in an address pasted into the manual sign-in form.
pub fn code_from_redirect(input: &str) -> (r: Result<String, CodeError>)
    ensures
        match r {
            Ok(c) => code_from_redirect_spec(input@) == Ok::<Seq<char>, CodeError>(c@),
            Err(e) => code_from_redirect_spec(input@) == Err::<Seq<char>, CodeError>(e),
        },
{
    let pairs = match query_pairs_of(input) {
        Some(p) => p,
        None => {
            let mut full = "http://localhost".to_owned();
            full.append(input);
            match query_pairs_of(full.as_str()) {
                Some(p) => p,
                None => {
                    return Err(CodeError::InvalidUrl);
                },
            }
        },
    };
    let ghost pv = pair_views(pairs@);
    let key = "code".to_owned();
    let mut i: usize = 0;
    assert(pv.skip(0) =~= pv);
    assert(code_from_redirect_spec(input@) == match first_code(pv) {
        Some(c) => Ok::<Seq<char>, CodeError>(c),
        None => Err(CodeError::NoCode),
    });
    while i < pairs.len()
        invariant
            code_from_redirect_spec(input@) == match first_code(pv) {
                Some(c) => Ok::<Seq<char>, CodeError>(c),
                None => Err(CodeError::NoCode),
            },
            pv == pair_views(pairs@),
            key@ == "code"@,
            i <= pairs@.len(),
            first_code(pv) == first_code(pv.skip(i as int)),
        decreases pairs.len() - i,
    {
        let ghost rest = pv.skip(i as int);
        assert(rest[0] == pv[i as int]);
        assert(rest.drop_first() =~= pv.skip(i + 1));
        if pairs[i].0 == key {
            return Ok(pairs[i].1.clone());
        }
        i = i + 1;
    }
    assert(pv.skip(i as int).len() == 0);
    Err(CodeError::NoCode)
}

/// The name to greet a user by: the display name, or else the Spotify id.
pub fn display_name_of(profile: &UserProfile) -> (r: String)
    ensures
        r@ == match profile.display_name {
            Some(n) => n@,
            None => profile.id@,
        },
{
    match &profile.display_name {
        Some(n) => n.clone(),
        None => profile.id.clone(),
    }
}

/// The background work a user needs.
pub struct UserTasks {
    pub poller: bool,
    pub reconciler: bool,
    pub refresher: bool,
}

/// Which background tasks to start for a user: none for a user already
/// active; otherwise the poller and the token refresher, and the
/// reconciler when backfilling is switched on.
pub fn plan_user_tasks(already_active: bool, reconcile: bool) -> (r: UserTasks)
    ensures
        r.poller == !already_active,
        r.refresher == !already_active,
        r.reconciler == (!already_active && reconcile),
{
    UserTasks { poller: !already_active, refresher: !already_active, reconciler: !already_active && reconcile }
}

/// The refresh token that a tick of the token refresher sends to Spotify;
/// `None` where the user has none, and the tick is passed over.
pub fn refresh_request(token: &TokenData) -> (r: Option<String>)
    ensures
        opt_view(r) == opt_view(token.refresh_token),
{
    match &token.refresh_token {
        Some(t) => Some(t.clone()),
        None => None,
    }
}

/// A refreshed token set: Spotify may leave the refresh token out, and then
/// the one used for the refresh stays valid.
pub fn with_refresh_token(new_token: TokenData, previous_refresh: String) -> (r: TokenData)
    ensures
        r.access_token == new_token.access_token,
        r.token_type == new_token.token_type,
        r.expires_in == new_token.expires_in,
        r.scope == new_token.scope,
        r.created_at == new_token.created_at,
        opt_view(r.refresh_token) == match new_token.refresh_token {
            Some(t) => Some(t@),
            None => Some(previous_refresh@),
        },
{
    let mut t = new_token;
    if t.refresh_token.is_none() {
        t.refresh_token = Some(previous_refresh);
    }
    t
}

/// The `count` low bytes of `n`, least significant first.
pub open spec fn low_bytes(n: int, count: nat) -> Seq<u8>
    decreases count,
{
    if count == 0 {
        Seq::empty()
    } else {
        seq![(n % 256) as u8] + low_bytes(n / 256, (count - 1) as nat)
    }
}

/// The eight bytes of `n` in two's complement, least significant first
/// (`i64::to_le_bytes`).
pub open spec fn le_bytes(n: i64) -> Seq<u8> {
    low_bytes(
        if n >= 0 {
            n as int
        } else {
            n + 0x1_0000_0000_0000_0000
        },
        8,
    )
}

/// The `state` of the authorization request made at second `now`: the
/// timestamp's little-endian bytes in URL-safe base64 without padding.
pub fn csrf_state_at(now: i64) -> (r: String)
    ensures
        r@ == b64url_encoded(le_bytes(now)),
{
    let mut n: u64 = if now >= 0 {
        now as u64
    } else {
        ((now + i64::MAX) + 1) as u64 + 9223372036854775808u64
    };
    let mut bytes: Vec<u8> = Vec::new();
    let mut k: usize = 0;
    while k < 8
        invariant
            k <= 8,
            bytes@ + low_bytes(n as int, (8 - k) as nat) == le_bytes(now),
        decreases 8 - k,
    {
        let ghost b0 = bytes@;
        let ghost n0 = n as int;
        assert(low_bytes(n0, (8 - k) as nat) == seq![(n0 % 256) as u8] + low_bytes(n0 / 256, (8 - k - 1) as nat));
        bytes.push((n % 256) as u8);
        n = n / 256;
        assert(bytes@ + low_bytes(n as int, (8 - (k + 1)) as nat) =~= b0 + low_bytes(n0, (8 - k) as nat));
        k = k + 1;
    }
    assert(bytes@ =~= bytes@ + low_bytes(n as int, 0));
    b64url_encode(bytes.as_slice())
}

/// The `state` of an authorization request made now, by the system clock
/// (see `csrf_state_at`).
pub fn csrf_state() -> (r: String)
    ensures
        exists|now: i64| crate::clock::clock_reading(now as int) && r@ == #[trigger] b64url_encoded(le_bytes(now)),
{
    let now = now_timestamp();
    csrf_state_at(now)
}

} // verus!
