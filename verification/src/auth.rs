//! HTTP Basic and Bearer authentication.

use vstd::prelude::*;

use crate::encoding::{base64_decode_standard, base64_standard_decode, lossy_text, utf8_lossy_decode};
use crate::error::AppError;
use crate::headers::{header_text, HeaderList};
use crate::text::{chars_of, split_once, split_once_exec, string_of, strip_prefix, strip_prefix_exec};

verus! {

/// The answer to a successful Basic authentication.
pub struct AuthResponse {
    /// Always true.
    pub authenticated: bool,
    /// The user that authenticated.
    pub user: String,
}

/// The answer to a request with a Bearer token.
pub struct BearerResponse {
    /// Always true.
    pub authenticated: bool,
    /// The token sent.
    pub token: String,
}

/// The text that Base64 `input` decodes to, read as UTF-8 with invalid
/// sequences replaced; `None` when it is not valid Base64.
pub open spec fn base64_text(input: Seq<char>) -> Option<Seq<char>> {
    match base64_standard_decode(input) {
        Some(bytes) => Some(lossy_text(bytes)),
        None => None,
    }
}

/// Decodes standard, padded Base64 and reads the bytes as UTF-8, lossily.
fn base64_decode(input: &str) -> (res: Option<String>)
    ensures
        opt_text(res) == base64_text(input@),
{
    match base64_decode_standard(input) {
        Some(bytes) => Some(utf8_lossy_decode(bytes.as_slice())),
        None => None,
    }
}

/// The view of an optional string.
pub open spec fn opt_text(o: Option<String>) -> Option<Seq<char>> {
    match o {
        Some(s) => Some(s@),
        None => None,
    }
}

/// The outcome of Basic authentication against `user` and `passwd`: the
/// authenticated user, or the message of the 401 answer.
pub open spec fn basic_auth_spec(
    h: Seq<(Seq<char>, Seq<u8>)>,
    user: Seq<char>,
    passwd: Seq<char>,
) -> Result<Seq<char>, Seq<char>> {
    match header_text(h, "authorization"@) {
        None => Err("Missing Authorization header"@),
        Some(auth) => match strip_prefix(auth, "Basic "@) {
            None => Err("Invalid Authorization scheme"@),
            Some(credentials) => match base64_text(credentials) {
                None => Err("Invalid Base64 encoding"@),
                Some(decoded) => match split_once(decoded, seq![':']) {
                    None => Err("Invalid credentials format"@),
                    Some((u, p)) => if u != user || p != passwd {
                        Err("Invalid credentials"@)
                    } else {
                        Ok(u)
                    },
                },
            },
        },
    }
}

/// `GET /basic-auth/{user}/{passwd}`: checks the HTTP Basic credentials
/// of the request against `user` and `passwd`. A missing or malformed
/// `Authorization` header, or credentials that differ, are answered with
/// 401.
pub fn basic_auth(headers: &HeaderList, user: &str, passwd: &str) -> (res: Result<
    AuthResponse,
    AppError,
>)
    ensures
        match basic_auth_spec(headers@, user@, passwd@) {
            Ok(u) => res matches Ok(r) && r.authenticated && r.user@ == u,
            Err(m) => res matches Err(AppError::Unauthorized(e)) && e@ == m,
        },
{
    let auth = match headers.get_str("authorization") {
        Some(a) => a,
        None => {
            return Err(AppError::Unauthorized("Missing Authorization header".to_owned()));
        },
    };
    let ac = chars_of(auth.as_str());
    let scheme = chars_of("Basic ");
    let credentials = match strip_prefix_exec(ac.as_slice(), scheme.as_slice()) {
        Some(c) => string_of(c.as_slice()),
        None => {
            return Err(AppError::Unauthorized("Invalid Authorization scheme".to_owned()));
        },
    };
    let decoded = match base64_decode(credentials.as_str()) {
        Some(d) => d,
        None => {
            return Err(AppError::Unauthorized("Invalid Base64 encoding".to_owned()));
        },
    };
    let dc = chars_of(decoded.as_str());
    let colon: Vec<char> = vec![':'];
    assert(colon@ =~= seq![':']);
    let (provided_user, provided_pass) = match split_once_exec(dc.as_slice(), colon.as_slice()) {
        Some(p) => p,
        None => {
            return Err(AppError::Unauthorized("Invalid credentials format".to_owned()));
        },
    };
    let uc = chars_of(user);
    let pc = chars_of(passwd);
    if !crate::text::chars_equal(provided_user.as_slice(), uc.as_slice())
        || !crate::text::chars_equal(provided_pass.as_slice(), pc.as_slice()) {
        return Err(AppError::Unauthorized("Invalid credentials".to_owned()));
    }
    Ok(AuthResponse { authenticated: true, user: string_of(provided_user.as_slice()) })
}

/// Basic authentication succeeds exactly when the header is `Basic `
/// followed by Base64 of text that is the user, a colon and the password
/// (the user holding no colon), and then names that user.
pub proof fn lemma_basic_auth_accepts_exactly_matching_credentials(
    h: Seq<(Seq<char>, Seq<u8>)>,
    user: Seq<char>,
    passwd: Seq<char>,
)
    ensures
        basic_auth_spec(h, user, passwd) is Ok <==> exists|credentials: Seq<char>|
            header_text(h, "authorization"@) == Some("Basic "@ + credentials) && base64_text(
                credentials,
            ) == Some(user + seq![':'] + passwd) && !user.contains(':'),
        basic_auth_spec(h, user, passwd) matches Ok(u) ==> u == user,
{
    reveal_strlit("Basic ");
    let tag = "Basic "@;
    if basic_auth_spec(h, user, passwd) is Ok {
        let auth = header_text(h, "authorization"@)->0;
        let credentials = strip_prefix(auth, tag)->0;
        let decoded = base64_text(credentials)->0;
        crate::text::lemma_first_occurrence_from(decoded, seq![':'], 0);
        let k = crate::text::first_occurrence(decoded, seq![':'])->0;
        assert(auth =~= tag + credentials);
        assert(decoded =~= user + seq![':'] + passwd) by {
            assert(decoded.subrange(k, k + 1) == seq![':']);
            assert(decoded.subrange(k, k + 1)[0] == decoded[k]);
            assert(decoded.take(k) == user);
            assert(decoded.skip(k + 1) == passwd);
            assert(decoded =~= decoded.take(k) + seq![':'] + decoded.skip(k + 1));
        }
        assert(!user.contains(':')) by {
            if user.contains(':') {
                let j = choose|j: int| 0 <= j < user.len() && user[j] == ':';
                assert(decoded.take(k)[j] == decoded[j]);
                assert(decoded.subrange(j, j + 1) =~= seq![':']);
                assert(crate::text::occurs_at(decoded, seq![':'], j));
            }
        }
    }
    if exists|credentials: Seq<char>|
        header_text(h, "authorization"@) == Some(tag + credentials) && base64_text(credentials)
            == Some(user + seq![':'] + passwd) && !user.contains(':') {
        let credentials = choose|credentials: Seq<char>|
            header_text(h, "authorization"@) == Some(tag + credentials) && base64_text(credentials)
                == Some(user + seq![':'] + passwd) && !user.contains(':');
        let auth = tag + credentials;
        assert(auth.subrange(0, 6) =~= tag);
        assert(strip_prefix(auth, tag) == Some(credentials)) by {
            assert(auth.skip(6) =~= credentials);
        }
        let decoded = user + seq![':'] + passwd;
        let n = user.len() as int;
        assert(decoded.subrange(n, n + 1) =~= seq![':']);
        assert(crate::text::occurs_at(decoded, seq![':'], n));
        crate::text::lemma_first_occurrence_from(decoded, seq![':'], 0);
        assert forall|j: int| 0 <= j < n implies !crate::text::occurs_at(decoded, seq![':'], j) by {
            if crate::text::occurs_at(decoded, seq![':'], j) {
                assert(decoded.subrange(j, j + 1)[0] == decoded[j]);
                assert(decoded[j] == user[j]);
            }
        }
        let k = crate::text::first_occurrence(decoded, seq![':'])->0;
        assert(k == n);
        assert(decoded.take(n) =~= user);
        assert(decoded.skip(n + 1) =~= passwd);
    }
}

/// The outcome of a Bearer request: the token, or the message of the 401
/// answer.
pub open spec fn bearer_spec(h: Seq<(Seq<char>, Seq<u8>)>) -> Result<Seq<char>, Seq<char>> {
    match header_text(h, "authorization"@) {
        None => Err("Missing Authorization header"@),
        Some(auth) => match strip_prefix(auth, "Bearer "@) {
            None => Err("Invalid Authorization scheme"@),
            Some(token) => Ok(token),
        },
    }
}

/// A request whose `Authorization` header reads exactly `Bearer ` followed by
/// a token is answered with that token, unchanged; one whose header does not
/// begin with `Bearer ` is refused as another scheme, and one without the
/// header as missing it.
pub proof fn lemma_bearer_token(h: Seq<(Seq<char>, Seq<u8>)>, token: Seq<char>)
    ensures
        header_text(h, "authorization"@) == Some("Bearer "@ + token) ==> bearer_spec(h) == Ok::<
            Seq<char>,
            Seq<char>,
        >(token),
        header_text(h, "authorization"@) matches Some(a) && !crate::text::occurs_at(
            a,
            "Bearer "@,
            0,
        ) ==> bearer_spec(h) == Err::<Seq<char>, Seq<char>>("Invalid Authorization scheme"@),
        header_text(h, "authorization"@) is None ==> bearer_spec(h) == Err::<Seq<char>, Seq<char>>(
            "Missing Authorization header"@,
        ),
{
    reveal_strlit("Bearer ");
    let tag = "Bearer "@;
    let auth = tag + token;
    assert(auth.subrange(0, 7) =~= tag);
    assert(auth.skip(7) =~= token);
    assert(strip_prefix(auth, tag) == Some(token));
}

/// `GET /bearer`: the token of a `Bearer` `Authorization` header; a
/// missing header or another scheme is answered with 401.
pub fn bearer(headers: &HeaderList) -> (res: Result<BearerResponse, AppError>)
    ensures
        match bearer_spec(headers@) {
            Ok(t) => res matches Ok(r) && r.authenticated && r.token@ == t,
            Err(m) => res matches Err(AppError::Unauthorized(e)) && e@ == m,
        },
{
    let auth = match headers.get_str("authorization") {
        Some(a) => a,
        None => {
            return Err(AppError::Unauthorized("Missing Authorization header".to_owned()));
        },
    };
    let ac = chars_of(auth.as_str());
    let scheme = chars_of("Bearer ");
    match strip_prefix_exec(ac.as_slice(), scheme.as_slice()) {
        Some(t) => Ok(BearerResponse { authenticated: true, token: string_of(t.as_slice()) }),
        None => Err(AppError::Unauthorized("Invalid Authorization scheme".to_owned())),
    }
}

} // verus!
