//! The cookie endpoints: reading the `Cookie` header, and the
//! `Set-Cookie` headers that set or clear cookies before a redirect.

use vstd::prelude::*;
use vstd::utf8::encode_utf8;

use crate::error::AppError;
use crate::headers::{header_text, HeaderList};
use crate::http_rules::{check_header_value, header_value_byte, header_value_ok};
use crate::str_map::{lemma_map_of_pairs_contents, lemma_map_of_pairs_push, map_of_pairs, StrMap};
use crate::text::{
    chars_of, is_white_space, split, split_exec, split_once, split_once_exec, string_of, trim,
    trim_end, trim_exec, trim_start,
};

verus! {

/// The cookies of the `;`-separated pieces of a `Cookie` header: pieces
/// are trimmed and empty ones skipped; `name=value` gives the trimmed name
/// and value, and a piece without `=` gives itself with an empty value.
pub open spec fn cookie_pairs(pieces: Seq<Seq<char>>) -> Seq<(Seq<char>, Seq<char>)>
    decreases pieces.len(),
{
    if pieces.len() == 0 {
        seq![]
    } else {
        let rest = cookie_pairs(pieces.drop_first());
        let p = trim(pieces[0]);
        if p.len() == 0 {
            rest
        } else {
            match split_once(p, seq!['=']) {
                Some((k, v)) => seq![(trim(k), trim(v))] + rest,
                None => seq![(p, Seq::<char>::empty())] + rest,
            }
        }
    }
}

/// The cookies a request sends: none without a readable `Cookie` header; a
/// later cookie replaces an earlier one of the same name.
pub open spec fn cookie_jar_spec(h: Seq<(Seq<char>, Seq<u8>)>) -> Map<Seq<char>, Seq<char>> {
    match header_text(h, "cookie"@) {
        None => Map::empty(),
        Some(v) => map_of_pairs(cookie_pairs(split(v, seq![';']))),
    }
}

/// Reads the cookies of a request from its `Cookie` header.
pub fn parse_cookie_header(headers: &HeaderList) -> (res: StrMap<String>)
    ensures
        res@ == cookie_jar_spec(headers@),
{
    let mut jar: StrMap<String> = StrMap::new();
    let value = match headers.get_str("cookie") {
        Some(v) => v,
        None => {
            return jar;
        },
    };
    let cs = chars_of(value.as_str());
    let semi: Vec<char> = vec![';'];
    assert(semi@ =~= seq![';']);
    let eq: Vec<char> = vec!['='];
    assert(eq@ =~= seq!['=']);
    let pieces = split_exec(cs.as_slice(), semi.as_slice());
    let ghost all = split(value@, seq![';']);
    let ghost mut acc: Seq<(Seq<char>, Seq<char>)> = seq![];
    let mut i: usize = 0;
    assert(all.skip(0) =~= all);
    while i < pieces.len()
        invariant
            i <= pieces@.len(),
            pieces@.len() == all.len(),
            forall|j: int| 0 <= j < pieces@.len() ==> #[trigger] pieces@[j]@ == all[j],
            eq@ == seq!['='],
            jar@ == map_of_pairs(acc),
            cookie_pairs(all) == acc + cookie_pairs(all.skip(i as int)),
        decreases pieces.len() - i,
    {
        proof {
            assert(all.skip(i as int).drop_first() =~= all.skip(i + 1));
            assert(all.skip(i as int)[0] == all[i as int]);
        }
        let p = trim_exec(pieces[i].as_slice());
        if p.len() > 0 {
            let (k, v) = match split_once_exec(p.as_slice(), eq.as_slice()) {
                Some((k, v)) => {
                    let kt = trim_exec(k.as_slice());
                    let vt = trim_exec(v.as_slice());
                    (string_of(kt.as_slice()), string_of(vt.as_slice()))
                },
                None => (string_of(p.as_slice()), String::new()),
            };
            proof {
                lemma_map_of_pairs_push(acc, k@, v@);
                assert(acc + cookie_pairs(all.skip(i as int)) =~= acc.push((k@, v@)) + cookie_pairs(
                    all.skip(i + 1),
                ));
                acc = acc.push((k@, v@));
            }
            jar.insert(k, v);
        }
        i = i + 1;
    }
    assert(all.skip(i as int) =~= Seq::<Seq<char>>::empty());
    assert(acc + Seq::<(Seq<char>, Seq<char>)>::empty() =~= acc);
    jar
}

/// The `Set-Cookie` text of a cookie `name=value` with path `/`.
pub open spec fn set_cookie_spec(name: Seq<char>, value: Seq<char>) -> Seq<char> {
    name + "="@ + value + "; Path=/"@
}

/// The `Set-Cookie` text of the cookie `name=value` with the given
/// `HttpOnly` flag and path.
pub open spec fn cookie_text_with(
    name: Seq<char>,
    value: Seq<char>,
    http_only: bool,
    path: Seq<char>,
) -> Seq<char> {
    name + "="@ + value + (if http_only {
        "; HttpOnly"@
    } else {
        Seq::empty()
    }) + "; Path="@ + path
}

/// Builds the cookie `name=value` with the given path and `HttpOnly` flag
/// (`cookie::Cookie::build(..).path(..).http_only(..)`) and writes it with
/// its `Display` impl. Claimed, as the source of that impl shows: the text
/// is `name=value`, then `; HttpOnly` when the flag is set, then
/// `; Path=` and the path.
#[verifier::external_body]
fn write_cookie(name: &str, value: &str, http_only: bool, path: &str) -> (res: String)
    ensures
        res@ == cookie_text_with(name@, value@, http_only, path@),
{
    cookie::Cookie::build((name.to_owned(), value.to_owned())).path(path.to_owned()).http_only(
        http_only,
    ).build().to_string()
}

/// The start of the `Set-Cookie` text that clears the cookie `name`.
pub open spec fn removal_cookie_prefix(name: Seq<char>) -> Seq<char> {
    name + "=; Path=/; Max-Age=0; Expires="@
}

/// The text `t` clears the cookie `name`: `name=; Path=/; Max-Age=0;
/// Expires=` followed by a date in visible ASCII.
pub open spec fn removal_text(t: Seq<char>, name: Seq<char>) -> bool {
    &&& removal_cookie_prefix(name).len() <= t.len()
    &&& t.take(removal_cookie_prefix(name).len() as int) == removal_cookie_prefix(name)
    &&& forall|j: int|
        removal_cookie_prefix(name).len() <= j < t.len() ==> ' ' <= #[trigger] t[j] <= '~'
}

/// The start of the `Set-Cookie` text that clears the cookie `name` with
/// the given path.
pub open spec fn removal_prefix_with(name: Seq<char>, path: Seq<char>) -> Seq<char> {
    name + "=; Path="@ + path + "; Max-Age=0; Expires="@
}

/// Builds the cookie `name` with the given path, makes it a removal cookie
/// (`Cookie::make_removal`: empty value, `Max-Age=0`, an expiry a year
/// before now) and writes it with its `Display` impl. Claimed, as the
/// source shows: the text is `name=; Path=`, the path, `; Max-Age=0;
/// Expires=` and then the expiry in the HTTP date format (`Sun, 06 Nov
/// 1994 08:49:37 GMT`), which is visible ASCII. Which date it is depends
/// on the clock and is not stated.
#[verifier::external_body]
fn removal_cookie_text(name: &str, path: &str) -> (res: String)
    ensures
        removal_prefix_with(name@, path@).len() <= res@.len(),
        res@.take(removal_prefix_with(name@, path@).len() as int) == removal_prefix_with(name@, path@),
        forall|j: int|
            removal_prefix_with(name@, path@).len() <= j < res@.len() ==> ' ' <= #[trigger] res@[j] <= '~',
{
    let mut c = cookie::Cookie::build((name.to_owned(), String::new())).path(path.to_owned()).build();
    c.make_removal();
    c.to_string()
}

/// A redirect that sets or clears cookies.
pub struct CookieRedirect {
    /// The target of the redirect.
    pub location: Option<String>,
    /// The `Set-Cookie` header values, in order.
    pub set_cookies: Vec<String>,
}

/// The path the cookie endpoints redirect to.
pub open spec fn cookies_path() -> Seq<char> {
    "/cookies"@
}

/// The texts of `cookies` that are valid header values, in order.
pub open spec fn valid_header_texts(cookies: Seq<Seq<char>>) -> Seq<Seq<char>> {
    cookies.filter(|c: Seq<char>| header_value_ok(c))
}

/// A 302 redirect to `location` with the given `Set-Cookie` values; a
/// location or cookie that is not a valid header value is left out.
pub fn redirect_with_cookies(location: &str, cookies: Vec<String>) -> (res: CookieRedirect)
    ensures
        header_value_ok(location@) ==> (res.location matches Some(l) && l@ == location@),
        !header_value_ok(location@) ==> res.location is None,
        res.set_cookies@.map_values(|c: String| c@) == valid_header_texts(
            cookies@.map_values(|c: String| c@),
        ),
{
    let location = match check_header_value(location) {
        None => Some(location.to_owned()),
        Some(_) => None,
    };
    let ghost texts = cookies@.map_values(|c: String| c@);
    let ghost keep = |c: Seq<char>| header_value_ok(c);
    let mut kept: Vec<String> = Vec::new();
    let mut i: usize = 0;
    while i < cookies.len()
        invariant
            i <= cookies@.len(),
            texts == cookies@.map_values(|c: String| c@),
            keep == (|c: Seq<char>| header_value_ok(c)),
            kept@.map_values(|c: String| c@) == texts.take(i as int).filter(keep),
        decreases cookies.len() - i,
    {
        let ghost prev = kept@.map_values(|c: String| c@);
        proof {
            reveal(Seq::filter);
            assert(texts.take(i + 1).drop_last() =~= texts.take(i as int));
            assert(texts.take(i + 1).last() == cookies@[i as int]@);
        }
        match check_header_value(cookies[i].as_str()) {
            None => {
                kept.push(cookies[i].clone());
                assert(kept@.map_values(|c: String| c@) =~= prev.push(cookies@[i as int]@));
            },
            Some(_) => {
                assert(kept@.map_values(|c: String| c@) =~= prev);
            },
        }
        i = i + 1;
    }
    assert(texts.take(cookies@.len() as int) =~= texts);
    CookieRedirect { location, set_cookies: kept }
}

/// The `Set-Cookie` texts for the cookies of `pairs`, in order, or the
/// message of the error for the first pair with an empty name.
pub open spec fn set_cookie_texts(pairs: Seq<(Seq<char>, Seq<char>)>) -> Result<
    Seq<Seq<char>>,
    Seq<char>,
>
    decreases pairs.len(),
{
    if pairs.len() == 0 {
        Ok(seq![])
    } else if pairs[0].0.len() == 0 {
        Err("cookie name cannot be empty"@)
    } else {
        match set_cookie_texts(pairs.drop_first()) {
            Ok(rest) => Ok(seq![set_cookie_spec(pairs[0].0, pairs[0].1)] + rest),
            Err(e) => Err(e),
        }
    }
}

/// Builds the `Set-Cookie` texts (path `/`, not `HttpOnly`) for the given
/// cookies; a cookie with an empty name is a bad request.
pub fn build_set_cookies(pairs: &StrMap<String>) -> (res: Result<Vec<String>, AppError>)
    ensures
        match set_cookie_texts(pairs.pairs()) {
            Ok(texts) => res matches Ok(v) && v@.map_values(|c: String| c@) == texts,
            Err(m) => res matches Err(AppError::BadRequest(e)) && e@ == m,
        },
        pairs@.dom().contains(Seq::<char>::empty()) ==> (res matches Err(AppError::BadRequest(e))
            && e@ == "cookie name cannot be empty"@),
        !pairs@.dom().contains(Seq::<char>::empty()) ==> (res matches Ok(v) && v@.len()
            == pairs@.dom().len() && forall|k: Seq<char>| #[trigger]
            pairs@.dom().contains(k) ==> exists|i: int|
                0 <= i < v@.len() && v@[i]@ == set_cookie_spec(k, pairs@[k])),
{
    let n = pairs.len();
    let ghost ps = pairs.pairs();
    proof {
        use_type_invariant(pairs);
        lemma_set_cookie_texts(ps);
        lemma_empty_key(ps);
    }
    let mut out: Vec<String> = Vec::new();
    let mut i: usize = 0;
    assert(ps.skip(0) =~= ps);
    while i < n
        invariant
            i <= n,
            n == ps.len(),
            ps == pairs.pairs(),
            has_empty_key(ps) <==> pairs@.dom().contains(Seq::<char>::empty()),
            set_cookie_texts(ps) == match set_cookie_texts(ps.skip(i as int)) {
                Ok(rest) => Ok(out@.map_values(|c: String| c@) + rest),
                Err(e) => Err(e),
            },
        decreases n - i,
    {
        proof {
            assert(ps.skip(i as int).drop_first() =~= ps.skip(i + 1));
            assert(ps.skip(i as int)[0] == ps[i as int]);
        }
        let (name, value) = pairs.entry(i);
        if name.as_str().is_empty() {
            assert(ps[i as int].0.len() == 0);
            assert(has_empty_key(ps));
            return Err(AppError::BadRequest("cookie name cannot be empty".to_owned()));
        }
        let c = write_cookie(name.as_str(), value.as_str(), false, "/");
        proof {
            reveal_strlit("; Path=");
            reveal_strlit("/");
            reveal_strlit("; Path=/");
            assert(c@ =~= set_cookie_spec(name@, value@));
        }
        let ghost prev = out@.map_values(|c: String| c@);
        out.push(c);
        proof {
            assert(out@.map_values(|c: String| c@) =~= prev.push(c@));
            match set_cookie_texts(ps.skip(i + 1)) {
                Ok(rest) => {
                    assert(prev + (seq![c@] + rest) =~= prev.push(c@) + rest);
                },
                Err(e) => {},
            }
        }
        i = i + 1;
    }
    assert(ps.skip(i as int) =~= Seq::<(Seq<char>, Seq<char>)>::empty());
    assert(out@.map_values(|c: String| c@) + Seq::<Seq<char>>::empty() =~= out@.map_values(
        |c: String| c@,
    ));
    proof {
        let texts = out@.map_values(|c: String| c@);
        lemma_set_cookie_map(ps, texts);
        assert forall|k: Seq<char>| #[trigger] pairs@.dom().contains(k) implies exists|i: int|
            0 <= i < out@.len() && out@[i]@ == set_cookie_spec(k, pairs@[k]) by {
            let i = choose|i: int| 0 <= i < texts.len() && texts[i] == set_cookie_spec(k, map_of_pairs(ps)[k]);
            assert(out@[i]@ == texts[i]);
        }
    }
    Ok(out)
}

/// `GET /cookies/set?name=value&...`: sets the cookies of the query and
/// redirects to `/cookies`. An empty query is a bad request.
pub fn set_cookies(params: &StrMap<String>) -> (res: Result<CookieRedirect, AppError>)
    ensures
        params@.dom().len() == 0 ==> (res matches Err(AppError::BadRequest(m)) && m@
            == "expected at least one name=value query parameter"@),
        params@.dom().len() > 0 ==> match set_cookie_texts(params.pairs()) {
            Ok(texts) => res matches Ok(r) && r.location matches Some(l) && l@ == cookies_path()
                && r.set_cookies@.map_values(|c: String| c@) == valid_header_texts(texts),
            Err(m) => res matches Err(AppError::BadRequest(e)) && e@ == m,
        },
        params@.dom().len() > 0 && params@.dom().contains(Seq::<char>::empty()) ==> (res matches Err(
            AppError::BadRequest(m),
        ) && m@ == "cookie name cannot be empty"@),
        params@.dom().len() > 0 && !params@.dom().contains(Seq::<char>::empty()) ==> (res matches Ok(
            r,
        ) && r.location matches Some(l) && l@ == cookies_path() && forall|k: Seq<char>|
            #[trigger] params@.dom().contains(k) && header_value_ok(set_cookie_spec(k, params@[k]))
                ==> exists|i: int|
                0 <= i < r.set_cookies@.len() && r.set_cookies@[i]@ == set_cookie_spec(
                    k,
                    params@[k],
                )),
{
    if params.is_empty() {
        return Err(AppError::BadRequest("expected at least one name=value query parameter".to_owned()));
    }
    let cookies = build_set_cookies(params)?;
    proof {
        reveal_strlit("/cookies");
        assert(header_value_ok(cookies_path())) by {
            crate::http_rules::lemma_ascii_header_value("/cookies"@);
        }
    }
    let ghost texts = cookies@.map_values(|c: String| c@);
    let ghost cv = cookies@;
    let r = redirect_with_cookies("/cookies", cookies);
    proof {
        let sc = r.set_cookies@.map_values(|c: String| c@);
        assert forall|k: Seq<char>|
            #[trigger] params@.dom().contains(k) && header_value_ok(set_cookie_spec(k, params@[k]))
            implies exists|i: int|
            0 <= i < r.set_cookies@.len() && r.set_cookies@[i]@ == set_cookie_spec(k, params@[k]) by {
            let j = choose|j: int| 0 <= j < cv.len() && cv[j]@ == set_cookie_spec(k, params@[k]);
            assert(texts[j] == cv[j]@);
            let keep = |c: Seq<char>| header_value_ok(c);
            texts.lemma_filter_contains(keep, j);
            assert(sc.contains(texts[j]));
            let i = choose|i: int| 0 <= i < sc.len() && sc[i] == texts[j];
            assert(r.set_cookies@[i]@ == sc[i]);
        }
    }
    Ok(r)
}

/// `GET /cookies/set/{name}/{value}`: sets one cookie and redirects to
/// `/cookies`. An empty name is a bad request.
pub fn set_cookie_one(name: String, value: String) -> (res: Result<CookieRedirect, AppError>)
    ensures
        name@.len() == 0 ==> (res matches Err(AppError::BadRequest(m)) && m@
            == "cookie name cannot be empty"@),
        name@.len() > 0 ==> (res matches Ok(r) && r.location matches Some(l) && l@
            == cookies_path() && r.set_cookies@.map_values(|c: String| c@) == valid_header_texts(
            seq![set_cookie_spec(name@, value@)],
        )),
{
    let ghost nv = name@;
    let ghost vv = value@;
    let mut pairs: StrMap<String> = StrMap::new();
    pairs.insert(name, value);
    proof {
        assert(pairs.pairs() =~= seq![(nv, vv)]);
        assert(seq![(nv, vv)].drop_first() =~= Seq::<(Seq<char>, Seq<char>)>::empty());
        assert(seq![set_cookie_spec(nv, vv)] + Seq::<Seq<char>>::empty() =~= seq![set_cookie_spec(nv, vv)]);
        assert(set_cookie_texts(Seq::<(Seq<char>, Seq<char>)>::empty()) == Ok::<Seq<Seq<char>>, Seq<char>>(Seq::<Seq<char>>::empty()));
        if nv.len() > 0 {
            assert(set_cookie_texts(seq![(nv, vv)]) == Ok::<Seq<Seq<char>>, Seq<char>>(seq![set_cookie_spec(nv, vv)]));
        }
    }
    let cookies = build_set_cookies(&pairs)?;
    proof {
        reveal_strlit("/cookies");
        crate::http_rules::lemma_ascii_header_value("/cookies"@);
    }
    Ok(redirect_with_cookies("/cookies", cookies))
}

/// Some key of `pairs` is empty.
pub open spec fn has_empty_key(pairs: Seq<(Seq<char>, Seq<char>)>) -> bool {
    exists|i: int| 0 <= i < pairs.len() && #[trigger] pairs[i].0.len() == 0
}

/// Some key of the pairs is empty exactly when the map they make holds the
/// empty key.
proof fn lemma_empty_key(ps: Seq<(Seq<char>, Seq<char>)>)
    ensures
        has_empty_key(ps) <==> map_of_pairs(ps).dom().contains(Seq::<char>::empty()),
{
    lemma_map_of_pairs_contents(ps);
    if has_empty_key(ps) {
        let i = choose|i: int| 0 <= i < ps.len() && #[trigger] ps[i].0.len() == 0;
        assert(ps[i].0 =~= Seq::<char>::empty());
    }
    if map_of_pairs(ps).dom().contains(Seq::<char>::empty()) {
        let i = choose|i: int| 0 <= i < ps.len() && ps[i].0 == Seq::<char>::empty();
        assert(ps[i].0.len() == 0);
    }
}

/// What the `Set-Cookie` texts of pairs are: an error exactly when a key
/// is empty, and otherwise one text per pair, in order.
proof fn lemma_set_cookie_texts(ps: Seq<(Seq<char>, Seq<char>)>)
    ensures
        set_cookie_texts(ps) is Err <==> has_empty_key(ps),
        set_cookie_texts(ps) matches Err(m) ==> m == "cookie name cannot be empty"@,
        set_cookie_texts(ps) matches Ok(t) ==> t.len() == ps.len() && forall|i: int|
            0 <= i < t.len() ==> #[trigger] t[i] == set_cookie_spec(ps[i].0, ps[i].1),
    decreases ps.len(),
{
    if ps.len() > 0 {
        let rest = ps.drop_first();
        lemma_set_cookie_texts(rest);
        if has_empty_key(rest) {
            let i = choose|i: int| 0 <= i < rest.len() && #[trigger] rest[i].0.len() == 0;
            assert(ps[i + 1].0.len() == 0);
        }
        if has_empty_key(ps) && ps[0].0.len() > 0 {
            let i = choose|i: int| 0 <= i < ps.len() && #[trigger] ps[i].0.len() == 0;
            assert(rest[i - 1].0.len() == 0);
        }
        if ps[0].0.len() == 0 {
            assert(has_empty_key(ps));
        }
        match set_cookie_texts(ps) {
            Ok(t) => {
                let rt = set_cookie_texts(rest)->Ok_0;
                assert(t == seq![set_cookie_spec(ps[0].0, ps[0].1)] + rt);
                assert forall|i: int| 0 <= i < t.len() implies #[trigger] t[i] == set_cookie_spec(
                    ps[i].0,
                    ps[i].1,
                ) by {
                    if i > 0 {
                        assert(t[i] == rt[i - 1]);
                        assert(rest[i - 1] == ps[i]);
                    }
                }
            },
            Err(_) => {},
        }
    } else {
        assert(!has_empty_key(ps));
    }
}

/// With distinct keys, the texts of the pairs hold one text for each key
/// of the map they make, with its value.
proof fn lemma_set_cookie_map(ps: Seq<(Seq<char>, Seq<char>)>, texts: Seq<Seq<char>>)
    requires
        crate::str_map::keys_distinct(ps),
        set_cookie_texts(ps) == Ok::<Seq<Seq<char>>, Seq<char>>(texts),
    ensures
        texts.len() == map_of_pairs(ps).dom().len(),
        forall|k: Seq<char>| #[trigger]
            map_of_pairs(ps).dom().contains(k) ==> exists|i: int|
                0 <= i < texts.len() && texts[i] == set_cookie_spec(k, map_of_pairs(ps)[k]),
{
    lemma_set_cookie_texts(ps);
    lemma_map_of_pairs_contents(ps);
    assert forall|k: Seq<char>| #[trigger] map_of_pairs(ps).dom().contains(k) implies exists|i: int|
        0 <= i < texts.len() && texts[i] == set_cookie_spec(k, map_of_pairs(ps)[k]) by {
        let i = choose|i: int| 0 <= i < ps.len() && ps[i].0 == k;
        assert(map_of_pairs(ps)[ps[i].0] == ps[i].1);
        assert(texts[i] == set_cookie_spec(ps[i].0, ps[i].1));
    }
}

/// `texts` clears the cookies named by the keys of `pairs`, in order.
pub open spec fn clears_each(texts: Seq<Seq<char>>, pairs: Seq<(Seq<char>, Seq<char>)>) -> bool {
    &&& texts.len() == pairs.len()
    &&& forall|i: int| 0 <= i < texts.len() ==> removal_text(#[trigger] texts[i], pairs[i].0)
}

/// The UTF-8 encoding of joined texts is the joined encodings.
pub proof fn lemma_encode_utf8_concat(a: Seq<char>, b: Seq<char>)
    ensures
        encode_utf8(a + b) == encode_utf8(a) + encode_utf8(b),
    decreases a.len(),
{
    if a.len() == 0 {
        assert(a + b =~= b);
        assert(encode_utf8(a) =~= Seq::<u8>::empty());
        assert(Seq::<u8>::empty() + encode_utf8(b) =~= encode_utf8(b));
    } else {
        assert((a + b)[0] == a[0]);
        assert((a + b).drop_first() =~= a.drop_first() + b);
        lemma_encode_utf8_concat(a.drop_first(), b);
        assert(encode_utf8(a + b) =~= encode_utf8(a) + encode_utf8(b));
    }
}

/// A removal cookie for a name that is a valid header value is itself a
/// valid header value.
pub proof fn lemma_removal_text_valid(t: Seq<char>, name: Seq<char>)
    requires
        removal_text(t, name),
        header_value_ok(name),
    ensures
        header_value_ok(t),
{
    reveal_strlit("=; Path=/; Max-Age=0; Expires=");
    let pre = removal_cookie_prefix(name);
    let lit = "=; Path=/; Max-Age=0; Expires="@;
    let rest = t.skip(name.len() as int);
    assert forall|j: int| 0 <= j < name.len() implies t[j] == name[j] by {
        assert(t.take(pre.len() as int)[j] == t[j]);
        assert(pre[j] == name[j]);
    }
    assert(t =~= name + rest);
    assert forall|j: int| 0 <= j < rest.len() implies ' ' <= #[trigger] rest[j] <= '~' by {
        assert(rest[j] == t[j + name.len()]);
        if j < lit.len() {
            assert(t.take(pre.len() as int)[j + name.len()] == t[j + name.len()]);
            assert(pre[j + name.len()] == lit[j]);
        }
    }
    crate::http_rules::lemma_ascii_header_value(rest);
    lemma_encode_utf8_concat(name, rest);
    let bytes = encode_utf8(t);
    let en = encode_utf8(name);
    let er = encode_utf8(rest);
    assert forall|i: int| 0 <= i < bytes.len() implies header_value_byte(#[trigger] bytes[i]) by {
        if i < en.len() {
            assert(bytes[i] == en[i]);
        } else {
            assert(bytes[i] == er[i - en.len()]);
        }
    }
}

/// Keeping the valid header values of texts that all are keeps them all.
proof fn lemma_valid_header_texts_all(cookies: Seq<Seq<char>>)
    requires
        forall|i: int| 0 <= i < cookies.len() ==> header_value_ok(#[trigger] cookies[i]),
    ensures
        valid_header_texts(cookies) == cookies,
    decreases cookies.len(),
{
    reveal(Seq::filter);
    if cookies.len() > 0 {
        let t = cookies.drop_last();
        assert forall|i: int| 0 <= i < t.len() implies header_value_ok(#[trigger] t[i]) by {
            assert(t[i] == cookies[i]);
        }
        lemma_valid_header_texts_all(t);
        assert(header_value_ok(cookies.last()));
        assert(cookies =~= t.push(cookies.last()));
    }
}

/// `GET /cookies/delete?name&...`: clears the cookies named in the query
/// (`Max-Age=0`, path `/`) and redirects to `/cookies`. An empty query, or
/// an empty name, is a bad request.
pub fn delete_cookies(params: &StrMap<String>) -> (res: Result<CookieRedirect, AppError>)
    ensures
        params@.dom().len() == 0 ==> (res matches Err(AppError::BadRequest(m)) && m@
            == "expected at least one name query parameter"@),
        params@.dom().len() > 0 && has_empty_key(params.pairs()) ==> (res matches Err(
            AppError::BadRequest(m),
        ) && m@ == "cookie name cannot be empty"@),
        params@.dom().len() > 0 && !has_empty_key(params.pairs()) ==> (res matches Ok(r)
            && r.location matches Some(l) && l@ == cookies_path() && exists|texts: Seq<Seq<char>>|
            clears_each(texts, params.pairs()) && r.set_cookies@.map_values(|c: String| c@)
                == valid_header_texts(texts)),
        params@.dom().len() > 0 && !has_empty_key(params.pairs()) && (forall|i: int|
            0 <= i < params.pairs().len() ==> header_value_ok(#[trigger] params.pairs()[i].0))
            ==> (res matches Ok(r) && clears_each(
            r.set_cookies@.map_values(|c: String| c@),
            params.pairs(),
        )),
        params@.dom().len() > 0 && params@.dom().contains(Seq::<char>::empty()) ==> (res matches Err(
            AppError::BadRequest(m),
        ) && m@ == "cookie name cannot be empty"@),
        params@.dom().len() > 0 && !params@.dom().contains(Seq::<char>::empty()) && (forall|
            k: Seq<char>,
        | #[trigger] params@.dom().contains(k) ==> header_value_ok(k)) ==> (res matches Ok(r)
            && r.location matches Some(l) && l@ == cookies_path() && r.set_cookies@.len()
            == params@.dom().len() && forall|k: Seq<char>| #[trigger]
            params@.dom().contains(k) ==> exists|i: int|
                0 <= i < r.set_cookies@.len() && removal_text(r.set_cookies@[i]@, k)),
{
    let ghost ps = params.pairs();
    proof {
        use_type_invariant(params);
        lemma_empty_key(ps);
        lemma_map_of_pairs_contents(ps);
    }
    if params.is_empty() {
        return Err(AppError::BadRequest("expected at least one name query parameter".to_owned()));
    }
    let n = params.len();
    let mut cookies: Vec<String> = Vec::new();
    let mut i: usize = 0;
    while i < n
        invariant
            i <= n,
            n == ps.len(),
            ps == params.pairs(),
            params@.dom().len() > 0,
            has_empty_key(ps) <==> params@.dom().contains(Seq::<char>::empty()),
            forall|j: int| 0 <= j < i ==> ps[j].0.len() > 0,
            clears_each(cookies@.map_values(|c: String| c@), ps.take(i as int)),
        decreases n - i,
    {
        let (name, _) = params.entry(i);
        if name.as_str().is_empty() {
            assert(ps[i as int].0.len() == 0);
            return Err(AppError::BadRequest("cookie name cannot be empty".to_owned()));
        }
        let c = removal_cookie_text(name.as_str(), "/");
        proof {
            reveal_strlit("=; Path=");
            reveal_strlit("/");
            reveal_strlit("; Max-Age=0; Expires=");
            reveal_strlit("=; Path=/; Max-Age=0; Expires=");
            assert(removal_prefix_with(name@, "/"@) =~= removal_cookie_prefix(name@));
        }
        let ghost prev = cookies@.map_values(|c: String| c@);
        cookies.push(c);
        proof {
            assert(cookies@.map_values(|c: String| c@) =~= prev.push(c@));
            assert(ps.take(i + 1) =~= ps.take(i as int).push(ps[i as int]));
            let cur = cookies@.map_values(|c: String| c@);
            let pt = ps.take(i + 1);
            assert forall|j: int| 0 <= j < i + 1 implies removal_text(#[trigger] cur[j], pt[j].0) by {
                if j < i {
                    assert(pt[j] == ps.take(i as int)[j]);
                    assert(cur[j] == prev[j]);
                }
            }
            assert(clears_each(cur, pt));
        }
        i = i + 1;
    }
    assert(ps.take(n as int) =~= ps);
    assert(!has_empty_key(ps));
    let ghost texts = cookies@.map_values(|c: String| c@);
    proof {
        reveal_strlit("/cookies");
        crate::http_rules::lemma_ascii_header_value("/cookies"@);
    }
    let r = redirect_with_cookies("/cookies", cookies);
    assert(clears_each(texts, params.pairs()));
    proof {
        if forall|i: int| 0 <= i < ps.len() ==> header_value_ok(#[trigger] ps[i].0) {
            assert forall|i: int| 0 <= i < texts.len() implies header_value_ok(#[trigger] texts[i]) by {
                assert(removal_text(texts[i], ps[i].0));
                assert(header_value_ok(ps[i].0));
                lemma_removal_text_valid(texts[i], ps[i].0);
            }
            lemma_valid_header_texts_all(texts);
        }
        if forall|k: Seq<char>| #[trigger] params@.dom().contains(k) ==> header_value_ok(k) {
            assert forall|i: int| 0 <= i < ps.len() implies header_value_ok(#[trigger] ps[i].0) by {
                assert(params@.dom().contains(ps[i].0));
            }
            let sc = r.set_cookies@.map_values(|c: String| c@);
            assert(clears_each(sc, ps));
            assert forall|k: Seq<char>| #[trigger] params@.dom().contains(k) implies exists|i: int|
                0 <= i < r.set_cookies@.len() && removal_text(r.set_cookies@[i]@, k) by {
                let i = choose|i: int| 0 <= i < ps.len() && ps[i].0 == k;
                assert(removal_text(sc[i], ps[i].0));
                assert(sc[i] == r.set_cookies@[i]@);
            }
        }
    }
    Ok(r)
}

/// `GET /cookies`: the cookies the request sent.
pub fn get_cookies(headers: &HeaderList) -> (res: StrMap<String>)
    ensures
        res@ == cookie_jar_spec(headers@),
{
    parse_cookie_header(headers)
}

/// A cookie set as `name=value` and sent back in a `Cookie` header of just
/// `name=value` reads back as that value, when the name is not empty, and
/// neither has surrounding whitespace or a `;`, nor the name an `=`.
pub proof fn lemma_cookie_round_trip(
    h: Seq<(Seq<char>, Seq<u8>)>,
    name: Seq<char>,
    value: Seq<char>,
)
    requires
        header_text(h, "cookie"@) == Some(name + seq!['='] + value),
        name.len() > 0,
        trim(name) == name,
        trim(value) == value,
        !name.contains(';'),
        !name.contains('='),
        !value.contains(';'),
    ensures
        set_cookie_spec(name, value).take((name.len() + 1 + value.len()) as int) == name + seq!['='] + value,
        cookie_jar_spec(h) == Map::<Seq<char>, Seq<char>>::empty().insert(name, value),
{
    reveal_strlit("=");
    let s = name + seq!['='] + value;
    assert(set_cookie_spec(name, value).take((name.len() + 1 + value.len()) as int) =~= s);
    assert(!s.contains(';')) by {
        if s.contains(';') {
            let j = choose|j: int| 0 <= j < s.len() && s[j] == ';';
            if j < name.len() {
                assert(name[j] == ';');
            } else if j > name.len() {
                assert(value[j - name.len() - 1] == ';');
            }
        }
    }
    crate::text::lemma_split_absent(s, ';');
    crate::text::lemma_trim_fixed(name);
    crate::text::lemma_trim_fixed(value);
    crate::text::lemma_trim_fixed(s);
    assert(s[0] == name[0]);
    if value.len() > 0 {
        assert(s.last() == value.last());
    } else {
        assert(s.last() == '=');
    }
    assert(trim(s) == s);
    let k = name.len() as int;
    assert forall|j: int| 0 <= j < k implies s[j] != '=' by {
        assert(s[j] == name[j]);
    }
    crate::text::lemma_split_once_at(s, '=', k);
    assert(s.take(k) =~= name);
    assert(s.skip(k + 1) =~= value);
    let pieces = seq![s];
    assert(pieces.drop_first() =~= Seq::<Seq<char>>::empty());
    assert(cookie_pairs(pieces.drop_first()) == Seq::<(Seq<char>, Seq<char>)>::empty());
    assert(cookie_pairs(pieces) =~= seq![(name, value)]);
    let ps = seq![(name, value)];
    assert(ps.drop_last() =~= Seq::<(Seq<char>, Seq<char>)>::empty());
    assert(split(s, seq![';']) == pieces);
    assert(map_of_pairs(ps.drop_last()) == Map::<Seq<char>, Seq<char>>::empty());
    assert(map_of_pairs(ps) =~= Map::<Seq<char>, Seq<char>>::empty().insert(name, value));
}

/// A cookie name as a browser sends it: non-empty visible ASCII without
/// `;` or `=`.
pub open spec fn plain_cookie_name(s: Seq<char>) -> bool {
    &&& s.len() > 0
    &&& forall|i: int| 0 <= i < s.len() ==> '!' <= #[trigger] s[i] <= '~' && s[i] != ';' && s[i] != '='
}

/// A cookie value as a browser sends it: visible ASCII without `;`.
pub open spec fn plain_cookie_value(s: Seq<char>) -> bool {
    forall|i: int| 0 <= i < s.len() ==> '!' <= #[trigger] s[i] <= '~' && s[i] != ';'
}

/// Every cookie of `cookies` has a plain name and value.
pub open spec fn plain_cookies(cookies: Seq<(Seq<char>, Seq<char>)>) -> bool {
    forall|i: int|
        0 <= i < cookies.len() ==> plain_cookie_name(#[trigger] cookies[i].0) && plain_cookie_value(
            cookies[i].1,
        )
}

/// The cookie `name=value`.
pub open spec fn cookie_text(c: (Seq<char>, Seq<char>)) -> Seq<char> {
    c.0 + seq!['='] + c.1
}

/// The `Cookie` header a browser sends for `cookies`: their texts joined
/// by `; `.
pub open spec fn cookie_header_text(cookies: Seq<(Seq<char>, Seq<char>)>) -> Seq<char>
    decreases cookies.len(),
{
    if cookies.len() == 0 {
        seq![]
    } else if cookies.len() == 1 {
        cookie_text(cookies[0])
    } else {
        cookie_text(cookies[0]) + seq![';', ' '] + cookie_header_text(cookies.drop_first())
    }
}

proof fn lemma_trim_start_spaces(lead: Seq<char>, x: Seq<char>)
    requires
        forall|i: int| 0 <= i < lead.len() ==> lead[i] == ' ',
    ensures
        trim_start(lead + x) == trim_start(x),
    decreases lead.len(),
{
    if lead.len() > 0 {
        assert((lead + x)[0] == ' ');
        assert((lead + x).drop_first() =~= lead.drop_first() + x);
        lemma_trim_start_spaces(lead.drop_first(), x);
    } else {
        assert(lead + x =~= x);
    }
}

proof fn lemma_cookie_pieces(lead: Seq<char>, cookies: Seq<(Seq<char>, Seq<char>)>)
    requires
        forall|i: int| 0 <= i < lead.len() ==> lead[i] == ' ',
        plain_cookies(cookies),
    ensures
        cookie_pairs(split(lead + cookie_header_text(cookies), seq![';'])) == cookies,
    decreases cookies.len(),
{
    let t = cookie_header_text(cookies);
    let s = lead + t;
    if cookies.len() == 0 {
        assert(s =~= lead);
        assert forall|j: int| 0 <= j < s.len() implies s[j] != ';' by {}
        crate::text::lemma_split_char_last(s, ';', 0);
        assert(s.subrange(0, s.len() as int) =~= s);
        lemma_trim_start_spaces(lead, Seq::<char>::empty());
        assert(lead + Seq::<char>::empty() =~= lead);
        assert(trim_start(Seq::<char>::empty()) == Seq::<char>::empty());
        assert(trim(s) =~= Seq::<char>::empty());
        assert(seq![s].drop_first() =~= Seq::<Seq<char>>::empty());
        assert(cookie_pairs(Seq::<Seq<char>>::empty()) == Seq::<(Seq<char>, Seq<char>)>::empty());
    } else {
        let c = cookies[0];
        assert(plain_cookie_name(c.0) && plain_cookie_value(c.1));
        let f = cookie_text(c);
        let n = c.0.len() as int;
        assert forall|j: int| 0 <= j < f.len() implies f[j] != ';' by {
            if j < n {
                assert(f[j] == c.0[j]);
            } else if j > n {
                assert(f[j] == c.1[j - n - 1]);
            }
        }
        // the piece of this cookie reads back as it
        let p = lead + f;
        lemma_trim_start_spaces(lead, f);
        assert(f[0] == c.0[0]);
        assert(!is_white_space(f[0]));
        assert(trim_start(f) == f);
        if c.1.len() > 0 {
            assert(f.last() == c.1[c.1.len() - 1]);
        } else {
            assert(f.last() == '=');
        }
        assert(!is_white_space(f.last()));
        assert(trim_end(f) == f);
        assert(trim(p) == f);
        assert(f[n] == '=');
        assert forall|j: int| 0 <= j < n implies f[j] != '=' by {
            assert(f[j] == c.0[j]);
        }
        crate::text::lemma_split_once_at(f, '=', n);
        assert(f.take(n) =~= c.0);
        assert(f.skip(n + 1) =~= c.1);
        crate::text::lemma_trim_fixed(c.0);
        assert(!is_white_space(c.0[0]));
        assert(!is_white_space(c.0.last()));
        assert(trim(c.0) == c.0);
        if c.1.len() > 0 {
            assert(!is_white_space(c.1[0]));
            assert(!is_white_space(c.1.last()));
        }
        crate::text::lemma_trim_fixed(c.1);
        assert(trim(c.1) == c.1);
        assert(p.len() > 0);
        if cookies.len() == 1 {
            assert(s =~= p);
            assert forall|j: int| 0 <= j < s.len() implies s[j] != ';' by {
                if j >= lead.len() {
                    assert(s[j] == f[j - lead.len()]);
                }
            }
            crate::text::lemma_split_char_last(s, ';', 0);
            assert(s.subrange(0, s.len() as int) =~= s);
            assert(split(s, seq![';']) == seq![p]);
            assert(seq![p].drop_first() =~= Seq::<Seq<char>>::empty());
            assert(cookie_pairs(Seq::<Seq<char>>::empty()) == Seq::<(Seq<char>, Seq<char>)>::empty());
            assert(cookie_pairs(seq![p]) =~= seq![(c.0, c.1)]);
            assert(cookies =~= seq![c]);
        } else {
            let rest = cookies.drop_first();
            assert forall|i: int| 0 <= i < rest.len() implies plain_cookie_name(#[trigger] rest[i].0)
                && plain_cookie_value(rest[i].1) by {
                assert(rest[i] == cookies[i + 1]);
                assert(plain_cookie_name(cookies[i + 1].0));
            }
            assert(plain_cookies(rest));
            let sp = seq![' '];
            lemma_cookie_pieces(sp, rest);
            let x = p + seq![';'];
            let y = sp + cookie_header_text(rest);
            assert(s =~= x + y);
            let k = p.len() as int;
            assert(s[k] == ';');
            assert forall|j: int| 0 <= j < k implies s[j] != ';' by {
                if j >= lead.len() {
                    assert(s[j] == f[j - lead.len()]);
                }
            }
            crate::text::lemma_split_char_step(s, ';', 0, k);
            crate::text::lemma_split_from_shift(x, y, seq![';'], 0);
            assert(s.subrange(0, k) =~= p);
            let more = split(y, seq![';']);
            assert(split(s, seq![';']) =~= seq![p] + more);
            assert((seq![p] + more).drop_first() =~= more);
            assert((seq![p] + more)[0] == p);
            assert(cookie_pairs(seq![p] + more) == seq![(c.0, c.1)] + rest);
            assert(cookies =~= seq![c] + rest);
        }
    }
}

/// A `Cookie` header sent for cookies with plain names and values reads
/// back as those cookies, a later one replacing an earlier one of the
/// same name.
pub proof fn lemma_cookie_header_reads_back(
    h: Seq<(Seq<char>, Seq<u8>)>,
    cookies: Seq<(Seq<char>, Seq<char>)>,
)
    requires
        header_text(h, "cookie"@) == Some(cookie_header_text(cookies)),
        plain_cookies(cookies),
    ensures
        cookie_jar_spec(h) == map_of_pairs(cookies),
{
    lemma_cookie_pieces(Seq::<char>::empty(), cookies);
    assert(Seq::<char>::empty() + cookie_header_text(cookies) =~= cookie_header_text(cookies));
}

} // verus!
