//! The body of a request, with `multipart/*` bodies parsed into their form
//! fields and files.

use vstd::prelude::*;
use vstd::utf8::{decode_utf8, encode_utf8, valid_utf8};

use crate::byte_seq::{
    find_subsequence, first_match_from, header_terminator, lemma_first_match_at,
    lemma_first_match_from, lemma_split_from_shift, matches_at, split_bytes, split_from, split_on,
    strip_prefix as strip_byte_prefix, strip_suffix as strip_byte_suffix,
};
use crate::encoding::{lossy_text, str_from_utf8, utf8_lossy_decode};
use crate::error::AppError;
use crate::headers::ascii_lower;
use crate::str_map::{lemma_map_of_pairs_push, map_of_pairs, StrMap};
use crate::text::{
    chars_equal, chars_of, is_white_space, occurs_at, split, split_exec, split_once,
    split_once_exec, strip_prefix, strip_prefix_exec, string_of, trim, trim_end, trim_exec,
    trim_matches, trim_matches_exec, trim_start,
};

verus! {

/// `s` without one pair of enclosing double or single quotes, after
/// trimming whitespace.
pub open spec fn unquoted(s: Seq<char>) -> Seq<char> {
    let t = trim(s);
    if t.len() >= 2 && ((t[0] == '"' && t.last() == '"') || (t[0] == '\'' && t.last() == '\'')) {
        t.subrange(1, t.len() - 1)
    } else {
        t
    }
}

/// Trims `s` and removes one pair of enclosing quotes.
pub fn unquote(s: &str) -> (res: String)
    ensures
        res@ == unquoted(s@),
{
    let cs = chars_of(s);
    let t = trim_exec(cs.as_slice());
    let n = t.len();
    if n >= 2 && ((t[0] == '"' && t[n - 1] == '"') || (t[0] == '\'' && t[n - 1] == '\'')) {
        let inner = vstd::slice::slice_to_vec(&t.as_slice()[1..n - 1]);
        assert(inner@ =~= t@.subrange(1, n - 1));
        string_of(inner.as_slice())
    } else {
        string_of(t.as_slice())
    }
}

/// Quoting text and unquoting it gives the text back.
pub proof fn lemma_unquote_quoted(x: Seq<char>)
    ensures
        unquoted(seq!['"'] + x + seq!['"']) == x,
        unquoted(seq!['\''] + x + seq!['\'']) == x,
{
    let q = seq!['"'] + x + seq!['"'];
    assert(q[0] == '"' && q.last() == '"');
    assert(trim_start(q) == q);
    assert(trim_end(q) == q);
    assert(q.subrange(1, q.len() - 1) =~= x);
    let a = seq!['\''] + x + seq!['\''];
    assert(a[0] == '\'' && a.last() == '\'');
    assert(trim_start(a) == a);
    assert(trim_end(a) == a);
    assert(a.subrange(1, a.len() - 1) =~= x);
}

/// The value of the last `;`-separated parameter of `parts` whose trimmed
/// text starts with `key`, unquoted.
pub open spec fn param_value(parts: Seq<Seq<char>>, key: Seq<char>) -> Option<Seq<char>>
    decreases parts.len(),
{
    if parts.len() == 0 {
        None
    } else {
        match strip_prefix(trim(parts.last()), key) {
            Some(rest) => Some(unquoted(trim(rest))),
            None => param_value(parts.drop_last(), key),
        }
    }
}

/// The `name` and `filename` parameters of a `Content-Disposition` value;
/// absent when it has no `name`.
pub open spec fn disposition_spec(value: Seq<char>) -> Option<(Seq<char>, Option<Seq<char>>)> {
    let parts = split(value, seq![';']);
    match param_value(parts, "name="@) {
        Some(n) => Some((n, param_value(parts, "filename="@))),
        None => None,
    }
}

/// The parameters of a form part's `Content-Disposition` header.
pub struct ContentDisposition {
    /// The field name.
    pub name: String,
    /// The file name, for a part that carries a file.
    pub filename: Option<String>,
}

/// The view of an optional string.
pub open spec fn opt_view(o: Option<String>) -> Option<Seq<char>> {
    match o {
        Some(s) => Some(s@),
        None => None,
    }
}

/// Parses the parameters of a `Content-Disposition` header value.
pub fn parse_disposition_value(value: &str) -> (res: Option<ContentDisposition>)
    ensures
        res matches Some(d) ==> disposition_spec(value@) == Some((d.name@, opt_view(d.filename))),
        res is None ==> disposition_spec(value@) is None,
{
    let cs = chars_of(value);
    let semi: Vec<char> = vec![';'];
    assert(semi@ =~= seq![';']);
    let parts = split_exec(cs.as_slice(), semi.as_slice());
    let ghost ps = split(value@, seq![';']);
    let name_key = chars_of("name=");
    let file_key = chars_of("filename=");
    let mut name: Option<String> = None;
    let mut filename: Option<String> = None;
    let mut i: usize = 0;
    while i < parts.len()
        invariant
            i <= parts@.len(),
            parts@.len() == ps.len(),
            forall|j: int| 0 <= j < parts@.len() ==> #[trigger] parts@[j]@ == ps[j],
            name_key@ == "name="@,
            file_key@ == "filename="@,
            opt_view(name) == param_value(ps.take(i as int), "name="@),
            opt_view(filename) == param_value(ps.take(i as int), "filename="@),
        decreases parts.len() - i,
    {
        let part = trim_exec(parts[i].as_slice());
        proof {
            assert(ps.take(i + 1).drop_last() =~= ps.take(i as int));
            assert(ps.take(i + 1).last() == ps[i as int]);
        }
        match strip_prefix_exec(part.as_slice(), name_key.as_slice()) {
            Some(rest) => {
                let r = trim_exec(rest.as_slice());
                let rs = string_of(r.as_slice());
                name = Some(unquote(rs.as_str()));
                proof {
                    reveal_strlit("name=");
                    reveal_strlit("filename=");
                    assert(strip_prefix(trim(ps[i as int]), "filename="@) is None) by {
                        if occurs_at(trim(ps[i as int]), "filename="@, 0) {
                            assert(trim(ps[i as int]).subrange(0, 5)[0] == "name="@[0]);
                            assert(trim(ps[i as int]).subrange(0, 9)[0] == "filename="@[0]);
                        }
                    }
                }
            },
            None => {
                match strip_prefix_exec(part.as_slice(), file_key.as_slice()) {
                    Some(rest) => {
                        let r = trim_exec(rest.as_slice());
                        let rs = string_of(r.as_slice());
                        filename = Some(unquote(rs.as_str()));
                    },
                    None => {},
                }
            },
        }
        i = i + 1;
    }
    assert(ps.take(ps.len() as int) =~= ps);
    match name {
        Some(n) => Some(ContentDisposition { name: n, filename }),
        None => None,
    }
}

/// The `Content-Disposition` of a part's header lines: the parameters of
/// the first line whose name is `content-disposition` in any ASCII case;
/// absent when a line before it has no colon.
pub open spec fn content_disposition_spec(lines: Seq<Seq<char>>) -> Option<
    (Seq<char>, Option<Seq<char>>),
>
    decreases lines.len(),
{
    if lines.len() == 0 {
        None
    } else {
        match split_once(lines[0], seq![':']) {
            None => None,
            Some((k, v)) => if ascii_lower(trim(k)) == "content-disposition"@ {
                disposition_spec(trim(v))
            } else {
                content_disposition_spec(lines.drop_first())
            },
        }
    }
}

/// Finds the `Content-Disposition` header among the header lines of a
/// part and parses it.
pub fn parse_content_disposition(headers: &str) -> (res: Option<ContentDisposition>)
    ensures
        res matches Some(d) ==> content_disposition_spec(split(headers@, seq!['\r', '\n']))
            == Some((d.name@, opt_view(d.filename))),
        res is None ==> content_disposition_spec(split(headers@, seq!['\r', '\n'])) is None,
{
    let cs = chars_of(headers);
    let sep: Vec<char> = vec!['\r', '\n'];
    assert(sep@ =~= seq!['\r', '\n']);
    let colon: Vec<char> = vec![':'];
    assert(colon@ =~= seq![':']);
    let lines = split_exec(cs.as_slice(), sep.as_slice());
    let ghost ls = split(headers@, seq!['\r', '\n']);
    let wanted = chars_of("content-disposition");
    let mut i: usize = 0;
    assert(ls.skip(0) =~= ls);
    while i < lines.len()
        invariant
            i <= lines@.len(),
            lines@.len() == ls.len(),
            ls == split(headers@, seq!['\r', '\n']),
            forall|j: int| 0 <= j < lines@.len() ==> #[trigger] lines@[j]@ == ls[j],
            colon@ == seq![':'],
            wanted@ == "content-disposition"@,
            content_disposition_spec(ls) == content_disposition_spec(ls.skip(i as int)),
        decreases lines.len() - i,
    {
        proof {
            assert(ls.skip(i as int)[0] == ls[i as int]);
            assert(ls.skip(i as int).drop_first() =~= ls.skip(i + 1));
        }
        match split_once_exec(lines[i].as_slice(), colon.as_slice()) {
            None => {
                return None;
            },
            Some((k, v)) => {
                let kt = trim_exec(k.as_slice());
                let ks = string_of(kt.as_slice());
                let kl = crate::headers::to_ascii_lower(ks.as_str());
                let klc = chars_of(kl.as_str());
                if chars_equal(klc.as_slice(), wanted.as_slice()) {
                    let vt = trim_exec(v.as_slice());
                    let vs = string_of(vt.as_slice());
                    return parse_disposition_value(vs.as_str());
                }
            },
        }
        i = i + 1;
    }
    assert(ls.skip(i as int) =~= Seq::<Seq<char>>::empty());
    None
}

/// The boundary parameter among the `;`-separated parameters `parts` of a
/// content type: the first whose trimmed text starts with `boundary=`,
/// without the double quotes around it.
pub open spec fn boundary_param(parts: Seq<Seq<char>>) -> Option<Seq<char>>
    decreases parts.len(),
{
    if parts.len() == 0 {
        None
    } else {
        match strip_prefix(trim(parts[0]), "boundary="@) {
            Some(rest) => Some(trim_matches(rest, '"')),
            None => boundary_param(parts.drop_first()),
        }
    }
}

/// The multipart boundary of a content type: found among its parameters,
/// after the media type.
pub open spec fn boundary_spec(content_type: Seq<char>) -> Option<Seq<char>> {
    boundary_param(split(content_type, seq![';']).drop_first())
}

/// Finds the `boundary` parameter of a multipart content type.
pub fn extract_boundary(content_type: &str) -> (res: Option<String>)
    ensures
        opt_view(res) == boundary_spec(content_type@),
{
    let cs = chars_of(content_type);
    let semi: Vec<char> = vec![';'];
    assert(semi@ =~= seq![';']);
    let parts = split_exec(cs.as_slice(), semi.as_slice());
    let ghost ps = split(content_type@, seq![';']);
    let ghost rest = ps.drop_first();
    proof {
        crate::text::lemma_split_nonempty(content_type@, seq![';']);
    }
    let key = chars_of("boundary=");
    let mut i: usize = 1;
    assert(rest.skip(0) =~= rest);
    while i < parts.len()
        invariant
            1 <= i <= parts@.len(),
            parts@.len() == ps.len(),
            ps == split(content_type@, seq![';']),
            ps.len() >= 1,
            rest == ps.drop_first(),
            forall|j: int| 0 <= j < parts@.len() ==> #[trigger] parts@[j]@ == ps[j],
            key@ == "boundary="@,
            boundary_param(rest) == boundary_param(rest.skip(i - 1)),
        decreases parts.len() - i,
    {
        proof {
            assert(rest.skip(i - 1)[0] == ps[i as int]);
            assert(rest.skip(i - 1).drop_first() =~= rest.skip(i as int));
        }
        let part = trim_exec(parts[i].as_slice());
        match strip_prefix_exec(part.as_slice(), key.as_slice()) {
            Some(r) => {
                let v = trim_matches_exec(r.as_slice(), '"');
                return Some(string_of(v.as_slice()));
            },
            None => {},
        }
        i = i + 1;
    }
    assert(rest.skip(i - 1) =~= Seq::<Seq<char>>::empty());
    None
}

/// The content of a multipart chunk (the bytes between two delimiters):
/// without the line break after the delimiter and the one before the
/// next; absent for the closing chunk (which starts with `--`) and for an
/// empty one.
pub open spec fn chunk_content(chunk: Seq<u8>) -> Option<Seq<u8>> {
    if matches_at(chunk, seq![45u8, 45u8], 0) {
        None
    } else {
        let a = if matches_at(chunk, seq![13u8, 10u8], 0) {
            chunk.skip(2)
        } else {
            chunk
        };
        let b = if matches_at(a, seq![13u8, 10u8], a.len() - 2) {
            a.take(a.len() - 2)
        } else {
            a
        };
        if b.len() == 0 {
            None
        } else {
            Some(b)
        }
    }
}

/// A form part: its field name, its file name when it has one, and its
/// body. Absent when the chunk has no header block, its headers are not
/// UTF-8, or they carry no usable `Content-Disposition`.
pub open spec fn part_spec(chunk: Seq<u8>) -> Option<(Seq<char>, Option<Seq<char>>, Seq<u8>)> {
    match chunk_content(chunk) {
        None => None,
        Some(c) => match first_match_from(c, header_terminator(), 0) {
            None => None,
            Some(k) => {
                let head = c.take(k);
                let body = c.skip(k + 4);
                if !valid_utf8(head) {
                    None
                } else {
                    match content_disposition_spec(split(decode_utf8(head), seq!['\r', '\n'])) {
                        None => None,
                        Some((name, filename)) => Some((name, filename, body)),
                    }
                }
            },
        },
    }
}

/// The files of the chunks: file name and size of each part with a file
/// name, in order.
pub open spec fn multipart_files(chunks: Seq<Seq<u8>>) -> Seq<(Seq<char>, u64)>
    decreases chunks.len(),
{
    if chunks.len() == 0 {
        seq![]
    } else {
        let rest = multipart_files(chunks.drop_first());
        match part_spec(chunks[0]) {
            Some((_, Some(f), body)) => seq![(f, body.len() as u64)] + rest,
            _ => rest,
        }
    }
}

/// The text fields of the chunks: name and (lossily decoded) value of each
/// part without a file name, in order.
pub open spec fn multipart_texts(chunks: Seq<Seq<u8>>) -> Seq<(Seq<char>, Seq<char>)>
    decreases chunks.len(),
{
    if chunks.len() == 0 {
        seq![]
    } else {
        let rest = multipart_texts(chunks.drop_first());
        match part_spec(chunks[0]) {
            Some((name, None, body)) => seq![(name, lossy_text(body))] + rest,
            _ => rest,
        }
    }
}

/// The delimiter of the parts of a multipart body: `--` and the boundary.
pub open spec fn delimiter_bytes(boundary: Seq<char>) -> Seq<u8> {
    seq![45u8, 45u8] + vstd::utf8::encode_utf8(boundary)
}

/// The chunks of a multipart body after the preamble.
pub open spec fn multipart_chunks(body: Seq<u8>, boundary: Seq<char>) -> Seq<Seq<u8>> {
    split_bytes(body, delimiter_bytes(boundary)).drop_first()
}

/// Parses a `multipart/form-data` body (RFC 7578) with the given boundary
/// into its files (file name to size in bytes) and its text fields (name to
/// value); a later part replaces an earlier one of the same name.
pub fn parse_multipart(body: &[u8], boundary: &str) -> (res: (StrMap<u64>, StrMap<String>))
    ensures
        res.0@ == map_of_pairs(multipart_files(multipart_chunks(body@, boundary@))),
        res.1@ == map_of_pairs(multipart_texts(multipart_chunks(body@, boundary@))),
{
    let mut files: StrMap<u64> = StrMap::new();
    let mut text_fields: StrMap<String> = StrMap::new();
    let mut delimiter: Vec<u8> = vec![45u8, 45u8];
    let bb = boundary.as_bytes();
    let mut t: usize = 0;
    while t < bb.len()
        invariant
            t <= bb@.len(),
            bb@ == vstd::utf8::encode_utf8(boundary@),
            delimiter@ == seq![45u8, 45u8] + bb@.take(t as int),
        decreases bb.len() - t,
    {
        delimiter.push(bb[t]);
        t = t + 1;
        assert(delimiter@ =~= seq![45u8, 45u8] + bb@.take(t as int));
    }
    assert(bb@.take(bb@.len() as int) =~= bb@);
    assert(delimiter@ == delimiter_bytes(boundary@));
    let crlf: Vec<u8> = vec![13u8, 10u8];
    let dashes: Vec<u8> = vec![45u8, 45u8];
    let term: Vec<u8> = vec![13u8, 10u8, 13u8, 10u8];
    assert(crlf@ =~= seq![13u8, 10u8]);
    assert(dashes@ =~= seq![45u8, 45u8]);
    assert(term@ =~= header_terminator());
    let chunks = split_on(body, delimiter.as_slice());
    let ghost all = split_bytes(body@, delimiter@);
    let ghost cks = all.drop_first();
    assert(all.len() >= 1) by {
        crate::byte_seq::lemma_split_from_nonempty(body@, delimiter@, 0);
    }
    let ghost mut facc: Seq<(Seq<char>, u64)> = seq![];
    let ghost mut tacc: Seq<(Seq<char>, Seq<char>)> = seq![];
    let mut i: usize = 1;
    assert(cks.skip(0) =~= cks);
    while i < chunks.len()
        invariant
            1 <= i <= chunks@.len(),
            chunks@.len() == all.len(),
            all.len() >= 1,
            cks == all.drop_first(),
            forall|j: int| 0 <= j < chunks@.len() ==> #[trigger] chunks@[j]@ == all[j],
            crlf@ == seq![13u8, 10u8],
            dashes@ == seq![45u8, 45u8],
            term@ == header_terminator(),
            files@ == map_of_pairs(facc),
            text_fields@ == map_of_pairs(tacc),
            multipart_files(cks) == facc + multipart_files(cks.skip(i - 1)),
            multipart_texts(cks) == tacc + multipart_texts(cks.skip(i - 1)),
        decreases chunks.len() - i,
    {
        let ghost ck = cks[i - 1];
        proof {
            assert(cks.skip(i - 1)[0] == ck);
            assert(cks.skip(i - 1).drop_first() =~= cks.skip(i as int));
            assert(ck == all[i as int]);
        }
        let part = parse_part(chunks[i], crlf.as_slice(), dashes.as_slice(), term.as_slice());
        match part {
            Some((d, part_body)) => {
                match d.filename {
                    Some(fname) => {
                        let size = part_body.len() as u64;
                        proof {
                            lemma_map_of_pairs_push(facc, fname@, size);
                            assert(facc + multipart_files(cks.skip(i - 1)) =~= facc.push(
                                (fname@, size),
                            ) + multipart_files(cks.skip(i as int)));
                            facc = facc.push((fname@, size));
                        }
                        files.insert(fname, size);
                    },
                    None => {
                        let value = utf8_lossy_decode(part_body);
                        proof {
                            lemma_map_of_pairs_push(tacc, d.name@, value@);
                            assert(tacc + multipart_texts(cks.skip(i - 1)) =~= tacc.push(
                                (d.name@, value@),
                            ) + multipart_texts(cks.skip(i as int)));
                            tacc = tacc.push((d.name@, value@));
                        }
                        text_fields.insert(d.name, value);
                    },
                }
            },
            None => {},
        }
        i = i + 1;
    }
    assert(cks.skip(i - 1) =~= Seq::<Seq<u8>>::empty());
    assert(facc + Seq::<(Seq<char>, u64)>::empty() =~= facc);
    assert(tacc + Seq::<(Seq<char>, Seq<char>)>::empty() =~= tacc);
    (files, text_fields)
}

/// Reads one chunk of a multipart body as a form part.
fn parse_part<'a>(chunk: &'a [u8], crlf: &[u8], dashes: &[u8], term: &[u8]) -> (res: Option<
    (ContentDisposition, &'a [u8]),
>)
    requires
        crlf@ == seq![13u8, 10u8],
        dashes@ == seq![45u8, 45u8],
        term@ == header_terminator(),
    ensures
        res matches Some((d, b)) ==> part_spec(chunk@) == Some((d.name@, opt_view(d.filename), b@)),
        res is None ==> part_spec(chunk@) is None,
{
    if strip_byte_prefix(chunk, dashes).is_some() {
        return None;
    }
    let a = match strip_byte_prefix(chunk, crlf) {
        Some(s) => s,
        None => chunk,
    };
    let b = match strip_byte_suffix(a, crlf) {
        Some(s) => s,
        None => a,
    };
    if b.len() == 0 {
        return None;
    }
    assert(chunk_content(chunk@) == Some(b@));
    let header_end = match find_subsequence(b, term) {
        Some(k) => k,
        None => {
            return None;
        },
    };
    proof {
        crate::byte_seq::lemma_first_match_from(b@, header_terminator(), 0);
    }
    let bl = b.len();
    assert(header_end + 4 <= bl);
    let raw_headers = &b[0..header_end];
    let part_body = &b[header_end + 4..bl];
    assert(raw_headers@ =~= b@.take(header_end as int));
    assert(part_body@ =~= b@.skip(header_end + 4));
    let headers_str = match str_from_utf8(raw_headers) {
        Some(s) => s,
        None => {
            return None;
        },
    };
    match parse_content_disposition(headers_str.as_str()) {
        Some(d) => Some((d, part_body)),
        None => None,
    }
}

/// Whether a content type is one of the `multipart/*` types.
pub open spec fn is_multipart_type(content_type: Seq<char>) -> bool {
    occurs_at(content_type, "multipart/"@, 0)
}

/// A request body; for `multipart/*` content types it is parsed into its
/// files (file name to size in bytes) and its text fields.
pub struct RequestBody {
    /// The `Content-Type` of the request, or empty.
    pub content_type: String,
    /// The raw body; empty for a multipart body, which is read into
    /// `files` and `text_fields` instead.
    pub bytes: Vec<u8>,
    /// The uploaded files: file name to size in bytes.
    pub files: StrMap<u64>,
    /// The form fields without a file name.
    pub text_fields: StrMap<String>,
}

impl RequestBody {
    /// Whether the request used `multipart/form-data` or another
    /// `multipart/*` type.
    pub fn is_multipart(&self) -> (res: bool)
        ensures
            res == is_multipart_type(self.content_type@),
    {
        let cs = chars_of(self.content_type.as_str());
        let prefix = chars_of("multipart/");
        crate::text::occurs_at_exec(cs.as_slice(), prefix.as_slice(), 0)
    }

    /// Builds the body of a request from its content type and raw bytes.
    /// A multipart body is parsed; one whose content type names no
    /// boundary is rejected.
    pub fn from_parts(content_type: String, bytes: Vec<u8>) -> (res: Result<RequestBody, AppError>)
        ensures
            !is_multipart_type(content_type@) ==> (res matches Ok(b) && b.content_type@
                == content_type@ && b.bytes@ == bytes@ && b.files@.dom().len() == 0
                && b.text_fields@.dom().len() == 0),
            is_multipart_type(content_type@) && boundary_spec(content_type@) is None ==> (
            res matches Err(AppError::BadRequest(m)) && m@
                == "multipart content-type missing boundary"@),
            is_multipart_type(content_type@) && boundary_spec(content_type@) is Some ==> (
            res matches Ok(b) && b.content_type@ == content_type@ && b.bytes@.len() == 0
                && b.files@ == map_of_pairs(multipart_files(multipart_chunks(bytes@, boundary_spec(content_type@)->0)))
                && b.text_fields@ == map_of_pairs(multipart_texts(multipart_chunks(bytes@, boundary_spec(content_type@)->0)))),
    {
        let cs = chars_of(content_type.as_str());
        let prefix = chars_of("multipart/");
        if crate::text::occurs_at_exec(cs.as_slice(), prefix.as_slice(), 0) {
            match extract_boundary(content_type.as_str()) {
                None => Err(AppError::BadRequest("multipart content-type missing boundary".to_owned())),
                Some(boundary) => {
                    let (files, text_fields) = parse_multipart(bytes.as_slice(), boundary.as_str());
                    Ok(RequestBody { content_type, bytes: Vec::new(), files, text_fields })
                },
            }
        } else {
            Ok(RequestBody { content_type, bytes, files: StrMap::new(), text_fields: StrMap::new() })
        }
    }
}

/// A field or file name as a form writes it in quotes: visible ASCII
/// without `"` or `;`.
pub open spec fn plain_param(s: Seq<char>) -> bool {
    forall|i: int| 0 <= i < s.len() ==> ' ' <= #[trigger] s[i] <= '~' && s[i] != '"' && s[i] != ';'
}

/// `; key="value"` as a parameter of a header value.
pub open spec fn quoted_param(key: Seq<char>, value: Seq<char>) -> Seq<char> {
    seq![';', ' '] + key + seq!['=', '"'] + value + seq!['"']
}

/// The value of the `Content-Disposition` header of a form part: the
/// field name, and the file name of a part that carries a file.
pub open spec fn disposition_params(name: Seq<char>, filename: Option<Seq<char>>) -> Seq<char> {
    "form-data"@ + quoted_param("name"@, name) + match filename {
        Some(f) => quoted_param("filename"@, f),
        None => Seq::empty(),
    }
}

proof fn lemma_quoted_param_piece(key: Seq<char>, value: Seq<char>, piece: Seq<char>)
    requires
        plain_param(value),
        key.len() > 0,
        !is_white_space(key[0]),
        piece == quoted_param(key, value).drop_first(),
    ensures
        trim(piece) == piece.drop_first(),
        strip_prefix(trim(piece), key + seq!['=']) == Some(seq!['"'] + value + seq!['"']),
        unquoted(trim(seq!['"'] + value + seq!['"'])) == value,
{
    let t = piece.drop_first();
    assert(piece[0] == ' ');
    assert(piece.drop_first() == t);
    assert(t[0] == key[0]);
    assert(t.last() == '"');
    assert(trim_start(t) == t);
    assert(trim_start(piece) == t);
    assert(trim_end(t) == t);
    let k = key + seq!['='];
    assert(t.subrange(0, k.len() as int) =~= k);
    assert(t.skip(k.len() as int) =~= seq!['"'] + value + seq!['"']);
    let q = seq!['"'] + value + seq!['"'];
    assert(q[0] == '"' && q.last() == '"');
    assert(trim_start(q) == q);
    assert(trim_end(q) == q);
    lemma_unquote_quoted(value);
}

/// The `Content-Disposition` value a form writes for a part reads back as
/// the part's field name and file name.
pub proof fn lemma_disposition_reads_back(name: Seq<char>, filename: Option<Seq<char>>)
    requires
        plain_param(name),
        filename matches Some(f) ==> plain_param(f),
    ensures
        disposition_spec(disposition_params(name, filename)) == Some((name, filename)),
{
    reveal_strlit("form-data");
    reveal_strlit("name");
    reveal_strlit("filename");
    reveal_strlit("name=");
    reveal_strlit("filename=");
    let fd = "form-data"@;
    let qn = quoted_param("name"@, name);
    let p = disposition_params(name, filename);
    let n = name.len() as int;
    let p0 = p.subrange(0, 9);
    let p1 = qn.drop_first();
    assert(p0 =~= fd);
    assert("name="@ =~= "name"@ + seq!['=']);
    assert("filename="@ =~= "filename"@ + seq!['=']);
    assert(!is_white_space('n'));
    assert(!is_white_space('f'));
    assert(!is_white_space('a'));
    lemma_quoted_param_piece("name"@, name, p1);
    let q1 = seq!['"'] + name + seq!['"'];
    // the first piece, "form-data", carries neither parameter
    assert(trim_start(fd) == fd);
    assert(trim_end(fd) == fd);
    assert(trim(fd) == fd);
    assert(strip_prefix(fd, "name="@) is None) by {
        if occurs_at(fd, "name="@, 0) {
            assert(fd.subrange(0, 5)[0] == fd[0]);
        }
    }
    assert(strip_prefix(fd, "filename="@) is None) by {
        if occurs_at(fd, "filename="@, 0) {
            assert(fd.subrange(0, 9)[1] == fd[1]);
        }
    }
    assert(p[9] == ';');
    crate::text::lemma_split_char_step(p, ';', 0, 9);
    match filename {
        None => {
            assert(p =~= fd + qn);
            assert(p.subrange(10, p.len() as int) =~= p1);
            assert forall|j: int| 10 <= j < p.len() implies p[j] != ';' by {
                assert(p[j] == qn[j - 9]);
                if j - 9 >= 8 && j - 9 < 8 + n {
                    assert(qn[j - 9] == name[j - 17]);
                }
            }
            crate::text::lemma_split_char_last(p, ';', 10);
            let parts = split(p, seq![';']);
            assert(parts =~= seq![p0, p1]);
            assert(parts.last() == p1);
            assert(parts.drop_last() =~= seq![p0]);
            assert(seq![p0].last() == p0);
            assert(seq![p0].drop_last() =~= Seq::<Seq<char>>::empty());
            let t1 = p1.drop_first();
            assert(strip_prefix(t1, "filename="@) is None) by {
                if occurs_at(t1, "filename="@, 0) {
                    assert(t1.subrange(0, 9)[0] == t1[0]);
                    assert(t1[0] == 'n');
                }
            }
            assert(param_value(parts, "name="@) == Some(name));
            assert(param_value(Seq::<Seq<char>>::empty(), "filename="@) is None);
            assert(param_value(seq![p0], "filename="@) is None);
            assert(param_value(parts, "filename="@) is None);
        },
        Some(f) => {
            let qf = quoted_param("filename"@, f);
            let p2 = qf.drop_first();
            lemma_quoted_param_piece("filename"@, f, p2);
            let m = 18 + n;
            assert(p =~= fd + qn + qf);
            assert(p[m] == ';');
            assert forall|j: int| 10 <= j < m implies p[j] != ';' by {
                assert(p[j] == qn[j - 9]);
                if j - 9 >= 8 && j - 9 < 8 + n {
                    assert(qn[j - 9] == name[j - 17]);
                }
            }
            crate::text::lemma_split_char_step(p, ';', 10, m);
            assert forall|j: int| m + 1 <= j < p.len() implies p[j] != ';' by {
                assert(p[j] == qf[j - m]);
                if j - m >= 12 && j - m < 12 + f.len() {
                    assert(qf[j - m] == f[j - m - 12]);
                }
            }
            crate::text::lemma_split_char_last(p, ';', m + 1);
            assert(p.subrange(10, m) =~= p1);
            assert(p.subrange(m + 1, p.len() as int) =~= p2);
            let parts = split(p, seq![';']);
            assert(parts =~= seq![p0, p1, p2]);
            assert(parts.last() == p2);
            assert(parts.drop_last() =~= seq![p0, p1]);
            assert(seq![p0, p1].last() == p1);
            let t2 = p2.drop_first();
            assert(strip_prefix(t2, "name="@) is None) by {
                if occurs_at(t2, "name="@, 0) {
                    assert(t2.subrange(0, 5)[0] == t2[0]);
                    assert(t2[0] == 'f');
                }
            }
            assert(param_value(seq![p0, p1], "name="@) == Some(name));
            assert(param_value(parts, "name="@) == Some(name));
            assert(param_value(parts, "filename="@) == Some(f));
        },
    }
}

/// The characters of a part's `Content-Disposition` value are visible
/// ASCII.
proof fn lemma_disposition_params_visible(name: Seq<char>, filename: Option<Seq<char>>)
    requires
        plain_param(name),
        filename matches Some(f) ==> plain_param(f),
    ensures
        forall|j: int|
            0 <= j < disposition_params(name, filename).len() ==> ' ' <= #[trigger] disposition_params(
                name,
                filename,
            )[j] <= '~',
{
    reveal_strlit("form-data");
    reveal_strlit("name");
    reveal_strlit("filename");
    let p = disposition_params(name, filename);
    let qn = quoted_param("name"@, name);
    let n = name.len() as int;
    assert forall|j: int| 0 <= j < p.len() implies ' ' <= #[trigger] p[j] <= '~' by {
        if 9 <= j < 9 + qn.len() {
            assert(p[j] == qn[j - 9]);
            if 8 <= j - 9 < 8 + n {
                assert(qn[j - 9] == name[j - 17]);
            }
        } else if j >= 9 + qn.len() {
            let f = filename->0;
            let qf = quoted_param("filename"@, f);
            let m = 9 + qn.len();
            assert(p[j] == qf[j - m]);
            if 12 <= j - m < 12 + f.len() {
                assert(qf[j - m] == f[j - m - 12]);
            }
        }
    }
}

/// The header line a form writes for a part: `Content-Disposition: ` and
/// the value.
pub open spec fn disposition_line(name: Seq<char>, filename: Option<Seq<char>>) -> Seq<char> {
    "Content-Disposition: "@ + disposition_params(name, filename)
}

/// The header line a form writes for a part reads back as the part's
/// field name and file name.
proof fn lemma_disposition_line_reads_back(
    name: Seq<char>,
    filename: Option<Seq<char>>,
    more: Seq<Seq<char>>,
)
    requires
        plain_param(name),
        filename matches Some(f) ==> plain_param(f),
    ensures
        split(disposition_line(name, filename), seq!['\r', '\n']) == seq![disposition_line(name, filename)],
        content_disposition_spec(seq![disposition_line(name, filename)] + more) == Some((name, filename)),
        forall|j: int|
            0 <= j < disposition_line(name, filename).len() ==> ' ' <= #[trigger] disposition_line(
                name,
                filename,
            )[j] <= '~',
{
    reveal_strlit("Content-Disposition: ");
    reveal_strlit("Content-Disposition");
    reveal_strlit("content-disposition");
    reveal_strlit("form-data");
    let p = disposition_params(name, filename);
    let l = disposition_line(name, filename);
    let head = "Content-Disposition: "@;
    lemma_disposition_params_visible(name, filename);
    lemma_disposition_reads_back(name, filename);
    assert forall|j: int| 0 <= j < l.len() implies ' ' <= #[trigger] l[j] <= '~' by {
        if j >= 21 {
            assert(l[j] == p[j - 21]);
        }
    }
    assert(!l.contains('\r')) by {
        if l.contains('\r') {
            let j = choose|j: int| 0 <= j < l.len() && l[j] == '\r';
            assert(' ' <= l[j] <= '~');
        }
    }
    assert(seq!['\r', '\n'][0] == '\r');
    crate::text::lemma_split_without_lead(l, seq!['\r', '\n']);
    let lines = seq![l] + more;
    assert(lines[0] == l);
    assert(lines.drop_first() =~= more);
    assert(l[19] == ':');
    crate::text::lemma_split_once_at(l, ':', 19);
    let k = l.take(19);
    let v = l.skip(20);
    assert(k =~= "Content-Disposition"@);
    assert(trim_start(k) == k);
    assert(trim_end(k) == k);
    assert(ascii_lower(trim(k)) =~= "content-disposition"@);
    assert(v =~= seq![' '] + p);
    assert(v[0] == ' ');
    assert(v.drop_first() =~= p);
    assert(p[0] == 'f');
    assert(trim_start(p) == p);
    assert(trim_start(v) == p);
    assert(p.last() == '"');
    assert(trim_end(p) == p);
    assert(trim(v) == p);
}

/// Further header lines of a form part, such as its `Content-Type`: each
/// non-empty visible ASCII.
pub open spec fn plain_lines(lines: Seq<Seq<char>>) -> bool {
    forall|i: int|
        0 <= i < lines.len() ==> #[trigger] lines[i].len() > 0 && forall|j: int|
            0 <= j < lines[i].len() ==> ' ' <= #[trigger] lines[i][j] <= '~'
}

/// Header lines, each after a line break.
pub open spec fn lines_after(lines: Seq<Seq<char>>) -> Seq<char>
    decreases lines.len(),
{
    if lines.len() == 0 {
        seq![]
    } else {
        seq!['\r', '\n'] + lines[0] + lines_after(lines.drop_first())
    }
}

/// The header block of a form part: its `Content-Disposition` line, then
/// its further header lines.
pub open spec fn part_head(name: Seq<char>, filename: Option<Seq<char>>, extra: Seq<Seq<char>>) -> Seq<char> {
    disposition_line(name, filename) + lines_after(extra)
}

/// Text is ASCII, and every carriage return in it is followed by one more
/// character and then by a visible one.
pub open spec fn breaks_between_lines(x: Seq<char>) -> bool {
    &&& forall|j: int| 0 <= j < x.len() ==> '\0' <= #[trigger] x[j] <= '\u{7f}'
    &&& forall|j: int|
        0 <= j < x.len() && #[trigger] x[j] == '\r' ==> j + 2 < x.len() && ' ' <= x[j + 2] <= '~'
}

proof fn lemma_lines_after(lines: Seq<Seq<char>>)
    requires
        plain_lines(lines),
    ensures
        breaks_between_lines(lines_after(lines)),
    decreases lines.len(),
{
    if lines.len() > 0 {
        let rest = lines.drop_first();
        assert(plain_lines(rest)) by {
            assert forall|i: int| 0 <= i < rest.len() implies #[trigger] rest[i].len() > 0 && forall|j: int|
                0 <= j < rest[i].len() ==> ' ' <= #[trigger] rest[i][j] <= '~' by {
                assert(rest[i] == lines[i + 1]);
                assert(lines[i + 1].len() > 0);
            }
        }
        lemma_lines_after(rest);
        let line = lines[0];
        assert(line.len() > 0);
        let r = lines_after(rest);
        let x = lines_after(lines);
        assert(x =~= seq!['\r', '\n'] + line + r);
        let m = 2 + line.len();
        assert forall|j: int| 0 <= j < x.len() implies '\0' <= #[trigger] x[j] <= '\u{7f}' by {
            if 2 <= j < m {
                assert(x[j] == line[j - 2]);
                assert(' ' <= line[j - 2] <= '~');
            } else if j >= m {
                assert(x[j] == r[j - m]);
            }
        }
        assert forall|j: int| 0 <= j < x.len() && #[trigger] x[j] == '\r' implies j + 2 < x.len()
            && ' ' <= x[j + 2] <= '~' by {
            if j == 0 {
                assert(x[2] == line[0]);
            } else if 2 <= j < m {
                assert(x[j] == line[j - 2]);
                assert(' ' <= line[j - 2] <= '~');
            } else if j >= m {
                assert(x[j] == r[j - m]);
                assert(r[j - m] == '\r');
                assert(x[j + 2] == r[j - m + 2]);
            }
        }
    }
}

/// The header block of a form part has its line breaks only between
/// lines, and starts with the `Content-Disposition` line.
proof fn lemma_part_head(name: Seq<char>, filename: Option<Seq<char>>, extra: Seq<Seq<char>>)
    requires
        plain_param(name),
        filename matches Some(f) ==> plain_param(f),
        plain_lines(extra),
    ensures
        breaks_between_lines(part_head(name, filename, extra)),
        content_disposition_spec(split(part_head(name, filename, extra), seq!['\r', '\n']))
            == Some((name, filename)),
{
    let l = disposition_line(name, filename);
    let x = lines_after(extra);
    let h = part_head(name, filename, extra);
    lemma_lines_after(extra);
    lemma_disposition_line_reads_back(name, filename, Seq::empty());
    assert(h =~= l + x);
    let n = l.len() as int;
    assert forall|j: int| 0 <= j < h.len() implies '\0' <= #[trigger] h[j] <= '\u{7f}' by {
        if j < n {
            assert(h[j] == l[j]);
            assert(' ' <= l[j] <= '~');
        } else {
            assert(h[j] == x[j - n]);
        }
    }
    assert forall|j: int| 0 <= j < h.len() && #[trigger] h[j] == '\r' implies j + 2 < h.len() && ' '
        <= h[j + 2] <= '~' by {
        if j < n {
            assert(h[j] == l[j]);
            assert(' ' <= l[j] <= '~');
        } else {
            assert(h[j] == x[j - n]);
            assert(x[j - n] == '\r');
            assert(h[j + 2] == x[j - n + 2]);
        }
    }
    if extra.len() == 0 {
        assert(x =~= Seq::<char>::empty());
        assert(h =~= l);
        assert(seq![l] + Seq::<Seq<char>>::empty() =~= seq![l]);
    } else {
        assert(x =~= seq!['\r', '\n'] + extra[0] + lines_after(extra.drop_first()));
        assert(h.subrange(n, n + 2) =~= seq!['\r', '\n']);
        assert(crate::text::occurs_at(h, seq!['\r', '\n'], n));
        assert forall|j: int| 0 <= j < n implies h[j] != seq!['\r', '\n'][0] by {
            assert(h[j] == l[j]);
            assert(' ' <= l[j] <= '~');
        }
        crate::text::lemma_split_step(h, seq!['\r', '\n'], 0, n);
        assert(h.subrange(0, n) =~= l);
        let more = crate::text::split_from(h, seq!['\r', '\n'], n + 2);
        lemma_disposition_line_reads_back(name, filename, more);
    }
}

/// The chunk a form part is written as between two delimiters: a line
/// break, its header block (the `Content-Disposition` line and any further
/// header lines), a blank line, its body, and the line break before the
/// next delimiter.
pub open spec fn part_chunk(
    name: Seq<char>,
    filename: Option<Seq<char>>,
    extra: Seq<Seq<char>>,
    body: Seq<u8>,
) -> Seq<u8> {
    seq![13u8, 10u8] + encode_utf8(part_head(name, filename, extra)) + header_terminator() + body
        + seq![13u8, 10u8]
}

/// A form part written with its field name (and file name) in quotes,
/// and any further plain header lines, reads back as that field name,
/// file name and body, whatever the body holds.
pub proof fn lemma_part_reads_back(
    name: Seq<char>,
    filename: Option<Seq<char>>,
    extra: Seq<Seq<char>>,
    body: Seq<u8>,
)
    requires
        plain_param(name),
        filename matches Some(f) ==> plain_param(f),
        plain_lines(extra),
    ensures
        part_spec(part_chunk(name, filename, extra, body)) == Some((name, filename, body)),
{
    let h = part_head(name, filename, extra);
    lemma_part_head(name, filename, extra);
    assert(vstd::utf8::is_ascii_chars(h)) by {
        assert forall|j: int| 0 <= j < h.len() implies '\0' <= #[trigger] h[j] <= '\u{7f}' by {
            assert(h[j] <= '\u{7f}');
        }
    }
    vstd::utf8::is_ascii_chars_encode_utf8(h);
    vstd::utf8::encode_utf8_valid_utf8(h);
    vstd::utf8::encode_utf8_decode_utf8(h);
    let e = encode_utf8(h);
    let t = header_terminator();
    let c = part_chunk(name, filename, extra, body);
    reveal_strlit("Content-Disposition: ");
    assert(h.len() >= 21);
    assert(c.subrange(0, 2) =~= seq![13u8, 10u8]);
    assert(c[0] == 13u8);
    assert(!matches_at(c, seq![45u8, 45u8], 0)) by {
        if matches_at(c, seq![45u8, 45u8], 0) {
            assert(c.subrange(0, 2)[0] == c[0]);
        }
    }
    let a = c.skip(2);
    assert(a =~= e + t + body + seq![13u8, 10u8]);
    assert(a.subrange(a.len() - 2, a.len() as int) =~= seq![13u8, 10u8]);
    let b = a.take(a.len() - 2);
    assert(b =~= e + t + body);
    assert(chunk_content(c) == Some(b));
    let n = e.len() as int;
    assert(b.subrange(n, n + 4) =~= t);
    assert forall|j: int| 0 <= j < n implies !matches_at(b, t, j) by {
        if matches_at(b, t, j) {
            assert(b.subrange(j, j + 4)[0] == b[j]);
            assert(b.subrange(j, j + 4)[2] == b[j + 2]);
            assert(b[j] == e[j]);
            assert(h[j] as u8 == e[j]);
            assert(h[j] <= '\u{7f}');
            assert(h[j] == '\r') by {
                vstd::utf8::char_u32_cast(h[j], h[j] as u32);
            }
            assert(j + 2 < h.len());
            assert(b[j + 2] == e[j + 2]);
            assert(h[j + 2] as u8 == e[j + 2]);
            assert(' ' <= h[j + 2] <= '~');
        }
    }
    crate::byte_seq::lemma_first_match_at(b, t, 0, n);
    assert(b.take(n) =~= e);
    assert(b.skip(n + 4) =~= body);
}

/// A multipart boundary as a client picks it: non-empty visible ASCII.
pub open spec fn plain_boundary(boundary: Seq<char>) -> bool {
    &&& boundary.len() > 0
    &&& forall|i: int| 0 <= i < boundary.len() ==> ' ' <= #[trigger] boundary[i] <= '~'
}

/// A form part as a client sends it (field name, file name for a file,
/// further header lines, body) can be written: its field name and file
/// name are plain, and so are its further header lines.
pub open spec fn plain_part(part: (Seq<char>, Option<Seq<char>>, Seq<Seq<char>>, Seq<u8>)) -> bool {
    &&& plain_param(part.0)
    &&& (part.1 matches Some(f) ==> plain_param(f))
    &&& plain_lines(part.2)
}

/// Every part of `parts` can be written.
pub open spec fn plain_parts(parts: Seq<(Seq<char>, Option<Seq<char>>, Seq<Seq<char>>, Seq<u8>)>) -> bool {
    forall|i: int| 0 <= i < parts.len() ==> plain_part(#[trigger] parts[i])
}

/// Form parts are fit to be written with `boundary`: each can be written,
/// and no part's chunk holds the delimiter.
pub open spec fn parts_fit(boundary: Seq<char>, parts: Seq<(Seq<char>, Option<Seq<char>>, Seq<Seq<char>>, Seq<u8>)>) -> bool {
    &&& plain_parts(parts)
    &&& forall|i: int, j: int|
        0 <= i < parts.len() ==> !#[trigger] matches_at(
            part_chunk(parts[i].0, parts[i].1, parts[i].2, parts[i].3),
            delimiter_bytes(boundary),
            j,
        )
}

/// A multipart body as a client writes it from its parts (field name,
/// file name for a file, further header lines such as a `Content-Type`,
/// body): each part's chunk after the delimiter `--boundary`, then the
/// closing delimiter, `--` and a line break.
pub open spec fn multipart_body(
    boundary: Seq<char>,
    parts: Seq<(Seq<char>, Option<Seq<char>>, Seq<Seq<char>>, Seq<u8>)>,
) -> Seq<u8>
    decreases parts.len(),
{
    if parts.len() == 0 {
        delimiter_bytes(boundary) + seq![45u8, 45u8, 13u8, 10u8]
    } else {
        delimiter_bytes(boundary) + part_chunk(parts[0].0, parts[0].1, parts[0].2, parts[0].3)
            + multipart_body(boundary, parts.drop_first())
    }
}

/// The chunks that follow the delimiters of a written body: one for each
/// part, then the closing `--` and line break.
pub open spec fn written_chunks(parts: Seq<(Seq<char>, Option<Seq<char>>, Seq<Seq<char>>, Seq<u8>)>) -> Seq<Seq<u8>>
    decreases parts.len(),
{
    if parts.len() == 0 {
        seq![seq![45u8, 45u8, 13u8, 10u8]]
    } else {
        seq![part_chunk(parts[0].0, parts[0].1, parts[0].2, parts[0].3)] + written_chunks(parts.drop_first())
    }
}

/// The files sent among `parts`: file name and size of each part with a
/// file name, in order.
pub open spec fn sent_files(parts: Seq<(Seq<char>, Option<Seq<char>>, Seq<Seq<char>>, Seq<u8>)>) -> Seq<(Seq<char>, u64)>
    decreases parts.len(),
{
    if parts.len() == 0 {
        seq![]
    } else {
        let rest = sent_files(parts.drop_first());
        match parts[0].1 {
            Some(f) => seq![(f, parts[0].3.len() as u64)] + rest,
            None => rest,
        }
    }
}

/// The text fields sent among `parts`: name and (lossily decoded) value of
/// each part without a file name, in order.
pub open spec fn sent_texts(parts: Seq<(Seq<char>, Option<Seq<char>>, Seq<Seq<char>>, Seq<u8>)>) -> Seq<(Seq<char>, Seq<char>)>
    decreases parts.len(),
{
    if parts.len() == 0 {
        seq![]
    } else {
        let rest = sent_texts(parts.drop_first());
        match parts[0].1 {
            Some(_) => rest,
            None => seq![(parts[0].0, lossy_text(parts[0].3))] + rest,
        }
    }
}

/// The bytes of a plain boundary's delimiter: `--` and then visible ASCII.
proof fn lemma_delimiter_bytes(boundary: Seq<char>)
    requires
        plain_boundary(boundary),
    ensures
        delimiter_bytes(boundary).len() == boundary.len() + 2,
        delimiter_bytes(boundary)[0] == 45u8,
        delimiter_bytes(boundary)[1] == 45u8,
        forall|i: int|
            2 <= i < delimiter_bytes(boundary).len() ==> 32 <= #[trigger] delimiter_bytes(boundary)[i]
                <= 126,
{
    assert(vstd::utf8::is_ascii_chars(boundary));
    vstd::utf8::is_ascii_chars_encode_utf8(boundary);
    let d = delimiter_bytes(boundary);
    let e = encode_utf8(boundary);
    assert forall|i: int| 2 <= i < d.len() implies 32 <= #[trigger] d[i] <= 126 by {
        assert(d[i] == e[i - 2]);
        assert(boundary[i - 2] as u8 == e[i - 2]);
        assert(' ' <= boundary[i - 2] <= '~');
    }
}

/// Cutting a written body after its first delimiter gives the written
/// chunks.
#[verifier::rlimit(40)]
proof fn lemma_split_written_body(boundary: Seq<char>, parts: Seq<(Seq<char>, Option<Seq<char>>, Seq<Seq<char>>, Seq<u8>)>)
    requires
        plain_boundary(boundary),
        parts_fit(boundary, parts),
    ensures
        split_from(
            multipart_body(boundary, parts),
            delimiter_bytes(boundary),
            delimiter_bytes(boundary).len() as int,
        ) == written_chunks(parts),
    decreases parts.len(),
{
    let d = delimiter_bytes(boundary);
    let dl = d.len() as int;
    let y = multipart_body(boundary, parts);
    lemma_delimiter_bytes(boundary);
    if parts.len() == 0 {
        let close = seq![45u8, 45u8, 13u8, 10u8];
        assert(y =~= d + close);
        assert forall|q: int| dl <= q implies !matches_at(y, d, q) by {
            if matches_at(y, d, q) {
                assert(y.subrange(q, q + dl)[2] == y[q + 2]);
                assert(y.subrange(q, q + dl)[1] == y[q + 1]);
                if q == dl {
                    assert(y[q + 2] == 13u8);
                } else if q == dl + 1 {
                    assert(y[q + 1] == 13u8);
                }
            }
        }
        lemma_first_match_from(y, d, dl);
        assert(y.subrange(dl, y.len() as int) =~= close);
    } else {
        let c0 = part_chunk(parts[0].0, parts[0].1, parts[0].2, parts[0].3);
        let rest = parts.drop_first();
        let y2 = multipart_body(boundary, rest);
        let x = d + c0;
        assert(y =~= x + y2);
        assert(parts_fit(boundary, rest)) by {
            assert forall|i: int| 0 <= i < rest.len() implies plain_part(#[trigger] rest[i]) by {
                assert(rest[i] == parts[i + 1]);
            }
            assert forall|i: int, j: int| 0 <= i < rest.len() implies !#[trigger] matches_at(
                part_chunk(rest[i].0, rest[i].1, rest[i].2, rest[i].3),
                delimiter_bytes(boundary),
                j,
            ) by {
                assert(rest[i] == parts[i + 1]);
                assert(!matches_at(
                    part_chunk(parts[i + 1].0, parts[i + 1].1, parts[i + 1].2, parts[i + 1].3),
                    delimiter_bytes(boundary),
                    j,
                ));
            }
        }
        assert(plain_part(parts[0]));
        assert(forall|j: int| !matches_at(c0, d, j)) by {
            assert forall|j: int| !matches_at(c0, d, j) by {
                assert(!matches_at(
                    part_chunk(parts[0].0, parts[0].1, parts[0].2, parts[0].3),
                    delimiter_bytes(boundary),
                    j,
                ));
            }
        }
        let cl = c0.len() as int;
        let m = dl + cl;
        assert(c0[cl - 1] == 10u8);
        assert(y2.subrange(0, dl) =~= d) by {
            if rest.len() == 0 {
                assert(y2 =~= d + seq![45u8, 45u8, 13u8, 10u8]);
            } else {
                assert(y2 =~= d + part_chunk(rest[0].0, rest[0].1, rest[0].2, rest[0].3) + multipart_body(
                    boundary,
                    rest.drop_first(),
                ));
            }
        }
        assert(y.subrange(m, m + dl) =~= y2.subrange(0, dl));
        assert(matches_at(y, d, m));
        assert forall|q: int| dl <= q < m implies !matches_at(y, d, q) by {
            if matches_at(y, d, q) {
                if q + dl <= m {
                    assert(y.subrange(q, q + dl) =~= c0.subrange(q - dl, q - dl + dl));
                    assert(matches_at(c0, d, q - dl));
                } else {
                    let r = m - 1;
                    assert(y[r] == c0[cl - 1]);
                    assert(y.subrange(q, q + dl)[r - q] == y[r]);
                    assert(d[r - q] == 10u8);
                }
            }
        }
        lemma_first_match_at(y, d, dl, m);
        assert(y.subrange(dl, m) =~= c0);
        lemma_split_from_shift(x, y2, d, dl);
        assert(x.len() + dl == m + dl);
        lemma_split_written_body(boundary, rest);
    }
}

/// A multipart body written from form parts, with a plain boundary that
/// none of them holds, reads back as the files and the text fields of
/// those parts, in order.
pub proof fn lemma_multipart_reads_back(
    boundary: Seq<char>,
    parts: Seq<(Seq<char>, Option<Seq<char>>, Seq<Seq<char>>, Seq<u8>)>,
)
    requires
        plain_boundary(boundary),
        parts_fit(boundary, parts),
    ensures
        multipart_chunks(multipart_body(boundary, parts), boundary) == written_chunks(parts),
        multipart_files(multipart_chunks(multipart_body(boundary, parts), boundary)) == sent_files(parts),
        multipart_texts(multipart_chunks(multipart_body(boundary, parts), boundary)) == sent_texts(parts),
{
    let d = delimiter_bytes(boundary);
    let y = multipart_body(boundary, parts);
    lemma_delimiter_bytes(boundary);
    lemma_split_written_body(boundary, parts);
    assert(y.subrange(0, d.len() as int) =~= d) by {
        if parts.len() == 0 {
            assert(y =~= d + seq![45u8, 45u8, 13u8, 10u8]);
        } else {
            assert(y =~= d + part_chunk(parts[0].0, parts[0].1, parts[0].2, parts[0].3) + multipart_body(
                boundary,
                parts.drop_first(),
            ));
        }
    }
    assert(matches_at(y, d, 0));
    lemma_first_match_at(y, d, 0, 0);
    assert(split_bytes(y, d) =~= seq![y.subrange(0, 0)] + written_chunks(parts));
    lemma_written_chunks_read_back(parts);
}

/// Reading the written chunks gives the files and text fields sent.
proof fn lemma_written_chunks_read_back(parts: Seq<(Seq<char>, Option<Seq<char>>, Seq<Seq<char>>, Seq<u8>)>)
    requires
        plain_parts(parts),
    ensures
        multipart_files(written_chunks(parts)) == sent_files(parts),
        multipart_texts(written_chunks(parts)) == sent_texts(parts),
    decreases parts.len(),
{
    let w = written_chunks(parts);
    if parts.len() == 0 {
        let close = seq![45u8, 45u8, 13u8, 10u8];
        assert(close.subrange(0, 2) =~= seq![45u8, 45u8]);
        assert(part_spec(close) is None);
        assert(w[0] == close);
        assert(w.drop_first() =~= Seq::<Seq<u8>>::empty());
        assert(multipart_files(Seq::<Seq<u8>>::empty()) == Seq::<(Seq<char>, u64)>::empty());
        assert(multipart_texts(Seq::<Seq<u8>>::empty()) == Seq::<(Seq<char>, Seq<char>)>::empty());
    } else {
        let rest = parts.drop_first();
        assert forall|i: int| 0 <= i < rest.len() implies plain_part(#[trigger] rest[i]) by {
            assert(rest[i] == parts[i + 1]);
        }
        lemma_written_chunks_read_back(rest);
        assert(plain_part(parts[0]));
        lemma_part_reads_back(parts[0].0, parts[0].1, parts[0].2, parts[0].3);
        assert(w.drop_first() =~= written_chunks(rest));
        assert(w[0] == part_chunk(parts[0].0, parts[0].1, parts[0].2, parts[0].3));
        assert(part_spec(w[0]) == Some((parts[0].0, parts[0].1, parts[0].3)));
    }
}

} // verus!
