//! Reading request bodies: as JSON, as UTF-8 text, and as
//! `application/x-www-form-urlencoded` forms.

use vstd::prelude::*;
use vstd::utf8::{decode_utf8, encode_utf8, valid_utf8};

use crate::encoding::{lossy_text, string_from_utf8, utf8_lossy_decode};
use crate::str_map::{lemma_map_of_pairs_push, map_of_pairs, StrMap};
use crate::text::{
    chars_of, contains, first_occurrence, split, split_exec, split_once, split_once_exec,
    string_of,
};

verus! {

/// A value of `serde_json::Value`, carried through unread.
#[verifier::external_type_specification]
#[verifier::external_body]
pub struct ExJsonValue(serde_json::Value);

/// Whether `serde_json::from_slice::<serde_json::Value>` accepts `bytes`.
pub uninterp spec fn json_parses(bytes: Seq<u8>) -> bool;

/// The value `serde_json::from_slice::<serde_json::Value>` builds from
/// `bytes`, where it accepts them.
pub uninterp spec fn json_value(bytes: Seq<u8>) -> serde_json::Value;

/// Calls `serde_json::from_slice::<serde_json::Value>`. Claimed: whether
/// it succeeds, and the value it builds, are functions of the bytes alone.
/// Which bytes it accepts, and what the value holds, is not stated.
#[verifier::external_body]
fn json_from_slice(bytes: &[u8]) -> (res: Option<serde_json::Value>)
    ensures
        res is Some <==> json_parses(bytes@),
        res matches Some(v) ==> v == json_value(bytes@),
{
    serde_json::from_slice::<serde_json::Value>(bytes).ok()
}

/// Parses a request body as a JSON value; `None` when the body is empty or
/// is not JSON.
pub fn parse_json_value(body: &[u8]) -> (res: Option<serde_json::Value>)
    ensures
        res is Some <==> (body@.len() > 0 && json_parses(body@)),
        res matches Some(v) ==> v == json_value(body@),
{
    if body.len() == 0 {
        return None;
    }
    json_from_slice(body)
}

/// Reads a body as UTF-8 text; `None` when it is empty or not UTF-8.
pub fn body_as_string(body: &[u8]) -> (res: Option<String>)
    ensures
        res is Some <==> (body@.len() > 0 && valid_utf8(body@)),
        res matches Some(s) ==> s@ == decode_utf8(body@),
{
    if body.len() == 0 {
        return None;
    }
    string_from_utf8(body)
}

/// The value of a byte that is a hexadecimal digit, as `char::to_digit(16)`
/// gives it.
pub open spec fn hex_value(b: u8) -> Option<u8> {
    if 48 <= b && b <= 57 {
        Some((b - 48) as u8)
    } else if 97 <= b && b <= 102 {
        Some((b - 87) as u8)
    } else if 65 <= b && b <= 70 {
        Some((b - 55) as u8)
    } else {
        None
    }
}

fn hex_value_exec(b: u8) -> (res: Option<u8>)
    ensures
        res == hex_value(b),
        res matches Some(d) ==> d < 16,
{
    if 48 <= b && b <= 57 {
        Some(b - 48)
    } else if 97 <= b && b <= 102 {
        Some(b - 87)
    } else if 65 <= b && b <= 70 {
        Some(b - 55)
    } else {
        None
    }
}

/// The bytes that the bytes `b` of a form field stand for: `+` is a
/// space, `%` followed by two hexadecimal digits is the byte they spell,
/// and any other byte, a `%` without two digits after it too, is itself.
pub open spec fn percent_bytes(b: Seq<u8>) -> Seq<u8>
    decreases b.len(),
{
    if b.len() == 0 {
        seq![]
    } else if b[0] == 43 {
        seq![32u8] + percent_bytes(b.drop_first())
    } else if b[0] == 37 && b.len() >= 3 && hex_value(b[1]) is Some && hex_value(b[2]) is Some {
        seq![(hex_value(b[1])->0 * 16 + hex_value(b[2])->0) as u8] + percent_bytes(b.skip(3))
    } else {
        seq![b[0]] + percent_bytes(b.drop_first())
    }
}

/// A form field with its escapes decoded, as
/// `application/x-www-form-urlencoded` has it: the bytes the field stands
/// for, read as UTF-8 with invalid sequences replaced.
pub open spec fn percent_decoded(s: Seq<char>) -> Seq<char> {
    lossy_text(percent_bytes(encode_utf8(s)))
}

proof fn lemma_percent_bytes_plain(b: Seq<u8>)
    requires
        forall|i: int| 0 <= i < b.len() ==> b[i] != 37u8 && b[i] != 43u8,
    ensures
        percent_bytes(b) == b,
    decreases b.len(),
{
    if b.len() > 0 {
        let t = b.drop_first();
        assert forall|i: int| 0 <= i < t.len() implies t[i] != 37u8 && t[i] != 43u8 by {
            assert(t[i] == b[i + 1]);
        }
        lemma_percent_bytes_plain(t);
        assert(b =~= seq![b[0]] + t);
    }
}

/// The UTF-8 encoding of text without the ASCII character of code `c`
/// holds no byte `c`: the bytes of other characters are other ASCII codes
/// or lie at 0x80 and above.
pub proof fn lemma_encode_avoids_ascii(s: Seq<char>, c: u8)
    requires
        c < 128,
        forall|i: int| 0 <= i < s.len() ==> (#[trigger] s[i] as u32) != c as u32,
    ensures
        forall|j: int| 0 <= j < encode_utf8(s).len() ==> encode_utf8(s)[j] != c,
    decreases s.len(),
{
    if s.len() > 0 {
        let t = s.drop_first();
        assert forall|i: int| 0 <= i < t.len() implies (#[trigger] t[i] as u32) != c as u32 by {
            assert(t[i] == s[i + 1]);
        }
        lemma_encode_avoids_ascii(t, c);
        let x = s[0] as u32;
        assert(x != c as u32);
        let e = vstd::utf8::encode_scalar(x);
        assert(encode_utf8(s) == e + encode_utf8(t));
        if vstd::utf8::has_width_1_encoding(x) {
            assert(((x & 0x7F) as u8) != c) by (bit_vector)
                requires
                    x <= 0x7F,
                    x != c as u32,
                    c < 128,
            ;
        } else {
            assert(vstd::utf8::leading_byte_width_2(x) >= 0x80 && vstd::utf8::leading_byte_width_3(x)
                >= 0x80 && vstd::utf8::leading_byte_width_4(x) >= 0x80
                && vstd::utf8::last_continuation_byte(x) >= 0x80
                && vstd::utf8::second_last_continuation_byte(x) >= 0x80
                && vstd::utf8::third_last_continuation_byte(x) >= 0x80) by (bit_vector);
        }
        assert forall|j: int| 0 <= j < encode_utf8(s).len() implies encode_utf8(s)[j] != c by {
            if j >= e.len() {
                assert(encode_utf8(s)[j] == encode_utf8(t)[j - e.len()]);
            }
        }
    }
}

/// Text with no `%` and no `+` decodes to itself.
pub proof fn lemma_percent_decoded_plain(s: Seq<char>)
    requires
        forall|i: int| 0 <= i < s.len() ==> s[i] != '%' && s[i] != '+',
    ensures
        percent_decoded(s) == s,
{
    assert forall|i: int| 0 <= i < s.len() implies (#[trigger] s[i] as u32) != 37u8 as u32 by {
        assert(s[i] != '%');
        vstd::utf8::char_u32_cast(s[i], s[i] as u32);
    }
    assert forall|i: int| 0 <= i < s.len() implies (#[trigger] s[i] as u32) != 43u8 as u32 by {
        assert(s[i] != '+');
        vstd::utf8::char_u32_cast(s[i], s[i] as u32);
    }
    lemma_encode_avoids_ascii(s, 37u8);
    lemma_encode_avoids_ascii(s, 43u8);
    lemma_percent_bytes_plain(encode_utf8(s));
    vstd::utf8::encode_utf8_valid_utf8(s);
    vstd::utf8::encode_utf8_decode_utf8(s);
}

/// Decodes the `%XY` escapes and `+` of a form field, reading the bytes
/// they stand for as UTF-8.
pub fn percent_decode(s: &str) -> (res: String)
    ensures
        res@ == percent_decoded(s@),
{
    let b = s.as_bytes();
    let ghost all = b@;
    let mut out: Vec<u8> = Vec::new();
    let mut i: usize = 0;
    assert(all.skip(0) =~= all);
    while i < b.len()
        invariant
            i <= b@.len(),
            all == b@,
            percent_bytes(all) == out@ + percent_bytes(all.skip(i as int)),
        decreases b.len() - i,
    {
        let ghost rest = all.skip(i as int);
        assert(rest[0] == all[i as int]);
        assert(rest.drop_first() =~= all.skip(i + 1));
        let c = b[i];
        if c == 43 {
            out.push(32);
            i = i + 1;
            assert(percent_bytes(all) =~= out@ + percent_bytes(all.skip(i as int)));
        } else {
            let mut escaped: Option<u8> = None;
            if c == 37 && b.len() - i >= 3 {
                assert(rest[1] == all[i + 1] && rest[2] == all[i + 2]);
                let hi = hex_value_exec(b[i + 1]);
                let lo = hex_value_exec(b[i + 2]);
                match (hi, lo) {
                    (Some(h), Some(l)) => {
                        escaped = Some(h * 16 + l);
                    },
                    _ => {},
                }
            }
            match escaped {
                Some(v) => {
                    assert(rest.skip(3) =~= all.skip(i + 3));
                    out.push(v);
                    i = i + 3;
                    assert(percent_bytes(all) =~= out@ + percent_bytes(all.skip(i as int)));
                },
                None => {
                    out.push(c);
                    i = i + 1;
                    assert(percent_bytes(all) =~= out@ + percent_bytes(all.skip(i as int)));
                },
            }
        }
    }
    assert(all.skip(i as int) =~= Seq::<u8>::empty());
    assert(out@ =~= out@ + Seq::<u8>::empty());
    utf8_lossy_decode(out.as_slice())
}

/// The fields of the `&`-separated pieces of a form: empty pieces are
/// skipped; a piece with `=` gives its decoded name and value, and one
/// without gives its decoded text with an empty value.
pub open spec fn form_pairs(pieces: Seq<Seq<char>>) -> Seq<(Seq<char>, Seq<char>)>
    decreases pieces.len(),
{
    if pieces.len() == 0 {
        seq![]
    } else {
        let rest = form_pairs(pieces.drop_first());
        let p = pieces[0];
        if p.len() == 0 {
            rest
        } else {
            match split_once(p, seq!['=']) {
                Some((k, v)) => seq![(percent_decoded(k), percent_decoded(v))] + rest,
                None => seq![(percent_decoded(p), Seq::<char>::empty())] + rest,
            }
        }
    }
}

/// The fields of an `application/x-www-form-urlencoded` body, a later field
/// replacing an earlier one of the same name.
pub open spec fn form_spec(body: Seq<u8>) -> Map<Seq<char>, Seq<char>> {
    if body.len() == 0 {
        Map::empty()
    } else {
        map_of_pairs(form_pairs(split(lossy_text(body), seq!['&'])))
    }
}

/// Parses an `application/x-www-form-urlencoded` body.
pub fn parse_form_body(body: &[u8]) -> (res: StrMap<String>)
    ensures
        res@ == form_spec(body@),
{
    let mut map: StrMap<String> = StrMap::new();
    if body.len() == 0 {
        return map;
    }
    let text = utf8_lossy_decode(body);
    let cs = chars_of(text.as_str());
    let amp: Vec<char> = vec!['&'];
    assert(amp@ =~= seq!['&']);
    let eq: Vec<char> = vec!['='];
    assert(eq@ =~= seq!['=']);
    let pieces = split_exec(cs.as_slice(), amp.as_slice());
    let ghost all = split(lossy_text(body@), seq!['&']);
    let ghost mut acc: Seq<(Seq<char>, Seq<char>)> = seq![];
    let mut i: usize = 0;
    assert(all.skip(0) =~= all);
    while i < pieces.len()
        invariant
            i <= pieces@.len(),
            pieces@.len() == all.len(),
            forall|j: int| 0 <= j < pieces@.len() ==> #[trigger] pieces@[j]@ == all[j],
            eq@ == seq!['='],
            map@ == map_of_pairs(acc),
            form_pairs(all) == acc + form_pairs(all.skip(i as int)),
        decreases pieces.len() - i,
    {
        let piece = &pieces[i];
        proof {
            assert(all.skip(i as int).drop_first() =~= all.skip(i + 1));
            assert(all.skip(i as int)[0] == all[i as int]);
        }
        if piece.len() == 0 {
            assert(form_pairs(all.skip(i as int)) == form_pairs(all.skip(i + 1)));
        } else {
            let (k, v) = match split_once_exec(piece.as_slice(), eq.as_slice()) {
                Some((k, v)) => {
                    let ks = string_of(k.as_slice());
                    let vs = string_of(v.as_slice());
                    (percent_decode(ks.as_str()), percent_decode(vs.as_str()))
                },
                None => {
                    let ps = string_of(piece.as_slice());
                    (percent_decode(ps.as_str()), String::new())
                },
            };
            proof {
                lemma_map_of_pairs_push(acc, k@, v@);
                assert(acc + form_pairs(all.skip(i as int)) =~= acc.push((k@, v@)) + form_pairs(
                    all.skip(i + 1),
                ));
                acc = acc.push((k@, v@));
            }
            map.insert(k, v);
        }
        i = i + 1;
    }
    assert(all.skip(i as int) =~= Seq::<Seq<char>>::empty());
    assert(acc + Seq::<(Seq<char>, Seq<char>)>::empty() =~= acc);
    map
}

/// A form field name or value written without escapes: no `%`, `+`, `&`
/// or `=`.
pub open spec fn plain_form_text(s: Seq<char>) -> bool {
    forall|i: int|
        0 <= i < s.len() ==> #[trigger] s[i] != '%' && s[i] != '+' && s[i] != '&' && s[i] != '='
}

/// The field `name=value` of a form.
pub open spec fn form_field(field: (Seq<char>, Seq<char>)) -> Seq<char> {
    field.0 + seq!['='] + field.1
}

/// A form body as a client writes it: its fields joined by `&`.
pub open spec fn form_text(fields: Seq<(Seq<char>, Seq<char>)>) -> Seq<char>
    decreases fields.len(),
{
    if fields.len() == 0 {
        seq![]
    } else if fields.len() == 1 {
        form_field(fields[0])
    } else {
        form_field(fields[0]) + seq!['&'] + form_text(fields.drop_first())
    }
}

/// Text with neither of the form's separators, `&` and `=`.
pub open spec fn separator_free(s: Seq<char>) -> bool {
    forall|i: int| 0 <= i < s.len() ==> #[trigger] s[i] != '&' && s[i] != '='
}

/// A field with its name and value decoded.
pub open spec fn decoded_field(f: (Seq<char>, Seq<char>)) -> (Seq<char>, Seq<char>) {
    (percent_decoded(f.0), percent_decoded(f.1))
}

proof fn lemma_form_text_pieces(fields: Seq<(Seq<char>, Seq<char>)>)
    requires
        fields.len() > 0,
        forall|i: int|
            0 <= i < fields.len() ==> separator_free(#[trigger] fields[i].0) && separator_free(
                fields[i].1,
            ),
    ensures
        split(form_text(fields), seq!['&']) == fields.map_values(|f: (Seq<char>, Seq<char>)| form_field(f)),
        form_pairs(fields.map_values(|f: (Seq<char>, Seq<char>)| form_field(f))) == fields.map_values(
            |f: (Seq<char>, Seq<char>)| decoded_field(f),
        ),
    decreases fields.len(),
{
    let f0 = form_field(fields[0]);
    let k = fields[0].0;
    let v = fields[0].1;
    assert(separator_free(k) && separator_free(v));
    let n = k.len() as int;
    assert forall|j: int| 0 <= j < f0.len() implies f0[j] != '&' by {
        if j < n {
            assert(f0[j] == k[j]);
        } else if j > n {
            assert(f0[j] == v[j - n - 1]);
        }
    }
    assert(f0[n] == '=');
    assert forall|j: int| 0 <= j < n implies f0[j] != '=' by {
        assert(f0[j] == k[j]);
    }
    crate::text::lemma_split_once_at(f0, '=', n);
    assert(f0.take(n) =~= k);
    assert(f0.skip(n + 1) =~= v);
    let ms = fields.map_values(|f: (Seq<char>, Seq<char>)| form_field(f));
    let ds = fields.map_values(|f: (Seq<char>, Seq<char>)| decoded_field(f));
    assert(ms[0] == f0);
    assert(ds[0] == decoded_field(fields[0]));
    if fields.len() == 1 {
        let t = form_text(fields);
        assert(t == f0);
        crate::text::lemma_split_char_last(t, '&', 0);
        assert(t.subrange(0, t.len() as int) =~= t);
        assert(ms =~= seq![f0]);
        assert(ms.drop_first() =~= Seq::<Seq<char>>::empty());
        assert(form_pairs(Seq::<Seq<char>>::empty()) == Seq::<(Seq<char>, Seq<char>)>::empty());
        assert(form_pairs(ms) =~= ds);
    } else {
        let rest = fields.drop_first();
        assert forall|i: int| 0 <= i < rest.len() implies separator_free(#[trigger] rest[i].0)
            && separator_free(rest[i].1) by {
            assert(rest[i] == fields[i + 1]);
            assert(separator_free(fields[i + 1].0));
        }
        lemma_form_text_pieces(rest);
        let rt = form_text(rest);
        let t = form_text(fields);
        let x = f0 + seq!['&'];
        assert(t =~= x + rt);
        assert(t[n + 1 + v.len()] == '&');
        assert forall|j: int| 0 <= j < f0.len() implies t[j] != '&' by {
            assert(t[j] == f0[j]);
        }
        crate::text::lemma_split_char_step(t, '&', 0, f0.len() as int);
        crate::text::lemma_split_from_shift(x, rt, seq!['&'], 0);
        assert(t.subrange(0, f0.len() as int) =~= f0);
        let mr = rest.map_values(|f: (Seq<char>, Seq<char>)| form_field(f));
        let dr = rest.map_values(|f: (Seq<char>, Seq<char>)| decoded_field(f));
        assert(ms =~= seq![f0] + mr);
        assert(ms.drop_first() =~= mr);
        assert(split(t, seq!['&']) =~= seq![f0] + mr);
        assert(form_pairs(ms) =~= seq![decoded_field(fields[0])] + dr);
        assert(ds =~= seq![decoded_field(fields[0])] + dr);
    }
}

/// A form body of fields whose names and values hold no `&` and no `=`
/// reads back as those fields, each name and value decoded.
proof fn lemma_form_text_reads(fields: Seq<(Seq<char>, Seq<char>)>)
    requires
        forall|i: int|
            0 <= i < fields.len() ==> separator_free(#[trigger] fields[i].0) && separator_free(
                fields[i].1,
            ),
    ensures
        form_spec(vstd::utf8::encode_utf8(form_text(fields))) == map_of_pairs(
            fields.map_values(|f: (Seq<char>, Seq<char>)| decoded_field(f)),
        ),
{
    let t = form_text(fields);
    let body = vstd::utf8::encode_utf8(t);
    vstd::utf8::encode_utf8_valid_utf8(t);
    vstd::utf8::encode_utf8_decode_utf8(t);
    assert(lossy_text(body) == t);
    if fields.len() == 0 {
        assert(t.len() == 0);
        assert(body =~= Seq::<u8>::empty());
        assert(fields.map_values(|f: (Seq<char>, Seq<char>)| decoded_field(f)) =~= Seq::<
            (Seq<char>, Seq<char>),
        >::empty());
    } else {
        lemma_form_text_pieces(fields);
        assert(body.len() > 0) by {
            if body.len() == 0 {
                assert(body =~= Seq::<u8>::empty());
                assert(decode_utf8(Seq::<u8>::empty()) =~= Seq::<char>::empty());
                assert(t.len() >= 1);
            }
        }
    }
}

/// A form written from fields with unescaped names and values reads back
/// as those fields, a later one replacing an earlier one of the same name.
pub proof fn lemma_form_reads_back(fields: Seq<(Seq<char>, Seq<char>)>)
    requires
        forall|i: int|
            0 <= i < fields.len() ==> plain_form_text(#[trigger] fields[i].0) && plain_form_text(
                fields[i].1,
            ),
    ensures
        form_spec(vstd::utf8::encode_utf8(form_text(fields))) == map_of_pairs(fields),
{
    assert forall|i: int| 0 <= i < fields.len() implies separator_free(#[trigger] fields[i].0)
        && separator_free(fields[i].1) && decoded_field(fields[i]) == fields[i] by {
        let f = fields[i];
        assert(plain_form_text(f.0));
        assert(plain_form_text(f.1));
        assert(separator_free(f.0));
        assert(separator_free(f.1));
        lemma_percent_decoded_plain(fields[i].0);
        lemma_percent_decoded_plain(fields[i].1);
    }
    lemma_form_text_reads(fields);
    assert(fields.map_values(|f: (Seq<char>, Seq<char>)| decoded_field(f)) =~= fields);
}

/// A byte that a form writes as itself: an ASCII letter or digit, or one
/// of `-`, `.`, `_` and `*`.
pub open spec fn form_unreserved(b: u8) -> bool {
    (48 <= b && b <= 57) || (65 <= b && b <= 90) || (97 <= b && b <= 122) || b == 45 || b == 46
        || b == 95 || b == 42
}

/// The upper-case hexadecimal digit for `d < 16`.
pub open spec fn hex_digit_byte(d: u8) -> u8 {
    if d < 10 {
        (d + 48) as u8
    } else {
        (d + 55) as u8
    }
}

/// How a form writes the byte `b`: an unreserved byte as itself, a space as
/// `+`, and any other byte as `%` and two upper-case hexadecimal digits.
pub open spec fn form_escape_byte(b: u8) -> Seq<char> {
    if form_unreserved(b) {
        seq![b as char]
    } else if b == 32 {
        seq!['+']
    } else {
        seq!['%', hex_digit_byte(b / 16) as char, hex_digit_byte(b % 16) as char]
    }
}

/// How a form writes the bytes `b`, each in turn.
pub open spec fn form_escape_bytes(b: Seq<u8>) -> Seq<char>
    decreases b.len(),
{
    if b.len() == 0 {
        seq![]
    } else {
        form_escape_byte(b[0]) + form_escape_bytes(b.drop_first())
    }
}

/// A name or value as a form writes it: its UTF-8 bytes, escaped.
pub open spec fn form_encoded(s: Seq<char>) -> Seq<char> {
    form_escape_bytes(encode_utf8(s))
}

/// A field with its name and value as a form writes them.
pub open spec fn encoded_field(f: (Seq<char>, Seq<char>)) -> (Seq<char>, Seq<char>) {
    (form_encoded(f.0), form_encoded(f.1))
}

proof fn lemma_escape_byte(b: u8, rest: Seq<u8>)
    ensures
        vstd::utf8::is_ascii_chars(form_escape_byte(b)),
        separator_free(form_escape_byte(b)),
        percent_bytes(encode_utf8(form_escape_byte(b)) + rest) == seq![b] + percent_bytes(rest),
{
    let e = form_escape_byte(b);
    vstd::utf8::is_ascii_chars_encode_utf8(e);
    let eb = encode_utf8(e);
    let all = eb + rest;
    if form_unreserved(b) {
        assert((b as char) as u8 == b);
        assert(eb =~= seq![b]);
        assert(all[0] == b);
        assert(all.drop_first() =~= rest);
    } else if b == 32 {
        assert(eb =~= seq![43u8]);
        assert(all[0] == 43u8);
        assert(all.drop_first() =~= rest);
    } else {
        let hi = b / 16;
        let lo = b % 16;
        let h1 = hex_digit_byte(hi);
        let h2 = hex_digit_byte(lo);
        assert((h1 as char) as u8 == h1);
        assert((h2 as char) as u8 == h2);
        assert(eb =~= seq![37u8, h1, h2]);
        assert(hex_value(h1) == Some(hi));
        assert(hex_value(h2) == Some(lo));
        assert(all[0] == 37u8 && all[1] == h1 && all[2] == h2);
        assert(all.skip(3) =~= rest);
        assert((hi * 16 + lo) as u8 == b);
    }
}

proof fn lemma_escape_bytes(b: Seq<u8>)
    ensures
        vstd::utf8::is_ascii_chars(form_escape_bytes(b)),
        separator_free(form_escape_bytes(b)),
        percent_bytes(encode_utf8(form_escape_bytes(b))) == b,
    decreases b.len(),
{
    if b.len() == 0 {
        assert(encode_utf8(form_escape_bytes(b)) =~= Seq::<u8>::empty());
    } else {
        let rest = b.drop_first();
        lemma_escape_bytes(rest);
        let e = form_escape_byte(b[0]);
        let r = form_escape_bytes(rest);
        lemma_escape_byte(b[0], encode_utf8(r));
        crate::cookies::lemma_encode_utf8_concat(e, r);
        let all = e + r;
        assert(all == form_escape_bytes(b));
        assert forall|i: int| 0 <= i < all.len() implies '\0' <= #[trigger] all[i] <= '\u{7f}'
            && all[i] != '&' && all[i] != '=' by {
            if i < e.len() {
                assert(all[i] == e[i]);
            } else {
                assert(all[i] == r[i - e.len()]);
            }
        }
        assert(b =~= seq![b[0]] + rest);
    }
}

/// A name or value that a form writes escaped decodes back to itself, and
/// its escaped form holds neither `&` nor `=`.
pub proof fn lemma_form_encoded_decodes(s: Seq<char>)
    ensures
        separator_free(form_encoded(s)),
        percent_decoded(form_encoded(s)) == s,
{
    lemma_escape_bytes(encode_utf8(s));
    vstd::utf8::encode_utf8_valid_utf8(s);
    vstd::utf8::encode_utf8_decode_utf8(s);
}

/// A form written from any fields, their names and values escaped as a
/// client writes them, reads back as those fields, a later one replacing an
/// earlier one of the same name.
pub proof fn lemma_encoded_form_reads_back(fields: Seq<(Seq<char>, Seq<char>)>)
    ensures
        form_spec(
            encode_utf8(form_text(fields.map_values(|f: (Seq<char>, Seq<char>)| encoded_field(f)))),
        ) == map_of_pairs(fields),
{
    let es = fields.map_values(|f: (Seq<char>, Seq<char>)| encoded_field(f));
    assert forall|i: int| 0 <= i < es.len() implies separator_free(#[trigger] es[i].0)
        && separator_free(es[i].1) && decoded_field(es[i]) == fields[i] by {
        assert(es[i] == encoded_field(fields[i]));
        lemma_form_encoded_decodes(fields[i].0);
        lemma_form_encoded_decodes(fields[i].1);
    }
    lemma_form_text_reads(es);
    assert(es.map_values(|f: (Seq<char>, Seq<char>)| decoded_field(f)) =~= fields);
}

} // verus!
