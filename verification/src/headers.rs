//! The request headers as the handlers read them: names matched without
//! regard to ASCII case, values as raw bytes that read as text only when
//! they are visible ASCII.

use vstd::prelude::*;

verus! {

/// A byte that `HeaderValue::to_str` accepts: visible ASCII or a tab.
pub open spec fn is_visible_ascii(b: u8) -> bool {
    (32 <= b && b < 127) || b == 9
}

/// Every byte of `v` is visible ASCII or a tab.
pub open spec fn all_visible_ascii(v: Seq<u8>) -> bool {
    forall|i: int| 0 <= i < v.len() ==> is_visible_ascii(#[trigger] v[i])
}

/// The characters that ASCII bytes stand for.
pub open spec fn ascii_chars(v: Seq<u8>) -> Seq<char> {
    v.map_values(|b: u8| b as char)
}

/// An ASCII upper-case letter in lower case; any other character as is.
pub open spec fn lower_char(c: char) -> char {
    if 'A' <= c && c <= 'Z' {
        (((c as u8) + 32) as u8) as char
    } else {
        c
    }
}

/// `s` with its ASCII upper-case letters in lower case.
pub open spec fn ascii_lower(s: Seq<char>) -> Seq<char> {
    s.map_values(|c: char| lower_char(c))
}

/// The value of the first header called `name` (names already in lower
/// case).
pub open spec fn header_value(h: Seq<(Seq<char>, Seq<u8>)>, name: Seq<char>) -> Option<Seq<u8>>
    decreases h.len(),
{
    if h.len() == 0 {
        None
    } else if h[0].0 == name {
        Some(h[0].1)
    } else {
        header_value(h.drop_first(), name)
    }
}

/// The first header called `name` read as text: absent when there is no
/// such header or its value is not visible ASCII.
pub open spec fn header_text(h: Seq<(Seq<char>, Seq<u8>)>, name: Seq<char>) -> Option<Seq<char>> {
    match header_value(h, ascii_lower(name)) {
        Some(v) => if all_visible_ascii(v) {
            Some(ascii_chars(v))
        } else {
            None
        },
        None => None,
    }
}

/// The headers of `h` not called `name`, in order.
pub open spec fn without_name(h: Seq<(Seq<char>, Seq<u8>)>, name: Seq<char>) -> Seq<
    (Seq<char>, Seq<u8>),
> {
    h.filter(|f: (Seq<char>, Seq<u8>)| f.0 != name)
}

proof fn lemma_header_value_last(h: Seq<(Seq<char>, Seq<u8>)>, name: Seq<char>, value: Seq<u8>)
    requires
        forall|i: int| 0 <= i < h.len() ==> (#[trigger] h[i]).0 != name,
    ensures
        header_value(h.push((name, value)), name) == Some(value),
    decreases h.len(),
{
    let s = h.push((name, value));
    if h.len() > 0 {
        let t = h.drop_first();
        assert(s.drop_first() =~= t.push((name, value)));
        assert(s[0] == h[0]);
        assert forall|i: int| 0 <= i < t.len() implies (#[trigger] t[i]).0 != name by {
            assert(t[i] == h[i + 1]);
        }
        lemma_header_value_last(t, name, value);
    } else {
        assert(s[0] == (name, value));
    }
}

/// A header set with `HeaderList::insert` reads back as the value set,
/// whatever the ASCII case of its name when set and when read: `get`
/// gives the value, and `get_str` its text when it is visible ASCII.
pub proof fn lemma_insert_then_read(
    h: Seq<(Seq<char>, Seq<u8>)>,
    name: Seq<char>,
    lookup: Seq<char>,
    value: Seq<u8>,
)
    requires
        ascii_lower(lookup) == ascii_lower(name),
    ensures
        header_value(without_name(h, ascii_lower(name)).push((ascii_lower(name), value)), ascii_lower(lookup))
            == Some(value),
        header_text(without_name(h, ascii_lower(name)).push((ascii_lower(name), value)), lookup)
            == if all_visible_ascii(value) {
            Some(ascii_chars(value))
        } else {
            None::<Seq<char>>
        },
{
    let n = ascii_lower(name);
    let w = without_name(h, n);
    broadcast use Seq::lemma_filter_pred;
    assert forall|i: int| 0 <= i < w.len() implies (#[trigger] w[i]).0 != n by {}
    lemma_header_value_last(w, n, value);
}

/// The headers of a request, in the order they came, each name in lower
/// case.
pub struct HeaderList {
    fields: Vec<(String, Vec<u8>)>,
}

impl View for HeaderList {
    type V = Seq<(Seq<char>, Seq<u8>)>;

    closed spec fn view(&self) -> Seq<(Seq<char>, Seq<u8>)> {
        self.fields@.map_values(|f: (String, Vec<u8>)| (f.0@, f.1@))
    }
}

fn lower_char_exec(c: char) -> (res: char)
    ensures
        res == lower_char(c),
{
    if 'A' <= c && c <= 'Z' {
        let b: u8 = (c as u8) + 32;
        b as char
    } else {
        c
    }
}

/// `s` with its ASCII upper-case letters in lower case.
pub fn to_ascii_lower(s: &str) -> (res: String)
    ensures
        res@ == ascii_lower(s@),
{
    let cs = crate::text::chars_of(s);
    let mut out: Vec<char> = Vec::new();
    let mut i: usize = 0;
    while i < cs.len()
        invariant
            i <= cs@.len(),
            cs@ == s@,
            out@ == ascii_lower(s@).take(i as int),
        decreases cs.len() - i,
    {
        let c = lower_char_exec(cs[i]);
        out.push(c);
        i = i + 1;
        assert(out@ =~= ascii_lower(s@).take(i as int));
    }
    assert(ascii_lower(s@).take(cs@.len() as int) =~= ascii_lower(s@));
    crate::text::string_of(out.as_slice())
}

/// The text that visible-ASCII bytes spell.
fn ascii_text(v: &[u8]) -> (res: String)
    ensures
        res@ == ascii_chars(v@),
{
    let mut out: Vec<char> = Vec::new();
    let mut i: usize = 0;
    while i < v.len()
        invariant
            i <= v@.len(),
            out@ == ascii_chars(v@).take(i as int),
        decreases v.len() - i,
    {
        out.push(v[i] as char);
        i = i + 1;
        assert(out@ =~= ascii_chars(v@).take(i as int));
    }
    assert(ascii_chars(v@).take(v@.len() as int) =~= ascii_chars(v@));
    crate::text::string_of(out.as_slice())
}

/// A header value as text, when it is visible ASCII (as
/// `HeaderValue::to_str` decides).
pub fn visible_text(v: &[u8]) -> (res: Option<String>)
    ensures
        res is Some <==> all_visible_ascii(v@),
        res matches Some(s) ==> s@ == ascii_chars(v@),
{
    let mut i: usize = 0;
    while i < v.len()
        invariant
            i <= v@.len(),
            forall|j: int| 0 <= j < i ==> is_visible_ascii(#[trigger] v@[j]),
        decreases v.len() - i,
    {
        let b = v[i];
        if !((32 <= b && b < 127) || b == 9) {
            assert(!is_visible_ascii(v@[i as int]));
            return None;
        }
        i = i + 1;
    }
    Some(ascii_text(v))
}

impl HeaderList {
    /// No headers.
    pub fn new() -> (res: Self)
        ensures
            res@ == Seq::<(Seq<char>, Seq<u8>)>::empty(),
    {
        let res = HeaderList { fields: Vec::new() };
        assert(res@ =~= Seq::<(Seq<char>, Seq<u8>)>::empty());
        res
    }

    /// Adds a header after the others, keeping any earlier ones of the same
    /// name.
    pub fn append(&mut self, name: &str, value: &[u8])
        ensures
            final(self)@ == old(self)@.push((ascii_lower(name@), value@)),
    {
        let n = to_ascii_lower(name);
        let v = vstd::slice::slice_to_vec(value);
        self.fields.push((n, v));
        assert(self@ =~= old(self)@.push((ascii_lower(name@), value@)));
    }

    /// Sets the header `name` to `value` alone: earlier headers of that
    /// name are dropped and the new one goes last.
    pub fn insert(&mut self, name: &str, value: &[u8])
        ensures
            final(self)@ == without_name(old(self)@, ascii_lower(name@)).push(
                (ascii_lower(name@), value@),
            ),
    {
        let n = to_ascii_lower(name);
        let ghost lower = ascii_lower(name@);
        let mut kept: Vec<(String, Vec<u8>)> = Vec::new();
        let mut i: usize = 0;
        while i < self.fields.len()
            invariant
                i <= self.fields@.len(),
                n@ == lower,
                lower == ascii_lower(name@),
                self@ == old(self)@,
                kept@.map_values(|f: (String, Vec<u8>)| (f.0@, f.1@)) == without_name(
                    old(self)@.take(i as int),
                    lower,
                ),
            decreases self.fields.len() - i,
        {
            let ghost prev = kept@.map_values(|f: (String, Vec<u8>)| (f.0@, f.1@));
            let ghost cur = old(self)@[i as int];
            proof {
                reveal(Seq::filter);
                assert(old(self)@.take(i + 1).drop_last() =~= old(self)@.take(i as int));
                assert(old(self)@.take(i + 1).last() == cur);
            }
            assert(self.fields@[i as int].0@ == cur.0);
            if self.fields[i].0 == n {
                assert(without_name(old(self)@.take(i + 1), lower) == without_name(
                    old(self)@.take(i as int),
                    lower,
                ));
                assert(kept@.map_values(|f: (String, Vec<u8>)| (f.0@, f.1@)) =~= prev);
            } else {
                assert(without_name(old(self)@.take(i + 1), lower) == without_name(
                    old(self)@.take(i as int),
                    lower,
                ).push(cur));
                let f = (self.fields[i].0.clone(), self.fields[i].1.clone());
                assert(f.1@ == cur.1);
                kept.push(f);
                assert(kept@.map_values(|f: (String, Vec<u8>)| (f.0@, f.1@)) =~= prev.push(cur));
            }
            i = i + 1;
        }
        assert(old(self)@.take(old(self)@.len() as int) =~= old(self)@);
        let v = vstd::slice::slice_to_vec(value);
        kept.push((n, v));
        self.fields = kept;
        assert(self@ =~= without_name(old(self)@, lower).push((ascii_lower(name@), value@)));
    }

    /// The number of headers.
    pub fn len(&self) -> (res: usize)
        ensures
            res == self@.len(),
    {
        self.fields.len()
    }

    /// The header at position `i`.
    pub fn field(&self, i: usize) -> (res: (&String, &Vec<u8>))
        requires
            i < self@.len(),
        ensures
            res.0@ == self@[i as int].0,
            res.1@ == self@[i as int].1,
    {
        let f = &self.fields[i];
        (&f.0, &f.1)
    }

    /// The value of the first header called `name` (in any ASCII case).
    pub fn get(&self, name: &str) -> (res: Option<&Vec<u8>>)
        ensures
            res matches Some(v) ==> header_value(self@, ascii_lower(name@)) == Some(v@),
            res is None ==> header_value(self@, ascii_lower(name@)) is None,
    {
        let n = to_ascii_lower(name);
        let mut i: usize = 0;
        assert(self@.skip(0) =~= self@);
        while i < self.fields.len()
            invariant
                i <= self.fields@.len(),
                n@ == ascii_lower(name@),
                header_value(self@, n@) == header_value(self@.skip(i as int), n@),
            decreases self.fields.len() - i,
        {
            assert(self@.skip(i as int)[0] == self@[i as int]);
            if self.fields[i].0 == n {
                return Some(&self.fields[i].1);
            }
            assert(self@.skip(i as int).drop_first() =~= self@.skip(i + 1));
            i = i + 1;
        }
        None
    }

    /// The first header called `name` as text; absent when missing or when
    /// its value is not visible ASCII (as `HeaderValue::to_str` decides).
    pub fn get_str(&self, name: &str) -> (res: Option<String>)
        ensures
            res matches Some(s) ==> header_text(self@, name@) == Some(s@),
            res is None ==> header_text(self@, name@) is None,
    {
        match self.get(name) {
            Some(v) => visible_text(v.as_slice()),
            None => None,
        }
    }
}

} // verus!
