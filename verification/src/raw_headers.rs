//! Reading the header block of an HTTP/1.1 request before the server
//! parses it, to learn the header names in their original case, and
//! replaying the bytes read so that the server still sees all of them.

use vstd::prelude::*;

use crate::byte_seq::{find_header_end, first_match_from, header_terminator};
use crate::encoding::{lossy_text, utf8_lossy_decode};
use crate::str_map::{map_of_pairs, lemma_map_of_pairs_push, StrMap};
use crate::text::{
    chars_of, split, split_exec, split_once, split_once_exec, string_of, trim, trim_end, trim_exec,
    trim_start,
};

verus! {

/// The line break of HTTP/1.1.
pub open spec fn crlf() -> Seq<char> {
    seq!['\r', '\n']
}

/// The name/value pairs of the header lines `lines`, up to the first empty
/// line: each line with a colon gives its trimmed name and value, unless
/// the name is empty; other lines give nothing.
pub open spec fn header_line_pairs(lines: Seq<Seq<char>>) -> Seq<(Seq<char>, Seq<char>)>
    decreases lines.len(),
{
    if lines.len() == 0 || lines[0].len() == 0 {
        seq![]
    } else {
        let rest = header_line_pairs(lines.drop_first());
        match split_once(lines[0], seq![':']) {
            Some((n, v)) => if trim(n).len() > 0 {
                seq![(trim(n), trim(v))] + rest
            } else {
                rest
            },
            None => rest,
        }
    }
}

/// The headers of a raw HTTP/1.1 request head: the request line is
/// skipped, and a later header replaces an earlier one of the same name.
pub open spec fn raw_headers_spec(raw: Seq<u8>) -> Map<Seq<char>, Seq<char>> {
    map_of_pairs(header_line_pairs(split(lossy_text(raw), crlf()).drop_first()))
}

proof fn lemma_header_line_pairs_step(lines: Seq<Seq<char>>, i: int)
    requires
        0 <= i < lines.len(),
        lines[i].len() > 0,
    ensures
        header_line_pairs(lines.skip(i)) == match split_once(lines[i], seq![':']) {
            Some((n, v)) => if trim(n).len() > 0 {
                seq![(trim(n), trim(v))] + header_line_pairs(lines.skip(i + 1))
            } else {
                header_line_pairs(lines.skip(i + 1))
            },
            None => header_line_pairs(lines.skip(i + 1)),
        },
{
    assert(lines.skip(i).drop_first() =~= lines.skip(i + 1));
    assert(lines.skip(i)[0] == lines[i]);
}

/// Parses the headers of a raw HTTP/1.1 request head, keeping the case of
/// their names.
pub fn parse_raw_headers(raw: &[u8]) -> (res: StrMap<String>)
    ensures
        res@ == raw_headers_spec(raw@),
{
    let text = utf8_lossy_decode(raw);
    let cs = chars_of(text.as_str());
    let sep: Vec<char> = vec!['\r', '\n'];
    assert(sep@ =~= crlf());
    let lines = split_exec(cs.as_slice(), sep.as_slice());
    let ghost all = split(lossy_text(raw@), crlf());
    let ghost body = all.drop_first();
    let colon: Vec<char> = vec![':'];
    assert(colon@ =~= seq![':']);
    let mut out: StrMap<String> = StrMap::new();
    let ghost mut acc: Seq<(Seq<char>, Seq<char>)> = seq![];
    let mut i: usize = 1;
    let mut stop = false;
    assert(all.len() >= 1) by {
        crate::text::lemma_split_nonempty(lossy_text(raw@), crlf());
    }
    assert(body.skip(0) =~= body);
    while i < lines.len() && !stop
        invariant
            1 <= i <= lines@.len(),
            stop ==> header_line_pairs(body.skip(i - 1)).len() == 0,
            lines@.len() == all.len(),
            all.len() >= 1,
            forall|j: int| 0 <= j < lines@.len() ==> #[trigger] lines@[j]@ == all[j],
            body == all.drop_first(),
            colon@ == seq![':'],
            out@ == map_of_pairs(acc),
            header_line_pairs(body) == acc + header_line_pairs(body.skip(i - 1)),
        decreases lines.len() - i, if stop {
            0int
        } else {
            1int
        },
    {
        let line = &lines[i];
        assert(body[i - 1] == all[i as int]);
        if line.len() == 0 {
            assert(body.skip(i - 1)[0] == body[i - 1]);
            stop = true;
        } else {
            proof {
                lemma_header_line_pairs_step(body, i - 1);
                assert(body.skip(i - 1 + 1) =~= body.skip(i as int));
            }
            match split_once_exec(line.as_slice(), colon.as_slice()) {
                Some((n, v)) => {
                    let name = trim_exec(n.as_slice());
                    let value = trim_exec(v.as_slice());
                    if name.len() > 0 {
                        let ns = string_of(name.as_slice());
                        let vs = string_of(value.as_slice());
                        proof {
                            lemma_map_of_pairs_push(acc, ns@, vs@);
                            assert(acc + header_line_pairs(body.skip(i - 1)) =~= acc.push((ns@, vs@))
                                + header_line_pairs(body.skip(i as int)));
                            acc = acc.push((ns@, vs@));
                        }
                        out.insert(ns, vs);
                    }
                },
                None => {},
            }
            i = i + 1;
        }
    }
    proof {
        if !stop {
            assert(body.skip(i - 1) =~= Seq::<Seq<char>>::empty());
        }
        assert(acc + Seq::<(Seq<char>, Seq<char>)>::empty() =~= acc);
    }
    out
}

/// A header name as a client writes it: non-empty visible ASCII, without
/// spaces or a colon.
pub open spec fn plain_header_name(name: Seq<char>) -> bool {
    &&& name.len() > 0
    &&& forall|i: int| 0 <= i < name.len() ==> '!' <= #[trigger] name[i] <= '~' && name[i] != ':'
}

/// A header value as a client writes it: visible ASCII, without spaces at
/// either end.
pub open spec fn plain_header_value(value: Seq<char>) -> bool {
    &&& forall|i: int| 0 <= i < value.len() ==> ' ' <= #[trigger] value[i] <= '~'
    &&& value.len() > 0 ==> value[0] != ' ' && value.last() != ' '
}

/// The header line `Name: value`.
pub open spec fn header_line(h: (Seq<char>, Seq<char>)) -> Seq<char> {
    h.0 + seq![':', ' '] + h.1
}

/// Header lines as a client writes them, each ended by a line break.
pub open spec fn header_lines_text(headers: Seq<(Seq<char>, Seq<char>)>) -> Seq<char>
    decreases headers.len(),
{
    if headers.len() == 0 {
        seq![]
    } else {
        header_line(headers[0]) + crlf() + header_lines_text(headers.drop_first())
    }
}

/// A request as a client writes it: the request line, the header lines,
/// a blank line and the body.
pub open spec fn request_text(
    request_line: Seq<char>,
    headers: Seq<(Seq<char>, Seq<char>)>,
    body: Seq<char>,
) -> Seq<char> {
    request_line + crlf() + header_lines_text(headers) + crlf() + body
}

proof fn lemma_not_white_space(c: char)
    requires
        '!' <= c <= '~',
    ensures
        !crate::text::is_white_space(c),
{
}

/// The lines after the request line: the header lines, an empty line, and
/// the lines of the body.
proof fn lemma_header_lines_split(headers: Seq<(Seq<char>, Seq<char>)>, body: Seq<char>)
    requires
        forall|i: int|
            0 <= i < headers.len() ==> plain_header_name(#[trigger] headers[i].0)
                && plain_header_value(headers[i].1),
    ensures
        split(header_lines_text(headers) + crlf() + body, crlf()) == headers.map_values(
            |h: (Seq<char>, Seq<char>)| header_line(h),
        ) + seq![Seq::<char>::empty()] + split(body, crlf()),
        header_line_pairs(
            headers.map_values(|h: (Seq<char>, Seq<char>)| header_line(h)) + seq![Seq::<char>::empty()]
                + split(body, crlf()),
        ) == headers,
    decreases headers.len(),
{
    let u = header_lines_text(headers) + crlf() + body;
    let ls = headers.map_values(|h: (Seq<char>, Seq<char>)| header_line(h));
    let tail = seq![Seq::<char>::empty()] + split(body, crlf());
    if headers.len() == 0 {
        assert(header_lines_text(headers) =~= Seq::<char>::empty());
        assert(u =~= crlf() + body);
        assert(u.subrange(0, 2) =~= crlf());
        crate::text::lemma_split_step(u, crlf(), 0, 0);
        crate::text::lemma_split_from_shift(crlf(), body, crlf(), 0);
        assert(u.subrange(0, 0) =~= Seq::<char>::empty());
        assert(ls =~= Seq::<Seq<char>>::empty());
        assert(ls + tail =~= tail);
        assert(tail[0].len() == 0);
        assert(header_line_pairs(tail) =~= Seq::<(Seq<char>, Seq<char>)>::empty());
        assert(header_line_pairs(ls + tail) == headers);
    } else {
        let h = headers[0];
        let rest = headers.drop_first();
        assert forall|i: int| 0 <= i < rest.len() implies plain_header_name(#[trigger] rest[i].0)
            && plain_header_value(rest[i].1) by {
            assert(rest[i] == headers[i + 1]);
            assert(plain_header_name(headers[i + 1].0));
        }
        lemma_header_lines_split(rest, body);
        assert(plain_header_name(h.0) && plain_header_value(h.1));
        let line = header_line(h);
        let n = h.0.len() as int;
        let u2 = header_lines_text(rest) + crlf() + body;
        let x = line + crlf();
        assert(u =~= x + u2);
        assert forall|j: int| 0 <= j < line.len() implies u[j] != crlf()[0] by {
            assert(u[j] == line[j]);
            assert(crlf()[0] == '\r');
            if j < n {
                assert(line[j] == h.0[j]);
            } else if j == n {
                assert(line[j] == ':');
            } else if j == n + 1 {
                assert(line[j] == ' ');
            } else {
                assert(line[j] == h.1[j - n - 2]);
            }
        }
        assert(u.subrange(line.len() as int, line.len() + 2int) =~= crlf());
        crate::text::lemma_split_step(u, crlf(), 0, line.len() as int);
        crate::text::lemma_split_from_shift(x, u2, crlf(), 0);
        assert(u.subrange(0, line.len() as int) =~= line);
        let lr = rest.map_values(|h: (Seq<char>, Seq<char>)| header_line(h));
        assert(ls =~= seq![line] + lr);
        assert(split(u, crlf()) =~= ls + tail);
        // the first line reads back as its header
        assert(line[n] == ':');
        assert forall|j: int| 0 <= j < n implies line[j] != ':' by {
            assert(line[j] == h.0[j]);
        }
        crate::text::lemma_split_once_at(line, ':', n);
        assert(line.take(n) =~= h.0);
        let v = line.skip(n + 1);
        assert(v =~= seq![' '] + h.1);
        lemma_not_white_space(h.0[0]);
        lemma_not_white_space(h.0.last());
        crate::text::lemma_trim_fixed(h.0);
        assert(v[0] == ' ');
        assert(v.drop_first() =~= h.1);
        assert(trim_start(v) == trim_start(h.1));
        if h.1.len() > 0 {
            lemma_not_white_space(h.1[0]);
            lemma_not_white_space(h.1.last());
            crate::text::lemma_trim_fixed(h.1);
            assert(trim_start(h.1) == h.1);
        } else {
            assert(trim_start(h.1) == h.1);
            assert(trim_end(h.1) == h.1);
        }
        assert(trim(v) == h.1);
        assert(trim(h.0) == h.0);
        assert(split_once(line, seq![':']) == Some((h.0, v)));
        let all = ls + tail;
        assert(all[0] == line);
        assert(line.len() > 0);
        assert(all.drop_first() =~= lr + tail);
        assert(lr + seq![Seq::<char>::empty()] + split(body, crlf()) =~= lr + tail);
        assert(header_line_pairs(lr + tail) == rest);
        assert(header_line_pairs(all) == seq![(h.0, h.1)] + rest);
        assert(headers =~= seq![h] + rest);
    }
}

/// A request head written with plain header names and values reads back
/// as those headers, with their names in the case they were written in;
/// the body after the blank line plays no part.
pub proof fn lemma_request_head_reads_back(
    request_line: Seq<char>,
    headers: Seq<(Seq<char>, Seq<char>)>,
    body: Seq<char>,
)
    requires
        !request_line.contains('\r'),
        forall|i: int|
            0 <= i < headers.len() ==> plain_header_name(#[trigger] headers[i].0)
                && plain_header_value(headers[i].1),
    ensures
        raw_headers_spec(vstd::utf8::encode_utf8(request_text(request_line, headers, body)))
            == map_of_pairs(headers),
{
    let t = request_text(request_line, headers, body);
    vstd::utf8::encode_utf8_valid_utf8(t);
    vstd::utf8::encode_utf8_decode_utf8(t);
    assert(lossy_text(vstd::utf8::encode_utf8(t)) == t);
    let x = request_line + crlf();
    let u = header_lines_text(headers) + crlf() + body;
    assert(t =~= x + u);
    let n = request_line.len() as int;
    assert(t.subrange(n, n + 2) =~= crlf());
    assert forall|j: int| 0 <= j < n implies t[j] != crlf()[0] by {
        assert(t[j] == request_line[j]);
        assert(crlf()[0] == '\r');
    }
    crate::text::lemma_split_step(t, crlf(), 0, n);
    crate::text::lemma_split_from_shift(x, u, crlf(), 0);
    lemma_header_lines_split(headers, body);
    let lines = split(t, crlf());
    assert(lines.drop_first() =~= split(u, crlf()));
}

/// The result of taking in `chunk`, the next bytes read from the stream,
/// with `raw` the bytes of the head read so far: the head read now, the
/// bytes after it that wait to be replayed, and whether the head is
/// complete. An empty chunk (the stream ended) completes it as it is; a
/// chunk that brings the blank line completes it up to that line.
pub open spec fn fed(raw: Seq<u8>, chunk: Seq<u8>) -> (Seq<u8>, Seq<u8>, bool) {
    if chunk.len() == 0 {
        (raw, Seq::empty(), true)
    } else {
        let whole = raw + chunk;
        match first_match_from(whole, header_terminator(), 0) {
            Some(k) => (whole.take(k + 4), whole.skip(k + 4), true),
            None => (whole, Seq::empty(), false),
        }
    }
}

/// Reading the head from `chunks`, one after another, starting from the
/// head `raw`: the head read, the bytes after it, and how many chunks were
/// taken (reading stops at the chunk that completes the head).
pub open spec fn read_head(raw: Seq<u8>, chunks: Seq<Seq<u8>>) -> (Seq<u8>, Seq<u8>, nat)
    decreases chunks.len(),
{
    if chunks.len() == 0 {
        (raw, Seq::empty(), 0)
    } else {
        let (r, p, done) = fed(raw, chunks[0]);
        if done {
            (r, p, 1)
        } else {
            let (r2, p2, n) = read_head(r, chunks.drop_first());
            (r2, p2, n + 1)
        }
    }
}

/// The bytes of `chunks`, one after another.
pub open spec fn concat_chunks(chunks: Seq<Seq<u8>>) -> Seq<u8>
    decreases chunks.len(),
{
    if chunks.len() == 0 {
        Seq::empty()
    } else {
        chunks[0] + concat_chunks(chunks.drop_first())
    }
}

/// However the stream splits into chunks, reading the head loses and
/// reorders nothing: the head read followed by the bytes after it (what
/// `HeaderPeeker::finish` then replays) is exactly what was read, and the
/// head ends at its first blank line when one was read, and is all that was
/// read when none was.
pub proof fn lemma_read_head_keeps_every_byte(raw: Seq<u8>, chunks: Seq<Seq<u8>>)
    requires
        first_match_from(raw, header_terminator(), 0) is None,
    ensures
        ({
            let (r, p, n) = read_head(raw, chunks);
            &&& n <= chunks.len()
            &&& r + p == raw + concat_chunks(chunks.take(n as int))
            &&& (first_match_from(raw + concat_chunks(chunks.take(n as int)), header_terminator(), 0)
                matches Some(k) ==> r.len() == k + 4)
            &&& (first_match_from(raw + concat_chunks(chunks.take(n as int)), header_terminator(), 0)
                is None ==> p.len() == 0)
        }),
    decreases chunks.len(),
{
    if chunks.len() > 0 {
        let c = chunks[0];
        let whole = raw + c;
        let (r, p, done) = fed(raw, c);
        assert(chunks.take(1) =~= seq![c]);
        assert(seq![c].drop_first() =~= Seq::<Seq<u8>>::empty());
        assert(concat_chunks(seq![c].drop_first()) == Seq::<u8>::empty());
        assert(c + Seq::<u8>::empty() =~= c);
        assert(concat_chunks(chunks.take(1)) =~= c);
        if done {
            if c.len() > 0 {
                match first_match_from(whole, header_terminator(), 0) {
                    Some(k) => {
                        crate::byte_seq::lemma_first_match_from(whole, header_terminator(), 0);
                        assert(whole.take(k + 4) + whole.skip(k + 4) =~= whole);
                    },
                    None => {},
                }
            } else {
                assert(raw + c =~= raw);
                assert(r + p =~= raw);
            }
        } else {
            let rest = chunks.drop_first();
            lemma_read_head_keeps_every_byte(whole, rest);
            let (r2, p2, n) = read_head(whole, rest);
            assert(chunks.take((n + 1) as int).drop_first() =~= rest.take(n as int));
            assert(chunks.take((n + 1) as int)[0] == c);
            assert(concat_chunks(chunks.take((n + 1) as int)) == c + concat_chunks(rest.take(n as int)));
            assert(raw + concat_chunks(chunks.take((n + 1) as int)) =~= whole + concat_chunks(rest.take(n as int)));
        }
    } else {
        assert(chunks.take(0) =~= Seq::<Seq<u8>>::empty());
        assert(raw + Seq::<u8>::empty() =~= raw);
    }
}

/// Reads the head of an HTTP/1.1 request from a stream and replays the
/// bytes it read, so that whoever reads the stream next sees them all.
pub struct HeaderPeeker<S> {
    inner: S,
    buf: Vec<u8>,
    buf_pos: usize,
}

impl<S> HeaderPeeker<S> {
    /// The bytes still to be replayed before reading from the stream again.
    pub closed spec fn pending(&self) -> Seq<u8> {
        if self.buf_pos <= self.buf@.len() {
            self.buf@.subrange(self.buf_pos as int, self.buf@.len() as int)
        } else {
            Seq::empty()
        }
    }

    /// The stream that is read.
    pub closed spec fn stream(&self) -> S {
        self.inner
    }

    /// A peeker over `inner` with nothing to replay.
    pub fn new(inner: S) -> (res: Self)
        ensures
            res.pending() == Seq::<u8>::empty(),
            res.stream() == inner,
    {
        let res = HeaderPeeker { inner, buf: Vec::new(), buf_pos: 0 };
        assert(res.pending() =~= Seq::<u8>::empty());
        res
    }

    /// Takes in the next `chunk` read from the stream, with `raw` the bytes
    /// of the head read so far. Returns `true` when the head is complete:
    /// the chunk is empty (the stream ended), or `raw` now holds the head
    /// up to its blank line and the bytes after it wait to be replayed.
    pub fn feed(&mut self, raw: &mut Vec<u8>, chunk: &[u8]) -> (done: bool)
        requires
            old(self).pending() == Seq::<u8>::empty(),
        ensures
            (final(raw)@, final(self).pending(), done) == fed(old(raw)@, chunk@),
            final(self).stream() == old(self).stream(),
    {
        if chunk.len() == 0 {
            assert(old(raw)@ + chunk@ =~= old(raw)@);
            assert(raw@ + self.pending() =~= raw@);
            return true;
        }
        let mut i: usize = 0;
        let ghost start = raw@;
        while i < chunk.len()
            invariant
                i <= chunk@.len(),
                raw@ == start + chunk@.take(i as int),
            decreases chunk.len() - i,
        {
            raw.push(chunk[i]);
            i = i + 1;
            assert(raw@ =~= start + chunk@.take(i as int));
        }
        assert(chunk@.take(chunk@.len() as int) =~= chunk@);
        let rl = raw.len();
        match find_header_end(raw.as_slice()) {
            Some(body_start) => {
                proof {
                    crate::byte_seq::lemma_first_match_from(raw@, header_terminator(), 0);
                }
                let ghost whole = raw@;
                let ghost k = first_match_from(whole, header_terminator(), 0)->0;
                assert(body_start == k + 4);
                let body = raw.split_off(body_start);
                proof {
                    assert(whole =~= raw@ + body@);
                    assert(raw@ =~= whole.take(body_start as int));
                    crate::byte_seq::lemma_first_match_prefix(whole, header_terminator(), raw@.len() as int);
                }
                self.buf_pos = 0;
                self.buf = body;
                assert(self.pending() =~= body@);
                true
            },
            None => {
                assert(raw@ + self.pending() =~= raw@);
                false
            },
        }
    }

    /// Ends the read of the head `raw`: parses its headers and sets up the
    /// replay of the whole head followed by what was read after it.
    pub fn finish(&mut self, raw: Vec<u8>) -> (headers: StrMap<String>)
        ensures
            headers@ == raw_headers_spec(raw@),
            final(self).pending() == raw@ + old(self).pending(),
            final(self).stream() == old(self).stream(),
    {
        let headers = parse_raw_headers(raw.as_slice());
        let ghost rest = self.pending();
        let mut replay = raw;
        if self.buf_pos > self.buf.len() {
            self.buf_pos = self.buf.len();
        }
        assert(rest == self.buf@.subrange(self.buf_pos as int, self.buf@.len() as int));
        let mut j: usize = self.buf_pos;
        let ghost start = replay@;
        while j < self.buf.len()
            invariant
                self.buf_pos <= j <= self.buf@.len(),
                rest == self.buf@.subrange(self.buf_pos as int, self.buf@.len() as int),
                replay@ == start + self.buf@.subrange(self.buf_pos as int, j as int),
            decreases self.buf.len() - j,
        {
            replay.push(self.buf[j]);
            j = j + 1;
            assert(replay@ =~= start + self.buf@.subrange(self.buf_pos as int, j as int));
        }
        self.buf_pos = 0;
        self.buf = replay;
        assert(self.pending() =~= start + rest);
        headers
    }

    /// Whether bytes remain to be replayed.
    pub fn has_pending(&self) -> (res: bool)
        ensures
            res == (self.pending().len() > 0),
    {
        self.buf_pos < self.buf.len()
    }

    /// Hands out up to `max` of the bytes that remain to be replayed, in
    /// order.
    pub fn read_pending(&mut self, max: usize) -> (out: Vec<u8>)
        ensures
            out@ + final(self).pending() == old(self).pending(),
            out@.len() == if old(self).pending().len() < max {
                old(self).pending().len()
            } else {
                max as nat
            },
            final(self).stream() == old(self).stream(),
    {
        if self.buf_pos >= self.buf.len() {
            let out: Vec<u8> = Vec::new();
            assert(out@ + self.pending() =~= old(self).pending());
            return out;
        }
        let remaining = self.buf.len() - self.buf_pos;
        let n = if remaining < max {
            remaining
        } else {
            max
        };
        let mut out: Vec<u8> = Vec::new();
        let mut k: usize = 0;
        let pos = self.buf_pos;
        let blen = self.buf.len();
        while k < n
            invariant
                k <= n,
                blen == self.buf@.len(),
                pos + n <= blen,
                pos == self.buf_pos,
                out@ == self.buf@.subrange(pos as int, pos + k),
            decreases n - k,
        {
            out.push(self.buf[pos + k]);
            k = k + 1;
            assert(out@ =~= self.buf@.subrange(pos as int, pos + k));
        }
        self.buf_pos = pos + n;
        assert(out@ + self.pending() =~= old(self).pending());
        out
    }

    /// The stream, to read from once nothing remains to be replayed.
    pub fn stream_mut(&mut self) -> (res: &mut S)
        ensures
            *res == old(self).stream(),
            final(self).pending() == old(self).pending(),
            final(self).stream() == *final(res),
    {
        &mut self.inner
    }
}

/// A service wrapper that hands the headers of the connection, with their
/// original case, to every request it passes on.
pub struct InjectRawHeaders<S> {
    inner: S,
    raw_headers: StrMap<String>,
}

impl<S> InjectRawHeaders<S> {
    /// Wraps `inner` with the headers `raw_headers`.
    pub fn new(inner: S, raw_headers: StrMap<String>) -> (res: Self)
        ensures
            res.service() == inner,
            res.headers()@ == raw_headers@,
    {
        InjectRawHeaders { inner, raw_headers }
    }

    /// The wrapped service.
    pub closed spec fn service(&self) -> S {
        self.inner
    }

    /// The headers handed on.
    pub closed spec fn headers(&self) -> StrMap<String> {
        self.raw_headers
    }

    /// The headers handed on with each request.
    pub fn raw_headers(&self) -> (res: &StrMap<String>)
        ensures
            res@ == self.headers()@,
    {
        &self.raw_headers
    }

    /// The wrapped service, to call.
    pub fn service_mut(&mut self) -> (res: &mut S)
        ensures
            *res == old(self).service(),
            final(self).service() == *final(res),
            final(self).headers() == old(self).headers(),
    {
        &mut self.inner
    }
}

} // verus!
