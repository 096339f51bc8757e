//! Searching, splitting and trimming byte strings.

use vstd::prelude::*;

verus! {

/// `p` occurs in `s` starting at index `i`.
pub open spec fn matches_at(s: Seq<u8>, p: Seq<u8>, i: int) -> bool {
    &&& 0 <= i
    &&& i + p.len() <= s.len()
    &&& s.subrange(i, i + p.len()) == p
}

/// The first index `>= i` at which `p` occurs in `s`, if any.
pub open spec fn first_match_from(s: Seq<u8>, p: Seq<u8>, i: int) -> Option<int>
    decreases s.len() + 1 - i,
{
    if i < 0 || i + p.len() > s.len() {
        None
    } else if matches_at(s, p, i) {
        Some(i)
    } else {
        first_match_from(s, p, i + 1)
    }
}

/// An optional index, shifted by `by`, as a machine index.
pub open spec fn shift_index(o: Option<int>, by: int) -> Option<usize> {
    match o {
        Some(k) => Some((k + by) as usize),
        None => None,
    }
}

/// What `first_match_from` finds: a match, with none before it.
pub proof fn lemma_first_match_from(s: Seq<u8>, p: Seq<u8>, i: int)
    requires
        0 <= i,
    ensures
        first_match_from(s, p, i) matches Some(k) ==> {
            &&& i <= k
            &&& matches_at(s, p, k)
            &&& forall|j: int| i <= j < k ==> !matches_at(s, p, j)
        },
        first_match_from(s, p, i) is None ==> forall|j: int| i <= j ==> !matches_at(s, p, j),
    decreases s.len() + 1 - i,
{
    if i + p.len() > s.len() {
    } else if matches_at(s, p, i) {
    } else {
        lemma_first_match_from(s, p, i + 1);
    }
}

/// A match with none before it is the first match.
pub proof fn lemma_first_match_at(s: Seq<u8>, p: Seq<u8>, i: int, k: int)
    requires
        0 <= i <= k,
        matches_at(s, p, k),
        forall|j: int| i <= j < k ==> !matches_at(s, p, j),
    ensures
        first_match_from(s, p, i) == Some(k),
{
    lemma_first_match_from(s, p, i);
}

/// A first match that ends within a prefix of `s` is the first match in
/// that prefix.
pub proof fn lemma_first_match_prefix(s: Seq<u8>, p: Seq<u8>, n: int)
    requires
        0 <= n <= s.len(),
        first_match_from(s, p, 0) matches Some(k) && k + p.len() <= n,
    ensures
        first_match_from(s.take(n), p, 0) == first_match_from(s, p, 0),
{
    lemma_first_match_from(s, p, 0);
    lemma_first_match_from(s.take(n), p, 0);
    let k = first_match_from(s, p, 0)->0;
    assert(s.take(n).subrange(k, k + p.len()) =~= s.subrange(k, k + p.len()));
    assert forall|j: int| 0 <= j < k implies !matches_at(s.take(n), p, j) by {
        if matches_at(s.take(n), p, j) {
            assert(s.take(n).subrange(j, j + p.len()) =~= s.subrange(j, j + p.len()));
            assert(matches_at(s, p, j));
        }
    }
    match first_match_from(s.take(n), p, 0) {
        Some(k2) => {
            if k2 > k {
                assert(matches_at(s.take(n), p, k));
            }
        },
        None => {
            assert(matches_at(s.take(n), p, k));
        },
    }
}

/// Tests whether `p` occurs in `s` at `i`.
fn match_at(s: &[u8], p: &[u8], i: usize) -> (res: bool)
    requires
        i <= s.len(),
    ensures
        res == matches_at(s@, p@, i as int),
{
    if p.len() > s.len() - i {
        return false;
    }
    let mut k: usize = 0;
    while k < p.len()
        invariant
            k <= p.len(),
            i + p.len() <= s.len(),
            forall|j: int| 0 <= j < k ==> s@[i + j] == p@[j],
        decreases p.len() - k,
    {
        if s[i + k] != p[k] {
            assert(s@.subrange(i as int, i + p.len())[k as int] != p@[k as int]);
            return false;
        }
        k = k + 1;
    }
    assert(s@.subrange(i as int, i + p.len()) =~= p@);
    true
}

/// Scans `s` from `from` for the first occurrence of `p`.
fn find_from(s: &[u8], p: &[u8], from: usize) -> (res: Option<usize>)
    requires
        from <= s.len(),
    ensures
        res == shift_index(first_match_from(s@, p@, from as int), 0),
{
    let mut i = from;
    while p.len() <= s.len() - i
        invariant
            from <= i <= s.len(),
            first_match_from(s@, p@, from as int) == first_match_from(s@, p@, i as int),
        decreases s.len() - i,
    {
        if match_at(s, p, i) {
            return Some(i);
        }
        if i == s.len() {
            assert(s@.subrange(i as int, i as int) =~= p@);
            return None;
        }
        i = i + 1;
    }
    None
}

/// The index of the first occurrence of `needle` in `haystack`; an empty
/// needle occurs at 0.
pub fn find_subsequence(haystack: &[u8], needle: &[u8]) -> (res: Option<usize>)
    ensures
        needle@.len() == 0 ==> res == Some(0usize),
        needle@.len() > 0 ==> res == shift_index(first_match_from(haystack@, needle@, 0), 0),
{
    if needle.len() == 0 {
        return Some(0);
    }
    find_from(haystack, needle, 0)
}

/// The blank line that ends an HTTP/1.1 header block.
pub open spec fn header_terminator() -> Seq<u8> {
    seq![13u8, 10u8, 13u8, 10u8]
}

/// The position just past the first `\r\n\r\n` in `data`: where the body
/// of an HTTP/1.1 message starts.
pub fn find_header_end(data: &[u8]) -> (res: Option<usize>)
    ensures
        res == shift_index(first_match_from(data@, header_terminator(), 0), 4),
{
    let term: Vec<u8> = vec![13u8, 10u8, 13u8, 10u8];
    assert(term@ =~= header_terminator());
    match find_from(data, term.as_slice(), 0) {
        Some(p) => {
            proof {
                lemma_first_match_from(data@, header_terminator(), 0);
            }
            Some(p + 4)
        },
        None => None,
    }
}

/// `haystack` without `prefix`, when it starts with it.
pub fn strip_prefix<'a>(haystack: &'a [u8], prefix: &[u8]) -> (res: Option<&'a [u8]>)
    ensures
        matches_at(haystack@, prefix@, 0) ==> (res matches Some(r) && r@ == haystack@.skip(
            prefix@.len() as int,
        )),
        !matches_at(haystack@, prefix@, 0) ==> res is None,
{
    if match_at(haystack, prefix, 0) {
        Some(&haystack[prefix.len()..haystack.len()])
    } else {
        None
    }
}

/// `haystack` without `suffix`, when it ends with it.
pub fn strip_suffix<'a>(haystack: &'a [u8], suffix: &[u8]) -> (res: Option<&'a [u8]>)
    ensures
        matches_at(haystack@, suffix@, haystack@.len() - suffix@.len()) ==> (res matches Some(r)
            && r@ == haystack@.take(haystack@.len() - suffix@.len())),
        !matches_at(haystack@, suffix@, haystack@.len() - suffix@.len()) ==> res is None,
{
    if suffix.len() <= haystack.len() && match_at(haystack, suffix, haystack.len() - suffix.len()) {
        Some(&haystack[0..haystack.len() - suffix.len()])
    } else {
        None
    }
}

/// The pieces of `s` from index `start` on, cut at each leftmost
/// non-overlapping occurrence of the non-empty `p`.
pub open spec fn split_from(s: Seq<u8>, p: Seq<u8>, start: int) -> Seq<Seq<u8>>
    recommends
        p.len() > 0,
        0 <= start <= s.len(),
    decreases s.len() - start,
{
    if p.len() == 0 || start < 0 || start > s.len() {
        seq![s.subrange(start, s.len() as int)]
    } else {
        match first_match_from(s, p, start) {
            Some(k) => if start <= k && k + p.len() <= s.len() {
                seq![s.subrange(start, k)] + split_from(s, p, k + p.len())
            } else {
                seq![]
            },
            None => seq![s.subrange(start, s.len() as int)],
        }
    }
}

/// The pieces of `s` cut at each occurrence of `p`; the whole of `s` when
/// `p` is empty.
pub open spec fn split_bytes(s: Seq<u8>, p: Seq<u8>) -> Seq<Seq<u8>> {
    if p.len() == 0 {
        seq![s]
    } else {
        split_from(s, p, 0)
    }
}

/// The pieces joined back together with `p` between them.
pub open spec fn join_bytes(parts: Seq<Seq<u8>>, p: Seq<u8>) -> Seq<u8>
    decreases parts.len(),
{
    if parts.len() == 0 {
        seq![]
    } else if parts.len() == 1 {
        parts[0]
    } else {
        parts[0] + p + join_bytes(parts.drop_first(), p)
    }
}

/// Cutting gives at least one piece, the first running up to the first
/// occurrence of `p` (or to the end).
pub proof fn lemma_split_from_nonempty(s: Seq<u8>, p: Seq<u8>, start: int)
    requires
        p.len() > 0,
        0 <= start <= s.len(),
    ensures
        split_from(s, p, start).len() >= 1,
        split_from(s, p, start)[0] == s.subrange(
            start,
            match first_match_from(s, p, start) {
                Some(k) => k,
                None => s.len() as int,
            },
        ),
{
    lemma_first_match_from(s, p, start);
}

/// Cutting at each occurrence of `p` and joining the pieces back with `p`
/// gives the bytes that were cut.
pub proof fn lemma_split_join(s: Seq<u8>, p: Seq<u8>, start: int)
    requires
        p.len() > 0,
        0 <= start <= s.len(),
    ensures
        join_bytes(split_from(s, p, start), p) == s.subrange(start, s.len() as int),
    decreases s.len() - start,
{
    lemma_first_match_from(s, p, start);
    match first_match_from(s, p, start) {
        Some(k) => {
            let rest = split_from(s, p, k + p.len());
            lemma_split_join(s, p, k + p.len());
            lemma_split_from_nonempty(s, p, k + p.len());
            let parts = split_from(s, p, start);
            assert(parts =~= seq![s.subrange(start, k)] + rest);
            assert(parts.drop_first() =~= rest);
            assert(s.subrange(k, k + p.len()) == p);
            assert(s.subrange(start, s.len() as int) =~= s.subrange(start, k) + p + s.subrange(
                k + p.len(),
                s.len() as int,
            ));
        },
        None => {},
    }
}

/// A piece of `s` that ends where `s` holds no occurrence of `p` from
/// `start` to `end` holds no occurrence of `p`.
proof fn lemma_no_match_in_piece(s: Seq<u8>, p: Seq<u8>, start: int, end: int, piece: Seq<u8>)
    requires
        0 <= start,
        piece == s.subrange(start, start + piece.len()),
        start + piece.len() <= s.len(),
        forall|q: int| start <= q < end ==> !matches_at(s, p, q),
        start + piece.len() - p.len() < end,
    ensures
        forall|j: int| !matches_at(piece, p, j),
{
    assert forall|j: int| !matches_at(piece, p, j) by {
        if matches_at(piece, p, j) {
            assert(piece.subrange(j, j + p.len()) =~= s.subrange(start + j, start + j + p.len()));
            assert(matches_at(s, p, start + j));
        }
    }
}

/// The cuts are at the leftmost occurrences of `p`: no piece holds `p`,
/// not even with the start of the `p` that ends it, and neither does the
/// last piece.
pub proof fn lemma_split_pieces_hold_no_needle(s: Seq<u8>, p: Seq<u8>, start: int)
    requires
        p.len() > 0,
        0 <= start <= s.len(),
    ensures
        forall|k: int, j: int|
            0 <= k < split_from(s, p, start).len() - 1 ==> !#[trigger] matches_at(
                split_from(s, p, start)[k] + p.take(p.len() - 1),
                p,
                j,
            ),
        forall|j: int|
            !#[trigger] matches_at(split_from(s, p, start)[split_from(s, p, start).len() - 1], p, j),
    decreases s.len() - start,
{
    let pieces = split_from(s, p, start);
    lemma_first_match_from(s, p, start);
    match first_match_from(s, p, start) {
        Some(m) => {
            let next = m + p.len();
            lemma_split_pieces_hold_no_needle(s, p, next);
            lemma_split_from_nonempty(s, p, next);
            let rest = split_from(s, p, next);
            let first = s.subrange(start, m) + p.take(p.len() - 1);
            assert(first =~= s.subrange(start, m + p.len() - 1)) by {
                assert(s.subrange(m, m + p.len()) == p);
            }
            lemma_no_match_in_piece(s, p, start, m, first);
            assert(pieces =~= seq![s.subrange(start, m)] + rest);
            assert forall|k: int, j: int| 0 <= k < pieces.len() - 1 implies !#[trigger] matches_at(
                pieces[k] + p.take(p.len() - 1),
                p,
                j,
            ) by {
                if k > 0 {
                    assert(pieces[k] == rest[k - 1]);
                    assert(!matches_at(rest[k - 1] + p.take(p.len() - 1), p, j));
                } else {
                    assert(pieces[0] == s.subrange(start, m));
                    assert(!matches_at(first, p, j));
                }
            }
            assert(pieces[pieces.len() - 1] == rest[rest.len() - 1]);
        },
        None => {
            let last = s.subrange(start, s.len() as int);
            assert(pieces =~= seq![last]);
            lemma_no_match_in_piece(s, p, start, s.len() + 1int, last);
        },
    }
}

/// Searching `x + y` from inside `y` is searching `y`, shifted by the
/// length of `x`.
pub proof fn lemma_first_match_shift(x: Seq<u8>, y: Seq<u8>, p: Seq<u8>, k: int)
    requires
        0 <= k,
    ensures
        first_match_from(x + y, p, x.len() + k) == match first_match_from(y, p, k) {
            Some(m) => Some(x.len() + m),
            None => None::<int>,
        },
    decreases y.len() + 1 - k,
{
    let s = x + y;
    let i = x.len() + k;
    if k + p.len() > y.len() {
    } else {
        assert(s.subrange(i, i + p.len()) =~= y.subrange(k, k + p.len()));
        if !matches_at(y, p, k) {
            lemma_first_match_shift(x, y, p, k + 1);
        }
    }
}

/// Cutting `x + y` from inside `y` cuts `y` alone.
pub proof fn lemma_split_from_shift(x: Seq<u8>, y: Seq<u8>, p: Seq<u8>, k: int)
    requires
        p.len() > 0,
        0 <= k <= y.len(),
    ensures
        split_from(x + y, p, x.len() + k) == split_from(y, p, k),
    decreases y.len() - k,
{
    let s = x + y;
    let i = x.len() + k;
    lemma_first_match_shift(x, y, p, k);
    lemma_first_match_from(y, p, k);
    match first_match_from(y, p, k) {
        Some(m) => {
            assert(s.subrange(i, x.len() + m) =~= y.subrange(k, m));
            lemma_split_from_shift(x, y, p, m + p.len());
        },
        None => {
            assert(s.subrange(i, s.len() as int) =~= y.subrange(k, y.len() as int));
        },
    }
}

/// Splits `haystack` at each leftmost non-overlapping occurrence of
/// `needle`; an empty needle leaves it whole.
pub fn split_on<'a>(haystack: &'a [u8], needle: &[u8]) -> (res: Vec<&'a [u8]>)
    ensures
        res@.len() == split_bytes(haystack@, needle@).len(),
        forall|i: int| 0 <= i < res@.len() ==> #[trigger] res@[i]@ == split_bytes(haystack@, needle@)[i],
{
    if needle.len() == 0 {
        let mut out: Vec<&'a [u8]> = Vec::new();
        out.push(haystack);
        return out;
    }
    let ghost hs = haystack@;
    let ghost ns = needle@;
    let ghost mut done: Seq<Seq<u8>> = seq![];
    let mut out: Vec<&'a [u8]> = Vec::new();
    let mut start: usize = 0;
    let mut i: usize = 0;
    while i <= haystack.len() && needle.len() <= haystack.len() - i
        invariant
            needle@.len() > 0,
            start <= i,
            i <= haystack@.len() + 1,
            start <= haystack@.len(),
            first_match_from(hs, ns, start as int) == first_match_from(hs, ns, i as int),
            hs == haystack@,
            ns == needle@,
            out@.len() == done.len(),
            forall|j: int| 0 <= j < out@.len() ==> (#[trigger] out@[j])@ == done[j],
            split_from(hs, ns, 0) == done + split_from(hs, ns, start as int),
        decreases haystack.len() + 1 - i,
    {
        if match_at(haystack, needle, i) {
            let piece = &haystack[start..i];
            proof {
                lemma_first_match_from(hs, ns, start as int);
                let rest = split_from(hs, ns, (i + needle.len()) as int);
                assert(split_from(hs, ns, start as int) == seq![hs.subrange(start as int, i as int)]
                    + rest);
                assert(done + split_from(hs, ns, start as int) =~= done.push(
                    hs.subrange(start as int, i as int),
                ) + rest);
                done = done.push(hs.subrange(start as int, i as int));
            }
            out.push(piece);
            start = i + needle.len();
            i = start;
        } else {
            i = i + 1;
        }
    }
    let last = &haystack[start..haystack.len()];
    proof {
        lemma_first_match_from(hs, ns, i as int);
        lemma_first_match_from(hs, ns, start as int);
        assert(split_from(hs, ns, start as int) == seq![hs.subrange(start as int, hs.len() as int)]);
        done = done.push(hs.subrange(start as int, hs.len() as int));
    }
    out.push(last);
    out
}

} // verus!
