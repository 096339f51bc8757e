//! Character-string utilities.

use vstd::prelude::*;

use crate::byte_seq::shift_index;

verus! {

broadcast use vstd::string::group_string_axioms;

/// The characters of `s`, in order.
pub fn chars_of(s: &str) -> (res: Vec<char>)
    ensures
        res@ == s@,
{
    let mut v: Vec<char> = Vec::new();
    for c in it: s.chars()
        invariant
            v@ == it.seq().take(it.index() as int),
    {
        v.push(c);
    }
    v
}

/// `p` occurs in `s` starting at index `i`.
pub open spec fn occurs_at(s: Seq<char>, p: Seq<char>, i: int) -> bool {
    &&& 0 <= i
    &&& i + p.len() <= s.len()
    &&& s.subrange(i, i + p.len()) == p
}

/// The first index `>= i` at which `p` occurs in `s`, if any.
pub open spec fn first_occurrence_from(s: Seq<char>, p: Seq<char>, i: int) -> Option<int>
    decreases s.len() + 1 - i,
{
    if i < 0 || i + p.len() > s.len() {
        None
    } else if occurs_at(s, p, i) {
        Some(i)
    } else {
        first_occurrence_from(s, p, i + 1)
    }
}

/// The first occurrence of `p` in `s`, if any.
pub open spec fn first_occurrence(s: Seq<char>, p: Seq<char>) -> Option<int> {
    first_occurrence_from(s, p, 0)
}

/// What `first_occurrence_from` finds: an occurrence, with none before it.
pub proof fn lemma_first_occurrence_from(s: Seq<char>, p: Seq<char>, i: int)
    requires
        0 <= i,
    ensures
        first_occurrence_from(s, p, i) matches Some(k) ==> {
            &&& i <= k
            &&& occurs_at(s, p, k)
            &&& forall|j: int| i <= j < k ==> !occurs_at(s, p, j)
        },
        first_occurrence_from(s, p, i) is None ==> forall|j: int|
            i <= j ==> !occurs_at(s, p, j),
    decreases s.len() + 1 - i,
{
    if i + p.len() > s.len() {
    } else if occurs_at(s, p, i) {
    } else {
        lemma_first_occurrence_from(s, p, i + 1);
    }
}

/// Tests whether `p` occurs in `s` at `i`.
pub fn occurs_at_exec(s: &[char], p: &[char], i: usize) -> (res: bool)
    requires
        i <= s.len(),
    ensures
        res == occurs_at(s@, p@, i as int),
{
    if p.len() > s.len() - i {
        return false;
    }
    let mut k: usize = 0;
    while k < p.len()
        invariant
            k <= p.len(),
            i + p.len() <= s.len(),
            forall|j: int| 0 <= j < k ==> s@[i + j] == p@[j],
        decreases p.len() - k,
    {
        if s[i + k] != p[k] {
            assert(s@.subrange(i as int, i + p.len())[k as int] != p@[k as int]);
            return false;
        }
        k = k + 1;
    }
    assert(s@.subrange(i as int, i + p.len()) =~= p@);
    true
}

/// Scans `s` from `from` for the first occurrence of `p`.
pub fn find_from(s: &[char], p: &[char], from: usize) -> (res: Option<usize>)
    requires
        from <= s.len(),
    ensures
        res == shift_index(first_occurrence_from(s@, p@, from as int), 0),
        res matches Some(k) ==> k + p@.len() <= s@.len(),
{
    proof {
        lemma_first_occurrence_from(s@, p@, from as int);
    }
    let mut i = from;
    while p.len() <= s.len() - i
        invariant
            from <= i <= s.len(),
            first_occurrence_from(s@, p@, from as int) == first_occurrence_from(s@, p@, i as int),
        decreases s.len() - i,
    {
        if occurs_at_exec(s, p, i) {
            return Some(i);
        }
        if i == s.len() {
            assert(s@.subrange(i as int, i as int) =~= p@);
            return None;
        }
        i = i + 1;
    }
    None
}

/// Whether `p` occurs anywhere in `s`.
pub fn contains(s: &[char], p: &[char]) -> (res: bool)
    ensures
        res == first_occurrence(s@, p@) is Some,
{
    find_from(s, p, 0).is_some()
}

/// `s` cut at the first occurrence of `p`, without it.
pub open spec fn split_once(s: Seq<char>, p: Seq<char>) -> Option<(Seq<char>, Seq<char>)> {
    match first_occurrence(s, p) {
        Some(k) => Some((s.take(k), s.skip(k + p.len()))),
        None => None,
    }
}

/// Cuts `s` at the first occurrence of `p`.
pub fn split_once_exec(s: &[char], p: &[char]) -> (res: Option<(Vec<char>, Vec<char>)>)
    ensures
        res matches Some(r) ==> split_once(s@, p@) == Some((r.0@, r.1@)),
        res is None ==> split_once(s@, p@) is None,
{
    let found = find_from(s, p, 0);
    proof {
        lemma_first_occurrence_from(s@, p@, 0);
    }
    match found {
        Some(k) => {
            let pl = p.len();
            let sl = s.len();
            assert(k + pl <= sl);
            let b_start: usize = k + pl;
            let a = vstd::slice::slice_to_vec(&s[0..k]);
            let b = vstd::slice::slice_to_vec(&s[b_start..s.len()]);
            assert(a@ =~= s@.take(k as int));
            assert(b@ =~= s@.skip(k + p@.len()));
            Some((a, b))
        },
        None => None,
    }
}

/// `s` without `p` in front, when it starts with it.
pub open spec fn strip_prefix(s: Seq<char>, p: Seq<char>) -> Option<Seq<char>> {
    if occurs_at(s, p, 0) {
        Some(s.skip(p.len() as int))
    } else {
        None
    }
}

/// Removes `p` from the front of `s`.
pub fn strip_prefix_exec(s: &[char], p: &[char]) -> (res: Option<Vec<char>>)
    ensures
        res matches Some(r) ==> strip_prefix(s@, p@) == Some(r@),
        res is None ==> strip_prefix(s@, p@) is None,
{
    if occurs_at_exec(s, p, 0) {
        let r = vstd::slice::slice_to_vec(&s[p.len()..s.len()]);
        assert(r@ =~= s@.skip(p@.len() as int));
        Some(r)
    } else {
        None
    }
}

/// The pieces of `s` from index `start` on, cut at each leftmost
/// non-overlapping occurrence of the non-empty `p`.
pub open spec fn split_from(s: Seq<char>, p: Seq<char>, start: int) -> Seq<Seq<char>>
    decreases s.len() - start,
{
    if p.len() == 0 || start < 0 || start > s.len() {
        seq![s.subrange(start, s.len() as int)]
    } else {
        match first_occurrence_from(s, p, start) {
            Some(k) => if start <= k && k + p.len() <= s.len() {
                seq![s.subrange(start, k)] + split_from(s, p, k + p.len())
            } else {
                seq![]
            },
            None => seq![s.subrange(start, s.len() as int)],
        }
    }
}

/// The pieces of `s` cut at each occurrence of the non-empty `p`.
pub open spec fn split(s: Seq<char>, p: Seq<char>) -> Seq<Seq<char>> {
    split_from(s, p, 0)
}

/// Splitting always gives at least one piece.
pub proof fn lemma_split_nonempty(s: Seq<char>, p: Seq<char>)
    ensures
        split(s, p).len() >= 1,
{
    if p.len() > 0 {
        lemma_first_occurrence_from(s, p, 0);
    }
}

/// Cuts `s` at each leftmost non-overlapping occurrence of the non-empty `p`.
pub fn split_exec(s: &[char], p: &[char]) -> (res: Vec<Vec<char>>)
    requires
        p@.len() > 0,
    ensures
        res@.len() == split(s@, p@).len(),
        forall|i: int| 0 <= i < res@.len() ==> #[trigger] res@[i]@ == split(s@, p@)[i],
{
    let ghost ss = s@;
    let ghost ps = p@;
    let ghost mut done: Seq<Seq<char>> = seq![];
    let mut out: Vec<Vec<char>> = Vec::new();
    let mut start: usize = 0;
    let mut i: usize = 0;
    while p.len() <= s.len() - i
        invariant
            p@.len() > 0,
            start <= i <= s@.len(),
            first_occurrence_from(ss, ps, start as int) == first_occurrence_from(
                ss,
                ps,
                i as int,
            ),
            ss == s@,
            ps == p@,
            out@.len() == done.len(),
            forall|j: int| 0 <= j < out@.len() ==> (#[trigger] out@[j])@ == done[j],
            split_from(ss, ps, 0) == done + split_from(ss, ps, start as int),
        decreases s.len() - i,
    {
        if occurs_at_exec(s, p, i) {
            let piece = vstd::slice::slice_to_vec(&s[start..i]);
            proof {
                lemma_first_occurrence_from(ss, ps, start as int);
                let rest = split_from(ss, ps, (i + p.len()) as int);
                assert(split_from(ss, ps, start as int) == seq![ss.subrange(start as int, i as int)]
                    + rest);
                assert(done + split_from(ss, ps, start as int) =~= done.push(
                    ss.subrange(start as int, i as int),
                ) + rest);
                done = done.push(ss.subrange(start as int, i as int));
            }
            out.push(piece);
            start = i + p.len();
            i = start;
        } else {
            i = i + 1;
        }
    }
    let last = vstd::slice::slice_to_vec(&s[start..s.len()]);
    proof {
        lemma_first_occurrence_from(ss, ps, i as int);
        lemma_first_occurrence_from(ss, ps, start as int);
        assert(split_from(ss, ps, start as int) == seq![ss.subrange(start as int, ss.len() as int)]);
        done = done.push(ss.subrange(start as int, ss.len() as int));
    }
    out.push(last);
    out
}

/// Whitespace as `char::is_whitespace` defines it: the Unicode
/// `White_Space` property.
pub open spec fn is_white_space(c: char) -> bool {
    let u = c as u32;
    ||| 0x09 <= u <= 0x0d
    ||| u == 0x20
    ||| u == 0x85
    ||| u == 0xa0
    ||| u == 0x1680
    ||| 0x2000 <= u <= 0x200a
    ||| u == 0x2028
    ||| u == 0x2029
    ||| u == 0x202f
    ||| u == 0x205f
    ||| u == 0x3000
}

fn is_white_space_exec(c: char) -> (res: bool)
    ensures
        res == is_white_space(c),
{
    let u = c as u32;
    (0x09 <= u && u <= 0x0d) || u == 0x20 || u == 0x85 || u == 0xa0 || u == 0x1680 || (0x2000
        <= u && u <= 0x200a) || u == 0x2028 || u == 0x2029 || u == 0x202f || u == 0x205f || u
        == 0x3000
}

/// `s` without its leading whitespace.
pub open spec fn trim_start(s: Seq<char>) -> Seq<char>
    decreases s.len(),
{
    if s.len() > 0 && is_white_space(s[0]) {
        trim_start(s.drop_first())
    } else {
        s
    }
}

/// `s` without its trailing whitespace.
pub open spec fn trim_end(s: Seq<char>) -> Seq<char>
    decreases s.len(),
{
    if s.len() > 0 && is_white_space(s.last()) {
        trim_end(s.drop_last())
    } else {
        s
    }
}

/// `s` without leading and trailing whitespace, as `str::trim` gives it.
pub open spec fn trim(s: Seq<char>) -> Seq<char> {
    trim_end(trim_start(s))
}

/// Removes leading and trailing whitespace.
pub fn trim_exec(s: &[char]) -> (res: Vec<char>)
    ensures
        res@ == trim(s@),
{
    let mut lo: usize = 0;
    assert(s@.skip(0) =~= s@);
    while lo < s.len() && is_white_space_exec(s[lo])
        invariant
            lo <= s@.len(),
            trim_start(s@) == trim_start(s@.skip(lo as int)),
        decreases s.len() - lo,
    {
        assert(s@.skip(lo as int).drop_first() =~= s@.skip(lo + 1));
        lo = lo + 1;
    }
    let ghost front = s@.skip(lo as int);
    assert(trim_start(front) == front);
    let mut hi: usize = s.len();
    while hi > lo && is_white_space_exec(s[hi - 1])
        invariant
            lo <= hi <= s@.len(),
            front == s@.skip(lo as int),
            trim_end(front) == trim_end(s@.subrange(lo as int, hi as int)),
        decreases hi,
    {
        assert(s@.subrange(lo as int, hi as int).drop_last() =~= s@.subrange(
            lo as int,
            hi - 1,
        ));
        hi = hi - 1;
    }
    assert(s@.subrange(lo as int, s@.len() as int) =~= front);
    let r = vstd::slice::slice_to_vec(&s[lo..hi]);
    assert(r@ =~= s@.subrange(lo as int, hi as int));
    r
}

/// `s` without the copies of `c` at its start.
pub open spec fn strip_char_start(s: Seq<char>, c: char) -> Seq<char>
    decreases s.len(),
{
    if s.len() > 0 && s[0] == c {
        strip_char_start(s.drop_first(), c)
    } else {
        s
    }
}

/// `s` without the copies of `c` at its end.
pub open spec fn strip_char_end(s: Seq<char>, c: char) -> Seq<char>
    decreases s.len(),
{
    if s.len() > 0 && s.last() == c {
        strip_char_end(s.drop_last(), c)
    } else {
        s
    }
}

/// `s` without the copies of `c` at either end, as `str::trim_matches`
/// with a character gives it.
pub open spec fn trim_matches(s: Seq<char>, c: char) -> Seq<char> {
    strip_char_end(strip_char_start(s, c), c)
}

/// Removes every copy of `c` at either end of `s`.
pub fn trim_matches_exec(s: &[char], c: char) -> (res: Vec<char>)
    ensures
        res@ == trim_matches(s@, c),
{
    let mut lo: usize = 0;
    assert(s@.skip(0) =~= s@);
    while lo < s.len() && s[lo] == c
        invariant
            lo <= s@.len(),
            strip_char_start(s@, c) == strip_char_start(s@.skip(lo as int), c),
        decreases s.len() - lo,
    {
        assert(s@.skip(lo as int).drop_first() =~= s@.skip(lo + 1));
        lo = lo + 1;
    }
    let ghost front = s@.skip(lo as int);
    assert(strip_char_start(front, c) == front);
    let mut hi: usize = s.len();
    while hi > lo && s[hi - 1] == c
        invariant
            lo <= hi <= s@.len(),
            front == s@.skip(lo as int),
            strip_char_end(front, c) == strip_char_end(s@.subrange(lo as int, hi as int), c),
        decreases hi,
    {
        assert(s@.subrange(lo as int, hi as int).drop_last() =~= s@.subrange(
            lo as int,
            hi - 1,
        ));
        hi = hi - 1;
    }
    assert(s@.subrange(lo as int, s@.len() as int) =~= front);
    let r = vstd::slice::slice_to_vec(&s[lo..hi]);
    assert(r@ =~= s@.subrange(lo as int, hi as int));
    r
}

/// Two texts are equal; compares them character by character.
pub fn chars_equal(a: &[char], b: &[char]) -> (res: bool)
    ensures
        res == (a@ == b@),
{
    if a.len() != b.len() {
        return false;
    }
    let mut i: usize = 0;
    while i < a.len()
        invariant
            i <= a@.len(),
            a@.len() == b@.len(),
            forall|j: int| 0 <= j < i ==> a@[j] == b@[j],
        decreases a.len() - i,
    {
        if a[i] != b[i] {
            return false;
        }
        i = i + 1;
    }
    assert(a@ =~= b@);
    true
}

proof fn lemma_trim_start_len(x: Seq<char>)
    ensures
        trim_start(x).len() <= x.len(),
        x.len() > 0 && is_white_space(x[0]) ==> trim_start(x).len() < x.len(),
    decreases x.len(),
{
    if x.len() > 0 && is_white_space(x[0]) {
        lemma_trim_start_len(x.drop_first());
    }
}

proof fn lemma_trim_end_len(x: Seq<char>)
    ensures
        trim_end(x).len() <= x.len(),
        x.len() > 0 && is_white_space(x.last()) ==> trim_end(x).len() < x.len(),
    decreases x.len(),
{
    if x.len() > 0 && is_white_space(x.last()) {
        lemma_trim_end_len(x.drop_last());
    }
}

/// Text is its own trim exactly when it is empty or neither starts nor
/// ends with whitespace.
pub proof fn lemma_trim_fixed(x: Seq<char>)
    ensures
        trim(x) == x <==> (x.len() == 0 || (!is_white_space(x[0]) && !is_white_space(x.last()))),
{
    lemma_trim_start_len(x);
    lemma_trim_end_len(trim_start(x));
    if x.len() > 0 && !is_white_space(x[0]) && !is_white_space(x.last()) {
        assert(trim_start(x) == x);
        assert(trim_end(x) == x);
    }
    if trim(x) == x && x.len() > 0 {
        if is_white_space(x[0]) {
            assert(false);
        }
        assert(trim_start(x) == x);
        if is_white_space(x.last()) {
            assert(false);
        }
    }
}

/// Text without the character `c` has no occurrence of it, and splitting
/// at it gives the text whole.
pub proof fn lemma_split_absent(s: Seq<char>, c: char)
    requires
        !s.contains(c),
    ensures
        first_occurrence(s, seq![c]) is None,
        split(s, seq![c]) == seq![s],
        split_once(s, seq![c]) is None,
{
    lemma_first_occurrence_from(s, seq![c], 0);
    if first_occurrence(s, seq![c]) is Some {
        let k = first_occurrence(s, seq![c])->0;
        assert(s.subrange(k, k + 1)[0] == s[k]);
        assert(s[k] == c);
    }
    assert(s.subrange(0, s.len() as int) =~= s);
}

/// Cutting at the first `c`, at index `k`.
pub proof fn lemma_split_once_at(s: Seq<char>, c: char, k: int)
    requires
        0 <= k < s.len(),
        s[k] == c,
        forall|j: int| 0 <= j < k ==> s[j] != c,
    ensures
        split_once(s, seq![c]) == Some((s.take(k), s.skip(k + 1))),
{
    assert(s.subrange(k, k + 1) =~= seq![c]);
    assert(occurs_at(s, seq![c], k));
    lemma_first_occurrence_from(s, seq![c], 0);
    let f = first_occurrence(s, seq![c])->0;
    if f < k {
        assert(s.subrange(f, f + 1)[0] == s[f]);
    }
}

/// Text without the first character of `p` has no occurrence of `p`, and
/// splitting at `p` gives the text whole.
pub proof fn lemma_split_without_lead(s: Seq<char>, p: Seq<char>)
    requires
        p.len() > 0,
        !s.contains(p[0]),
    ensures
        first_occurrence(s, p) is None,
        split(s, p) == seq![s],
{
    lemma_first_occurrence_from(s, p, 0);
    if first_occurrence(s, p) is Some {
        let k = first_occurrence(s, p)->0;
        assert(s.subrange(k, k + p.len())[0] == s[k]);
    }
    assert(s.subrange(0, s.len() as int) =~= s);
}

/// Cutting at the one-character separator `c` from `start`, whose next
/// occurrence is at `k`: the piece before it, then the pieces after it.
pub proof fn lemma_split_char_step(s: Seq<char>, c: char, start: int, k: int)
    requires
        0 <= start <= k < s.len(),
        s[k] == c,
        forall|j: int| start <= j < k ==> s[j] != c,
    ensures
        split_from(s, seq![c], start) == seq![s.subrange(start, k)] + split_from(s, seq![c], k + 1),
{
    assert(s.subrange(k, k + 1) =~= seq![c]);
    assert(occurs_at(s, seq![c], k));
    lemma_first_occurrence_from(s, seq![c], start);
    let f = first_occurrence_from(s, seq![c], start)->0;
    if f < k {
        assert(s.subrange(f, f + 1)[0] == s[f]);
    }
}

/// Cutting at `c` from `start` when no `c` follows: one last piece.
pub proof fn lemma_split_char_last(s: Seq<char>, c: char, start: int)
    requires
        0 <= start <= s.len(),
        forall|j: int| start <= j < s.len() ==> s[j] != c,
    ensures
        split_from(s, seq![c], start) == seq![s.subrange(start, s.len() as int)],
{
    lemma_first_occurrence_from(s, seq![c], start);
    if first_occurrence_from(s, seq![c], start) is Some {
        let f = first_occurrence_from(s, seq![c], start)->0;
        assert(s.subrange(f, f + 1)[0] == s[f]);
    }
}

/// Cutting at `p` from `start`, whose next occurrence is at `k` (nothing
/// before it starts like `p`): the piece before it, then the pieces after
/// it.
pub proof fn lemma_split_step(s: Seq<char>, p: Seq<char>, start: int, k: int)
    requires
        p.len() > 0,
        0 <= start <= k,
        occurs_at(s, p, k),
        forall|j: int| start <= j < k ==> s[j] != p[0],
    ensures
        split_from(s, p, start) == seq![s.subrange(start, k)] + split_from(s, p, k + p.len()),
{
    lemma_first_occurrence_from(s, p, start);
    let f = first_occurrence_from(s, p, start)->0;
    if f < k {
        assert(s.subrange(f, f + p.len())[0] == s[f]);
    }
}

/// Searching `x + y` from inside `y` is searching `y`, shifted by the
/// length of `x`.
pub proof fn lemma_first_occurrence_shift(x: Seq<char>, y: Seq<char>, p: Seq<char>, k: int)
    requires
        0 <= k,
    ensures
        first_occurrence_from(x + y, p, x.len() + k) == match first_occurrence_from(y, p, k) {
            Some(m) => Some(x.len() + m),
            None => None::<int>,
        },
    decreases y.len() + 1 - k,
{
    let s = x + y;
    let i = x.len() + k;
    if k + p.len() <= y.len() {
        assert(s.subrange(i, i + p.len()) =~= y.subrange(k, k + p.len()));
        if !occurs_at(y, p, k) {
            lemma_first_occurrence_shift(x, y, p, k + 1);
        }
    }
}

/// Cutting `x + y` from inside `y` cuts `y` alone.
pub proof fn lemma_split_from_shift(x: Seq<char>, y: Seq<char>, p: Seq<char>, k: int)
    requires
        p.len() > 0,
        0 <= k <= y.len(),
    ensures
        split_from(x + y, p, x.len() + k) == split_from(y, p, k),
    decreases y.len() - k,
{
    let s = x + y;
    let i = x.len() + k;
    lemma_first_occurrence_shift(x, y, p, k);
    lemma_first_occurrence_from(y, p, k);
    match first_occurrence_from(y, p, k) {
        Some(m) => {
            assert(s.subrange(i, x.len() + m) =~= y.subrange(k, m));
            lemma_split_from_shift(x, y, p, m + p.len());
        },
        None => {
            assert(s.subrange(i, s.len() as int) =~= y.subrange(k, y.len() as int));
        },
    }
}

/// `String::push` from std, which vstd gives no contract: claimed, as its
/// documentation says, that it appends the character to the string.
pub assume_specification[ String::push ](s: &mut String, ch: char)
    ensures
        final(s)@ == old(s)@.push(ch),
;

/// The string of the characters `cs`.
pub fn string_of(cs: &[char]) -> (res: String)
    ensures
        res@ == cs@,
{
    let mut out = String::new();
    let mut i: usize = 0;
    while i < cs.len()
        invariant
            i <= cs@.len(),
            out@ == cs@.take(i as int),
        decreases cs.len() - i,
    {
        out.push(cs[i]);
        i = i + 1;
        assert(out@ =~= cs@.take(i as int));
    }
    assert(cs@.take(cs@.len() as int) =~= cs@);
    out
}

} // verus!
