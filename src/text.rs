//! Character-level helpers shared by the line tokenizer and the reading annotator.
//!
//! Text is handled as a sequence of Unicode scalar values (`char`): a `&str`
//! is turned into a `Vec<char>` once, searched by index, and turned back into
//! a `String` at the end. Where user-perceived characters matter, the
//! annotator groups these into grapheme clusters.
use vstd::prelude::*;

verus! {

/// Unicode `White_Space` characters, the set that `char::is_whitespace`,
/// `str::trim` and `str::split_whitespace` use.
pub open spec fn is_ws(c: char) -> bool {
    ||| ('\u{9}' <= c && c <= '\u{d}')
    ||| c == ' '
    ||| c == '\u{85}'
    ||| c == '\u{a0}'
    ||| c == '\u{1680}'
    ||| ('\u{2000}' <= c && c <= '\u{200a}')
    ||| c == '\u{2028}'
    ||| c == '\u{2029}'
    ||| c == '\u{202f}'
    ||| c == '\u{205f}'
    ||| c == '\u{3000}'
}

pub fn is_whitespace(c: char) -> (r: bool)
    ensures
        r == is_ws(c),
{
    ('\u{9}' <= c && c <= '\u{d}') || c == ' ' || c == '\u{85}' || c == '\u{a0}' || c == '\u{1680}'
        || ('\u{2000}' <= c && c <= '\u{200a}') || c == '\u{2028}' || c == '\u{2029}' || c
        == '\u{202f}' || c == '\u{205f}' || c == '\u{3000}'
}

/// A line with no character but whitespace.
pub open spec fn is_blank(s: Seq<char>) -> bool {
    forall|k: int| 0 <= k < s.len() ==> is_ws(#[trigger] s[k])
}

pub open spec fn starts_with(s: Seq<char>, p: Seq<char>) -> bool {
    p.len() <= s.len() && s.subrange(0, p.len() as int) == p
}

/// `pat` stands in `s` from index `i` on.
pub open spec fn occurs_at(s: Seq<char>, pat: Seq<char>, i: int) -> bool {
    0 <= i && i + pat.len() <= s.len() && s.subrange(i, i + pat.len()) == pat
}

pub open spec fn contains_seq(s: Seq<char>, pat: Seq<char>) -> bool {
    exists|i: int| occurs_at(s, pat, i)
}

/// The first index at or after `from` where `pat` stands in `s`.
pub open spec fn first_match(s: Seq<char>, pat: Seq<char>, from: int) -> Option<int>
    decreases s.len() - from,
{
    if from < 0 || from + pat.len() > s.len() {
        None
    } else if occurs_at(s, pat, from) {
        Some(from)
    } else if from < s.len() {
        first_match(s, pat, from + 1)
    } else {
        None
    }
}

/// The first index at or after `from` that holds `c`.
pub open spec fn index_of_from(s: Seq<char>, c: char, from: int) -> Option<int>
    decreases s.len() - from,
{
    if from < 0 || from >= s.len() {
        None
    } else if s[from] == c {
        Some(from)
    } else {
        index_of_from(s, c, from + 1)
    }
}

/// The first index at or after `i` that holds no whitespace (or the length).
pub open spec fn skip_ws(s: Seq<char>, i: int) -> int
    decreases s.len() - i,
{
    if 0 <= i < s.len() && is_ws(s[i]) {
        skip_ws(s, i + 1)
    } else {
        i
    }
}

/// The first index at or after `i` that holds whitespace (or the length).
pub open spec fn word_end(s: Seq<char>, i: int) -> int
    decreases s.len() - i,
{
    if 0 <= i < s.len() && !is_ws(s[i]) {
        word_end(s, i + 1)
    } else {
        i
    }
}

/// Going back from `j`, the index just past the last character that is no whitespace.
pub open spec fn back_ws(s: Seq<char>, j: int) -> int
    decreases j,
{
    if 0 < j <= s.len() && is_ws(s[j - 1]) {
        back_ws(s, j - 1)
    } else {
        j
    }
}

pub open spec fn trim_start(s: Seq<char>) -> Seq<char> {
    s.subrange(skip_ws(s, 0), s.len() as int)
}

pub open spec fn trim_end(s: Seq<char>) -> Seq<char> {
    s.subrange(0, back_ws(s, s.len() as int))
}

/// What `str::trim` leaves.
pub open spec fn trim(s: Seq<char>) -> Seq<char> {
    trim_end(trim_start(s))
}

/// `s` cut at each `sep`, from index `start` on, as `str::split` cuts it.
pub open spec fn split_from(s: Seq<char>, sep: char, start: int) -> Seq<Seq<char>>
    decreases s.len() - start,
{
    match index_of_from(s, sep, start) {
        Some(k) => if 0 <= start <= k < s.len() {
            seq![s.subrange(start, k)] + split_from(s, sep, k + 1)
        } else {
            seq![]
        },
        None => seq![s.subrange(start, s.len() as int)],
    }
}

pub open spec fn as_int(o: Option<usize>) -> Option<int> {
    match o {
        Some(k) => Some(k as int),
        None => None,
    }
}

pub proof fn lemma_index_of_from(s: Seq<char>, c: char, from: int)
    requires
        0 <= from,
    ensures
        match index_of_from(s, c, from) {
            Some(k) => from <= k < s.len() && s[k] == c && forall|j: int|
                from <= j < k ==> s[j] != c,
            None => forall|j: int| from <= j < s.len() ==> s[j] != c,
        },
    decreases s.len() - from,
{
    if from < s.len() && s[from] != c {
        lemma_index_of_from(s, c, from + 1);
    }
}

pub proof fn lemma_first_match(s: Seq<char>, pat: Seq<char>, from: int)
    requires
        0 <= from,
    ensures
        match first_match(s, pat, from) {
            Some(k) => from <= k && occurs_at(s, pat, k) && forall|j: int|
                from <= j < k ==> !occurs_at(s, pat, j),
            None => forall|j: int| from <= j ==> !occurs_at(s, pat, j),
        },
    decreases s.len() - from,
{
    if pat.len() == 0 && from <= s.len() {
        assert(s.subrange(from, from) =~= pat);
    }
    if from < s.len() && from + pat.len() <= s.len() && !occurs_at(s, pat, from) {
        lemma_first_match(s, pat, from + 1);
    }
}

/// `s` contains `pat` exactly when a search from the start finds it.
pub proof fn lemma_contains_first_match(s: Seq<char>, pat: Seq<char>)
    ensures
        contains_seq(s, pat) <==> first_match(s, pat, 0) is Some,
{
    lemma_first_match(s, pat, 0);
    if first_match(s, pat, 0) is Some {
        assert(occurs_at(s, pat, first_match(s, pat, 0)->0));
    }
}

/// The characters of `s`, in order.
pub fn chars_of(s: &str) -> (v: Vec<char>)
    ensures
        v@ == s@,
{
    let n = s.unicode_len();
    let mut v: Vec<char> = Vec::new();
    let mut i: usize = 0;
    while i < n
        invariant
            n == s@.len(),
            i <= n,
            v@ == s@.subrange(0, i as int),
        decreases n - i,
    {
        v.push(s.get_char(i));
        i = i + 1;
    }
    v
}

/// Relies on `String::push`: appends one character at the end.
#[verifier::external_body]
fn push_char(s: &mut String, c: char)
    ensures
        final(s)@ == old(s)@.push(c),
{
    s.push(c)
}

/// The characters `v[lo..hi]` as a `String`.
pub fn string_of(v: &Vec<char>, lo: usize, hi: usize) -> (r: String)
    requires
        lo <= hi <= v@.len(),
    ensures
        r@ == v@.subrange(lo as int, hi as int),
{
    let mut r = String::new();
    let mut i: usize = lo;
    while i < hi
        invariant
            lo <= i <= hi <= v@.len(),
            r@ == v@.subrange(lo as int, i as int),
        decreases hi - i,
    {
        push_char(&mut r, v[i]);
        i = i + 1;
    }
    r
}

/// Appends `v[lo..hi]` to `out`.
pub fn push_range(out: &mut Vec<char>, v: &Vec<char>, lo: usize, hi: usize)
    requires
        lo <= hi <= v@.len(),
    ensures
        final(out)@ == old(out)@ + v@.subrange(lo as int, hi as int),
{
    let ghost start = out@;
    let mut i: usize = lo;
    while i < hi
        invariant
            lo <= i <= hi <= v@.len(),
            out@ == start + v@.subrange(lo as int, i as int),
        decreases hi - i,
    {
        out.push(v[i]);
        i = i + 1;
        assert(out@ =~= start + v@.subrange(lo as int, i as int));
    }
}

pub fn find_char(s: &Vec<char>, c: char, from: usize) -> (r: Option<usize>)
    ensures
        as_int(r) == index_of_from(s@, c, from as int),
{
    let mut i: usize = from;
    while i < s.len()
        invariant
            from <= i,
            index_of_from(s@, c, from as int) == index_of_from(s@, c, i as int),
        decreases s.len() - i,
    {
        if s[i] == c {
            return Some(i);
        }
        i = i + 1;
    }
    None
}

/// Whether `pat` stands in `s` from index `i` on.
pub fn matches_at(s: &Vec<char>, pat: &Vec<char>, i: usize) -> (r: bool)
    ensures
        r == occurs_at(s@, pat@, i as int),
{
    if i > s.len() || pat.len() > s.len() - i {
        return false;
    }
    let n = s.len();
    let mut k: usize = 0;
    while k < pat.len()
        invariant
            n == s@.len(),
            i + pat@.len() <= s@.len(),
            k <= pat@.len(),
            forall|j: int| 0 <= j < k ==> s@[i + j] == pat@[j],
        decreases pat.len() - k,
    {
        if s[i + k] != pat[k] {
            assert(s@.subrange(i as int, i + pat@.len())[k as int] != pat@[k as int]);
            return false;
        }
        k = k + 1;
    }
    assert(s@.subrange(i as int, i + pat@.len()) =~= pat@);
    true
}

pub fn find_seq(s: &Vec<char>, pat: &Vec<char>, from: usize) -> (r: Option<usize>)
    ensures
        as_int(r) == first_match(s@, pat@, from as int),
{
    let mut i: usize = from;
    while i < s.len() && pat.len() <= s.len() - i
        invariant
            from <= i,
            first_match(s@, pat@, from as int) == first_match(s@, pat@, i as int),
        decreases s.len() - i,
    {
        if matches_at(s, pat, i) {
            return Some(i);
        }
        i = i + 1;
    }
    if i == s.len() && pat.len() == 0 {
        assert(occurs_at(s@, pat@, i as int)) by {
            assert(s@.subrange(i as int, i as int) =~= pat@);
        }
        return Some(i);
    }
    None
}

pub fn contains(s: &Vec<char>, pat: &Vec<char>) -> (r: bool)
    ensures
        r == contains_seq(s@, pat@),
{
    proof {
        lemma_contains_first_match(s@, pat@);
    }
    find_seq(s, pat, 0).is_some()
}

pub fn starts_with_chars(s: &Vec<char>, p: &Vec<char>) -> (r: bool)
    ensures
        r == starts_with(s@, p@),
{
    let r = matches_at(s, p, 0);
    proof {
        if r {
            assert(p@.len() <= s@.len());
        }
    }
    r
}

pub fn blank(s: &Vec<char>) -> (r: bool)
    ensures
        r == is_blank(s@),
{
    let mut i: usize = 0;
    while i < s.len()
        invariant
            i <= s@.len(),
            forall|k: int| 0 <= k < i ==> is_ws(#[trigger] s@[k]),
        decreases s.len() - i,
    {
        if !is_whitespace(s[i]) {
            return false;
        }
        i = i + 1;
    }
    true
}

pub fn skip_whitespace(s: &Vec<char>, from: usize) -> (r: usize)
    requires
        from <= s@.len(),
    ensures
        r as int == skip_ws(s@, from as int),
        from <= r <= s@.len(),
{
    let mut i: usize = from;
    while i < s.len() && is_whitespace(s[i])
        invariant
            from <= i <= s@.len(),
            skip_ws(s@, from as int) == skip_ws(s@, i as int),
        decreases s.len() - i,
    {
        i = i + 1;
    }
    i
}

pub fn end_of_word(s: &Vec<char>, from: usize) -> (r: usize)
    requires
        from <= s@.len(),
    ensures
        r as int == word_end(s@, from as int),
        from <= r <= s@.len(),
{
    let mut i: usize = from;
    while i < s.len() && !is_whitespace(s[i])
        invariant
            from <= i <= s@.len(),
            word_end(s@, from as int) == word_end(s@, i as int),
        decreases s.len() - i,
    {
        i = i + 1;
    }
    i
}

/// The bounds of `trim(s@)` within `s`.
pub fn trim_bounds(s: &Vec<char>) -> (r: (usize, usize))
    ensures
        r.0 <= r.1 <= s@.len(),
        s@.subrange(r.0 as int, r.1 as int) == trim(s@),
{
    let a = skip_whitespace(s, 0);
    let ghost t = s@.subrange(a as int, s@.len() as int);
    let mut j: usize = s.len();
    while j > a && is_whitespace(s[j - 1])
        invariant
            a <= j <= s@.len(),
            t == s@.subrange(a as int, s@.len() as int),
            back_ws(t, t.len() as int) == back_ws(t, j - a),
        decreases j,
    {
        assert(t[j - a - 1] == s@[j - 1]);
        j = j - 1;
    }
    proof {
        if j > a {
            assert(t[j - a - 1] == s@[j - 1]);
        }
        assert(s@.subrange(a as int, j as int) =~= t.subrange(0, j - a));
    }
    (a, j)
}

/// The views of a sequence of character vectors.
pub open spec fn char_seqs(v: Seq<Vec<char>>) -> Seq<Seq<char>> {
    v.map_values(|s: Vec<char>| s@)
}

/// `s` cut at each `sep`; see `split_from`.
pub fn split_chars(s: &Vec<char>, sep: char) -> (r: Vec<Vec<char>>)
    ensures
        char_seqs(r@) == split_from(s@, sep, 0),
{
    let n = s.len();
    let mut r: Vec<Vec<char>> = Vec::new();
    let mut start: usize = 0;
    loop
        invariant
            n == s@.len(),
            start <= n,
            split_from(s@, sep, 0) == char_seqs(r@) + split_from(s@, sep, start as int),
        decreases n + 1 - start,
    {
        proof {
            lemma_index_of_from(s@, sep, start as int);
        }
        let mut piece: Vec<char> = Vec::new();
        match find_char(s, sep, start) {
            Some(k) => {
                push_range(&mut piece, s, start, k);
                proof {
                    assert(piece@ =~= s@.subrange(start as int, k as int));
                    assert(char_seqs(r@.push(piece)) =~= char_seqs(r@).push(piece@));
                    assert(char_seqs(r@) + split_from(s@, sep, start as int) =~= char_seqs(
                        r@.push(piece),
                    ) + split_from(s@, sep, k + 1));
                }
                r.push(piece);
                start = k + 1;
            },
            None => {
                push_range(&mut piece, s, start, n);
                proof {
                    assert(piece@ =~= s@.subrange(start as int, n as int));
                    assert(char_seqs(r@.push(piece)) =~= char_seqs(r@).push(piece@));
                    assert(char_seqs(r@) + split_from(s@, sep, start as int) =~= char_seqs(
                        r@.push(piece),
                    ));
                }
                r.push(piece);
                return r;
            },
        }
    }
}

/// `s` without the characters equal to `c`.
pub open spec fn drop_char(s: Seq<char>, c: char) -> Seq<char> {
    s.filter(other_than(c))
}

pub open spec fn other_than(c: char) -> spec_fn(char) -> bool {
    |x: char| x != c
}

/// Appends `v[lo..hi]` to `out`, leaving out each `c`.
pub fn push_without(out: &mut Vec<char>, v: &Vec<char>, lo: usize, hi: usize, c: char)
    requires
        lo <= hi <= v@.len(),
    ensures
        final(out)@ == old(out)@ + drop_char(v@.subrange(lo as int, hi as int), c),
{
    let ghost start = out@;
    let mut i: usize = lo;
    while i < hi
        invariant
            lo <= i <= hi <= v@.len(),
            out@ == start + drop_char(v@.subrange(lo as int, i as int), c),
        decreases hi - i,
    {
        let ghost sub = v@.subrange(lo as int, i as int);
        proof {
            assert(v@.subrange(lo as int, i + 1) =~= sub.push(v@[i as int]));
            sub.lemma_filter_push(v@[i as int], other_than(c));
        }
        if v[i] != c {
            out.push(v[i]);
            assert(drop_char(v@.subrange(lo as int, i + 1), c) == drop_char(sub, c).push(
                v@[i as int],
            ));
            assert(out@ =~= start + drop_char(v@.subrange(lo as int, i + 1), c));
        } else {
            assert(drop_char(v@.subrange(lo as int, i + 1), c) == drop_char(sub, c));
        }
        i = i + 1;
    }
}

/// `split_from` yields at least one piece.
pub proof fn lemma_split_nonempty(s: Seq<char>, sep: char, start: int)
    requires
        0 <= start,
    ensures
        split_from(s, sep, start).len() >= 1,
{
    lemma_index_of_from(s, sep, start);
}

/// No whitespace at either end.
pub open spec fn is_trimmed(t: Seq<char>) -> bool {
    t.len() == 0 || (!is_ws(t[0]) && !is_ws(t.last()))
}

pub proof fn lemma_skip_ws(s: Seq<char>, i: int)
    requires
        0 <= i <= s.len(),
    ensures
        i <= skip_ws(s, i) <= s.len(),
        skip_ws(s, i) < s.len() ==> !is_ws(s[skip_ws(s, i)]),
    decreases s.len() - i,
{
    if i < s.len() && is_ws(s[i]) {
        lemma_skip_ws(s, i + 1);
    }
}

pub proof fn lemma_back_ws(s: Seq<char>, j: int)
    requires
        0 <= j <= s.len(),
    ensures
        0 <= back_ws(s, j) <= j,
        back_ws(s, j) > 0 ==> !is_ws(s[back_ws(s, j) - 1]),
    decreases j,
{
    if j > 0 && is_ws(s[j - 1]) {
        lemma_back_ws(s, j - 1);
    }
}

/// What `trim` leaves has no whitespace at either end.
pub proof fn lemma_trim_trimmed(x: Seq<char>)
    ensures
        is_trimmed(trim(x)),
{
    lemma_skip_ws(x, 0);
    let y = trim_start(x);
    lemma_back_ws(y, y.len() as int);
    let b = back_ws(y, y.len() as int);
    if b > 0 {
        assert(trim(x)[0] == y[0]);
        assert(y[0] == x[skip_ws(x, 0)]);
        assert(trim(x).last() == y[b - 1]);
    }
}

/// Trimming text that has no whitespace at its ends, after at most one leading space, gives the text.
pub proof fn lemma_trim_fixed(t: Seq<char>)
    requires
        is_trimmed(t),
    ensures
        trim(t) == t,
        trim(seq![' '] + t) == t,
{
    assert(trim_start(t) =~= t);
    assert(trim_end(t) =~= t);
    let u = seq![' '] + t;
    assert(u[0] == ' ');
    if t.len() > 0 {
        assert(u[1] == t[0]);
        assert(skip_ws(u, 1) == 1);
    } else {
        assert(skip_ws(u, 1) == 1);
    }
    assert(skip_ws(u, 0) == 1);
    assert(trim_start(u) =~= t);
}

/// The search for `c` from `from` stops at `k` where `k` is the first index holding it.
pub proof fn lemma_index_of_from_is(s: Seq<char>, c: char, from: int, k: int)
    requires
        0 <= from <= k < s.len(),
        s[k] == c,
        forall|j: int| from <= j < k ==> s[j] != c,
    ensures
        index_of_from(s, c, from) == Some(k),
    decreases k - from,
{
    if from < k {
        lemma_index_of_from_is(s, c, from + 1, k);
    }
}

/// The search for `c` from `from` finds nothing where no index from there holds it.
pub proof fn lemma_index_of_from_none(s: Seq<char>, c: char, from: int)
    requires
        0 <= from,
        forall|j: int| from <= j < s.len() ==> s[j] != c,
    ensures
        index_of_from(s, c, from) is None,
    decreases s.len() - from,
{
    if from < s.len() {
        lemma_index_of_from_none(s, c, from + 1);
    }
}

/// The pieces of `ls` joined with `sep` between each two.
pub open spec fn join(ls: Seq<Seq<char>>, sep: char) -> Seq<char>
    decreases ls.len(),
{
    if ls.len() == 0 {
        seq![]
    } else if ls.len() == 1 {
        ls[0]
    } else {
        join(ls.drop_last(), sep) + seq![sep] + ls.last()
    }
}

proof fn lemma_index_shift(p: Seq<char>, b: Seq<char>, c: char, j: int)
    requires
        0 <= j <= b.len(),
    ensures
        index_of_from(p + b, c, p.len() + j) == match index_of_from(b, c, j) {
            Some(k) => Some(p.len() + k),
            None => None,
        },
    decreases b.len() - j,
{
    if j < b.len() {
        assert((p + b)[p.len() + j] == b[j]);
        lemma_index_shift(p, b, c, j + 1);
    }
}

proof fn lemma_split_shift(p: Seq<char>, b: Seq<char>, sep: char, j: int)
    requires
        0 <= j <= b.len(),
    ensures
        split_from(p + b, sep, p.len() + j) == split_from(b, sep, j),
    decreases b.len() - j,
{
    let x = p + b;
    lemma_index_shift(p, b, sep, j);
    lemma_index_of_from(b, sep, j);
    match index_of_from(b, sep, j) {
        Some(k) => {
            lemma_split_shift(p, b, sep, k + 1);
            assert(x.subrange(p.len() + j, p.len() + k) =~= b.subrange(j, k));
        },
        None => {
            assert(x.subrange(p.len() + j, x.len() as int) =~= b.subrange(j, b.len() as int));
        },
    }
}

proof fn lemma_split_concat_from(a: Seq<char>, b: Seq<char>, sep: char, i: int)
    requires
        0 <= i <= a.len(),
    ensures
        split_from(a + seq![sep] + b, sep, i) == split_from(a, sep, i) + split_from(b, sep, 0),
    decreases a.len() - i,
{
    let x = a + seq![sep] + b;
    lemma_index_of_from(a, sep, i);
    match index_of_from(a, sep, i) {
        Some(k) => {
            assert forall|j: int| i <= j < k implies x[j] != sep by {
                assert(x[j] == a[j]);
            }
            assert(x[k] == a[k]);
            lemma_index_of_from_is(x, sep, i, k);
            lemma_split_concat_from(a, b, sep, k + 1);
            assert(x.subrange(i, k) =~= a.subrange(i, k));
            assert(split_from(x, sep, i) == seq![a.subrange(i, k)] + split_from(x, sep, k + 1));
            assert(split_from(a, sep, i) == seq![a.subrange(i, k)] + split_from(a, sep, k + 1));
            assert(split_from(x, sep, i) =~= split_from(a, sep, i) + split_from(b, sep, 0));
        },
        None => {
            assert forall|j: int| i <= j < a.len() implies x[j] != sep by {
                assert(x[j] == a[j]);
            }
            assert(x[a.len() as int] == sep);
            lemma_index_of_from_is(x, sep, i, a.len() as int);
            lemma_split_shift(a + seq![sep], b, sep, 0);
            assert(a + seq![sep] + b == (a + seq![sep]) + b);
            assert(x.subrange(i, a.len() as int) =~= a.subrange(i, a.len() as int));
            assert(split_from(x, sep, i) =~= split_from(a, sep, i) + split_from(b, sep, 0));
        },
    }
}

/// A piece without `sep` splits into itself.
pub proof fn lemma_split_single(l: Seq<char>, sep: char)
    requires
        !l.contains(sep),
    ensures
        split_from(l, sep, 0) == seq![l],
{
    assert forall|j: int| 0 <= j < l.len() implies l[j] != sep by {
        if l[j] == sep {
            assert(l.contains(sep));
        }
    }
    lemma_index_of_from_none(l, sep, 0);
    assert(l.subrange(0, l.len() as int) =~= l);
}

/// Splitting what was joined gives back the pieces, where no piece holds the separator.
pub proof fn lemma_split_join(ls: Seq<Seq<char>>, sep: char)
    requires
        ls.len() >= 1,
        forall|k: int| 0 <= k < ls.len() ==> !(#[trigger] ls[k]).contains(sep),
    ensures
        split_from(join(ls, sep), sep, 0) == ls,
    decreases ls.len(),
{
    if ls.len() == 1 {
        lemma_split_single(ls[0], sep);
        assert(seq![ls[0]] =~= ls);
    } else {
        let init = ls.drop_last();
        assert forall|k: int| 0 <= k < init.len() implies !(#[trigger] init[k]).contains(sep) by {
            assert(init[k] == ls[k]);
        }
        lemma_split_join(init, sep);
        lemma_split_concat_from(join(init, sep), ls.last(), sep, 0);
        lemma_split_single(ls.last(), sep);
        assert(init + seq![ls.last()] =~= ls);
    }
}

/// A character that is no separator stands in a join only where it stands in a piece.
pub proof fn lemma_join_absent(ls: Seq<Seq<char>>, sep: char, c: char)
    requires
        c != sep,
        forall|k: int| 0 <= k < ls.len() ==> !(#[trigger] ls[k]).contains(c),
    ensures
        !join(ls, sep).contains(c),
    decreases ls.len(),
{
    if ls.len() > 1 {
        let init = ls.drop_last();
        assert forall|k: int| 0 <= k < init.len() implies !(#[trigger] init[k]).contains(c) by {
            assert(init[k] == ls[k]);
        }
        lemma_join_absent(init, sep, c);
        let a = join(init, sep);
        let x = a + seq![sep] + ls.last();
        assert(!ls[ls.len() - 1].contains(c));
        if x.contains(c) {
            let j = choose|j: int| 0 <= j < x.len() && x[j] == c;
            if j < a.len() {
                assert(x[j] == a[j]);
            } else if j > a.len() {
                assert(x[j] == ls.last()[j - a.len() - 1]);
            }
        }
    }
}

/// `ls` joined with `sep`, as characters.
pub fn join_chars(ls: &Vec<Vec<char>>, sep: char) -> (r: Vec<char>)
    ensures
        r@ == join(char_seqs(ls@), sep),
{
    let ghost lv = char_seqs(ls@);
    let mut out: Vec<char> = Vec::new();
    if ls.len() == 0 {
        return out;
    }
    push_range(&mut out, &ls[0], 0, ls[0].len());
    proof {
        assert(ls@[0]@.subrange(0, ls@[0]@.len() as int) == ls@[0]@);
        assert(lv.subrange(0, 1).drop_last() =~= Seq::<Seq<char>>::empty());
        assert(lv.subrange(0, 1)[0] == lv[0]);
    }
    let mut k: usize = 1;
    while k < ls.len()
        invariant
            lv == char_seqs(ls@),
            1 <= k <= ls@.len(),
            out@ == join(lv.subrange(0, k as int), sep),
        decreases ls.len() - k,
    {
        out.push(sep);
        push_range(&mut out, &ls[k], 0, ls[k].len());
        proof {
            assert(ls@[k as int]@.subrange(0, ls@[k as int]@.len() as int) == ls@[k as int]@);
            let next = lv.subrange(0, k + 1);
            assert(next.drop_last() =~= lv.subrange(0, k as int));
            assert(next.last() == lv[k as int]);
        }
        k = k + 1;
    }
    assert(lv.subrange(0, lv.len() as int) =~= lv);
    out
}

} // verus!
