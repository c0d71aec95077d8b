//! Ruby-style reading annotation of the analyzer's word entries.
//!
//! A word entry `* romaji 漢字 【かんじ】` becomes `漢字 [かんじ]`-shaped text,
//! and the annotator then shows only the part of the reading that the written
//! form does not already share with it, at its start or at its end. The
//! comparison goes by extended grapheme clusters, as unicode-segmentation
//! finds them, so that a kana with a combining mark counts as one unit.
//!
//! The tokenizer and the rule matcher are reachable from here as well.
use vstd::prelude::*;

pub use crate::ichiran_extraction::{process_lines, Token};
pub use crate::sentence_processing::{load_rules, match_rules, PosWordRule, Rule, RuleSet};

use crate::ichiran_extraction::{compound_marker, lines_view, strings_view};
use crate::text::{
    back_ws, char_seqs, chars_of, drop_char, find_char, find_seq, first_match, index_of_from,
    is_whitespace, lemma_index_of_from, lemma_index_of_from_is, lemma_index_of_from_none,
    lemma_skip_ws, lemma_split_nonempty, lemma_trim_fixed, lemma_trim_trimmed, push_range,
    push_without, skip_ws, split_chars, split_from, starts_with, string_of, trim, trim_bounds,
    trim_end, trim_start,
};

verus! {

/// The extended grapheme clusters of `s` (user-perceived characters), as
/// unicode-segmentation finds them.
pub uninterp spec fn graphemes_of(s: Seq<char>) -> Seq<Seq<char>>;

/// The pieces of `ls` one after the other.
pub open spec fn concat_all(ls: Seq<Seq<char>>) -> Seq<char>
    decreases ls.len(),
{
    if ls.len() == 0 {
        seq![]
    } else {
        concat_all(ls.drop_last()) + ls.last()
    }
}

/// Number of clusters that `a` and `b` share at their start, counted from index `k` on.
pub open spec fn common_prefix_from(a: Seq<Seq<char>>, b: Seq<Seq<char>>, k: int) -> int
    decreases a.len() - k,
{
    if 0 <= k < a.len() && k < b.len() && a[k] == b[k] {
        common_prefix_from(a, b, k + 1)
    } else {
        k
    }
}

/// Number of clusters that `a` and `b` share at their end, counted from `k` clusters in.
pub open spec fn common_suffix_from(a: Seq<Seq<char>>, b: Seq<Seq<char>>, k: int) -> int
    decreases a.len() - k,
{
    if 0 <= k < a.len() && k < b.len() && a[a.len() - 1 - k] == b[b.len() - 1 - k] {
        common_suffix_from(a, b, k + 1)
    } else {
        k
    }
}

/// How many clusters the written form and the reading share at their start.
pub open spec fn common_start(surface: Seq<Seq<char>>, reading: Seq<Seq<char>>) -> int {
    common_prefix_from(surface, reading, 0)
}

/// How many clusters the written form and the reading share at their end.
pub open spec fn common_end(surface: Seq<Seq<char>>, reading: Seq<Seq<char>>) -> int {
    common_suffix_from(surface, reading, 0)
}

/// The annotation of `surface` with `reading`, whose clusters are `sc` and
/// `rc`: a leading space, then
/// - `surface[reading]` where they share neither first nor last cluster;
/// - the whole surface, and in brackets the reading past the shared start;
/// - else the surface without the shared end, the reading without it in
///   brackets, and the shared end after the brackets.
pub open spec fn annotate(
    surface: Seq<char>,
    reading: Seq<char>,
    sc: Seq<Seq<char>>,
    rc: Seq<Seq<char>>,
) -> Seq<char> {
    let cs = common_start(sc, rc);
    let ce = common_end(sc, rc);
    if cs == 0 && ce == 0 {
        seq![' '] + surface + seq!['['] + reading + seq![']']
    } else if cs > 0 {
        seq![' '] + surface + seq!['['] + concat_all(rc.subrange(cs, rc.len() as int)) + seq![']']
    } else {
        seq![' '] + concat_all(sc.subrange(0, sc.len() - ce)) + seq!['[']
            + concat_all(rc.subrange(0, rc.len() - ce)) + seq![']']
            + concat_all(sc.subrange(sc.len() - ce, sc.len() as int))
    }
}

/// The annotation of `surface` with `reading`, cut at their grapheme clusters.
pub open spec fn annotate_text(surface: Seq<char>, reading: Seq<char>) -> Seq<char> {
    annotate(surface, reading, graphemes_of(surface), graphemes_of(reading))
}

/// The written form in `surface [reading]` text: what stands before the first `[`, trimmed.
pub open spec fn outside_of(s: Seq<char>) -> Seq<char> {
    trim(split_from(s, '[', 0)[0])
}

/// The reading in `surface [reading]` text: what follows the first `[` up to
/// the next `]` (or the next `[`, or the end), trimmed.
pub open spec fn inside_of(s: Seq<char>) -> Seq<char> {
    trim(split_from(split_from(s, '[', 0)[1], ']', 0)[0])
}

pub open spec fn not_jp_comma(c: char) -> bool {
    c != '、'
}

/// What the annotator makes of `s`. Text without both `[` and `]` is left as
/// it is. A Japanese comma in the reading is dropped before the comparison
/// and becomes a trailing `,`.
pub open spec fn furigana(s: Seq<char>) -> Seq<char> {
    if !s.contains('[') || !s.contains(']') {
        s
    } else {
        let surface = outside_of(s);
        let inside = inside_of(s);
        if inside.contains('、') {
            annotate_text(surface, inside.filter(|c: char| not_jp_comma(c))) + seq![',']
        } else {
            annotate_text(surface, inside)
        }
    }
}

proof fn lemma_has_char(s: Seq<char>, c: char)
    ensures
        s.contains(c) <==> index_of_from(s, c, 0) is Some,
{
    lemma_index_of_from(s, c, 0);
    if index_of_from(s, c, 0) is Some {
        assert(s[index_of_from(s, c, 0)->0] == c);
    }
}

fn has_char(s: &Vec<char>, c: char) -> (r: bool)
    ensures
        r == s@.contains(c),
{
    proof {
        lemma_has_char(s@, c);
    }
    find_char(s, c, 0).is_some()
}

fn common_prefix(a: &Vec<String>, b: &Vec<String>) -> (r: usize)
    ensures
        r as int == common_start(strings_view(a@), strings_view(b@)),
        r <= a@.len(),
        r <= b@.len(),
{
    let ghost av = strings_view(a@);
    let ghost bv = strings_view(b@);
    let n = if a.len() < b.len() {
        a.len()
    } else {
        b.len()
    };
    let mut k: usize = 0;
    while k < n && a[k] == b[k]
        invariant
            av == strings_view(a@),
            bv == strings_view(b@),
            n <= a@.len(),
            n <= b@.len(),
            n == a@.len() || n == b@.len(),
            k <= n,
            common_prefix_from(av, bv, 0) == common_prefix_from(av, bv, k as int),
        decreases n - k,
    {
        assert(av[k as int] == a@[k as int]@ && bv[k as int] == b@[k as int]@);
        k = k + 1;
    }
    proof {
        if k < n {
            assert(av[k as int] == a@[k as int]@ && bv[k as int] == b@[k as int]@);
        }
    }
    k
}

fn common_suffix(a: &Vec<String>, b: &Vec<String>) -> (r: usize)
    ensures
        r as int == common_end(strings_view(a@), strings_view(b@)),
        r <= a@.len(),
        r <= b@.len(),
{
    let ghost av = strings_view(a@);
    let ghost bv = strings_view(b@);
    let n = if a.len() < b.len() {
        a.len()
    } else {
        b.len()
    };
    let mut k: usize = 0;
    while k < n && a[a.len() - 1 - k] == b[b.len() - 1 - k]
        invariant
            av == strings_view(a@),
            bv == strings_view(b@),
            n <= a@.len(),
            n <= b@.len(),
            n == a@.len() || n == b@.len(),
            k <= n,
            common_suffix_from(av, bv, 0) == common_suffix_from(av, bv, k as int),
        decreases n - k,
    {
        assert(av[a@.len() - 1 - k] == a@[a@.len() - 1 - k]@);
        assert(bv[b@.len() - 1 - k] == b@[b@.len() - 1 - k]@);
        k = k + 1;
    }
    proof {
        if k < n {
            assert(av[a@.len() - 1 - k] == a@[a@.len() - 1 - k]@);
            assert(bv[b@.len() - 1 - k] == b@[b@.len() - 1 - k]@);
        }
    }
    k
}

/// Relies on unicode-segmentation's `UnicodeSegmentation::graphemes(s, true)`:
/// the extended grapheme clusters of `s`, in order, which together make up `s`.
#[verifier::external_body]
fn graphemes(s: &str) -> (r: Vec<String>)
    ensures
        strings_view(r@) == graphemes_of(s@),
        concat_all(strings_view(r@)) == s@,
{
    unicode_segmentation::UnicodeSegmentation::graphemes(s, true).map(String::from).collect()
}

/// Appends the clusters `cs[lo..hi]` to `out`.
fn push_clusters(out: &mut Vec<char>, cs: &Vec<String>, lo: usize, hi: usize)
    requires
        lo <= hi <= cs@.len(),
    ensures
        final(out)@ == old(out)@ + concat_all(strings_view(cs@).subrange(lo as int, hi as int)),
{
    let ghost start = out@;
    let ghost cv = strings_view(cs@);
    let mut i: usize = lo;
    while i < hi
        invariant
            cv == strings_view(cs@),
            lo <= i <= hi <= cs@.len(),
            out@ == start + concat_all(cv.subrange(lo as int, i as int)),
        decreases hi - i,
    {
        let piece = chars_of(cs[i].as_str());
        push_range(out, &piece, 0, piece.len());
        proof {
            let next = cv.subrange(lo as int, i + 1);
            assert(next.drop_last() =~= cv.subrange(lo as int, i as int));
            assert(next.last() == cv[i as int]);
            assert(cv[i as int] == cs@[i as int]@);
            assert(piece@.subrange(0, piece@.len() as int) =~= piece@);
            assert(out@ =~= start + concat_all(next));
        }
        i = i + 1;
    }
}

/// The characters of `s` but those equal to `、`.
fn without_jp_comma(s: &Vec<char>) -> (r: Vec<char>)
    ensures
        r@ == s@.filter(|c: char| not_jp_comma(c)),
{
    let mut r: Vec<char> = Vec::new();
    let mut i: usize = 0;
    while i < s.len()
        invariant
            i <= s@.len(),
            r@ == s@.subrange(0, i as int).filter(|c: char| not_jp_comma(c)),
        decreases s.len() - i,
    {
        proof {
            assert(s@.subrange(0, i + 1) == s@.subrange(0, i as int).push(s@[i as int]));
            s@.subrange(0, i as int).lemma_filter_push(s@[i as int], |c: char| not_jp_comma(c));
        }
        if s[i] != '、' {
            r.push(s[i]);
        }
        i = i + 1;
    }
    assert(s@.subrange(0, s@.len() as int) == s@);
    r
}

fn copy_trimmed(s: &Vec<char>) -> (r: Vec<char>)
    ensures
        r@ == trim(s@),
{
    let (a, b) = trim_bounds(s);
    let mut r: Vec<char> = Vec::new();
    push_range(&mut r, s, a, b);
    r
}

/// The annotation of `surface` with `reading`, given their grapheme clusters;
/// see `annotate`.
pub fn annotate_reading(
    surface: &str,
    reading: &str,
    surface_clusters: &Vec<String>,
    reading_clusters: &Vec<String>,
) -> (r: String)
    ensures
        r@ == annotate(surface@, reading@, strings_view(surface_clusters@), strings_view(
            reading_clusters@,
        )),
{
    let sc = surface_clusters;
    let rc = reading_clusters;
    let cs = common_prefix(sc, rc);
    let ce = common_suffix(sc, rc);
    let sv = chars_of(surface);
    let rv = chars_of(reading);
    let mut out: Vec<char> = Vec::new();
    out.push(' ');
    if cs == 0 && ce == 0 {
        push_range(&mut out, &sv, 0, sv.len());
        out.push('[');
        push_range(&mut out, &rv, 0, rv.len());
        out.push(']');
    } else if cs > 0 {
        push_range(&mut out, &sv, 0, sv.len());
        out.push('[');
        push_clusters(&mut out, rc, cs, rc.len());
        out.push(']');
    } else {
        push_clusters(&mut out, sc, 0, sc.len() - ce);
        out.push('[');
        push_clusters(&mut out, rc, 0, rc.len() - ce);
        out.push(']');
        push_clusters(&mut out, sc, sc.len() - ce, sc.len());
    }
    proof {
        assert(sv@.subrange(0, sv@.len() as int) == sv@);
        assert(rv@.subrange(0, rv@.len() as int) == rv@);
        assert(out@ =~= annotate(surface@, reading@, strings_view(sc@), strings_view(rc@)));
    }
    string_of(&out, 0, out.len())
}

/// The annotation of `surface` with `reading`, cut at their grapheme clusters.
fn annotate_chars(surface: &Vec<char>, reading: &Vec<char>) -> (r: String)
    ensures
        r@ == annotate_text(surface@, reading@),
{
    let s = string_of(surface, 0, surface.len());
    let t = string_of(reading, 0, reading.len());
    proof {
        assert(surface@.subrange(0, surface@.len() as int) == surface@);
        assert(reading@.subrange(0, reading@.len() as int) == reading@);
    }
    let sc = graphemes(s.as_str());
    let rc = graphemes(t.as_str());
    annotate_reading(s.as_str(), t.as_str(), &sc, &rc)
}

/// Annotates `surface [reading]` text with the part of the reading that the
/// written form does not show; see `furigana`.
pub fn add_furigana(s: &str) -> (r: String)
    ensures
        r@ == furigana(s@),
{
    let v = chars_of(s);
    if !has_char(&v, '[') || !has_char(&v, ']') {
        return string_of(&v, 0, v.len());
    }
    proof {
        lemma_has_char(v@, '[');
    }
    let n = v.len();
    let p = find_char(&v, '[', 0).unwrap();
    proof {
        lemma_index_of_from(v@, '[', 0);
        assert(p < n);
        lemma_index_of_from(v@, '[', p + 1);
    }
    let q = match find_char(&v, '[', p + 1) {
        Some(q) => q,
        None => v.len(),
    };
    let mut before: Vec<char> = Vec::new();
    push_range(&mut before, &v, 0, p);
    let mut part: Vec<char> = Vec::new();
    push_range(&mut part, &v, p + 1, q);
    proof {
        lemma_index_of_from(part@, ']', 0);
    }
    let e = match find_char(&part, ']', 0) {
        Some(e) => e,
        None => part.len(),
    };
    let mut inner: Vec<char> = Vec::new();
    push_range(&mut inner, &part, 0, e);
    proof {
        let parts = split_from(v@, '[', 0);
        let rest = split_from(v@, '[', p + 1);
        assert(parts == seq![before@] + rest);
        assert(parts[0] == before@);
        if q < v.len() {
            assert(rest == seq![part@] + split_from(v@, '[', q + 1));
        } else {
            assert(rest == seq![part@]);
        }
        assert(rest[0] == part@);
        assert(parts[1] == rest[0]);
        assert(split_from(part@, ']', 0)[0] =~= inner@);
    }
    let surface = copy_trimmed(&before);
    let inside = copy_trimmed(&inner);
    if has_char(&inside, '、') {
        let reading = without_jp_comma(&inside);
        let mut out = annotate_chars(&surface, &reading);
        out.append(",");
        proof {
            reveal_strlit(",");
        }
        out
    } else {
        annotate_chars(&surface, &inside)
    }
}

/// A word entry without what follows a `Compound word` note, and without the
/// whitespace before that note.
pub open spec fn strip_compound(l: Seq<char>) -> Seq<char> {
    match first_match(l, compound_marker(), 0) {
        Some(k) => trim_end(l.subrange(0, k)),
        None => l,
    }
}

/// `s` from index `i` on, with the spaces inside each `【…】` reading removed.
pub open spec fn squeeze_from(s: Seq<char>, i: int) -> Seq<char>
    decreases s.len() - i,
{
    match index_of_from(s, '【', i) {
        Some(p) => match index_of_from(s, '】', p + 1) {
            Some(q) => if 0 <= i <= p < q < s.len() {
                s.subrange(i, p) + drop_char(s.subrange(p, q + 1), ' ') + squeeze_from(s, q + 1)
            } else {
                seq![]
            },
            None => s.subrange(i, s.len() as int),
        },
        None => s.subrange(i, s.len() as int),
    }
}

/// Index of the first of `ps` at or after `k` that holds `c`.
pub open spec fn first_piece_with(ps: Seq<Seq<char>>, c: char, k: int) -> Option<int>
    decreases ps.len() - k,
{
    if k < 0 || k >= ps.len() {
        None
    } else if ps[k].contains(c) {
        Some(k)
    } else {
        first_piece_with(ps, c, k + 1)
    }
}

/// The written form and the reading of a word entry: cut at single spaces,
/// the piece that opens the reading and the piece before it, joined by a
/// space; where no piece opens a reading, the last piece.
pub open spec fn reading_pair(s: Seq<char>) -> Seq<char> {
    let ps = split_from(s, ' ', 0);
    match first_piece_with(ps, '【', 0) {
        Some(k) => if k >= 1 {
            ps[k - 1] + seq![' '] + ps[k]
        } else {
            ps[k]
        },
        None => ps.last(),
    }
}

pub open spec fn ascii_bracket(c: char) -> char {
    if c == '【' {
        '['
    } else if c == '】' {
        ']'
    } else {
        c
    }
}

/// `【` and `】` written as `[` and `]`.
pub open spec fn normalize_brackets(s: Seq<char>) -> Seq<char> {
    s.map_values(|c: char| ascii_bracket(c))
}

/// The `surface [reading]` text of one word entry.
pub open spec fn entry_text(l: Seq<char>) -> Seq<char> {
    normalize_brackets(reading_pair(squeeze_from(strip_compound(l), 0)))
}

pub open spec fn is_entry(l: Seq<char>) -> bool {
    starts_with(l, seq!['*'])
}

/// The `surface [reading]` texts of the word entries among `ls`, in order.
pub open spec fn entry_texts(ls: Seq<Seq<char>>) -> Seq<Seq<char>> {
    ls.filter(|l: Seq<char>| is_entry(l)).map_values(|l: Seq<char>| entry_text(l))
}

/// The annotations of `ls`, in order.
pub open spec fn annotations(ls: Seq<Seq<char>>) -> Seq<Seq<char>> {
    ls.map_values(|s: Seq<char>| furigana(s))
}

/// Each entry without what follows its `Compound word` note; see `strip_compound`.
pub fn remove_compound_words(strings: Vec<&str>) -> (r: Vec<&str>)
    ensures
        lines_view(r@) == lines_view(strings@).map_values(|l: Seq<char>| strip_compound(l)),
{
    let marker = chars_of("Compound word");
    let mut r: Vec<&str> = Vec::new();
    let mut i: usize = 0;
    while i < strings.len()
        invariant
            marker@ == compound_marker(),
            i <= strings@.len(),
            r@.len() == i,
            forall|k: int| 0 <= k < i ==> (#[trigger] r@[k])@ == strip_compound(strings@[k]@),
        decreases strings.len() - i,
    {
        let s = strings[i];
        let v = chars_of(s);
        match find_seq(&v, &marker, 0) {
            Some(k) => {
                proof {
                    crate::text::lemma_first_match(v@, marker@, 0);
                }
                let ghost sub = v@.subrange(0, k as int);
                let mut j: usize = k;
                while j > 0 && is_whitespace(v[j - 1])
                    invariant
                        j <= k < v@.len() + 1,
                        k <= v@.len(),
                        sub == v@.subrange(0, k as int),
                        back_ws(sub, k as int) == back_ws(sub, j as int),
                    decreases j,
                {
                    assert(sub[j - 1] == v@[j - 1]);
                    j = j - 1;
                }
                proof {
                    if j > 0 {
                        assert(sub[j - 1] == v@[j - 1]);
                    }
                    assert(sub.subrange(0, j as int) =~= v@.subrange(0, j as int));
                }
                r.push(s.substring_char(0, j));
            },
            None => {
                r.push(s);
            },
        }
        i = i + 1;
    }
    assert(lines_view(r@) =~= lines_view(strings@).map_values(|l: Seq<char>| strip_compound(l)));
    r
}

/// `s` with the spaces inside each `【…】` reading removed.
fn squeeze_readings(s: &Vec<char>) -> (r: Vec<char>)
    ensures
        r@ == squeeze_from(s@, 0),
{
    let n = s.len();
    let mut out: Vec<char> = Vec::new();
    let mut i: usize = 0;
    loop
        invariant
            n == s@.len(),
            i <= n,
            squeeze_from(s@, 0) == out@ + squeeze_from(s@, i as int),
        decreases n - i,
    {
        proof {
            lemma_index_of_from(s@, '【', i as int);
        }
        let p = match find_char(s, '【', i) {
            Some(p) => p,
            None => {
                push_range(&mut out, s, i, n);
                return out;
            },
        };
        proof {
            lemma_index_of_from(s@, '】', p + 1);
        }
        let q = match find_char(s, '】', p + 1) {
            Some(q) => q,
            None => {
                push_range(&mut out, s, i, n);
                return out;
            },
        };
        let ghost before = out@;
        push_range(&mut out, s, i, p);
        push_without(&mut out, s, p, q + 1, ' ');
        proof {
            assert(out@ + squeeze_from(s@, q + 1) =~= before + squeeze_from(s@, i as int));
        }
        i = q + 1;
    }
}

/// The written form and the reading of a word entry; see `reading_pair`.
fn pair_of(s: &Vec<char>) -> (r: Vec<char>)
    ensures
        r@ == reading_pair(s@),
{
    let ps = split_chars(s, ' ');
    let ghost pv = char_seqs(ps@);
    proof {
        lemma_split_nonempty(s@, ' ', 0);
    }
    let mut k: usize = 0;
    while k < ps.len()
        invariant
            pv == char_seqs(ps@),
            pv == split_from(s@, ' ', 0),
            k <= ps@.len(),
            first_piece_with(pv, '【', 0) == first_piece_with(pv, '【', k as int),
        decreases ps.len() - k,
    {
        assert(pv[k as int] == ps@[k as int]@);
        if has_char(&ps[k], '【') {
            let mut out: Vec<char> = Vec::new();
            if k >= 1 {
                assert(pv[k - 1] == ps@[k - 1]@);
                push_range(&mut out, &ps[k - 1], 0, ps[k - 1].len());
                out.push(' ');
            }
            push_range(&mut out, &ps[k], 0, ps[k].len());
            proof {
                if k >= 1 {
                    assert(ps@[k - 1]@.subrange(0, ps@[k - 1]@.len() as int) == ps@[k - 1]@);
                }
                assert(ps@[k as int]@.subrange(0, ps@[k as int]@.len() as int) == ps@[k as int]@);
                assert(out@ =~= reading_pair(s@));
            }
            return out;
        }
        k = k + 1;
    }
    let last = ps.len() - 1;
    assert(pv[last as int] == ps@[last as int]@);
    let mut out: Vec<char> = Vec::new();
    push_range(&mut out, &ps[last], 0, ps[last].len());
    assert(ps@[last as int]@.subrange(0, ps@[last as int]@.len() as int) == ps@[last as int]@);
    out
}

/// `s` with `【` and `】` written as `[` and `]`.
fn normalized(s: &Vec<char>) -> (r: String)
    ensures
        r@ == normalize_brackets(s@),
{
    let mut out: Vec<char> = Vec::new();
    let mut i: usize = 0;
    while i < s.len()
        invariant
            i <= s@.len(),
            out@.len() == i,
            forall|k: int| 0 <= k < i ==> #[trigger] out@[k] == ascii_bracket(s@[k]),
        decreases s.len() - i,
    {
        let c = s[i];
        let d = if c == '【' {
            '['
        } else if c == '】' {
            ']'
        } else {
            c
        };
        out.push(d);
        i = i + 1;
    }
    assert(out@ =~= normalize_brackets(s@));
    string_of(&out, 0, out.len())
}

/// The `surface [reading]` texts of the word entries (lines that start with
/// `*`) among the analyzer's output lines.
pub fn ichiran_output_to_kanji_hirigana_array(lines: Vec<&str>) -> (r: Vec<String>)
    ensures
        strings_view(r@) == entry_texts(lines_view(lines@)),
{
    let ghost lv = lines_view(lines@);
    let mut star_lines: Vec<&str> = Vec::new();
    let mut i: usize = 0;
    while i < lines.len()
        invariant
            lv == lines_view(lines@),
            i <= lines@.len(),
            lines_view(star_lines@) == lv.subrange(0, i as int).filter(
                |l: Seq<char>| is_entry(l),
            ),
        decreases lines.len() - i,
    {
        let line = lines[i];
        proof {
            assert(lv.subrange(0, i + 1) == lv.subrange(0, i as int).push(lv[i as int]));
            lv.subrange(0, i as int).lemma_filter_push(lv[i as int], |l: Seq<char>| is_entry(l));
        }
        let entry = line.unicode_len() > 0 && line.get_char(0) == '*';
        proof {
            if line@.len() > 0 {
                assert(entry == is_entry(line@)) by {
                    if entry {
                        assert(line@.subrange(0, 1) =~= seq!['*']);
                    } else {
                        assert(line@.subrange(0, 1)[0] == line@[0]);
                    }
                }
            }
        }
        if entry {
            assert(lines_view(star_lines@.push(line)) =~= lines_view(star_lines@).push(line@));
            star_lines.push(line);
        }
        i = i + 1;
    }
    assert(lv.subrange(0, lv.len() as int) == lv);
    let ghost sv = lines_view(star_lines@);
    let stripped = remove_compound_words(star_lines);
    assert(lines_view(stripped@).len() == stripped@.len());
    let mut r: Vec<String> = Vec::new();
    let mut j: usize = 0;
    while j < stripped.len()
        invariant
            sv == lv.filter(|l: Seq<char>| is_entry(l)),
            lines_view(stripped@) == sv.map_values(|l: Seq<char>| strip_compound(l)),
            stripped@.len() == sv.len(),
            j <= stripped@.len(),
            r@.len() == j,
            forall|k: int| 0 <= k < j ==> (#[trigger] r@[k])@ == entry_text(sv[k]),
        decreases stripped.len() - j,
    {
        assert(lines_view(stripped@)[j as int] == stripped@[j as int]@);
        assert(stripped@[j as int]@ == strip_compound(sv[j as int]));
        let v = chars_of(stripped[j]);
        let text = normalized(&pair_of(&squeeze_readings(&v)));
        r.push(text);
        j = j + 1;
    }
    assert(strings_view(r@) =~= entry_texts(lv));
    r
}

/// Annotates each `surface [reading]` text; see `furigana`.
pub fn process_kanji_hirigana_into_kanji_with_furigana(new_list: Vec<String>) -> (r: Vec<String>)
    ensures
        strings_view(r@) == annotations(strings_view(new_list@)),
{
    let mut r: Vec<String> = Vec::new();
    let mut i: usize = 0;
    while i < new_list.len()
        invariant
            i <= new_list@.len(),
            r@.len() == i,
            forall|k: int| 0 <= k < i ==> (#[trigger] r@[k])@ == furigana(new_list@[k]@),
        decreases new_list.len() - i,
    {
        r.push(add_furigana(new_list[i].as_str()));
        i = i + 1;
    }
    assert(strings_view(r@) =~= annotations(strings_view(new_list@)));
    r
}

/// The annotated written forms of the word entries among the analyzer's output lines.
pub fn ichiran_output_to_bracket_furigana(lines: Vec<&str>) -> (r: Vec<String>)
    ensures
        strings_view(r@) == annotations(entry_texts(lines_view(lines@))),
{
    let new_list = ichiran_output_to_kanji_hirigana_array(lines);
    process_kanji_hirigana_into_kanji_with_furigana(new_list)
}

/// Text that lacks `[` or `]` is left as it is.
pub proof fn lemma_plain_text_unchanged(s: Seq<char>)
    requires
        !s.contains('[') || !s.contains(']'),
    ensures
        furigana(s) == s,
{
}

proof fn lemma_prefix_of_itself(x: Seq<Seq<char>>, k: int)
    requires
        0 <= k <= x.len(),
    ensures
        common_prefix_from(x, x, k) == x.len(),
    decreases x.len() - k,
{
    if k < x.len() {
        lemma_prefix_of_itself(x, k + 1);
    }
}

/// A written form that is its own reading shares all its clusters at the
/// start, and its annotation shows empty brackets. `c` are the clusters that
/// make up `x`.
pub proof fn lemma_same_reading(x: Seq<char>, c: Seq<Seq<char>>)
    requires
        concat_all(c) == x,
    ensures
        common_start(c, c) == c.len(),
        annotate(x, x, c, c) == seq![' '] + x + seq!['[', ']'],
{
    lemma_prefix_of_itself(c, 0);
    if c.len() > 0 {
        assert(c.subrange(c.len() as int, c.len() as int) =~= Seq::<Seq<char>>::empty());
        assert(concat_all(Seq::<Seq<char>>::empty()) == Seq::<char>::empty());
    }
    assert(annotate(x, x, c, c) =~= seq![' '] + x + seq!['[', ']']);
}

/// Text whose written form and reading are equal is annotated with empty
/// brackets, where the clusters of the written form make it up (as the
/// segmentation's clusters always do).
pub proof fn lemma_same_reading_text(s: Seq<char>)
    requires
        s.contains('['),
        s.contains(']'),
        outside_of(s) == inside_of(s),
        !inside_of(s).contains('、'),
        concat_all(graphemes_of(outside_of(s))) == outside_of(s),
    ensures
        furigana(s) == seq![' '] + outside_of(s) + seq!['[', ']'],
{
    lemma_same_reading(outside_of(s), graphemes_of(outside_of(s)));
}

/// What `trim` keeps of `x` stands in `x`.
proof fn lemma_trim_absent(x: Seq<char>, c: char)
    requires
        !x.contains(c),
    ensures
        !trim(x).contains(c),
{
    lemma_skip_ws(x, 0);
    let a = skip_ws(x, 0);
    let y = trim_start(x);
    crate::text::lemma_back_ws(y, y.len() as int);
    if trim(x).contains(c) {
        let k = choose|k: int| 0 <= k < trim(x).len() && trim(x)[k] == c;
        assert(trim(x)[k] == y[k]);
        assert(y[k] == x[a + k]);
    }
}

/// The written form and the reading of annotated text hold no bracket of the
/// kinds that delimit them.
proof fn lemma_parts_bracket_free(s: Seq<char>)
    requires
        s.contains('['),
    ensures
        !outside_of(s).contains('['),
        !inside_of(s).contains('['),
        !inside_of(s).contains(']'),
{
    lemma_has_char(s, '[');
    lemma_index_of_from(s, '[', 0);
    let p = index_of_from(s, '[', 0)->0;
    let parts = split_from(s, '[', 0);
    let rest = split_from(s, '[', p + 1);
    assert(parts == seq![s.subrange(0, p)] + rest);
    let part0 = s.subrange(0, p);
    assert(parts[0] == part0);
    assert(!part0.contains('[')) by {
        if part0.contains('[') {
            let k = choose|k: int| 0 <= k < part0.len() && part0[k] == '[';
            assert(s[k] == '[');
        }
    }
    lemma_trim_absent(part0, '[');
    lemma_index_of_from(s, '[', p + 1);
    let q = match index_of_from(s, '[', p + 1) {
        Some(q) => q,
        None => s.len() as int,
    };
    let part1 = s.subrange(p + 1, q);
    if q < s.len() {
        assert(rest == seq![part1] + split_from(s, '[', q + 1));
    } else {
        assert(rest == seq![part1]);
    }
    assert(parts[1] == part1);
    assert(!part1.contains('[')) by {
        if part1.contains('[') {
            let k = choose|k: int| 0 <= k < part1.len() && part1[k] == '[';
            assert(s[p + 1 + k] == '[');
        }
    }
    lemma_index_of_from(part1, ']', 0);
    let e = match index_of_from(part1, ']', 0) {
        Some(e) => e,
        None => part1.len() as int,
    };
    let inner = part1.subrange(0, e);
    if e < part1.len() {
        assert(split_from(part1, ']', 0) == seq![inner] + split_from(part1, ']', e + 1));
    } else {
        assert(split_from(part1, ']', 0) == seq![inner]);
    }
    assert(split_from(part1, ']', 0)[0] == inner);
    assert(!inner.contains('[') && !inner.contains(']')) by {
        if inner.contains('[') {
            let k = choose|k: int| 0 <= k < inner.len() && inner[k] == '[';
            assert(part1[k] == '[');
        }
        if inner.contains(']') {
            let k = choose|k: int| 0 <= k < inner.len() && inner[k] == ']';
            assert(part1[k] == ']');
        }
    }
    lemma_trim_absent(inner, '[');
    lemma_trim_absent(inner, ']');
}

/// Re-annotating an annotation that shows the whole reading gives it back
/// unchanged. That is the case where the written form and the reading share
/// neither their first nor their last cluster and the reading holds no
/// Japanese comma.
pub proof fn lemma_reannotate(s: Seq<char>)
    requires
        s.contains('['),
        s.contains(']'),
        !inside_of(s).contains('、'),
        common_start(graphemes_of(outside_of(s)), graphemes_of(inside_of(s))) == 0,
        common_end(graphemes_of(outside_of(s)), graphemes_of(inside_of(s))) == 0,
    ensures
        furigana(furigana(s)) == furigana(s),
{
    let o = outside_of(s);
    let i = inside_of(s);
    lemma_parts_bracket_free(s);
    lemma_trim_trimmed(split_from(s, '[', 0)[0]);
    lemma_trim_trimmed(split_from(split_from(s, '[', 0)[1], ']', 0)[0]);
    let a = seq![' '] + o + seq!['['] + i + seq![']'];
    assert(furigana(s) == a);
    let ol = o.len() as int;
    let il = i.len() as int;
    assert(a[ol + 1] == '[');
    assert(a[a.len() - 1] == ']');
    assert(a.contains('['));
    assert(a.contains(']'));
    assert forall|j: int| 0 <= j < ol + 1 implies a[j] != '[' by {
        if j > 0 {
            assert(a[j] == o[j - 1]);
        }
    }
    lemma_index_of_from_is(a, '[', 0, ol + 1);
    assert forall|j: int| ol + 2 <= j < a.len() implies a[j] != '[' by {
        if j < a.len() - 1 {
            assert(a[j] == i[j - ol - 2]);
        }
    }
    lemma_index_of_from_none(a, '[', ol + 2);
    let head = a.subrange(0, ol + 1);
    let tail = a.subrange(ol + 2, a.len() as int);
    assert(split_from(a, '[', 0) == seq![head] + split_from(a, '[', ol + 2));
    assert(split_from(a, '[', ol + 2) == seq![tail]);
    assert(head =~= seq![' '] + o);
    assert(tail =~= i + seq![']']);
    lemma_trim_fixed(o);
    lemma_trim_fixed(i);
    assert(outside_of(a) == o);
    assert forall|j: int| 0 <= j < il implies tail[j] != ']' by {
        assert(tail[j] == i[j]);
    }
    lemma_index_of_from_is(tail, ']', 0, il);
    assert(split_from(tail, ']', 0) == seq![tail.subrange(0, il)] + split_from(tail, ']', il + 1));
    assert(tail.subrange(0, il) =~= i);
    assert(inside_of(a) == i);
}

} // verus!
