//! The line tokenizer: turns the analyzer's line-oriented output into an
//! ordered sequence of tokens.
//!
//! Lines are read with an explicit cursor. Each line is one of:
//! - a compound-word header (it contains `Compound word`): two conjugation
//!   blocks stand three and six lines further on, each with its base-form line
//!   right after it; the whole block of eight lines becomes one `CompoundWord`,
//!   or, where those lines are missing or malformed, the header is skipped;
//! - a conjugation header (it contains `Conjugation`, in the shape
//!   `[ Conjugation: [<pos>] <type>`), followed by its base-form line;
//! - a word header (it starts with `*`), followed by its sense lines;
//! - anything else, which is skipped.
//! Nothing aborts the parse: a malformed entry only yields fewer tokens.
use vstd::prelude::*;

use crate::text::{
    blank, char_seqs, chars_of, contains, contains_seq, end_of_word, find_char, find_seq,
    first_match, index_of_from, is_blank, lemma_first_match, lemma_index_of_from,
    skip_whitespace, skip_ws, starts_with, starts_with_chars, string_of, word_end,
};

verus! {

/// A single lexical unit.
#[derive(Clone, Debug, PartialEq, Eq)]
pub struct Word {
    /// The written form.
    pub surface: String,
    /// The kana reading, where the entry gives one in `【…】`.
    pub reading: Option<String>,
    /// Comma-separated part-of-speech tags, such as `n,vs`.
    pub pos: String,
    /// The entry's sense lines, in order.
    pub meanings: Vec<String>,
}

/// An inflected form, with the dictionary form it comes from.
#[derive(Clone, Debug, PartialEq, Eq)]
pub struct Conjugation {
    pub pos: String,
    pub base_form: String,
    pub conjugation_type: String,
    pub meanings: Vec<String>,
}

/// Two conjugations fused into one surface unit.
#[derive(Clone, Debug, PartialEq, Eq)]
pub struct CompoundWord {
    pub first: Conjugation,
    pub second: Conjugation,
}

#[derive(Clone, Debug, PartialEq, Eq)]
pub enum Token {
    Word(Word),
    Conjugation(Conjugation),
    CompoundWord(CompoundWord),
}

pub struct WordV {
    pub surface: Seq<char>,
    pub reading: Option<Seq<char>>,
    pub pos: Seq<char>,
    pub meanings: Seq<Seq<char>>,
}

pub struct ConjugationV {
    pub pos: Seq<char>,
    pub base_form: Seq<char>,
    pub conjugation_type: Seq<char>,
    pub meanings: Seq<Seq<char>>,
}

pub enum TokenV {
    Word(WordV),
    Conjugation(ConjugationV),
    CompoundWord(ConjugationV, ConjugationV),
}

pub open spec fn strings_view(v: Seq<String>) -> Seq<Seq<char>> {
    v.map_values(|s: String| s@)
}

pub open spec fn opt_view(o: Option<String>) -> Option<Seq<char>> {
    match o {
        Some(s) => Some(s@),
        None => None,
    }
}

impl View for Word {
    type V = WordV;

    open spec fn view(&self) -> WordV {
        WordV {
            surface: self.surface@,
            reading: opt_view(self.reading),
            pos: self.pos@,
            meanings: strings_view(self.meanings@),
        }
    }
}

impl View for Conjugation {
    type V = ConjugationV;

    open spec fn view(&self) -> ConjugationV {
        ConjugationV {
            pos: self.pos@,
            base_form: self.base_form@,
            conjugation_type: self.conjugation_type@,
            meanings: strings_view(self.meanings@),
        }
    }
}

impl View for Token {
    type V = TokenV;

    open spec fn view(&self) -> TokenV {
        match self {
            Token::Word(w) => TokenV::Word(w@),
            Token::Conjugation(c) => TokenV::Conjugation(c@),
            Token::CompoundWord(cw) => TokenV::CompoundWord(cw.first@, cw.second@),
        }
    }
}

pub open spec fn tokens_view(v: Seq<Token>) -> Seq<TokenV> {
    v.map_values(|t: Token| t@)
}

pub open spec fn lines_view(v: Seq<&str>) -> Seq<Seq<char>> {
    v.map_values(|s: &str| s@)
}

/// Substring that marks a compound-word header.
pub open spec fn compound_marker() -> Seq<char> {
    "Compound word"@
}

/// Substring that marks a conjugation header.
pub open spec fn conjugation_marker() -> Seq<char> {
    "Conjugation"@
}

/// Opening of a conjugation header, up to its part-of-speech tags.
pub open spec fn conjugation_head() -> Seq<char> {
    "[ Conjugation: ["@
}

/// What closes the tags of a conjugation header, before its type.
pub open spec fn conjugation_head_close() -> Seq<char> {
    "] "@
}

/// Indent before the base form on the line after a conjugation header.
pub open spec fn base_indent() -> Seq<char> {
    "  "@
}

/// What follows the base form: a space and the reading bracket.
pub open spec fn reading_open() -> Seq<char> {
    " 【"@
}

/// Prefix of the first sense line of a word entry.
pub open spec fn sense_marker() -> Seq<char> {
    "1."@
}

/// The conjugation type that keeps the word before it (the continuative form).
pub open spec fn te_form() -> Seq<char> {
    "Conjunctive (~te)"@
}

/// A line that opens an entry; sense lines stop before it.
pub open spec fn is_marker(l: Seq<char>) -> bool {
    ||| starts_with(l, seq!['*'])
    ||| contains_seq(l, conjugation_marker())
    ||| contains_seq(l, compound_marker())
}

/// The non-blank lines from `from` on, up to the next marker line or the end.
pub open spec fn meaning_lines(ls: Seq<Seq<char>>, from: int) -> Seq<Seq<char>>
    decreases ls.len() - from,
{
    if from < 0 || from >= ls.len() || is_marker(ls[from]) {
        seq![]
    } else if is_blank(ls[from]) {
        meaning_lines(ls, from + 1)
    } else {
        seq![ls[from]] + meaning_lines(ls, from + 1)
    }
}

/// The tags and the type of a conjugation header `[ Conjugation: [<pos>] <type>`.
pub open spec fn conj_header(l: Seq<char>) -> Option<(Seq<char>, Seq<char>)> {
    match first_match(l, conjugation_head(), 0) {
        Some(p) => {
            let a = p + conjugation_head().len();
            match first_match(l, conjugation_head_close(), a) {
                Some(q) => Some(
                    (
                        l.subrange(a, q),
                        l.subrange(q + conjugation_head_close().len(), l.len() as int),
                    ),
                ),
                None => None,
            }
        },
        None => None,
    }
}

/// The base form on a line `  <base> 【<reading>】`.
pub open spec fn base_form_of(l: Seq<char>) -> Option<Seq<char>> {
    match first_match(l, base_indent(), 0) {
        Some(p) => {
            let a = p + base_indent().len();
            match first_match(l, reading_open(), a) {
                Some(q) => Some(l.subrange(a, q)),
                None => None,
            }
        },
        None => None,
    }
}

pub open spec fn is_tag_char(c: char) -> bool {
    ('a' <= c && c <= 'z') || ('0' <= c && c <= '9') || c == ',' || c == '-'
}

/// End of the run of tag characters that starts at `k`.
pub open spec fn tag_run_end(l: Seq<char>, k: int) -> int
    decreases l.len() - k,
{
    if 0 <= k < l.len() && is_tag_char(l[k]) {
        tag_run_end(l, k + 1)
    } else {
        k
    }
}

/// A bracketed tag list `[tags]`, with at least one tag character, opens at `p`.
pub open spec fn tag_list_at(l: Seq<char>, p: int) -> bool {
    let e = tag_run_end(l, p + 1);
    0 <= p < l.len() && l[p] == '[' && p + 1 < e < l.len() && l[e] == ']'
}

/// The first bracketed tag list from `from` on, without its brackets; empty if there is none.
pub open spec fn first_tag_list(l: Seq<char>, from: int) -> Seq<char>
    decreases l.len() - from,
{
    if from < 0 || from >= l.len() {
        seq![]
    } else if tag_list_at(l, from) {
        l.subrange(from + 1, tag_run_end(l, from + 1))
    } else {
        first_tag_list(l, from + 1)
    }
}

/// The part of speech of the word whose header is line `i`: the tag list of
/// its first sense line, which follows the header directly or after one blank line.
pub open spec fn pos_of(ls: Seq<Seq<char>>, i: int) -> Seq<char> {
    if i + 1 < ls.len() && starts_with(ls[i + 1], sense_marker()) {
        first_tag_list(ls[i + 1], 0)
    } else if i + 2 < ls.len() && is_blank(ls[i + 1]) && starts_with(ls[i + 2], sense_marker()) {
        first_tag_list(ls[i + 2], 0)
    } else {
        seq![]
    }
}

pub open spec fn has_bracket(w: Seq<char>) -> bool {
    w.contains('【') || w.contains('】')
}

/// The first whitespace-separated word from `i` on that holds no reading bracket.
pub open spec fn first_plain_word(s: Seq<char>, i: int) -> Option<Seq<char>>
    decreases s.len() - i,
{
    let a = skip_ws(s, i);
    let b = word_end(s, a);
    if i < 0 || a >= s.len() || !(i < b <= s.len()) {
        None
    } else if !has_bracket(s.subrange(a, b)) {
        Some(s.subrange(a, b))
    } else {
        first_plain_word(s, b)
    }
}

/// Where the search for the written form starts in a word header: after the
/// `*`, and past an inflection-class word that begins with `<`.
pub open spec fn surface_search_start(s: Seq<char>) -> int {
    let a = skip_ws(s, 1);
    if a < s.len() && s[a] == '<' {
        word_end(s, a)
    } else {
        1
    }
}

/// The written form in a word header `* <surface> 【<reading>】`.
pub open spec fn header_surface(s: Seq<char>) -> Option<Seq<char>> {
    if starts_with(s, seq!['*']) {
        first_plain_word(s, surface_search_start(s))
    } else {
        None
    }
}

/// The text between the first `【` and the next `】`.
pub open spec fn reading_of(s: Seq<char>) -> Option<Seq<char>> {
    match index_of_from(s, '【', 0) {
        Some(p) => match index_of_from(s, '】', p + 1) {
            Some(q) => Some(s.subrange(p + 1, q)),
            None => None,
        },
        None => None,
    }
}

/// The word whose header is line `i`.
pub open spec fn word_at(ls: Seq<Seq<char>>, i: int) -> Option<WordV> {
    match header_surface(ls[i]) {
        Some(w) => Some(
            WordV {
                surface: w,
                reading: reading_of(ls[i]),
                pos: pos_of(ls, i),
                meanings: meaning_lines(ls, i + 1),
            },
        ),
        None => None,
    }
}

/// The conjugation whose header is line `k`. Its base form is read from the
/// next line; where that line has none, `fallback` stands in, and without a
/// fallback there is no conjugation.
pub open spec fn conjugation_at(
    ls: Seq<Seq<char>>,
    k: int,
    fallback: Option<Seq<char>>,
) -> Option<ConjugationV> {
    if 0 <= k && k + 1 < ls.len() {
        match conj_header(ls[k]) {
            Some(h) => {
                let base = match base_form_of(ls[k + 1]) {
                    Some(b) => Some(b),
                    None => fallback,
                };
                match base {
                    Some(b) => Some(
                        ConjugationV {
                            pos: h.0,
                            base_form: b,
                            conjugation_type: h.1,
                            meanings: meaning_lines(ls, k + 1),
                        },
                    ),
                    None => None,
                }
            },
            None => None,
        }
    } else {
        None
    }
}

/// The compound word whose header is line `i`, with its conjugations three
/// and six lines further on.
pub open spec fn compound_at(ls: Seq<Seq<char>>, i: int) -> Option<TokenV> {
    if 0 <= i && i + 7 < ls.len() {
        match (conjugation_at(ls, i + 3, None), conjugation_at(ls, i + 6, None)) {
            (Some(a), Some(b)) => Some(TokenV::CompoundWord(a, b)),
            _ => None,
        }
    } else {
        None
    }
}

/// The surface of the last token where it is a word; empty otherwise.
pub open spec fn last_word_surface(acc: Seq<TokenV>) -> Seq<char> {
    if acc.len() > 0 && acc.last() is Word {
        acc.last()->Word_0.surface
    } else {
        seq![]
    }
}

/// Appends a conjugation. After a word, the conjugation replaces it, unless
/// it is of the continuative (te) form, which keeps both.
pub open spec fn push_conj(acc: Seq<TokenV>, c: ConjugationV) -> Seq<TokenV> {
    if acc.len() > 0 && acc.last() is Word && !contains_seq(c.conjugation_type, te_form()) {
        acc.drop_last().push(TokenV::Conjugation(c))
    } else {
        acc.push(TokenV::Conjugation(c))
    }
}

/// Lines consumed by a compound-word block: its header, the two lines
/// after it, and the two conjugation blocks of header and base-form line,
/// each after one separating line.
pub open spec fn compound_span() -> int {
    8
}

/// The tokens of lines `i..`, given the tokens `acc` of the lines before.
///
/// A compound word consumes its whole block: the two conjugations in it are
/// parts of the compound, and reading them once more as conjugations of their
/// own would count them twice, and let them replace the word before the block.
pub open spec fn tokens_from(ls: Seq<Seq<char>>, i: int, acc: Seq<TokenV>) -> Seq<TokenV>
    decreases ls.len() - i,
{
    if i < 0 || i >= ls.len() {
        acc
    } else if contains_seq(ls[i], compound_marker()) {
        match compound_at(ls, i) {
            Some(t) => tokens_from(ls, i + compound_span(), acc.push(t)),
            None => tokens_from(ls, i + 1, acc),
        }
    } else if contains_seq(ls[i], conjugation_marker()) {
        match conjugation_at(ls, i, Some(last_word_surface(acc))) {
            Some(c) => tokens_from(ls, i + 1, push_conj(acc, c)),
            None => tokens_from(ls, i + 1, acc),
        }
    } else {
        match word_at(ls, i) {
            Some(w) => tokens_from(ls, i + 1, acc.push(TokenV::Word(w))),
            None => tokens_from(ls, i + 1, acc),
        }
    }
}

/// The tokens of the analyzer's output `ls`.
pub open spec fn tokenize(ls: Seq<Seq<char>>) -> Seq<TokenV> {
    tokens_from(ls, 0, seq![])
}

/// `acc` still begins with `base`, and where it is no longer, `base` does not end in a word.
pub open spec fn extends(base: Seq<TokenV>, acc: Seq<TokenV>) -> bool {
    &&& acc.len() >= base.len()
    &&& acc.subrange(0, base.len() as int) == base
    &&& (acc.len() == base.len() ==> !(acc.last() is Word))
}

/// Tokens that end in something other than a word are never changed by the
/// lines that follow: only a word at the very end can be replaced.
proof fn lemma_prefix_kept(ls: Seq<Seq<char>>, i: int, base: Seq<TokenV>, acc: Seq<TokenV>)
    requires
        base.len() > 0,
        extends(base, acc),
    ensures
        tokens_from(ls, i, acc).len() >= base.len(),
        tokens_from(ls, i, acc).subrange(0, base.len() as int) == base,
    decreases ls.len() - i,
{
    let n = base.len() as int;
    if 0 <= i < ls.len() {
        if contains_seq(ls[i], compound_marker()) {
            match compound_at(ls, i) {
                Some(t) => {
                    assert(acc.push(t).subrange(0, n) =~= acc.subrange(0, n));
                    lemma_prefix_kept(ls, i + compound_span(), base, acc.push(t));
                },
                None => lemma_prefix_kept(ls, i + 1, base, acc),
            }
        } else if contains_seq(ls[i], conjugation_marker()) {
            match conjugation_at(ls, i, Some(last_word_surface(acc))) {
                Some(c) => {
                    let next = push_conj(acc, c);
                    if acc.len() > 0 && acc.last() is Word && !contains_seq(
                        c.conjugation_type,
                        te_form(),
                    ) {
                        assert(acc.len() > n);
                        assert(next.subrange(0, n) =~= acc.subrange(0, n));
                    } else {
                        assert(next.subrange(0, n) =~= acc.subrange(0, n));
                    }
                    lemma_prefix_kept(ls, i + 1, base, next);
                },
                None => lemma_prefix_kept(ls, i + 1, base, acc),
            }
        } else {
            match word_at(ls, i) {
                Some(w) => {
                    let next = acc.push(TokenV::Word(w));
                    assert(next.subrange(0, n) =~= acc.subrange(0, n));
                    lemma_prefix_kept(ls, i + 1, base, next);
                },
                None => lemma_prefix_kept(ls, i + 1, base, acc),
            }
        }
    } else {
        assert(acc.subrange(0, n) == base);
    }
}

/// A conjugation read right after a word, in the result of the whole rest of
/// the parse (`acc` being the tokens of the lines before line `i`): where its
/// type is the te form, the word stays and the conjugation follows it; where
/// it is any other, the conjugation takes the word's place. The tokens before
/// the word are kept either way.
pub proof fn lemma_conjugation_after_word(ls: Seq<Seq<char>>, i: int, acc: Seq<TokenV>)
    requires
        0 <= i < ls.len(),
        !contains_seq(ls[i], compound_marker()),
        contains_seq(ls[i], conjugation_marker()),
        conjugation_at(ls, i, Some(last_word_surface(acc))) is Some,
        acc.len() > 0,
        acc.last() is Word,
    ensures
        contains_seq(
            conjugation_at(ls, i, Some(last_word_surface(acc)))->0.conjugation_type,
            te_form(),
        ) ==> tokens_from(ls, i, acc).subrange(0, acc.len() + 1 as int) == acc.push(
            TokenV::Conjugation(conjugation_at(ls, i, Some(last_word_surface(acc)))->0),
        ),
        !contains_seq(
            conjugation_at(ls, i, Some(last_word_surface(acc)))->0.conjugation_type,
            te_form(),
        ) ==> tokens_from(ls, i, acc).subrange(0, acc.len() as int) == acc.drop_last().push(
            TokenV::Conjugation(conjugation_at(ls, i, Some(last_word_surface(acc)))->0),
        ),
{
    let c = conjugation_at(ls, i, Some(last_word_surface(acc)))->0;
    let next = push_conj(acc, c);
    assert(tokens_from(ls, i, acc) == tokens_from(ls, i + 1, next));
    assert(next.last() == TokenV::Conjugation(c));
    assert(next.subrange(0, next.len() as int) =~= next);
    assert(extends(next, next));
    lemma_prefix_kept(ls, i + 1, next, next);
}

/// The literal patterns of the line format, as characters.
struct Patterns {
    star: Vec<char>,
    compound: Vec<char>,
    conjugation: Vec<char>,
    head: Vec<char>,
    head_close: Vec<char>,
    indent: Vec<char>,
    reading_open: Vec<char>,
    sense: Vec<char>,
}

impl Patterns {
    spec fn wf(&self) -> bool {
        &&& self.star@ == seq!['*']
        &&& self.compound@ == compound_marker()
        &&& self.conjugation@ == conjugation_marker()
        &&& self.head@ == conjugation_head()
        &&& self.head_close@ == conjugation_head_close()
        &&& self.indent@ == base_indent()
        &&& self.reading_open@ == reading_open()
        &&& self.sense@ == sense_marker()
    }

    fn new() -> (r: Patterns)
        ensures
            r.wf(),
    {
        let mut star: Vec<char> = Vec::new();
        star.push('*');
        assert(star@ =~= seq!['*']);
        Patterns {
            star,
            compound: chars_of("Compound word"),
            conjugation: chars_of("Conjugation"),
            head: chars_of("[ Conjugation: ["),
            head_close: chars_of("] "),
            indent: chars_of("  "),
            reading_open: chars_of(" 【"),
            sense: chars_of("1."),
        }
    }
}

fn char_lines(lines: &Vec<&str>) -> (r: Vec<Vec<char>>)
    ensures
        char_seqs(r@) == lines_view(lines@),
{
    let mut r: Vec<Vec<char>> = Vec::new();
    let mut i: usize = 0;
    while i < lines.len()
        invariant
            i <= lines@.len(),
            r@.len() == i,
            forall|j: int| 0 <= j < i ==> (#[trigger] r@[j])@ == lines@[j]@,
        decreases lines.len() - i,
    {
        r.push(chars_of(lines[i]));
        i = i + 1;
    }
    assert(char_seqs(r@) =~= lines_view(lines@));
    r
}

fn is_marker_line(l: &Vec<char>, p: &Patterns) -> (r: bool)
    requires
        p.wf(),
    ensures
        r == is_marker(l@),
{
    starts_with_chars(l, &p.star) || contains(l, &p.conjugation) || contains(l, &p.compound)
}

/// The sense lines from line `from` on.
fn collect_meanings(ls: &Vec<Vec<char>>, from: usize, p: &Patterns) -> (r: Vec<String>)
    requires
        p.wf(),
    ensures
        strings_view(r@) == meaning_lines(char_seqs(ls@), from as int),
{
    let ghost lv = char_seqs(ls@);
    let mut r: Vec<String> = Vec::new();
    let mut j: usize = from;
    while j < ls.len() && !is_marker_line(&ls[j], p)
        invariant
            p.wf(),
            lv == char_seqs(ls@),
            from <= j,
            meaning_lines(lv, from as int) == strings_view(r@) + meaning_lines(lv, j as int),
        decreases ls.len() - j,
    {
        assert(lv[j as int] == ls@[j as int]@);
        if !blank(&ls[j]) {
            let line = string_of(&ls[j], 0, ls[j].len());
            proof {
                assert(ls@[j as int]@.subrange(0, ls@[j as int]@.len() as int) == ls@[j as int]@);
                assert(strings_view(r@.push(line)) =~= strings_view(r@).push(line@));
                assert(seq![line@] + meaning_lines(lv, j + 1) == meaning_lines(lv, j as int));
                assert(strings_view(r@).push(line@) + meaning_lines(lv, j + 1) =~= strings_view(r@)
                    + (seq![line@] + meaning_lines(lv, j + 1)));
            }
            r.push(line);
        }
        j = j + 1;
    }
    proof {
        if j < ls.len() {
            assert(lv[j as int] == ls@[j as int]@);
        }
        assert(strings_view(r@) + seq![] =~= strings_view(r@));
    }
    r
}

/// The tags and the type of a conjugation header.
fn parse_conj_header(l: &Vec<char>, p: &Patterns) -> (r: Option<(String, String)>)
    requires
        p.wf(),
    ensures
        match r {
            Some(h) => conj_header(l@) == Some((h.0@, h.1@)),
            None => conj_header(l@) is None,
        },
{
    let n = l.len();
    let start = match find_seq(l, &p.head, 0) {
        Some(k) => k,
        None => return None,
    };
    proof {
        lemma_first_match(l@, p.head@, 0);
    }
    let a = start + p.head.len();
    let q = match find_seq(l, &p.head_close, a) {
        Some(q) => q,
        None => return None,
    };
    proof {
        lemma_first_match(l@, p.head_close@, a as int);
    }
    let pos = string_of(l, a, q);
    let ty = string_of(l, q + p.head_close.len(), l.len());
    Some((pos, ty))
}

/// The base form on the line after a conjugation header.
fn parse_base_form(l: &Vec<char>, p: &Patterns) -> (r: Option<String>)
    requires
        p.wf(),
    ensures
        opt_view(r) == base_form_of(l@),
{
    let n = l.len();
    let start = match find_seq(l, &p.indent, 0) {
        Some(k) => k,
        None => return None,
    };
    proof {
        lemma_first_match(l@, p.indent@, 0);
    }
    let a = start + p.indent.len();
    let q = match find_seq(l, &p.reading_open, a) {
        Some(q) => q,
        None => return None,
    };
    proof {
        lemma_first_match(l@, p.reading_open@, a as int);
    }
    Some(string_of(l, a, q))
}

fn is_tag(c: char) -> (r: bool)
    ensures
        r == is_tag_char(c),
{
    ('a' <= c && c <= 'z') || ('0' <= c && c <= '9') || c == ',' || c == '-'
}

fn tag_run(l: &Vec<char>, k: usize) -> (r: usize)
    requires
        k <= l@.len(),
    ensures
        r as int == tag_run_end(l@, k as int),
        k <= r <= l@.len(),
{
    let mut e: usize = k;
    while e < l.len() && is_tag(l[e])
        invariant
            k <= e <= l@.len(),
            tag_run_end(l@, k as int) == tag_run_end(l@, e as int),
        decreases l.len() - e,
    {
        e = e + 1;
    }
    e
}

/// The first bracketed tag list of a sense line; empty if there is none.
fn tag_list(l: &Vec<char>) -> (r: String)
    ensures
        r@ == first_tag_list(l@, 0),
{
    let mut i: usize = 0;
    while i < l.len()
        invariant
            i <= l@.len(),
            first_tag_list(l@, 0) == first_tag_list(l@, i as int),
        decreases l.len() - i,
    {
        if l[i] == '[' {
            let e = tag_run(l, i + 1);
            if i + 1 < e && e < l.len() && l[e] == ']' {
                return string_of(l, i + 1, e);
            }
        }
        i = i + 1;
    }
    String::new()
}

/// The part of speech of the word whose header is line `i`.
fn pos_for(ls: &Vec<Vec<char>>, i: usize, p: &Patterns) -> (r: String)
    requires
        p.wf(),
        i < ls@.len(),
    ensures
        r@ == pos_of(char_seqs(ls@), i as int),
{
    let ghost lv = char_seqs(ls@);
    let n = ls.len();
    if i + 1 < n {
        assert(lv[i + 1] == ls@[i + 1]@);
        if starts_with_chars(&ls[i + 1], &p.sense) {
            return tag_list(&ls[i + 1]);
        }
        if i + 2 < ls.len() {
            assert(lv[i + 2] == ls@[i + 2]@);
            if blank(&ls[i + 1]) && starts_with_chars(&ls[i + 2], &p.sense) {
                return tag_list(&ls[i + 2]);
            }
        }
    }
    String::new()
}

/// Whether `l[a..b]` holds a reading bracket.
fn range_has_bracket(l: &Vec<char>, a: usize, b: usize) -> (r: bool)
    requires
        a <= b <= l@.len(),
    ensures
        r == has_bracket(l@.subrange(a as int, b as int)),
{
    let ghost w = l@.subrange(a as int, b as int);
    let mut k: usize = a;
    while k < b
        invariant
            a <= k <= b <= l@.len(),
            w == l@.subrange(a as int, b as int),
            forall|j: int| a <= j < k ==> l@[j] != '【' && l@[j] != '】',
        decreases b - k,
    {
        if l[k] == '【' || l[k] == '】' {
            assert(w[k - a] == l@[k as int]);
            return true;
        }
        k = k + 1;
    }
    assert(!w.contains('【') && !w.contains('】')) by {
        assert forall|j: int| 0 <= j < w.len() implies w[j] != '【' && w[j] != '】' by {
            assert(w[j] == l@[a + j]);
        }
    }
    false
}

/// The written form in a word header.
fn header_word(l: &Vec<char>, p: &Patterns) -> (r: Option<String>)
    requires
        p.wf(),
    ensures
        opt_view(r) == header_surface(l@),
{
    if !starts_with_chars(l, &p.star) {
        return None;
    }
    let a = skip_whitespace(l, 1);
    let start = if a < l.len() && l[a] == '<' {
        end_of_word(l, a)
    } else {
        1
    };
    let mut i: usize = start;
    loop
        invariant
            i <= l@.len(),
            header_surface(l@) == first_plain_word(l@, i as int),
        decreases l@.len() - i,
    {
        let a = skip_whitespace(l, i);
        if a >= l.len() {
            return None;
        }
        let b = end_of_word(l, a);
        if b <= i {
            return None;
        }
        if !range_has_bracket(l, a, b) {
            return Some(string_of(l, a, b));
        }
        i = b;
    }
}

/// The reading in a word header: the text between `【` and `】`.
fn header_reading(l: &Vec<char>) -> (r: Option<String>)
    ensures
        opt_view(r) == reading_of(l@),
{
    let n = l.len();
    let a = match find_char(l, '【', 0) {
        Some(a) => a,
        None => return None,
    };
    proof {
        lemma_index_of_from(l@, '【', 0);
    }
    let b = match find_char(l, '】', a + 1) {
        Some(b) => b,
        None => return None,
    };
    proof {
        lemma_index_of_from(l@, '】', a + 1);
    }
    Some(string_of(l, a + 1, b))
}

/// The word whose header is line `i`, if that line is a word header.
fn word_at_line(ls: &Vec<Vec<char>>, i: usize, p: &Patterns) -> (r: Option<Word>)
    requires
        p.wf(),
        i < ls@.len(),
    ensures
        match r {
            Some(w) => word_at(char_seqs(ls@), i as int) == Some(w@),
            None => word_at(char_seqs(ls@), i as int) is None,
        },
{
    let n = ls.len();
    assert(char_seqs(ls@)[i as int] == ls@[i as int]@);
    match header_word(&ls[i], p) {
        Some(surface) => {
            let reading = header_reading(&ls[i]);
            let pos = pos_for(ls, i, p);
            let meanings = collect_meanings(ls, i + 1, p);
            Some(Word { surface, reading, pos, meanings })
        },
        None => None,
    }
}

/// The conjugation whose header is line `k`; see `conjugation_at`.
fn conjugation_at_line(
    ls: &Vec<Vec<char>>,
    k: usize,
    fallback: Option<String>,
    p: &Patterns,
) -> (r: Option<Conjugation>)
    requires
        p.wf(),
    ensures
        match r {
            Some(c) => conjugation_at(char_seqs(ls@), k as int, opt_view(fallback)) == Some(
                c@,
            ),
            None => conjugation_at(char_seqs(ls@), k as int, opt_view(fallback)) is None,
        },
{
    if k >= ls.len() || k + 1 >= ls.len() {
        return None;
    }
    assert(char_seqs(ls@)[k as int] == ls@[k as int]@);
    assert(char_seqs(ls@)[k + 1] == ls@[k + 1]@);
    let (pos, conjugation_type) = match parse_conj_header(&ls[k], p) {
        Some(h) => h,
        None => return None,
    };
    let base_form = match parse_base_form(&ls[k + 1], p) {
        Some(b) => b,
        None => match fallback {
            Some(f) => f,
            None => return None,
        },
    };
    let meanings = collect_meanings(ls, k + 1, p);
    Some(Conjugation { pos, base_form, conjugation_type, meanings })
}

/// The compound word whose header is line `i`; see `compound_at`.
fn compound_at_line(ls: &Vec<Vec<char>>, i: usize, p: &Patterns) -> (r: Option<CompoundWord>)
    requires
        p.wf(),
    ensures
        match r {
            Some(c) => compound_at(char_seqs(ls@), i as int) == Some(
                TokenV::CompoundWord(c.first@, c.second@),
            ),
            None => compound_at(char_seqs(ls@), i as int) is None,
        },
{
    if i >= ls.len() || ls.len() - i <= 7 {
        return None;
    }
    let first = conjugation_at_line(ls, i + 3, None, p);
    let second = conjugation_at_line(ls, i + 6, None, p);
    match (first, second) {
        (Some(first), Some(second)) => Some(CompoundWord { first, second }),
        _ => None,
    }
}

/// The surface of the last token where it is a word; empty otherwise.
fn last_surface(tokens: &Vec<Token>) -> (r: String)
    ensures
        r@ == last_word_surface(tokens_view(tokens@)),
{
    if tokens.len() == 0 {
        return String::new();
    }
    match &tokens[tokens.len() - 1] {
        Token::Word(w) => w.surface.clone(),
        _ => String::new(),
    }
}

/// Appends a conjugation to the tokens read so far. After a word, the
/// conjugation replaces it, since the analyzer lists the dictionary form before
/// its inflection; a conjugation of the continuative (te) form keeps the word.
pub fn push_conjugation(tokens: &mut Vec<Token>, conj: Conjugation)
    ensures
        old(tokens)@.len() > 0 && old(tokens)@.last() is Word && !contains_seq(
            conj.conjugation_type@,
            te_form(),
        ) ==> final(tokens)@ == old(tokens)@.drop_last().push(Token::Conjugation(conj)),
        !(old(tokens)@.len() > 0 && old(tokens)@.last() is Word && !contains_seq(
            conj.conjugation_type@,
            te_form(),
        )) ==> final(tokens)@ == old(tokens)@.push(Token::Conjugation(conj)),
        tokens_view(final(tokens)@) == push_conj(tokens_view(old(tokens)@), conj@),
{
    let te = chars_of("Conjunctive (~te)");
    let ty = chars_of(conj.conjugation_type.as_str());
    let keeps = contains(&ty, &te);
    let ghost before = tokens@;
    let n = tokens.len();
    if n > 0 && !keeps {
        if let Token::Word(_) = &tokens[n - 1] {
            tokens.pop();
        }
    }
    tokens.push(Token::Conjugation(conj));
    proof {
        let tv = tokens_view(before);
        if before.len() > 0 {
            assert(tv.last() == before.last()@);
            assert(tokens_view(before.drop_last()) =~= tv.drop_last());
            assert(tokens_view(before.drop_last().push(Token::Conjugation(conj))) =~= tv.drop_last().push(
                TokenV::Conjugation(conj@),
            ));
        }
        assert(tokens_view(before.push(Token::Conjugation(conj))) =~= tv.push(
            TokenV::Conjugation(conj@),
        ));
    }
}

/// Reads the analyzer's output, one line per element, into tokens; see
/// `tokenize` for how each kind of line is read. It never fails: an entry
/// that is malformed or cut short yields no token.
pub fn process_lines(lines: Vec<&str>) -> (r: Vec<Token>)
    ensures
        tokens_view(r@) == tokenize(lines_view(lines@)),
{
    let p = Patterns::new();
    let ls = char_lines(&lines);
    let ghost lv = char_seqs(ls@);
    let mut result: Vec<Token> = Vec::new();
    let mut i: usize = 0;
    assert(tokens_view(result@) =~= seq![]);
    while i < ls.len()
        invariant
            p.wf(),
            lv == char_seqs(ls@),
            lv == lines_view(lines@),
            tokenize(lv) == tokens_from(lv, i as int, tokens_view(result@)),
        decreases ls.len() - i,
    {
        assert(lv[i as int] == ls@[i as int]@);
        if contains(&ls[i], &p.compound) {
            match compound_at_line(&ls, i, &p) {
                Some(c) => {
                    proof {
                        assert(tokens_view(result@.push(Token::CompoundWord(c))) =~= tokens_view(
                            result@,
                        ).push(TokenV::CompoundWord(c.first@, c.second@)));
                    }
                    result.push(Token::CompoundWord(c));
                    i = i + 8;
                },
                None => {
                    i = i + 1;
                },
            }
        } else if contains(&ls[i], &p.conjugation) {
            let fallback = last_surface(&result);
            match conjugation_at_line(&ls, i, Some(fallback), &p) {
                Some(c) => {
                    push_conjugation(&mut result, c);
                },
                None => {},
            }
            i = i + 1;
        } else {
            match word_at_line(&ls, i, &p) {
                Some(w) => {
                    proof {
                        assert(tokens_view(result@.push(Token::Word(w))) =~= tokens_view(
                            result@,
                        ).push(TokenV::Word(w@)));
                    }
                    result.push(Token::Word(w));
                },
                None => {},
            }
            i = i + 1;
        }
    }
    result
}

} // verus!
