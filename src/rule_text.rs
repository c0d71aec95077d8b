//! A text form of rule sets, so that a rule table can be kept in a data file
//! and edited without a rebuild.
//!
//! One rule per line, fields separated by single spaces, tag sets written
//! with commas between the tags:
//!
//! ```text
//! word は
//! pos-word n,pn,adj-i,adj-na です
//! pos v1
//! pos-word-pos n,pn の n,pn
//! ```
//!
//! Empty lines are skipped. Written text lists the rules kind by kind, in
//! the order of `rule_list`, and reads back as the same rule set.
use vstd::prelude::*;

use crate::ichiran_extraction::strings_view;
use crate::sentence_processing::{
    PosRule, PosRuleV, PosWordPosRule, PosWordPosRuleV, PosWordRule, PosWordRuleV, Rule, RuleSet,
    RuleSetV, RuleV, WordRule, WordRuleV, rule_list, rules_view,
};
use crate::text::{
    char_seqs, chars_of, join, join_chars, lemma_join_absent, lemma_split_join, split_chars,
    split_from, string_of,
};

verus! {

pub open spec fn word_kind() -> Seq<char> {
    "word"@
}

pub open spec fn pos_word_kind() -> Seq<char> {
    "pos-word"@
}

pub open spec fn pos_kind() -> Seq<char> {
    "pos"@
}

pub open spec fn pos_word_pos_kind() -> Seq<char> {
    "pos-word-pos"@
}

/// The line that states rule `r`.
pub open spec fn rule_line(r: RuleV) -> Seq<char> {
    match r {
        RuleV::Word(w) => join(seq![word_kind(), w.surface], ' '),
        RuleV::PosWord(p) => join(seq![pos_word_kind(), join(p.pos_set, ','), p.surface], ' '),
        RuleV::Pos(p) => join(seq![pos_kind(), join(p.pos_set, ',')], ' '),
        RuleV::PosWordPos(p) => join(
            seq![
                pos_word_pos_kind(),
                join(p.pos_set_left, ','),
                p.surface,
                join(p.pos_set_right, ','),
            ],
            ' ',
        ),
    }
}

/// The text of a rule set: its rules, one per line.
pub open spec fn rules_text(set: RuleSetV) -> Seq<char> {
    join(rule_list(set).map_values(|r: RuleV| rule_line(r)), '\n')
}

/// The rule that line `l` states, if it is one.
pub open spec fn parse_rule_line(l: Seq<char>) -> Option<RuleV> {
    let f = split_from(l, ' ', 0);
    if f.len() == 2 && f[0] == word_kind() {
        Some(RuleV::Word(WordRuleV { surface: f[1] }))
    } else if f.len() == 3 && f[0] == pos_word_kind() {
        Some(RuleV::PosWord(PosWordRuleV { pos_set: split_from(f[1], ',', 0), surface: f[2] }))
    } else if f.len() == 2 && f[0] == pos_kind() {
        Some(RuleV::Pos(PosRuleV { pos_set: split_from(f[1], ',', 0) }))
    } else if f.len() == 4 && f[0] == pos_word_pos_kind() {
        Some(
            RuleV::PosWordPos(
                PosWordPosRuleV {
                    pos_set_left: split_from(f[1], ',', 0),
                    surface: f[2],
                    pos_set_right: split_from(f[3], ',', 0),
                },
            ),
        )
    } else {
        None
    }
}

pub open spec fn empty_rule_set() -> RuleSetV {
    RuleSetV { pos_word_rules: seq![], pos_rules: seq![], word_rules: seq![], pos_word_pos_rules: seq![] }
}

/// `set` with `r` appended to the rules of its kind.
pub open spec fn add_rule(set: RuleSetV, r: RuleV) -> RuleSetV {
    match r {
        RuleV::Word(w) => RuleSetV { word_rules: set.word_rules.push(w), ..set },
        RuleV::PosWord(p) => RuleSetV { pos_word_rules: set.pos_word_rules.push(p), ..set },
        RuleV::Pos(p) => RuleSetV { pos_rules: set.pos_rules.push(p), ..set },
        RuleV::PosWordPos(p) => RuleSetV { pos_word_pos_rules: set.pos_word_pos_rules.push(p), ..set },
    }
}

/// The rules of lines `0..n`, or the index of the first line that states no rule.
pub open spec fn parse_lines(ls: Seq<Seq<char>>, n: int) -> Result<RuleSetV, int>
    decreases n,
{
    if n <= 0 {
        Ok(empty_rule_set())
    } else {
        match parse_lines(ls, n - 1) {
            Err(e) => Err(e),
            Ok(acc) => if ls[n - 1].len() == 0 {
                Ok(acc)
            } else {
                match parse_rule_line(ls[n - 1]) {
                    Some(r) => Ok(add_rule(acc, r)),
                    None => Err(n - 1),
                }
            },
        }
    }
}

/// The rule set that `text` states, or the index of its first line that states no rule.
pub open spec fn parse_rules(text: Seq<char>) -> Result<RuleSetV, int> {
    let ls = split_from(text, '\n', 0);
    parse_lines(ls, ls.len() as int)
}

/// A field that the text form can hold: not empty, and free of the characters
/// that separate fields, tags and lines.
pub open spec fn plain_field(f: Seq<char>) -> bool {
    f.len() > 0 && !f.contains(' ') && !f.contains(',') && !f.contains('\n')
}

pub open spec fn plain_tags(t: Seq<Seq<char>>) -> bool {
    t.len() > 0 && forall|k: int| 0 <= k < t.len() ==> plain_field(#[trigger] t[k])
}

pub open spec fn rule_writable(r: RuleV) -> bool {
    match r {
        RuleV::Word(w) => plain_field(w.surface),
        RuleV::PosWord(p) => plain_tags(p.pos_set) && plain_field(p.surface),
        RuleV::Pos(p) => plain_tags(p.pos_set),
        RuleV::PosWordPos(p) => plain_tags(p.pos_set_left) && plain_field(p.surface)
            && plain_tags(p.pos_set_right),
    }
}

/// Every rule of `set` can be written in the text form.
pub open spec fn rule_set_writable(set: RuleSetV) -> bool {
    forall|k: int| 0 <= k < rule_list(set).len() ==> rule_writable(#[trigger] rule_list(set)[k])
}

/// The rules of `rs` appended, one by one, to those of `acc`.
pub open spec fn collect_from(acc: RuleSetV, rs: Seq<RuleV>) -> RuleSetV
    decreases rs.len(),
{
    if rs.len() == 0 {
        acc
    } else {
        add_rule(collect_from(acc, rs.drop_last()), rs.last())
    }
}

/// A tag set written with commas holds no space or line break, and reads back as itself.
proof fn lemma_tags_round_trip(t: Seq<Seq<char>>)
    requires
        plain_tags(t),
    ensures
        !join(t, ',').contains(' '),
        !join(t, ',').contains('\n'),
        split_from(join(t, ','), ',', 0) == t,
{
    assert forall|k: int| 0 <= k < t.len() implies !(#[trigger] t[k]).contains(' ') && !t[k].contains(
        '\n',
    ) && !t[k].contains(',') by {
        assert(plain_field(t[k]));
    }
    lemma_join_absent(t, ',', ' ');
    lemma_join_absent(t, ',', '\n');
    lemma_split_join(t, ',');
}

/// A line of fields that hold no space reads back as those fields, holds no
/// line break where they hold none, and is not empty.
proof fn lemma_fields_round_trip(f: Seq<Seq<char>>)
    requires
        f.len() >= 2,
        forall|k: int| 0 <= k < f.len() ==> !(#[trigger] f[k]).contains(' ') && !f[k].contains(
            '\n',
        ),
    ensures
        split_from(join(f, ' '), ' ', 0) == f,
        !join(f, ' ').contains('\n'),
        join(f, ' ').len() > 0,
{
    lemma_split_join(f, ' ');
    lemma_join_absent(f, ' ', '\n');
    assert(join(f, ' ') == join(f.drop_last(), ' ') + seq![' '] + f.last());
}

proof fn lemma_kinds()
    ensures
        !word_kind().contains(' ') && !word_kind().contains('\n'),
        !pos_word_kind().contains(' ') && !pos_word_kind().contains('\n'),
        !pos_kind().contains(' ') && !pos_kind().contains('\n'),
        !pos_word_pos_kind().contains(' ') && !pos_word_pos_kind().contains('\n'),
        word_kind().len() == 4,
        pos_word_kind().len() == 8,
        pos_kind().len() == 3,
        pos_word_pos_kind().len() == 12,
{
    reveal_strlit("word");
    reveal_strlit("pos-word");
    reveal_strlit("pos");
    reveal_strlit("pos-word-pos");
}

/// A writable rule's line reads back as the rule; it is not empty and holds no line break.
pub proof fn lemma_rule_line_round_trip(r: RuleV)
    requires
        rule_writable(r),
    ensures
        parse_rule_line(rule_line(r)) == Some(r),
        rule_line(r).len() > 0,
        !rule_line(r).contains('\n'),
{
    lemma_kinds();
    match r {
        RuleV::Word(w) => {
            let f = seq![word_kind(), w.surface];
            assert(f[1] == w.surface);
            lemma_fields_round_trip(f);
        },
        RuleV::PosWord(p) => {
            lemma_tags_round_trip(p.pos_set);
            let f = seq![pos_word_kind(), join(p.pos_set, ','), p.surface];
            assert(f[1] == join(p.pos_set, ','));
            assert(f[2] == p.surface);
            lemma_fields_round_trip(f);
        },
        RuleV::Pos(p) => {
            lemma_tags_round_trip(p.pos_set);
            let f = seq![pos_kind(), join(p.pos_set, ',')];
            assert(f[1] == join(p.pos_set, ','));
            lemma_fields_round_trip(f);
            assert(f[0] != word_kind());
        },
        RuleV::PosWordPos(p) => {
            lemma_tags_round_trip(p.pos_set_left);
            lemma_tags_round_trip(p.pos_set_right);
            let f = seq![
                pos_word_pos_kind(),
                join(p.pos_set_left, ','),
                p.surface,
                join(p.pos_set_right, ','),
            ];
            assert(f[1] == join(p.pos_set_left, ','));
            assert(f[2] == p.surface);
            assert(f[3] == join(p.pos_set_right, ','));
            lemma_fields_round_trip(f);
        },
    }
}

proof fn lemma_collect_concat(acc: RuleSetV, a: Seq<RuleV>, b: Seq<RuleV>)
    ensures
        collect_from(acc, a + b) == collect_from(collect_from(acc, a), b),
    decreases b.len(),
{
    if b.len() == 0 {
        assert(a + b =~= a);
    } else {
        lemma_collect_concat(acc, a, b.drop_last());
        assert((a + b).drop_last() =~= a + b.drop_last());
        assert((a + b).last() == b.last());
    }
}

proof fn lemma_collect_words(acc: RuleSetV, ws: Seq<WordRuleV>)
    ensures
        collect_from(acc, ws.map_values(|w: WordRuleV| RuleV::Word(w))) == (RuleSetV {
            word_rules: acc.word_rules + ws,
            ..acc
        }),
    decreases ws.len(),
{
    let rs = ws.map_values(|w: WordRuleV| RuleV::Word(w));
    if ws.len() == 0 {
        assert(acc.word_rules + ws =~= acc.word_rules);
    } else {
        lemma_collect_words(acc, ws.drop_last());
        assert(rs.drop_last() =~= ws.drop_last().map_values(|w: WordRuleV| RuleV::Word(w)));
        assert(acc.word_rules + ws =~= (acc.word_rules + ws.drop_last()).push(ws.last()));
    }
}

proof fn lemma_collect_pos_words(acc: RuleSetV, ps: Seq<PosWordRuleV>)
    ensures
        collect_from(acc, ps.map_values(|p: PosWordRuleV| RuleV::PosWord(p))) == (RuleSetV {
            pos_word_rules: acc.pos_word_rules + ps,
            ..acc
        }),
    decreases ps.len(),
{
    let rs = ps.map_values(|p: PosWordRuleV| RuleV::PosWord(p));
    if ps.len() == 0 {
        assert(acc.pos_word_rules + ps =~= acc.pos_word_rules);
    } else {
        lemma_collect_pos_words(acc, ps.drop_last());
        assert(rs.drop_last() =~= ps.drop_last().map_values(|p: PosWordRuleV| RuleV::PosWord(p)));
        assert(acc.pos_word_rules + ps =~= (acc.pos_word_rules + ps.drop_last()).push(ps.last()));
    }
}

proof fn lemma_collect_pos(acc: RuleSetV, ps: Seq<PosRuleV>)
    ensures
        collect_from(acc, ps.map_values(|p: PosRuleV| RuleV::Pos(p))) == (RuleSetV {
            pos_rules: acc.pos_rules + ps,
            ..acc
        }),
    decreases ps.len(),
{
    let rs = ps.map_values(|p: PosRuleV| RuleV::Pos(p));
    if ps.len() == 0 {
        assert(acc.pos_rules + ps =~= acc.pos_rules);
    } else {
        lemma_collect_pos(acc, ps.drop_last());
        assert(rs.drop_last() =~= ps.drop_last().map_values(|p: PosRuleV| RuleV::Pos(p)));
        assert(acc.pos_rules + ps =~= (acc.pos_rules + ps.drop_last()).push(ps.last()));
    }
}

proof fn lemma_collect_pos_word_pos(acc: RuleSetV, ps: Seq<PosWordPosRuleV>)
    ensures
        collect_from(acc, ps.map_values(|p: PosWordPosRuleV| RuleV::PosWordPos(p))) == (RuleSetV {
            pos_word_pos_rules: acc.pos_word_pos_rules + ps,
            ..acc
        }),
    decreases ps.len(),
{
    let rs = ps.map_values(|p: PosWordPosRuleV| RuleV::PosWordPos(p));
    if ps.len() == 0 {
        assert(acc.pos_word_pos_rules + ps =~= acc.pos_word_pos_rules);
    } else {
        lemma_collect_pos_word_pos(acc, ps.drop_last());
        assert(rs.drop_last() =~= ps.drop_last().map_values(
            |p: PosWordPosRuleV| RuleV::PosWordPos(p),
        ));
        assert(acc.pos_word_pos_rules + ps =~= (acc.pos_word_pos_rules + ps.drop_last()).push(
            ps.last(),
        ));
    }
}

/// Collecting the rules of a set's list, kind by kind, gives the set back.
proof fn lemma_collect_rule_list(set: RuleSetV)
    ensures
        collect_from(empty_rule_set(), rule_list(set)) == set,
{
    let w = set.word_rules.map_values(|r: WordRuleV| RuleV::Word(r));
    let pw = set.pos_word_rules.map_values(|r: PosWordRuleV| RuleV::PosWord(r));
    let p = set.pos_rules.map_values(|r: PosRuleV| RuleV::Pos(r));
    let pwp = set.pos_word_pos_rules.map_values(|r: PosWordPosRuleV| RuleV::PosWordPos(r));
    let e = empty_rule_set();
    lemma_collect_concat(e, w + pw + p, pwp);
    lemma_collect_concat(e, w + pw, p);
    lemma_collect_concat(e, w, pw);
    lemma_collect_words(e, set.word_rules);
    let a1 = collect_from(e, w);
    lemma_collect_pos_words(a1, set.pos_word_rules);
    let a2 = collect_from(a1, pw);
    lemma_collect_pos(a2, set.pos_rules);
    let a3 = collect_from(a2, p);
    lemma_collect_pos_word_pos(a3, set.pos_word_pos_rules);
    assert(seq![] + set.word_rules =~= set.word_rules);
    assert(seq![] + set.pos_word_rules =~= set.pos_word_rules);
    assert(seq![] + set.pos_rules =~= set.pos_rules);
    assert(seq![] + set.pos_word_pos_rules =~= set.pos_word_pos_rules);
}

proof fn lemma_parse_prefix(set: RuleSetV, n: int)
    requires
        rule_set_writable(set),
        0 <= n <= rule_list(set).len(),
    ensures
        parse_lines(rule_list(set).map_values(|r: RuleV| rule_line(r)), n) == Ok::<RuleSetV, int>(
            collect_from(empty_rule_set(), rule_list(set).subrange(0, n)),
        ),
    decreases n,
{
    let rs = rule_list(set);
    let ls = rs.map_values(|r: RuleV| rule_line(r));
    if n == 0 {
        assert(rs.subrange(0, 0).len() == 0);
    } else {
        lemma_parse_prefix(set, n - 1);
        assert(rule_writable(rs[n - 1]));
        lemma_rule_line_round_trip(rs[n - 1]);
        assert(ls[n - 1] == rule_line(rs[n - 1]));
        assert(rs.subrange(0, n).drop_last() =~= rs.subrange(0, n - 1));
        assert(rs.subrange(0, n).last() == rs[n - 1]);
    }
}

/// Writing a rule set as text and reading the text back gives the same rule
/// set, where every field can be written: not empty, without spaces, commas
/// or line breaks, and each tag set not empty.
pub proof fn lemma_rules_text_round_trip(set: RuleSetV)
    requires
        rule_set_writable(set),
    ensures
        parse_rules(rules_text(set)) == Ok::<RuleSetV, int>(set),
{
    let rs = rule_list(set);
    let ls = rs.map_values(|r: RuleV| rule_line(r));
    lemma_collect_rule_list(set);
    if rs.len() == 0 {
        assert(rules_text(set) == Seq::<char>::empty());
        crate::text::lemma_index_of_from_none(Seq::<char>::empty(), '\n', 0);
        let e = Seq::<char>::empty();
        assert(e.subrange(0, 0) =~= e);
        assert(split_from(e, '\n', 0) == seq![e]);
        assert(collect_from(empty_rule_set(), rs) == empty_rule_set());
        assert(parse_lines(seq![e], 0) == Ok::<RuleSetV, int>(empty_rule_set()));
        assert(seq![e][0].len() == 0);
    } else {
        assert forall|k: int| 0 <= k < ls.len() implies !(#[trigger] ls[k]).contains('\n') by {
            assert(rule_writable(rs[k]));
            lemma_rule_line_round_trip(rs[k]);
        }
        lemma_split_join(ls, '\n');
        lemma_parse_prefix(set, rs.len() as int);
        assert(rs.subrange(0, rs.len() as int) =~= rs);
    }
}

/// A line of rule text that states no rule.
#[derive(Clone, Copy, Debug, PartialEq, Eq)]
pub struct RuleFormatError {
    /// Index of the line, counted from 0.
    pub line: usize,
}

/// Whether `a` and `b` hold the same characters.
fn same_chars(a: &Vec<char>, b: &Vec<char>) -> (r: bool)
    ensures
        r == (a@ == b@),
{
    if a.len() != b.len() {
        return false;
    }
    let mut i: usize = 0;
    while i < a.len()
        invariant
            a@.len() == b@.len(),
            i <= a@.len(),
            forall|k: int| 0 <= k < i ==> a@[k] == b@[k],
        decreases a.len() - i,
    {
        if a[i] != b[i] {
            return false;
        }
        i = i + 1;
    }
    assert(a@ =~= b@);
    true
}

/// The characters of each string.
fn chars_of_each(v: &Vec<String>) -> (r: Vec<Vec<char>>)
    ensures
        char_seqs(r@) == strings_view(v@),
{
    let mut r: Vec<Vec<char>> = Vec::new();
    let mut i: usize = 0;
    while i < v.len()
        invariant
            i <= v@.len(),
            r@.len() == i,
            forall|k: int| 0 <= k < i ==> (#[trigger] r@[k])@ == v@[k]@,
        decreases v.len() - i,
    {
        r.push(chars_of(v[i].as_str()));
        i = i + 1;
    }
    assert(char_seqs(r@) =~= strings_view(v@));
    r
}

/// Each character vector as a string.
fn strings_of_each(v: &Vec<Vec<char>>) -> (r: Vec<String>)
    ensures
        strings_view(r@) == char_seqs(v@),
{
    let mut r: Vec<String> = Vec::new();
    let mut i: usize = 0;
    while i < v.len()
        invariant
            i <= v@.len(),
            r@.len() == i,
            forall|k: int| 0 <= k < i ==> (#[trigger] r@[k])@ == v@[k]@,
        decreases v.len() - i,
    {
        let s = string_of(&v[i], 0, v[i].len());
        assert(v@[i as int]@.subrange(0, v@[i as int]@.len() as int) == v@[i as int]@);
        r.push(s);
        i = i + 1;
    }
    assert(strings_view(r@) =~= char_seqs(v@));
    r
}

/// The line that states `rule`, as characters.
fn rule_line_chars(rule: &Rule) -> (r: Vec<char>)
    ensures
        r@ == rule_line(rule@),
{
    let mut fields: Vec<Vec<char>> = Vec::new();
    match rule {
        Rule::Word(w) => {
            fields.push(chars_of("word"));
            fields.push(chars_of(w.surface.as_str()));
        },
        Rule::PosWord(p) => {
            fields.push(chars_of("pos-word"));
            fields.push(join_chars(&chars_of_each(&p.pos_set), ','));
            fields.push(chars_of(p.surface.as_str()));
        },
        Rule::Pos(p) => {
            fields.push(chars_of("pos"));
            fields.push(join_chars(&chars_of_each(&p.pos_set), ','));
        },
        Rule::PosWordPos(p) => {
            fields.push(chars_of("pos-word-pos"));
            fields.push(join_chars(&chars_of_each(&p.pos_set_left), ','));
            fields.push(chars_of(p.surface.as_str()));
            fields.push(join_chars(&chars_of_each(&p.pos_set_right), ','));
        },
    }
    proof {
        match rule@ {
            RuleV::Word(w) => {
                assert(char_seqs(fields@) =~= seq![word_kind(), w.surface]);
            },
            RuleV::PosWord(p) => {
                assert(char_seqs(fields@) =~= seq![
                    pos_word_kind(),
                    join(p.pos_set, ','),
                    p.surface,
                ]);
            },
            RuleV::Pos(p) => {
                assert(char_seqs(fields@) =~= seq![pos_kind(), join(p.pos_set, ',')]);
            },
            RuleV::PosWordPos(p) => {
                assert(char_seqs(fields@) =~= seq![
                    pos_word_pos_kind(),
                    join(p.pos_set_left, ','),
                    p.surface,
                    join(p.pos_set_right, ','),
                ]);
            },
        }
    }
    join_chars(&fields, ' ')
}

impl RuleSet {
    /// The rule set in its text form, one rule per line; see `rules_text`.
    pub fn to_text(&self) -> (r: String)
        ensures
            r@ == rules_text(self@),
    {
        let rules = self.to_rules();
        let mut lines: Vec<Vec<char>> = Vec::new();
        let mut i: usize = 0;
        while i < rules.len()
            invariant
                rules_view(rules@) == rule_list(self@),
                i <= rules@.len(),
                lines@.len() == i,
                forall|k: int| 0 <= k < i ==> (#[trigger] lines@[k])@ == rule_line(rules@[k]@),
            decreases rules.len() - i,
        {
            lines.push(rule_line_chars(&rules[i]));
            i = i + 1;
        }
        proof {
            assert forall|k: int| 0 <= k < rules@.len() implies rules_view(rules@)[k] == rules@[k]@ by {}
            assert(char_seqs(lines@) =~= rule_list(self@).map_values(|r: RuleV| rule_line(r)));
        }
        let text = join_chars(&lines, '\n');
        string_of(&text, 0, text.len())
    }
}

/// The rule that line `l` states, if it is one.
fn parse_line(l: &Vec<char>) -> (r: Option<Rule>)
    ensures
        match r {
            Some(rule) => parse_rule_line(l@) == Some(rule@),
            None => parse_rule_line(l@) is None,
        },
{
    let f = split_chars(l, ' ');
    let ghost fv = char_seqs(f@);
    assert(forall|k: int| 0 <= k < f@.len() ==> fv[k] == (#[trigger] f@[k])@);
    if f.len() == 2 && same_chars(&f[0], &chars_of("word")) {
        let surface = string_of(&f[1], 0, f[1].len());
        assert(f@[1]@.subrange(0, f@[1]@.len() as int) == f@[1]@);
        return Some(Rule::Word(WordRule { surface }));
    }
    if f.len() == 3 && same_chars(&f[0], &chars_of("pos-word")) {
        let pos_set = strings_of_each(&split_chars(&f[1], ','));
        let surface = string_of(&f[2], 0, f[2].len());
        assert(f@[2]@.subrange(0, f@[2]@.len() as int) == f@[2]@);
        return Some(Rule::PosWord(PosWordRule { pos_set, surface }));
    }
    if f.len() == 2 && same_chars(&f[0], &chars_of("pos")) {
        let pos_set = strings_of_each(&split_chars(&f[1], ','));
        return Some(Rule::Pos(PosRule { pos_set }));
    }
    if f.len() == 4 && same_chars(&f[0], &chars_of("pos-word-pos")) {
        let pos_set_left = strings_of_each(&split_chars(&f[1], ','));
        let surface = string_of(&f[2], 0, f[2].len());
        assert(f@[2]@.subrange(0, f@[2]@.len() as int) == f@[2]@);
        let pos_set_right = strings_of_each(&split_chars(&f[3], ','));
        return Some(Rule::PosWordPos(PosWordPosRule { pos_set_left, surface, pos_set_right }));
    }
    None
}

/// Appends `rule` to the rules of its kind.
fn add_to(set: &mut RuleSet, rule: Rule)
    ensures
        final(set)@ == add_rule(old(set)@, rule@),
{
    let ghost before = set@;
    match rule {
        Rule::Word(w) => {
            set.word_rules.push(w);
            assert(set@.word_rules =~= before.word_rules.push(w@));
        },
        Rule::PosWord(p) => {
            set.pos_word_rules.push(p);
            assert(set@.pos_word_rules =~= before.pos_word_rules.push(p@));
        },
        Rule::Pos(p) => {
            set.pos_rules.push(p);
            assert(set@.pos_rules =~= before.pos_rules.push(p@));
        },
        Rule::PosWordPos(p) => {
            set.pos_word_pos_rules.push(p);
            assert(set@.pos_word_pos_rules =~= before.pos_word_pos_rules.push(p@));
        },
    }
}

/// Reads a rule set from its text form; see `parse_rules`. Fails with the
/// index of the first line that is neither empty nor a rule.
pub fn parse_rule_set(text: &str) -> (r: Result<RuleSet, RuleFormatError>)
    ensures
        match r {
            Ok(set) => parse_rules(text@) == Ok::<RuleSetV, int>(set@),
            Err(e) => parse_rules(text@) == Err::<RuleSetV, int>(e.line as int),
        },
{
    let ls = split_chars(&chars_of(text), '\n');
    let ghost lv = char_seqs(ls@);
    let mut set = RuleSet {
        pos_word_rules: Vec::new(),
        pos_rules: Vec::new(),
        word_rules: Vec::new(),
        pos_word_pos_rules: Vec::new(),
    };
    proof {
        let e = empty_rule_set();
        assert(set@.word_rules =~= e.word_rules);
        assert(set@.pos_word_rules =~= e.pos_word_rules);
        assert(set@.pos_rules =~= e.pos_rules);
        assert(set@.pos_word_pos_rules =~= e.pos_word_pos_rules);
    }
    let mut k: usize = 0;
    while k < ls.len()
        invariant
            lv == char_seqs(ls@),
            lv == split_from(text@, '\n', 0),
            k <= ls@.len(),
            parse_lines(lv, k as int) == Ok::<RuleSetV, int>(set@),
        decreases ls.len() - k,
    {
        assert(lv[k as int] == ls@[k as int]@);
        if ls[k].len() > 0 {
            match parse_line(&ls[k]) {
                Some(rule) => add_to(&mut set, rule),
                None => {
                    proof {
                        lemma_parse_error_stays(lv, k as int + 1, lv.len() as int);
                    }
                    return Err(RuleFormatError { line: k });
                },
            }
        }
        k = k + 1;
    }
    Ok(set)
}

/// Once a line fails, the parse of any longer prefix fails at that line.
proof fn lemma_parse_error_stays(ls: Seq<Seq<char>>, m: int, n: int)
    requires
        0 <= m <= n,
        parse_lines(ls, m) is Err,
    ensures
        parse_lines(ls, n) == parse_lines(ls, m),
    decreases n - m,
{
    if m < n {
        lemma_parse_error_stays(ls, m + 1, n);
    }
}

} // verus!
