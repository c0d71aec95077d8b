//! Grammar rules and the matcher that finds them in a token sequence.
//!
//! A rule names parts of speech (tags such as `n` or `v1`) and written forms.
//! A token's part of speech is a comma-separated tag list; it meets a rule's
//! tag set when one of its tags is in the set. A compound word has neither a
//! single part of speech nor a single written form, so no rule position is
//! met by one.
use vstd::prelude::*;

use crate::ichiran_extraction::{Token, TokenV, strings_view, tokens_view};
use crate::text::{
    char_seqs, chars_of, lemma_index_of_from_none, split_chars, split_from, string_of,
};

verus! {

/// Matches a word whose written form is `surface`.
#[derive(Clone, Debug, PartialEq, Eq)]
pub struct WordRule {
    pub surface: String,
}

/// Matches a token whose part of speech meets `pos_set` and whose successor
/// is written `surface`.
#[derive(Clone, Debug, PartialEq, Eq)]
pub struct PosWordRule {
    pub pos_set: Vec<String>,
    pub surface: String,
}

/// Matches three consecutive words: the first meets `pos_set_left`, the
/// second is written `surface`, the third meets `pos_set_right`.
#[derive(Clone, Debug, PartialEq, Eq)]
pub struct PosWordPosRule {
    pub pos_set_left: Vec<String>,
    pub surface: String,
    pub pos_set_right: Vec<String>,
}

/// Matches a token whose part of speech meets `pos_set`.
#[derive(Clone, Debug, PartialEq, Eq)]
pub struct PosRule {
    pub pos_set: Vec<String>,
}

/// Rules of each kind, in order.
#[derive(Clone, Debug, PartialEq, Eq)]
pub struct RuleSet {
    pub pos_word_rules: Vec<PosWordRule>,
    pub pos_rules: Vec<PosRule>,
    pub word_rules: Vec<WordRule>,
    pub pos_word_pos_rules: Vec<PosWordPosRule>,
}

/// A rule of any kind.
#[derive(Clone, Debug, PartialEq, Eq)]
pub enum Rule {
    Word(WordRule),
    PosWord(PosWordRule),
    Pos(PosRule),
    PosWordPos(PosWordPosRule),
}

pub struct WordRuleV {
    pub surface: Seq<char>,
}

pub struct PosWordRuleV {
    pub pos_set: Seq<Seq<char>>,
    pub surface: Seq<char>,
}

pub struct PosWordPosRuleV {
    pub pos_set_left: Seq<Seq<char>>,
    pub surface: Seq<char>,
    pub pos_set_right: Seq<Seq<char>>,
}

pub struct PosRuleV {
    pub pos_set: Seq<Seq<char>>,
}

pub struct RuleSetV {
    pub pos_word_rules: Seq<PosWordRuleV>,
    pub pos_rules: Seq<PosRuleV>,
    pub word_rules: Seq<WordRuleV>,
    pub pos_word_pos_rules: Seq<PosWordPosRuleV>,
}

pub enum RuleV {
    Word(WordRuleV),
    PosWord(PosWordRuleV),
    Pos(PosRuleV),
    PosWordPos(PosWordPosRuleV),
}

impl View for WordRule {
    type V = WordRuleV;

    open spec fn view(&self) -> WordRuleV {
        WordRuleV { surface: self.surface@ }
    }
}

impl View for PosWordRule {
    type V = PosWordRuleV;

    open spec fn view(&self) -> PosWordRuleV {
        PosWordRuleV { pos_set: strings_view(self.pos_set@), surface: self.surface@ }
    }
}

impl View for PosWordPosRule {
    type V = PosWordPosRuleV;

    open spec fn view(&self) -> PosWordPosRuleV {
        PosWordPosRuleV {
            pos_set_left: strings_view(self.pos_set_left@),
            surface: self.surface@,
            pos_set_right: strings_view(self.pos_set_right@),
        }
    }
}

impl View for PosRule {
    type V = PosRuleV;

    open spec fn view(&self) -> PosRuleV {
        PosRuleV { pos_set: strings_view(self.pos_set@) }
    }
}

impl View for RuleSet {
    type V = RuleSetV;

    open spec fn view(&self) -> RuleSetV {
        RuleSetV {
            pos_word_rules: self.pos_word_rules@.map_values(|r: PosWordRule| r@),
            pos_rules: self.pos_rules@.map_values(|r: PosRule| r@),
            word_rules: self.word_rules@.map_values(|r: WordRule| r@),
            pos_word_pos_rules: self.pos_word_pos_rules@.map_values(|r: PosWordPosRule| r@),
        }
    }
}

impl View for Rule {
    type V = RuleV;

    open spec fn view(&self) -> RuleV {
        match self {
            Rule::Word(r) => RuleV::Word(r@),
            Rule::PosWord(r) => RuleV::PosWord(r@),
            Rule::Pos(r) => RuleV::Pos(r@),
            Rule::PosWordPos(r) => RuleV::PosWordPos(r@),
        }
    }
}

/// The part of speech of a word or a conjugation.
pub open spec fn token_pos(t: TokenV) -> Option<Seq<char>> {
    match t {
        TokenV::Word(w) => Some(w.pos),
        TokenV::Conjugation(c) => Some(c.pos),
        TokenV::CompoundWord(_, _) => None,
    }
}

/// The written form of a word, or the base form of a conjugation.
pub open spec fn token_surface(t: TokenV) -> Option<Seq<char>> {
    match t {
        TokenV::Word(w) => Some(w.surface),
        TokenV::Conjugation(c) => Some(c.base_form),
        TokenV::CompoundWord(_, _) => None,
    }
}

/// One of the comma-separated tags of `pos` is in `set`.
pub open spec fn meets(pos: Seq<char>, set: Seq<Seq<char>>) -> bool {
    let tags = split_from(pos, ',', 0);
    exists|k: int| 0 <= k < tags.len() && set.contains(#[trigger] tags[k])
}

/// The token has a part of speech, and it meets `set`.
pub open spec fn token_meets(t: TokenV, set: Seq<Seq<char>>) -> bool {
    match token_pos(t) {
        Some(p) => meets(p, set),
        None => false,
    }
}

pub open spec fn word_rule_hits(ts: Seq<TokenV>, i: int, r: WordRuleV) -> bool {
    ts[i] is Word && ts[i]->Word_0.surface == r.surface
}

pub open spec fn pos_word_rule_hits(ts: Seq<TokenV>, i: int, r: PosWordRuleV) -> bool {
    &&& i + 1 < ts.len()
    &&& token_meets(ts[i], r.pos_set)
    &&& token_surface(ts[i + 1]) == Some(r.surface)
}

pub open spec fn pos_rule_hits(ts: Seq<TokenV>, i: int, r: PosRuleV) -> bool {
    token_meets(ts[i], r.pos_set)
}

pub open spec fn pos_word_pos_rule_hits(ts: Seq<TokenV>, i: int, r: PosWordPosRuleV) -> bool {
    &&& i + 2 < ts.len()
    &&& ts[i] is Word
    &&& ts[i + 1] is Word
    &&& ts[i + 2] is Word
    &&& meets(ts[i]->Word_0.pos, r.pos_set_left)
    &&& ts[i + 1]->Word_0.surface == r.surface
    &&& meets(ts[i + 2]->Word_0.pos, r.pos_set_right)
}

/// The rules that `hits` at positions `0..n`: position by position, and at
/// each position in the order of `rules`, with repeats.
pub open spec fn scan<R>(n: int, rules: Seq<R>, hits: spec_fn(int, R) -> bool) -> Seq<R>
    decreases n,
{
    if n <= 0 {
        seq![]
    } else {
        scan(n - 1, rules, hits) + rules.filter(|r: R| hits(n - 1, r))
    }
}

pub open spec fn matched_word_rules(ts: Seq<TokenV>, rules: Seq<WordRuleV>) -> Seq<WordRuleV> {
    scan(ts.len() as int, rules, |i: int, r: WordRuleV| word_rule_hits(ts, i, r))
}

pub open spec fn matched_pos_word_rules(ts: Seq<TokenV>, rules: Seq<PosWordRuleV>) -> Seq<
    PosWordRuleV,
> {
    scan(ts.len() as int, rules, |i: int, r: PosWordRuleV| pos_word_rule_hits(ts, i, r))
}

pub open spec fn matched_pos_rules(ts: Seq<TokenV>, rules: Seq<PosRuleV>) -> Seq<PosRuleV> {
    scan(ts.len() as int, rules, |i: int, r: PosRuleV| pos_rule_hits(ts, i, r))
}

pub open spec fn matched_pos_word_pos_rules(ts: Seq<TokenV>, rules: Seq<PosWordPosRuleV>) -> Seq<
    PosWordPosRuleV,
> {
    scan(ts.len() as int, rules, |i: int, r: PosWordPosRuleV| pos_word_pos_rule_hits(ts, i, r))
}

/// Each kind of rule matched against `ts`.
pub open spec fn matched(ts: Seq<TokenV>, rules: RuleSetV) -> RuleSetV {
    RuleSetV {
        pos_word_rules: matched_pos_word_rules(ts, rules.pos_word_rules),
        pos_rules: matched_pos_rules(ts, rules.pos_rules),
        word_rules: matched_word_rules(ts, rules.word_rules),
        pos_word_pos_rules: matched_pos_word_pos_rules(ts, rules.pos_word_pos_rules),
    }
}

/// One step of `scan`: the rules that hit at position `i`, in order, appended.
proof fn lemma_scan_step<R>(
    i: int,
    j: int,
    rules: Seq<R>,
    hits: spec_fn(int, R) -> bool,
    acc: Seq<R>,
)
    requires
        0 <= j < rules.len(),
    ensures
        (acc + rules.subrange(0, j).filter(|r: R| hits(i, r))) + (if hits(i, rules[j]) {
            seq![rules[j]]
        } else {
            seq![]
        }) == acc + rules.subrange(0, j + 1).filter(|r: R| hits(i, r)),
{
    let f = |r: R| hits(i, r);
    assert(rules.subrange(0, j + 1) == rules.subrange(0, j).push(rules[j]));
    rules.subrange(0, j).lemma_filter_push(rules[j], f);
    if hits(i, rules[j]) {
        assert((acc + rules.subrange(0, j).filter(f)) + seq![rules[j]] =~= acc + rules.subrange(
            0,
            j,
        ).filter(f).push(rules[j]));
    } else {
        assert((acc + rules.subrange(0, j).filter(f)) + seq![] =~= acc + rules.subrange(
            0,
            j,
        ).filter(f));
    }
}

/// Copies a list of strings.
fn copy_strings(v: &Vec<String>) -> (r: Vec<String>)
    ensures
        r@ == v@,
{
    let mut r: Vec<String> = Vec::new();
    let mut i: usize = 0;
    while i < v.len()
        invariant
            i <= v@.len(),
            r@ == v@.subrange(0, i as int),
        decreases v.len() - i,
    {
        r.push(v[i].clone());
        i = i + 1;
        assert(r@ =~= v@.subrange(0, i as int));
    }
    assert(v@.subrange(0, v@.len() as int) == v@);
    r
}

impl WordRule {
    fn copy(&self) -> (r: WordRule)
        ensures
            r@ == self@,
    {
        WordRule { surface: self.surface.clone() }
    }
}

impl PosWordRule {
    fn copy(&self) -> (r: PosWordRule)
        ensures
            r@ == self@,
    {
        PosWordRule { pos_set: copy_strings(&self.pos_set), surface: self.surface.clone() }
    }
}

impl PosWordPosRule {
    fn copy(&self) -> (r: PosWordPosRule)
        ensures
            r@ == self@,
    {
        PosWordPosRule {
            pos_set_left: copy_strings(&self.pos_set_left),
            surface: self.surface.clone(),
            pos_set_right: copy_strings(&self.pos_set_right),
        }
    }
}

impl PosRule {
    fn copy(&self) -> (r: PosRule)
        ensures
            r@ == self@,
    {
        PosRule { pos_set: copy_strings(&self.pos_set) }
    }
}

/// Whether one of the comma-separated tags of `pos` is in `set`.
pub fn pos_meets(pos: &String, set: &Vec<String>) -> (r: bool)
    ensures
        r == meets(pos@, strings_view(set@)),
{
    let tags = split_chars(&chars_of(pos.as_str()), ',');
    let ghost tv = char_seqs(tags@);
    let ghost sv = strings_view(set@);
    let mut k: usize = 0;
    while k < tags.len()
        invariant
            tv == char_seqs(tags@),
            tv == split_from(pos@, ',', 0),
            sv == strings_view(set@),
            k <= tags@.len(),
            forall|m: int| 0 <= m < k ==> !sv.contains(#[trigger] tv[m]),
        decreases tags.len() - k,
    {
        let tag = string_of(&tags[k], 0, tags[k].len());
        assert(tag@ == tv[k as int]) by {
            assert(tags@[k as int]@.subrange(0, tags@[k as int]@.len() as int)
                == tags@[k as int]@);
        }
        let mut j: usize = 0;
        while j < set.len()
            invariant
                tv == char_seqs(tags@),
                sv == strings_view(set@),
                tv == split_from(pos@, ',', 0),
                k < tags@.len(),
                tag@ == tv[k as int],
                j <= set@.len(),
                forall|m: int| 0 <= m < j ==> sv[m] != tag@,
            decreases set.len() - j,
        {
            if set[j] == tag {
                assert(sv[j as int] == tag@);
                assert(sv.contains(tv[k as int]));
                assert(0 <= k < tv.len() && sv.contains(tv[k as int]));
                return true;
            }
            j = j + 1;
        }
        assert(!sv.contains(tv[k as int]));
        k = k + 1;
    }
    false
}

/// The part of speech of a word or a conjugation.
fn pos_of_token(t: &Token) -> (r: Option<&String>)
    ensures
        match r {
            Some(p) => token_pos(t@) == Some(p@),
            None => token_pos(t@) is None,
        },
{
    match t {
        Token::Word(w) => Some(&w.pos),
        Token::Conjugation(c) => Some(&c.pos),
        Token::CompoundWord(_) => None,
    }
}

/// The written form of a word, or the base form of a conjugation.
fn surface_of_token(t: &Token) -> (r: Option<&String>)
    ensures
        match r {
            Some(s) => token_surface(t@) == Some(s@),
            None => token_surface(t@) is None,
        },
{
    match t {
        Token::Word(w) => Some(&w.surface),
        Token::Conjugation(c) => Some(&c.base_form),
        Token::CompoundWord(_) => None,
    }
}

/// Whether the token has a part of speech that meets `set`.
fn token_pos_meets(t: &Token, set: &Vec<String>) -> (r: bool)
    ensures
        r == token_meets(t@, strings_view(set@)),
{
    match pos_of_token(t) {
        Some(p) => pos_meets(p, set),
        None => false,
    }
}

pub open spec fn word_rules_view(v: Seq<WordRule>) -> Seq<WordRuleV> {
    v.map_values(|r: WordRule| r@)
}

pub open spec fn pos_word_rules_view(v: Seq<PosWordRule>) -> Seq<PosWordRuleV> {
    v.map_values(|r: PosWordRule| r@)
}

pub open spec fn pos_rules_view(v: Seq<PosRule>) -> Seq<PosRuleV> {
    v.map_values(|r: PosRule| r@)
}

pub open spec fn pos_word_pos_rules_view(v: Seq<PosWordPosRule>) -> Seq<PosWordPosRuleV> {
    v.map_values(|r: PosWordPosRule| r@)
}

/// Word rules that match, token by token.
pub fn match_word_rules(tokens: &Vec<Token>, word_rules: &Vec<WordRule>) -> (r: Vec<WordRule>)
    ensures
        word_rules_view(r@) == matched_word_rules(tokens_view(tokens@), word_rules_view(
            word_rules@,
        )),
{
    let ghost ts = tokens_view(tokens@);
    let ghost rs = word_rules_view(word_rules@);
    let ghost hits = |i: int, r: WordRuleV| word_rule_hits(ts, i, r);
    let mut out: Vec<WordRule> = Vec::new();
    let mut i: usize = 0;
    while i < tokens.len()
        invariant
            ts == tokens_view(tokens@),
            rs == word_rules_view(word_rules@),
            hits == (|i: int, r: WordRuleV| word_rule_hits(ts, i, r)),
            i <= tokens@.len(),
            word_rules_view(out@) == scan(i as int, rs, hits),
        decreases tokens.len() - i,
    {
        let ghost before = word_rules_view(out@);
        let mut j: usize = 0;
        while j < word_rules.len()
            invariant
                ts == tokens_view(tokens@),
                rs == word_rules_view(word_rules@),
                hits == (|i: int, r: WordRuleV| word_rule_hits(ts, i, r)),
                i < tokens@.len(),
                j <= word_rules@.len(),
                word_rules_view(out@) == before + rs.subrange(0, j as int).filter(
                    |r: WordRuleV| hits(i as int, r),
                ),
            decreases word_rules.len() - j,
        {
            let hit = match &tokens[i] {
                Token::Word(w) => w.surface == word_rules[j].surface,
                _ => false,
            };
            proof {
                lemma_scan_step(i as int, j as int, rs, hits, before);
            }
            if hit {
                let c = word_rules[j].copy();
                proof {
                    assert(word_rules_view(out@.push(c)) =~= word_rules_view(out@) + seq![c@]);
                }
                out.push(c);
            } else {
                assert(word_rules_view(out@) =~= word_rules_view(out@) + seq![]);
            }
            j = j + 1;
        }
        assert(rs.subrange(0, rs.len() as int) == rs);
        i = i + 1;
    }
    out
}

/// Part-of-speech-then-word rules that match: a token whose part of speech
/// meets the rule's tags, followed by a token written as the rule's word.
pub fn match_pos_word_rules(tokens: &Vec<Token>, pos_word_rules: &Vec<PosWordRule>) -> (r: Vec<
    PosWordRule,
>)
    ensures
        pos_word_rules_view(r@) == matched_pos_word_rules(tokens_view(tokens@), pos_word_rules_view(
            pos_word_rules@,
        )),
{
    let ghost ts = tokens_view(tokens@);
    let ghost rs = pos_word_rules_view(pos_word_rules@);
    let ghost hits = |i: int, r: PosWordRuleV| pos_word_rule_hits(ts, i, r);
    let mut out: Vec<PosWordRule> = Vec::new();
    let mut i: usize = 0;
    while i < tokens.len()
        invariant
            ts == tokens_view(tokens@),
            rs == pos_word_rules_view(pos_word_rules@),
            hits == (|i: int, r: PosWordRuleV| pos_word_rule_hits(ts, i, r)),
            i <= tokens@.len(),
            pos_word_rules_view(out@) == scan(i as int, rs, hits),
        decreases tokens.len() - i,
    {
        let ghost before = pos_word_rules_view(out@);
        let next = if i + 1 < tokens.len() {
            surface_of_token(&tokens[i + 1])
        } else {
            None
        };
        let mut j: usize = 0;
        while j < pos_word_rules.len()
            invariant
                ts == tokens_view(tokens@),
                rs == pos_word_rules_view(pos_word_rules@),
                hits == (|i: int, r: PosWordRuleV| pos_word_rule_hits(ts, i, r)),
                i < tokens@.len(),
                match next {
                    Some(s) => i + 1 < tokens@.len() && token_surface(ts[i + 1]) == Some(s@),
                    None => i + 1 >= tokens@.len() || token_surface(ts[i + 1]) is None,
                },
                j <= pos_word_rules@.len(),
                pos_word_rules_view(out@) == before + rs.subrange(0, j as int).filter(
                    |r: PosWordRuleV| hits(i as int, r),
                ),
            decreases pos_word_rules.len() - j,
        {
            let rule = &pos_word_rules[j];
            let hit = match next {
                Some(s) => *s == rule.surface && token_pos_meets(&tokens[i], &rule.pos_set),
                None => false,
            };
            proof {
                lemma_scan_step(i as int, j as int, rs, hits, before);
            }
            if hit {
                let c = rule.copy();
                proof {
                    assert(pos_word_rules_view(out@.push(c)) =~= pos_word_rules_view(out@)
                        + seq![c@]);
                }
                out.push(c);
            } else {
                assert(pos_word_rules_view(out@) =~= pos_word_rules_view(out@) + seq![]);
            }
            j = j + 1;
        }
        assert(rs.subrange(0, rs.len() as int) == rs);
        i = i + 1;
    }
    out
}

/// Part-of-speech rules that match, token by token.
pub fn match_pos_rules(tokens: &Vec<Token>, pos_rules: &Vec<PosRule>) -> (r: Vec<PosRule>)
    ensures
        pos_rules_view(r@) == matched_pos_rules(tokens_view(tokens@), pos_rules_view(pos_rules@)),
{
    let ghost ts = tokens_view(tokens@);
    let ghost rs = pos_rules_view(pos_rules@);
    let ghost hits = |i: int, r: PosRuleV| pos_rule_hits(ts, i, r);
    let mut out: Vec<PosRule> = Vec::new();
    let mut i: usize = 0;
    while i < tokens.len()
        invariant
            ts == tokens_view(tokens@),
            rs == pos_rules_view(pos_rules@),
            hits == (|i: int, r: PosRuleV| pos_rule_hits(ts, i, r)),
            i <= tokens@.len(),
            pos_rules_view(out@) == scan(i as int, rs, hits),
        decreases tokens.len() - i,
    {
        let ghost before = pos_rules_view(out@);
        let mut j: usize = 0;
        while j < pos_rules.len()
            invariant
                ts == tokens_view(tokens@),
                rs == pos_rules_view(pos_rules@),
                hits == (|i: int, r: PosRuleV| pos_rule_hits(ts, i, r)),
                i < tokens@.len(),
                j <= pos_rules@.len(),
                pos_rules_view(out@) == before + rs.subrange(0, j as int).filter(
                    |r: PosRuleV| hits(i as int, r),
                ),
            decreases pos_rules.len() - j,
        {
            let hit = token_pos_meets(&tokens[i], &pos_rules[j].pos_set);
            proof {
                lemma_scan_step(i as int, j as int, rs, hits, before);
            }
            if hit {
                let c = pos_rules[j].copy();
                proof {
                    assert(pos_rules_view(out@.push(c)) =~= pos_rules_view(out@) + seq![c@]);
                }
                out.push(c);
            } else {
                assert(pos_rules_view(out@) =~= pos_rules_view(out@) + seq![]);
            }
            j = j + 1;
        }
        assert(rs.subrange(0, rs.len() as int) == rs);
        i = i + 1;
    }
    out
}

/// Part-of-speech, word, part-of-speech rules that match three consecutive words.
pub fn match_pos_word_pos_rules(
    tokens: &Vec<Token>,
    pos_word_pos_rules: &Vec<PosWordPosRule>,
) -> (r: Vec<PosWordPosRule>)
    ensures
        pos_word_pos_rules_view(r@) == matched_pos_word_pos_rules(
            tokens_view(tokens@),
            pos_word_pos_rules_view(pos_word_pos_rules@),
        ),
{
    let ghost ts = tokens_view(tokens@);
    let ghost rs = pos_word_pos_rules_view(pos_word_pos_rules@);
    let ghost hits = |i: int, r: PosWordPosRuleV| pos_word_pos_rule_hits(ts, i, r);
    let mut out: Vec<PosWordPosRule> = Vec::new();
    let mut i: usize = 0;
    while i < tokens.len()
        invariant
            ts == tokens_view(tokens@),
            rs == pos_word_pos_rules_view(pos_word_pos_rules@),
            hits == (|i: int, r: PosWordPosRuleV| pos_word_pos_rule_hits(ts, i, r)),
            i <= tokens@.len(),
            pos_word_pos_rules_view(out@) == scan(i as int, rs, hits),
        decreases tokens.len() - i,
    {
        let ghost before = pos_word_pos_rules_view(out@);
        let mut j: usize = 0;
        while j < pos_word_pos_rules.len()
            invariant
                ts == tokens_view(tokens@),
                rs == pos_word_pos_rules_view(pos_word_pos_rules@),
                hits == (|i: int, r: PosWordPosRuleV| pos_word_pos_rule_hits(ts, i, r)),
                i < tokens@.len(),
                j <= pos_word_pos_rules@.len(),
                pos_word_pos_rules_view(out@) == before + rs.subrange(0, j as int).filter(
                    |r: PosWordPosRuleV| hits(i as int, r),
                ),
            decreases pos_word_pos_rules.len() - j,
        {
            let rule = &pos_word_pos_rules[j];
            let hit = if tokens.len() - i > 2 {
                match (&tokens[i], &tokens[i + 1], &tokens[i + 2]) {
                    (Token::Word(w1), Token::Word(w2), Token::Word(w3)) => w2.surface
                        == rule.surface && pos_meets(&w1.pos, &rule.pos_set_left) && pos_meets(
                        &w3.pos,
                        &rule.pos_set_right,
                    ),
                    _ => false,
                }
            } else {
                false
            };
            proof {
                lemma_scan_step(i as int, j as int, rs, hits, before);
            }
            if hit {
                let c = rule.copy();
                proof {
                    assert(pos_word_pos_rules_view(out@.push(c)) =~= pos_word_pos_rules_view(out@)
                        + seq![c@]);
                }
                out.push(c);
            } else {
                assert(pos_word_pos_rules_view(out@) =~= pos_word_pos_rules_view(out@) + seq![]);
            }
            j = j + 1;
        }
        assert(rs.subrange(0, rs.len() as int) == rs);
        i = i + 1;
    }
    out
}

/// Matches every kind of rule of `rules` against `tokens`; the result holds,
/// for each kind, the rules that matched, in the order found.
pub fn match_rules(tokens: Vec<Token>, rules: RuleSet) -> (r: RuleSet)
    ensures
        r@ == matched(tokens_view(tokens@), rules@),
{
    let pos_word_rules = match_pos_word_rules(&tokens, &rules.pos_word_rules);
    let pos_rules = match_pos_rules(&tokens, &rules.pos_rules);
    let word_rules = match_word_rules(&tokens, &rules.word_rules);
    let pos_word_pos_rules = match_pos_word_pos_rules(&tokens, &rules.pos_word_pos_rules);
    RuleSet { pos_word_rules, pos_rules, word_rules, pos_word_pos_rules }
}

/// Written forms of the built-in word rules: topic and object particles,
/// demonstratives, forms of いい, sentence-final particles and conjectural endings.
pub open spec fn builtin_words() -> Seq<Seq<char>> {
    seq![
        "は"@,
        "これ"@,
        "それ"@,
        "あれ"@,
        "いい"@,
        "よくない"@,
        "よかった"@,
        "よくなかった"@,
        "いいです"@,
        "よくないです"@,
        "よかったです"@,
        "よくなかったです"@,
        "か"@,
        "が"@,
        "よ"@,
        "ね"@,
        "を"@,
        "ここ"@,
        "そこ"@,
        "あそこ"@,
        "でしょう"@,
        "だろう"@,
        "だろ"@,
    ]
}

/// The built-in rule table.
pub open spec fn builtin_rules() -> RuleSetV {
    RuleSetV {
        pos_word_rules: seq![
            PosWordRuleV {
                pos_set: seq!["n"@, "pn"@, "adj-i"@, "adj-na"@],
                surface: "です"@,
            },
            PosWordRuleV { pos_set: seq!["n"@, "pn"@, "adj-na"@], surface: "だ"@ },
            PosWordRuleV { pos_set: seq!["n"@, "pn"@], surface: "も"@ },
            PosWordRuleV { pos_set: seq!["adj-na"@], surface: "な"@ },
        ],
        pos_rules: seq![
            PosRuleV { pos_set: seq!["v1"@] },
            PosRuleV { pos_set: seq!["v5r"@] },
            PosRuleV { pos_set: seq!["v5k"@] },
            PosRuleV { pos_set: seq!["adj-i"@] },
        ],
        word_rules: builtin_words().map_values(|w: Seq<char>| WordRuleV { surface: w }),
        pos_word_pos_rules: seq![
            PosWordPosRuleV {
                pos_set_left: seq!["n"@, "pn"@],
                surface: "の"@,
                pos_set_right: seq!["n"@, "pn"@],
            },
        ],
    }
}

pub open spec fn strs_view(v: Seq<&str>) -> Seq<Seq<char>> {
    v.map_values(|s: &str| s@)
}

/// The given texts as owned strings.
fn string_list(items: Vec<&str>) -> (r: Vec<String>)
    ensures
        strings_view(r@) == strs_view(items@),
{
    let mut r: Vec<String> = Vec::new();
    let mut i: usize = 0;
    while i < items.len()
        invariant
            i <= items@.len(),
            r@.len() == i,
            forall|k: int| 0 <= k < i ==> (#[trigger] r@[k])@ == items@[k]@,
        decreases items.len() - i,
    {
        r.push(String::from_str(items[i]));
        i = i + 1;
    }
    assert(strings_view(r@) =~= strs_view(items@));
    r
}

/// The built-in rule table: the grammar points that the matcher looks for.
pub fn load_rules() -> (r: RuleSet)
    ensures
        r@ == builtin_rules(),
{
    let words = string_list(
        vec![
            "は",
            "これ",
            "それ",
            "あれ",
            "いい",
            "よくない",
            "よかった",
            "よくなかった",
            "いいです",
            "よくないです",
            "よかったです",
            "よくなかったです",
            "か",
            "が",
            "よ",
            "ね",
            "を",
            "ここ",
            "そこ",
            "あそこ",
            "でしょう",
            "だろう",
            "だろ",
        ],
    );
    assert(strings_view(words@) =~= builtin_words());
    let mut word_rules: Vec<WordRule> = Vec::new();
    let mut i: usize = 0;
    while i < words.len()
        invariant
            i <= words@.len(),
            strings_view(words@) == builtin_words(),
            word_rules@.len() == i,
            forall|k: int| 0 <= k < i ==> (#[trigger] word_rules@[k]).surface@ == words@[k]@,
        decreases words.len() - i,
    {
        word_rules.push(WordRule { surface: words[i].clone() });
        i = i + 1;
    }
    let copula_tags = string_list(vec!["n", "pn", "adj-i", "adj-na"]);
    assert(strings_view(copula_tags@) =~= seq!["n"@, "pn"@, "adj-i"@, "adj-na"@]);
    let da_tags = string_list(vec!["n", "pn", "adj-na"]);
    assert(strings_view(da_tags@) =~= seq!["n"@, "pn"@, "adj-na"@]);
    let noun_tags = string_list(vec!["n", "pn"]);
    assert(strings_view(noun_tags@) =~= seq!["n"@, "pn"@]);
    let na_tags = string_list(vec!["adj-na"]);
    assert(strings_view(na_tags@) =~= seq!["adj-na"@]);
    let mut pos_word_rules: Vec<PosWordRule> = Vec::new();
    pos_word_rules.push(PosWordRule { pos_set: copula_tags, surface: String::from_str("です") });
    pos_word_rules.push(PosWordRule { pos_set: da_tags, surface: String::from_str("だ") });
    pos_word_rules.push(
        PosWordRule { pos_set: copy_strings(&noun_tags), surface: String::from_str("も") },
    );
    pos_word_rules.push(PosWordRule { pos_set: na_tags, surface: String::from_str("な") });
    let v1 = string_list(vec!["v1"]);
    assert(strings_view(v1@) =~= seq!["v1"@]);
    let v5r = string_list(vec!["v5r"]);
    assert(strings_view(v5r@) =~= seq!["v5r"@]);
    let v5k = string_list(vec!["v5k"]);
    assert(strings_view(v5k@) =~= seq!["v5k"@]);
    let adj_i = string_list(vec!["adj-i"]);
    assert(strings_view(adj_i@) =~= seq!["adj-i"@]);
    let mut pos_rules: Vec<PosRule> = Vec::new();
    pos_rules.push(PosRule { pos_set: v1 });
    pos_rules.push(PosRule { pos_set: v5r });
    pos_rules.push(PosRule { pos_set: v5k });
    pos_rules.push(PosRule { pos_set: adj_i });
    let mut pos_word_pos_rules: Vec<PosWordPosRule> = Vec::new();
    pos_word_pos_rules.push(
        PosWordPosRule {
            pos_set_left: copy_strings(&noun_tags),
            surface: String::from_str("の"),
            pos_set_right: copy_strings(&noun_tags),
        },
    );
    let r = RuleSet { pos_word_rules, pos_rules, word_rules, pos_word_pos_rules };
    proof {
        let b = builtin_rules();
        assert(r@.word_rules =~= b.word_rules);
        assert(r@.pos_word_rules =~= b.pos_word_rules);
        assert(r@.pos_rules =~= b.pos_rules);
        assert(r@.pos_word_pos_rules =~= b.pos_word_pos_rules);
    }
    r
}

/// All rules of `set` as one list: word rules, then part-of-speech-word
/// rules, then part-of-speech rules, then part-of-speech-word-part-of-speech rules.
pub open spec fn rule_list(set: RuleSetV) -> Seq<RuleV> {
    set.word_rules.map_values(|r: WordRuleV| RuleV::Word(r)) + set.pos_word_rules.map_values(
        |r: PosWordRuleV| RuleV::PosWord(r),
    ) + set.pos_rules.map_values(|r: PosRuleV| RuleV::Pos(r))
        + set.pos_word_pos_rules.map_values(|r: PosWordPosRuleV| RuleV::PosWordPos(r))
}

pub open spec fn rules_view(v: Seq<Rule>) -> Seq<RuleV> {
    v.map_values(|r: Rule| r@)
}

impl RuleSet {
    /// All rules of the set as one list; see `rule_list`.
    pub fn to_rules(&self) -> (r: Vec<Rule>)
        ensures
            rules_view(r@) == rule_list(self@),
    {
        let ghost v = self@;
        let mut out: Vec<Rule> = Vec::new();
        let mut i: usize = 0;
        while i < self.word_rules.len()
            invariant
                v == self@,
                i <= self.word_rules@.len(),
                rules_view(out@) == v.word_rules.subrange(0, i as int).map_values(
                    |r: WordRuleV| RuleV::Word(r),
                ),
            decreases self.word_rules.len() - i,
        {
            let x = Rule::Word(self.word_rules[i].copy());
            proof {
                assert(x@ == RuleV::Word(v.word_rules[i as int]));
                assert(rules_view(out@.push(x)) =~= rules_view(out@).push(x@));
                assert(v.word_rules.subrange(0, i + 1).map_values(|r: WordRuleV| RuleV::Word(r))
                    =~= v.word_rules.subrange(0, i as int).map_values(|r: WordRuleV| RuleV::Word(r)).push(
                    x@,
                ));
            }
            out.push(x);
            i = i + 1;
        }
        assert(v.word_rules.subrange(0, v.word_rules.len() as int) == v.word_rules);
        let ghost a = rules_view(out@);
        let mut i: usize = 0;
        while i < self.pos_word_rules.len()
            invariant
                v == self@,
                i <= self.pos_word_rules@.len(),
                rules_view(out@) == a + v.pos_word_rules.subrange(0, i as int).map_values(
                    |r: PosWordRuleV| RuleV::PosWord(r),
                ),
            decreases self.pos_word_rules.len() - i,
        {
            let x = Rule::PosWord(self.pos_word_rules[i].copy());
            proof {
                assert(x@ == RuleV::PosWord(v.pos_word_rules[i as int]));
                assert(rules_view(out@.push(x)) =~= rules_view(out@).push(x@));
                assert(v.pos_word_rules.subrange(0, i + 1).map_values(|r: PosWordRuleV| RuleV::PosWord(r))
                    =~= v.pos_word_rules.subrange(0, i as int).map_values(|r: PosWordRuleV| RuleV::PosWord(r)).push(
                    x@,
                ));
            }
            out.push(x);
            i = i + 1;
        }
        assert(v.pos_word_rules.subrange(0, v.pos_word_rules.len() as int) == v.pos_word_rules);
        let ghost b = rules_view(out@);
        let mut i: usize = 0;
        while i < self.pos_rules.len()
            invariant
                v == self@,
                i <= self.pos_rules@.len(),
                rules_view(out@) == b + v.pos_rules.subrange(0, i as int).map_values(
                    |r: PosRuleV| RuleV::Pos(r),
                ),
            decreases self.pos_rules.len() - i,
        {
            let x = Rule::Pos(self.pos_rules[i].copy());
            proof {
                assert(x@ == RuleV::Pos(v.pos_rules[i as int]));
                assert(rules_view(out@.push(x)) =~= rules_view(out@).push(x@));
                assert(v.pos_rules.subrange(0, i + 1).map_values(|r: PosRuleV| RuleV::Pos(r))
                    =~= v.pos_rules.subrange(0, i as int).map_values(|r: PosRuleV| RuleV::Pos(r)).push(
                    x@,
                ));
            }
            out.push(x);
            i = i + 1;
        }
        assert(v.pos_rules.subrange(0, v.pos_rules.len() as int) == v.pos_rules);
        let ghost c = rules_view(out@);
        let mut i: usize = 0;
        while i < self.pos_word_pos_rules.len()
            invariant
                v == self@,
                i <= self.pos_word_pos_rules@.len(),
                rules_view(out@) == c + v.pos_word_pos_rules.subrange(0, i as int).map_values(
                    |r: PosWordPosRuleV| RuleV::PosWordPos(r),
                ),
            decreases self.pos_word_pos_rules.len() - i,
        {
            let x = Rule::PosWordPos(self.pos_word_pos_rules[i].copy());
            proof {
                assert(x@ == RuleV::PosWordPos(v.pos_word_pos_rules[i as int]));
                assert(rules_view(out@.push(x)) =~= rules_view(out@).push(x@));
                assert(v.pos_word_pos_rules.subrange(0, i + 1).map_values(|r: PosWordPosRuleV| RuleV::PosWordPos(r))
                    =~= v.pos_word_pos_rules.subrange(0, i as int).map_values(|r: PosWordPosRuleV| RuleV::PosWordPos(r)).push(
                    x@,
                ));
            }
            out.push(x);
            i = i + 1;
        }
        assert(v.pos_word_pos_rules.subrange(0, v.pos_word_pos_rules.len() as int)
            == v.pos_word_pos_rules);
        out
    }
}

/// A token whose part of speech is one tag meets a part-of-speech rule for
/// that tag, whether the token is a word or a conjugation.
pub proof fn lemma_pos_rule_either_kind(t: TokenV, tag: Seq<char>)
    requires
        !tag.contains(','),
        (t is Word && t->Word_0.pos == tag) || (t is Conjugation && t->Conjugation_0.pos == tag),
    ensures
        matched_pos_rules(seq![t], seq![PosRuleV { pos_set: seq![tag] }]) == seq![
            PosRuleV { pos_set: seq![tag] },
        ],
{
    let rule = PosRuleV { pos_set: seq![tag] };
    let ts = seq![t];
    assert forall|j: int| 0 <= j < tag.len() implies tag[j] != ',' by {
        if tag[j] == ',' {
            assert(tag.contains(','));
        }
    }
    lemma_index_of_from_none(tag, ',', 0);
    assert(split_from(tag, ',', 0) == seq![tag.subrange(0, tag.len() as int)]);
    assert(tag.subrange(0, tag.len() as int) == tag);
    assert(seq![tag][0] == tag);
    assert(split_from(tag, ',', 0)[0] == tag);
    assert(rule.pos_set.contains(tag));
    assert(meets(tag, rule.pos_set));
    assert(pos_rule_hits(ts, 0, rule));
    let hits = |i: int, r: PosRuleV| pos_rule_hits(ts, i, r);
    reveal_with_fuel(Seq::filter, 2);
    assert(seq![rule].drop_last() =~= Seq::<PosRuleV>::empty());
    assert(seq![rule].filter(|r: PosRuleV| hits(0, r)) =~= seq![rule]);
    assert(scan(0, seq![rule], hits) == Seq::<PosRuleV>::empty());
    assert(scan(1, seq![rule], hits) =~= seq![rule]);
}

} // verus!
