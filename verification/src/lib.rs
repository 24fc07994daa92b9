//! Extraction of substitution ("yomikae") rules from Japanese statutory
//! amendment sentences.
//!
//! A yomikae provision states that, when a cross-referenced provision is
//! applied, a quoted phrase X is to be read as a quoted phrase Y.  The
//! library segments a sentence into alternating literal and quoted spans
//! even when the quote brackets are not globally balanced (see
//! [`auto_fix_paren`](auto_fix_paren::auto_fix_paren)), then walks the span
//! sequence with a small keyword-driven state machine to collect the
//! substitution rules.  Provisions given as two- or three-column tables are
//! converted directly, one rule per row.

use vstd::prelude::*;

pub mod auto_fix_paren;

use crate::auto_fix_paren::auto_fix_paren;
use crate::auto_fix_paren::markers_spec;
use crate::auto_fix_paren::segment_spans_spec;
use crate::auto_fix_paren::tiling_exists_from;
use vstd::string::StrSliceExecFns;

verus! {

/// The coordinate of a provision inside a law's article hierarchy.
#[derive(Debug, Clone, PartialEq, Eq, Hash, PartialOrd, Ord)]
pub struct Article {
    pub article: String,
    pub paragraph: Option<String>,
    pub item: Option<String>,
    pub sub_item: Option<String>,
    pub suppl_provision_title: Option<String>,
}

/// The text of a provision: either a sentence, or the rows of a table
/// (each row the list of its cells' text).
#[derive(Debug, Clone, PartialEq, Eq, Hash)]
pub enum LawContents {
    Text(String),
    Table(Vec<Vec<String>>),
}

/// A provision: its coordinate and its contents.
#[derive(Debug, Clone, PartialEq, Eq, Hash)]
pub struct LawText {
    pub article_info: Article,
    pub contents: LawContents,
}

/// Identifies the provision an error refers to: law number, coordinate,
/// and the contents that were being parsed.
#[derive(Debug, Clone, PartialEq, Eq, Hash)]
pub struct LawInfo {
    pub num: String,
    pub article: Article,
    pub contents: LawText,
}

/// The errors of a provision parse.
#[derive(Debug, Clone, PartialEq, Eq, Hash)]
pub enum YomikaeError {
    /// A table row has neither two nor three columns.
    ContentsOfTable(LawInfo),
    /// The bracket segmenter could not resolve the quote structure.
    UnmatchedParen(LawInfo),
    /// A further antecedent was chained onto an already closed group.
    UnexpectedParallelWords(LawInfo),
    /// The trigger phrase matched but no rule was completed; reported by
    /// callers that aggregate results, never by the parser itself.
    NotFoundYomikae(LawInfo),
}

/// A quoted phrase substitution: every phrase of `before_words` is to be
/// read as `after_word`.
#[derive(Debug, Clone, PartialEq, Eq, Hash, PartialOrd, Ord)]
pub struct YomikaeInfo {
    /// The quoted phrases being replaced.
    pub before_words: Vec<String>,
    /// The quoted phrase that replaces them.
    pub after_word: String,
}

/// The substitution rules extracted from one provision.
#[derive(Debug, Clone, PartialEq, Eq, Hash, PartialOrd, Ord)]
pub struct YomikaeData {
    /// Law number.
    pub num: String,
    /// The provision the rules were found in.
    pub article: Article,
    /// The rules, in sentence order.
    pub data: Vec<YomikaeInfo>,
}

/// Mathematical value of an [`Article`].
pub struct ArticleV {
    pub article: Seq<char>,
    pub paragraph: Option<Seq<char>>,
    pub item: Option<Seq<char>>,
    pub sub_item: Option<Seq<char>>,
    pub suppl_provision_title: Option<Seq<char>>,
}

/// Mathematical value of [`LawContents`].
pub enum LawContentsV {
    Text(Seq<char>),
    Table(Seq<Seq<Seq<char>>>),
}

/// Mathematical value of a [`LawText`].
pub struct LawTextV {
    pub article_info: ArticleV,
    pub contents: LawContentsV,
}

/// Mathematical value of a [`LawInfo`].
pub struct LawInfoV {
    pub num: Seq<char>,
    pub article: ArticleV,
    pub contents: LawTextV,
}

/// Mathematical value of a [`YomikaeInfo`]: one substitution rule.
pub struct RuleV {
    pub before: Seq<Seq<char>>,
    pub after: Seq<char>,
}

impl Article {
    pub open spec fn view(&self) -> ArticleV {
        ArticleV {
            article: self.article@,
            paragraph: self.paragraph.deep_view(),
            item: self.item.deep_view(),
            sub_item: self.sub_item.deep_view(),
            suppl_provision_title: self.suppl_provision_title.deep_view(),
        }
    }
}

impl LawContents {
    pub open spec fn view(&self) -> LawContentsV {
        match self {
            LawContents::Text(s) => LawContentsV::Text(s@),
            LawContents::Table(rows) => LawContentsV::Table(rows.deep_view()),
        }
    }
}

impl LawText {
    pub open spec fn view(&self) -> LawTextV {
        LawTextV { article_info: self.article_info@, contents: self.contents@ }
    }
}

impl LawInfo {
    pub open spec fn view(&self) -> LawInfoV {
        LawInfoV { num: self.num@, article: self.article@, contents: self.contents@ }
    }
}

impl YomikaeInfo {
    pub open spec fn view(&self) -> RuleV {
        RuleV { before: self.before_words.deep_view(), after: self.after_word@ }
    }
}

/// The rules carried by a list of [`YomikaeInfo`].
pub open spec fn rules_view(v: Seq<YomikaeInfo>) -> Seq<RuleV> {
    v.map_values(|y: YomikaeInfo| y@)
}

/// The [`LawInfo`] value identifying the provision handed to
/// [`parse_yomikae`].
pub open spec fn provision_info(num: Seq<char>, article: ArticleV, lt: LawTextV) -> LawInfoV {
    LawInfoV { num, article, contents: lt }
}

fn clone_opt_string(o: &Option<String>) -> (r: Option<String>)
    ensures
        r.deep_view() == o.deep_view(),
{
    match o {
        Option::None => Option::None,
        Option::Some(s) => Option::Some(s.clone()),
    }
}

fn clone_article(a: &Article) -> (r: Article)
    ensures
        r@ == a@,
{
    Article {
        article: a.article.clone(),
        paragraph: clone_opt_string(&a.paragraph),
        item: clone_opt_string(&a.item),
        sub_item: clone_opt_string(&a.sub_item),
        suppl_provision_title: clone_opt_string(&a.suppl_provision_title),
    }
}

fn clone_row(row: &Vec<String>) -> (r: Vec<String>)
    ensures
        r.deep_view() == row.deep_view(),
{
    let mut r: Vec<String> = Vec::new();
    let mut i: usize = 0;
    while i < row.len()
        invariant
            i <= row@.len(),
            r@.len() == i,
            forall|j: int| 0 <= j < i ==> #[trigger] r@[j]@ == row@[j]@,
        decreases row@.len() - i,
    {
        r.push(row[i].clone());
        i += 1;
    }
    proof {
        assert(r.deep_view() =~= row.deep_view());
    }
    r
}

fn clone_rows(rows: &Vec<Vec<String>>) -> (r: Vec<Vec<String>>)
    ensures
        r.deep_view() == rows.deep_view(),
{
    let mut r: Vec<Vec<String>> = Vec::new();
    let mut i: usize = 0;
    while i < rows.len()
        invariant
            i <= rows@.len(),
            r@.len() == i,
            forall|j: int| 0 <= j < i ==> #[trigger] r@[j].deep_view() == rows@[j].deep_view(),
        decreases rows@.len() - i,
    {
        r.push(clone_row(&rows[i]));
        i += 1;
    }
    proof {
        assert(r.deep_view() =~= rows.deep_view());
    }
    r
}

fn clone_law_contents(c: &LawContents) -> (r: LawContents)
    ensures
        r@ == c@,
{
    match c {
        LawContents::Text(s) => LawContents::Text(s.clone()),
        LawContents::Table(rows) => LawContents::Table(clone_rows(rows)),
    }
}

fn clone_law_text(lt: &LawText) -> (r: LawText)
    ensures
        r@ == lt@,
{
    LawText { article_info: clone_article(&lt.article_info), contents: clone_law_contents(
        &lt.contents,
    ) }
}

/// What the literal span following a quoted span means to the extractor:
/// the connector keywords, matched as prefixes of the literal text.
#[derive(Clone, Copy, Debug, PartialEq, Eq, Structural)]
pub enum LitKind {
    /// The literal completes a rule and resets the chain: a lone connector
    /// particle before the next quoted span, the enumeration comma after
    /// the replacement phrase, or the closing trigger verb.
    Emits,
    /// The literal chains a further antecedent onto an open group.
    Ari,
    /// The literal adds the last antecedent, closing the group.
    Aru,
    /// Anything else: unrelated quoted text, discard the chain.
    Other,
}

/// Classify a literal span by its leading connector keyword.  A literal
/// that is exactly the connector particle alone is the idiom of a
/// replacement phrase directly followed by the next quoted span; the other
/// keywords are matched as prefixes of the literal text.
pub open spec fn lit_kind(s: Seq<char>) -> LitKind {
    if s.len() == 1 && s[0] == 'と' {
        LitKind::Emits
    } else if s.len() >= 6 && s[0] == 'と' && s[1] == '読' && s[2] == 'み' && s[3] == '替' && s[4]
        == 'え' && s[5] == 'る' {
        LitKind::Emits
    } else if s.len() >= 3 && s[0] == 'と' && s[1] == 'あ' && s[2] == 'り' {
        LitKind::Ari
    } else if s.len() >= 3 && s[0] == 'と' && s[1] == 'あ' && s[2] == 'る' {
        LitKind::Aru
    } else if s.len() >= 2 && s[0] == 'と' && s[1] == '、' {
        LitKind::Emits
    } else {
        LitKind::Other
    }
}

fn classify_lit(s: &str) -> (k: LitKind)
    ensures
        k == lit_kind(s@),
{
    let n = s.unicode_len();
    if n == 1 && s.get_char(0) == 'と' {
        return LitKind::Emits;
    }
    if n >= 6 && s.get_char(0) == 'と' && s.get_char(1) == '読' && s.get_char(2) == 'み'
        && s.get_char(3) == '替' && s.get_char(4) == 'え' && s.get_char(5) == 'る' {
        return LitKind::Emits;
    }
    if n >= 3 && s.get_char(0) == 'と' && s.get_char(1) == 'あ' && s.get_char(2) == 'り' {
        return LitKind::Ari;
    }
    if n >= 3 && s.get_char(0) == 'と' && s.get_char(1) == 'あ' && s.get_char(2) == 'る' {
        return LitKind::Aru;
    }
    if n >= 2 && s.get_char(0) == 'と' && s.get_char(1) == '、' {
        return LitKind::Emits;
    }
    LitKind::Other
}

/// A quoted span with its bracket delimiters removed.
pub open spec fn strip_delims(s: Seq<char>) -> Seq<char> {
    if s.len() >= 2 {
        s.subrange(1, s.len() - 1)
    } else {
        Seq::empty()
    }
}

/// The extractor's state between spans: the antecedent phrases collected so
/// far, the content of the last quoted span, whether the antecedent group
/// was closed, and the rules emitted so far.
pub struct ExtState {
    pub pending: Seq<Seq<char>>,
    pub scratch: Seq<char>,
    pub closed: bool,
    pub out: Seq<RuleV>,
}

/// The extractor's state at the start of a sentence.
pub open spec fn init_state() -> ExtState {
    ExtState { pending: Seq::empty(), scratch: Seq::empty(), closed: false, out: Seq::empty() }
}

/// One literal span's effect on the state.  `None` is the hard error: a
/// further antecedent was chained onto an already closed group.
pub open spec fn step_literal(st: ExtState, s: Seq<char>) -> Option<ExtState> {
    match lit_kind(s) {
        LitKind::Emits => Option::Some(
            ExtState {
                pending: Seq::empty(),
                scratch: Seq::empty(),
                closed: false,
                out: if st.pending.len() > 0 && st.scratch.len() > 0 {
                    st.out.push(RuleV { before: st.pending, after: st.scratch })
                } else {
                    st.out
                },
            },
        ),
        LitKind::Ari => if st.closed {
            Option::None
        } else {
            Option::Some(
                ExtState {
                    pending: st.pending.push(st.scratch),
                    scratch: Seq::empty(),
                    closed: false,
                    out: st.out,
                },
            )
        },
        LitKind::Aru => Option::Some(
            ExtState {
                pending: st.pending.push(st.scratch),
                scratch: Seq::empty(),
                closed: true,
                out: st.out,
            },
        ),
        LitKind::Other => Option::Some(
            ExtState { pending: Seq::empty(), scratch: Seq::empty(), closed: false, out: st.out },
        ),
    }
}

/// One span's effect on the state: a quoted span (odd index) loads its
/// delimiter-stripped text, a literal span (even index) acts by its
/// connector keyword.
pub open spec fn step_span(st: ExtState, s: Seq<char>, i: int) -> Option<ExtState> {
    if i % 2 == 1 {
        Option::Some(ExtState { scratch: strip_delims(s), ..st })
    } else {
        step_literal(st, s)
    }
}

/// Walk the spans from index `i` in state `st`; the result is the emitted
/// rules in order, or `None` on the hard error.
pub open spec fn run_spans(spans: Seq<Seq<char>>, i: int, st: ExtState) -> Option<Seq<RuleV>>
    decreases spans.len() - i,
{
    if i < 0 || i >= spans.len() {
        Option::Some(st.out)
    } else {
        match step_span(st, spans[i], i) {
            Option::None => Option::None,
            Option::Some(st2) => run_spans(spans, i + 1, st2),
        }
    }
}

/// The substitution rules of an alternating span sequence, or `None` on the
/// hard error.
pub open spec fn extract_rules_spec(spans: Seq<Seq<char>>) -> Option<Seq<RuleV>> {
    run_spans(spans, 0, init_state())
}

/// A rule never leaves the extractor with an empty side.
pub open spec fn rule_nonempty(rule: RuleV) -> bool {
    rule.before.len() > 0 && rule.after.len() > 0
}

proof fn lemma_run_spans_nonempty(spans: Seq<Seq<char>>, i: int, st: ExtState)
    requires
        forall|k: int| 0 <= k < st.out.len() ==> rule_nonempty(#[trigger] st.out[k]),
    ensures
        match run_spans(spans, i, st) {
            Option::Some(rules) => forall|k: int|
                0 <= k < rules.len() ==> rule_nonempty(#[trigger] rules[k]),
            Option::None => true,
        },
    decreases spans.len() - i,
{
    if 0 <= i < spans.len() {
        match step_span(st, spans[i], i) {
            Option::None => {},
            Option::Some(st2) => {
                lemma_run_spans_nonempty(spans, i + 1, st2);
            },
        }
    }
}

/// A rule is emitted only when both its before-list and its after-word are
/// non-empty: every rule the extractor returns has at least one antecedent
/// phrase and a non-empty replacement phrase.
pub proof fn lemma_extracted_rules_nonempty(spans: Seq<Seq<char>>)
    ensures
        match extract_rules_spec(spans) {
            Option::Some(rules) => forall|k: int|
                0 <= k < rules.len() ==> rule_nonempty(#[trigger] rules[k]),
            Option::None => true,
        },
{
    lemma_run_spans_nonempty(spans, 0, init_state());
}

/// Walk an alternating span sequence (as produced by
/// [`auto_fix_paren::auto_fix_paren`]) and collect the substitution rules,
/// in sentence order.  Returns `None` exactly when a further antecedent is
/// chained onto an already closed group.
#[verifier::rlimit(100)]
#[verifier::spinoff_prover]
pub fn extract_yomikae(text_lst: &Vec<String>) -> (r: Option<Vec<YomikaeInfo>>)
    ensures
        match extract_rules_spec(text_lst.deep_view()) {
            Option::Some(rules) => r is Some && rules_view(r->0@) == rules,
            Option::None => r is None,
        },
{
    let ghost spans = text_lst.deep_view();
    let mut out: Vec<YomikaeInfo> = Vec::new();
    let mut word_in_kakko = String::new();
    let mut before_words: Vec<String> = Vec::new();
    let mut is_before_words_end = false;
    let mut i: usize = 0;
    proof {
        let st0 = ExtState {
            pending: before_words.deep_view(),
            scratch: word_in_kakko@,
            closed: is_before_words_end,
            out: rules_view(out@),
        };
        assert(st0.pending =~= Seq::<Seq<char>>::empty());
        assert(st0.out =~= Seq::<RuleV>::empty());
        assert(st0 == init_state());
    }
    while i < text_lst.len()
        invariant
            spans == text_lst.deep_view(),
            i <= text_lst@.len(),
            run_spans(spans, 0, init_state()) == run_spans(
                spans,
                i as int,
                ExtState {
                    pending: before_words.deep_view(),
                    scratch: word_in_kakko@,
                    closed: is_before_words_end,
                    out: rules_view(out@),
                },
            ),
        decreases text_lst@.len() - i,
    {
        let ghost st_in = ExtState {
            pending: before_words.deep_view(),
            scratch: word_in_kakko@,
            closed: is_before_words_end,
            out: rules_view(out@),
        };
        proof {
            assert(spans[i as int] == text_lst@[i as int]@);
        }
        let s: &String = &text_lst[i];
        if i % 2 == 1 {
            let n = s.as_str().unicode_len();
            if n >= 2 {
                word_in_kakko = s.as_str().substring_char(1, n - 1).to_owned();
            } else {
                word_in_kakko = String::new();
            }
            proof {
                let st2 = ExtState {
                    pending: before_words.deep_view(),
                    scratch: word_in_kakko@,
                    closed: is_before_words_end,
                    out: rules_view(out@),
                };
                assert(word_in_kakko@ =~= strip_delims(spans[i as int]));
                assert(st2 == ExtState { scratch: strip_delims(spans[i as int]), ..st_in });
                assert(step_span(st_in, spans[i as int], i as int) == Option::Some(st2));
            }
        } else {
            let kind = classify_lit(s.as_str());
            match kind {
                LitKind::Emits => {
                    let emit = before_words.len() > 0 && !word_in_kakko.as_str().is_empty();
                    let ghost out_old = out@;
                    if emit {
                        let info = YomikaeInfo {
                            before_words: before_words,
                            after_word: word_in_kakko,
                        };
                        out.push(info);
                        before_words = Vec::new();
                        word_in_kakko = String::new();
                        proof {
                            assert(out@ == out_old.push(out@[out@.len() - 1]));
                            assert(rules_view(out@) =~= rules_view(out_old).push(
                                RuleV { before: st_in.pending, after: st_in.scratch },
                            ));
                        }
                    } else {
                        before_words = Vec::new();
                        word_in_kakko = String::new();
                    }
                    is_before_words_end = false;
                    proof {
                        let st2 = ExtState {
                            pending: before_words.deep_view(),
                            scratch: word_in_kakko@,
                            closed: is_before_words_end,
                            out: rules_view(out@),
                        };
                        assert(st2.pending =~= Seq::<Seq<char>>::empty());
                        assert(st2.scratch =~= Seq::<char>::empty());
                        assert(step_literal(st_in, spans[i as int]) == Option::Some(st2));
                    }
                },
                LitKind::Ari => {
                    if is_before_words_end {
                        proof {
                            assert(step_span(st_in, spans[i as int], i as int) is None);
                            assert(run_spans(spans, i as int, st_in) is None);
                        }
                        return Option::None;
                    }
                    let ghost bw_old = before_words.deep_view();
                    before_words.push(word_in_kakko);
                    word_in_kakko = String::new();
                    is_before_words_end = false;
                    proof {
                        let st2 = ExtState {
                            pending: before_words.deep_view(),
                            scratch: word_in_kakko@,
                            closed: is_before_words_end,
                            out: rules_view(out@),
                        };
                        assert(st2.pending =~= bw_old.push(st_in.scratch));
                        assert(st2.scratch =~= Seq::<char>::empty());
                        assert(step_literal(st_in, spans[i as int]) == Option::Some(st2));
                    }
                },
                LitKind::Aru => {
                    let ghost bw_old = before_words.deep_view();
                    before_words.push(word_in_kakko);
                    word_in_kakko = String::new();
                    is_before_words_end = true;
                    proof {
                        let st2 = ExtState {
                            pending: before_words.deep_view(),
                            scratch: word_in_kakko@,
                            closed: is_before_words_end,
                            out: rules_view(out@),
                        };
                        assert(st2.pending =~= bw_old.push(st_in.scratch));
                        assert(st2.scratch =~= Seq::<char>::empty());
                        assert(step_literal(st_in, spans[i as int]) == Option::Some(st2));
                    }
                },
                LitKind::Other => {
                    before_words = Vec::new();
                    word_in_kakko = String::new();
                    is_before_words_end = false;
                    proof {
                        let st2 = ExtState {
                            pending: before_words.deep_view(),
                            scratch: word_in_kakko@,
                            closed: is_before_words_end,
                            out: rules_view(out@),
                        };
                        assert(st2.pending =~= Seq::<Seq<char>>::empty());
                        assert(st2.scratch =~= Seq::<char>::empty());
                        assert(step_literal(st_in, spans[i as int]) == Option::Some(st2));
                    }
                },
            }
        }
        i += 1;
    }
    proof {
        let st_end = ExtState {
            pending: before_words.deep_view(),
            scratch: word_in_kakko@,
            closed: is_before_words_end,
            out: rules_view(out@),
        };
        assert(run_spans(spans, i as int, st_end) == Option::Some(rules_view(out@)));
    }
    Option::Some(out)
}


fn make_law_info(num: &str, article: &Article, law_text: &LawText) -> (r: LawInfo)
    ensures
        r@ == provision_info(num@, article@, law_text@),
{
    LawInfo {
        num: num.to_owned(),
        article: clone_article(article),
        contents: clone_law_text(law_text),
    }
}

/// Extract the substitution rules of one provision.
///
/// A sentence is segmented by [`auto_fix_paren`] and walked by
/// [`extract_yomikae`]; a table yields one rule per row, the second-to-last
/// column read as the phrase being replaced and the last as its
/// replacement.  `num` and `article` identify the provision in the errors.
///
/// A provision in which no rule completes yields `Ok` with an empty list;
/// reporting that as [`YomikaeError::NotFoundYomikae`] is the caller's
/// affair.
#[verifier::rlimit(100)]
#[verifier::spinoff_prover]
pub fn parse_yomikae(law_text: &LawText, num: &str, article: &Article) -> (r: Result<
    Vec<YomikaeInfo>,
    YomikaeError,
>)
    ensures
        ({
            let info = provision_info(num@, article@, law_text@);
            match law_text.contents {
                LawContents::Text(input) => {
                    &&& (r is Err && r->Err_0 is UnmatchedParen) == !tiling_exists_from(
                        markers_spec(input@),
                        0,
                    )
                    &&& match segment_spans_spec(input@) {
                        Option::None => r matches Err(YomikaeError::UnmatchedParen(li)) && li@
                            == info,
                        Option::Some(spans) => match extract_rules_spec(spans) {
                            Option::Some(rules) => r matches Ok(out) && rules_view(out@) == rules,
                            Option::None => r matches Err(
                                YomikaeError::UnexpectedParallelWords(li),
                            ) && li@ == info,
                        },
                    }
                },
                LawContents::Table(rows) => {
                    let rv = rows.deep_view();
                    match r {
                        Ok(out) => {
                            &&& forall|i: int|
                                0 <= i < rv.len() ==> ((#[trigger] rv[i]).len() == 2 || rv[
                                    i
                                ].len() == 3)
                            &&& rules_view(out@).len() == rv.len()
                            &&& forall|i: int|
                                0 <= i < rv.len() && (#[trigger] rv[i]).len() == 2 ==> rules_view(
                                    out@,
                                )[i] == (RuleV { before: seq![rv[i][0]], after: rv[i][1] })
                            &&& forall|i: int|
                                0 <= i < rv.len() && (#[trigger] rv[i]).len() == 3 ==> rules_view(
                                    out@,
                                )[i] == (RuleV { before: seq![rv[i][1]], after: rv[i][2] })
                        },
                        Err(e) => {
                            &&& e matches YomikaeError::ContentsOfTable(li) && li@ == info
                            &&& exists|i: int|
                                0 <= i < rv.len() && (#[trigger] rv[i]).len() != 2 && rv[i].len()
                                    != 3
                        },
                    }
                },
            }
        }),
{
    match &law_text.contents {
        LawContents::Text(input) => {
            match auto_fix_paren(input.as_str()) {
                Option::None => Result::Err(
                    YomikaeError::UnmatchedParen(make_law_info(num, article, law_text)),
                ),
                Option::Some(text_lst) => {
                    proof {
                        assert(segment_spans_spec(input@) == Option::Some(text_lst.deep_view()));
                    }
                    match extract_yomikae(&text_lst) {
                        Option::Some(rules) => Result::Ok(rules),
                        Option::None => Result::Err(
                            YomikaeError::UnexpectedParallelWords(
                                make_law_info(num, article, law_text),
                            ),
                        ),
                    }
                },
            }
        },
        LawContents::Table(rows) => {
            let ghost rv = rows.deep_view();
            let mut out: Vec<YomikaeInfo> = Vec::new();
            let mut i: usize = 0;
            while i < rows.len()
                invariant
                    law_text.contents is Table,
                    rv == law_text.contents->Table_0.deep_view(),
                    rv == rows.deep_view(),
                    i <= rv.len(),
                    out@.len() == i,
                    forall|j: int|
                        0 <= j < i ==> ((#[trigger] rv[j]).len() == 2 || rv[j].len() == 3),
                    forall|j: int|
                        0 <= j < i && (#[trigger] rv[j]).len() == 2 ==> rules_view(out@)[j] == (RuleV {
                            before: seq![rv[j][0]],
                            after: rv[j][1],
                        }),
                    forall|j: int|
                        0 <= j < i && (#[trigger] rv[j]).len() == 3 ==> rules_view(out@)[j] == (RuleV {
                            before: seq![rv[j][1]],
                            after: rv[j][2],
                        }),
                decreases rv.len() - i,
            {
                let row = &rows[i];
                let len = row.len();
                let ghost out_old = out@;
                if len == 2 {
                    let mut before: Vec<String> = Vec::new();
                    before.push(row[0].clone());
                    let info = YomikaeInfo { before_words: before, after_word: row[1].clone() };
                    proof {
                        assert(info@.before =~= seq![rv[i as int][0]]);
                    }
                    out.push(info);
                    proof {
                        assert(rules_view(out@) =~= rules_view(out_old).push(
                            RuleV { before: seq![rv[i as int][0]], after: rv[i as int][1] },
                        ));
                    }
                } else if len == 3 {
                    let mut before: Vec<String> = Vec::new();
                    before.push(row[1].clone());
                    let info = YomikaeInfo { before_words: before, after_word: row[2].clone() };
                    proof {
                        assert(info@.before =~= seq![rv[i as int][1]]);
                    }
                    out.push(info);
                    proof {
                        assert(rules_view(out@) =~= rules_view(out_old).push(
                            RuleV { before: seq![rv[i as int][1]], after: rv[i as int][2] },
                        ));
                    }
                } else {
                    let li = make_law_info(num, article, law_text);
                    proof {
                        assert(rv[i as int].len() != 2 && rv[i as int].len() != 3);
                        assert(exists|j: int|
                            0 <= j < rv.len() && (#[trigger] rv[j]).len() != 2 && rv[j].len() != 3);
                        assert(li@ == provision_info(num@, article@, law_text@));
                    }
                    return Result::Err(YomikaeError::ContentsOfTable(li));
                }
                i += 1;
            }
            Result::Ok(out)
        },
    }
}


} // verus!
