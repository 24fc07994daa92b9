//! Bracket segmenter: splits a sentence containing quote brackets into an
//! alternating sequence of literal and quoted spans, tolerating unbalanced
//! open/close quote markers.
//!
//! The segmenter works in three stages.  A scan first collects the bracket
//! glyphs of the sentence as [`ParseToken`]s; a reduction pass then drops
//! every quote bracket that sits inside a balanced parenthetical aside,
//! leaving the candidate quote markers ([`ParenInfo`]); finally a
//! backtracking search
//! partitions the marker list into consecutive runs of one or more
//! structurally identical `Open .. Close` groups, and each group is
//! rendered back as a quoted span of the original text.

use vstd::arithmetic::div_mod::lemma_fundamental_div_mod;
use vstd::prelude::*;

verus! {

/// The kind of a quote-bracket marker.
#[derive(Clone, Copy, Debug, PartialEq, Eq, Hash, Structural)]
pub enum Paren {
    Open,
    Close,
}

/// A quote-bracket marker together with its character position in the
/// sentence.
#[derive(Clone, Copy, Debug, PartialEq, Eq, Hash, Structural)]
pub struct ParenInfo {
    pub pos: usize,
    pub v: Paren,
}

/// One candidate way of consuming markers at some position of the search:
/// `times` consecutive groups of `len` markers each.
#[derive(Clone, Copy, Debug, PartialEq, Eq, Structural)]
pub struct SplitPattern {
    /// Number of markers in one group.
    pub len: usize,
    /// Number of consecutive identical groups.
    pub times: usize,
}

/// A choice point of the backtracking search: the candidates available at
/// one position, and which of them is currently adopted.
#[derive(Clone, Debug, PartialEq, Eq)]
pub struct SplitPatternList {
    /// Index into `pattern_lst` of the candidate currently adopted.
    pub now: usize,
    /// The candidates available at this position, in preference order.
    pub pattern_lst: Vec<SplitPattern>,
}

/// A bracket or parenthesis glyph found while scanning a sentence.
#[derive(Clone, Copy, Debug, PartialEq, Eq, Structural)]
pub enum ParseToken {
    KagiOpen(usize),
    KagiClose(usize),
    MaruOpen,
    MaruClose,
}

/// The tokens produced by scanning `s`: one per bracket glyph, quote
/// brackets carrying their character position.
pub open spec fn tokens_spec(s: Seq<char>) -> Seq<ParseToken>
    decreases s.len(),
{
    if s.len() == 0 {
        Seq::empty()
    } else {
        let i = (s.len() - 1) as usize;
        let c = s.last();
        let pre = tokens_spec(s.drop_last());
        if c == '「' {
            pre.push(ParseToken::KagiOpen(i))
        } else if c == '」' {
            pre.push(ParseToken::KagiClose(i))
        } else if c == '（' {
            pre.push(ParseToken::MaruOpen)
        } else if c == '）' {
            pre.push(ParseToken::MaruClose)
        } else {
            pre
        }
    }
}

/// Whether a token is a quote-bracket token.
pub open spec fn is_kagi(t: ParseToken) -> bool {
    t is KagiOpen || t is KagiClose
}

/// The position carried by a quote-bracket token.
pub open spec fn kagi_pos(t: ParseToken) -> int {
    match t {
        ParseToken::KagiOpen(p) => p as int,
        ParseToken::KagiClose(p) => p as int,
        _ => -1,
    }
}

/// A quote-bracket token points at the matching glyph of `s`.
pub open spec fn token_wf(s: Seq<char>, t: ParseToken) -> bool {
    match t {
        ParseToken::KagiOpen(p) => p < s.len() && s[p as int] == '「',
        ParseToken::KagiClose(p) => p < s.len() && s[p as int] == '」',
        _ => true,
    }
}

/// Every token points at its glyph, and the quote-bracket tokens appear in
/// strictly increasing position order.
pub open spec fn tokens_wf(s: Seq<char>, ts: Seq<ParseToken>) -> bool {
    &&& forall|i: int| 0 <= i < ts.len() ==> token_wf(s, #[trigger] ts[i])
    &&& forall|i: int, j: int|
        0 <= i < j < ts.len() && is_kagi(#[trigger] ts[i]) && is_kagi(#[trigger] ts[j])
            ==> kagi_pos(ts[i]) < kagi_pos(ts[j])
}

/// The scan stage: collect the bracket glyphs of `text` in order.
fn collect_parse_tokens(text: &str) -> (r: Vec<ParseToken>)
    ensures
        r@ == tokens_spec(text@),
        tokens_wf(text@, r@),
{
    let n = text.unicode_len();
    let mut r: Vec<ParseToken> = Vec::new();
    let mut i: usize = 0;
    while i < n
        invariant
            i <= n,
            n == text@.len(),
            r@ == tokens_spec(text@.take(i as int)),
            tokens_wf(text@, r@),
            forall|k: int| 0 <= k < r@.len() && is_kagi(#[trigger] r@[k]) ==> kagi_pos(r@[k]) < i,
        decreases n - i,
    {
        let c = text.get_char(i);
        proof {
            assert(text@.take(i + 1 as int).drop_last() =~= text@.take(i as int));
            assert(text@.take(i + 1 as int).last() == text@[i as int]);
        }
        if c == '「' {
            r.push(ParseToken::KagiOpen(i));
        } else if c == '」' {
            r.push(ParseToken::KagiClose(i));
        } else if c == '（' {
            r.push(ParseToken::MaruOpen);
        } else if c == '）' {
            r.push(ParseToken::MaruClose);
        }
        i += 1;
    }
    proof {
        assert(text@.take(n as int) =~= text@);
    }
    r
}

/// Pair the parenthesis tokens as a stack matching would: a
/// parenthesis-close token closes the nearest parenthesis-open token still
/// pending, and a parenthesis glyph without a partner belongs to no pair.
/// The result is the matched pairs, each as the two token indices.
pub open spec fn paren_pairs_rec(
    ts: Seq<ParseToken>,
    i: int,
    stack: Seq<usize>,
    pairs: Seq<(usize, usize)>,
) -> Seq<(usize, usize)>
    decreases ts.len() - i,
{
    if !(0 <= i < ts.len()) {
        pairs
    } else {
        match ts[i] {
            ParseToken::MaruOpen => paren_pairs_rec(ts, i + 1, stack.push(i as usize), pairs),
            ParseToken::MaruClose => {
                if stack.len() > 0 {
                    paren_pairs_rec(ts, i + 1, stack.drop_last(), pairs.push((stack.last(), i as usize)))
                } else {
                    paren_pairs_rec(ts, i + 1, stack, pairs)
                }
            },
            _ => paren_pairs_rec(ts, i + 1, stack, pairs),
        }
    }
}

/// The balanced parenthetical asides of the token sequence.
pub open spec fn paren_pairs(ts: Seq<ParseToken>) -> Seq<(usize, usize)> {
    paren_pairs_rec(ts, 0, Seq::empty(), Seq::empty())
}

/// The token at index `p` lies strictly inside some balanced aside.
pub open spec fn in_matched_aside(ts: Seq<ParseToken>, p: int) -> bool {
    exists|k: int|
        0 <= k < paren_pairs(ts).len() && (#[trigger] paren_pairs(ts)[k]).0 < p
            && p < paren_pairs(ts)[k].1
}

/// The reduction stage, as a recursive definition: from index `i` on, keep
/// exactly the quote-bracket tokens that lie outside every balanced
/// parenthetical aside.
pub open spec fn kept_markers(ts: Seq<ParseToken>, i: int) -> Seq<ParenInfo>
    decreases ts.len() - i,
{
    if !(0 <= i < ts.len()) {
        Seq::empty()
    } else {
        let rest = kept_markers(ts, i + 1);
        match ts[i] {
            ParseToken::KagiOpen(p) => {
                if !in_matched_aside(ts, i) {
                    seq![ParenInfo { pos: p, v: Paren::Open }] + rest
                } else {
                    rest
                }
            },
            ParseToken::KagiClose(p) => {
                if !in_matched_aside(ts, i) {
                    seq![ParenInfo { pos: p, v: Paren::Close }] + rest
                } else {
                    rest
                }
            },
            _ => rest,
        }
    }
}

/// The candidate quote markers of a sentence: its quote-bracket glyphs,
/// except those inside a balanced parenthetical aside.
pub open spec fn markers_spec(s: Seq<char>) -> Seq<ParenInfo> {
    kept_markers(tokens_spec(s), 0)
}

/// A marker points at its glyph in `s`.
pub open spec fn marker_wf(s: Seq<char>, m: ParenInfo) -> bool {
    &&& m.pos < s.len()
    &&& (m.v is Open ==> s[m.pos as int] == '「')
    &&& (m.v is Close ==> s[m.pos as int] == '」')
}

/// Every marker points at its glyph and positions strictly increase.
pub open spec fn markers_wf(s: Seq<char>, ms: Seq<ParenInfo>) -> bool {
    &&& forall|k: int| 0 <= k < ms.len() ==> marker_wf(s, #[trigger] ms[k])
    &&& forall|k: int, l: int|
        0 <= k < l < ms.len() ==> (#[trigger] ms[k]).pos < (#[trigger] ms[l]).pos
}

/// Whether token index `p` lies strictly inside one of the `pairs`.
fn inside_aside(pairs: &Vec<(usize, usize)>, p: usize) -> (r: bool)
    ensures
        r == exists|k: int|
            0 <= k < pairs@.len() && (#[trigger] pairs@[k]).0 < p && p < pairs@[k].1,
{
    let mut k: usize = 0;
    while k < pairs.len()
        invariant
            k <= pairs@.len(),
            forall|m: int| 0 <= m < k ==> !((#[trigger] pairs@[m]).0 < p && p < pairs@[m].1),
        decreases pairs@.len() - k,
    {
        let pr = pairs[k];
        if pr.0 < p && p < pr.1 {
            return true;
        }
        k += 1;
    }
    false
}

/// The reduction stage.  `s` is the sentence the tokens came from; it is
/// only needed to state that the resulting markers point at its glyphs.
fn reduce_tokens(tokens: &Vec<ParseToken>, Ghost(s): Ghost<Seq<char>>) -> (r: Vec<ParenInfo>)
    requires
        tokens_wf(s, tokens@),
    ensures
        r@ == kept_markers(tokens@, 0),
        markers_wf(s, r@),
{
    let ghost ts = tokens@;
    let n = tokens.len();
    let mut stack: Vec<usize> = Vec::new();
    let mut pairs: Vec<(usize, usize)> = Vec::new();
    let mut i: usize = 0;
    while i < n
        invariant
            n == ts.len(),
            ts == tokens@,
            i <= n,
            paren_pairs(ts) == paren_pairs_rec(ts, i as int, stack@, pairs@),
        decreases n - i,
    {
        match tokens[i] {
            ParseToken::MaruOpen => {
                stack.push(i);
            },
            ParseToken::MaruClose => {
                let ghost stack_old = stack@;
                match stack.pop() {
                    Some(o) => {
                        proof {
                            assert(o == stack_old.last());
                            assert(stack@ =~= stack_old.drop_last());
                        }
                        pairs.push((o, i));
                    },
                    None => {},
                }
            },
            _ => {},
        }
        i += 1;
    }
    proof {
        assert(paren_pairs_rec(ts, n as int, stack@, pairs@) == pairs@);
    }
    let mut r: Vec<ParenInfo> = Vec::new();
    let mut j: usize = 0;
    while j < n
        invariant
            n == ts.len(),
            ts == tokens@,
            tokens_wf(s, ts),
            j <= n,
            pairs@ == paren_pairs(ts),
            kept_markers(ts, 0) == r@ + kept_markers(ts, j as int),
            markers_wf(s, r@),
            forall|j2: int|
                j <= j2 < ts.len() && is_kagi(#[trigger] ts[j2])
                    ==> (forall|k: int|
                    0 <= k < r@.len() ==> (#[trigger] r@[k]).pos < kagi_pos(ts[j2])),
        decreases n - j,
    {
        let ghost r_old = r@;
        match tokens[j] {
            ParseToken::KagiOpen(p) => {
                if !inside_aside(&pairs, j) {
                    r.push(ParenInfo { pos: p, v: Paren::Open });
                    proof {
                        assert(!in_matched_aside(ts, j as int));
                        assert(kept_markers(ts, j as int) =~= seq![
                            ParenInfo { pos: p, v: Paren::Open },
                        ] + kept_markers(ts, j + 1));
                        assert(r@ =~= r_old + seq![ParenInfo { pos: p, v: Paren::Open }]);
                        assert(r@ + kept_markers(ts, j + 1) =~= r_old + kept_markers(
                            ts,
                            j as int,
                        ));
                    }
                } else {
                    proof {
                        assert(in_matched_aside(ts, j as int));
                    }
                }
            },
            ParseToken::KagiClose(p) => {
                if !inside_aside(&pairs, j) {
                    r.push(ParenInfo { pos: p, v: Paren::Close });
                    proof {
                        assert(!in_matched_aside(ts, j as int));
                        assert(kept_markers(ts, j as int) =~= seq![
                            ParenInfo { pos: p, v: Paren::Close },
                        ] + kept_markers(ts, j + 1));
                        assert(r@ =~= r_old + seq![ParenInfo { pos: p, v: Paren::Close }]);
                        assert(r@ + kept_markers(ts, j + 1) =~= r_old + kept_markers(
                            ts,
                            j as int,
                        ));
                    }
                } else {
                    proof {
                        assert(in_matched_aside(ts, j as int));
                    }
                }
            },
            _ => {},
        }
        j += 1;
    }
    proof {
        assert(r@ + kept_markers(ts, j as int) =~= r@);
    }
    r
}

/// How many markers a candidate consumes.
pub open spec fn run_size(p: SplitPattern) -> int {
    p.len * p.times
}

/// The marker kind at `x` repeats the one a period `len` earlier.
pub open spec fn period_at(ms: Seq<ParenInfo>, len: int, x: int) -> bool {
    ms[x].v == ms[x - len].v
}

/// The candidate `p` can be taken at marker index `start`: it consumes
/// `p.times` consecutive groups of `p.len` markers each, all structurally
/// identical (the marker kinds repeat with period `p.len`), and each group
/// begins with an open marker and ends with a close marker.  A single
/// group is a candidate of repeat count one.
pub open spec fn valid_run(ms: Seq<ParenInfo>, start: int, p: SplitPattern) -> bool {
    &&& 2 <= p.len
    &&& 1 <= p.times
    &&& 2 <= run_size(p)
    &&& 0 <= start
    &&& start + run_size(p) <= ms.len()
    &&& forall|x: int|
        start + p.len <= x < start + run_size(p) ==> #[trigger] period_at(ms, p.len as int, x)
    &&& ms[start].v is Open
    &&& ms[start + p.len - 1].v is Close
}

/// `runs`, taken one after another from marker index `start`, consume the
/// markers exactly to the end.
pub open spec fn tiling(ms: Seq<ParenInfo>, start: int, runs: Seq<SplitPattern>) -> bool
    decreases runs.len(),
{
    if runs.len() == 0 {
        start == ms.len()
    } else {
        valid_run(ms, start, runs[0]) && tiling(ms, start + run_size(runs[0]), runs.drop_first())
    }
}

/// Some sequence of candidates tiles the markers from `start` to the end.
pub open spec fn tiling_exists_from(ms: Seq<ParenInfo>, start: int) -> bool
    decreases ms.len() - start,
{
    start == ms.len() || exists|p: SplitPattern|
        #[trigger] valid_run(ms, start, p) && tiling_exists_from(ms, start + run_size(p))
}

/// The markers from `start` on can be partitioned into contiguous groups,
/// each beginning with an open marker and ending with a close marker.
pub open spec fn group_partition_exists(ms: Seq<ParenInfo>, start: int) -> bool
    decreases ms.len() - start,
{
    start == ms.len() || exists|l: int|
        #![trigger ms[start + l - 1]]
        2 <= l && start + l <= ms.len() && ms[start].v is Open && ms[start + l - 1].v is Close
            && group_partition_exists(ms, start + l)
}

/// Taking one candidate's groups one by one: a valid candidate followed by
/// a group partition of the rest gives a group partition.
proof fn lemma_run_to_groups(ms: Seq<ParenInfo>, start: int, p: SplitPattern)
    requires
        valid_run(ms, start, p),
        group_partition_exists(ms, start + run_size(p)),
    ensures
        group_partition_exists(ms, start),
    decreases p.times,
{
    if p.times == 1 {
        assert(run_size(p) == p.len) by (nonlinear_arith)
            requires
                p.times == 1,
                run_size(p) == p.len * p.times,
        ;
        assert(ms[start + p.len - 1].v is Close);
    } else {
        let p2 = SplitPattern { len: p.len, times: (p.times - 1) as usize };
        assert(run_size(p2) == run_size(p) - p.len && 2 * p.len <= run_size(p) && p.len
            <= run_size(p2)) by (nonlinear_arith)
            requires
                2 <= p.len,
                2 <= p.times,
                run_size(p) == p.len * p.times,
                run_size(p2) == p.len * (p.times - 1),
        ;
        assert(period_at(ms, p.len as int, start + p.len));
        assert(period_at(ms, p.len as int, start + p.len + p.len - 1));
        assert forall|x: int|
            start + p.len + p2.len <= x < start + p.len + run_size(p2) implies #[trigger] period_at(
            ms,
            p2.len as int,
            x,
        ) by {
            assert(period_at(ms, p.len as int, x));
        }
        assert(valid_run(ms, start + p.len, p2));
        lemma_run_to_groups(ms, start + p.len, p2);
        assert(ms[start + p.len - 1].v is Close);
    }
}

/// The search succeeds exactly when the markers can be partitioned into
/// contiguous groups, each beginning with an open marker and ending with a
/// close marker: consuming candidate runs group by group is the same thing
/// as cutting the markers into such groups.
pub proof fn lemma_tiling_iff_group_partition(ms: Seq<ParenInfo>, start: int)
    requires
        0 <= start <= ms.len() <= usize::MAX,
    ensures
        tiling_exists_from(ms, start) <==> group_partition_exists(ms, start),
    decreases ms.len() - start,
{
    if start < ms.len() {
        if tiling_exists_from(ms, start) {
            let p = choose|p: SplitPattern|
                #[trigger] valid_run(ms, start, p) && tiling_exists_from(ms, start + run_size(p));
            lemma_tiling_iff_group_partition(ms, start + run_size(p));
            lemma_run_to_groups(ms, start, p);
        }
        if group_partition_exists(ms, start) {
            let l = choose|l: int|
                #![trigger ms[start + l - 1]]
                2 <= l && start + l <= ms.len() && ms[start].v is Open && ms[start + l
                    - 1].v is Close && group_partition_exists(ms, start + l);
            lemma_tiling_iff_group_partition(ms, start + l);
            let p = SplitPattern { len: l as usize, times: 1 };
            assert(l as usize == l);
            assert(run_size(p) == l) by (nonlinear_arith)
                requires
                    run_size(p) == l * 1,
            ;
            assert(valid_run(ms, start, p));
            assert(tiling_exists_from(ms, start));
        }
    }
}

/// If `a * b <= r` then `b <= r / a`.
proof fn lemma_le_div(a: int, b: int, r: int)
    requires
        1 <= a,
        0 <= b,
        a * b <= r,
    ensures
        b <= r / a,
{
    lemma_fundamental_div_mod(r, a);
    if b > r / a {
        assert(a * b >= a * (r / a) + a) by (nonlinear_arith)
            requires
                a >= 1,
                b >= r / a + 1,
        ;
        assert(false);
    }
}

/// A valid candidate stays valid when its repeat count is reduced.
proof fn lemma_valid_run_mono(ms: Seq<ParenInfo>, start: int, len: usize, t1: usize, t2: usize)
    requires
        valid_run(ms, start, SplitPattern { len, times: t1 }),
        1 <= t2 <= t1,
    ensures
        valid_run(ms, start, SplitPattern { len, times: t2 }),
{
    assert(len * t2 <= len * t1 && 2 <= len * t2) by (nonlinear_arith)
        requires
            2 <= len,
            1 <= t2 <= t1,
    ;
}

/// If every valid candidate at `h` leads to a position from which no tiling
/// completes, then no tiling completes from `h` either.
proof fn lemma_all_refuted(ms: Seq<ParenInfo>, h: int)
    requires
        0 <= h < ms.len(),
        forall|p: SplitPattern|
            #[trigger] valid_run(ms, h, p) ==> !tiling_exists_from(ms, h + run_size(p)),
    ensures
        !tiling_exists_from(ms, h),
{
}

/// A concrete tiling witnesses that one exists.
proof fn lemma_tiling_implies_exists(ms: Seq<ParenInfo>, start: int, runs: Seq<SplitPattern>)
    requires
        tiling(ms, start, runs),
    ensures
        tiling_exists_from(ms, start),
    decreases runs.len(),
{
    if runs.len() > 0 {
        lemma_tiling_implies_exists(ms, start + run_size(runs[0]), runs.drop_first());
    }
}

/// Whether the candidate `(len, times)` can be taken at marker index `head`.
#[verifier::spinoff_prover]
fn check_run(markers: &Vec<ParenInfo>, head: usize, len: usize, times: usize) -> (b: bool)
    requires
        2 <= len,
        1 <= times,
        head + len * times <= markers@.len(),
    ensures
        b == valid_run(markers@, head as int, SplitPattern { len, times }),
{
    let n = markers.len();
    proof {
        assert(2 <= len * times && len <= len * times) by (nonlinear_arith)
            requires
                2 <= len,
                1 <= times,
        ;
    }
    let size = len * times;
    if markers[head].v != Paren::Open {
        return false;
    }
    if markers[head + len - 1].v != Paren::Close {
        return false;
    }
    let mut x = head + len;
    while x < head + size
        invariant
            2 <= len,
            1 <= times,
            size == len * times,
            n == markers@.len(),
            head + size <= n,
            head + len <= x <= head + size,
            forall|y: int| head + len <= y < x ==> #[trigger] period_at(markers@, len as int, y),
        decreases head + size - x,
    {
        if markers[x].v != markers[x - len].v {
            proof {
                assert(!period_at(markers@, len as int, x as int));
            }
            return false;
        }
        proof {
            assert(period_at(markers@, len as int, x as int));
        }
        x += 1;
    }
    true
}

/// The largest repeat count in `2 ..= t` whose candidate of group length
/// `len` is valid at `head`; zero when none is.
pub open spec fn scan_max_times(ms: Seq<ParenInfo>, head: int, len: usize, t: int) -> int
    decreases t,
{
    if t < 2 {
        0
    } else if valid_run(ms, head, SplitPattern { len, times: t as usize }) {
        t
    } else {
        scan_max_times(ms, head, len, t - 1)
    }
}

/// The repeated-run candidates of one group length, repeat count
/// descending: `(len, f), (len, f - 1), .., (len, 2)` for the largest valid
/// repeat count `f`, or nothing when no repeat count of two or more is
/// valid.
pub open spec fn cands_for_len(ms: Seq<ParenInfo>, head: int, len: usize) -> Seq<SplitPattern> {
    let f = scan_max_times(ms, head, len, (ms.len() - head) / (len as int));
    if f >= 2 {
        Seq::new((f - 1) as nat, |i: int| SplitPattern { len, times: (f - i) as usize })
    } else {
        Seq::empty()
    }
}

/// The repeated-run candidates of every group length below `len`, group
/// length ascending.
pub open spec fn cands_multi_upto(ms: Seq<ParenInfo>, head: int, len: int) -> Seq<SplitPattern>
    decreases len,
{
    if len <= 2 {
        Seq::empty()
    } else {
        cands_multi_upto(ms, head, len - 1) + cands_for_len(ms, head, (len - 1) as usize)
    }
}

/// The single-group candidates of every group length below `len`, group
/// length ascending.
pub open spec fn cands_single_upto(ms: Seq<ParenInfo>, head: int, len: int) -> Seq<SplitPattern>
    decreases len,
{
    if len <= 2 {
        Seq::empty()
    } else {
        cands_single_upto(ms, head, len - 1) + (if valid_run(
            ms,
            head,
            SplitPattern { len: (len - 1) as usize, times: 1 },
        ) {
            seq![SplitPattern { len: (len - 1) as usize, times: 1 }]
        } else {
            Seq::empty()
        })
    }
}

/// The candidates tried at marker index `head`, in order: first the
/// repeated runs (group length ascending, repeat count descending), then
/// the single groups (length ascending).  Repeated identical adjacent
/// groups are the common statutory idiom, so they are preferred; a single
/// group is the fallback that makes any legal decomposition reachable.
pub open spec fn cand_list(ms: Seq<ParenInfo>, head: int) -> Seq<SplitPattern> {
    cands_multi_upto(ms, head, (ms.len() - head) / 2 + 1) + cands_single_upto(
        ms,
        head,
        (ms.len() - head) + 1,
    )
}

/// What the repeat-count scan returns: zero or the largest valid count.
proof fn lemma_scan_props(ms: Seq<ParenInfo>, head: int, len: usize, t: int)
    ensures
        ({
            let f = scan_max_times(ms, head, len, t);
            &&& f == 0 || (2 <= f <= t && valid_run(ms, head, SplitPattern { len, times: f as usize }))
            &&& forall|u: int|
                2 <= u && f < u <= t ==> !(#[trigger] valid_run(
                    ms,
                    head,
                    SplitPattern { len, times: u as usize },
                ))
        }),
    decreases t,
{
    if t >= 2 && !valid_run(ms, head, SplitPattern { len, times: t as usize }) {
        lemma_scan_props(ms, head, len, t - 1);
    }
}

/// Every candidate of the list is valid at `head`.
proof fn lemma_multi_upto_sound(ms: Seq<ParenInfo>, head: int, len: int)
    requires
        0 <= head <= ms.len() <= usize::MAX,
        len <= usize::MAX + 1,
    ensures
        forall|q: int|
            0 <= q < cands_multi_upto(ms, head, len).len() ==> valid_run(
                ms,
                head,
                #[trigger] cands_multi_upto(ms, head, len)[q],
            ),
    decreases len,
{
    if len > 2 {
        lemma_multi_upto_sound(ms, head, len - 1);
        let l = (len - 1) as usize;
        assert(l as int == len - 1);
        let cap = (ms.len() - head) / (l as int);
        lemma_scan_props(ms, head, l, cap);
        let f = scan_max_times(ms, head, l, cap);
        let pre = cands_multi_upto(ms, head, len - 1);
        let seg = cands_for_len(ms, head, l);
        assert(0 <= cap && cap <= l * cap) by (nonlinear_arith)
            requires
                1 <= l,
                0 <= ms.len() - head,
                cap == (ms.len() - head) / (l as int),
        ;
        lemma_fundamental_div_mod(ms.len() - head, l as int);
        assert(cap <= ms.len());
        assert forall|q: int|
            0 <= q < cands_multi_upto(ms, head, len).len() implies valid_run(
            ms,
            head,
            #[trigger] cands_multi_upto(ms, head, len)[q],
        ) by {
            if q < pre.len() {
                assert(cands_multi_upto(ms, head, len)[q] == pre[q]);
                assert(valid_run(ms, head, pre[q]));
            } else {
                let i = q - pre.len();
                assert(cands_multi_upto(ms, head, len)[q] == seg[i]);
                assert(f >= 2);
                assert(f <= cap <= usize::MAX);
                assert(seg[i] == SplitPattern { len: l, times: (f - i) as usize });
                assert(2 <= f - i <= f);
                assert((f - i) as usize == f - i && f as usize == f);
                assert(valid_run(ms, head, SplitPattern { len: l, times: f as usize }));
                lemma_valid_run_mono(ms, head, l, f as usize, (f - i) as usize);
            }
        }
    }
}

proof fn lemma_single_upto_sound(ms: Seq<ParenInfo>, head: int, len: int)
    requires
        0 <= head <= ms.len() <= usize::MAX,
        len <= usize::MAX + 1,
    ensures
        forall|q: int|
            0 <= q < cands_single_upto(ms, head, len).len() ==> valid_run(
                ms,
                head,
                #[trigger] cands_single_upto(ms, head, len)[q],
            ),
    decreases len,
{
    if len > 2 {
        lemma_single_upto_sound(ms, head, len - 1);
        let pre = cands_single_upto(ms, head, len - 1);
        assert forall|q: int|
            0 <= q < cands_single_upto(ms, head, len).len() implies valid_run(
            ms,
            head,
            #[trigger] cands_single_upto(ms, head, len)[q],
        ) by {
            if q < pre.len() {
                assert(cands_single_upto(ms, head, len)[q] == pre[q]);
                assert(valid_run(ms, head, pre[q]));
            } else {
                assert(cands_single_upto(ms, head, len)[q] == SplitPattern {
                    len: (len - 1) as usize,
                    times: 1,
                });
                assert(valid_run(ms, head, SplitPattern { len: (len - 1) as usize, times: 1 }));
            }
        }
    }
}

/// Every valid repeated-run candidate of group length below `len` is in
/// the list.
proof fn lemma_multi_upto_complete(ms: Seq<ParenInfo>, head: int, len: int, p: SplitPattern)
    requires
        0 <= head <= ms.len() <= usize::MAX,
        len <= usize::MAX + 1,
        valid_run(ms, head, p),
        2 <= p.times,
        p.len < len,
    ensures
        cands_multi_upto(ms, head, len).contains(p),
    decreases len,
{
    if p.len == len - 1 {
        let l = p.len;
        let cap = (ms.len() - head) / (l as int);
        assert(run_size(p) == l * p.times && run_size(p) <= ms.len() - head);
        lemma_le_div(l as int, p.times as int, (ms.len() - head) as int);
        assert(p.times <= cap);
        lemma_scan_props(ms, head, l, cap);
        let f = scan_max_times(ms, head, l, cap);
        assert(valid_run(ms, head, SplitPattern { len: l, times: (p.times as int) as usize }));
        assert(p.times <= f);
        let q = f - p.times;
        assert(cands_for_len(ms, head, l)[q] == p);
        assert(cands_multi_upto(ms, head, len)[cands_multi_upto(ms, head, len - 1).len() + q] == p);
    } else {
        lemma_multi_upto_complete(ms, head, len - 1, p);
        let idx = choose|idx: int|
            0 <= idx < cands_multi_upto(ms, head, len - 1).len() && (#[trigger] cands_multi_upto(
                ms,
                head,
                len - 1,
            )[idx]) == p;
        assert(cands_multi_upto(ms, head, len)[idx] == p);
    }
}

/// Every valid single-group candidate of group length below `len` is in
/// the list.
proof fn lemma_single_upto_complete(ms: Seq<ParenInfo>, head: int, len: int, p: SplitPattern)
    requires
        0 <= head <= ms.len() <= usize::MAX,
        len <= usize::MAX + 1,
        valid_run(ms, head, p),
        p.times == 1,
        p.len < len,
    ensures
        cands_single_upto(ms, head, len).contains(p),
    decreases len,
{
    if p.len == len - 1 {
        assert(p == SplitPattern { len: (len - 1) as usize, times: 1 });
        assert(cands_single_upto(ms, head, len)[cands_single_upto(ms, head, len - 1).len() as int]
            == p);
    } else {
        lemma_single_upto_complete(ms, head, len - 1, p);
        let idx = choose|idx: int|
            0 <= idx < cands_single_upto(ms, head, len - 1).len() && (#[trigger] cands_single_upto(
                ms,
                head,
                len - 1,
            )[idx]) == p;
        assert(cands_single_upto(ms, head, len)[idx] == p);
    }
}

/// The candidate list is sound and complete: it holds exactly the valid
/// candidates.
pub proof fn lemma_cand_list_props(ms: Seq<ParenInfo>, head: int)
    requires
        0 <= head <= ms.len() <= usize::MAX,
    ensures
        forall|q: int|
            0 <= q < cand_list(ms, head).len() ==> valid_run(
                ms,
                head,
                #[trigger] cand_list(ms, head)[q],
            ),
        forall|p: SplitPattern| #[trigger]
            valid_run(ms, head, p) ==> cand_list(ms, head).contains(p),
{
    let rem = ms.len() - head;
    let multi = cands_multi_upto(ms, head, rem / 2 + 1);
    let single = cands_single_upto(ms, head, rem + 1);
    lemma_multi_upto_sound(ms, head, rem / 2 + 1);
    lemma_single_upto_sound(ms, head, rem + 1);
    assert forall|p: SplitPattern| #[trigger] valid_run(ms, head, p) implies cand_list(
        ms,
        head,
    ).contains(p) by {
        if p.times >= 2 {
            assert(p.len * 2 <= p.len * p.times) by (nonlinear_arith)
                requires
                    0 <= p.len,
                    2 <= p.times,
            ;
            lemma_le_div(2, p.len as int, rem as int);
            lemma_multi_upto_complete(ms, head, rem / 2 + 1, p);
            let idx = choose|idx: int| 0 <= idx < multi.len() && multi[idx] == p;
            assert(cand_list(ms, head)[idx] == p);
        } else {
            assert(run_size(p) == p.len * 1 == p.len);
            assert(p.len <= rem);
            lemma_single_upto_complete(ms, head, rem + 1, p);
            let idx = choose|idx: int| 0 <= idx < single.len() && single[idx] == p;
            assert(cand_list(ms, head)[multi.len() + idx] == p);
        }
    }
}

/// The candidates that can be taken at marker index `head`, exactly in the
/// order of [`cand_list`].
#[verifier::rlimit(100)]
#[verifier::spinoff_prover]
fn gen_candidates(markers: &Vec<ParenInfo>, head: usize) -> (r: Vec<SplitPattern>)
    requires
        head <= markers@.len(),
    ensures
        r@ == cand_list(markers@, head as int),
        forall|q: int| 0 <= q < r@.len() ==> valid_run(markers@, head as int, #[trigger] r@[q]),
        forall|p: SplitPattern| #[trigger]
            valid_run(markers@, head as int, p) ==> r@.contains(p),
{
    let ghost ms = markers@;
    let n = markers.len();
    let rem = n - head;
    let len_max = rem / 2;
    let mut r: Vec<SplitPattern> = Vec::new();
    let mut len: usize = 2;
    proof {
        assert(r@ =~= cands_multi_upto(ms, head as int, 2));
    }
    while len <= len_max
        invariant
            head <= n == ms.len(),
            ms == markers@,
            rem == n - head,
            len_max == rem / 2,
            2 <= len,
            len <= len_max + 1 || len == 2,
            r@ == cands_multi_upto(ms, head as int, len as int),
        decreases len_max + 1 - len,
    {
        let cap = rem / len;
        proof {
            lemma_fundamental_div_mod(rem as int, len as int);
            assert(len * cap <= rem);
        }
        let mut times = cap;
        let mut found: usize = 0;
        while times >= 2 && found == 0
            invariant
                head <= n == ms.len(),
                ms == markers@,
                rem == n - head,
                2 <= len,
                cap == rem / len,
                len * cap <= rem,
                times <= cap,
                found == 0 ==> scan_max_times(ms, head as int, len, cap as int) == scan_max_times(
                    ms,
                    head as int,
                    len,
                    times as int,
                ),
                found != 0 ==> found == scan_max_times(ms, head as int, len, cap as int),
            decreases times + (if found == 0 { 1int } else { 0 }),
        {
            proof {
                assert(len * times <= len * cap) by (nonlinear_arith)
                    requires
                        0 <= len,
                        times <= cap,
                ;
            }
            if check_run(markers, head, len, times) {
                found = times;
            } else {
                times -= 1;
            }
        }
        let ghost f = scan_max_times(ms, head as int, len, cap as int);
        proof {
            assert(found == f);
            lemma_scan_props(ms, head as int, len, cap as int);
        }
        let ghost r_base = r@;
        let mut t = found;
        while t >= 2
            invariant
                head <= n == ms.len(),
                ms == markers@,
                2 <= len,
                t <= found == f,
                2 <= found ==> 1 <= t,
                2 <= found ==> valid_run(ms, head as int, SplitPattern { len, times: found }),
                r@ == r_base + Seq::new(
                    (f - t) as nat,
                    |i: int| SplitPattern { len, times: (f - i) as usize },
                ),
            decreases t,
        {
            proof {
                lemma_valid_run_mono(ms, head as int, len, found, t);
            }
            let ghost r_old = r@;
            r.push(SplitPattern { len, times: t });
            proof {
                assert(r@ =~= r_base + Seq::new(
                    (f - t + 1) as nat,
                    |i: int| SplitPattern { len, times: (f - i) as usize },
                ));
            }
            t -= 1;
        }
        proof {
            assert(r@ =~= r_base + cands_for_len(ms, head as int, len));
            assert(cands_multi_upto(ms, head as int, len + 1) == cands_multi_upto(
                ms,
                head as int,
                len as int,
            ) + cands_for_len(ms, head as int, len));
        }
        len += 1;
    }
    proof {
        if len_max < 2 {
            assert(cands_multi_upto(ms, head as int, (rem / 2 + 1) as int) =~= Seq::<
                SplitPattern,
            >::empty());
            assert(r@ =~= cands_multi_upto(ms, head as int, (rem / 2 + 1) as int));
        } else {
            assert(len == len_max + 1);
        }
    }
    let ghost r_multi = r@;
    let mut lm: usize = 1;
    proof {
        assert(r@ =~= r_multi + cands_single_upto(ms, head as int, 2));
    }
    while lm < rem
        invariant
            head <= n == ms.len(),
            ms == markers@,
            rem == n - head,
            1 <= lm,
            lm <= rem || lm == 1,
            r@ == r_multi + cands_single_upto(ms, head as int, lm + 1),
        decreases rem - lm,
    {
        let l = lm + 1;
        proof {
            assert(l * 1 == l) by (nonlinear_arith);
        }
        let ghost r_old = r@;
        if check_run(markers, head, l, 1) {
            r.push(SplitPattern { len: l, times: 1 });
            proof {
                assert(r@ =~= r_old + seq![SplitPattern { len: l, times: 1 }]);
            }
        }
        proof {
            assert(cands_single_upto(ms, head as int, l + 1) == cands_single_upto(
                ms,
                head as int,
                l as int,
            ) + (if valid_run(ms, head as int, SplitPattern { len: l, times: 1 }) {
                seq![SplitPattern { len: l, times: 1 }]
            } else {
                Seq::<SplitPattern>::empty()
            }));
            assert(r@ =~= r_multi + cands_single_upto(ms, head as int, l + 1));
        }
        lm = l;
    }
    proof {
        if rem < 2 {
            assert(cands_single_upto(ms, head as int, rem + 1) =~= Seq::<SplitPattern>::empty());
            assert(r@ =~= r_multi + cands_single_upto(ms, head as int, rem + 1));
        } else {
            assert(lm == rem);
        }
        assert(r@ == cand_list(ms, head as int));
        lemma_cand_list_props(ms, head as int);
    }
    r
}

/// The search's result, as a function of the markers alone: from `head`,
/// starting at candidate index `i` of [`cand_list`], the consumed candidate
/// sequence of the first branch that tiles the markers to the end, in the
/// candidate order; `None` when no branch does.
pub open spec fn dfs_runs(ms: Seq<ParenInfo>, head: int, i: int) -> Option<Seq<SplitPattern>>
    decreases ms.len() - head, cand_list(ms, head).len() - i,
{
    if head == ms.len() {
        Option::Some(Seq::empty())
    } else if !(0 <= head < ms.len()) {
        Option::None
    } else if i < 0 || i >= cand_list(ms, head).len() {
        Option::None
    } else {
        let p = cand_list(ms, head)[i];
        if valid_run(ms, head, p) {
            match dfs_runs(ms, head + run_size(p), 0) {
                Option::Some(rest) => Option::Some(seq![p] + rest),
                Option::None => dfs_runs(ms, head, i + 1),
            }
        } else {
            dfs_runs(ms, head, i + 1)
        }
    }
}

/// The backtracking search from marker index `head`: try the candidates of
/// [`cand_list`] in order; for each, search the rest of the markers, and
/// adopt the first candidate whose remainder can be completed.  The result
/// is exactly [`dfs_runs`], and it is `None` exactly when no sequence of
/// candidates tiles the markers from `head` to the end.
///
/// Every candidate consumes at least two markers, so the recursion depth is
/// at most half the marker count.
fn search_runs(markers: &Vec<ParenInfo>, head: usize) -> (r: Option<Vec<SplitPattern>>)
    requires
        head <= markers@.len(),
    ensures
        match r {
            Some(runs) => tiling(markers@, head as int, runs@) && dfs_runs(
                markers@,
                head as int,
                0,
            ) == Option::Some(runs@),
            None => !tiling_exists_from(markers@, head as int) && dfs_runs(
                markers@,
                head as int,
                0,
            ) is None,
        },
    decreases markers@.len() - head,
{
    let ghost ms = markers@;
    let n = markers.len();
    if head == n {
        let runs: Vec<SplitPattern> = Vec::new();
        proof {
            assert(runs@ =~= Seq::<SplitPattern>::empty());
        }
        return Some(runs);
    }
    let mut choice = SplitPatternList { now: 0, pattern_lst: gen_candidates(markers, head) };
    while choice.now < choice.pattern_lst.len()
        invariant
            head < n == ms.len(),
            ms == markers@,
            choice.now <= choice.pattern_lst.len(),
            choice.pattern_lst@ == cand_list(ms, head as int),
            dfs_runs(ms, head as int, 0) == dfs_runs(ms, head as int, choice.now as int),
            forall|j: int| 0 <= j < choice.pattern_lst@.len() ==> valid_run(
                ms,
                head as int,
                #[trigger] choice.pattern_lst@[j],
            ),
            forall|p: SplitPattern| #[trigger]
                valid_run(ms, head as int, p) ==> choice.pattern_lst@.contains(p),
            forall|j: int|
                0 <= j < choice.now ==> !tiling_exists_from(
                    ms,
                    head + run_size(#[trigger] choice.pattern_lst@[j]),
                ),
        decreases choice.pattern_lst@.len() - choice.now,
    {
        let p = choice.pattern_lst[choice.now];
        proof {
            assert(valid_run(ms, head as int, p));
            assert(cand_list(ms, head as int)[choice.now as int] == p);
        }
        let next = head + p.len * p.times;
        match search_runs(markers, next) {
            Some(rest) => {
                let mut runs: Vec<SplitPattern> = Vec::new();
                runs.push(p);
                let mut k: usize = 0;
                while k < rest.len()
                    invariant
                        k <= rest@.len(),
                        runs@.len() == k + 1,
                        runs@[0] == p,
                        forall|j: int| 0 <= j < k ==> runs@[j + 1] == #[trigger] rest@[j],
                    decreases rest@.len() - k,
                {
                    runs.push(rest[k]);
                    k += 1;
                }
                proof {
                    assert(runs@.drop_first() =~= rest@);
                    assert(tiling(ms, head as int, runs@));
                    assert(runs@ =~= seq![p] + rest@);
                    assert(dfs_runs(ms, next as int, 0) == Option::Some(rest@));
                    assert(dfs_runs(ms, head as int, choice.now as int) == Option::Some(runs@));
                }
                return Some(runs);
            },
            None => {
                proof {
                    assert(dfs_runs(ms, next as int, 0) is None);
                    assert(dfs_runs(ms, head as int, choice.now as int) == dfs_runs(
                        ms,
                        head as int,
                        choice.now + 1,
                    ));
                }
                choice = SplitPatternList {
                    now: choice.now + 1,
                    pattern_lst: choice.pattern_lst,
                };
            },
        }
    }
    proof {
        assert forall|p: SplitPattern| #[trigger] valid_run(ms, head as int, p)
            implies !tiling_exists_from(ms, head + run_size(p)) by {
            assert(choice.pattern_lst@.contains(p));
            let j = choose|j: int|
                0 <= j < choice.pattern_lst@.len() && choice.pattern_lst@[j] == p;
            assert(!tiling_exists_from(ms, head + run_size(choice.pattern_lst@[j])));
        }
        lemma_all_refuted(ms, head as int);
        assert(dfs_runs(ms, head as int, choice.now as int) is None);
    }
    None
}


/// Group `t` of a valid candidate starts with an open marker and ends with
/// a close marker, like group zero.
proof fn lemma_run_groups(ms: Seq<ParenInfo>, start: int, p: SplitPattern, t: int)
    requires
        valid_run(ms, start, p),
        0 <= t < p.times,
    ensures
        ms[start + t * p.len].v is Open,
        ms[start + t * p.len + p.len - 1].v is Close,
    decreases t,
{
    if t == 0 {
        assert(t * p.len == 0) by (nonlinear_arith)
            requires
                t == 0,
        ;
    } else {
        lemma_run_groups(ms, start, p, t - 1);
        assert(p.len <= t * p.len && (t - 1) * p.len == t * p.len - p.len && t * p.len + p.len
            <= p.len * p.times) by (nonlinear_arith)
            requires
                2 <= p.len,
                1 <= t,
                t < p.times,
        ;
        assert(period_at(ms, p.len as int, start + t * p.len));
        assert(ms[start + t * p.len].v == ms[start + (t - 1) * p.len].v);
        assert(period_at(ms, p.len as int, start + t * p.len + p.len - 1));
        assert(ms[start + t * p.len + p.len - 1].v == ms[start + (t - 1) * p.len + p.len - 1].v);
    }
}

/// The groups `gs` sit back to back from marker index zero to `end`; each
/// is at least two markers long, starts with an open marker and ends with a
/// close marker.
#[verifier::opaque]
pub open spec fn groups_chain_upto(ms: Seq<ParenInfo>, gs: Seq<(usize, usize)>, end: int) -> bool {
    &&& forall|i: int| 0 <= i < gs.len() ==> (#[trigger] gs[i]).1 >= 2
    &&& forall|i: int|
        0 <= i < gs.len() ==> (#[trigger] gs[i]).0 == (if i == 0 {
            0int
        } else {
            gs[i - 1].0 + gs[i - 1].1
        })
    &&& forall|i: int| 0 <= i < gs.len() ==> (#[trigger] gs[i]).0 + gs[i].1 <= end
    &&& forall|i: int| 0 <= i < gs.len() ==> ms[(#[trigger] gs[i]).0 as int].v is Open
    &&& forall|i: int| 0 <= i < gs.len() ==> ms[(#[trigger] gs[i]).0 + gs[i].1 - 1].v is Close
    &&& (if gs.len() == 0 {
        end == 0
    } else {
        gs[gs.len() - 1].0 + gs[gs.len() - 1].1 == end
    })
}

/// The groups of one candidate taken at marker index `start`: `p.times`
/// groups of `p.len` markers, back to back.
pub open spec fn groups_of_run(start: int, p: SplitPattern) -> Seq<(usize, usize)> {
    Seq::new(p.times as nat, |t: int| ((start + t * p.len) as usize, p.len))
}

/// The groups of a candidate sequence taken from marker index `start`.
pub open spec fn groups_spec(runs: Seq<SplitPattern>, start: int) -> Seq<(usize, usize)>
    decreases runs.len(),
{
    if runs.len() == 0 {
        Seq::empty()
    } else {
        groups_of_run(start, runs[0]) + groups_spec(runs.drop_first(), start + run_size(runs[0]))
    }
}

/// Flatten the candidate segments of a tiling into the individual groups.
#[verifier::rlimit(100)]
#[verifier::spinoff_prover]
fn groups_of_runs(markers: &Vec<ParenInfo>, runs: &Vec<SplitPattern>) -> (g: Vec<(usize, usize)>)
    requires
        tiling(markers@, 0, runs@),
    ensures
        groups_chain_upto(markers@, g@, markers@.len() as int),
        g@ == groups_spec(runs@, 0),
{
    let ghost ms = markers@;
    let n = markers.len();
    let mut g: Vec<(usize, usize)> = Vec::new();
    let mut cur: usize = 0;
    let mut k: usize = 0;
    proof {
        reveal(groups_chain_upto);
        assert(runs@.skip(0) =~= runs@);
    }
    while k < runs.len()
        invariant
            ms == markers@,
            n == ms.len(),
            k <= runs@.len(),
            cur <= n,
            tiling(ms, cur as int, runs@.skip(k as int)),
            groups_chain_upto(ms, g@, cur as int),
            groups_spec(runs@, 0) == g@ + groups_spec(runs@.skip(k as int), cur as int),
        decreases runs@.len() - k,
    {
        let p = runs[k];
        proof {
            reveal(groups_chain_upto);
            assert(runs@.skip(k as int)[0] == runs@[k as int]);
            assert(valid_run(ms, cur as int, p));
        }
        let ghost g_base = g@;
        let ghost cur0 = cur as int;
        let mut t: usize = 0;
        let mut pos: usize = cur;
        while t < p.times
            invariant
                ms == markers@,
                n == ms.len(),
                t <= p.times,
                valid_run(ms, cur0, p),
                pos == cur0 + t * p.len,
                groups_chain_upto(ms, g@, pos as int),
                g@ == g_base + groups_of_run(cur0, p).take(t as int),
            decreases p.times - t,
        {
            proof {
                reveal(groups_chain_upto);
                lemma_run_groups(ms, cur0, p, t as int);
                assert((t + 1) * p.len == t * p.len + p.len && t * p.len + p.len <= p.times
                    * p.len) by (nonlinear_arith)
                    requires
                        2 <= p.len,
                        t < p.times,
                ;
            }
            let ghost g_old = g@;
            g.push((pos, p.len));
            proof {
                assert(forall|i: int| 0 <= i < g_old.len() ==> g@[i] == g_old[i]);
                assert(g@[g@.len() - 1] == (pos, p.len));
                assert(groups_of_run(cur0, p)[t as int] == (pos, p.len));
                assert(g@ =~= g_base + groups_of_run(cur0, p).take(t + 1));
            }
            pos = pos + p.len;
            t += 1;
        }
        proof {
            assert(pos == cur0 + run_size(p)) by (nonlinear_arith)
                requires
                    pos == cur0 + p.times * p.len,
                    run_size(p) == p.len * p.times,
        ;
            assert(runs@.skip(k as int).drop_first() =~= runs@.skip(k + 1 as int));
            assert(groups_of_run(cur0, p).take(p.times as int) =~= groups_of_run(cur0, p));
            assert(groups_spec(runs@.skip(k as int), cur0) == groups_of_run(cur0, p)
                + groups_spec(runs@.skip(k + 1 as int), pos as int));
            assert(g_base + (groups_of_run(cur0, p) + groups_spec(
                runs@.skip(k + 1 as int),
                pos as int,
            )) =~= g@ + groups_spec(runs@.skip(k + 1 as int), pos as int));
        }
        cur = pos;
        k += 1;
    }
    proof {
        reveal(groups_chain_upto);
        assert(runs@.skip(runs@.len() as int).len() == 0);
        assert(groups_spec(runs@.skip(runs@.len() as int), cur as int) =~= Seq::<(
            usize,
            usize,
        )>::empty());
        assert(g@ + groups_spec(runs@.skip(runs@.len() as int), cur as int) =~= g@);
    }
    g
}

/// The spans that rendering the groups `gs` produces, starting at
/// character position `char_pos` and group index `k`: alternately the
/// literal text up to a group's opening bracket and the group's own text,
/// and after the last group the trailing literal text.
#[verifier::opaque]
pub open spec fn spans_of_groups(
    text: Seq<char>,
    ms: Seq<ParenInfo>,
    gs: Seq<(usize, usize)>,
    k: int,
    char_pos: int,
) -> Seq<Seq<char>>
    decreases gs.len() - k,
{
    if k < 0 || k >= gs.len() {
        seq![text.subrange(char_pos, text.len() as int)]
    } else {
        let sp = ms[gs[k].0 as int].pos as int;
        let ep = ms[gs[k].0 + gs[k].1 - 1].pos as int;
        seq![text.subrange(char_pos, sp), text.subrange(sp, ep + 1)] + spans_of_groups(
            text,
            ms,
            gs,
            k + 1,
            ep + 1,
        )
    }
}

/// The concatenation of a sequence of spans.
pub open spec fn concat_spans(ss: Seq<Seq<char>>) -> Seq<char>
    decreases ss.len(),
{
    if ss.len() == 0 {
        Seq::empty()
    } else {
        concat_spans(ss.drop_last()) + ss.last()
    }
}

/// A rendered quoted span: it still carries its own bracket delimiters.
pub open spec fn bracketed_span(s: Seq<char>) -> bool {
    &&& s.len() >= 2
    &&& s[0] == '「'
    &&& s[s.len() - 1] == '」'
}

/// Appending one span appends its text to the concatenation.
proof fn lemma_concat_spans_push(ss: Seq<Seq<char>>, a: Seq<char>)
    ensures
        concat_spans(ss.push(a)) == concat_spans(ss) + a,
{
    assert(ss.push(a).drop_last() =~= ss);
    assert(ss.push(a).last() == a);
}

/// Append the two spans of one quoted group: the literal span from
/// `char_pos` up to the group's opening bracket at `start_pos`, then the
/// quoted span up to and including its closing bracket at `end_pos`.
/// Returns the character position right after the group.
#[verifier::rlimit(100)]
#[verifier::spinoff_prover]
fn push_group_spans(
    text: &str,
    start_pos: usize,
    end_pos: usize,
    char_pos: usize,
    r: &mut Vec<String>,
) -> (new_char_pos: usize)
    requires
        char_pos <= start_pos < end_pos < text@.len(),
        text@[start_pos as int] == '「',
        text@[end_pos as int] == '」',
        concat_spans(old(r).deep_view()) == text@.take(char_pos as int),
        old(r)@.len() % 2 == 0,
        forall|i: int|
            0 <= i < old(r)@.len() && i % 2 == 1 ==> bracketed_span(
                #[trigger] old(r).deep_view()[i],
            ),
    ensures
        final(r)@.len() == old(r)@.len() + 2,
        new_char_pos == end_pos + 1 <= text@.len(),
        concat_spans(final(r).deep_view()) == text@.take(new_char_pos as int),
        final(r).deep_view() == old(r).deep_view() + seq![
            text@.subrange(char_pos as int, start_pos as int),
            text@.subrange(start_pos as int, end_pos + 1),
        ],
        forall|i: int|
            0 <= i < final(r)@.len() && i % 2 == 1 ==> bracketed_span(
                #[trigger] final(r).deep_view()[i],
            ),
{
    let n_chars = text.unicode_len();
    let s1 = text.substring_char(char_pos, start_pos);
    let s2 = text.substring_char(start_pos, end_pos + 1);
    let ghost dv_old = r.deep_view();
    let ghost r_old = r@;
    r.push(s1.to_owned());
    r.push(s2.to_owned());
    proof {
        let dv = r.deep_view();
        assert(r@[r@.len() - 2]@ == s1@);
        assert(r@[r@.len() - 1]@ == s2@);
        assert forall|i: int| 0 <= i < dv.len() implies dv[i] == dv_old.push(s1@).push(
            s2@,
        )[i] by {
            if i < dv_old.len() {
                assert(r@[i] == r_old[i]);
            }
        }
        assert(dv =~= dv_old.push(s1@).push(s2@));
        assert(dv =~= dv_old + seq![
            text@.subrange(char_pos as int, start_pos as int),
            text@.subrange(start_pos as int, end_pos + 1),
        ]);
        lemma_concat_spans_push(dv_old, s1@);
        lemma_concat_spans_push(dv_old.push(s1@), s2@);
        assert(text@.take(char_pos as int) + s1@ =~= text@.take(start_pos as int));
        assert(text@.take(start_pos as int) + s2@ =~= text@.take(end_pos + 1 as int));
        assert(concat_spans(dv) == text@.take(end_pos + 1 as int));
        assert(s2@[0] == text@[start_pos as int]);
        assert(s2@[s2@.len() - 1] == text@[end_pos as int]);
        assert(bracketed_span(s2@));
        assert forall|i: int| 0 <= i < dv.len() && i % 2 == 1 implies bracketed_span(dv[i]) by {
            if i < dv_old.len() {
                assert(dv[i] == dv_old[i]);
            } else {
                assert(i == dv.len() - 1);
            }
        }
    }
    end_pos + 1
}

/// What the loop of [`materialize`] needs to know about group `k`.
proof fn lemma_group_facts(
    text: Seq<char>,
    ms: Seq<ParenInfo>,
    gs: Seq<(usize, usize)>,
    k: int,
    char_pos: int,
)
    requires
        markers_wf(text, ms),
        groups_chain_upto(ms, gs, ms.len() as int),
        0 <= k < gs.len(),
        k == 0 ==> char_pos == 0,
        k > 0 ==> char_pos == ms[gs[k - 1].0 + gs[k - 1].1 - 1].pos + 1,
    ensures
        gs[k].1 >= 2,
        gs[k].0 + gs[k].1 <= ms.len(),
        char_pos <= ms[gs[k].0 as int].pos,
        ms[gs[k].0 as int].pos < ms[gs[k].0 + gs[k].1 - 1].pos < text.len(),
        text[ms[gs[k].0 as int].pos as int] == '「',
        text[ms[gs[k].0 + gs[k].1 - 1].pos as int] == '」',
{
    reveal(groups_chain_upto);
    if k > 0 {
        assert(gs[k].0 == gs[k - 1].0 + gs[k - 1].1);
        assert(ms[gs[k - 1].0 + gs[k - 1].1 - 1].pos < ms[gs[k].0 as int].pos);
    }
}

/// Append the trailing literal span after the last group.
#[verifier::rlimit(100)]
#[verifier::spinoff_prover]
fn push_tail_span(text: &str, char_pos: usize, r: &mut Vec<String>)
    requires
        char_pos <= text@.len(),
        concat_spans(old(r).deep_view()) == text@.take(char_pos as int),
        old(r)@.len() % 2 == 0,
        forall|i: int|
            0 <= i < old(r)@.len() && i % 2 == 1 ==> bracketed_span(
                #[trigger] old(r).deep_view()[i],
            ),
    ensures
        final(r)@.len() == old(r)@.len() + 1,
        concat_spans(final(r).deep_view()) == text@,
        final(r).deep_view() == old(r).deep_view() + seq![
            text@.subrange(char_pos as int, text@.len() as int),
        ],
        forall|i: int|
            0 <= i < final(r)@.len() && i % 2 == 1 ==> bracketed_span(
                #[trigger] final(r).deep_view()[i],
            ),
{
    let n_chars = text.unicode_len();
    let tail = text.substring_char(char_pos, n_chars);
    let ghost dv_old = r.deep_view();
    let ghost r_old = r@;
    r.push(tail.to_owned());
    proof {
        let dv = r.deep_view();
        assert(r@[r@.len() - 1]@ == tail@);
        assert forall|i: int| 0 <= i < dv.len() implies dv[i] == dv_old.push(tail@)[i] by {
            if i < dv_old.len() {
                assert(r@[i] == r_old[i]);
            }
        }
        assert(dv =~= dv_old.push(tail@));
        assert(dv =~= dv_old + seq![text@.subrange(char_pos as int, text@.len() as int)]);
        lemma_concat_spans_push(dv_old, tail@);
        assert(text@.take(char_pos as int) + tail@ =~= text@);
        assert forall|i: int| 0 <= i < dv.len() && i % 2 == 1 implies bracketed_span(dv[i]) by {
            assert(i < dv_old.len());
            assert(dv[i] == dv_old[i]);
        }
    }
}

/// Rendering one more group extends the spans accumulated so far.
#[verifier::rlimit(100)]
#[verifier::spinoff_prover]
proof fn lemma_spans_step(
    text: Seq<char>,
    ms: Seq<ParenInfo>,
    gs: Seq<(usize, usize)>,
    k: int,
    cp: int,
    dv_before: Seq<Seq<char>>,
    dv_after: Seq<Seq<char>>,
)
    requires
        0 <= k < gs.len(),
        dv_after == dv_before + seq![
            text.subrange(cp, ms[gs[k].0 as int].pos as int),
            text.subrange(ms[gs[k].0 as int].pos as int, ms[gs[k].0 + gs[k].1 - 1].pos + 1),
        ],
        spans_of_groups(text, ms, gs, 0, 0) == dv_before + spans_of_groups(text, ms, gs, k, cp),
    ensures
        spans_of_groups(text, ms, gs, 0, 0) == dv_after + spans_of_groups(
            text,
            ms,
            gs,
            k + 1,
            ms[gs[k].0 + gs[k].1 - 1].pos + 1,
        ),
{
    reveal(spans_of_groups);
    let sp = ms[gs[k].0 as int].pos as int;
    let ep = ms[gs[k].0 + gs[k].1 - 1].pos as int;
    assert(spans_of_groups(text, ms, gs, k, cp) == seq![
        text.subrange(cp, sp),
        text.subrange(sp, ep + 1),
    ] + spans_of_groups(text, ms, gs, k + 1, ep + 1));
    assert(dv_before + (seq![text.subrange(cp, sp), text.subrange(sp, ep + 1)]
        + spans_of_groups(text, ms, gs, k + 1, ep + 1)) =~= dv_after + spans_of_groups(
        text,
        ms,
        gs,
        k + 1,
        ep + 1,
    ));
}

/// Rendering the trailing literal completes the spans.
#[verifier::rlimit(100)]
#[verifier::spinoff_prover]
proof fn lemma_spans_tail(
    text: Seq<char>,
    ms: Seq<ParenInfo>,
    gs: Seq<(usize, usize)>,
    k: int,
    cp: int,
    dv_before: Seq<Seq<char>>,
    dv_after: Seq<Seq<char>>,
)
    requires
        k >= gs.len(),
        dv_after == dv_before + seq![text.subrange(cp, text.len() as int)],
        spans_of_groups(text, ms, gs, 0, 0) == dv_before + spans_of_groups(text, ms, gs, k, cp),
    ensures
        spans_of_groups(text, ms, gs, 0, 0) == dv_after,
{
    reveal(spans_of_groups);
    assert(spans_of_groups(text, ms, gs, k, cp) == seq![text.subrange(cp, text.len() as int)]);
}

/// Render one group: append its literal and quoted span, returning the
/// character position right after the group.
#[verifier::rlimit(100)]
#[verifier::spinoff_prover]
fn render_group(
    text: &str,
    markers: &Vec<ParenInfo>,
    groups: &Vec<(usize, usize)>,
    k: usize,
    char_pos: usize,
    r: &mut Vec<String>,
) -> (ncp: usize)
    requires
        markers_wf(text@, markers@),
        groups_chain_upto(markers@, groups@, markers@.len() as int),
        k < groups@.len(),
        old(r)@.len() == 2 * k,
        char_pos <= text@.len(),
        k == 0 ==> char_pos == 0,
        k > 0 ==> char_pos == markers@[groups@[k - 1].0 + groups@[k - 1].1 - 1].pos + 1,
        concat_spans(old(r).deep_view()) == text@.take(char_pos as int),
        spans_of_groups(text@, markers@, groups@, 0, 0) == old(r).deep_view() + spans_of_groups(
            text@,
            markers@,
            groups@,
            k as int,
            char_pos as int,
        ),
        forall|i: int|
            0 <= i < old(r)@.len() && i % 2 == 1 ==> bracketed_span(
                #[trigger] old(r).deep_view()[i],
            ),
    ensures
        final(r)@.len() == 2 * k + 2,
        ncp == markers@[groups@[k as int].0 + groups@[k as int].1 - 1].pos + 1,
        ncp <= text@.len(),
        concat_spans(final(r).deep_view()) == text@.take(ncp as int),
        spans_of_groups(text@, markers@, groups@, 0, 0) == final(r).deep_view()
            + spans_of_groups(text@, markers@, groups@, k + 1 as int, ncp as int),
        forall|i: int|
            0 <= i < final(r)@.len() && i % 2 == 1 ==> bracketed_span(
                #[trigger] final(r).deep_view()[i],
            ),
{
    let ghost ms = markers@;
    let n_markers = markers.len();
    proof {
        lemma_group_facts(text@, ms, groups@, k as int, char_pos as int);
    }
    let grp = groups[k];
    let start_pos = markers[grp.0].pos;
    let end_pos = markers[grp.0 + grp.1 - 1].pos;
    let ghost dv_before = r.deep_view();
    let ncp = push_group_spans(text, start_pos, end_pos, char_pos, r);
    proof {
        lemma_spans_step(text@, ms, groups@, k as int, char_pos as int, dv_before, r.deep_view());
    }
    ncp
}

/// Render the groups back as spans of the sentence: before each quoted
/// group the literal text since the previous group, then the group itself,
/// and after the last group the trailing literal text.
#[verifier::rlimit(100)]
#[verifier::spinoff_prover]
fn materialize(text: &str, markers: &Vec<ParenInfo>, groups: &Vec<(usize, usize)>) -> (r: Vec<
    String,
>)
    requires
        markers_wf(text@, markers@),
        groups_chain_upto(markers@, groups@, markers@.len() as int),
    ensures
        r@.len() == 2 * groups@.len() + 1,
        concat_spans(r.deep_view()) == text@,
        r.deep_view() == spans_of_groups(text@, markers@, groups@, 0, 0),
        forall|i: int|
            0 <= i < r@.len() && i % 2 == 1 ==> bracketed_span(#[trigger] r.deep_view()[i]),
{
    let ghost ms = markers@;
    let n_chars = text.unicode_len();
    let mut r: Vec<String> = Vec::new();
    let mut char_pos: usize = 0;
    let mut k: usize = 0;
    proof {
        assert(r.deep_view() =~= Seq::<Seq<char>>::empty());
        assert(concat_spans(r.deep_view()) == Seq::<char>::empty());
        assert(concat_spans(r.deep_view()) =~= text@.take(0));
        assert(Seq::<Seq<char>>::empty() + spans_of_groups(text@, ms, groups@, 0, 0)
            =~= spans_of_groups(text@, ms, groups@, 0, 0));
    }
    while k < groups.len()
        invariant
            ms == markers@,
            markers_wf(text@, ms),
            groups_chain_upto(ms, groups@, ms.len() as int),
            n_chars == text@.len(),
            k <= groups@.len(),
            r@.len() == 2 * k,
            char_pos <= n_chars,
            concat_spans(r.deep_view()) == text@.take(char_pos as int),
            k == 0 ==> char_pos == 0,
            k > 0 ==> char_pos == ms[groups@[k - 1].0 + groups@[k - 1].1 - 1].pos + 1,
            spans_of_groups(text@, ms, groups@, 0, 0) == r.deep_view() + spans_of_groups(
                text@,
                ms,
                groups@,
                k as int,
                char_pos as int,
            ),
            forall|i: int|
                0 <= i < r@.len() && i % 2 == 1 ==> bracketed_span(#[trigger] r.deep_view()[i]),
        decreases groups@.len() - k,
    {
        char_pos = render_group(text, markers, groups, k, char_pos, &mut r);
        k += 1;
    }
    let ghost dv_before = r.deep_view();
    let ghost cp_before = char_pos as int;
    push_tail_span(text, char_pos, &mut r);
    proof {
        lemma_spans_tail(text@, ms, groups@, k as int, cp_before, dv_before, r.deep_view());
    }
    r
}

/// An alternating span sequence for the sentence `text`: odd length,
/// literal spans at even indices, delimiter-carrying quoted spans at odd
/// indices, and concatenating all spans restores the sentence exactly.
pub open spec fn valid_segmentation(text: Seq<char>, spans: Seq<Seq<char>>) -> bool {
    &&& spans.len() % 2 == 1
    &&& concat_spans(spans) == text
    &&& forall|i: int| 0 <= i < spans.len() && i % 2 == 1 ==> bracketed_span(#[trigger] spans[i])
}

/// The segmenter's result, as a function of the sentence alone: the spans
/// that rendering the groups of the search's adopted candidate sequence
/// produces, or `None` when the search fails.
pub open spec fn segment_spans_spec(text: Seq<char>) -> Option<Seq<Seq<char>>> {
    let ms = markers_spec(text);
    match dfs_runs(ms, 0, 0) {
        Option::None => Option::None,
        Option::Some(runs) => Option::Some(
            spans_of_groups(text, ms, groups_spec(runs, 0), 0, 0),
        ),
    }
}

/// Split a sentence containing quote brackets into an alternating sequence
/// of literal and quoted spans.
///
/// The candidate quote markers of the sentence (quote brackets outside any
/// parenthetical aside) are partitioned into consecutive runs of one or
/// more structurally identical `Open .. Close` groups by a backtracking
/// search; each group becomes one quoted span.  Returns `None` exactly when
/// no such partition exists, and otherwise exactly the spans of
/// [`segment_spans_spec`].
///
/// On success the result has odd length; it alternates literal spans (even
/// indices, possibly empty) and quoted spans (odd indices, which keep their
/// own bracket delimiters), and concatenating all spans restores the
/// sentence exactly.
pub fn auto_fix_paren(text: &str) -> (r: Option<Vec<String>>)
    ensures
        (r is Some) == tiling_exists_from(markers_spec(text@), 0),
        (r is Some) == group_partition_exists(markers_spec(text@), 0),
        match r {
            Some(v) => segment_spans_spec(text@) == Option::Some(v.deep_view())
                && valid_segmentation(text@, v.deep_view()),
            None => segment_spans_spec(text@) is None,
        },
{
    let tokens = collect_parse_tokens(text);
    let markers = reduce_tokens(&tokens, Ghost(text@));
    proof {
        assert(markers@ == markers_spec(text@));
        lemma_tiling_iff_group_partition(markers@, 0);
    }
    match search_runs(&markers, 0) {
        None => None,
        Some(runs) => {
            proof {
                lemma_tiling_implies_exists(markers@, 0, runs@);
            }
            let groups = groups_of_runs(&markers, &runs);
            let spans = materialize(text, &markers, &groups);
            proof {
                assert(groups_chain_upto(
                    markers_spec(text@),
                    groups@,
                    markers_spec(text@).len() as int,
                ));
                assert(dfs_runs(markers_spec(text@), 0, 0) == Option::Some(runs@));
                assert(groups@ == groups_spec(runs@, 0));
                assert(spans.deep_view() == spans_of_groups(
                    text@,
                    markers_spec(text@),
                    groups@,
                    0,
                    0,
                ));
            }
            Some(spans)
        },
    }
}


/// The concatenation of a partition's groups.
pub open spec fn concat_groups(q: Seq<Seq<ParenInfo>>) -> Seq<ParenInfo>
    decreases q.len(),
{
    if q.len() == 0 {
        Seq::empty()
    } else {
        q.first() + concat_groups(q.drop_first())
    }
}

/// The groups of one partition, as sequences.
#[verifier::opaque]
pub open spec fn groups_view(p: Vec<Vec<ParenInfo>>) -> Seq<Seq<ParenInfo>> {
    p@.map_values(|g: Vec<ParenInfo>| g@)
}

/// `q` is a legal partition of the markers from `start` on: non-empty
/// groups that concatenate to exactly those markers, cut only where a close
/// marker is directly followed by an open marker.
pub open spec fn legal_partition_from(
    lst: Seq<ParenInfo>,
    start: int,
    q: Seq<Seq<ParenInfo>>,
) -> bool {
    &&& q.len() > 0
    &&& forall|i: int| 0 <= i < q.len() ==> (#[trigger] q[i]).len() > 0
    &&& concat_groups(q) == lst.skip(start)
    &&& forall|i: int|
        0 <= i < q.len() - 1 ==> ((#[trigger] q[i]).last().v is Close && q[i + 1].first().v is Open)
}

/// `q` appears among the partitions of `r`.
pub open spec fn in_result(r: Seq<Vec<Vec<ParenInfo>>>, q: Seq<Seq<ParenInfo>>) -> bool {
    exists|k: int| 0 <= k < r.len() && groups_view(#[trigger] r[k]) == q
}

/// Decompose a legal partition of two or more groups: its first group is a
/// prefix of the markers ending right before a legal cut, and the rest is a
/// legal partition of the remainder.
#[verifier::rlimit(100)]
#[verifier::spinoff_prover]
proof fn lemma_partition_head(lst: Seq<ParenInfo>, start: int, q: Seq<Seq<ParenInfo>>)
    requires
        0 <= start < lst.len(),
        legal_partition_from(lst, start, q),
        q.len() >= 2,
    ensures
        ({
            let c = start + q[0].len() - 1;
            &&& start <= c < lst.len() - 1
            &&& lst[c].v is Close
            &&& lst[c + 1].v is Open
            &&& q[0] == lst.subrange(start, c + 1)
            &&& legal_partition_from(lst, c + 1, q.drop_first())
            &&& q == seq![lst.subrange(start, c + 1)] + q.drop_first()
        }),
{
    let g = q[0];
    let t = q.drop_first();
    let n = lst.len() as int;
    let c = start + g.len() - 1;
    assert(concat_groups(q) == g + concat_groups(t));
    assert(t.len() >= 1);
    assert(concat_groups(t) == t.first() + concat_groups(t.drop_first()));
    assert(t.first() == q[1] && q[1].len() > 0);
    // position bookkeeping: |g| + |concat(t)| == n - start and |concat(t)| >= 1
    assert(g.len() + concat_groups(t).len() == n - start);
    assert(start <= c < n - 1);
    assert forall|i: int| 0 <= i < g.len() implies g[i] == lst[start + i] by {
        assert((g + concat_groups(t))[i] == g[i]);
        assert(lst.skip(start)[i] == lst[start + i]);
    }
    assert(g =~= lst.subrange(start, c + 1));
    assert(lst[c] == g.last());
    assert(g.last().v is Close && q[1].first().v is Open);
    assert(concat_groups(t)[0] == q[1].first());
    assert((g + concat_groups(t))[g.len() as int] == concat_groups(t)[0]);
    assert(lst.skip(start)[g.len() as int] == lst[c + 1]);
    assert(lst[c].v is Close && lst[c + 1].v is Open);
    assert forall|i: int| 0 <= i < concat_groups(t).len() implies concat_groups(t)[i] == lst[c + 1
        + i] by {
        assert((g + concat_groups(t))[g.len() + i] == concat_groups(t)[i]);
        assert(lst.skip(start)[g.len() + i] == lst[start + g.len() + i]);
    }
    assert(concat_groups(t) =~= lst.skip(c + 1));
    assert(legal_partition_from(lst, c + 1, t));
    assert(q =~= seq![lst.subrange(start, c + 1)] + t);
}

/// Prepending a prefix group that ends right before a legal cut onto a
/// legal partition of the remainder gives a legal partition.
#[verifier::rlimit(100)]
proof fn lemma_partition_cons(lst: Seq<ParenInfo>, start: int, j: int, t: Seq<Seq<ParenInfo>>)
    requires
        0 <= start <= j < lst.len() - 1,
        lst[j].v is Close,
        lst[j + 1].v is Open,
        legal_partition_from(lst, j + 1, t),
    ensures
        legal_partition_from(lst, start, seq![lst.subrange(start, j + 1)] + t),
{
    let g = lst.subrange(start, j + 1);
    let q = seq![g] + t;
    assert(q.first() == g);
    assert(q.drop_first() =~= t);
    assert(concat_groups(q) == g + concat_groups(t));
    assert(concat_groups(q) =~= lst.skip(start));
    assert(concat_groups(t) == t.first() + concat_groups(t.drop_first()));
    assert(concat_groups(t)[0] == t[0].first());
    assert(lst.skip(j + 1)[0] == lst[j + 1]);
    assert(q[0].last() == lst[j]);
    assert forall|i: int|
        0 <= i < q.len() - 1 implies ((#[trigger] q[i]).last().v is Close && q[i
        + 1].first().v is Open) by {
        if i > 0 {
            assert(q[i] == t[i - 1] && q[i + 1] == t[i]);
        } else {
            assert(q[1] == t[0]);
        }
    }
}

/// Two partitions with the same first group and different rests differ.
proof fn lemma_cons_injective(g: Seq<ParenInfo>, t1: Seq<Seq<ParenInfo>>, t2: Seq<Seq<ParenInfo>>)
    requires
        t1 != t2,
    ensures
        seq![g] + t1 != seq![g] + t2,
{
    if seq![g] + t1 == seq![g] + t2 {
        assert((seq![g] + t1).drop_first() =~= t1);
        assert((seq![g] + t2).drop_first() =~= t2);
        assert(false);
    }
}

/// One backtracking step of the enumeration: taking the last partition of
/// the sub-results and prepending the prefix group keeps the accumulated
/// partitions distinct.
#[verifier::rlimit(100)]
#[verifier::spinoff_prover]
proof fn lemma_pop_step_distinct(
    lst: Seq<ParenInfo>,
    start: int,
    j: int,
    base: int,
    subs_init: Seq<Vec<Vec<ParenInfo>>>,
    r_old: Seq<Vec<Vec<ParenInfo>>>,
    r_new: Seq<Vec<Vec<ParenInfo>>>,
    subs_old: Seq<Vec<Vec<ParenInfo>>>,
    subs_new: Seq<Vec<Vec<ParenInfo>>>,
)
    requires
        0 <= start <= j < lst.len() - 1,
        0 <= base <= r_old.len(),
        subs_old.len() >= 1,
        subs_new == subs_old.drop_last(),
        r_new.len() == r_old.len() + 1,
        forall|k: int| 0 <= k < r_old.len() ==> r_new[k] == r_old[k],
        groups_view(r_new[r_new.len() - 1]) == seq![lst.subrange(start, j + 1)] + groups_view(
            subs_old[subs_old.len() - 1],
        ),
        groups_view(subs_old[subs_old.len() - 1]).len() >= 1,
        r_old.len() - base == subs_init.len() - subs_old.len(),
        subs_old == subs_init.take(subs_old.len() as int),
        forall|m1: int, m2: int|
            0 <= m1 < m2 < subs_init.len() ==> groups_view(#[trigger] subs_init[m1])
                != groups_view(#[trigger] subs_init[m2]),
        forall|k1: int, k2: int|
            0 <= k1 < k2 < r_old.len() ==> groups_view(#[trigger] r_old[k1]) != groups_view(
                #[trigger] r_old[k2],
            ),
        forall|k: int|
            0 <= k < base ==> (groups_view(#[trigger] r_old[k]).len() == 1 || (groups_view(
                r_old[k],
            ).len() >= 2 && groups_view(r_old[k])[0].len() <= j - start)),
        forall|t: int|
            0 <= t < r_old.len() - base ==> groups_view(#[trigger] r_old[base + t]) == seq![
                lst.subrange(start, j + 1),
            ] + groups_view(subs_init[subs_init.len() - 1 - t]),
    ensures
        r_new.len() - base == subs_init.len() - subs_new.len(),
        forall|k1: int, k2: int|
            0 <= k1 < k2 < r_new.len() ==> groups_view(#[trigger] r_new[k1]) != groups_view(
                #[trigger] r_new[k2],
            ),
        forall|t: int|
            0 <= t < r_new.len() - base ==> groups_view(#[trigger] r_new[base + t]) == seq![
                lst.subrange(start, j + 1),
            ] + groups_view(subs_init[subs_init.len() - 1 - t]),
{
    let vg = groups_view(subs_old[subs_old.len() - 1]);
    let npv = groups_view(r_new[r_new.len() - 1]);
    let g = lst.subrange(start, j + 1);
    assert(subs_old[subs_old.len() - 1] == subs_init[subs_old.len() - 1]);
    assert(npv == seq![g] + vg);
    assert(npv.len() >= 2 && npv[0] == g);
    assert(g.len() == j + 1 - start);
    assert forall|k: int| 0 <= k < r_old.len() implies groups_view(#[trigger] r_new[k]) != npv by {
        let kv = groups_view(r_old[k]);
        assert(r_new[k] == r_old[k]);
        if k < base {
            if kv.len() == 1 {
            } else {
                assert(kv[0].len() <= j - start);
                assert(kv[0] != npv[0]);
            }
        } else {
            let t = k - base;
            let m = subs_init.len() - 1 - t;
            assert(r_old[base + t] == r_old[k]);
            assert(kv == seq![g] + groups_view(subs_init[m]));
            assert(m >= subs_old.len());
            assert(groups_view(subs_init[m]) != groups_view(subs_init[subs_old.len() - 1]));
            lemma_cons_injective(g, groups_view(subs_init[m]), vg);
        }
    }
    assert forall|t: int|
        0 <= t < r_new.len() - base implies groups_view(#[trigger] r_new[base + t]) == seq![
        lst.subrange(start, j + 1),
    ] + groups_view(subs_init[subs_init.len() - 1 - t]) by {
        if t < r_old.len() - base {
            assert(r_old[base + t] == r_new[base + t]);
        } else {
            assert(base + t == r_new.len() - 1);
            assert(subs_init.len() - 1 - t == subs_old.len() - 1);
        }
    }
}

/// One backtracking step of the enumeration: taking the last partition of
/// the sub-results and prepending the prefix group preserves soundness and
/// the completeness bookkeeping.
#[verifier::rlimit(100)]
#[verifier::spinoff_prover]
proof fn lemma_pop_step(
    lst: Seq<ParenInfo>,
    start: int,
    j: int,
    r_old: Seq<Vec<Vec<ParenInfo>>>,
    r_new: Seq<Vec<Vec<ParenInfo>>>,
    subs_old: Seq<Vec<Vec<ParenInfo>>>,
    subs_new: Seq<Vec<Vec<ParenInfo>>>,
)
    requires
        0 <= start <= j < lst.len() - 1,
        lst[j].v is Close,
        lst[j + 1].v is Open,
        subs_old.len() >= 1,
        subs_new == subs_old.drop_last(),
        r_new.len() == r_old.len() + 1,
        forall|k: int| 0 <= k < r_old.len() ==> r_new[k] == r_old[k],
        groups_view(r_new[r_new.len() - 1]) == seq![lst.subrange(start, j + 1)] + groups_view(
            subs_old[subs_old.len() - 1],
        ),
        forall|m: int|
            0 <= m < subs_old.len() ==> legal_partition_from(
                lst,
                j + 1,
                groups_view(#[trigger] subs_old[m]),
            ),
        forall|k: int|
            0 <= k < r_old.len() ==> legal_partition_from(
                lst,
                start,
                groups_view(#[trigger] r_old[k]),
            ),
        forall|q: Seq<Seq<ParenInfo>>| #[trigger]
            legal_partition_from(lst, start, q) && (q.len() == 1 || start + q[0].len() <= j)
                ==> in_result(r_old, q),
        forall|q: Seq<Seq<ParenInfo>>| #[trigger]
            legal_partition_from(lst, start, q) && q.len() >= 2 && start + q[0].len() == j + 1
                ==> (in_result(r_old, q) || exists|m: int|
                0 <= m < subs_old.len() && groups_view(#[trigger] subs_old[m]) == q.drop_first()),
    ensures
        forall|k: int|
            0 <= k < r_new.len() ==> legal_partition_from(
                lst,
                start,
                groups_view(#[trigger] r_new[k]),
            ),
        forall|q: Seq<Seq<ParenInfo>>| #[trigger]
            legal_partition_from(lst, start, q) && (q.len() == 1 || start + q[0].len() <= j)
                ==> in_result(r_new, q),
        forall|q: Seq<Seq<ParenInfo>>| #[trigger]
            legal_partition_from(lst, start, q) && q.len() >= 2 && start + q[0].len() == j + 1
                ==> (in_result(r_new, q) || exists|m: int|
                0 <= m < subs_new.len() && groups_view(#[trigger] subs_new[m]) == q.drop_first()),
{
    let vg = groups_view(subs_old[subs_old.len() - 1]);
    let npv = groups_view(r_new[r_new.len() - 1]);
    lemma_partition_cons(lst, start, j, vg);
    assert forall|k: int| 0 <= k < r_new.len() implies legal_partition_from(
        lst,
        start,
        groups_view(#[trigger] r_new[k]),
    ) by {
        if k < r_old.len() {
            assert(r_new[k] == r_old[k]);
            assert(legal_partition_from(lst, start, groups_view(r_old[k])));
        } else {
            assert(k == r_new.len() - 1);
        }
    }
    assert forall|q: Seq<Seq<ParenInfo>>| #[trigger]
        legal_partition_from(lst, start, q) && q.len() >= 2 && start + q[0].len() == j + 1 implies (
    in_result(r_new, q) || exists|m: int|
        0 <= m < subs_new.len() && groups_view(#[trigger] subs_new[m]) == q.drop_first()) by {
        lemma_partition_head(lst, start, q);
        if q.drop_first() == vg {
            assert(q =~= npv);
            assert(groups_view(r_new[r_new.len() - 1]) == q);
            assert(in_result(r_new, q));
        } else if in_result(r_old, q) {
            let k = choose|k: int| 0 <= k < r_old.len() && groups_view(#[trigger] r_old[k]) == q;
            assert(groups_view(r_new[k]) == q);
            assert(in_result(r_new, q));
        } else {
            let m = choose|m: int|
                0 <= m < subs_old.len() && groups_view(#[trigger] subs_old[m]) == q.drop_first();
            assert(m < subs_old.len() - 1);
            assert(groups_view(subs_new[m]) == q.drop_first());
        }
    }
    assert forall|q: Seq<Seq<ParenInfo>>| #[trigger]
        legal_partition_from(lst, start, q) && (q.len() == 1 || start + q[0].len() <= j) implies
        in_result(r_new, q) by {
        assert(in_result(r_old, q));
        let k = choose|k: int| 0 <= k < r_old.len() && groups_view(#[trigger] r_old[k]) == q;
        assert(groups_view(r_new[k]) == q);
    }
}

/// At the start of the enumeration the whole-remainder partition is the
/// only one whose first group cannot end before any cut.
#[verifier::rlimit(100)]
#[verifier::spinoff_prover]
proof fn lemma_enum_init(lst: Seq<ParenInfo>, start: int, r: Seq<Vec<Vec<ParenInfo>>>)
    requires
        0 <= start < lst.len(),
        r.len() == 1,
        groups_view(r[0]) == seq![lst.skip(start)],
    ensures
        forall|k: int|
            0 <= k < r.len() ==> legal_partition_from(lst, start, groups_view(#[trigger] r[k])),
        forall|q: Seq<Seq<ParenInfo>>| #[trigger]
            legal_partition_from(lst, start, q) && (q.len() == 1 || start + q[0].len() <= start)
                ==> in_result(r, q),
{
    let w = groups_view(r[0]);
    assert(w.drop_first() =~= Seq::<Seq<ParenInfo>>::empty());
    assert(concat_groups(w) == lst.skip(start) + concat_groups(w.drop_first()));
    assert(concat_groups(w) =~= lst.skip(start));
    assert(legal_partition_from(lst, start, w));
    assert forall|q: Seq<Seq<ParenInfo>>| #[trigger]
        legal_partition_from(lst, start, q) && (q.len() == 1 || start + q[0].len() <= start)
        implies in_result(r, q) by {
        assert(q[0].len() > 0);
        assert(q.len() == 1);
        assert(concat_groups(q) == q.first() + concat_groups(q.drop_first()));
        assert(q.drop_first() =~= Seq::<Seq<ParenInfo>>::empty());
        assert(q[0] =~= lst.skip(start));
        assert(q =~= w);
        assert(in_result(r, q));
    }
}

/// When the scan has passed every possible cut, the bookkeeping covers all
/// legal partitions.
#[verifier::rlimit(100)]
proof fn lemma_enum_done(lst: Seq<ParenInfo>, start: int, j: int, r: Seq<Vec<Vec<ParenInfo>>>)
    requires
        0 <= start < lst.len(),
        j >= lst.len() - 1,
        r.len() >= 1,
        groups_view(r[0]) == seq![lst.skip(start)],
        forall|q: Seq<Seq<ParenInfo>>| #[trigger]
            legal_partition_from(lst, start, q) && (q.len() == 1 || start + q[0].len() <= j)
                ==> in_result(r, q),
    ensures
        forall|q: Seq<Seq<ParenInfo>>| #[trigger]
            legal_partition_from(lst, start, q) ==> in_result(r, q),
{
    assert forall|q: Seq<Seq<ParenInfo>>| #[trigger] legal_partition_from(lst, start, q) implies
        in_result(r, q) by {
        if q.len() >= 2 {
            lemma_partition_head(lst, start, q);
            assert(start + q[0].len() <= j);
        }
    }
}

/// Enumerate every legal partition of the markers from `start` on.
#[verifier::rlimit(100)]
#[verifier::spinoff_prover]
fn gen_partitions(lst: &[ParenInfo], start: usize) -> (r: Vec<Vec<Vec<ParenInfo>>>)
    requires
        start < lst@.len(),
    ensures
        forall|k: int|
            0 <= k < r@.len() ==> legal_partition_from(
                lst@,
                start as int,
                groups_view(#[trigger] r@[k]),
            ),
        forall|q: Seq<Seq<ParenInfo>>| #[trigger]
            legal_partition_from(lst@, start as int, q) ==> in_result(r@, q),
        forall|k1: int, k2: int|
            0 <= k1 < k2 < r@.len() ==> groups_view(#[trigger] r@[k1]) != groups_view(
                #[trigger] r@[k2],
            ),
    decreases lst@.len() - start,
{
    let n = lst.len();
    let mut r: Vec<Vec<Vec<ParenInfo>>> = Vec::new();
    let whole = vstd::slice::slice_to_vec(vstd::slice::slice_subrange(lst, start, n));
    let mut onep: Vec<Vec<ParenInfo>> = Vec::new();
    onep.push(whole);
    r.push(onep);
    proof {
        assert(groups_view(r@[0]) =~= seq![lst@.skip(start as int)]) by {
            reveal(groups_view);
        }
        lemma_enum_init(lst@, start as int, r@);
    }
    let mut j = start;
    while j + 1 < n
        invariant
            n == lst@.len(),
            start < n,
            start <= j < n,
            groups_view(r@[0]) == seq![lst@.skip(start as int)],
            r@.len() >= 1,
            forall|k: int|
                0 <= k < r@.len() ==> legal_partition_from(
                    lst@,
                    start as int,
                    groups_view(#[trigger] r@[k]),
                ),
            forall|q: Seq<Seq<ParenInfo>>| #[trigger]
                legal_partition_from(lst@, start as int, q) && (q.len() == 1 || start + q[0].len()
                    <= j) ==> in_result(r@, q),
            forall|k1: int, k2: int|
                0 <= k1 < k2 < r@.len() ==> groups_view(#[trigger] r@[k1]) != groups_view(
                    #[trigger] r@[k2],
                ),
            forall|k: int|
                0 <= k < r@.len() ==> (groups_view(#[trigger] r@[k]).len() == 1 || (groups_view(
                    r@[k],
                ).len() >= 2 && groups_view(r@[k])[0].len() <= j - start)),
        decreases n - j,
    {
        let is_cut = lst[j].v == Paren::Close && lst[j + 1].v == Paren::Open;
        if is_cut {
            let mut subs = gen_partitions(lst, j + 1);
            let ghost base = r@.len() as int;
            let ghost subs_init = subs@;
            proof {
                assert(subs@ =~= subs_init.take(subs@.len() as int));
            }
            proof {
                assert forall|q: Seq<Seq<ParenInfo>>| #[trigger]
                    legal_partition_from(lst@, start as int, q) && q.len() >= 2 && start
                        + q[0].len() == j + 1 implies (in_result(r@, q) || exists|m: int|
                    0 <= m < subs@.len() && groups_view(#[trigger] subs@[m])
                        == q.drop_first()) by {
                    lemma_partition_head(lst@, start as int, q);
                    assert(in_result(subs@, q.drop_first()));
                }
            }
            while subs.len() > 0
                invariant
                    n == lst@.len(),
                    start < n,
                    start <= j < n - 1,
                    lst@[j as int].v is Close,
                    lst@[j + 1].v is Open,
                    forall|m: int|
                        0 <= m < subs@.len() ==> legal_partition_from(
                            lst@,
                            j + 1 as int,
                            groups_view(#[trigger] subs@[m]),
                        ),
                    forall|k: int|
                        0 <= k < r@.len() ==> legal_partition_from(
                            lst@,
                            start as int,
                            groups_view(#[trigger] r@[k]),
                        ),
                    forall|q: Seq<Seq<ParenInfo>>| #[trigger]
                        legal_partition_from(lst@, start as int, q) && (q.len() == 1 || start
                            + q[0].len() <= j) ==> in_result(r@, q),
                    forall|q: Seq<Seq<ParenInfo>>| #[trigger]
                        legal_partition_from(lst@, start as int, q) && q.len() >= 2 && start
                            + q[0].len() == j + 1 ==> (in_result(r@, q) || exists|m: int|
                            0 <= m < subs@.len() && groups_view(#[trigger] subs@[m])
                                == q.drop_first()),
                    groups_view(r@[0]) == seq![lst@.skip(start as int)],
                    r@.len() >= 1,
                    0 <= base <= r@.len(),
                    r@.len() - base == subs_init.len() - subs@.len(),
                    subs@ == subs_init.take(subs@.len() as int),
                    forall|m1: int, m2: int|
                        0 <= m1 < m2 < subs_init.len() ==> groups_view(#[trigger] subs_init[m1])
                            != groups_view(#[trigger] subs_init[m2]),
                    forall|k1: int, k2: int|
                        0 <= k1 < k2 < r@.len() ==> groups_view(#[trigger] r@[k1]) != groups_view(
                            #[trigger] r@[k2],
                        ),
                    forall|k: int|
                        0 <= k < base ==> (groups_view(#[trigger] r@[k]).len() == 1 || (
                        groups_view(r@[k]).len() >= 2 && groups_view(r@[k])[0].len() <= j
                            - start)),
                    forall|t: int|
                        0 <= t < r@.len() - base ==> groups_view(#[trigger] r@[base + t]) == seq![
                            lst@.subrange(start as int, j + 1),
                        ] + groups_view(subs_init[subs_init.len() - 1 - t]),
                decreases subs@.len(),
            {
                let ghost subs_old = subs@;
                let v_opt = subs.pop();
                let mut v = match v_opt {
                    Option::Some(v) => v,
                    Option::None => vstd::pervasive::unreached(),
                };
                let ghost vg = groups_view(v);
                let prefix = vstd::slice::slice_to_vec(
                    vstd::slice::slice_subrange(lst, start, j + 1),
                );
                let mut newp: Vec<Vec<ParenInfo>> = Vec::new();
                newp.push(prefix);
                newp.append(&mut v);
                let ghost r_old = r@;
                r.push(newp);
                proof {
                    assert(subs@ =~= subs_old.drop_last());
                    assert(vg == groups_view(subs_old[subs_old.len() - 1]));
                    assert(groups_view(r@[r@.len() - 1]) =~= seq![
                        lst@.subrange(start as int, j + 1 as int),
                    ] + vg) by {
                        reveal(groups_view);
                    }
                    assert(forall|k: int| 0 <= k < r_old.len() ==> r@[k] == r_old[k]);
                    assert(subs@ =~= subs_init.take(subs@.len() as int));
                    lemma_pop_step(lst@, start as int, j as int, r_old, r@, subs_old, subs@);
                    lemma_pop_step_distinct(
                        lst@,
                        start as int,
                        j as int,
                        base,
                        subs_init,
                        r_old,
                        r@,
                        subs_old,
                        subs@,
                    );
                    assert(groups_view(r@[0]) == seq![lst@.skip(start as int)]);
                }
            }
            proof {
                assert forall|q: Seq<Seq<ParenInfo>>| #[trigger]
                    legal_partition_from(lst@, start as int, q) && (q.len() == 1 || start
                        + q[0].len() <= j + 1) implies in_result(r@, q) by {
                    if q.len() >= 2 && start + q[0].len() == j + 1 {
                        assert(in_result(r@, q) || exists|m: int|
                            0 <= m < subs@.len() && groups_view(#[trigger] subs@[m])
                                == q.drop_first());
                    }
                }
                assert forall|k: int| 0 <= k < r@.len() implies (groups_view(
                    #[trigger] r@[k],
                ).len() == 1 || (groups_view(r@[k]).len() >= 2 && groups_view(r@[k])[0].len() <= j
                    + 1 - start)) by {
                    if k >= base {
                        let t = k - base;
                        assert(groups_view(r@[base + t]) == seq![
                            lst@.subrange(start as int, j + 1),
                        ] + groups_view(subs_init[subs_init.len() - 1 - t]));
                    }
                }
            }
        } else {
            proof {
                assert forall|q: Seq<Seq<ParenInfo>>| #[trigger]
                    legal_partition_from(lst@, start as int, q) && (q.len() == 1 || start
                        + q[0].len() <= j + 1) implies in_result(r@, q) by {
                    if q.len() >= 2 && start + q[0].len() == j + 1 {
                        lemma_partition_head(lst@, start as int, q);
                        assert(lst@[j as int].v is Close && lst@[j + 1].v is Open);
                        assert(false);
                    }
                }
            }
        }
        j += 1;
    }
    proof {
        lemma_enum_done(lst@, start as int, j as int, r@);
    }
    r
}

/// Enumerate every way of splitting the markers into groups, where a split
/// is allowed only between a close marker and an open marker directly
/// following it.  Each legal partition appears exactly once, as its list of
/// groups; the list of partitions carries no particular order.
pub fn generate_split_pattern(lst: &[ParenInfo]) -> (r: Vec<Vec<Vec<ParenInfo>>>)
    requires
        lst@.len() >= 1,
    ensures
        forall|k: int|
            0 <= k < r@.len() ==> legal_partition_from(lst@, 0, groups_view(#[trigger] r@[k])),
        forall|q: Seq<Seq<ParenInfo>>| #[trigger]
            legal_partition_from(lst@, 0, q) ==> in_result(r@, q),
        forall|k1: int, k2: int|
            0 <= k1 < k2 < r@.len() ==> groups_view(#[trigger] r@[k1]) != groups_view(
                #[trigger] r@[k2],
            ),
{
    gen_partitions(lst, 0)
}

} // verus!
