//! Version-constraint expressions: the condition grammar and the comparison
//! semantics of each condition kind.

use vstd::prelude::*;

use crate::chars::{spec_trim, str_chars, trim_bounds, push_char};
use crate::version::ParseError;
use crate::version::semver::{
    Version, VersionView, build_from_tokens, spec_build_version, spec_display_version,
};
use crate::version::token::{Token, TokenView, spec_tokenize, tokenize_range};

verus! {

broadcast use {
    vstd::seq::axiom_seq_index_decreases,
    vstd::std_specs::vec::axiom_vec_decreases_to_view,
    vstd::std_specs::vec::axiom_vec_index_decreases,
};

/// One inequality bound of a range condition.
#[derive(Debug, Clone, PartialEq)]
pub enum ConditionRange {
    Less(Version),
    LessEqual(Version),
    Greater(Version),
    GreaterEqual(Version),
}

#[verifier::ext_equal]
pub ghost enum ConditionRangeView {
    Less(VersionView),
    LessEqual(VersionView),
    Greater(VersionView),
    GreaterEqual(VersionView),
}

impl View for ConditionRange {
    type V = ConditionRangeView;

    open spec fn view(&self) -> ConditionRangeView {
        match self {
            ConditionRange::Less(v) => ConditionRangeView::Less(v@),
            ConditionRange::LessEqual(v) => ConditionRangeView::LessEqual(v@),
            ConditionRange::Greater(v) => ConditionRangeView::Greater(v@),
            ConditionRange::GreaterEqual(v) => ConditionRangeView::GreaterEqual(v@),
        }
    }
}

impl DeepView for ConditionRange {
    type V = ConditionRangeView;

    open spec fn deep_view(&self) -> ConditionRangeView {
        self.view()
    }
}

/// A parsed version constraint.
#[derive(Debug, PartialEq)]
pub enum Condition {
    /// `*`: matches every version.
    Any,
    /// A bare version: exact structural equality.
    Simple(Version),
    /// `~`: same major and minor, patch at least as large.
    Compatible(Version),
    /// `^`: same major, and not earlier in `(minor, patch)` order.
    CompatibleWithMostRecent(Version),
    /// A lower bound and an optional upper bound on the
    /// `(major, minor, patch)` ordering key.
    Range(ConditionRange, Option<ConditionRange>),
    /// Logical or over the alternatives, in source order.
    Composite(Vec<Condition>),
}

#[verifier::ext_equal]
pub ghost enum ConditionView {
    Any,
    Simple(VersionView),
    Compatible(VersionView),
    CompatibleWithMostRecent(VersionView),
    Range(ConditionRangeView, Option<ConditionRangeView>),
    Composite(Seq<ConditionView>),
}

impl View for Condition {
    type V = ConditionView;

    open spec fn view(&self) -> ConditionView
        decreases self, 0nat, 0nat,
    {
        match self {
            Condition::Any => ConditionView::Any,
            Condition::Simple(v) => ConditionView::Simple(v@),
            Condition::Compatible(v) => ConditionView::Compatible(v@),
            Condition::CompatibleWithMostRecent(v) => ConditionView::CompatibleWithMostRecent(v@),
            Condition::Range(l, u) => ConditionView::Range(
                l@,
                match u {
                    Some(uu) => Some(uu@),
                    None => None,
                },
            ),
            Condition::Composite(cs) => ConditionView::Composite(views_from(cs@, 0)),
        }
    }
}

/// The views of the conditions from index `i` on.
pub open spec fn views_from(cs: Seq<Condition>, i: int) -> Seq<ConditionView>
    decreases cs, 1nat, cs.len() - i,
{
    if 0 <= i < cs.len() {
        seq![cs[i]@] + views_from(cs, i + 1)
    } else {
        Seq::empty()
    }
}

/// `views_from` is the elementwise view of the tail starting at `i`.
pub proof fn lemma_views_from(cs: Seq<Condition>, i: int)
    requires
        0 <= i <= cs.len(),
    ensures
        views_from(cs, i).len() == cs.len() - i,
        forall|k: int| 0 <= k < cs.len() - i ==> views_from(cs, i)[k] == cs[i + k]@,
    decreases cs.len() - i,
{
    if i < cs.len() {
        lemma_views_from(cs, i + 1);
        let head = seq![cs[i]@];
        let rest = views_from(cs, i + 1);
        assert(views_from(cs, i) == head + rest);
        assert(head.len() == 1);
        assert((head + rest).len() == 1 + rest.len());
        assert forall|k: int| 0 <= k < cs.len() - i implies views_from(cs, i)[k] == cs[i + k]@ by {
            if k == 0 {
                assert((head + rest)[0] == head[0]);
            } else {
                assert((head + rest)[k] == rest[k - 1]);
            }
        }
    }
}

/// A composite's view carries exactly the deep view of its alternatives.
pub proof fn lemma_views_deep(cs: Vec<Condition>)
    ensures
        views_from(cs@, 0) == cs.deep_view(),
{
    lemma_views_from(cs@, 0);
    assert(views_from(cs@, 0) =~= cs.deep_view());
}

impl DeepView for Condition {
    type V = ConditionView;

    open spec fn deep_view(&self) -> ConditionView {
        self.view()
    }
}

/// The first slot of a range holds a lower bound.
pub open spec fn range_lower_wf(r: ConditionRangeView) -> bool {
    r is Greater || r is GreaterEqual
}

/// The second slot of a range, when present, holds an upper bound.
pub open spec fn range_upper_wf(r: ConditionRangeView) -> bool {
    r is Less || r is LessEqual
}

/// The parser's structural invariant: within a range the first slot is never
/// an upper bound and the second never a lower bound, recursively through
/// composites.
pub open spec fn cond_wf(c: ConditionView) -> bool
    decreases c,
{
    match c {
        ConditionView::Range(l, u) => range_lower_wf(l) && match u {
            None => true,
            Some(uu) => range_upper_wf(uu),
        },
        ConditionView::Composite(cs) => forall|i: int|
            0 <= i < cs.len() ==> cond_wf(#[trigger] cs[i]),
        _ => true,
    }
}

/// The ordering key of range comparisons: the lexicographic triple
/// `(major, minor, patch)`; pre-release and metadata are ignored.
pub open spec fn key_lt(a: VersionView, b: VersionView) -> bool {
    ||| a.major < b.major
    ||| (a.major == b.major && a.minor < b.minor)
    ||| (a.major == b.major && a.minor == b.minor && a.patch < b.patch)
}

pub open spec fn key_le(a: VersionView, b: VersionView) -> bool {
    key_lt(a, b) || (a.major == b.major && a.minor == b.minor && a.patch == b.patch)
}

/// Does the version satisfy the lower bound? (False on a malformed bound.)
pub open spec fn range_lower_sat(r: ConditionRangeView, v: VersionView) -> bool {
    match r {
        ConditionRangeView::Greater(w) => key_lt(w, v),
        ConditionRangeView::GreaterEqual(w) => key_le(w, v),
        _ => false,
    }
}

/// Does the version satisfy the upper bound? (False on a malformed bound.)
pub open spec fn range_upper_sat(r: ConditionRangeView, v: VersionView) -> bool {
    match r {
        ConditionRangeView::Less(w) => key_lt(v, w),
        ConditionRangeView::LessEqual(w) => key_le(v, w),
        _ => false,
    }
}

/// Whether a version satisfies a condition.
///
/// `Any` matches everything; `Simple` is structural equality on all five
/// fields; `Compatible` fixes major and minor and lets patch grow;
/// `CompatibleWithMostRecent` fixes major and lets `(minor, patch)` grow;
/// `Range` checks the ordering key against both bounds; `Composite` is the
/// logical or of its alternatives.
pub open spec fn spec_compare(c: ConditionView, v: VersionView) -> bool
    decreases c,
{
    match c {
        ConditionView::Any => true,
        ConditionView::Simple(w) => w == v,
        ConditionView::Compatible(w) => w.major == v.major && w.minor == v.minor && w.patch
            <= v.patch,
        ConditionView::CompatibleWithMostRecent(w) => !(w.major != v.major || w.minor > v.minor
            || (w.minor == v.minor && w.patch > v.patch)),
        ConditionView::Range(l, u) => range_lower_sat(l, v) && match u {
            None => true,
            Some(uu) => range_upper_sat(uu, v),
        },
        ConditionView::Composite(cs) => exists|i: int|
            0 <= i < cs.len() && spec_compare(#[trigger] cs[i], v),
    }
}

/// A condition that matches every version: what `*` parses to.
///
/// `Condition::parse` turns a sole `*` into `ConditionView::Any`, and `Any`
/// satisfies `spec_compare` against every version whatsoever.
pub proof fn lemma_any_matches_every_version(v: VersionView)
    ensures
        spec_compare(ConditionView::Any, v),
{
}

/// Index of the first or-token, or the length when there is none.
pub open spec fn first_or_index(ts: Seq<TokenView>) -> nat
    decreases ts.len(),
{
    if ts.len() == 0 {
        0
    } else if ts[0] is Or {
        0
    } else {
        1 + first_or_index(ts.skip(1))
    }
}

pub proof fn lemma_first_or_index_is(ts: Seq<TokenView>, k: nat)
    requires
        k <= ts.len(),
        forall|i: int| 0 <= i < k ==> !((#[trigger] ts[i]) is Or),
        k == ts.len() || ts[k as int] is Or,
    ensures
        first_or_index(ts) == k,
    decreases ts.len(),
{
    if k == 0 {
        if ts.len() > 0 {
            assert(!(ts[0] is Or) ==> k != 0 || ts[0] is Or);
        }
    } else {
        assert(!(ts[0] is Or));
        let t = ts.skip(1);
        assert forall|i: int| 0 <= i < k - 1 implies !((#[trigger] t[i]) is Or) by {
            assert(t[i] == ts[i + 1]);
        }
        if k < ts.len() {
            assert(t[k - 1] == ts[k as int]);
        }
        lemma_first_or_index_is(t, (k - 1) as nat);
    }
}

/// Index of the first `<` or `<=` token, or the length when there is none.
pub open spec fn first_upper_index(ts: Seq<TokenView>) -> nat
    decreases ts.len(),
{
    if ts.len() == 0 {
        0
    } else if ts[0] is Less || ts[0] is LessEqual {
        0
    } else {
        1 + first_upper_index(ts.skip(1))
    }
}

pub proof fn lemma_first_upper_index_is(ts: Seq<TokenView>, k: nat)
    requires
        k <= ts.len(),
        forall|i: int|
            0 <= i < k ==> !((#[trigger] ts[i]) is Less) && !(ts[i] is LessEqual),
        k == ts.len() || ts[k as int] is Less || ts[k as int] is LessEqual,
    ensures
        first_upper_index(ts) == k,
    decreases ts.len(),
{
    if k == 0 {
    } else {
        let t = ts.skip(1);
        assert forall|i: int| 0 <= i < k - 1 implies !((#[trigger] t[i]) is Less) && !(t[i]
            is LessEqual) by {
            assert(t[i] == ts[i + 1]);
        }
        if k < ts.len() {
            assert(t[k - 1] == ts[k as int]);
        }
        lemma_first_upper_index_is(t, (k - 1) as nat);
    }
}

/// The lower bound that a `>`/`>=` token selects.
pub open spec fn lower_range_of(t: TokenView, v: VersionView) -> ConditionRangeView {
    if t is GreaterEqual {
        ConditionRangeView::GreaterEqual(v)
    } else {
        ConditionRangeView::Greater(v)
    }
}

/// The upper bound that a `<`/`<=` token selects.
pub open spec fn upper_range_of(t: TokenView, v: VersionView) -> ConditionRangeView {
    if t is LessEqual {
        ConditionRangeView::LessEqual(v)
    } else {
        ConditionRangeView::Less(v)
    }
}

/// A range alternative: the tokens after the leading `>`/`>=` up to the first
/// `<`/`<=` give the lower-bound version; what follows the `<`/`<=`, if any,
/// gives the upper-bound version.
pub open spec fn spec_range_cond(ts: Seq<TokenView>) -> Result<ConditionView, ParseError> {
    let k = first_upper_index(ts);
    if k >= ts.len() {
        match spec_build_version(ts.skip(1)) {
            Err(e) => Err(e),
            Ok(v) => Ok(ConditionView::Range(lower_range_of(ts[0], v), None)),
        }
    } else {
        match spec_build_version(ts.subrange(1, k as int)) {
            Err(e) => Err(e),
            Ok(v1) => match spec_build_version(ts.skip(k + 1 as int)) {
                Err(e) => Err(e),
                Ok(v2) => Ok(ConditionView::Range(
                    lower_range_of(ts[0], v1),
                    Some(upper_range_of(ts[k as int], v2)),
                )),
            },
        }
    }
}

/// One or-free alternative, dispatched on its first token: `*` is `Any`
/// whatever follows it; `^` and `~` wrap the version built from the rest;
/// `>`/`>=` open a range; anything else is a plain version.
pub open spec fn spec_cond_simple(ts: Seq<TokenView>) -> Result<ConditionView, ParseError> {
    if ts.len() == 0 {
        Err(ParseError::EmptyTokenList)
    } else {
        match ts[0] {
            TokenView::Asterisk => Ok(ConditionView::Any),
            TokenView::Caret => match spec_build_version(ts.skip(1)) {
                Err(e) => Err(e),
                Ok(v) => Ok(ConditionView::CompatibleWithMostRecent(v)),
            },
            TokenView::Tilde => match spec_build_version(ts.skip(1)) {
                Err(e) => Err(e),
                Ok(v) => Ok(ConditionView::Compatible(v)),
            },
            TokenView::Greater => spec_range_cond(ts),
            TokenView::GreaterEqual => spec_range_cond(ts),
            _ => match spec_build_version(ts) {
                Err(e) => Err(e),
                Ok(v) => Ok(ConditionView::Simple(v)),
            },
        }
    }
}

/// The alternatives of an or-separated condition, left to right; the first
/// failing alternative's error wins. Token indices inside an error are
/// relative to the alternative's own slice.
pub open spec fn spec_or_segments(ts: Seq<TokenView>) -> Result<Seq<ConditionView>, ParseError>
    decreases ts.len(),
{
    let k = first_or_index(ts);
    if k < ts.len() {
        match spec_cond_simple(ts.take(k as int)) {
            Err(e) => Err(e),
            Ok(c) => match spec_or_segments(ts.skip(k + 1 as int)) {
                Err(e) => Err(e),
                Ok(rest) => Ok(seq![c] + rest),
            },
        }
    } else {
        match spec_cond_simple(ts) {
            Err(e) => Err(e),
            Ok(c) => Ok(seq![c]),
        }
    }
}

/// What building a condition from a token sequence returns: or-splitting
/// first, one alternative otherwise.
pub open spec fn spec_cond_build(ts: Seq<TokenView>) -> Result<ConditionView, ParseError> {
    if ts.len() == 0 {
        Err(ParseError::EmptyTokenList)
    } else if first_or_index(ts) < ts.len() {
        match spec_or_segments(ts) {
            Err(e) => Err(e),
            Ok(cs) => Ok(ConditionView::Composite(cs)),
        }
    } else {
        spec_cond_simple(ts)
    }
}

/// What parsing a condition string returns: trim, reject empty input,
/// tokenize, build.
pub open spec fn spec_cond_parse(s: Seq<char>) -> Result<ConditionView, ParseError> {
    let t = spec_trim(s);
    if t.len() == 0 {
        Err(ParseError::EmptyInput)
    } else {
        match spec_tokenize(t) {
            Err(e) => Err(e),
            Ok(ts) => spec_cond_build(ts),
        }
    }
}

/// Every alternative the grammar yields respects the range invariant.
proof fn lemma_cond_simple_wf(ts: Seq<TokenView>)
    ensures
        spec_cond_simple(ts) matches Ok(c) ==> cond_wf(c),
{
}

/// Every alternative list the grammar yields respects the range invariant.
proof fn lemma_or_segments_wf(ts: Seq<TokenView>)
    ensures
        spec_or_segments(ts) matches Ok(cs) ==> forall|i: int|
            0 <= i < cs.len() ==> cond_wf(#[trigger] cs[i]),
    decreases ts.len(),
{
    let k = first_or_index(ts);
    if k < ts.len() {
        lemma_cond_simple_wf(ts.take(k as int));
        lemma_or_segments_wf(ts.skip(k + 1 as int));
        if spec_or_segments(ts) is Ok {
            let cs = spec_or_segments(ts)->Ok_0;
            let head = spec_cond_simple(ts.take(k as int))->Ok_0;
            let rest = spec_or_segments(ts.skip(k + 1 as int))->Ok_0;
            assert forall|i: int| 0 <= i < cs.len() implies cond_wf(#[trigger] cs[i]) by {
                if i == 0 {
                    assert(cs[i] == head);
                } else {
                    assert(cs[i] == rest[i - 1]);
                }
            }
        }
    } else {
        lemma_cond_simple_wf(ts);
    }
}

/// The parser enforces the range invariant of every condition it returns.
pub proof fn lemma_cond_build_wf(ts: Seq<TokenView>)
    ensures
        spec_cond_build(ts) matches Ok(c) ==> cond_wf(c),
{
    if ts.len() == 0 {
    } else if first_or_index(ts) < ts.len() {
        lemma_or_segments_wf(ts);
    } else {
        lemma_cond_simple_wf(ts);
    }
}

/// Prepends finished alternatives to the outcome of splitting the rest.
pub open spec fn prepend_conds(cs: Seq<ConditionView>, rest: Result<Seq<ConditionView>, ParseError>) -> Result<
    Seq<ConditionView>,
    ParseError,
> {
    match rest {
        Ok(more) => Ok(cs + more),
        Err(e) => Err(e),
    }
}

proof fn lemma_prepend_conds_assoc(
    cs: Seq<ConditionView>,
    c: ConditionView,
    rest: Result<Seq<ConditionView>, ParseError>,
)
    ensures
        prepend_conds(cs, prepend_conds(seq![c], rest)) == prepend_conds(cs.push(c), rest),
{
    match rest {
        Ok(more) => {
            assert(cs + (seq![c] + more) =~= cs.push(c) + more);
        },
        Err(_) => {},
    }
}

/// Scans for the next or-token at or after `from`.
fn find_or_from(tokens: &[Token], from: usize) -> (j: usize)
    requires
        from <= tokens@.len(),
    ensures
        from <= j <= tokens@.len(),
        j - from == first_or_index(tokens.deep_view().skip(from as int)),
        j < tokens@.len() ==> tokens.deep_view()[j as int] is Or,
{
    let ghost ts = tokens.deep_view();
    let n: usize = tokens.len();
    let mut j: usize = from;
    while j < n && !matches!(vstd::slice::slice_index_get(tokens, j), Token::Or)
        invariant
            from <= j <= n,
            n == tokens@.len(),
            ts == tokens.deep_view(),
            forall|i: int| from <= i < j ==> !((#[trigger] ts[i]) is Or),
        decreases n - j,
    {
        j = j + 1;
    }
    proof {
        let sub = ts.skip(from as int);
        assert forall|i: int| 0 <= i < j - from implies !((#[trigger] sub[i]) is Or) by {
            assert(sub[i] == ts[from + i]);
        }
        if j < n {
            assert(sub[j - from] == ts[j as int]);
        }
        lemma_first_or_index_is(sub, (j - from) as nat);
    }
    j
}

/// Scans for the next `<`/`<=` token at or after `from`.
fn find_upper_from(tokens: &[Token], from: usize) -> (j: usize)
    requires
        from <= tokens@.len(),
    ensures
        from <= j <= tokens@.len(),
        j - from == first_upper_index(tokens.deep_view().skip(from as int)),
        j < tokens@.len() ==> (tokens.deep_view()[j as int] is Less || tokens.deep_view()[
            j as int
        ] is LessEqual),
{
    let ghost ts = tokens.deep_view();
    let n: usize = tokens.len();
    let mut j: usize = from;
    while j < n && !matches!(
        vstd::slice::slice_index_get(tokens, j),
        Token::Less | Token::LessEqual,
    )
        invariant
            from <= j <= n,
            n == tokens@.len(),
            ts == tokens.deep_view(),
            forall|i: int|
                from <= i < j ==> !((#[trigger] ts[i]) is Less) && !(ts[i] is LessEqual),
        decreases n - j,
    {
        j = j + 1;
    }
    proof {
        let sub = ts.skip(from as int);
        assert forall|i: int| 0 <= i < j - from implies !((#[trigger] sub[i]) is Less) && !(
        sub[i] is LessEqual) by {
            assert(sub[i] == ts[from + i]);
        }
        if j < n {
            assert(sub[j - from] == ts[j as int]);
        }
        lemma_first_upper_index_is(sub, (j - from) as nat);
    }
    j
}

/// Wraps the lower-bound version in the bound that the leading token selects.
fn range_condition_from_token(token: Token, version: Version) -> (r: ConditionRange)
    requires
        token@ is Greater || token@ is GreaterEqual,
    ensures
        r@ == lower_range_of(token@, version@),
{
    match token {
        Token::GreaterEqual => ConditionRange::GreaterEqual(version),
        _ => ConditionRange::Greater(version),
    }
}

/// Builds a range alternative from tokens that start with `>` or `>=`.
fn build_range_condition_from_tokens(tokens: &[Token], left_token: Token) -> (r: Result<
    Condition,
    ParseError,
>)
    requires
        tokens@.len() >= 1,
        left_token@ == tokens.deep_view()[0],
        left_token@ is Greater || left_token@ is GreaterEqual,
    ensures
        r matches Ok(c) ==> spec_range_cond(tokens.deep_view()) == Ok::<
            ConditionView,
            ParseError,
        >(c@),
        r matches Err(e) ==> spec_range_cond(tokens.deep_view()) == Err::<
            ConditionView,
            ParseError,
        >(e),
{
    let ghost ts = tokens.deep_view();
    let n: usize = tokens.len();
    let k = find_upper_from(tokens, 0);
    proof {
        assert(ts.skip(0) =~= ts);
    }
    if k == n {
        let tail = vstd::slice::slice_subrange(tokens, 1, n);
        proof {
            assert(tail.deep_view() =~= ts.skip(1));
        }
        match build_from_tokens(tail) {
            Err(e) => Err(e),
            Ok(v) => Ok(Condition::Range(range_condition_from_token(left_token, v), None)),
        }
    } else {
        let head = vstd::slice::slice_subrange(tokens, 1, k);
        proof {
            assert(head.deep_view() =~= ts.subrange(1, k as int));
        }
        match build_from_tokens(head) {
            Err(e) => Err(e),
            Ok(v1) => {
                let left_condition = range_condition_from_token(left_token, v1);
                let tail = vstd::slice::slice_subrange(tokens, k + 1, n);
                proof {
                    assert(tail.deep_view() =~= ts.skip(k as int + 1));
                }
                let upper = vstd::slice::slice_index_get(tokens, k);
                match upper {
                    Token::Less => match build_from_tokens(tail) {
                        Err(e) => Err(e),
                        Ok(v2) => Ok(Condition::Range(
                            left_condition,
                            Some(ConditionRange::Less(v2)),
                        )),
                    },
                    Token::LessEqual => match build_from_tokens(tail) {
                        Err(e) => Err(e),
                        Ok(v2) => Ok(Condition::Range(
                            left_condition,
                            Some(ConditionRange::LessEqual(v2)),
                        )),
                    },
                    _ => {
                        proof {
                            assert(ts[k as int] == tokens@[k as int]@);
                            assert(false);
                        }
                        Err(ParseError::Unexpected)
                    },
                }
            },
        }
    }
}

/// Builds one or-free alternative.
fn build_cond_simple(tokens: &[Token]) -> (r: Result<Condition, ParseError>)
    ensures
        r matches Ok(c) ==> spec_cond_simple(tokens.deep_view()) == Ok::<
            ConditionView,
            ParseError,
        >(c@),
        r matches Err(e) ==> spec_cond_simple(tokens.deep_view()) == Err::<
            ConditionView,
            ParseError,
        >(e),
{
    let ghost ts = tokens.deep_view();
    let n: usize = tokens.len();
    if n == 0 {
        return Err(ParseError::EmptyTokenList);
    }
    let first = vstd::slice::slice_index_get(tokens, 0);
    proof {
        assert(ts[0] == tokens@[0]@);
    }
    match first {
        Token::Asterisk => Ok(Condition::Any),
        Token::Caret => {
            let tail = vstd::slice::slice_subrange(tokens, 1, n);
            proof {
                assert(tail.deep_view() =~= ts.skip(1));
            }
            match build_from_tokens(tail) {
                Err(e) => Err(e),
                Ok(v) => Ok(Condition::CompatibleWithMostRecent(v)),
            }
        },
        Token::Tilde => {
            let tail = vstd::slice::slice_subrange(tokens, 1, n);
            proof {
                assert(tail.deep_view() =~= ts.skip(1));
            }
            match build_from_tokens(tail) {
                Err(e) => Err(e),
                Ok(v) => Ok(Condition::Compatible(v)),
            }
        },
        Token::Greater => build_range_condition_from_tokens(tokens, Token::Greater),
        Token::GreaterEqual => build_range_condition_from_tokens(tokens, Token::GreaterEqual),
        _ => {
            match build_from_tokens(tokens) {
                Err(e) => Err(e),
                Ok(v) => Ok(Condition::Simple(v)),
            }
        },
    }
}

/// Builds a condition from the whole token sequence: or-splitting first.
fn build_cond_from_tokens(tokens: &[Token]) -> (r: Result<Condition, ParseError>)
    ensures
        r matches Ok(c) ==> spec_cond_build(tokens.deep_view()) == Ok::<
            ConditionView,
            ParseError,
        >(c@),
        r matches Err(e) ==> spec_cond_build(tokens.deep_view()) == Err::<
            ConditionView,
            ParseError,
        >(e),
{
    let ghost ts = tokens.deep_view();
    let n: usize = tokens.len();
    if n == 0 {
        return Err(ParseError::EmptyTokenList);
    }
    let first_or = find_or_from(tokens, 0);
    proof {
        assert(ts.skip(0) =~= ts);
    }
    if first_or == n {
        return build_cond_simple(tokens);
    }
    let mut conds: Vec<Condition> = Vec::new();
    let mut p: usize = 0;
    let mut j: usize = first_or;
    proof {
        assert(conds.deep_view() =~= Seq::<ConditionView>::empty());
        assert(prepend_conds(conds.deep_view(), spec_or_segments(ts.skip(0)))
            == spec_or_segments(ts));
    }
    while j < n
        invariant
            p <= j <= n,
            n == tokens@.len(),
            ts == tokens.deep_view(),
            j - p == first_or_index(ts.skip(p as int)),
            j < n ==> ts[j as int] is Or,
            prepend_conds(conds.deep_view(), spec_or_segments(ts.skip(p as int)))
                == spec_or_segments(ts),
        decreases n - p,
    {
        let ghost conds0 = conds.deep_view();
        let ghost sub = ts.skip(p as int);
        let seg = vstd::slice::slice_subrange(tokens, p, j);
        proof {
            assert(seg.deep_view() =~= sub.take(j - p));
        }
        match build_cond_simple(seg) {
            Err(e) => {
                return Err(e);
            },
            Ok(c) => {
                let ghost cv = c@;
                conds.push(c);
                proof {
                    assert(conds.deep_view() =~= conds0.push(cv));
                    assert(sub.skip(j - p + 1) =~= ts.skip(j as int + 1));
                    assert(spec_or_segments(sub) == prepend_conds(
                        seq![cv],
                        spec_or_segments(ts.skip(j as int + 1)),
                    ));
                    lemma_prepend_conds_assoc(conds0, cv, spec_or_segments(ts.skip(j as int + 1)));
                }
            },
        }
        p = j + 1;
        j = find_or_from(tokens, p);
    }
    // The trailing alternative, after the last or-token.
    let ghost conds0 = conds.deep_view();
    let ghost sub = ts.skip(p as int);
    let seg = vstd::slice::slice_subrange(tokens, p, n);
    proof {
        assert(seg.deep_view() =~= sub);
        assert(first_or_index(sub) == sub.len());
    }
    match build_cond_simple(seg) {
        Err(e) => Err(e),
        Ok(c) => {
            let ghost cv = c@;
            conds.push(c);
            proof {
                assert(conds.deep_view() =~= conds0.push(cv));
                assert(spec_or_segments(sub) == Ok::<Seq<ConditionView>, ParseError>(seq![cv]));
                assert(conds0 + seq![cv] =~= conds0.push(cv));
                assert(spec_or_segments(ts) == Ok::<Seq<ConditionView>, ParseError>(
                    conds.deep_view(),
                ));
            }
            let ghost cdv = conds.deep_view();
            proof {
                lemma_views_deep(conds);
            }
            let out = Condition::Composite(conds);
            proof {
                assert(out@ is Composite);
                assert(out@->Composite_0 == cdv);
            }
            Ok(out)
        },
    }
}

impl Condition {
    /// Parses a version-constraint expression: the input is trimmed, a blank
    /// input is `EmptyInput`, and the token sequence drives the condition
    /// grammar. Every condition returned respects the range invariant.
    pub fn parse(input: &str) -> (r: Result<Self, ParseError>)
        ensures
            r matches Ok(c) ==> spec_cond_parse(input@) == Ok::<ConditionView, ParseError>(c@)
                && cond_wf(c@),
            r matches Err(e) ==> spec_cond_parse(input@) == Err::<ConditionView, ParseError>(e),
    {
        let chars = str_chars(input);
        let (lo, hi) = trim_bounds(&chars);
        if lo == hi {
            proof {
                assert(spec_trim(input@).len() == 0);
            }
            return Err(ParseError::EmptyInput);
        }
        match tokenize_range(&chars, lo, hi) {
            Err(e) => Err(e),
            Ok(tokens) => {
                let slice = tokens.as_slice();
                proof {
                    assert(slice.deep_view() =~= tokens.deep_view());
                }
                let r = build_cond_from_tokens(slice);
                proof {
                    lemma_cond_build_wf(slice.deep_view());
                }
                r
            },
        }
    }

    /// Whether the given version satisfies this condition, by the rules of
    /// `spec_compare`.
    pub fn compare(&self, version: &Version) -> (r: bool)
        requires
            cond_wf(self@),
        ensures
            r == spec_compare(self@, version@),
        decreases self, 0nat, 0nat,
    {
        match self {
            Condition::Any => true,
            Condition::Simple(v) => v.eq(version),
            Condition::Compatible(v) => v.major == version.major && v.minor == version.minor
                && v.patch <= version.patch,
            Condition::CompatibleWithMostRecent(v) => !(v.major != version.major || v.minor
                > version.minor || (v.minor == version.minor && v.patch > version.patch)),
            Condition::Range(left, right) => {
                let lower_ok = match left {
                    ConditionRange::Greater(v) => key_lt_exec(v, version),
                    ConditionRange::GreaterEqual(v) => key_le_exec(v, version),
                    _ => {
                        proof {
                            assert(false);
                        }
                        false
                    },
                };
                if !lower_ok {
                    return false;
                }
                match right {
                    Some(upper) => match upper {
                        ConditionRange::Less(v) => key_lt_exec(version, v),
                        ConditionRange::LessEqual(v) => key_le_exec(version, v),
                        _ => {
                            proof {
                                assert(false);
                            }
                            false
                        },
                    },
                    None => true,
                }
            },
            Condition::Composite(conditions) => {
                proof {
                    lemma_views_deep(*conditions);
                    assert(self@ is Composite);
                    assert(self@->Composite_0 == conditions.deep_view());
                }
                compare_any_from(conditions, 0, version)
            },
        }
    }
}

/// Strict order on the `(major, minor, patch)` key.
fn key_lt_exec(a: &Version, b: &Version) -> (r: bool)
    ensures
        r == key_lt(a@, b@),
{
    a.major < b.major || (a.major == b.major && (a.minor < b.minor || (a.minor == b.minor
        && a.patch < b.patch)))
}

/// Non-strict order on the `(major, minor, patch)` key.
fn key_le_exec(a: &Version, b: &Version) -> (r: bool)
    ensures
        r == key_le(a@, b@),
{
    a.major < b.major || (a.major == b.major && (a.minor < b.minor || (a.minor == b.minor
        && a.patch <= b.patch)))
}

/// Whether some alternative at or after `from` matches the version.
fn compare_any_from(cs: &Vec<Condition>, from: usize, version: &Version) -> (r: bool)
    requires
        from <= cs@.len(),
        forall|i: int| 0 <= i < cs@.len() ==> cond_wf(#[trigger] cs.deep_view()[i]),
    ensures
        r == exists|i: int|
            from <= i < cs@.len() && spec_compare(#[trigger] cs.deep_view()[i], version@),
    decreases cs, 1nat, cs@.len() - from,
{
    if from < cs.len() {
        let c = &cs[from];
        proof {
            assert(c@ == cs.deep_view()[from as int]);
        }
        if c.compare(version) {
            true
        } else {
            compare_any_from(cs, from + 1, version)
        }
    } else {
        false
    }
}




/// The textual rendering of one bound: its operator, then the version.
pub open spec fn spec_display_range(r: ConditionRangeView) -> Seq<char> {
    match r {
        ConditionRangeView::Less(v) => seq!['<'] + spec_display_version(v),
        ConditionRangeView::LessEqual(v) => seq!['<', '='] + spec_display_version(v),
        ConditionRangeView::Greater(v) => seq!['>'] + spec_display_version(v),
        ConditionRangeView::GreaterEqual(v) => seq!['>', '='] + spec_display_version(v),
    }
}

/// The textual rendering of a condition: `*`, the bare version, `~`/`^` and
/// the version, the bounds separated by a space, or the alternatives joined
/// by ` || `.
pub open spec fn spec_display_cond(c: ConditionView) -> Seq<char>
    decreases c, 0nat, 0nat,
{
    match c {
        ConditionView::Any => seq!['*'],
        ConditionView::Simple(v) => spec_display_version(v),
        ConditionView::Compatible(v) => seq!['~'] + spec_display_version(v),
        ConditionView::CompatibleWithMostRecent(v) => seq!['^'] + spec_display_version(v),
        ConditionView::Range(l, u) => spec_display_range(l) + (match u {
            None => Seq::<char>::empty(),
            Some(uu) => seq![' '] + spec_display_range(uu),
        }),
        ConditionView::Composite(cs) => spec_display_conds_from(cs, 0),
    }
}

/// The renderings of the alternatives from index `i` on, joined by ` || `.
pub open spec fn spec_display_conds_from(cs: Seq<ConditionView>, i: int) -> Seq<char>
    decreases cs, 1nat, cs.len() - i,
{
    if 0 <= i < cs.len() {
        if i == cs.len() - 1 {
            spec_display_cond(cs[i])
        } else {
            spec_display_cond(cs[i]) + seq![' ', '|', '|', ' '] + spec_display_conds_from(
                cs,
                i + 1,
            )
        }
    } else {
        Seq::empty()
    }
}

impl ConditionRange {
    /// Renders the bound as text, as `spec_display_range` lays it out.
    pub fn to_display_string(&self) -> (s: String)
        ensures
            s@ == spec_display_range(self@),
    {
        let mut s = String::new();
        match self {
            ConditionRange::Less(v) => {
                push_char(&mut s, '<');
                let vs = v.to_display_string();
                s.append(vs.as_str());
                proof {
                    assert(s@ =~= spec_display_range(self@));
                }
            },
            ConditionRange::LessEqual(v) => {
                push_char(&mut s, '<');
                push_char(&mut s, '=');
                let vs = v.to_display_string();
                s.append(vs.as_str());
                proof {
                    assert(s@ =~= spec_display_range(self@));
                }
            },
            ConditionRange::Greater(v) => {
                push_char(&mut s, '>');
                let vs = v.to_display_string();
                s.append(vs.as_str());
                proof {
                    assert(s@ =~= spec_display_range(self@));
                }
            },
            ConditionRange::GreaterEqual(v) => {
                push_char(&mut s, '>');
                push_char(&mut s, '=');
                let vs = v.to_display_string();
                s.append(vs.as_str());
                proof {
                    assert(s@ =~= spec_display_range(self@));
                }
            },
        }
        s
    }
}

impl Condition {
    /// Renders the condition as text, as `spec_display_cond` lays it out.
    pub fn to_display_string(&self) -> (s: String)
        ensures
            s@ == spec_display_cond(self@),
        decreases self, 0nat, 0nat,
    {
        match self {
            Condition::Any => {
                let mut s = String::new();
                push_char(&mut s, '*');
                proof {
                    assert(s@ =~= seq!['*']);
                }
                s
            },
            Condition::Simple(v) => v.to_display_string(),
            Condition::Compatible(v) => {
                let mut s = String::new();
                push_char(&mut s, '~');
                let vs = v.to_display_string();
                s.append(vs.as_str());
                proof {
                    assert(s@ =~= spec_display_cond(self@));
                }
                s
            },
            Condition::CompatibleWithMostRecent(v) => {
                let mut s = String::new();
                push_char(&mut s, '^');
                let vs = v.to_display_string();
                s.append(vs.as_str());
                proof {
                    assert(s@ =~= spec_display_cond(self@));
                }
                s
            },
            Condition::Range(l, u) => {
                let mut s = l.to_display_string();
                match u {
                    Some(uu) => {
                        push_char(&mut s, ' ');
                        let us = uu.to_display_string();
                        s.append(us.as_str());
                    },
                    None => {},
                }
                proof {
                    assert(s@ =~= spec_display_cond(self@));
                }
                s
            },
            Condition::Composite(cs) => {
                proof {
                    lemma_views_deep(*cs);
                }
                let s = display_conds_from(cs, 0);
                proof {
                    assert(s@ =~= spec_display_cond(self@));
                }
                s
            },
        }
    }
}

/// Renders the alternatives from `from` on, joined by ` || `.
fn display_conds_from(cs: &Vec<Condition>, from: usize) -> (s: String)
    requires
        from <= cs@.len(),
    ensures
        s@ == spec_display_conds_from(cs.deep_view(), from as int),
    decreases cs, 1nat, cs@.len() - from,
{
    if from < cs.len() {
        let c = &cs[from];
        proof {
            assert(c@ == cs.deep_view()[from as int]);
        }
        let mut s = c.to_display_string();
        if from + 1 < cs.len() {
            push_char(&mut s, ' ');
            push_char(&mut s, '|');
            push_char(&mut s, '|');
            push_char(&mut s, ' ');
            let rest = display_conds_from(cs, from + 1);
            s.append(rest.as_str());
            proof {
                assert(s@ =~= spec_display_conds_from(cs.deep_view(), from as int));
            }
        }
        s
    } else {
        let s = String::new();
        proof {
            assert(s@ =~= spec_display_conds_from(cs.deep_view(), from as int));
        }
        s
    }
}


} // verus!
