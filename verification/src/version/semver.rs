//! The semantic-version value and its parser: a three-state machine over the
//! token sequence filling core numbers, pre-release identifiers and metadata
//! identifiers.

use vstd::prelude::*;

use crate::chars::{
    dec_digits, digits_val, is_digit_char, is_numeral, is_space_char, lemma_dec_digits,
    lemma_dec_digits_numeral, lemma_trim_no_space, push_char, spec_trim, str_chars, trim_bounds,
    u32_to_dec,
};
use crate::version::ParseError;
use crate::version::token::{
    Token, TokenView, lemma_tokenize_numeral, prepend_tokens, spec_tokenize, spec_tokenize_rest,
    tokenize_range,
};

verus! {

/// A parsed semantic version. `minor` and `patch` default to zero when absent
/// from the input; `pre_release` and `metadata` keep the dot-separated order
/// of the source identifiers.
#[derive(Debug, Clone)]
pub struct Version {
    pub major: u32,
    pub minor: u32,
    pub patch: u32,
    pub pre_release: Vec<String>,
    pub metadata: Vec<String>,
}

/// The mathematical shape of a version: identifiers are character sequences.
#[verifier::ext_equal]
pub ghost struct VersionView {
    pub major: u32,
    pub minor: u32,
    pub patch: u32,
    pub pre_release: Seq<Seq<char>>,
    pub metadata: Seq<Seq<char>>,
}

impl View for Version {
    type V = VersionView;

    open spec fn view(&self) -> VersionView {
        VersionView {
            major: self.major,
            minor: self.minor,
            patch: self.patch,
            pre_release: self.pre_release.deep_view(),
            metadata: self.metadata.deep_view(),
        }
    }
}

impl DeepView for Version {
    type V = VersionView;

    open spec fn deep_view(&self) -> VersionView {
        self.view()
    }
}

/// Equality is structural over all five fields.
impl PartialEq for Version {
    fn eq(&self, other: &Self) -> (r: bool) {
        let r = self.major == other.major && self.minor == other.minor && self.patch
            == other.patch && str_vec_eq(&self.pre_release, &other.pre_release) && str_vec_eq(
            &self.metadata,
            &other.metadata,
        );
        proof {
            if r {
                assert(self@ =~= other@);
            }
        }
        r
    }
}

impl vstd::std_specs::cmp::PartialEqSpecImpl for Version {
    open spec fn obeys_eq_spec() -> bool {
        true
    }

    open spec fn eq_spec(&self, other: &Self) -> bool {
        self@ == other@
    }
}

impl Eq for Version {}

/// The all-zero version with no pre-release and no metadata.
impl Default for Version {
    fn default() -> (v: Self)
        ensures
            v@ == (VersionView {
                major: 0,
                minor: 0,
                patch: 0,
                pre_release: Seq::<Seq<char>>::empty(),
                metadata: Seq::<Seq<char>>::empty(),
            }),
    {
        let v = Version {
            major: 0,
            minor: 0,
            patch: 0,
            pre_release: Vec::new(),
            metadata: Vec::new(),
        };
        proof {
            assert(v.pre_release.deep_view() =~= Seq::<Seq<char>>::empty());
            assert(v.metadata.deep_view() =~= Seq::<Seq<char>>::empty());
            assert(v@ =~= (VersionView {
                major: 0,
                minor: 0,
                patch: 0,
                pre_release: Seq::<Seq<char>>::empty(),
                metadata: Seq::<Seq<char>>::empty(),
            }));
        }
        v
    }
}

/// Elementwise equality of two identifier lists.
fn str_vec_eq(a: &Vec<String>, b: &Vec<String>) -> (r: bool)
    ensures
        r == (a.deep_view() == b.deep_view()),
{
    if a.len() != b.len() {
        proof {
            assert(a.deep_view().len() == a@.len());
            assert(b.deep_view().len() == b@.len());
        }
        return false;
    }
    let n: usize = a.len();
    let mut i: usize = 0;
    while i < n
        invariant
            i <= n,
            n == a@.len() == b@.len(),
            forall|k: int| 0 <= k < i ==> a.deep_view()[k] == b.deep_view()[k],
        decreases n - i,
    {
        if !a[i].eq(&b[i]) {
            proof {
                assert(a.deep_view()[i as int] != b.deep_view()[i as int]);
            }
            return false;
        }
        i = i + 1;
    }
    proof {
        assert(a.deep_view() =~= b.deep_view());
    }
    true
}

/// Which segment of the version the builder is filling.
#[derive(Debug, Clone, Copy, PartialEq, Eq, Structural)]
pub enum Segment {
    Core,
    PreRelease,
    Metadata,
}

/// The shape of the previously consumed token, which gates every transition.
/// `Empty` stands at the start and right after a segment change.
#[derive(Debug, Clone, Copy, PartialEq, Eq, Structural)]
pub enum PrevToken {
    Empty,
    Dot,
    Hyphen,
    Number,
    Ident,
}

/// The state of the version builder: current segment, shape of the previous
/// token, the pending hyphen run, and everything filled so far.
#[verifier::ext_equal]
pub ghost struct BuildState {
    pub seg: Segment,
    pub prev: PrevToken,
    pub hyph: Seq<char>,
    pub major: Option<u32>,
    pub minor: Option<u32>,
    pub patch: Option<u32>,
    pub pre: Seq<Seq<char>>,
    pub meta: Seq<Seq<char>>,
}

pub open spec fn init_state() -> BuildState {
    BuildState {
        seg: Segment::Core,
        prev: PrevToken::Empty,
        hyph: Seq::empty(),
        major: None,
        minor: None,
        patch: None,
        pre: Seq::empty(),
        meta: Seq::empty(),
    }
}

/// One step of the builder: `None` means the token is invalid here.
///
/// In the core segment, numbers fill major, minor and patch in order, each
/// after a dot; a hyphen or plus not following a dot opens the pre-release or
/// metadata segment. In the two identifier segments, identifiers separated by
/// dots are pushed onto the list, with a pending run of hyphens kept verbatim
/// as a prefix of the next identifier (or as an identifier of its own when a
/// dot ends it); from pre-release, a plus not following a dot moves on to
/// metadata.
pub open spec fn step(st: BuildState, t: TokenView) -> Option<BuildState> {
    match st.seg {
        Segment::Core => match t {
            TokenView::Dot => if st.prev is Number && st.patch is None {
                Some(BuildState { prev: PrevToken::Dot, ..st })
            } else {
                None
            },
            TokenView::Number(n) => if st.prev is Empty {
                Some(BuildState { major: Some(n), prev: PrevToken::Number, ..st })
            } else if st.prev is Dot && st.minor is None {
                Some(BuildState { minor: Some(n), prev: PrevToken::Number, ..st })
            } else if st.prev is Dot && st.patch is None {
                Some(BuildState { patch: Some(n), prev: PrevToken::Number, ..st })
            } else {
                None
            },
            TokenView::Hyphen => if !(st.prev is Dot) {
                Some(BuildState { seg: Segment::PreRelease, prev: PrevToken::Empty, ..st })
            } else {
                None
            },
            TokenView::Plus => if !(st.prev is Dot) {
                Some(BuildState { seg: Segment::Metadata, prev: PrevToken::Empty, ..st })
            } else {
                None
            },
            _ => None,
        },
        Segment::PreRelease => match t {
            TokenView::Dot => if st.prev is Number || st.prev is Ident {
                Some(BuildState { prev: PrevToken::Dot, ..st })
            } else if st.prev is Hyphen {
                Some(BuildState {
                    pre: st.pre.push(st.hyph),
                    hyph: Seq::empty(),
                    prev: PrevToken::Dot,
                    ..st
                })
            } else {
                None
            },
            TokenView::Hyphen => if st.prev is Dot || st.prev is Hyphen {
                Some(BuildState { hyph: st.hyph.push('-'), prev: PrevToken::Hyphen, ..st })
            } else {
                None
            },
            TokenView::AlphaNumeric(id) => if st.prev is Empty || st.prev is Dot || st.prev
                is Hyphen {
                Some(BuildState {
                    pre: st.pre.push(st.hyph + id),
                    hyph: Seq::empty(),
                    prev: PrevToken::Ident,
                    ..st
                })
            } else {
                None
            },
            TokenView::Number(n) => if st.prev is Empty || st.prev is Dot || st.prev is Hyphen {
                Some(BuildState {
                    pre: st.pre.push(st.hyph + dec_digits(n as nat)),
                    hyph: Seq::empty(),
                    prev: PrevToken::Number,
                    ..st
                })
            } else {
                None
            },
            TokenView::Plus => if !(st.prev is Dot) {
                Some(BuildState { seg: Segment::Metadata, prev: PrevToken::Empty, ..st })
            } else {
                None
            },
            _ => None,
        },
        Segment::Metadata => match t {
            TokenView::Dot => if st.prev is Number || st.prev is Ident {
                Some(BuildState { prev: PrevToken::Dot, ..st })
            } else if st.prev is Hyphen {
                Some(BuildState {
                    meta: st.meta.push(st.hyph),
                    hyph: Seq::empty(),
                    prev: PrevToken::Dot,
                    ..st
                })
            } else {
                None
            },
            TokenView::Hyphen => if st.prev is Dot || st.prev is Hyphen {
                Some(BuildState { hyph: st.hyph.push('-'), prev: PrevToken::Hyphen, ..st })
            } else {
                None
            },
            TokenView::AlphaNumeric(id) => if st.prev is Empty || st.prev is Dot || st.prev
                is Hyphen {
                Some(BuildState {
                    meta: st.meta.push(st.hyph + id),
                    hyph: Seq::empty(),
                    prev: PrevToken::Ident,
                    ..st
                })
            } else {
                None
            },
            TokenView::Number(n) => if st.prev is Empty || st.prev is Dot || st.prev is Hyphen {
                Some(BuildState {
                    meta: st.meta.push(st.hyph + dec_digits(n as nat)),
                    hyph: Seq::empty(),
                    prev: PrevToken::Number,
                    ..st
                })
            } else {
                None
            },
            _ => None,
        },
    }
}

/// After all tokens: major must have been set; minor and patch default to
/// zero; a pending hyphen run is dropped.
pub open spec fn finish_state(st: BuildState) -> Result<VersionView, ParseError> {
    match st.major {
        None => Err(ParseError::MissingSymbolAt(0)),
        Some(maj) => Ok(VersionView {
            major: maj,
            minor: match st.minor {
                Some(m) => m,
                None => 0,
            },
            patch: match st.patch {
                Some(p) => p,
                None => 0,
            },
            pre_release: st.pre,
            metadata: st.meta,
        }),
    }
}

/// Runs the builder from state `st` over the tokens from index `i` on. A
/// rejected token yields `InvalidTokenAt` of its index.
pub open spec fn run_build(st: BuildState, ts: Seq<TokenView>, i: int) -> Result<
    VersionView,
    ParseError,
>
    decreases ts.len() - i,
{
    if i < 0 || i >= ts.len() {
        finish_state(st)
    } else {
        match step(st, ts[i]) {
            None => Err(ParseError::InvalidTokenAt(i as usize)),
            Some(st2) => run_build(st2, ts, i + 1),
        }
    }
}

/// What building a version from a token sequence returns.
pub open spec fn spec_build_version(ts: Seq<TokenView>) -> Result<VersionView, ParseError> {
    if ts.len() == 0 {
        Err(ParseError::EmptyTokenList)
    } else {
        run_build(init_state(), ts, 0)
    }
}

/// What parsing a version string returns: trim, reject empty input, tokenize,
/// build.
pub open spec fn spec_version_parse(s: Seq<char>) -> Result<VersionView, ParseError> {
    let t = spec_trim(s);
    if t.len() == 0 {
        Err(ParseError::EmptyInput)
    } else {
        match spec_tokenize(t) {
            Err(e) => Err(e),
            Ok(ts) => spec_build_version(ts),
        }
    }
}

/// Assembles a builder state from the builder's working variables.
pub open spec fn st_of(
    seg: Segment,
    prev: PrevToken,
    hyph: Seq<char>,
    major: Option<u32>,
    minor: Option<u32>,
    patch: Option<u32>,
    pre: Seq<Seq<char>>,
    meta: Seq<Seq<char>>,
) -> BuildState {
    BuildState { seg, prev, hyph, major, minor, patch, pre, meta }
}

/// Drives the three-state machine over the whole token sequence and returns
/// the finished version, or the index of the first token that the grammar
/// rejects.
pub fn build_from_tokens(tokens: &[Token]) -> (r: Result<Version, ParseError>)
    ensures
        r matches Ok(v) ==> spec_build_version(tokens.deep_view()) == Ok::<
            VersionView,
            ParseError,
        >(v@),
        r matches Err(e) ==> spec_build_version(tokens.deep_view()) == Err::<
            VersionView,
            ParseError,
        >(e),
{
    let ghost ts = tokens.deep_view();
    let n: usize = tokens.len();
    if n == 0 {
        return Err(ParseError::EmptyTokenList);
    }
    let mut seg = Segment::Core;
    let mut prev = PrevToken::Empty;
    let mut hyph = String::new();
    let mut major: Option<u32> = None;
    let mut minor: Option<u32> = None;
    let mut patch: Option<u32> = None;
    let mut pre: Vec<String> = Vec::new();
    let mut meta: Vec<String> = Vec::new();
    proof {
        assert(hyph@ =~= Seq::<char>::empty());
        assert(pre.deep_view() =~= Seq::<Seq<char>>::empty());
        assert(meta.deep_view() =~= Seq::<Seq<char>>::empty());
        assert(st_of(seg, prev, hyph@, major, minor, patch, pre.deep_view(), meta.deep_view())
            =~= init_state());
    }
    let mut i: usize = 0;
    while i < n
        invariant
            i <= n,
            n == ts.len(),
            ts == tokens.deep_view(),
            n == tokens@.len(),
            spec_build_version(ts) == run_build(
                st_of(seg, prev, hyph@, major, minor, patch, pre.deep_view(), meta.deep_view()),
                ts,
                i as int,
            ),
        decreases n - i,
    {
        let ghost st0 = st_of(
            seg,
            prev,
            hyph@,
            major,
            minor,
            patch,
            pre.deep_view(),
            meta.deep_view(),
        );
        let t = vstd::slice::slice_index_get(tokens, i);
        proof {
            assert(ts[i as int] == tokens@[i as int]@);
        }
        match seg {
            Segment::Core => {
                match t {
                    Token::Dot => {
                        if prev == PrevToken::Number && patch.is_none() {
                            prev = PrevToken::Dot;
                        } else {
                            return Err(ParseError::InvalidTokenAt(i));
                        }
                    },
                    Token::Number(num) => {
                        if prev == PrevToken::Empty {
                            major = Some(*num);
                            prev = PrevToken::Number;
                        } else if prev == PrevToken::Dot && minor.is_none() {
                            minor = Some(*num);
                            prev = PrevToken::Number;
                        } else if prev == PrevToken::Dot && patch.is_none() {
                            patch = Some(*num);
                            prev = PrevToken::Number;
                        } else {
                            return Err(ParseError::InvalidTokenAt(i));
                        }
                    },
                    Token::Hyphen => {
                        if prev != PrevToken::Dot {
                            seg = Segment::PreRelease;
                            prev = PrevToken::Empty;
                        } else {
                            return Err(ParseError::InvalidTokenAt(i));
                        }
                    },
                    Token::Plus => {
                        if prev != PrevToken::Dot {
                            seg = Segment::Metadata;
                            prev = PrevToken::Empty;
                        } else {
                            return Err(ParseError::InvalidTokenAt(i));
                        }
                    },
                    _ => {
                        return Err(ParseError::InvalidTokenAt(i));
                    },
                }
            },
            Segment::PreRelease => {
                match t {
                    Token::Dot => {
                        if prev == PrevToken::Number || prev == PrevToken::Ident {
                            prev = PrevToken::Dot;
                        } else if prev == PrevToken::Hyphen {
                            let ghost pre0 = pre.deep_view();
                            pre.push(hyph);
                            hyph = String::new();
                            prev = PrevToken::Dot;
                            proof {
                                assert(pre.deep_view() =~= pre0.push(st0.hyph));
                                assert(hyph@ =~= Seq::<char>::empty());
                            }
                        } else {
                            return Err(ParseError::InvalidTokenAt(i));
                        }
                    },
                    Token::Hyphen => {
                        if prev == PrevToken::Dot || prev == PrevToken::Hyphen {
                            push_char(&mut hyph, '-');
                            prev = PrevToken::Hyphen;
                        } else {
                            return Err(ParseError::InvalidTokenAt(i));
                        }
                    },
                    Token::AlphaNumeric(id) => {
                        if prev == PrevToken::Empty || prev == PrevToken::Dot || prev
                            == PrevToken::Hyphen {
                            let ghost pre0 = pre.deep_view();
                            let mut entry = hyph;
                            entry.append(id.as_str());
                            pre.push(entry);
                            hyph = String::new();
                            prev = PrevToken::Ident;
                            proof {
                                assert(pre.deep_view() =~= pre0.push(st0.hyph + id@));
                                assert(hyph@ =~= Seq::<char>::empty());
                            }
                        } else {
                            return Err(ParseError::InvalidTokenAt(i));
                        }
                    },
                    Token::Number(num) => {
                        if prev == PrevToken::Empty || prev == PrevToken::Dot || prev
                            == PrevToken::Hyphen {
                            let ghost pre0 = pre.deep_view();
                            let mut entry = hyph;
                            let rendered = u32_to_dec(*num);
                            entry.append(rendered.as_str());
                            pre.push(entry);
                            hyph = String::new();
                            prev = PrevToken::Number;
                            proof {
                                assert(pre.deep_view() =~= pre0.push(
                                    st0.hyph + dec_digits(*num as nat),
                                ));
                                assert(hyph@ =~= Seq::<char>::empty());
                            }
                        } else {
                            return Err(ParseError::InvalidTokenAt(i));
                        }
                    },
                    Token::Plus => {
                        if prev != PrevToken::Dot {
                            seg = Segment::Metadata;
                            prev = PrevToken::Empty;
                        } else {
                            return Err(ParseError::InvalidTokenAt(i));
                        }
                    },
                    _ => {
                        return Err(ParseError::InvalidTokenAt(i));
                    },
                }
            },
            Segment::Metadata => {
                match t {
                    Token::Dot => {
                        if prev == PrevToken::Number || prev == PrevToken::Ident {
                            prev = PrevToken::Dot;
                        } else if prev == PrevToken::Hyphen {
                            let ghost meta0 = meta.deep_view();
                            meta.push(hyph);
                            hyph = String::new();
                            prev = PrevToken::Dot;
                            proof {
                                assert(meta.deep_view() =~= meta0.push(st0.hyph));
                                assert(hyph@ =~= Seq::<char>::empty());
                            }
                        } else {
                            return Err(ParseError::InvalidTokenAt(i));
                        }
                    },
                    Token::Hyphen => {
                        if prev == PrevToken::Dot || prev == PrevToken::Hyphen {
                            push_char(&mut hyph, '-');
                            prev = PrevToken::Hyphen;
                        } else {
                            return Err(ParseError::InvalidTokenAt(i));
                        }
                    },
                    Token::AlphaNumeric(id) => {
                        if prev == PrevToken::Empty || prev == PrevToken::Dot || prev
                            == PrevToken::Hyphen {
                            let ghost meta0 = meta.deep_view();
                            let mut entry = hyph;
                            entry.append(id.as_str());
                            meta.push(entry);
                            hyph = String::new();
                            prev = PrevToken::Ident;
                            proof {
                                assert(meta.deep_view() =~= meta0.push(st0.hyph + id@));
                                assert(hyph@ =~= Seq::<char>::empty());
                            }
                        } else {
                            return Err(ParseError::InvalidTokenAt(i));
                        }
                    },
                    Token::Number(num) => {
                        if prev == PrevToken::Empty || prev == PrevToken::Dot || prev
                            == PrevToken::Hyphen {
                            let ghost meta0 = meta.deep_view();
                            let mut entry = hyph;
                            let rendered = u32_to_dec(*num);
                            entry.append(rendered.as_str());
                            meta.push(entry);
                            hyph = String::new();
                            prev = PrevToken::Number;
                            proof {
                                assert(meta.deep_view() =~= meta0.push(
                                    st0.hyph + dec_digits(*num as nat),
                                ));
                                assert(hyph@ =~= Seq::<char>::empty());
                            }
                        } else {
                            return Err(ParseError::InvalidTokenAt(i));
                        }
                    },
                    _ => {
                        return Err(ParseError::InvalidTokenAt(i));
                    },
                }
            },
        }
        proof {
            let st1 = st_of(
                seg,
                prev,
                hyph@,
                major,
                minor,
                patch,
                pre.deep_view(),
                meta.deep_view(),
            );
            assert(step(st0, ts[i as int]) == Some(st1));
        }
        i = i + 1;
    }
    match major {
        None => Err(ParseError::MissingSymbolAt(0)),
        Some(maj) => {
            let v = Version {
                major: maj,
                minor: match minor {
                    Some(m) => m,
                    None => 0,
                },
                patch: match patch {
                    Some(p) => p,
                    None => 0,
                },
                pre_release: pre,
                metadata: meta,
            };
            proof {
                assert(spec_build_version(ts) matches Ok(w) && w =~= v@);
            }
            Ok(v)
        },
    }
}

/// Identifiers joined with a dot between each two.
pub open spec fn join_dot(parts: Seq<Seq<char>>) -> Seq<char>
    decreases parts.len(),
{
    if parts.len() == 0 {
        Seq::empty()
    } else if parts.len() == 1 {
        parts[0]
    } else {
        join_dot(parts.drop_last()) + seq!['.'] + parts.last()
    }
}

/// The textual rendering of a version: `MAJOR.MINOR.PATCH`, then the
/// pre-release identifiers and the metadata identifiers, each list joined
/// with dots and introduced by a hyphen. The hyphen before the metadata
/// mirrors the pre-release introducer rather than the `+` that the parser
/// accepts there.
pub open spec fn spec_display_version(v: VersionView) -> Seq<char> {
    dec_digits(v.major as nat) + seq!['.'] + dec_digits(v.minor as nat) + seq!['.'] + dec_digits(
        v.patch as nat,
    ) + (if v.pre_release.len() > 0 {
        seq!['-'] + join_dot(v.pre_release)
    } else {
        Seq::<char>::empty()
    }) + (if v.metadata.len() > 0 {
        seq!['-'] + join_dot(v.metadata)
    } else {
        Seq::<char>::empty()
    })
}

/// Appends the identifiers to the string, joined with dots.
fn append_joined(s: &mut String, parts: &Vec<String>)
    requires
        parts@.len() > 0,
    ensures
        final(s)@ == old(s)@ + join_dot(parts.deep_view()),
{
    let n: usize = parts.len();
    let mut k: usize = 0;
    while k < n
        invariant
            0 <= k <= n,
            n == parts@.len(),
            n > 0,
            k == 0 ==> s@ == old(s)@,
            k > 0 ==> s@ == old(s)@ + join_dot(parts.deep_view().take(k as int)),
        decreases n - k,
    {
        let ghost prefix = parts.deep_view().take(k as int);
        if k > 0 {
            push_char(s, '.');
        }
        s.append(parts[k].as_str());
        k = k + 1;
        proof {
            let upto = parts.deep_view().take(k as int);
            assert(upto.drop_last() =~= prefix);
            assert(upto.last() == parts.deep_view()[k - 1]);
            if k == 1 {
                assert(join_dot(upto) == parts.deep_view()[0]);
                assert(s@ =~= old(s)@ + join_dot(upto));
            } else {
                assert(join_dot(upto) == join_dot(prefix) + seq!['.'] + parts.deep_view()[k - 1]);
                assert(s@ =~= old(s)@ + join_dot(upto));
            }
        }
    }
    proof {
        assert(parts.deep_view().take(n as int) =~= parts.deep_view());
    }
}


/// The version that a plain `MAJOR[.MINOR[.PATCH]]` input yields: unset
/// trailing components are zero, and no identifiers.
pub open spec fn core_version(major: u32, minor: u32, patch: u32) -> VersionView {
    VersionView {
        major,
        minor,
        patch,
        pre_release: Seq::empty(),
        metadata: Seq::empty(),
    }
}

/// A sole number token builds the version `a.0.0`.
proof fn lemma_build_major(a: u32)
    ensures
        spec_build_version(seq![TokenView::Number(a)]) == Ok::<VersionView, ParseError>(
            core_version(a, 0, 0),
        ),
{
    let ts = seq![TokenView::Number(a)];
    let st0 = init_state();
    let st1 = step(st0, ts[0])->Some_0;
    assert(step(st0, ts[0]) is Some);
    assert(run_build(st0, ts, 0) == run_build(st1, ts, 1));
    assert(run_build(st1, ts, 1) == finish_state(st1));
    assert(finish_state(st1)->Ok_0 =~= core_version(a, 0, 0));
}

/// `number dot number` builds the version `a.b.0`.
proof fn lemma_build_major_minor(a: u32, b: u32)
    ensures
        spec_build_version(seq![TokenView::Number(a), TokenView::Dot, TokenView::Number(b)])
            == Ok::<VersionView, ParseError>(core_version(a, b, 0)),
{
    let ts = seq![TokenView::Number(a), TokenView::Dot, TokenView::Number(b)];
    let st0 = init_state();
    let st1 = step(st0, ts[0])->Some_0;
    assert(step(st0, ts[0]) is Some);
    let st2 = step(st1, ts[1])->Some_0;
    assert(step(st1, ts[1]) is Some);
    let st3 = step(st2, ts[2])->Some_0;
    assert(step(st2, ts[2]) is Some);
    assert(run_build(st0, ts, 0) == run_build(st1, ts, 1));
    assert(run_build(st1, ts, 1) == run_build(st2, ts, 2));
    assert(run_build(st2, ts, 2) == run_build(st3, ts, 3));
    assert(run_build(st3, ts, 3) == finish_state(st3));
    assert(finish_state(st3)->Ok_0 =~= core_version(a, b, 0));
}

/// `number dot number dot number` builds the version `a.b.c`.
proof fn lemma_build_major_minor_patch(a: u32, b: u32, c: u32)
    ensures
        spec_build_version(
            seq![
                TokenView::Number(a),
                TokenView::Dot,
                TokenView::Number(b),
                TokenView::Dot,
                TokenView::Number(c),
            ],
        ) == Ok::<VersionView, ParseError>(core_version(a, b, c)),
{
    let ts = seq![
        TokenView::Number(a),
        TokenView::Dot,
        TokenView::Number(b),
        TokenView::Dot,
        TokenView::Number(c),
    ];
    let st0 = init_state();
    let st1 = step(st0, ts[0])->Some_0;
    assert(step(st0, ts[0]) is Some);
    let st2 = step(st1, ts[1])->Some_0;
    assert(step(st1, ts[1]) is Some);
    let st3 = step(st2, ts[2])->Some_0;
    assert(step(st2, ts[2]) is Some);
    let st4 = step(st3, ts[3])->Some_0;
    assert(step(st3, ts[3]) is Some);
    let st5 = step(st4, ts[4])->Some_0;
    assert(step(st4, ts[4]) is Some);
    assert(run_build(st0, ts, 0) == run_build(st1, ts, 1));
    assert(run_build(st1, ts, 1) == run_build(st2, ts, 2));
    assert(run_build(st2, ts, 2) == run_build(st3, ts, 3));
    assert(run_build(st3, ts, 3) == run_build(st4, ts, 4));
    assert(run_build(st4, ts, 4) == run_build(st5, ts, 5));
    assert(run_build(st5, ts, 5) == finish_state(st5));
    assert(finish_state(st5)->Ok_0 =~= core_version(a, b, c));
}

/// A numeral alone parses to its value as major, with minor and patch zero.
pub proof fn lemma_parse_core_major(d: Seq<char>)
    requires
        is_numeral(d),
    ensures
        spec_version_parse(d) == Ok::<VersionView, ParseError>(
            core_version(digits_val(d) as u32, 0, 0),
        ),
{
    assert forall|i: int| 0 <= i < d.len() implies !is_space_char(#[trigger] d[i]) by {
        assert(is_digit_char(d[i]));
    }
    lemma_trim_no_space(d);
    assert(d + Seq::<char>::empty() =~= d);
    lemma_tokenize_numeral(d, d, Seq::empty());
    assert(spec_tokenize_rest(Seq::<char>::empty()) == Ok::<Seq<TokenView>, ParseError>(
        Seq::empty(),
    ));
    assert(seq![TokenView::Number(digits_val(d) as u32)] + Seq::<TokenView>::empty()
        =~= seq![TokenView::Number(digits_val(d) as u32)]);
    assert(is_digit_char(d[0]));
    assert(spec_tokenize(d) == spec_tokenize_rest(d));
    lemma_build_major(digits_val(d) as u32);
}

/// Two dot-separated numerals parse to major and minor, with patch zero.
pub proof fn lemma_parse_core_major_minor(d1: Seq<char>, d2: Seq<char>)
    requires
        is_numeral(d1),
        is_numeral(d2),
    ensures
        spec_version_parse(d1 + seq!['.'] + d2) == Ok::<VersionView, ParseError>(
            core_version(digits_val(d1) as u32, digits_val(d2) as u32, 0),
        ),
{
    let s = d1 + seq!['.'] + d2;
    let rest1 = seq!['.'] + d2;
    assert(s =~= d1 + rest1);
    assert forall|i: int| 0 <= i < s.len() implies !is_space_char(#[trigger] s[i]) by {
        if i < d1.len() {
            assert(s[i] == d1[i]);
            assert(is_digit_char(d1[i]));
        } else if i == d1.len() {
            assert(s[i] == '.');
        } else {
            assert(s[i] == d2[i - d1.len() - 1]);
            assert(is_digit_char(d2[i - d1.len() - 1]));
        }
    }
    lemma_trim_no_space(s);
    lemma_tokenize_numeral(s, d1, rest1);
    assert(rest1[0] == '.');
    assert(rest1.skip(1) =~= d2);
    assert(d2 + Seq::<char>::empty() =~= d2);
    lemma_tokenize_numeral(d2, d2, Seq::empty());
    assert(spec_tokenize_rest(Seq::<char>::empty()) == Ok::<Seq<TokenView>, ParseError>(
        Seq::empty(),
    ));
    let a = digits_val(d1) as u32;
    let b = digits_val(d2) as u32;
    assert(spec_tokenize_rest(d2) == Ok::<Seq<TokenView>, ParseError>(
        seq![TokenView::Number(b)] + Seq::<TokenView>::empty(),
    ));
    assert(spec_tokenize_rest(rest1) == prepend_tokens(
        seq![TokenView::Dot],
        spec_tokenize_rest(d2),
    ));
    assert(spec_tokenize_rest(s) == prepend_tokens(
        seq![TokenView::Number(a)],
        spec_tokenize_rest(rest1),
    ));
    assert(seq![TokenView::Number(a)] + (seq![TokenView::Dot] + (seq![TokenView::Number(b)]
        + Seq::<TokenView>::empty())) =~= seq![
        TokenView::Number(a),
        TokenView::Dot,
        TokenView::Number(b),
    ]);
    assert(s[0] == d1[0]);
    assert(is_digit_char(d1[0]));
    assert(spec_tokenize(s) == spec_tokenize_rest(s));
    lemma_build_major_minor(a, b);
}

/// Three dot-separated numerals parse to major, minor and patch.
#[verifier::rlimit(50)]
pub proof fn lemma_parse_core_major_minor_patch(d1: Seq<char>, d2: Seq<char>, d3: Seq<char>)
    requires
        is_numeral(d1),
        is_numeral(d2),
        is_numeral(d3),
    ensures
        spec_version_parse(d1 + seq!['.'] + d2 + seq!['.'] + d3) == Ok::<
            VersionView,
            ParseError,
        >(core_version(digits_val(d1) as u32, digits_val(d2) as u32, digits_val(d3) as u32)),
{
    let s = d1 + seq!['.'] + d2 + seq!['.'] + d3;
    let rest2 = seq!['.'] + d3;
    let mid = d2 + rest2;
    let rest1 = seq!['.'] + mid;
    assert(s =~= d1 + rest1);
    assert forall|i: int| 0 <= i < s.len() implies !is_space_char(#[trigger] s[i]) by {
        if i < d1.len() {
            assert(s[i] == d1[i]);
            assert(is_digit_char(d1[i]));
        } else if i == d1.len() {
            assert(s[i] == '.');
        } else if i < d1.len() + 1 + d2.len() {
            assert(s[i] == d2[i - d1.len() - 1]);
            assert(is_digit_char(d2[i - d1.len() - 1]));
        } else if i == d1.len() + 1 + d2.len() {
            assert(s[i] == '.');
        } else {
            assert(s[i] == d3[i - d1.len() - d2.len() - 2]);
            assert(is_digit_char(d3[i - d1.len() - d2.len() - 2]));
        }
    }
    lemma_trim_no_space(s);
    let a = digits_val(d1) as u32;
    let b = digits_val(d2) as u32;
    let c = digits_val(d3) as u32;
    lemma_tokenize_numeral(s, d1, rest1);
    assert(rest1[0] == '.');
    assert(rest1.skip(1) =~= mid);
    lemma_tokenize_numeral(mid, d2, rest2);
    assert(rest2[0] == '.');
    assert(rest2.skip(1) =~= d3);
    assert(d3 + Seq::<char>::empty() =~= d3);
    lemma_tokenize_numeral(d3, d3, Seq::empty());
    assert(spec_tokenize_rest(Seq::<char>::empty()) == Ok::<Seq<TokenView>, ParseError>(
        Seq::empty(),
    ));
    assert(spec_tokenize_rest(d3) == Ok::<Seq<TokenView>, ParseError>(
        seq![TokenView::Number(c)] + Seq::<TokenView>::empty(),
    ));
    assert(spec_tokenize_rest(rest2) == prepend_tokens(
        seq![TokenView::Dot],
        spec_tokenize_rest(d3),
    ));
    assert(spec_tokenize_rest(mid) == prepend_tokens(
        seq![TokenView::Number(b)],
        spec_tokenize_rest(rest2),
    ));
    assert(spec_tokenize_rest(rest1) == prepend_tokens(
        seq![TokenView::Dot],
        spec_tokenize_rest(mid),
    ));
    assert(spec_tokenize_rest(s) == prepend_tokens(
        seq![TokenView::Number(a)],
        spec_tokenize_rest(rest1),
    ));
    assert(seq![TokenView::Number(a)] + (seq![TokenView::Dot] + (seq![TokenView::Number(b)] + (
    seq![TokenView::Dot] + (seq![TokenView::Number(c)] + Seq::<TokenView>::empty())))) =~= seq![
        TokenView::Number(a),
        TokenView::Dot,
        TokenView::Number(b),
        TokenView::Dot,
        TokenView::Number(c),
    ]);
    assert(s[0] == d1[0]);
    assert(is_digit_char(d1[0]));
    assert(spec_tokenize(s) == spec_tokenize_rest(s));
    lemma_build_major_minor_patch(a, b, c);
}

/// Round trip: a version without pre-release and metadata, rendered and
/// parsed again, comes back with the same major, minor and patch (and so,
/// having no identifiers, equal altogether).
pub proof fn lemma_display_roundtrip(v: VersionView)
    requires
        v.pre_release.len() == 0,
        v.metadata.len() == 0,
    ensures
        spec_version_parse(spec_display_version(v)) == Ok::<VersionView, ParseError>(v),
{
    let d1 = dec_digits(v.major as nat);
    let d2 = dec_digits(v.minor as nat);
    let d3 = dec_digits(v.patch as nat);
    lemma_dec_digits_numeral(v.major);
    lemma_dec_digits_numeral(v.minor);
    lemma_dec_digits_numeral(v.patch);
    lemma_dec_digits(v.major as nat);
    lemma_dec_digits(v.minor as nat);
    lemma_dec_digits(v.patch as nat);
    assert(spec_display_version(v) =~= d1 + seq!['.'] + d2 + seq!['.'] + d3);
    lemma_parse_core_major_minor_patch(d1, d2, d3);
    assert(core_version(digits_val(d1) as u32, digits_val(d2) as u32, digits_val(d3) as u32)
        =~= v);
}

impl Version {
    /// Renders the version as text, as `spec_display_version` lays it out.
    pub fn to_display_string(&self) -> (s: String)
        ensures
            s@ == spec_display_version(self@),
    {
        let mut s = u32_to_dec(self.major);
        push_char(&mut s, '.');
        let minor = u32_to_dec(self.minor);
        s.append(minor.as_str());
        push_char(&mut s, '.');
        let patch = u32_to_dec(self.patch);
        s.append(patch.as_str());
        let ghost core = s@;
        proof {
            assert(core =~= dec_digits(self.major as nat) + seq!['.'] + dec_digits(
                self.minor as nat,
            ) + seq!['.'] + dec_digits(self.patch as nat));
        }
        if self.pre_release.len() > 0 {
            push_char(&mut s, '-');
            append_joined(&mut s, &self.pre_release);
        }
        let ghost with_pre = s@;
        proof {
            if self.pre_release.len() > 0 {
                assert(with_pre =~= core + (seq!['-'] + join_dot(self@.pre_release)));
            } else {
                assert(with_pre =~= core + Seq::<char>::empty());
            }
        }
        if self.metadata.len() > 0 {
            push_char(&mut s, '-');
            append_joined(&mut s, &self.metadata);
        }
        proof {
            if self.metadata.len() > 0 {
                assert(s@ =~= with_pre + (seq!['-'] + join_dot(self@.metadata)));
            } else {
                assert(s@ =~= with_pre + Seq::<char>::empty());
            }
            assert(s@ =~= spec_display_version(self@));
        }
        s
    }

    /// Parses a semantic-version string: the input is trimmed, a blank input
    /// is `EmptyInput`, and the token sequence drives the builder.
    pub fn parse(input: &str) -> (r: Result<Self, ParseError>)
        ensures
            r matches Ok(v) ==> spec_version_parse(input@) == Ok::<VersionView, ParseError>(v@),
            r matches Err(e) ==> spec_version_parse(input@) == Err::<VersionView, ParseError>(e),
    {
        let chars = str_chars(input);
        let (lo, hi) = trim_bounds(&chars);
        if lo == hi {
            proof {
                assert(spec_trim(input@).len() == 0);
            }
            return Err(ParseError::EmptyInput);
        }
        match tokenize_range(&chars, lo, hi) {
            Err(e) => Err(e),
            Ok(tokens) => {
                let slice = tokens.as_slice();
                proof {
                    assert(slice.deep_view() =~= tokens.deep_view());
                }
                build_from_tokens(slice)
            },
        }
    }
}


} // verus!
