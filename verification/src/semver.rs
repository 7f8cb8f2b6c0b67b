//! A reduced semantic-version parser: plain `MAJOR[.MINOR[.PATCH]]` strings
//! of numbers and dots only, with its own token and error types.

use vstd::prelude::*;

use crate::chars::{
    char_is_digit, digit_val, digits_val, is_digit_char, spec_trim, str_chars, trim_bounds,
};

verus! {

/// A plain version triple; components absent from the input are zero.
#[derive(Debug, Clone, Copy, PartialEq, Eq, Structural)]
pub struct Version {
    pub major: u32,
    pub minor: u32,
    pub patch: u32,
}

/// Why a parse failed. `InvalidTokenAt` and `MissingSymbolAt` carry a token
/// index, not a character offset.
#[derive(Debug, Clone, Copy, PartialEq, Eq, Structural)]
pub enum ParseError {
    /// The input was empty or whitespace-only.
    EmptyInput,
    /// The input held characters but produced no token (only separators).
    EmptyTokenList,
    /// An unrecognized character was met while tokenizing.
    InvalidToken(char),
    /// A token is invalid at its position, or a number does not fit in `u32`.
    InvalidTokenAt(usize),
    /// A required component (the major number) was never supplied.
    MissingSymbolAt(usize),
}

/// A token of the reduced grammar: a dot or a number.
#[derive(Debug, Clone, Copy, PartialEq, Eq, Structural)]
pub enum CoreToken {
    Dot,
    Number(u32),
}

/// Length of the longest prefix made of digits.
pub open spec fn digit_run_len(s: Seq<char>) -> nat
    decreases s.len(),
{
    if s.len() > 0 && is_digit_char(s[0]) {
        (1 + digit_run_len(s.skip(1))) as nat
    } else {
        0
    }
}

proof fn lemma_digit_run_len_le(s: Seq<char>)
    ensures
        digit_run_len(s) <= s.len(),
    decreases s.len(),
{
    if s.len() > 0 && is_digit_char(s[0]) {
        lemma_digit_run_len_le(s.skip(1));
    }
}

/// `digit_run_len` is the unique cut: digits up to it, and it stops at the
/// end or at the first character that is no digit.
pub proof fn lemma_digit_run_len_is(s: Seq<char>, k: nat)
    requires
        k <= s.len(),
        forall|i: int| 0 <= i < k ==> is_digit_char(#[trigger] s[i]),
        k == s.len() || !is_digit_char(s[k as int]),
    ensures
        digit_run_len(s) == k,
    decreases s.len(),
{
    if k == 0 {
    } else {
        assert(is_digit_char(s[0]));
        let t = s.skip(1);
        assert forall|i: int| 0 <= i < k - 1 implies is_digit_char(#[trigger] t[i]) by {
            assert(t[i] == s[i + 1]);
        }
        if k < s.len() {
            assert(t[k - 1] == s[k as int]);
        }
        lemma_digit_run_len_is(t, (k - 1) as nat);
    }
}

/// Prepends already-produced tokens to the outcome of tokenizing the rest of
/// the input; an error swallows everything before it.
pub open spec fn prepend_core(ts: Seq<CoreToken>, rest: Result<Seq<CoreToken>, ParseError>) -> Result<
    Seq<CoreToken>,
    ParseError,
> {
    match rest {
        Ok(more) => Ok(ts + more),
        Err(e) => Err(e),
    }
}

/// Tokenization of the reduced grammar. `cnt` counts the tokens already
/// produced, so that a number too large for `u32` is reported at its token
/// index. Spaces and commas separate; a lone `0` is the number zero; a digit
/// run is collected greedily; a dot is a token; anything else is rejected.
pub open spec fn spec_tokenize_core(s: Seq<char>, cnt: nat) -> Result<Seq<CoreToken>, ParseError>
    decreases s.len(),
    via spec_tokenize_core_decreases
{
    if s.len() == 0 {
        Ok(Seq::empty())
    } else {
        let c = s[0];
        if c == ' ' || c == ',' {
            spec_tokenize_core(s.skip(1), cnt)
        } else if c == '0' {
            prepend_core(seq![CoreToken::Number(0)], spec_tokenize_core(s.skip(1), cnt + 1))
        } else if is_digit_char(c) {
            let k = 1 + digit_run_len(s.skip(1));
            if digits_val(s.take(k as int)) <= u32::MAX {
                prepend_core(
                    seq![CoreToken::Number(digits_val(s.take(k as int)) as u32)],
                    spec_tokenize_core(s.skip(k as int), cnt + 1),
                )
            } else {
                Err(ParseError::InvalidTokenAt(cnt as usize))
            }
        } else if c == '.' {
            prepend_core(seq![CoreToken::Dot], spec_tokenize_core(s.skip(1), cnt + 1))
        } else {
            Err(ParseError::InvalidToken(c))
        }
    }
}

#[via_fn]
proof fn spec_tokenize_core_decreases(s: Seq<char>, cnt: nat) {
    if s.len() > 0 {
        lemma_digit_run_len_le(s.skip(1));
    }
}

/// The reduced grammar is positional: dots stand at indices 1 and 3, numbers
/// at 0, 2 and 4, and nothing stands further right.
pub open spec fn valid_core_at(i: int, t: CoreToken) -> bool {
    match t {
        CoreToken::Dot => i == 1 || i == 3,
        CoreToken::Number(_) => i == 0 || i == 2 || i == 4,
    }
}

/// The first index at or after `i` whose token is invalid for its position,
/// or the length when all are valid.
pub open spec fn first_bad(ts: Seq<CoreToken>, i: int) -> int
    decreases ts.len() - i,
{
    if i < 0 || i >= ts.len() {
        ts.len() as int
    } else if !valid_core_at(i, ts[i]) {
        i
    } else {
        first_bad(ts, i + 1)
    }
}

/// The number at index `i` (a dot reads as zero; never used on one).
pub open spec fn num_at(ts: Seq<CoreToken>, i: int) -> u32 {
    match ts[i] {
        CoreToken::Number(n) => n,
        CoreToken::Dot => 0,
    }
}

/// What building a version from the reduced tokens returns: the first
/// positionally invalid token is reported, else the numbers at indices 0, 2
/// and 4 fill major, minor and patch, absent ones as zero.
pub open spec fn spec_build_core(ts: Seq<CoreToken>) -> Result<Version, ParseError> {
    if ts.len() == 0 {
        Err(ParseError::EmptyTokenList)
    } else if first_bad(ts, 0) < ts.len() {
        Err(ParseError::InvalidTokenAt(first_bad(ts, 0) as usize))
    } else {
        Ok(Version {
            major: num_at(ts, 0),
            minor: if ts.len() >= 3 {
                num_at(ts, 2)
            } else {
                0
            },
            patch: if ts.len() >= 5 {
                num_at(ts, 4)
            } else {
                0
            },
        })
    }
}

/// What parsing a plain version string returns: trim, reject empty input,
/// tokenize, build.
pub open spec fn spec_simple_parse(s: Seq<char>) -> Result<Version, ParseError> {
    let t = spec_trim(s);
    if t.len() == 0 {
        Err(ParseError::EmptyInput)
    } else {
        match spec_tokenize_core(t, 0) {
            Err(e) => Err(e),
            Ok(ts) => spec_build_core(ts),
        }
    }
}

proof fn lemma_prepend_core_assoc(
    ts: Seq<CoreToken>,
    t: CoreToken,
    rest: Result<Seq<CoreToken>, ParseError>,
)
    ensures
        prepend_core(ts, prepend_core(seq![t], rest)) == prepend_core(ts.push(t), rest),
{
    match rest {
        Ok(more) => {
            assert(ts + (seq![t] + more) =~= ts.push(t) + more);
        },
        Err(_) => {},
    }
}

/// Tokenizes the character range `[lo, hi)`, which stands for an already
/// trimmed input.
fn tokenize_core(v: &Vec<char>, lo: usize, hi: usize) -> (r: Result<Vec<CoreToken>, ParseError>)
    requires
        lo <= hi <= v@.len(),
    ensures
        r matches Ok(ts) ==> spec_tokenize_core(v@.subrange(lo as int, hi as int), 0) == Ok::<
            Seq<CoreToken>,
            ParseError,
        >(ts@),
        r matches Err(e) ==> spec_tokenize_core(v@.subrange(lo as int, hi as int), 0) == Err::<
            Seq<CoreToken>,
            ParseError,
        >(e),
{
    let ghost source = v@.subrange(lo as int, hi as int);
    let mut tokens: Vec<CoreToken> = Vec::new();
    let mut i: usize = lo;
    proof {
        assert(tokens@ =~= Seq::<CoreToken>::empty());
    }
    while i < hi
        invariant
            lo <= i <= hi <= v@.len(),
            source == v@.subrange(lo as int, hi as int),
            spec_tokenize_core(source, 0) == prepend_core(
                tokens@,
                spec_tokenize_core(v@.subrange(i as int, hi as int), tokens@.len() as nat),
            ),
        decreases hi - i,
    {
        let ghost suffix = v@.subrange(i as int, hi as int);
        let ghost toks0 = tokens@;
        let ghost cnt0 = tokens@.len() as nat;
        proof {
            assert(suffix[0] == v@[i as int]);
            assert(suffix.skip(1) =~= v@.subrange(i as int + 1, hi as int));
        }
        let c = v[i];
        if c == ' ' || c == ',' {
            i = i + 1;
        } else if c == '0' {
            tokens.push(CoreToken::Number(0));
            proof {
                lemma_prepend_core_assoc(
                    toks0,
                    CoreToken::Number(0),
                    spec_tokenize_core(suffix.skip(1), cnt0 + 1),
                );
            }
            i = i + 1;
        } else if char_is_digit(c) {
            let mut j: usize = i + 1;
            while j < hi && char_is_digit(v[j])
                invariant
                    i < j <= hi <= v@.len(),
                    forall|m: int| i <= m < j ==> is_digit_char(#[trigger] v@[m]),
                decreases hi - j,
            {
                j = j + 1;
            }
            proof {
                assert forall|m: int| 0 <= m < j - i implies is_digit_char(
                    #[trigger] suffix[m],
                ) by {
                    assert(suffix[m] == v@[i + m]);
                }
                assert forall|m: int| 0 <= m < j - i - 1 implies is_digit_char(
                    #[trigger] suffix.skip(1)[m],
                ) by {
                    assert(suffix.skip(1)[m] == suffix[m + 1]);
                }
                if j < hi {
                    assert(suffix.skip(1)[j - i - 1] == suffix[j - i]);
                    assert(suffix[j - i] == v@[j as int]);
                }
                lemma_digit_run_len_is(suffix.skip(1), (j - i - 1) as nat);
                assert(suffix.take(j - i) =~= v@.subrange(i as int, j as int));
                assert(suffix.skip(j - i) =~= v@.subrange(j as int, hi as int));
            }
            // Read the run's value, watching for overflow.
            let ghost lexeme = v@.subrange(i as int, j as int);
            let mut fits = true;
            let mut acc: u32 = 0;
            let mut m: usize = i;
            proof {
                assert(v@.subrange(i as int, i as int) =~= Seq::<char>::empty());
            }
            while m < j
                invariant
                    i <= m <= j <= v@.len(),
                    forall|q: int| i <= q < j ==> is_digit_char(#[trigger] v@[q]),
                    fits <==> digits_val(v@.subrange(i as int, m as int)) <= u32::MAX,
                    fits ==> acc == digits_val(v@.subrange(i as int, m as int)),
                decreases j - m,
            {
                let ghost pre = v@.subrange(i as int, m as int);
                let ghost ext = v@.subrange(i as int, m as int + 1);
                proof {
                    assert(ext.drop_last() =~= pre);
                    assert(ext.last() == v@[m as int]);
                    assert(digits_val(ext) == digits_val(pre) * 10 + digit_val(v@[m as int]));
                    assert(digits_val(pre) * 10 >= digits_val(pre));
                }
                let d: u32 = crate::chars::digit_val_of(v[m]);
                if fits {
                    let wide: u64 = acc as u64 * 10 + d as u64;
                    if wide > u32::MAX as u64 {
                        fits = false;
                    } else {
                        acc = wide as u32;
                    }
                }
                m = m + 1;
            }
            if fits {
                tokens.push(CoreToken::Number(acc));
                proof {
                    lemma_prepend_core_assoc(
                        toks0,
                        CoreToken::Number(acc),
                        spec_tokenize_core(suffix.skip(j - i), cnt0 + 1),
                    );
                }
                i = j;
            } else {
                proof {
                    assert(spec_tokenize_core(suffix, cnt0) == Err::<Seq<CoreToken>, ParseError>(
                        ParseError::InvalidTokenAt(cnt0 as usize),
                    ));
                }
                return Err(ParseError::InvalidTokenAt(tokens.len()));
            }
        } else if c == '.' {
            tokens.push(CoreToken::Dot);
            proof {
                lemma_prepend_core_assoc(
                    toks0,
                    CoreToken::Dot,
                    spec_tokenize_core(suffix.skip(1), cnt0 + 1),
                );
            }
            i = i + 1;
        } else {
            return Err(ParseError::InvalidToken(c));
        }
    }
    proof {
        assert(v@.subrange(i as int, hi as int) =~= Seq::<char>::empty());
        assert(tokens@ + Seq::<CoreToken>::empty() =~= tokens@);
    }
    Ok(tokens)
}

/// Fills major, minor and patch from the tokens at their fixed positions, or
/// reports the first token that stands in a wrong place.
fn build_core_tokens(tokens: &Vec<CoreToken>) -> (r: Result<Version, ParseError>)
    ensures
        r matches Ok(v) ==> spec_build_core(tokens@) == Ok::<Version, ParseError>(v),
        r matches Err(e) ==> spec_build_core(tokens@) == Err::<Version, ParseError>(e),
{
    let ghost ts = tokens@;
    let n: usize = tokens.len();
    if n == 0 {
        return Err(ParseError::EmptyTokenList);
    }
    let mut major: Option<u32> = None;
    let mut minor: Option<u32> = None;
    let mut patch: Option<u32> = None;
    let mut i: usize = 0;
    while i < n
        invariant
            i <= n,
            n == ts.len(),
            ts == tokens@,
            first_bad(ts, 0) == first_bad(ts, i as int),
            i >= 1 ==> major == Some(num_at(ts, 0)),
            i == 0 ==> major is None,
            i >= 3 ==> minor == Some(num_at(ts, 2)),
            i < 3 ==> minor is None,
            i >= 5 ==> patch == Some(num_at(ts, 4)),
            i < 5 ==> patch is None,
        decreases n - i,
    {
        let t = tokens[i];
        match t {
            CoreToken::Dot => {
                if i == 1 || i == 3 {
                } else {
                    proof {
                        assert(!valid_core_at(i as int, ts[i as int]));
                        assert(first_bad(ts, i as int) == i);
                    }
                    return Err(ParseError::InvalidTokenAt(i));
                }
            },
            CoreToken::Number(num) => {
                if i == 0 {
                    major = Some(num);
                } else if i == 2 {
                    minor = Some(num);
                } else if i == 4 {
                    patch = Some(num);
                } else {
                    proof {
                        assert(!valid_core_at(i as int, ts[i as int]));
                        assert(first_bad(ts, i as int) == i);
                    }
                    return Err(ParseError::InvalidTokenAt(i));
                }
            },
        }
        proof {
            assert(valid_core_at(i as int, ts[i as int]));
            assert(first_bad(ts, i as int) == first_bad(ts, i as int + 1));
        }
        i = i + 1;
    }
    proof {
        assert(first_bad(ts, n as int) == n);
    }
    match major {
        Some(maj) => Ok(
            Version {
                major: maj,
                minor: match minor {
                    Some(b) => b,
                    None => 0,
                },
                patch: match patch {
                    Some(p) => p,
                    None => 0,
                },
            },
        ),
        None => {
            proof {
                assert(false);
            }
            Err(ParseError::MissingSymbolAt(0))
        },
    }
}

impl Version {
    /// Parses a plain version string: the input is trimmed, a blank input is
    /// `EmptyInput`, and the token sequence fills the triple positionally.
    pub fn parse(input: &str) -> (r: Result<Self, ParseError>)
        ensures
            r matches Ok(v) ==> spec_simple_parse(input@) == Ok::<Version, ParseError>(v),
            r matches Err(e) ==> spec_simple_parse(input@) == Err::<Version, ParseError>(e),
    {
        let chars = str_chars(input);
        let (lo, hi) = trim_bounds(&chars);
        if lo == hi {
            proof {
                assert(spec_trim(input@).len() == 0);
            }
            return Err(ParseError::EmptyInput);
        }
        match tokenize_core(&chars, lo, hi) {
            Err(e) => Err(e),
            Ok(tokens) => build_core_tokens(&tokens),
        }
    }
}

} // verus!
