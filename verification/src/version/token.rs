//! Lexical tokenization of version and condition strings.

use vstd::prelude::*;

use crate::chars::{
    all_digits, digit_val, digits_val, is_alnum_char, is_digit_char, is_numeral, char_is_alnum,
    char_is_digit, push_char,
};
use crate::version::ParseError;

verus! {

/// One lexical token. `Empty` marks "no token yet" in the version builder;
/// the tokenizer itself never produces it.
#[derive(Debug, PartialEq, Eq)]
pub enum Token {
    Empty,
    Asterisk,
    Dot,
    Hyphen,
    Plus,
    Greater,
    GreaterEqual,
    Less,
    LessEqual,
    Caret,
    Tilde,
    Or,
    Number(u32),
    AlphaNumeric(String),
}

/// The mathematical shape of a token: a lexeme is a character sequence.
pub ghost enum TokenView {
    Empty,
    Asterisk,
    Dot,
    Hyphen,
    Plus,
    Greater,
    GreaterEqual,
    Less,
    LessEqual,
    Caret,
    Tilde,
    Or,
    Number(u32),
    AlphaNumeric(Seq<char>),
}

impl View for Token {
    type V = TokenView;

    open spec fn view(&self) -> TokenView {
        match self {
            Token::Empty => TokenView::Empty,
            Token::Asterisk => TokenView::Asterisk,
            Token::Dot => TokenView::Dot,
            Token::Hyphen => TokenView::Hyphen,
            Token::Plus => TokenView::Plus,
            Token::Greater => TokenView::Greater,
            Token::GreaterEqual => TokenView::GreaterEqual,
            Token::Less => TokenView::Less,
            Token::LessEqual => TokenView::LessEqual,
            Token::Caret => TokenView::Caret,
            Token::Tilde => TokenView::Tilde,
            Token::Or => TokenView::Or,
            Token::Number(n) => TokenView::Number(*n),
            Token::AlphaNumeric(s) => TokenView::AlphaNumeric(s@),
        }
    }
}

impl DeepView for Token {
    type V = TokenView;

    open spec fn deep_view(&self) -> TokenView {
        self.view()
    }
}

/// Length of the longest prefix made of lexeme characters.
pub open spec fn alnum_run_len(s: Seq<char>) -> nat
    decreases s.len(),
{
    if s.len() > 0 && is_alnum_char(s[0]) {
        (1 + alnum_run_len(s.skip(1))) as nat
    } else {
        0
    }
}

/// `alnum_run_len` is the unique cut: everything before it is a lexeme
/// character and it stops at the end or at the first character that is not.
pub proof fn lemma_alnum_run_len_is(s: Seq<char>, k: nat)
    requires
        k <= s.len(),
        forall|i: int| 0 <= i < k ==> is_alnum_char(#[trigger] s[i]),
        k == s.len() || !is_alnum_char(s[k as int]),
    ensures
        alnum_run_len(s) == k,
    decreases s.len(),
{
    if k == 0 {
    } else {
        assert(is_alnum_char(s[0]));
        let t = s.skip(1);
        assert forall|i: int| 0 <= i < k - 1 implies is_alnum_char(#[trigger] t[i]) by {
            assert(t[i] == s[i + 1]);
        }
        if k < s.len() {
            assert(t[k - 1] == s[k as int]);
        }
        lemma_alnum_run_len_is(t, (k - 1) as nat);
    }
}

/// What a greedily collected lexeme becomes: a `Number` when it is all digits
/// and its value fits in `u32`, an `AlphaNumeric` lexeme otherwise.
pub open spec fn lexeme_token(lex: Seq<char>) -> TokenView {
    if all_digits(lex) && digits_val(lex) <= u32::MAX {
        TokenView::Number(digits_val(lex) as u32)
    } else {
        TokenView::AlphaNumeric(lex)
    }
}

/// Prepends already-produced tokens to the outcome of tokenizing the rest of
/// the input; an error swallows everything before it.
pub open spec fn prepend_tokens(ts: Seq<TokenView>, rest: Result<Seq<TokenView>, ParseError>) -> Result<
    Seq<TokenView>,
    ParseError,
> {
    match rest {
        Ok(more) => Ok(ts + more),
        Err(e) => Err(e),
    }
}

/// Tokenization after the optional `=`/`v` prefix was stripped.
///
/// Spaces and commas separate; `*` `.` `-` `+` `~` `^` map to one token each;
/// `>` and `<` extend greedily to `>=`/`<=`; `||` is the or-operator and a
/// lone `|` is invalid; a lone `0` is the number zero; any other lexeme
/// character opens a greedy run; everything else is rejected.
pub open spec fn spec_tokenize_rest(s: Seq<char>) -> Result<Seq<TokenView>, ParseError>
    decreases s.len(),
    via spec_tokenize_rest_decreases
{
    if s.len() == 0 {
        Ok(Seq::empty())
    } else {
        let c = s[0];
        if c == ' ' || c == ',' {
            spec_tokenize_rest(s.skip(1))
        } else if c == '*' {
            prepend_tokens(seq![TokenView::Asterisk], spec_tokenize_rest(s.skip(1)))
        } else if c == '.' {
            prepend_tokens(seq![TokenView::Dot], spec_tokenize_rest(s.skip(1)))
        } else if c == '-' {
            prepend_tokens(seq![TokenView::Hyphen], spec_tokenize_rest(s.skip(1)))
        } else if c == '+' {
            prepend_tokens(seq![TokenView::Plus], spec_tokenize_rest(s.skip(1)))
        } else if c == '0' {
            prepend_tokens(seq![TokenView::Number(0)], spec_tokenize_rest(s.skip(1)))
        } else if c == '~' {
            prepend_tokens(seq![TokenView::Tilde], spec_tokenize_rest(s.skip(1)))
        } else if c == '^' {
            prepend_tokens(seq![TokenView::Caret], spec_tokenize_rest(s.skip(1)))
        } else if c == '>' {
            if s.len() >= 2 && s[1] == '=' {
                prepend_tokens(seq![TokenView::GreaterEqual], spec_tokenize_rest(s.skip(2)))
            } else {
                prepend_tokens(seq![TokenView::Greater], spec_tokenize_rest(s.skip(1)))
            }
        } else if c == '<' {
            if s.len() >= 2 && s[1] == '=' {
                prepend_tokens(seq![TokenView::LessEqual], spec_tokenize_rest(s.skip(2)))
            } else {
                prepend_tokens(seq![TokenView::Less], spec_tokenize_rest(s.skip(1)))
            }
        } else if c == '|' {
            if s.len() >= 2 && s[1] == '|' {
                prepend_tokens(seq![TokenView::Or], spec_tokenize_rest(s.skip(2)))
            } else {
                Err(ParseError::InvalidToken('|'))
            }
        } else if is_alnum_char(c) {
            let k = 1 + alnum_run_len(s.skip(1));
            prepend_tokens(seq![lexeme_token(s.take(k as int))], spec_tokenize_rest(s.skip(k as int)))
        } else {
            Err(ParseError::InvalidToken(c))
        }
    }
}

#[via_fn]
proof fn spec_tokenize_rest_decreases(s: Seq<char>) {
    if s.len() > 0 {
        lemma_alnum_run_len_le(s.skip(1));
    }
}

proof fn lemma_alnum_run_len_le(s: Seq<char>)
    ensures
        alnum_run_len(s) <= s.len(),
    decreases s.len(),
{
    if s.len() > 0 && is_alnum_char(s[0]) {
        lemma_alnum_run_len_le(s.skip(1));
    }
}

/// Full tokenization: a single leading `=` or `v` is stripped first.
pub open spec fn spec_tokenize(s: Seq<char>) -> Result<Seq<TokenView>, ParseError> {
    if s.len() > 0 && (s[0] == '=' || s[0] == 'v') {
        spec_tokenize_rest(s.skip(1))
    } else {
        spec_tokenize_rest(s)
    }
}

/// Builds the lexeme that starts at `from` and runs to `to`, exclusive, and
/// decides whether it is a number or an alphanumeric identifier.
fn lexeme_to_token(v: &Vec<char>, from: usize, to: usize) -> (t: Token)
    requires
        from < to <= v@.len(),
        forall|m: int| from <= m < to ==> is_alnum_char(#[trigger] v@[m]),
    ensures
        t@ == lexeme_token(v@.subrange(from as int, to as int)),
{
    let mut lex = String::new();
    let mut num_ok = true;
    let mut acc: u32 = 0;
    let mut m: usize = from;
    proof {
        assert(v@.subrange(from as int, from as int) =~= Seq::<char>::empty());
    }
    while m < to
        invariant
            from <= m <= to <= v@.len(),
            lex@ == v@.subrange(from as int, m as int),
            num_ok <==> (all_digits(v@.subrange(from as int, m as int)) && digits_val(
                v@.subrange(from as int, m as int),
            ) <= u32::MAX),
            num_ok ==> acc == digits_val(v@.subrange(from as int, m as int)),
        decreases to - m,
    {
        let c = v[m];
        let ghost pre = v@.subrange(from as int, m as int);
        let ghost ext = v@.subrange(from as int, m as int + 1);
        proof {
            assert(ext.drop_last() =~= pre);
            assert(ext.last() == v@[m as int]);
            assert(digits_val(ext) == digits_val(pre) * 10 + digit_val(v@[m as int]));
        }
        push_char(&mut lex, c);
        if num_ok {
            if char_is_digit(c) {
                let d: u32 = crate::chars::digit_val_of(c);
                let wide: u64 = acc as u64 * 10 + d as u64;
                if wide > u32::MAX as u64 {
                    num_ok = false;
                    proof {
                        assert(digits_val(ext) > u32::MAX);
                    }
                } else {
                    acc = wide as u32;
                }
            } else {
                num_ok = false;
                proof {
                    assert(!is_digit_char(ext.last()));
                    assert(!all_digits(ext));
                }
            }
        } else {
            proof {
                if all_digits(ext) {
                    assert(all_digits(pre)) by {
                        assert(forall|i: int|
                            0 <= i < pre.len() ==> pre[i] == #[trigger] ext[i]);
                    }
                    assert(digits_val(pre) > u32::MAX);
                    assert(digits_val(pre) * 10 >= digits_val(pre));
                    assert(digits_val(ext) > u32::MAX);
                }
            }
        }
        m = m + 1;
        proof {
            assert(lex@ =~= v@.subrange(from as int, m as int));
        }
    }
    if num_ok {
        Token::Number(acc)
    } else {
        Token::AlphaNumeric(lex)
    }
}

/// Tokenizes the character range `[lo, hi)`, which stands for an already
/// trimmed input.
pub(crate) fn tokenize_range(v: &Vec<char>, lo: usize, hi: usize) -> (r: Result<
    Vec<Token>,
    ParseError,
>)
    requires
        lo <= hi <= v@.len(),
    ensures
        r matches Ok(ts) ==> spec_tokenize(v@.subrange(lo as int, hi as int)) == Ok::<
            Seq<TokenView>,
            ParseError,
        >(ts.deep_view()),
        r matches Err(e) ==> spec_tokenize(v@.subrange(lo as int, hi as int)) == Err::<
            Seq<TokenView>,
            ParseError,
        >(e),
{
    let ghost whole = v@.subrange(lo as int, hi as int);
    let start: usize = if lo < hi && (v[lo] == '=' || v[lo] == 'v') {
        lo + 1
    } else {
        lo
    };
    let ghost source = v@.subrange(start as int, hi as int);
    proof {
        if start != lo {
            assert(whole.skip(1) =~= source);
        }
        assert(spec_tokenize(whole) == spec_tokenize_rest(source));
    }
    let mut tokens: Vec<Token> = Vec::new();
    let mut i: usize = start;
    proof {
        assert(tokens.deep_view() =~= Seq::<TokenView>::empty());
    }
    while i < hi
        invariant
            lo <= start <= i <= hi <= v@.len(),
            source == v@.subrange(start as int, hi as int),
            spec_tokenize(v@.subrange(lo as int, hi as int)) == spec_tokenize_rest(source),
            spec_tokenize_rest(source) == prepend_tokens(
                tokens.deep_view(),
                spec_tokenize_rest(v@.subrange(i as int, hi as int)),
            ),
        decreases hi - i,
    {
        let ghost suffix = v@.subrange(i as int, hi as int);
        let ghost toks0 = tokens.deep_view();
        proof {
            assert(suffix[0] == v@[i as int]);
            if i + 1 < hi {
                assert(suffix[1] == v@[i as int + 1]);
            }
            assert(suffix.skip(1) =~= v@.subrange(i as int + 1, hi as int));
            if i + 2 <= hi {
                assert(suffix.skip(2) =~= v@.subrange(i as int + 2, hi as int));
            }
        }
        let c = v[i];
        if c == ' ' || c == ',' {
            i = i + 1;
        } else if c == '*' {
            tokens.push(Token::Asterisk);
            proof {
                assert(tokens.deep_view() =~= toks0.push(TokenView::Asterisk));
                lemma_step(toks0, TokenView::Asterisk, suffix, 1);
            }
            i = i + 1;
        } else if c == '.' {
            tokens.push(Token::Dot);
            proof {
                assert(tokens.deep_view() =~= toks0.push(TokenView::Dot));
                lemma_step(toks0, TokenView::Dot, suffix, 1);
            }
            i = i + 1;
        } else if c == '-' {
            tokens.push(Token::Hyphen);
            proof {
                assert(tokens.deep_view() =~= toks0.push(TokenView::Hyphen));
                lemma_step(toks0, TokenView::Hyphen, suffix, 1);
            }
            i = i + 1;
        } else if c == '+' {
            tokens.push(Token::Plus);
            proof {
                assert(tokens.deep_view() =~= toks0.push(TokenView::Plus));
                lemma_step(toks0, TokenView::Plus, suffix, 1);
            }
            i = i + 1;
        } else if c == '0' {
            tokens.push(Token::Number(0));
            proof {
                assert(tokens.deep_view() =~= toks0.push(TokenView::Number(0)));
                lemma_step(toks0, TokenView::Number(0), suffix, 1);
            }
            i = i + 1;
        } else if c == '~' {
            tokens.push(Token::Tilde);
            proof {
                assert(tokens.deep_view() =~= toks0.push(TokenView::Tilde));
                lemma_step(toks0, TokenView::Tilde, suffix, 1);
            }
            i = i + 1;
        } else if c == '^' {
            tokens.push(Token::Caret);
            proof {
                assert(tokens.deep_view() =~= toks0.push(TokenView::Caret));
                lemma_step(toks0, TokenView::Caret, suffix, 1);
            }
            i = i + 1;
        } else if c == '>' {
            if i + 1 < hi && v[i + 1] == '=' {
                tokens.push(Token::GreaterEqual);
                proof {
                    assert(tokens.deep_view() =~= toks0.push(TokenView::GreaterEqual));
                    lemma_step(toks0, TokenView::GreaterEqual, suffix, 2);
                }
                i = i + 2;
            } else {
                tokens.push(Token::Greater);
                proof {
                    assert(tokens.deep_view() =~= toks0.push(TokenView::Greater));
                    lemma_step(toks0, TokenView::Greater, suffix, 1);
                }
                i = i + 1;
            }
        } else if c == '<' {
            if i + 1 < hi && v[i + 1] == '=' {
                tokens.push(Token::LessEqual);
                proof {
                    assert(tokens.deep_view() =~= toks0.push(TokenView::LessEqual));
                    lemma_step(toks0, TokenView::LessEqual, suffix, 2);
                }
                i = i + 2;
            } else {
                tokens.push(Token::Less);
                proof {
                    assert(tokens.deep_view() =~= toks0.push(TokenView::Less));
                    lemma_step(toks0, TokenView::Less, suffix, 1);
                }
                i = i + 1;
            }
        } else if c == '|' {
            if i + 1 < hi && v[i + 1] == '|' {
                tokens.push(Token::Or);
                proof {
                    assert(tokens.deep_view() =~= toks0.push(TokenView::Or));
                    lemma_step(toks0, TokenView::Or, suffix, 2);
                }
                i = i + 2;
            } else {
                return Err(ParseError::InvalidToken('|'));
            }
        } else if char_is_alnum(c) {
            let mut j: usize = i + 1;
            while j < hi && char_is_alnum(v[j])
                invariant
                    i < j <= hi <= v@.len(),
                    forall|m: int| i <= m < j ==> is_alnum_char(#[trigger] v@[m]),
                decreases hi - j,
            {
                j = j + 1;
            }
            proof {
                assert forall|m: int| 0 <= m < j - i implies is_alnum_char(
                    #[trigger] suffix[m],
                ) by {
                    assert(suffix[m] == v@[i + m]);
                }
                if j < hi {
                    assert(suffix[j - i] == v@[j as int]);
                }
                lemma_alnum_run_len_is(suffix, (j - i) as nat);
                assert(alnum_run_len(suffix) == 1 + alnum_run_len(suffix.skip(1)));
                assert(suffix.take(j - i) =~= v@.subrange(i as int, j as int));
                assert(suffix.skip(j - i) =~= v@.subrange(j as int, hi as int));
            }
            let t = lexeme_to_token(v, i, j);
            let ghost tv = t@;
            tokens.push(t);
            proof {
                assert(tokens.deep_view() =~= toks0.push(tv));
                assert(spec_tokenize_rest(suffix) == prepend_tokens(
                    seq![tv],
                    spec_tokenize_rest(suffix.skip(j - i)),
                ));
                lemma_step(toks0, tv, suffix, j - i);
            }
            i = j;
        } else {
            return Err(ParseError::InvalidToken(c));
        }
    }
    proof {
        assert(v@.subrange(i as int, hi as int) =~= Seq::<char>::empty());
        assert(spec_tokenize_rest(v@.subrange(i as int, hi as int)) == Ok::<
            Seq<TokenView>,
            ParseError,
        >(Seq::empty()));
        assert(tokens.deep_view() + Seq::<TokenView>::empty() =~= tokens.deep_view());
    }
    Ok(tokens)
}

/// One token was pushed and `consumed` characters of the suffix were eaten:
/// the composed outcome is unchanged.
proof fn lemma_step(toks0: Seq<TokenView>, tv: TokenView, suffix: Seq<char>, consumed: int)
    requires
        0 <= consumed <= suffix.len(),
        spec_tokenize_rest(suffix) == prepend_tokens(
            seq![tv],
            spec_tokenize_rest(suffix.skip(consumed)),
        ),
    ensures
        prepend_tokens(toks0.push(tv), spec_tokenize_rest(suffix.skip(consumed)))
            == prepend_tokens(toks0, spec_tokenize_rest(suffix)),
{
    lemma_prepend_assoc(toks0, tv, spec_tokenize_rest(suffix.skip(consumed)));
}

/// `toks0 ++ ([t] ++ rest) == (toks0 ++ [t]) ++ rest`, through the error case.
proof fn lemma_prepend_assoc(toks0: Seq<TokenView>, t: TokenView, rest: Result<Seq<TokenView>, ParseError>)
    ensures
        prepend_tokens(toks0, prepend_tokens(seq![t], rest)) == prepend_tokens(
            toks0.push(t),
            rest,
        ),
{
    match rest {
        Ok(more) => {
            assert(toks0 + (seq![t] + more) =~= toks0.push(t) + more);
        },
        Err(_) => {},
    }
}


/// A numeral at the head of the input, followed by nothing or by a character
/// that cannot extend a lexeme run, becomes exactly one `Number` token.
pub proof fn lemma_tokenize_numeral(s: Seq<char>, d: Seq<char>, rest: Seq<char>)
    requires
        s == d + rest,
        is_numeral(d),
        rest.len() == 0 || !is_alnum_char(rest[0]),
    ensures
        spec_tokenize_rest(s) == prepend_tokens(
            seq![TokenView::Number(digits_val(d) as u32)],
            spec_tokenize_rest(rest),
        ),
{
    assert(s.len() == d.len() + rest.len());
    assert(s[0] == d[0]);
    assert(is_digit_char(d[0]));
    if d[0] == '0' {
        assert(d.len() == 1);
        assert(s.skip(1) =~= rest);
        assert(d.drop_last() =~= Seq::<char>::empty());
        assert(digits_val(Seq::<char>::empty()) == 0);
        assert(digits_val(d) == digit_val('0'));
        assert(digits_val(d) == 0);
    } else {
        let t = s.skip(1);
        assert forall|m: int| 0 <= m < d.len() - 1 implies is_alnum_char(#[trigger] t[m]) by {
            assert(t[m] == s[m + 1]);
            assert(s[m + 1] == d[m + 1]);
            assert(is_digit_char(d[m + 1]));
        }
        if d.len() - 1 < t.len() {
            assert(t[d.len() - 1] == s[d.len() as int]);
            assert(s[d.len() as int] == rest[0]);
        }
        lemma_alnum_run_len_is(t, (d.len() - 1) as nat);
        let k = 1 + alnum_run_len(t);
        assert(k == d.len());
        assert(s.take(k as int) =~= d);
        assert(s.skip(k as int) =~= rest);
        assert(lexeme_token(d) == TokenView::Number(digits_val(d) as u32));
    }
}

/// Converts a raw string into its token sequence, or reports the first
/// offending character. A single leading `=` or `v` is accepted and ignored;
/// spaces and commas separate tokens.
pub fn tokenize(input: &str) -> (r: Result<Vec<Token>, ParseError>)
    ensures
        r matches Ok(ts) ==> spec_tokenize(input@) == Ok::<Seq<TokenView>, ParseError>(
            ts.deep_view(),
        ),
        r matches Err(e) ==> spec_tokenize(input@) == Err::<Seq<TokenView>, ParseError>(e),
{
    let v = crate::chars::str_chars(input);
    let n: usize = v.len();
    proof {
        assert(v@.subrange(0, n as int) =~= input@);
    }
    tokenize_range(&v, 0, n)
}

} // verus!
