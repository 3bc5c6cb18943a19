//! Lexical analysis: a raw character sequence becomes an ordered token
//! sequence, scanning left to right with maximal munch and no backtracking.

use vstd::prelude::*;
use vstd::string::StringExecFns;
use crate::errors::{Error, ErrorModel, push_char};

verus! {

// --- character classes ---

pub open spec fn spec_is_small(c: char) -> bool {
    'a' as u32 <= c as u32 && c as u32 <= 'z' as u32
}

pub open spec fn spec_is_large(c: char) -> bool {
    'A' as u32 <= c as u32 && c as u32 <= 'Z' as u32
}

pub open spec fn spec_is_letter(c: char) -> bool {
    spec_is_small(c) || spec_is_large(c) || c == '_'
}

pub open spec fn spec_is_digit(c: char) -> bool {
    '0' as u32 <= c as u32 && c as u32 <= '9' as u32
}

/// Membership in the reserved lexical set: anything outside it is an
/// unknown character.
pub open spec fn spec_is_character(c: char) -> bool {
    spec_is_letter(c) || spec_is_digit(c) || c == ':' || c == '=' || c == '\n'
}

/// A character that may continue an identifier.
pub open spec fn spec_is_ident_char(c: char) -> bool {
    spec_is_letter(c) || spec_is_digit(c)
}

#[verifier::when_used_as_spec(spec_is_small)]
pub fn is_small(c: char) -> (r: bool)
    ensures
        r == spec_is_small(c),
{
    'a' as u32 <= c as u32 && c as u32 <= 'z' as u32
}

#[verifier::when_used_as_spec(spec_is_large)]
pub fn is_large(c: char) -> (r: bool)
    ensures
        r == spec_is_large(c),
{
    'A' as u32 <= c as u32 && c as u32 <= 'Z' as u32
}

#[verifier::when_used_as_spec(spec_is_letter)]
pub fn is_letter(c: char) -> (r: bool)
    ensures
        r == spec_is_letter(c),
{
    is_small(c) || is_large(c) || c == '_'
}

#[verifier::when_used_as_spec(spec_is_digit)]
pub fn is_digit(c: char) -> (r: bool)
    ensures
        r == spec_is_digit(c),
{
    '0' as u32 <= c as u32 && c as u32 <= '9' as u32
}

#[verifier::when_used_as_spec(spec_is_character)]
pub fn is_character(c: char) -> (r: bool)
    ensures
        r == spec_is_character(c),
{
    is_letter(c) || is_digit(c) || c == ':' || c == '=' || c == '\n'
}

// --- tokens ---

/// Mathematical model of a [`Token`]: text payloads as character sequences.
pub enum TokenModel {
    Identifier(Seq<char>),
    IntLiteral(Seq<char>),
    Definion,
    Newline,
    EOF,
}

/// The smallest classified lexical unit.
///
/// - `Identifier(text)`: a maximal run of letters/digits/underscore not
///   starting with a digit.
/// - `IntLiteral(text)`: a maximal run of decimal digits.
/// - `Definion`: the two-character operator `:=`.
/// - `Newline`: one or more consecutive newline characters collapsed into
///   a single marker.
/// - `EOF`: the sentinel handed out when reading past the end of the token
///   sequence; never stored in the sequence itself.
#[derive(Debug, PartialEq)]
pub enum Token {
    Identifier(String),
    IntLiteral(String),
    Definion,
    Newline,
    EOF,
}

impl View for Token {
    type V = TokenModel;

    open spec fn view(&self) -> TokenModel {
        match self {
            Token::Identifier(s) => TokenModel::Identifier(s@),
            Token::IntLiteral(s) => TokenModel::IntLiteral(s@),
            Token::Definion => TokenModel::Definion,
            Token::Newline => TokenModel::Newline,
            Token::EOF => TokenModel::EOF,
        }
    }
}

/// The model of a whole token sequence.
pub open spec fn tokens_view(ts: Seq<Token>) -> Seq<TokenModel> {
    Seq::new(ts.len(), |i: int| ts[i]@)
}

/// The display form of a token, as error messages quote it.
pub open spec fn spec_token_display(t: TokenModel) -> Seq<char> {
    match t {
        TokenModel::Identifier(s) => "'"@ + s + "'"@,
        TokenModel::IntLiteral(s) => "'"@ + s + "'"@,
        TokenModel::Definion => "':='"@,
        TokenModel::Newline => "'\\n'"@,
        TokenModel::EOF => "EOF"@,
    }
}

impl Token {
    /// The display form of this token, quoted as error messages show it.
    pub fn display(&self) -> (out: String)
        ensures
            out@ == spec_token_display(self@),
    {
        match self {
            Token::Identifier(s) => {
                let mut out = String::from_str("'");
                out.append(s.as_str());
                out.append("'");
                out
            },
            Token::IntLiteral(s) => {
                let mut out = String::from_str("'");
                out.append(s.as_str());
                out.append("'");
                out
            },
            Token::Definion => String::from_str("':='"),
            Token::Newline => String::from_str("'\\n'"),
            Token::EOF => String::from_str("EOF"),
        }
    }
}

// --- the lexical rules, as functions over the character sequence ---

/// The first position at or after `i` that does not continue an
/// identifier.
pub open spec fn ident_end(s: Seq<char>, i: int) -> int
    decreases s.len() - i when 0 <= i <= s.len()
{
    if i < s.len() && spec_is_ident_char(s[i]) {
        ident_end(s, i + 1)
    } else {
        i
    }
}

/// The first position at or after `i` that is not a digit.
pub open spec fn digit_end(s: Seq<char>, i: int) -> int
    decreases s.len() - i when 0 <= i <= s.len()
{
    if i < s.len() && spec_is_digit(s[i]) {
        digit_end(s, i + 1)
    } else {
        i
    }
}

/// The first position at or after `i` that is not a newline.
pub open spec fn newline_end(s: Seq<char>, i: int) -> int
    decreases s.len() - i when 0 <= i <= s.len()
{
    if i < s.len() && s[i] == '\n' {
        newline_end(s, i + 1)
    } else {
        i
    }
}

pub proof fn lemma_ident_end(s: Seq<char>, i: int)
    requires
        0 <= i <= s.len(),
    ensures
        i <= ident_end(s, i) <= s.len(),
        forall|k: int| i <= k < ident_end(s, i) ==> spec_is_ident_char(#[trigger] s[k]),
        ident_end(s, i) < s.len() ==> !spec_is_ident_char(s[ident_end(s, i)]),
    decreases s.len() - i,
{
    if i < s.len() && spec_is_ident_char(s[i]) {
        lemma_ident_end(s, i + 1);
    }
}

pub proof fn lemma_digit_end(s: Seq<char>, i: int)
    requires
        0 <= i <= s.len(),
    ensures
        i <= digit_end(s, i) <= s.len(),
        forall|k: int| i <= k < digit_end(s, i) ==> spec_is_digit(#[trigger] s[k]),
        digit_end(s, i) < s.len() ==> !spec_is_digit(s[digit_end(s, i)]),
    decreases s.len() - i,
{
    if i < s.len() && spec_is_digit(s[i]) {
        lemma_digit_end(s, i + 1);
    }
}

pub proof fn lemma_newline_end(s: Seq<char>, i: int)
    requires
        0 <= i <= s.len(),
    ensures
        i <= newline_end(s, i) <= s.len(),
        forall|k: int| i <= k < newline_end(s, i) ==> #[trigger] s[k] == '\n',
        newline_end(s, i) < s.len() ==> s[newline_end(s, i)] != '\n',
    decreases s.len() - i,
{
    if i < s.len() && s[i] == '\n' {
        lemma_newline_end(s, i + 1);
    }
}

/// Prepends already-produced tokens to the outcome of lexing the rest of
/// the input; an error passes through unchanged.
pub open spec fn with_tokens(pre: Seq<TokenModel>, r: Result<Seq<TokenModel>, ErrorModel>) -> Result<
    Seq<TokenModel>,
    ErrorModel,
> {
    match r {
        Ok(rest) => Ok(pre + rest),
        Err(e) => Err(e),
    }
}

pub proof fn lemma_with_tokens_empty(r: Result<Seq<TokenModel>, ErrorModel>)
    ensures
        with_tokens(Seq::empty(), r) == r,
{
    match r {
        Ok(rest) => {
            assert(Seq::<TokenModel>::empty() + rest =~= rest);
        },
        Err(_) => {},
    }
}

pub proof fn lemma_with_tokens_assoc(
    a: Seq<TokenModel>,
    b: Seq<TokenModel>,
    r: Result<Seq<TokenModel>, ErrorModel>,
)
    ensures
        with_tokens(a, with_tokens(b, r)) == with_tokens(a + b, r),
{
    match r {
        Ok(rest) => {
            assert(a + (b + rest) =~= (a + b) + rest);
        },
        Err(_) => {},
    }
}

/// What lexing the input from position `i` onward yields: the token
/// sequence, or the first failure. Scanning rules are tried in priority
/// order at each position, each consuming a maximal run.
pub open spec fn spec_tokenize_at(s: Seq<char>, i: int) -> Result<Seq<TokenModel>, ErrorModel>
    decreases s.len() - i when 0 <= i <= s.len()
{
    if i >= s.len() {
        Ok(Seq::empty())
    } else {
        let c = s[i];
        if spec_is_letter(c) {
            let j = ident_end(s, i);
            proof {
                lemma_ident_end(s, i);
            }
            if j < s.len() && s[j] == '=' {
                Err(ErrorModel::TokenError('='))
            } else {
                with_tokens(
                    seq![TokenModel::Identifier(s.subrange(i, j))],
                    spec_tokenize_at(s, j),
                )
            }
        } else if spec_is_digit(c) {
            let j = digit_end(s, i);
            proof {
                lemma_digit_end(s, i);
            }
            if j < s.len() && (spec_is_letter(s[j]) || s[j] == '=') {
                Err(ErrorModel::TokenError(s[j]))
            } else {
                with_tokens(
                    seq![TokenModel::IntLiteral(s.subrange(i, j))],
                    spec_tokenize_at(s, j),
                )
            }
        } else if c == ':' {
            if i + 1 < s.len() {
                if s[i + 1] == '=' {
                    with_tokens(seq![TokenModel::Definion], spec_tokenize_at(s, i + 2))
                } else {
                    Err(ErrorModel::TokenError(s[i + 1]))
                }
            } else {
                Err(ErrorModel::TokenError(':'))
            }
        } else if c == '\n' {
            let j = newline_end(s, i);
            proof {
                lemma_newline_end(s, i);
            }
            with_tokens(seq![TokenModel::Newline], spec_tokenize_at(s, j))
        } else if c == ' ' {
            spec_tokenize_at(s, i + 1)
        } else if spec_is_character(c) {
            Err(ErrorModel::TokenError(c))
        } else {
            Err(ErrorModel::CharacterError(c))
        }
    }
}

/// What lexing the whole input yields.
pub open spec fn spec_tokenize(s: Seq<char>) -> Result<Seq<TokenModel>, ErrorModel> {
    spec_tokenize_at(s, 0)
}

/// Law: for any nonempty input consisting solely of letters and
/// underscores, lexing yields exactly one `Identifier` token whose text
/// equals the input.
pub proof fn lemma_letters_lex_to_one_identifier(s: Seq<char>)
    requires
        s.len() >= 1,
        forall|k: int| 0 <= k < s.len() ==> spec_is_letter(#[trigger] s[k]),
    ensures
        spec_tokenize(s) == Ok::<Seq<TokenModel>, ErrorModel>(
            seq![TokenModel::Identifier(s)],
        ),
{
    lemma_ident_end(s, 0);
    let j = ident_end(s, 0);
    assert(j == s.len());
    assert(s.subrange(0, j) =~= s);
    assert(spec_tokenize_at(s, j) == Ok::<Seq<TokenModel>, ErrorModel>(Seq::empty()));
    assert(seq![TokenModel::Identifier(s)] + Seq::<TokenModel>::empty() =~= seq![
        TokenModel::Identifier(s),
    ]);
    assert(spec_tokenize_at(s, 0) == with_tokens(
        seq![TokenModel::Identifier(s.subrange(0, j))],
        spec_tokenize_at(s, j),
    ));
}

/// Law: for any nonempty input consisting solely of digits, lexing yields
/// exactly one `IntLiteral` token whose text equals the input.
pub proof fn lemma_digits_lex_to_one_int_literal(s: Seq<char>)
    requires
        s.len() >= 1,
        forall|k: int| 0 <= k < s.len() ==> spec_is_digit(#[trigger] s[k]),
    ensures
        spec_tokenize(s) == Ok::<Seq<TokenModel>, ErrorModel>(
            seq![TokenModel::IntLiteral(s)],
        ),
{
    lemma_digit_end(s, 0);
    let j = digit_end(s, 0);
    assert(j == s.len());
    assert(s.subrange(0, j) =~= s);
    assert(!spec_is_letter(s[0]));
    assert(spec_tokenize_at(s, j) == Ok::<Seq<TokenModel>, ErrorModel>(Seq::empty()));
    assert(seq![TokenModel::IntLiteral(s)] + Seq::<TokenModel>::empty() =~= seq![
        TokenModel::IntLiteral(s),
    ]);
    assert(spec_tokenize_at(s, 0) == with_tokens(
        seq![TokenModel::IntLiteral(s.subrange(0, j))],
        spec_tokenize_at(s, j),
    ));
}

/// Law: any nonempty run of consecutive newline characters yields exactly
/// one `Newline` token, regardless of the run's length.
pub proof fn lemma_newline_run_lexes_to_one_newline(s: Seq<char>)
    requires
        s.len() >= 1,
        forall|k: int| 0 <= k < s.len() ==> #[trigger] s[k] == '\n',
    ensures
        spec_tokenize(s) == Ok::<Seq<TokenModel>, ErrorModel>(seq![TokenModel::Newline]),
{
    lemma_newline_end(s, 0);
    let j = newline_end(s, 0);
    assert(j == s.len());
    assert(!spec_is_letter(s[0]));
    assert(!spec_is_digit(s[0]));
    assert(s[0] != ':');
    assert(spec_tokenize_at(s, j) == Ok::<Seq<TokenModel>, ErrorModel>(Seq::empty()));
    assert(seq![TokenModel::Newline] + Seq::<TokenModel>::empty() =~= seq![TokenModel::Newline]);
    assert(spec_tokenize_at(s, 0) == with_tokens(
        seq![TokenModel::Newline],
        spec_tokenize_at(s, j),
    ));
}

/// Law: at whatever position the left-to-right scan stands, a character
/// outside the reserved lexical set (other than the skipped space) fails
/// the scan of the rest of the input with `CharacterError` naming that
/// exact character; `with_tokens` passes the error through unchanged, so
/// the whole scan fails with it.
pub proof fn lemma_unknown_character_fails_scan(s: Seq<char>, i: int)
    requires
        0 <= i < s.len(),
        !spec_is_character(s[i]),
        s[i] != ' ',
    ensures
        spec_tokenize_at(s, i) == Err::<Seq<TokenModel>, ErrorModel>(
            ErrorModel::CharacterError(s[i]),
        ),
        forall|pre: Seq<TokenModel>| with_tokens(pre, spec_tokenize_at(s, i)) == Err::<
            Seq<TokenModel>,
            ErrorModel,
        >(ErrorModel::CharacterError(s[i])),
{
}

// --- the lexer ---

/// The ordered token sequence produced from one source text, with the
/// cursor the scan ended at.
#[derive(Debug, PartialEq)]
pub struct TokenList {
    /// The tokens, in source order. No token is removed or rewritten after
    /// being pushed.
    pub tokens: Vec<Token>,
    /// The source characters the tokens were scanned from.
    pub source: Vec<char>,
    /// The scan cursor; after a successful scan it sits past the end.
    pub index: usize,
}

/// Collects the characters of a source text into a vector.
fn chars_of(code: &str) -> (v: Vec<char>)
    ensures
        v@ == code@,
{
    broadcast use vstd::string::axiom_spec_iter;

    let mut v: Vec<char> = Vec::new();
    for c in it: code.chars()
        invariant
            v@ =~= it.seq().take(it.index()),
    {
        v.push(c);
    }
    proof {
        assert(v@ =~= code@);
    }
    v
}

impl TokenList {
    /// Lexes a complete source text. Returns the token sequence exactly as
    /// the lexical rules describe it, or the first lexical failure.
    pub fn new(code: &str) -> (r: Result<TokenList, Error>)
        ensures
            match r {
                Ok(tl) => {
                    &&& spec_tokenize(code@) == Ok::<Seq<TokenModel>, ErrorModel>(
                        tokens_view(tl.tokens@),
                    )
                    &&& tl.source@ == code@
                    &&& tl.index == tl.source@.len()
                },
                Err(e) => spec_tokenize(code@) == Err::<Seq<TokenModel>, ErrorModel>(e@),
            },
    {
        let mut token_list = TokenList { tokens: Vec::new(), source: chars_of(code), index: 0 };
        match token_list.tokenize() {
            Ok(()) => Ok(token_list),
            Err(e) => Err(e),
        }
    }

    /// The character under the cursor.
    fn current(&self) -> (c: char)
        requires
            self.index < self.source.len(),
        ensures
            c == self.source@[self.index as int],
    {
        self.source[self.index]
    }

    /// Scans the whole source, dispatching on the character class under
    /// the cursor, until the input is exhausted or a rule fails.
    fn tokenize(&mut self) -> (r: Result<(), Error>)
        requires
            old(self).index == 0,
            old(self).tokens@.len() == 0,
        ensures
            final(self).source@ == old(self).source@,
            match r {
                Ok(()) => {
                    &&& spec_tokenize(old(self).source@) == Ok::<Seq<TokenModel>, ErrorModel>(
                        tokens_view(final(self).tokens@),
                    )
                    &&& final(self).index == old(self).source@.len()
                },
                Err(e) => spec_tokenize(old(self).source@) == Err::<Seq<TokenModel>, ErrorModel>(
                    e@,
                ),
            },
    {
        let ghost s = self.source@;
        proof {
            assert(tokens_view(self.tokens@) =~= Seq::<TokenModel>::empty());
            lemma_with_tokens_empty(spec_tokenize_at(s, 0));
        }
        while self.index < self.source.len()
            invariant
                old(self).source@ == s,
                self.source@ == s,
                self.index <= self.source.len(),
                spec_tokenize(s) == with_tokens(
                    tokens_view(self.tokens@),
                    spec_tokenize_at(s, self.index as int),
                ),
            decreases s.len() - self.index,
        {
            let ghost i = self.index as int;
            let ghost pre = tokens_view(self.tokens@);
            let c = self.current();
            if is_letter(c) {
                let ghost j = ident_end(s, i);
                match self.identifier() {
                    Ok(()) => {
                        proof {
                            lemma_ident_end(s, i);
                            assert(spec_tokenize_at(s, i) == with_tokens(
                                seq![TokenModel::Identifier(s.subrange(i, j))],
                                spec_tokenize_at(s, j),
                            ));
                            assert(tokens_view(self.tokens@) =~= pre + seq![
                                TokenModel::Identifier(s.subrange(i, j)),
                            ]);
                            lemma_with_tokens_assoc(
                                pre,
                                seq![TokenModel::Identifier(s.subrange(i, j))],
                                spec_tokenize_at(s, j),
                            );
                        }
                    },
                    Err(e) => {
                        return Err(e);
                    },
                }
            } else if is_digit(c) {
                let ghost j = digit_end(s, i);
                match self.int_literal() {
                    Ok(()) => {
                        proof {
                            lemma_digit_end(s, i);
                            assert(spec_tokenize_at(s, i) == with_tokens(
                                seq![TokenModel::IntLiteral(s.subrange(i, j))],
                                spec_tokenize_at(s, j),
                            ));
                            assert(tokens_view(self.tokens@) =~= pre + seq![
                                TokenModel::IntLiteral(s.subrange(i, j)),
                            ]);
                            lemma_with_tokens_assoc(
                                pre,
                                seq![TokenModel::IntLiteral(s.subrange(i, j))],
                                spec_tokenize_at(s, j),
                            );
                        }
                    },
                    Err(e) => {
                        return Err(e);
                    },
                }
            } else if c == ':' {
                match self.definion() {
                    Ok(()) => {
                        proof {
                            assert(spec_tokenize_at(s, i) == with_tokens(
                                seq![TokenModel::Definion],
                                spec_tokenize_at(s, i + 2),
                            ));
                            assert(tokens_view(self.tokens@) =~= pre + seq![
                                TokenModel::Definion,
                            ]);
                            lemma_with_tokens_assoc(
                                pre,
                                seq![TokenModel::Definion],
                                spec_tokenize_at(s, i + 2),
                            );
                        }
                    },
                    Err(e) => {
                        return Err(e);
                    },
                }
            } else if c == '\n' {
                let ghost j = newline_end(s, i);
                self.newline();
                proof {
                    lemma_newline_end(s, i);
                    assert(spec_tokenize_at(s, i) == with_tokens(
                        seq![TokenModel::Newline],
                        spec_tokenize_at(s, j),
                    ));
                    assert(tokens_view(self.tokens@) =~= pre + seq![TokenModel::Newline]);
                    lemma_with_tokens_assoc(pre, seq![TokenModel::Newline], spec_tokenize_at(s, j));
                }
            } else if c == ' ' {
                proof {
                    assert(spec_tokenize_at(s, i) == spec_tokenize_at(s, i + 1));
                }
                self.index = self.index + 1;
            } else if is_character(c) {
                return Err(Error::TokenError(c));
            } else {
                return Err(Error::CharacterError(c));
            }
        }
        proof {
            assert(spec_tokenize_at(s, s.len() as int) == Ok::<Seq<TokenModel>, ErrorModel>(
                Seq::empty(),
            ));
            assert(tokens_view(self.tokens@) + Seq::<TokenModel>::empty() =~= tokens_view(
                self.tokens@,
            ));
        }
        Ok(())
    }

    /// Consumes a maximal run of letters and digits into one `Identifier`
    /// token; an identifier cannot abut `=`.
    fn identifier(&mut self) -> (r: Result<(), Error>)
        requires
            old(self).index < old(self).source.len(),
            spec_is_ident_char(old(self).source@[old(self).index as int]),
        ensures
            final(self).source@ == old(self).source@,
            ({
                let s = old(self).source@;
                let i = old(self).index as int;
                let j = ident_end(s, i);
                match r {
                    Ok(()) => {
                        &&& !(j < s.len() && s[j] == '=')
                        &&& final(self).index as int == j
                        &&& tokens_view(final(self).tokens@) == tokens_view(
                            old(self).tokens@,
                        ).push(TokenModel::Identifier(s.subrange(i, j)))
                    },
                    Err(e) => {
                        &&& j < s.len() && s[j] == '='
                        &&& e@ == ErrorModel::TokenError('=')
                    },
                }
            }),
    {
        let ghost s = self.source@;
        let ghost i0 = self.index as int;
        let ghost toks0 = self.tokens@;
        proof {
            lemma_ident_end(s, i0);
        }
        let mut text = String::new();
        while self.index < self.source.len() && (is_letter(self.source[self.index]) || is_digit(
            self.source[self.index],
        ))
            invariant
                self.source@ == s,
                self.tokens@ == toks0,
                0 <= i0 <= self.index as int <= s.len(),
                ident_end(s, i0) == ident_end(s, self.index as int),
                text@ =~= s.subrange(i0, self.index as int),
            decreases s.len() - self.index,
        {
            let c = self.source[self.index];
            push_char(&mut text, c);
            self.index = self.index + 1;
            proof {
                assert(text@ =~= s.subrange(i0, self.index as int));
            }
        }
        let ghost j = ident_end(s, i0);
        proof {
            assert(ident_end(s, self.index as int) == self.index as int);
            assert(j == self.index as int);
        }
        if self.index < self.source.len() && self.current() == '=' {
            return Err(Error::TokenError('='));
        }
        self.tokens.push(Token::Identifier(text));
        proof {
            assert(tokens_view(self.tokens@) =~= tokens_view(old(self).tokens@).push(
                TokenModel::Identifier(s.subrange(i0, j)),
            ));
        }
        Ok(())
    }

    /// Consumes a maximal run of digits into one `IntLiteral` token;
    /// digits cannot abut a letter or `=`.
    fn int_literal(&mut self) -> (r: Result<(), Error>)
        requires
            old(self).index < old(self).source.len(),
            spec_is_digit(old(self).source@[old(self).index as int]),
        ensures
            final(self).source@ == old(self).source@,
            ({
                let s = old(self).source@;
                let i = old(self).index as int;
                let j = digit_end(s, i);
                match r {
                    Ok(()) => {
                        &&& !(j < s.len() && (spec_is_letter(s[j]) || s[j] == '='))
                        &&& final(self).index as int == j
                        &&& tokens_view(final(self).tokens@) == tokens_view(
                            old(self).tokens@,
                        ).push(TokenModel::IntLiteral(s.subrange(i, j)))
                    },
                    Err(e) => {
                        &&& j < s.len() && (spec_is_letter(s[j]) || s[j] == '=')
                        &&& e@ == ErrorModel::TokenError(s[j])
                    },
                }
            }),
    {
        let ghost s = self.source@;
        let ghost i0 = self.index as int;
        let ghost toks0 = self.tokens@;
        proof {
            lemma_digit_end(s, i0);
        }
        let mut text = String::new();
        while self.index < self.source.len() && is_digit(self.source[self.index])
            invariant
                self.source@ == s,
                self.tokens@ == toks0,
                0 <= i0 <= self.index as int <= s.len(),
                digit_end(s, i0) == digit_end(s, self.index as int),
                text@ =~= s.subrange(i0, self.index as int),
            decreases s.len() - self.index,
        {
            let c = self.source[self.index];
            push_char(&mut text, c);
            self.index = self.index + 1;
            proof {
                assert(text@ =~= s.subrange(i0, self.index as int));
            }
        }
        let ghost j = digit_end(s, i0);
        proof {
            assert(digit_end(s, self.index as int) == self.index as int);
            assert(j == self.index as int);
        }
        if self.index < self.source.len() {
            let c = self.current();
            if is_letter(c) || c == '=' {
                return Err(Error::TokenError(c));
            }
        }
        self.tokens.push(Token::IntLiteral(text));
        proof {
            assert(tokens_view(self.tokens@) =~= tokens_view(old(self).tokens@).push(
                TokenModel::IntLiteral(s.subrange(i0, j)),
            ));
        }
        Ok(())
    }

    /// Consumes `:=` into one `Definion` token; a `:` not immediately
    /// followed by `=` fails, naming the offending character.
    fn definion(&mut self) -> (r: Result<(), Error>)
        requires
            old(self).index < old(self).source.len(),
            old(self).source@[old(self).index as int] == ':',
        ensures
            final(self).source@ == old(self).source@,
            ({
                let s = old(self).source@;
                let i = old(self).index as int;
                match r {
                    Ok(()) => {
                        &&& i + 1 < s.len() && s[i + 1] == '='
                        &&& final(self).index as int == i + 2
                        &&& tokens_view(final(self).tokens@) == tokens_view(
                            old(self).tokens@,
                        ).push(TokenModel::Definion)
                    },
                    Err(e) => {
                        &&& (i + 1 < s.len() ==> s[i + 1] != '=' && e@ == ErrorModel::TokenError(
                            s[i + 1],
                        ))
                        &&& (i + 1 >= s.len() ==> e@ == ErrorModel::TokenError(':'))
                    },
                }
            }),
    {
        if self.index + 1 < self.source.len() {
            let c = self.source[self.index + 1];
            if c == '=' {
                self.tokens.push(Token::Definion);
                self.index = self.index + 2;
                proof {
                    assert(tokens_view(self.tokens@) =~= tokens_view(old(self).tokens@).push(
                        TokenModel::Definion,
                    ));
                }
                Ok(())
            } else {
                Err(Error::TokenError(c))
            }
        } else {
            Err(Error::TokenError(':'))
        }
    }

    /// Absorbs all immediately consecutive newline characters into a
    /// single `Newline` token.
    fn newline(&mut self)
        requires
            old(self).index < old(self).source.len(),
            old(self).source@[old(self).index as int] == '\n',
        ensures
            final(self).source@ == old(self).source@,
            final(self).index as int == newline_end(old(self).source@, old(self).index as int),
            tokens_view(final(self).tokens@) == tokens_view(old(self).tokens@).push(
                TokenModel::Newline,
            ),
    {
        let ghost s = self.source@;
        let ghost i0 = self.index as int;
        let ghost toks0 = self.tokens@;
        proof {
            lemma_newline_end(s, i0);
        }
        while self.index < self.source.len() && self.source[self.index] == '\n'
            invariant
                self.source@ == s,
                self.tokens@ == toks0,
                0 <= i0 <= self.index as int <= s.len(),
                newline_end(s, i0) == newline_end(s, self.index as int),
            decreases s.len() - self.index,
        {
            self.index = self.index + 1;
        }
        proof {
            assert(newline_end(s, self.index as int) == self.index as int);
        }
        self.tokens.push(Token::Newline);
        proof {
            assert(tokens_view(self.tokens@) =~= tokens_view(old(self).tokens@).push(
                TokenModel::Newline,
            ));
        }
    }
}

impl TokenList {
    /// The display form of this token sequence: the tokens' display
    /// forms, comma-separated inside square brackets.
    pub fn display(&self) -> (out: String)
        ensures
            out@ == spec_token_list_display(tokens_view(self.tokens@)),
    {
        let ghost tv = tokens_view(self.tokens@);
        let mut out = String::from_str("[");
        proof {
            assert(tv.take(0) =~= Seq::<TokenModel>::empty());
            assert("["@ + Seq::<char>::empty() =~= "["@);
        }
        for i in 0..self.tokens.len()
            invariant
                tv == tokens_view(self.tokens@),
                out@ == "["@ + spec_token_items(tv.take(i as int)),
        {
            if i != 0 {
                out.append(", ");
            }
            let rendered = self.tokens[i].display();
            out.append(rendered.as_str());
            proof {
                assert(tv.take(i + 1).drop_last() =~= tv.take(i as int));
                assert(tv.take(i + 1).last() == tv[i as int]);
                let sep: Seq<char> = if i == 0 {
                    Seq::empty()
                } else {
                    ", "@
                };
                assert(spec_token_items(tv.take(i + 1)) == (spec_token_items(tv.take(i as int))
                    + sep) + spec_token_display(tv[i as int]));
                assert(("["@ + spec_token_items(tv.take(i as int))) + sep + spec_token_display(
                    tv[i as int],
                ) =~= "["@ + ((spec_token_items(tv.take(i as int)) + sep) + spec_token_display(
                    tv[i as int],
                )));
            }
        }
        proof {
            assert(tv.take(tv.len() as int) =~= tv);
        }
        out.append("]");
        out
    }
}

/// The items of a token sequence's display form, comma-separated.
pub open spec fn spec_token_items(ts: Seq<TokenModel>) -> Seq<char>
    decreases ts.len(),
{
    if ts.len() == 0 {
        Seq::empty()
    } else {
        (spec_token_items(ts.drop_last()) + (if ts.len() == 1 {
            Seq::empty()
        } else {
            ", "@
        })) + spec_token_display(ts.last())
    }
}

/// The display form of a whole token sequence.
pub open spec fn spec_token_list_display(ts: Seq<TokenModel>) -> Seq<char> {
    ("["@ + spec_token_items(ts)) + "]"@
}

} // verus!
