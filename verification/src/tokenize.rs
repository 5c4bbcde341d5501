//! The lexical stage: scanning input text into a flat sequence of [`Token`]s.
//!
//! The scan walks the decoded characters once, left to right. A quoted
//! string's token keeps the raw, still-escaped interior text; unescaping is
//! the parser's job.

use vstd::prelude::*;

verus! {

broadcast use vstd::std_specs::vec::group_vec_axioms;

/// A number literal as the tokenizer collected it: an overall sign, and the
/// digit text (ASCII digits with at most one `.`).
#[derive(Debug, PartialEq)]
pub struct Number {
    /// True when a `-` was read anywhere in the literal.
    pub negative: bool,
    /// The collected digits, with at most one decimal point.
    pub digits: String,
}

/// One classified lexical unit of the input.
#[derive(Debug, PartialEq)]
pub enum Token {
    /// `{`
    LeftCurlyBracket,
    /// `}`
    RightCurlyBracket,
    /// `[`
    LeftSquareBracket,
    /// `]`
    RightSquareBracket,
    /// `,`
    Comma,
    /// `:`
    Colon,
    /// `null`
    Null,
    /// `false`
    False,
    /// `true`
    True,
    /// Any number literal.
    Number(Number),
    /// A quoted string; the payload is the raw interior text, escapes intact.
    String(String),
}

/// The mathematical shape of a [`Token`], over plain sequences of characters.
pub enum Tok {
    LeftCurlyBracket,
    RightCurlyBracket,
    LeftSquareBracket,
    RightSquareBracket,
    Comma,
    Colon,
    Null,
    False,
    True,
    Number(bool, Seq<char>),
    String(Seq<char>),
}

impl View for Token {
    type V = Tok;

    open spec fn view(&self) -> Tok {
        match self {
            Token::LeftCurlyBracket => Tok::LeftCurlyBracket,
            Token::RightCurlyBracket => Tok::RightCurlyBracket,
            Token::LeftSquareBracket => Tok::LeftSquareBracket,
            Token::RightSquareBracket => Tok::RightSquareBracket,
            Token::Comma => Tok::Comma,
            Token::Colon => Tok::Colon,
            Token::Null => Tok::Null,
            Token::False => Tok::False,
            Token::True => Tok::True,
            Token::Number(n) => Tok::Number(n.negative, n.digits@),
            Token::String(s) => Tok::String(s@),
        }
    }
}

/// Why a scan failed; the first failure aborts the whole call.
#[derive(Debug, PartialEq)]
pub enum TokenizeError {
    UnrecognizedToken,
    UnfinishedLiteralValue,
    ParseNumberError,
    UnclosedQuotes,
    UnexpectedEof,
    CharNotRecognized(char),
}

/// The whitespace characters that separate tokens: space, tab, newline,
/// carriage return.
pub open spec fn is_json_whitespace(c: char) -> bool {
    c == ' ' || c == '\t' || c == '\n' || c == '\r'
}

/// An ASCII decimal digit.
pub open spec fn is_ascii_digit(c: char) -> bool {
    '0' as u32 <= c as u32 && c as u32 <= '9' as u32
}

/// The first index at or after `i` whose character is not whitespace, or the
/// end of the input.
pub open spec fn skip_whitespace(s: Seq<char>, i: int) -> int
    recommends
        0 <= i <= s.len(),
    decreases s.len() - i,
{
    if i < s.len() && is_json_whitespace(s[i]) {
        skip_whitespace(s, i + 1)
    } else {
        i
    }
}

/// The characters of the literal keyword that a given literal token spells.
pub open spec fn keyword_chars(t: Tok) -> Seq<char> {
    match t {
        Tok::Null => seq!['n', 'u', 'l', 'l'],
        Tok::True => seq!['t', 'r', 'u', 'e'],
        _ => seq!['f', 'a', 'l', 's', 'e'],
    }
}

/// Matching a literal keyword anchored at the cursor: the keyword's token
/// and the position past it when the next characters spell the keyword;
/// `UnexpectedEof` when too few characters remain; `UnfinishedLiteralValue`
/// on a mismatch.
pub open spec fn spec_literal_at(s: Seq<char>, i: int, t: Tok) -> Result<(Tok, int), TokenizeError> {
    let kw = keyword_chars(t);
    if i + kw.len() > s.len() {
        Err(TokenizeError::UnexpectedEof)
    } else if s.subrange(i, i + kw.len() as int) == kw {
        Ok((t, i + kw.len()))
    } else {
        Err(TokenizeError::UnfinishedLiteralValue)
    }
}

/// One step of the number scan from index `i`: consume ASCII digits, at most
/// one `.`, and treat any `-` as negating the whole literal. Returns the
/// sign, the collected digit text appended to `acc`, and the first index
/// past the number.
pub open spec fn scan_number(s: Seq<char>, i: int, negative: bool, has_decimal: bool, acc: Seq<char>) -> (bool, Seq<char>, int)
    decreases s.len() - i,
{
    if i < 0 || i >= s.len() {
        (negative, acc, i)
    } else {
        let c = s[i];
        if is_ascii_digit(c) {
            scan_number(s, i + 1, negative, has_decimal, acc.push(c))
        } else if c == '.' && !has_decimal {
            scan_number(s, i + 1, negative, true, acc.push('.'))
        } else if c == '-' {
            scan_number(s, i + 1, true, has_decimal, acc)
        } else {
            (negative, acc, i)
        }
    }
}

/// The string scan from index `i`, just past the opening quote, with the
/// raw text read so far in `acc` and the escaping flag `esc`. Characters are
/// copied verbatim, escapes intact; a quote ends the scan only when the flag
/// is off. `None` means the input ended before a closing quote.
pub open spec fn scan_string(s: Seq<char>, i: int, esc: bool, acc: Seq<char>) -> Option<(Seq<char>, int)>
    decreases s.len() - i,
{
    if i < 0 || i >= s.len() {
        None
    } else {
        let c = s[i];
        if c == '"' && !esc {
            Some((acc, i + 1))
        } else if c == '\\' {
            scan_string(s, i + 1, !esc, acc.push(c))
        } else {
            scan_string(s, i + 1, false, acc.push(c))
        }
    }
}

/// The token beginning at index `i`, which must hold a non-whitespace
/// character, and the first index past it; or why the scan fails there.
pub open spec fn spec_token_at(s: Seq<char>, i: int) -> Result<(Tok, int), TokenizeError>
    recommends
        0 <= i < s.len(),
        !is_json_whitespace(s[i]),
{
    let c = s[i];
    if c == '{' {
        Ok((Tok::LeftCurlyBracket, i + 1))
    } else if c == '}' {
        Ok((Tok::RightCurlyBracket, i + 1))
    } else if c == '[' {
        Ok((Tok::LeftSquareBracket, i + 1))
    } else if c == ']' {
        Ok((Tok::RightSquareBracket, i + 1))
    } else if c == ':' {
        Ok((Tok::Colon, i + 1))
    } else if c == ',' {
        Ok((Tok::Comma, i + 1))
    } else if c == 'n' {
        spec_literal_at(s, i, Tok::Null)
    } else if c == 't' {
        spec_literal_at(s, i, Tok::True)
    } else if c == 'f' {
        spec_literal_at(s, i, Tok::False)
    } else if is_ascii_digit(c) || (c == '-' && i + 1 < s.len() && is_ascii_digit(s[i + 1])) {
        let (negative, digits, j) = scan_number(s, i, false, false, Seq::empty());
        Ok((Tok::Number(negative, digits), j))
    } else if c == '"' {
        match scan_string(s, i + 1, false, Seq::empty()) {
            Some((raw, j)) => Ok((Tok::String(raw), j)),
            None => Err(TokenizeError::UnclosedQuotes),
        }
    } else {
        Err(TokenizeError::CharNotRecognized(c))
    }
}

/// The number scan never moves the cursor backwards, nor past the end.
pub proof fn lemma_scan_number_bounds(s: Seq<char>, i: int, negative: bool, has_decimal: bool, acc: Seq<char>)
    requires
        0 <= i <= s.len(),
    ensures
        i <= scan_number(s, i, negative, has_decimal, acc).2 <= s.len(),
    decreases s.len() - i,
{
    if i < s.len() {
        let c = s[i];
        if is_ascii_digit(c) {
            lemma_scan_number_bounds(s, i + 1, negative, has_decimal, acc.push(c));
        } else if c == '.' && !has_decimal {
            lemma_scan_number_bounds(s, i + 1, negative, true, acc.push('.'));
        } else if c == '-' {
            lemma_scan_number_bounds(s, i + 1, true, has_decimal, acc);
        }
    }
}

/// A successful string scan ends past the cursor and within the input.
pub proof fn lemma_scan_string_bounds(s: Seq<char>, i: int, esc: bool, acc: Seq<char>)
    requires
        0 <= i <= s.len(),
    ensures
        scan_string(s, i, esc, acc) matches Some((raw, j)) ==> i < j <= s.len(),
    decreases s.len() - i,
{
    if i < s.len() {
        let c = s[i];
        if c == '"' && !esc {
        } else if c == '\\' {
            lemma_scan_string_bounds(s, i + 1, !esc, acc.push(c));
        } else {
            lemma_scan_string_bounds(s, i + 1, false, acc.push(c));
        }
    }
}

/// A token spans at least one character and ends within the input.
pub proof fn lemma_token_at_advances(s: Seq<char>, i: int)
    requires
        0 <= i < s.len(),
    ensures
        spec_token_at(s, i) matches Ok((t, j)) ==> i < j <= s.len(),
{
    let c = s[i];
    if is_ascii_digit(c) {
        lemma_scan_number_bounds(s, i + 1, false, false, Seq::empty().push(c));
    } else if c == '-' && i + 1 < s.len() && is_ascii_digit(s[i + 1]) {
        lemma_scan_number_bounds(s, i + 1, true, false, Seq::empty());
    } else if c == '"' {
        lemma_scan_string_bounds(s, i + 1, false, Seq::empty());
    }
}

/// The token sequence read from index `i` to the end of the input: skip
/// whitespace, stop without error at the end, otherwise read one token and
/// continue past it.
pub open spec fn spec_tokenize_from(s: Seq<char>, i: int) -> Result<Seq<Tok>, TokenizeError>
    recommends
        0 <= i <= s.len(),
    decreases s.len() - i,
{
    let j = skip_whitespace(s, i);
    if !(i <= j < s.len()) {
        Ok(Seq::empty())
    } else {
        match spec_token_at(s, j) {
            Err(e) => Err(e),
            Ok((t, k)) => {
                // A token always spans at least one character, so this guard
                // never fires; it closes the termination argument.
                if !(i < k <= s.len()) {
                    Ok(Seq::empty())
                } else {
                    match spec_tokenize_from(s, k) {
                        Err(e) => Err(e),
                        Ok(rest) => Ok(seq![t] + rest),
                    }
                }
            },
        }
    }
}

/// The views of a sequence of tokens, token by token.
pub open spec fn view_tokens(tokens: Seq<Token>) -> Seq<Tok> {
    tokens.map_values(|t: Token| t@)
}

/// Relies on String::push: appends exactly the given character at the end.
#[verifier::external_body]
pub(crate) fn push_char(s: &mut String, c: char)
    ensures
        final(s)@ == old(s)@.push(c),
{
    s.push(c);
}

/// The decoded characters of a string slice, in order.
#[verifier::loop_isolation(false)]
pub(crate) fn to_char_vec(s: &str) -> (r: Vec<char>)
    ensures
        r@ == s@,
{
    let n = s.unicode_len();
    let mut chars: Vec<char> = Vec::new();
    let mut i: usize = 0;
    while i < n
        invariant
            i <= n,
            n == s@.len(),
            chars@.len() == i,
            forall|m: int| 0 <= m < i ==> chars@[m] == s@[m],
        decreases n - i,
    {
        chars.push(s.get_char(i));
        i += 1;
    }
    proof {
        assert(chars@ =~= s@);
    }
    chars
}

fn is_whitespace_char(c: char) -> (r: bool)
    ensures
        r == is_json_whitespace(c),
{
    c == ' ' || c == '\t' || c == '\n' || c == '\r'
}

fn is_digit_char(c: char) -> (r: bool)
    ensures
        r == is_ascii_digit(c),
{
    let u = c as u32;
    48 <= u && u <= 57
}

fn is_number_part(c: char, has_decimal: bool) -> (r: bool)
    ensures
        r == (is_ascii_digit(c) || (c == '.' && !has_decimal) || c == '-'),
{
    is_digit_char(c) || (c == '.' && !has_decimal) || c == '-'
}

/// Scans the whole input into its token sequence, or fails with the first
/// lexical error. The result is exactly what [`spec_tokenize_from`] reads
/// from the start of the input.
#[verifier::loop_isolation(false)]
pub fn tokenize(input: String) -> (r: Result<Vec<Token>, TokenizeError>)
    ensures
        match r {
            Ok(tokens) => spec_tokenize_from(input@, 0) == Ok::<Seq<Tok>, TokenizeError>(
                view_tokens(tokens@),
            ),
            Err(e) => spec_tokenize_from(input@, 0) == Err::<Seq<Tok>, TokenizeError>(e),
        },
{
    let ghost s = input@;
    let chars = to_char_vec(input.as_str());
    let mut index: usize = 0;
    let mut tokens: Vec<Token> = Vec::new();
    proof {
        assert(view_tokens(tokens@) =~= Seq::<Tok>::empty());
        match spec_tokenize_from(s, 0) {
            Ok(rest) => {
                assert(Seq::<Tok>::empty() + rest =~= rest);
            },
            Err(_) => {},
        }
    }
    loop
        invariant
            index <= chars@.len(),
            chars@ == s,
            tokenize_continues(s, view_tokens(tokens@), index as int),
        decreases chars@.len() - index,
    {
        let ghost i1 = index as int;
        while index < chars.len() && is_whitespace_char(chars[index])
            invariant
                i1 <= index <= chars@.len(),
                chars@ == s,
                skip_whitespace(s, i1) == skip_whitespace(s, index as int),
            decreases chars@.len() - index,
        {
            index += 1;
        }
        let ghost j = index as int;
        assert(j == skip_whitespace(s, i1));
        if index >= chars.len() {
            proof {
                assert(spec_tokenize_from(s, i1) == Ok::<Seq<Tok>, TokenizeError>(Seq::empty()));
                let read = view_tokens(tokens@);
                match spec_tokenize_from(s, 0) {
                    Ok(all) => {
                        assert(read + Seq::<Tok>::empty() =~= read);
                    },
                    Err(_) => {},
                }
            }
            return Ok(tokens);
        }
        let token = match make_token(&chars, &mut index) {
            Ok(token) => token,
            Err(e) => {
                proof {
                    assert(spec_tokenize_from(s, i1) == Err::<Seq<Tok>, TokenizeError>(e));
                }
                return Err(e);
            },
        };
        proof {
            lemma_token_at_advances(s, j);
            let read = view_tokens(tokens@);
            let rest1 = spec_tokenize_from(s, index as int);
            assert(view_tokens(tokens@.push(token)) =~= read.push(token@));
            match rest1 {
                Ok(rest) => {
                    assert(spec_tokenize_from(s, i1) == Ok::<Seq<Tok>, TokenizeError>(
                        seq![token@] + rest,
                    ));
                    assert(read + (seq![token@] + rest) =~= read.push(token@) + rest);
                },
                Err(_) => {},
            }
        }
        tokens.push(token);
    }
}

/// The spelled-out claim of the scanning loop: the tokens read so far,
/// followed by whatever the scan reads from index `i`, make up the scan of
/// the whole input.
spec fn tokenize_continues(s: Seq<char>, read: Seq<Tok>, i: int) -> bool {
    match spec_tokenize_from(s, i) {
        Ok(rest) => spec_tokenize_from(s, 0) == Ok::<Seq<Tok>, TokenizeError>(read + rest),
        Err(e) => spec_tokenize_from(s, 0) == Err::<Seq<Tok>, TokenizeError>(e),
    }
}

/// Reads the one token that begins at the cursor, which must stand on a
/// non-whitespace character, and leaves the cursor on the first position
/// past it.
fn make_token(chars: &Vec<char>, index: &mut usize) -> (r: Result<Token, TokenizeError>)
    requires
        *old(index) < chars@.len(),
        !is_json_whitespace(chars@[*old(index) as int]),
    ensures
        match r {
            Ok(t) => spec_token_at(chars@, *old(index) as int) == Ok::<(Tok, int), TokenizeError>(
                (t@, *final(index) as int),
            ) && *old(index) < *final(index) <= chars@.len(),
            Err(e) => spec_token_at(chars@, *old(index) as int) == Err::<(Tok, int), TokenizeError>(
                e,
            ),
        },
{
    proof {
        assert(chars@.len() == chars.len());
        lemma_token_at_advances(chars@, *index as int);
    }
    let c = chars[*index];
    if c == '{' {
        *index += 1;
        Ok(Token::LeftCurlyBracket)
    } else if c == '}' {
        *index += 1;
        Ok(Token::RightCurlyBracket)
    } else if c == '[' {
        *index += 1;
        Ok(Token::LeftSquareBracket)
    } else if c == ']' {
        *index += 1;
        Ok(Token::RightSquareBracket)
    } else if c == ':' {
        *index += 1;
        Ok(Token::Colon)
    } else if c == ',' {
        *index += 1;
        Ok(Token::Comma)
    } else if c == 'n' {
        tokenize_literal(chars, index, Token::Null)
    } else if c == 't' {
        tokenize_literal(chars, index, Token::True)
    } else if c == 'f' {
        tokenize_literal(chars, index, Token::False)
    } else if is_digit_char(c) || (c == '-' && *index + 1 < chars.len() && is_digit_char(
        chars[*index + 1],
    )) {
        tokenize_float(chars, index)
    } else if c == '"' {
        tokenize_string(chars, index)
    } else {
        Err(TokenizeError::CharNotRecognized(c))
    }
}

/// Matches one literal keyword (`null`, `true` or `false`) anchored at the
/// cursor, comparing character by character.
#[verifier::loop_isolation(false)]
fn tokenize_literal(chars: &Vec<char>, index: &mut usize, token: Token) -> (r: Result<
    Token,
    TokenizeError,
>)
    requires
        *old(index) < chars@.len(),
        token is Null || token is True || token is False,
    ensures
        match r {
            Ok(t) => t == token && spec_literal_at(chars@, *old(index) as int, token@)
                == Ok::<(Tok, int), TokenizeError>((t@, *final(index) as int)) && *old(index)
                < *final(index) <= chars@.len(),
            Err(e) => spec_literal_at(chars@, *old(index) as int, token@) == Err::<
                (Tok, int),
                TokenizeError,
            >(e),
        },
{
    proof {
        assert(chars@.len() == chars.len());
    }
    let kw: Vec<char> = match &token {
        Token::Null => vec!['n', 'u', 'l', 'l'],
        Token::True => vec!['t', 'r', 'u', 'e'],
        _ => vec!['f', 'a', 'l', 's', 'e'],
    };
    proof {
        assert(kw@ =~= keyword_chars(token@));
    }
    let base = *index;
    let ghost i0 = base as int;
    if chars.len() - base < kw.len() {
        return Err(TokenizeError::UnexpectedEof);
    }
    let mut k: usize = 0;
    while k < kw.len()
        invariant
            k <= kw.len(),
            i0 == base as int,
            i0 + kw.len() <= chars@.len(),
            chars@.len() == chars.len(),
            kw@ == keyword_chars(token@),
            forall|m: int| 0 <= m < k ==> chars@[i0 + m] == kw@[m],
        decreases kw@.len() - k,
    {
        if chars[base + k] != kw[k] {
            proof {
                let sub = chars@.subrange(i0, i0 + kw@.len() as int);
                assert(sub[k as int] != kw@[k as int]);
            }
            return Err(TokenizeError::UnfinishedLiteralValue);
        }
        k += 1;
    }
    proof {
        assert(chars@.subrange(i0, i0 + kw@.len() as int) =~= kw@);
    }
    *index = base + kw.len();
    Ok(token)
}

/// Collects one number literal at the cursor: digits, at most one decimal
/// point, and a `-` anywhere negating the whole literal.
#[verifier::loop_isolation(false)]
fn tokenize_float(chars: &Vec<char>, index: &mut usize) -> (r: Result<Token, TokenizeError>)
    requires
        *old(index) <= chars@.len(),
    ensures
        match r {
            Ok(t) => ({
                let (negative, digits, j) = scan_number(
                    chars@,
                    *old(index) as int,
                    false,
                    false,
                    Seq::empty(),
                );
                t@ == Tok::Number(negative, digits) && *final(index) as int == j && *final(index)
                    <= chars@.len()
            }),
            Err(_) => false,
        },
{
    let ghost s = chars@;
    let ghost i0 = *index as int;
    let mut negative = false;
    let mut has_decimal = false;
    let mut digits = String::new();
    while *index < chars.len() && is_number_part(chars[*index], has_decimal)
        invariant
            i0 <= *index as int <= chars@.len(),
            chars@ == s,
            scan_number(s, i0, false, false, Seq::empty()) == scan_number(
                s,
                *index as int,
                negative,
                has_decimal,
                digits@,
            ),
        decreases chars@.len() - *index,
    {
        let c = chars[*index];
        if is_digit_char(c) {
            push_char(&mut digits, c);
        } else if c == '.' {
            push_char(&mut digits, '.');
            has_decimal = true;
        } else {
            negative = true;
        }
        *index += 1;
    }
    Ok(Token::Number(Number { negative, digits }))
}

/// Collects the raw interior of a quoted string, starting with the cursor on
/// the opening quote; escapes stay in the text, and the closing quote counts
/// only when not escaped.
#[verifier::loop_isolation(false)]
fn tokenize_string(chars: &Vec<char>, index: &mut usize) -> (r: Result<Token, TokenizeError>)
    requires
        *old(index) < chars@.len(),
        chars@[*old(index) as int] == '"',
    ensures
        match r {
            Ok(t) => ({
                &&& scan_string(chars@, *old(index) + 1, false, Seq::empty()) matches Some(
                    (raw, j),
                )
                &&& t@ == Tok::String(
                    scan_string(chars@, *old(index) + 1, false, Seq::empty())->Some_0.0,
                )
                &&& *final(index) as int == scan_string(
                    chars@,
                    *old(index) + 1,
                    false,
                    Seq::empty(),
                )->Some_0.1
                &&& *final(index) <= chars@.len()
            }),
            Err(e) => e is UnclosedQuotes && scan_string(
                chars@,
                *old(index) + 1,
                false,
                Seq::empty(),
            ) is None,
        },
{
    proof {
        assert(chars@.len() == chars.len());
    }
    let ghost s = chars@;
    let ghost i0 = *index as int;
    let mut raw = String::new();
    let mut escaping = false;
    *index += 1;
    while *index < chars.len()
        invariant
            i0 + 1 <= *index as int <= chars@.len(),
            chars@ == s,
            scan_string(s, i0 + 1, false, Seq::empty()) == scan_string(
                s,
                *index as int,
                escaping,
                raw@,
            ),
        decreases chars@.len() - *index,
    {
        let c = chars[*index];
        if c == '"' && !escaping {
            *index += 1;
            return Ok(Token::String(raw));
        } else if c == '\\' {
            escaping = !escaping;
        } else {
            escaping = false;
        }
        push_char(&mut raw, c);
        *index += 1;
    }
    Err(TokenizeError::UnclosedQuotes)
}

} // verus!
