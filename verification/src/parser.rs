//! The syntactic stage: a recursive-descent walk over the token sequence
//! that builds the [`Value`](crate::Value) tree and decodes string escapes.

use vstd::prelude::*;

verus! {

use crate::JsonVal;
use crate::Value;
use crate::lemma_view_entries_index;
use crate::lemma_view_values_index;
use crate::view_entries;
use crate::view_values;
use crate::tokenize::Number;
use crate::tokenize::Tok;
use crate::tokenize::Token;
use crate::tokenize::spec_tokenize_from;
use crate::tokenize::view_tokens;

broadcast use vstd::std_specs::vec::group_vec_axioms;

/// Why parsing failed; the first failure aborts the whole call.
#[derive(Debug, PartialEq)]
pub enum TokenParseError {
    UnfinishedEscape,
    InvalidHexValue,
    InvalidCodePointValue,
    ExpectedComma,
    ExpectedProperty,
    ExpectedColon,
    UnexpectedToken,
}

/// The value of one hexadecimal digit, upper or lower case.
pub open spec fn hex_digit_value(c: char) -> Option<u32> {
    let u = c as u32;
    if '0' as u32 <= u && u <= '9' as u32 {
        Some((u - 48) as u32)
    } else if 'a' as u32 <= u && u <= 'f' as u32 {
        Some((u - 87) as u32)
    } else if 'A' as u32 <= u && u <= 'F' as u32 {
        Some((u - 55) as u32)
    } else {
        None
    }
}

/// Reading one hex digit of a `\u` escape at index `i`: the input may end
/// (`UnfinishedEscape`) or hold a character that is no hex digit
/// (`InvalidHexValue`).
pub open spec fn spec_hex_digit_at(s: Seq<char>, i: int) -> Result<u32, TokenParseError> {
    if i >= s.len() {
        Err(TokenParseError::UnfinishedEscape)
    } else {
        match hex_digit_value(s[i]) {
            Some(d) => Ok(d),
            None => Err(TokenParseError::InvalidHexValue),
        }
    }
}

/// The value of the four hex digits at `i` .. `i + 4`, read left to right,
/// with each position checked in turn.
pub open spec fn spec_hex4_at(s: Seq<char>, i: int) -> Result<u32, TokenParseError> {
    match spec_hex_digit_at(s, i) {
        Err(e) => Err(e),
        Ok(d0) => match spec_hex_digit_at(s, i + 1) {
            Err(e) => Err(e),
            Ok(d1) => match spec_hex_digit_at(s, i + 2) {
                Err(e) => Err(e),
                Ok(d2) => match spec_hex_digit_at(s, i + 3) {
                    Err(e) => Err(e),
                    Ok(d3) => Ok((4096 * d0 + 256 * d1 + 16 * d2 + d3) as u32),
                },
            },
        },
    }
}

/// A Unicode scalar value: any code point that is not a surrogate.
pub open spec fn is_scalar_value(v: u32) -> bool {
    v < 0xD800 || (0xE000 <= v && v <= 0x10FFFF)
}

/// What one escaped letter stands for: the standard control-character
/// escapes decode, and any other character passes through unchanged.
pub open spec fn unescaped_char(c: char) -> char {
    if c == 'b' {
        '\u{0008}'
    } else if c == 'f' {
        '\u{000C}'
    } else if c == 'n' {
        '\n'
    } else if c == 'r' {
        '\r'
    } else if c == 't' {
        '\t'
    } else {
        c
    }
}

/// The unescaped content of the raw string text from index `i` on, appended
/// to `acc`. A backslash escapes the character after it; `\u` and four hex
/// digits decode one UTF-16 code unit, and a value in the surrogate range is
/// rejected rather than paired, so code points above the Basic Multilingual
/// Plane must appear literally. A trailing lone backslash escapes nothing
/// and is dropped.
pub open spec fn spec_unescape(s: Seq<char>, i: int, acc: Seq<char>) -> Result<Seq<char>, TokenParseError>
    decreases s.len() - i,
{
    if i < 0 || i >= s.len() {
        Ok(acc)
    } else if s[i] == '\\' {
        if i + 1 >= s.len() {
            Ok(acc)
        } else {
            let c = s[i + 1];
            if c == 'u' {
                match spec_hex4_at(s, i + 2) {
                    Err(e) => Err(e),
                    Ok(v) => if is_scalar_value(v) {
                        spec_unescape(s, i + 6, acc.push(v as char))
                    } else {
                        Err(TokenParseError::InvalidCodePointValue)
                    },
                }
            } else {
                spec_unescape(s, i + 2, acc.push(unescaped_char(c)))
            }
        }
    } else {
        spec_unescape(s, i + 1, acc.push(s[i]))
    }
}

/// Whether no two entries of an object share a key.
pub open spec fn keys_unique(entries: Seq<(Seq<char>, JsonVal)>) -> bool {
    forall|m: int, n: int| 0 <= m < n < entries.len() ==> entries[m].0 != entries[n].0
}

/// Inserting a key into an object: a repeated key overwrites the value of
/// its entry, a new key goes at the end.
pub open spec fn obj_insert(entries: Seq<(Seq<char>, JsonVal)>, key: Seq<char>, v: JsonVal) -> Seq<
    (Seq<char>, JsonVal),
> {
    if exists|n: int| 0 <= n < entries.len() && entries[n].0 == key {
        let n = choose|n: int| 0 <= n < entries.len() && entries[n].0 == key;
        entries.update(n, (key, v))
    } else {
        entries.push((key, v))
    }
}

/// The value of a key in an object, if any entry holds it.
pub open spec fn obj_lookup(entries: Seq<(Seq<char>, JsonVal)>, key: Seq<char>) -> Option<JsonVal> {
    if exists|n: int| 0 <= n < entries.len() && entries[n].0 == key {
        let n = choose|n: int| 0 <= n < entries.len() && entries[n].0 == key;
        Some(entries[n].1)
    } else {
        None
    }
}

/// Inserting a key always leaves exactly its last-written value behind: the
/// key afterwards looks up the new value, every other key is untouched, and
/// the keys stay unique. In particular a repeated key resolves to the value
/// written last.
pub proof fn lemma_obj_insert_overwrites(
    entries: Seq<(Seq<char>, JsonVal)>,
    key: Seq<char>,
    v: JsonVal,
)
    requires
        keys_unique(entries),
    ensures
        obj_lookup(obj_insert(entries, key, v), key) == Some(v),
        keys_unique(obj_insert(entries, key, v)),
        forall|k2: Seq<char>|
            k2 != key ==> obj_lookup(obj_insert(entries, key, v), k2) == obj_lookup(entries, k2),
{
    let out = obj_insert(entries, key, v);
    if exists|n: int| 0 <= n < entries.len() && entries[n].0 == key {
        let n = choose|n: int| 0 <= n < entries.len() && entries[n].0 == key;
        assert(out == entries.update(n, (key, v)));
        assert(out[n] == (key, v));
    } else {
        assert(out == entries.push((key, v)));
        assert(out[entries.len() as int] == (key, v));
    }
    assert forall|k2: Seq<char>| k2 != key implies obj_lookup(out, k2) == obj_lookup(
        entries,
        k2,
    ) by {
        assert(forall|m: int|
            0 <= m < entries.len() && entries[m].0 != key ==> out[m] == entries[m]);
        if exists|m: int| 0 <= m < entries.len() && entries[m].0 == k2 {
            let m = choose|m: int| 0 <= m < entries.len() && entries[m].0 == k2;
            assert(out[m].0 == k2);
        }
        if exists|m: int| 0 <= m < out.len() && out[m].0 == k2 {
            let m = choose|m: int| 0 <= m < out.len() && out[m].0 == k2;
            assert(entries[m].0 == k2);
        }
    }
}

/// A well-formed value tree: every object anywhere in it keeps its keys
/// unique.
pub open spec fn wf_value(v: JsonVal) -> bool
    decreases v,
{
    match v {
        JsonVal::Array(items) => forall|m: int|
            0 <= m < items.len() ==> wf_value(#[trigger] items[m]),
        JsonVal::Object(entries) => keys_unique(entries) && forall|m: int|
            0 <= m < entries.len() ==> wf_value(#[trigger] entries[m].1),
        _ => true,
    }
}

/// Whatever the parser reads is well formed: no object in the tree holds a
/// repeated key, because a repeated key overwrites its earlier entry.
pub proof fn lemma_parse_value_wf(ts: Seq<Tok>, i: int)
    ensures
        spec_parse_value(ts, i) matches Ok((v, k)) ==> wf_value(v),
    decreases ts.len() - i, 1int,
{
    if 0 <= i < ts.len() {
        match ts[i] {
            Tok::LeftCurlyBracket => lemma_parse_object_wf(ts, i, Seq::empty()),
            Tok::LeftSquareBracket => lemma_parse_array_wf(ts, i, Seq::empty()),
            _ => {},
        }
    }
}

/// The rest of an array parse keeps the tree well formed, given that the
/// elements read so far are.
pub proof fn lemma_parse_array_wf(ts: Seq<Tok>, i: int, acc: Seq<JsonVal>)
    requires
        forall|m: int| 0 <= m < acc.len() ==> wf_value(#[trigger] acc[m]),
    ensures
        spec_parse_array(ts, i, acc) matches Ok((v, k)) ==> wf_value(v),
    decreases ts.len() - i, 0int,
{
    let j = i + 1;
    if j < ts.len() && !(ts[j] is RightSquareBracket) {
        lemma_parse_value_advances(ts, j);
        lemma_parse_value_wf(ts, j);
        match spec_parse_value(ts, j) {
            Ok((v, k0)) => {
                if k0 < ts.len() && ts[k0] is Comma {
                    lemma_parse_array_wf(ts, k0, acc.push(v));
                }
            },
            Err(_) => {},
        }
    }
}

/// The rest of an object parse keeps the tree well formed, given that the
/// entries read so far have unique keys and well-formed values.
pub proof fn lemma_parse_object_wf(ts: Seq<Tok>, i: int, acc: Seq<(Seq<char>, JsonVal)>)
    requires
        keys_unique(acc),
        forall|m: int| 0 <= m < acc.len() ==> wf_value(#[trigger] acc[m].1),
    ensures
        spec_parse_object(ts, i, acc) matches Ok((v, k)) ==> wf_value(v),
    decreases ts.len() - i, 0int,
{
    let j = i + 1;
    if j < ts.len() && !(ts[j] is RightCurlyBracket) {
        if ts[j] matches Tok::String(raw) && j + 1 < ts.len() && ts[j + 1] is Colon {
            lemma_parse_value_advances(ts, j + 2);
            lemma_parse_value_wf(ts, j + 2);
            match spec_parse_value(ts, j + 2) {
                Ok((v, k0)) => {
                    match spec_unescape(ts[j]->String_0, 0, Seq::empty()) {
                        Ok(key) => {
                            let acc2 = obj_insert(acc, key, v);
                            lemma_obj_insert_overwrites(acc, key, v);
                            assert forall|m: int| 0 <= m < acc2.len() implies wf_value(
                                #[trigger] acc2[m].1,
                            ) by {
                                if acc2[m].1 != v {
                                    assert(acc2[m].1 == acc[m].1);
                                }
                            }
                            if k0 < ts.len() && ts[k0] is Comma {
                                lemma_parse_object_wf(ts, k0, acc2);
                            }
                        },
                        Err(_) => {},
                    }
                },
                Err(_) => {},
            }
        }
    }
}

/// Both stages are functions of their input alone: equal inputs tokenize to
/// equal token sequences, and equal token sequences parse to equal values,
/// so repeating either stage reads the same result both times.
pub proof fn lemma_parse_deterministic(s1: Seq<char>, s2: Seq<char>)
    requires
        s1 == s2,
    ensures
        spec_tokenize_from(s1, 0) == spec_tokenize_from(s2, 0),
        spec_tokenize_from(s1, 0) matches Ok(ts) ==> spec_parse_value(ts, 0) == spec_parse_value(
            spec_tokenize_from(s2, 0)->Ok_0,
            0,
        ),
{
}

/// The value that begins at token index `i` and the first index past it.
/// A scalar token is itself the value; a raw string token is unescaped; `{`
/// and `[` open the nested forms; any other token, or an exhausted
/// sequence, is `UnexpectedToken`.
pub open spec fn spec_parse_value(ts: Seq<Tok>, i: int) -> Result<(JsonVal, int), TokenParseError>
    decreases ts.len() - i, 1int,
{
    if i < 0 || i >= ts.len() {
        Err(TokenParseError::UnexpectedToken)
    } else {
        match ts[i] {
            Tok::Null => Ok((JsonVal::Null, i + 1)),
            Tok::False => Ok((JsonVal::Boolean(false), i + 1)),
            Tok::True => Ok((JsonVal::Boolean(true), i + 1)),
            Tok::Number(negative, digits) => Ok((JsonVal::Number(negative, digits), i + 1)),
            Tok::String(raw) => match spec_unescape(raw, 0, Seq::empty()) {
                Ok(text) => Ok((JsonVal::String(text), i + 1)),
                Err(e) => Err(e),
            },
            Tok::LeftCurlyBracket => spec_parse_object(ts, i, Seq::empty()),
            Tok::LeftSquareBracket => spec_parse_array(ts, i, Seq::empty()),
            _ => Err(TokenParseError::UnexpectedToken),
        }
    }
}

/// The rest of an array whose elements so far are `acc`, with the cursor on
/// the `[` or on the `,` before the next element. After each element a `,`
/// continues and a `]` closes; anything else, or running out of tokens, is
/// `ExpectedComma` there and `UnexpectedToken` where an element or `]` was
/// due.
pub open spec fn spec_parse_array(ts: Seq<Tok>, i: int, acc: Seq<JsonVal>) -> Result<
    (JsonVal, int),
    TokenParseError,
>
    decreases ts.len() - i, 0int,
{
    let j = i + 1;
    if j >= ts.len() {
        Err(TokenParseError::UnexpectedToken)
    } else if ts[j] is RightSquareBracket {
        Ok((JsonVal::Array(acc), j + 1))
    } else {
        match spec_parse_value(ts, j) {
            Err(e) => Err(e),
            Ok((v, k0)) => {
                // A value spans at least one token, so this clamp never
                // moves the cursor; it closes the termination argument.
                let k = if k0 <= j {
                    j + 1
                } else {
                    k0
                };
                if k >= ts.len() {
                    Err(TokenParseError::ExpectedComma)
                } else if ts[k] is Comma {
                    spec_parse_array(ts, k, acc.push(v))
                } else if ts[k] is RightSquareBracket {
                    Ok((JsonVal::Array(acc.push(v)), k + 1))
                } else {
                    Err(TokenParseError::ExpectedComma)
                }
            },
        }
    }
}

/// The rest of an object whose entries so far are `acc`, with the cursor on
/// the `{` or on the `,` before the next entry. Each entry is a string key,
/// a `:`, and a value; the unescaped key is inserted, overwriting an equal
/// key. After an entry a `,` continues and a `}` closes.
pub open spec fn spec_parse_object(ts: Seq<Tok>, i: int, acc: Seq<(Seq<char>, JsonVal)>) -> Result<
    (JsonVal, int),
    TokenParseError,
>
    decreases ts.len() - i, 0int,
{
    let j = i + 1;
    if j >= ts.len() {
        Err(TokenParseError::ExpectedProperty)
    } else if ts[j] is RightCurlyBracket {
        Ok((JsonVal::Object(acc), j + 1))
    } else {
        match ts[j] {
            Tok::String(raw) => {
                if j + 1 >= ts.len() || !(ts[j + 1] is Colon) {
                    Err(TokenParseError::ExpectedColon)
                } else {
                    match spec_parse_value(ts, j + 2) {
                        Err(e) => Err(e),
                        Ok((v, k0)) => {
                            // A value spans at least one token, so this
                            // clamp never moves the cursor; it closes the
                            // termination argument.
                            let k = if k0 <= j + 2 {
                                j + 3
                            } else {
                                k0
                            };
                            match spec_unescape(raw, 0, Seq::empty()) {
                                Err(e) => Err(e),
                                Ok(key) => {
                                    let acc2 = obj_insert(acc, key, v);
                                    if k >= ts.len() {
                                        Err(TokenParseError::ExpectedComma)
                                    } else if ts[k] is Comma {
                                        spec_parse_object(ts, k, acc2)
                                    } else if ts[k] is RightCurlyBracket {
                                        Ok((JsonVal::Object(acc2), k + 1))
                                    } else {
                                        Err(TokenParseError::ExpectedComma)
                                    }
                                },
                            }
                        },
                    }
                }
            },
            _ => Err(TokenParseError::ExpectedProperty),
        }
    }
}

/// Relies on char::from_u32: `Some` exactly for Unicode scalar values
/// (below the surrogate range, or past it and at most 0x10FFFF), and the
/// returned character has exactly the given code point value.
#[verifier::external_body]
fn char_from_u32(v: u32) -> (r: Option<char>)
    ensures
        r is Some <==> is_scalar_value(v),
        r matches Some(c) ==> c == v as char,
{
    char::from_u32(v)
}

fn hex_digit(c: char) -> (r: Option<u32>)
    ensures
        r == hex_digit_value(c),
{
    let u = c as u32;
    if 48 <= u && u <= 57 {
        Some(u - 48)
    } else if 97 <= u && u <= 102 {
        Some(u - 87)
    } else if 65 <= u && u <= 70 {
        Some(u - 55)
    } else {
        None
    }
}

/// Reads the hex digit of a `\u` escape at index `j`.
fn hex_digit_at(chars: &Vec<char>, j: usize) -> (r: Result<u32, TokenParseError>)
    ensures
        r == spec_hex_digit_at(chars@, j as int),
        r is Ok ==> j < chars@.len() && r->Ok_0 < 16,
{
    if j >= chars.len() {
        Err(TokenParseError::UnfinishedEscape)
    } else {
        match hex_digit(chars[j]) {
            Some(d) => Ok(d),
            None => Err(TokenParseError::InvalidHexValue),
        }
    }
}

fn unescape_replacement(c: char) -> (r: char)
    ensures
        r == unescaped_char(c),
{
    if c == 'b' {
        '\u{0008}'
    } else if c == 'f' {
        '\u{000C}'
    } else if c == 'n' {
        '\n'
    } else if c == 'r' {
        '\r'
    } else if c == 't' {
        '\t'
    } else {
        c
    }
}

/// Decodes the escapes of one raw string body into its final character
/// content, exactly as [`spec_unescape`] reads it.
#[verifier::loop_isolation(false)]
fn unescape(s: &str) -> (r: Result<String, TokenParseError>)
    ensures
        match r {
            Ok(out) => spec_unescape(s@, 0, Seq::empty()) == Ok::<Seq<char>, TokenParseError>(
                out@,
            ),
            Err(e) => spec_unescape(s@, 0, Seq::empty()) == Err::<Seq<char>, TokenParseError>(e),
        },
{
    let chars = crate::tokenize::to_char_vec(s);
    let mut out = String::new();
    let mut i: usize = 0;
    while i < chars.len()
        invariant
            i <= chars@.len(),
            chars@ == s@,
            spec_unescape(s@, 0, Seq::empty()) == spec_unescape(s@, i as int, out@),
        decreases chars@.len() - i,
    {
        let c = chars[i];
        if c == '\\' {
            if i + 1 >= chars.len() {
                // a trailing lone backslash escapes nothing
                return Ok(out);
            }
            let e = chars[i + 1];
            if e == 'u' {
                let d0 = match hex_digit_at(&chars, i + 2) {
                    Ok(d) => d,
                    Err(e2) => {
                        return Err(e2);
                    },
                };
                let d1 = match hex_digit_at(&chars, i + 3) {
                    Ok(d) => d,
                    Err(e2) => {
                        return Err(e2);
                    },
                };
                let d2 = match hex_digit_at(&chars, i + 4) {
                    Ok(d) => d,
                    Err(e2) => {
                        return Err(e2);
                    },
                };
                let d3 = match hex_digit_at(&chars, i + 5) {
                    Ok(d) => d,
                    Err(e2) => {
                        return Err(e2);
                    },
                };
                let v: u32 = 4096 * d0 + 256 * d1 + 16 * d2 + d3;
                match char_from_u32(v) {
                    Some(decoded) => {
                        crate::tokenize::push_char(&mut out, decoded);
                        i += 6;
                    },
                    None => {
                        return Err(TokenParseError::InvalidCodePointValue);
                    },
                }
            } else {
                crate::tokenize::push_char(&mut out, unescape_replacement(e));
                i += 2;
            }
        } else {
            crate::tokenize::push_char(&mut out, c);
            i += 1;
        }
    }
    Ok(out)
}

/// Unescapes one raw string token body into its string value.
pub fn parse_string(s: &str) -> (r: Result<crate::Value, TokenParseError>)
    ensures
        match r {
            Ok(v) => spec_unescape(s@, 0, Seq::empty()) matches Ok(text) && v@
                == JsonVal::String(text),
            Err(e) => spec_unescape(s@, 0, Seq::empty()) == Err::<Seq<char>, TokenParseError>(e),
        },
{
    match unescape(s) {
        Ok(out) => Ok(crate::Value::String(out)),
        Err(e) => Err(e),
    }
}

/// Parses the one value that begins at the cursor, leaving the cursor on
/// the first token past it; trailing tokens are not touched. The result is
/// exactly what [`spec_parse_value`] reads there.
#[verifier::loop_isolation(false)]
pub fn parse_tokens(tokens: &Vec<Token>, index: &mut usize) -> (r: Result<Value, TokenParseError>)
    ensures
        match r {
            Ok(v) => spec_parse_value(view_tokens(tokens@), *old(index) as int) == Ok::<
                (JsonVal, int),
                TokenParseError,
            >((v@, *final(index) as int)) && *old(index) < *final(index) <= tokens@.len(),
            Err(e) => spec_parse_value(view_tokens(tokens@), *old(index) as int) == Err::<
                (JsonVal, int),
                TokenParseError,
            >(e),
        },
    decreases tokens@.len() - *index, 1int,
{
    proof {
        assert(tokens@.len() == tokens.len());
    }
    if *index >= tokens.len() {
        return Err(TokenParseError::UnexpectedToken);
    }
    match &tokens[*index] {
        Token::Null => {
            *index += 1;
            Ok(Value::Null)
        },
        Token::False => {
            *index += 1;
            Ok(Value::Boolean(false))
        },
        Token::True => {
            *index += 1;
            Ok(Value::Boolean(true))
        },
        Token::Number(n) => {
            let v = Value::Number(Number { negative: n.negative, digits: n.digits.clone() });
            *index += 1;
            Ok(v)
        },
        Token::String(raw) => {
            match parse_string(raw.as_str()) {
                Ok(v) => {
                    *index += 1;
                    Ok(v)
                },
                Err(e) => Err(e),
            }
        },
        Token::LeftCurlyBracket => parse_object(tokens, index),
        Token::LeftSquareBracket => parse_array(tokens, index),
        _ => Err(TokenParseError::UnexpectedToken),
    }
}

/// Parses the array whose `[` stands at the cursor.
#[verifier::loop_isolation(false)]
fn parse_array(tokens: &Vec<Token>, index: &mut usize) -> (r: Result<Value, TokenParseError>)
    requires
        *old(index) < tokens@.len(),
        tokens@[*old(index) as int]@ is LeftSquareBracket,
    ensures
        match r {
            Ok(v) => spec_parse_array(view_tokens(tokens@), *old(index) as int, Seq::empty())
                == Ok::<(JsonVal, int), TokenParseError>((v@, *final(index) as int)) && *old(index)
                < *final(index) <= tokens@.len(),
            Err(e) => spec_parse_array(view_tokens(tokens@), *old(index) as int, Seq::empty())
                == Err::<(JsonVal, int), TokenParseError>(e),
        },
    decreases tokens@.len() - *index, 0int,
{
    let ghost ts = view_tokens(tokens@);
    let ghost i0 = *index as int;
    proof {
        assert(tokens@.len() == tokens.len());
        assert(view_values(Seq::<Value>::empty()) =~= Seq::<JsonVal>::empty());
    }
    let mut arr: Vec<Value> = Vec::new();
    loop
        invariant
            i0 <= *index < tokens@.len(),
            spec_parse_array(ts, i0, Seq::empty()) == spec_parse_array(
                ts,
                *index as int,
                view_values(arr@),
            ),
        decreases tokens@.len() - *index,
    {
        // consume the previous [ or ,
        *index += 1;
        if *index >= tokens.len() {
            return Err(TokenParseError::UnexpectedToken);
        }
        if matches!(&tokens[*index], Token::RightSquareBracket) {
            *index += 1;
            return Ok(Value::Array(arr));
        }
        let ghost j = *index as int;
        let element = match parse_tokens(tokens, index) {
            Ok(v) => v,
            Err(e) => {
                return Err(e);
            },
        };
        proof {
            lemma_parse_value_advances(ts, j);
            let old_arr = arr@;
            lemma_view_values_index(old_arr);
            lemma_view_values_index(old_arr.push(element));
            assert(view_values(old_arr.push(element)) =~= view_values(old_arr).push(element@));
        }
        arr.push(element);
        if *index >= tokens.len() {
            return Err(TokenParseError::ExpectedComma);
        }
        match &tokens[*index] {
            Token::Comma => {},
            Token::RightSquareBracket => {
                *index += 1;
                return Ok(Value::Array(arr));
            },
            _ => {
                return Err(TokenParseError::ExpectedComma);
            },
        }
    }
}

/// Parses the object whose `{` stands at the cursor.
#[verifier::loop_isolation(false)]
fn parse_object(tokens: &Vec<Token>, index: &mut usize) -> (r: Result<Value, TokenParseError>)
    requires
        *old(index) < tokens@.len(),
        tokens@[*old(index) as int]@ is LeftCurlyBracket,
    ensures
        match r {
            Ok(v) => spec_parse_object(view_tokens(tokens@), *old(index) as int, Seq::empty())
                == Ok::<(JsonVal, int), TokenParseError>((v@, *final(index) as int)) && *old(index)
                < *final(index) <= tokens@.len(),
            Err(e) => spec_parse_object(view_tokens(tokens@), *old(index) as int, Seq::empty())
                == Err::<(JsonVal, int), TokenParseError>(e),
        },
    decreases tokens@.len() - *index, 0int,
{
    let ghost ts = view_tokens(tokens@);
    let ghost i0 = *index as int;
    proof {
        assert(tokens@.len() == tokens.len());
        assert(view_entries(Seq::<(String, Value)>::empty()) =~= Seq::<(Seq<char>, JsonVal)>::empty());
    }
    let mut entries: Vec<(String, Value)> = Vec::new();
    loop
        invariant
            i0 <= *index < tokens@.len(),
            keys_unique(view_entries(entries@)),
            spec_parse_object(ts, i0, Seq::empty()) == spec_parse_object(
                ts,
                *index as int,
                view_entries(entries@),
            ),
        decreases tokens@.len() - *index,
    {
        // consume the previous { or ,
        *index += 1;
        if *index >= tokens.len() {
            return Err(TokenParseError::ExpectedProperty);
        }
        let raw_key = match &tokens[*index] {
            Token::RightCurlyBracket => {
                *index += 1;
                return Ok(Value::Object(entries));
            },
            Token::String(raw_key) => raw_key,
            _ => {
                return Err(TokenParseError::ExpectedProperty);
            },
        };
        *index += 1;
        if *index >= tokens.len() || !matches!(&tokens[*index], Token::Colon) {
            return Err(TokenParseError::ExpectedColon);
        }
        *index += 1;
        let ghost j = *index as int;
        let v = match parse_tokens(tokens, index) {
            Ok(v) => v,
            Err(e) => {
                return Err(e);
            },
        };
        proof {
            lemma_parse_value_advances(ts, j);
        }
        let key = match unescape(raw_key.as_str()) {
            Ok(key) => key,
            Err(e) => {
                return Err(e);
            },
        };
        object_insert(&mut entries, key, v);
        if *index >= tokens.len() {
            return Err(TokenParseError::ExpectedComma);
        }
        match &tokens[*index] {
            Token::Comma => {},
            Token::RightCurlyBracket => {
                *index += 1;
                return Ok(Value::Object(entries));
            },
            _ => {
                return Err(TokenParseError::ExpectedComma);
            },
        }
    }
}

/// Inserts a key and value into the entries, overwriting the value of an
/// entry with an equal key and otherwise appending a new entry.
#[verifier::loop_isolation(false)]
fn object_insert(entries: &mut Vec<(String, Value)>, key: String, v: Value)
    requires
        keys_unique(view_entries(old(entries)@)),
    ensures
        view_entries(final(entries)@) == obj_insert(view_entries(old(entries)@), key@, v@),
        keys_unique(view_entries(final(entries)@)),
{
    proof {
        lemma_view_entries_index(entries@);
    }
    let ghost orig = entries@;
    let mut i: usize = 0;
    while i < entries.len()
        invariant
            i <= entries@.len(),
            entries@ == orig,
            forall|m: int| 0 <= m < i ==> view_entries(orig)[m].0 != key@,
        decreases entries@.len() - i,
    {
        if entries[i].0 == key {
            proof {
                let ov = view_entries(orig);
                assert(ov[i as int].0 == key@);
                let n = choose|n: int| 0 <= n < ov.len() && ov[n].0 == key@;
                assert(n == i as int);
                lemma_view_entries_index(orig.update(i as int, (key, v)));
                assert(view_entries(orig.update(i as int, (key, v))) =~= ov.update(
                    i as int,
                    (key@, v@),
                ));
            }
            entries[i] = (key, v);
            return;
        }
        i += 1;
    }
    proof {
        let ov = view_entries(orig);
        assert(forall|n: int| 0 <= n < ov.len() ==> ov[n].0 != key@);
        lemma_view_entries_index(orig.push((key, v)));
        assert(view_entries(orig.push((key, v))) =~= ov.push((key@, v@)));
    }
    entries.push((key, v));
}

/// A parsed value spans at least one token and ends within the sequence.
pub proof fn lemma_parse_value_advances(ts: Seq<Tok>, i: int)
    ensures
        spec_parse_value(ts, i) matches Ok((v, k)) ==> i < k <= ts.len(),
    decreases ts.len() - i, 1int,
{
    if 0 <= i < ts.len() {
        match ts[i] {
            Tok::LeftCurlyBracket => lemma_parse_object_advances(ts, i, Seq::empty()),
            Tok::LeftSquareBracket => lemma_parse_array_advances(ts, i, Seq::empty()),
            _ => {},
        }
    }
}

/// The rest of an array ends past the cursor and within the sequence.
pub proof fn lemma_parse_array_advances(ts: Seq<Tok>, i: int, acc: Seq<JsonVal>)
    ensures
        spec_parse_array(ts, i, acc) matches Ok((v, k)) ==> i < k <= ts.len(),
    decreases ts.len() - i, 0int,
{
    let j = i + 1;
    if j < ts.len() && !(ts[j] is RightSquareBracket) {
        lemma_parse_value_advances(ts, j);
        match spec_parse_value(ts, j) {
            Ok((v, k0)) => {
                if k0 < ts.len() && ts[k0] is Comma {
                    lemma_parse_array_advances(ts, k0, acc.push(v));
                }
            },
            Err(_) => {},
        }
    }
}

/// The rest of an object ends past the cursor and within the sequence.
pub proof fn lemma_parse_object_advances(ts: Seq<Tok>, i: int, acc: Seq<(Seq<char>, JsonVal)>)
    ensures
        spec_parse_object(ts, i, acc) matches Ok((v, k)) ==> i < k <= ts.len(),
    decreases ts.len() - i, 0int,
{
    let j = i + 1;
    if j < ts.len() && !(ts[j] is RightCurlyBracket) {
        if ts[j] matches Tok::String(raw) && j + 1 < ts.len() && ts[j + 1] is Colon {
            lemma_parse_value_advances(ts, j + 2);
            match spec_parse_value(ts, j + 2) {
                Ok((v, k0)) => {
                    match spec_unescape(ts[j]->String_0, 0, Seq::empty()) {
                        Ok(key) => {
                            if k0 < ts.len() && ts[k0] is Comma {
                                lemma_parse_object_advances(
                                    ts,
                                    k0,
                                    obj_insert(acc, key, v),
                                );
                            }
                        },
                        Err(_) => {},
                    }
                },
                Err(_) => {},
            }
        }
    }
}

} // verus!
