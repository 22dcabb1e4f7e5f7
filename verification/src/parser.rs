//! The parser: a recursive descent over the token sequence that
//! builds the value tree.
//!
//! The whole stage is specified by `spec_get_value` and the spec
//! functions under it; the executable parser is proved to return
//! exactly what they describe. String resolution, which combines
//! `\uXXXX` escapes into code points, is specified by
//! `spec_token_to_string` and `spec_utf16`.

use vstd::prelude::*;
use crate::error::{JsonParseError, ParseErrorKind};
use crate::lexer::{JsonToken, JsonTokens, JsonCharToken, Lexeme, lexemes_of};
use crate::json::{
    JsonValue, JsonObject, JsonNumber, ValueModel, view_value, view_values, view_objects,
    valid_number_model, lemma_view_values_push, lemma_view_objects_push,
};
use crate::text::{push_char, char_from_code};
use vstd::std_specs::vec::vec_index;

verus! {

/// Is `u` a high (leading) surrogate code unit?
pub open spec fn is_high_surrogate(u: u16) -> bool {
    0xd800 <= u && u <= 0xdbff
}

/// Is `u` a low (trailing) surrogate code unit?
pub open spec fn is_low_surrogate(u: u16) -> bool {
    0xdc00 <= u && u <= 0xdfff
}

/// The code point jointly encoded by a surrogate pair.
pub open spec fn combine_surrogates(hi: u16, lo: u16) -> u32 {
    (0x10000 + (hi - 0xd800) * 0x400 + (lo - 0xdc00)) as u32
}

/// The characters encoded by a UTF-16 code unit sequence: each
/// non-surrogate unit is its own code point, a high surrogate must be
/// followed by a low surrogate and the pair is one code point, and
/// anything else is invalid.
pub open spec fn spec_utf16(us: Seq<u16>) -> Result<Seq<char>, ParseErrorKind>
    decreases us.len(),
{
    if us.len() == 0 {
        Result::Ok(Seq::empty())
    } else {
        let u = us[0];
        if is_high_surrogate(u) {
            if us.len() >= 2 && is_low_surrogate(us[1]) {
                match spec_utf16(us.skip(2)) {
                    Result::Ok(rest) => Result::Ok(
                        seq![(combine_surrogates(u, us[1]) as char)] + rest,
                    ),
                    Result::Err(e) => Result::Err(e),
                }
            } else {
                Result::Err(ParseErrorKind::FromUtf16Error)
            }
        } else if is_low_surrogate(u) {
            Result::Err(ParseErrorKind::FromUtf16Error)
        } else {
            match spec_utf16(us.skip(1)) {
                Result::Ok(rest) => Result::Ok(seq![((u as u32) as char)] + rest),
                Result::Err(e) => Result::Err(e),
            }
        }
    }
}

/// String resolution: walking the character tokens from position `i`
/// with a pending run `pending` of unconverted UTF-16 units and the
/// text built so far in `out`. A run of adjacent `\uXXXX` units is
/// converted as one UTF-16 sequence, so that surrogate pairs spanning
/// two tokens come out as single code points.
pub open spec fn spec_resolve(
    cs: Seq<JsonCharToken>,
    i: int,
    pending: Seq<u16>,
    out: Seq<char>,
) -> Result<Seq<char>, ParseErrorKind>
    decreases cs.len() - i,
{
    if i >= cs.len() {
        match spec_utf16(pending) {
            Result::Ok(d) => Result::Ok(out + d),
            Result::Err(e) => Result::Err(e),
        }
    } else {
        match cs[i] {
            JsonCharToken::Unicode(u) => spec_resolve(cs, i + 1, pending.push(u), out),
            JsonCharToken::UnEscaped(c) => match spec_utf16(pending) {
                Result::Ok(d) => spec_resolve(cs, i + 1, Seq::empty(), out + d + seq![c]),
                Result::Err(e) => Result::Err(e),
            },
            JsonCharToken::Escape(c) => match spec_utf16(pending) {
                Result::Ok(d) => spec_resolve(cs, i + 1, Seq::empty(), out + d + seq![c]),
                Result::Err(e) => Result::Err(e),
            },
        }
    }
}

/// The text a string token resolves to, or the failure.
pub open spec fn spec_token_to_string(cs: Seq<JsonCharToken>) -> Result<Seq<char>, ParseErrorKind> {
    spec_resolve(cs, 0, Seq::empty(), Seq::empty())
}

/// What parsing one value from position `i` yields.
pub enum PStep {
    /// A value, and the position just after it.
    Value(ValueModel, int),
    /// Only whitespace remained; the position reached the end.
    Exhausted(int),
    /// Parsing fails with this kind.
    Fail(ParseErrorKind),
}

/// How many tokens remain at position `i`.
pub open spec fn prem(ts: Seq<Lexeme>, i: int) -> int {
    if i <= ts.len() {
        ts.len() - i
    } else {
        0
    }
}

/// `p`, but never before `i`. The spec functions below apply this to
/// positions handed back by an inner parse, which always lie past the
/// tokens that parse consumed, as the postconditions of the
/// executable parser show; the guard only makes that forward movement
/// plain to the termination checker.
pub open spec fn fwd(i: int, p: int) -> int {
    if p < i {
        i
    } else {
        p
    }
}

/// The first position at or after `i` that does not hold a
/// whitespace token.
pub open spec fn spec_skip_ws(ts: Seq<Lexeme>, i: int) -> int
    decreases prem(ts, i),
{
    if 0 <= i < ts.len() && (ts[i] is WhiteSpace) {
        spec_skip_ws(ts, i + 1)
    } else {
        i
    }
}

/// Skipping whitespace moves forward, never past the end.
pub proof fn lemma_skip_ws(ts: Seq<Lexeme>, i: int)
    requires
        0 <= i <= ts.len(),
    ensures
        i <= spec_skip_ws(ts, i) <= ts.len(),
        spec_skip_ws(ts, i) < ts.len() ==> !(ts[spec_skip_ws(ts, i)] is WhiteSpace),
    decreases prem(ts, i),
{
    if i < ts.len() && (ts[i] is WhiteSpace) {
        lemma_skip_ws(ts, i + 1);
    }
}

/// Parsing one value: skip whitespace, then dispatch on the token.
pub open spec fn spec_next_value(ts: Seq<Lexeme>, i: int) -> PStep
    decreases prem(ts, i), 0int,
        via spec_next_value_decreases
{
    let j = spec_skip_ws(ts, i);
    if !(0 <= i <= ts.len()) {
        PStep::Fail(ParseErrorKind::NonValue)
    } else if j >= ts.len() {
        PStep::Exhausted(j)
    } else {
        match ts[j] {
            Lexeme::BeginObject => spec_object_body(ts, j + 1),
            Lexeme::BeginArray => spec_array_body(ts, j + 1),
            Lexeme::Number(n) => if valid_number_model(n) {
                PStep::Value(ValueModel::Number(n), j + 1)
            } else {
                PStep::Fail(ParseErrorKind::ParseFloatError)
            },
            Lexeme::True => PStep::Value(ValueModel::Boolean(true), j + 1),
            Lexeme::False => PStep::Value(ValueModel::Boolean(false), j + 1),
            Lexeme::Null => PStep::Value(ValueModel::Null, j + 1),
            Lexeme::Str(cs) => match spec_token_to_string(cs) {
                Result::Ok(txt) => PStep::Value(ValueModel::Str(txt), j + 1),
                Result::Err(e) => PStep::Fail(e),
            },
            _ => PStep::Fail(ParseErrorKind::InvalidToken),
        }
    }
}

/// An object, just after its opening brace: empty, or its first pair
/// and then the rest.
pub open spec fn spec_object_body(ts: Seq<Lexeme>, i: int) -> PStep
    decreases prem(ts, i), 3int,
        via spec_object_body_decreases
{
    let j = spec_skip_ws(ts, i);
    if !(0 <= i <= ts.len()) {
        PStep::Fail(ParseErrorKind::NonEndObject)
    } else if j >= ts.len() {
        PStep::Fail(ParseErrorKind::NonEndObject)
    } else if ts[j] is EndObject {
        PStep::Value(ValueModel::Objects(Seq::empty()), j + 1)
    } else {
        spec_object_items(ts, j, Seq::empty())
    }
}

/// One pair of an object, then its continuation.
pub open spec fn spec_object_items(
    ts: Seq<Lexeme>,
    i: int,
    acc: Seq<(Seq<char>, ValueModel)>,
) -> PStep
    decreases prem(ts, i), 2int,
{
    match spec_get_object(ts, i) {
        Result::Ok((pair, p)) => spec_object_rest(ts, fwd(i, p), acc.push(pair)),
        Result::Err(e) => PStep::Fail(e),
    }
}

/// After a pair: a separator and another pair, or the closing brace.
pub open spec fn spec_object_rest(
    ts: Seq<Lexeme>,
    i: int,
    acc: Seq<(Seq<char>, ValueModel)>,
) -> PStep
    decreases prem(ts, i), 1int,
        via spec_object_rest_decreases
{
    let j = spec_skip_ws(ts, i);
    if !(0 <= i <= ts.len()) {
        PStep::Fail(ParseErrorKind::NonEndObject)
    } else if j >= ts.len() {
        PStep::Fail(ParseErrorKind::NonEndObject)
    } else {
        match ts[j] {
            Lexeme::ValueSeparator => spec_object_items(ts, j + 1, acc),
            Lexeme::EndObject => PStep::Value(ValueModel::Objects(acc), j + 1),
            _ => PStep::Fail(ParseErrorKind::InvalidToken),
        }
    }
}

/// One name/value pair: a string name, a name separator, a value.
/// Where the tokens run out after the separator, the value is null,
/// and the enclosing object then fails on its missing closing brace.
pub open spec fn spec_get_object(ts: Seq<Lexeme>, i: int) -> Result<
    ((Seq<char>, ValueModel), int),
    ParseErrorKind,
>
    decreases prem(ts, i), 1int,
        via spec_get_object_decreases
{
    let j = spec_skip_ws(ts, i);
    if !(0 <= i <= ts.len()) {
        Result::Err(ParseErrorKind::NoObjectName)
    } else if j >= ts.len() {
        Result::Err(ParseErrorKind::NoObjectName)
    } else {
        match ts[j] {
            Lexeme::Str(cs) => match spec_token_to_string(cs) {
                Result::Err(e) => Result::Err(e),
                Result::Ok(name) => {
                    let k = spec_skip_ws(ts, j + 1);
                    if k >= ts.len() {
                        Result::Err(ParseErrorKind::NoObjectName)
                    } else if ts[k] is NameSeparator {
                        match spec_next_value(ts, k + 1) {
                            PStep::Value(v, p) => Result::Ok(((name, v), p)),
                            PStep::Exhausted(p) => Result::Ok(((name, ValueModel::Null), p)),
                            PStep::Fail(e) => Result::Err(e),
                        }
                    } else {
                        Result::Err(ParseErrorKind::InvalidToken)
                    }
                },
            },
            _ => Result::Err(ParseErrorKind::InvalidToken),
        }
    }
}

/// An array, just after its opening bracket: empty, or its first
/// value and then the rest.
pub open spec fn spec_array_body(ts: Seq<Lexeme>, i: int) -> PStep
    decreases prem(ts, i), 3int,
        via spec_array_body_decreases
{
    let j = spec_skip_ws(ts, i);
    if !(0 <= i <= ts.len()) {
        PStep::Fail(ParseErrorKind::NonEndArray)
    } else if j >= ts.len() {
        PStep::Fail(ParseErrorKind::NonEndArray)
    } else if ts[j] is EndArray {
        PStep::Value(ValueModel::Array(Seq::empty()), j + 1)
    } else {
        match spec_next_value(ts, j) {
            PStep::Value(v, p) => spec_array_rest(ts, fwd(j, p), seq![v]),
            PStep::Exhausted(p) => PStep::Fail(ParseErrorKind::NonEndArray),
            PStep::Fail(e) => PStep::Fail(e),
        }
    }
}

/// After a value of an array: a separator and another value, or the
/// closing bracket.
pub open spec fn spec_array_rest(ts: Seq<Lexeme>, i: int, acc: Seq<ValueModel>) -> PStep
    decreases prem(ts, i), 1int,
        via spec_array_rest_decreases
{
    let j = spec_skip_ws(ts, i);
    if !(0 <= i <= ts.len()) {
        PStep::Fail(ParseErrorKind::NonEndArray)
    } else if j >= ts.len() {
        PStep::Fail(ParseErrorKind::NonEndArray)
    } else {
        match ts[j] {
            Lexeme::EndArray => PStep::Value(ValueModel::Array(acc), j + 1),
            Lexeme::ValueSeparator => match spec_next_value(ts, j + 1) {
                PStep::Value(v, p) => spec_array_rest(ts, fwd(j + 1, p), acc.push(v)),
                PStep::Exhausted(p) => PStep::Fail(ParseErrorKind::NonValue),
                PStep::Fail(e) => PStep::Fail(e),
            },
            _ => PStep::Fail(ParseErrorKind::InvalidToken),
        }
    }
}

/// The top-level rule: exactly one value, and nothing but whitespace
/// after it. No value at all is `NonValue`; a second value is
/// `InvalidToken`.
pub open spec fn spec_get_value(ts: Seq<Lexeme>, i: int) -> Result<ValueModel, ParseErrorKind> {
    match spec_next_value(ts, i) {
        PStep::Fail(e) => Result::Err(e),
        PStep::Exhausted(p) => Result::Err(ParseErrorKind::NonValue),
        PStep::Value(v, p) => match spec_next_value(ts, p) {
            PStep::Exhausted(q) => Result::Ok(v),
            PStep::Value(v2, q) => Result::Err(ParseErrorKind::InvalidToken),
            PStep::Fail(e) => Result::Err(e),
        },
    }
}


#[via_fn]
proof fn spec_next_value_decreases(ts: Seq<Lexeme>, i: int) {
    if 0 <= i <= ts.len() {
        lemma_skip_ws(ts, i);
    }
}


#[via_fn]
proof fn spec_object_body_decreases(ts: Seq<Lexeme>, i: int) {
    if 0 <= i <= ts.len() {
        lemma_skip_ws(ts, i);
    }
}


#[via_fn]
proof fn spec_object_rest_decreases(ts: Seq<Lexeme>, i: int, acc: Seq<(Seq<char>, ValueModel)>) {
    if 0 <= i <= ts.len() {
        lemma_skip_ws(ts, i);
    }
}


#[via_fn]
proof fn spec_get_object_decreases(ts: Seq<Lexeme>, i: int) {
    if 0 <= i <= ts.len() {
        lemma_skip_ws(ts, i);
        let j = spec_skip_ws(ts, i);
        if j < ts.len() {
            lemma_skip_ws(ts, j + 1);
        }
    }
}


#[via_fn]
proof fn spec_array_body_decreases(ts: Seq<Lexeme>, i: int) {
    if 0 <= i <= ts.len() {
        lemma_skip_ws(ts, i);
    }
}


#[via_fn]
proof fn spec_array_rest_decreases(ts: Seq<Lexeme>, i: int, acc: Seq<ValueModel>) {
    if 0 <= i <= ts.len() {
        lemma_skip_ws(ts, i);
    }
}


/// Converts one pending run of UTF-16 code units and appends the
/// decoded characters to `out`: exactly `spec_utf16`.
#[verifier::loop_isolation(false)]
fn flush_units(out: &mut String, us: &Vec<u16>) -> (r: Result<(), JsonParseError>)
    ensures
        match spec_utf16(us@) {
            Result::Ok(d) => r is Ok && final(out)@ == old(out)@ + d,
            Result::Err(k) => r matches Err(e) && e.kind == k,
        },
{
    let n = us.len();
    let mut i: usize = 0;
    proof {
        assert(us@.skip(0) =~= us@);
    }
    loop
        invariant
            i <= n,
            n == us@.len(),
            match spec_utf16(us@) {
                Result::Ok(d) => spec_utf16(us@.skip(i as int)) matches Result::Ok(rest) && out@
                    + rest == old(out)@ + d,
                Result::Err(k) => spec_utf16(us@.skip(i as int)) matches Result::Err(k2) && k2
                    == k,
            },
        decreases n - i,
    {
        if i >= n {
            proof {
                assert(us@.skip(i as int) =~= Seq::<u16>::empty());
            }
            return Ok(());
        }
        let u = us[i];
        proof {
            assert(us@.skip(i as int)[0] == us@[i as int]);
        }
        if 0xd800 <= u && u <= 0xdbff {
            if i + 1 < n {
                let u2 = us[i + 1];
                proof {
                    assert(us@.skip(i as int)[1] == us@[i + 1]);
                }
                if 0xdc00 <= u2 && u2 <= 0xdfff {
                    let code: u32 = 0x10000 + (u as u32 - 0xd800) * 0x400 + (u2 as u32 - 0xdc00);
                    let c = char_from_code(code);
                    proof {
                        vstd::utf8::char_u32_cast(c, code);
                        assert(code == combine_surrogates(u, u2));
                        assert(us@.skip(i as int).skip(2) =~= us@.skip(i + 2));
                    }
                    push_char(out, c);
                    proof {
                        match spec_utf16(us@.skip(i + 2)) {
                            Result::Ok(rest2) => {
                                assert(old(out)@ + (seq![c] + rest2) =~= (old(out)@.push(c))
                                    + rest2);
                            },
                            Result::Err(k2) => {},
                        }
                    }
                    i = i + 2;
                } else {
                    return Err(JsonParseError { kind: ParseErrorKind::FromUtf16Error });
                }
            } else {
                return Err(JsonParseError { kind: ParseErrorKind::FromUtf16Error });
            }
        } else if 0xdc00 <= u && u <= 0xdfff {
            return Err(JsonParseError { kind: ParseErrorKind::FromUtf16Error });
        } else {
            let c = char_from_code(u as u32);
            proof {
                vstd::utf8::char_u32_cast(c, u as u32);
                assert(us@.skip(i as int).skip(1) =~= us@.skip(i + 1));
            }
            push_char(out, c);
            proof {
                match spec_utf16(us@.skip(i + 1)) {
                    Result::Ok(rest2) => {
                        assert(old(out)@ + (seq![c] + rest2) =~= (old(out)@.push(c)) + rest2);
                    },
                    Result::Err(k2) => {},
                }
            }
            i = i + 1;
        }
    }
}

/// The parser: an index cursor over the token sequence.
pub struct JsonParser {
    tokens: Vec<JsonToken>,
    position: usize,
}

impl JsonParser {
    /// The token sequence this parser consumes.
    pub closed spec fn toks(&self) -> Seq<Lexeme> {
        lexemes_of(self.tokens@)
    }

    /// The position of the cursor.
    pub closed spec fn pos(&self) -> int {
        self.position as int
    }

    /// A parser standing at the start of the token sequence.
    pub fn new(tokens: JsonTokens) -> (p: JsonParser)
        ensures
            p.toks() == tokens@,
            p.pos() == 0,
    {
        JsonParser { tokens: tokens.tokens, position: 0 }
    }

    /// Resolves the character tokens of one string token into text,
    /// converting each pending run of `\uXXXX` units as UTF-16:
    /// exactly `spec_token_to_string`.
    #[verifier::loop_isolation(false)]
    fn token_to_string(s: &Vec<JsonCharToken>) -> (r: Result<String, JsonParseError>)
        ensures
            match spec_token_to_string(s@) {
                Result::Ok(txt) => r matches Ok(st) && st@ == txt,
                Result::Err(k) => r matches Err(e) && e.kind == k,
            },
    {
        let n = s.len();
        let mut out = String::new();
        let mut pending: Vec<u16> = Vec::new();
        let mut i: usize = 0;
        loop
            invariant
                i <= n,
                n == s@.len(),
                spec_token_to_string(s@) == spec_resolve(s@, i as int, pending@, out@),
            decreases n - i,
        {
            if i >= n {
                match flush_units(&mut out, &pending) {
                    Err(e) => {
                        return Err(e);
                    },
                    Ok(()) => {
                        return Ok(out);
                    },
                }
            }
            let ct = s[i];
            match ct {
                JsonCharToken::Unicode(u) => {
                    pending.push(u);
                    i = i + 1;
                },
                JsonCharToken::UnEscaped(c) => {
                    match flush_units(&mut out, &pending) {
                        Err(e) => {
                            return Err(e);
                        },
                        Ok(()) => {
                            pending.clear();
                            let ghost mid = out@;
                            push_char(&mut out, c);
                            proof {
                                assert(out@ =~= mid + seq![c]);
                            }
                            i = i + 1;
                        },
                    }
                },
                JsonCharToken::Escape(c) => {
                    match flush_units(&mut out, &pending) {
                        Err(e) => {
                            return Err(e);
                        },
                        Ok(()) => {
                            pending.clear();
                            let ghost mid = out@;
                            push_char(&mut out, c);
                            proof {
                                assert(out@ =~= mid + seq![c]);
                            }
                            i = i + 1;
                        },
                    }
                },
            }
        }
    }

    /// Moves the cursor to the next token of substance: exactly
    /// `spec_skip_ws`.
    #[verifier::loop_isolation(false)]
    fn skip_ws(&mut self)
        requires
            old(self).position <= old(self).tokens@.len(),
        ensures
            final(self).tokens@ == old(self).tokens@,
            final(self).position <= final(self).tokens@.len(),
            old(self).position <= final(self).position,
            final(self).position as int == spec_skip_ws(
                lexemes_of(old(self).tokens@),
                old(self).position as int,
            ),
    {
        loop
            invariant
                self.tokens@ == old(self).tokens@,
                self.position <= self.tokens@.len(),
                old(self).position <= self.position,
                spec_skip_ws(lexemes_of(self.tokens@), old(self).position as int)
                    == spec_skip_ws(lexemes_of(self.tokens@), self.position as int),
            decreases self.tokens@.len() - self.position,
        {
            let p = self.position;
            if p >= self.tokens.len() {
                return ;
            }
            let ghost ts = lexemes_of(self.tokens@);
            proof {
                assert(ts[p as int] == self.tokens@[p as int]@);
            }
            let is_ws = match vec_index(&self.tokens, p) {
                JsonToken::WhiteSpace(_) => true,
                _ => false,
            };
            if is_ws {
                self.position = p + 1;
            } else {
                return ;
            }
        }
    }
}


impl JsonParser {
    /// Parses one value, dispatching on the token under the cursor:
    /// exactly `spec_next_value`. Yields nothing when only whitespace
    /// remained.
    fn next_value(&mut self) -> (r: Result<Option<JsonValue>, JsonParseError>)
        requires
            old(self).position <= old(self).tokens@.len(),
        ensures
            final(self).tokens@ == old(self).tokens@,
            final(self).position <= final(self).tokens@.len(),
            old(self).position <= final(self).position,
            match spec_next_value(lexemes_of(old(self).tokens@), old(self).position as int) {
                PStep::Value(m, p) => {
                    &&& r matches Ok(Some(v)) && view_value(v) == m
                    &&& final(self).position == p
                    &&& old(self).position < final(self).position
                },
                PStep::Exhausted(p) => r matches Ok(None) && final(self).position == p,
                PStep::Fail(k) => r matches Err(e) && e.kind == k,
            },
        decreases old(self).tokens@.len() - old(self).position, 0int,
    {
        let ghost ts = lexemes_of(self.tokens@);
        self.skip_ws();
        let j = self.position;
        if j >= self.tokens.len() {
            return Ok(None);
        }
        proof {
            assert(ts[j as int] == self.tokens@[j as int]@);
        }
        match vec_index(&self.tokens, j) {
            JsonToken::BeginObject => {
                self.position = j + 1;
                match self.parse_object() {
                    Ok(v) => Ok(Some(v)),
                    Err(e) => Err(e),
                }
            },
            JsonToken::BeginArray => {
                self.position = j + 1;
                match self.parse_array() {
                    Ok(v) => Ok(Some(v)),
                    Err(e) => Err(e),
                }
            },
            JsonToken::Number(n) => {
                let num = JsonNumber {
                    is_minus: n.is_minus,
                    integer: n.integer.clone(),
                    frac: n.frac.clone(),
                    exp: n.exp.clone(),
                };
                self.position = j + 1;
                if num.is_valid() {
                    Ok(Some(JsonValue::Number(num)))
                } else {
                    Err(JsonParseError { kind: ParseErrorKind::ParseFloatError })
                }
            },
            JsonToken::True => {
                self.position = j + 1;
                Ok(Some(JsonValue::Boolean(true)))
            },
            JsonToken::False => {
                self.position = j + 1;
                Ok(Some(JsonValue::Boolean(false)))
            },
            JsonToken::Null => {
                self.position = j + 1;
                Ok(Some(JsonValue::Null))
            },
            JsonToken::String(cs) => {
                let resolved = Self::token_to_string(cs);
                self.position = j + 1;
                match resolved {
                    Ok(st) => Ok(Some(JsonValue::String(st))),
                    Err(e) => Err(e),
                }
            },
            _ => Err(JsonParseError { kind: ParseErrorKind::InvalidToken }),
        }
    }

    /// Parses the pairs of an object whose opening brace was just
    /// consumed: exactly `spec_object_body`.
    #[verifier::loop_isolation(false)]
    fn parse_object(&mut self) -> (r: Result<JsonValue, JsonParseError>)
        requires
            old(self).position <= old(self).tokens@.len(),
        ensures
            final(self).tokens@ == old(self).tokens@,
            final(self).position <= final(self).tokens@.len(),
            old(self).position <= final(self).position,
            match spec_object_body(lexemes_of(old(self).tokens@), old(self).position as int) {
                PStep::Value(m, p) => {
                    &&& r matches Ok(v) && view_value(v) == m
                    &&& final(self).position == p
                },
                PStep::Exhausted(p) => false,
                PStep::Fail(k) => r matches Err(e) && e.kind == k,
            },
        decreases old(self).tokens@.len() - old(self).position, 3int,
    {
        let ghost ts = lexemes_of(self.tokens@);
        let ghost i0 = self.position as int;
        self.skip_ws();
        let j = self.position;
        if j >= self.tokens.len() {
            return Err(JsonParseError { kind: ParseErrorKind::NonEndObject });
        }
        proof {
            assert(ts[j as int] == self.tokens@[j as int]@);
        }
        let is_end = match vec_index(&self.tokens, j) {
            JsonToken::EndObject => true,
            _ => false,
        };
        let mut objects: Vec<JsonObject> = Vec::new();
        if is_end {
            self.position = j + 1;
            return Ok(JsonValue::Objects(objects));
        }
        match self.get_object() {
            Err(e) => {
                return Err(e);
            },
            Ok(o) => {
                let ghost before = objects@;
                objects.push(o);
                proof {
                    lemma_view_objects_push(before, objects@.last());
                    assert(view_objects(before) =~= Seq::<(Seq<char>, ValueModel)>::empty());
                }
            },
        }
        loop
            invariant
                self.tokens@ == old(self).tokens@,
                self.position <= self.tokens@.len(),
                i0 < self.position as int,
                spec_object_rest(ts, self.position as int, view_objects(objects@))
                    == spec_object_body(ts, i0),
            decreases self.tokens@.len() - self.position,
        {
            self.skip_ws();
            let k = self.position;
            if k >= self.tokens.len() {
                return Err(JsonParseError { kind: ParseErrorKind::NonEndObject });
            }
            proof {
                assert(ts[k as int] == self.tokens@[k as int]@);
            }
            let kind: u8 = match vec_index(&self.tokens, k) {
                JsonToken::ValueSeparator => 0,
                JsonToken::EndObject => 1,
                _ => 2,
            };
            if kind == 0 {
                self.position = k + 1;
                match self.get_object() {
                    Err(e) => {
                        return Err(e);
                    },
                    Ok(o) => {
                        let ghost before = objects@;
                        objects.push(o);
                        proof {
                            lemma_view_objects_push(before, objects@.last());
                        }
                    },
                }
            } else if kind == 1 {
                self.position = k + 1;
                return Ok(JsonValue::Objects(objects));
            } else {
                return Err(JsonParseError { kind: ParseErrorKind::InvalidToken });
            }
        }
    }

    /// Parses the values of an array whose opening bracket was just
    /// consumed: exactly `spec_array_body`.
    #[verifier::loop_isolation(false)]
    fn parse_array(&mut self) -> (r: Result<JsonValue, JsonParseError>)
        requires
            old(self).position <= old(self).tokens@.len(),
        ensures
            final(self).tokens@ == old(self).tokens@,
            final(self).position <= final(self).tokens@.len(),
            old(self).position <= final(self).position,
            match spec_array_body(lexemes_of(old(self).tokens@), old(self).position as int) {
                PStep::Value(m, p) => {
                    &&& r matches Ok(v) && view_value(v) == m
                    &&& final(self).position == p
                },
                PStep::Exhausted(p) => false,
                PStep::Fail(k) => r matches Err(e) && e.kind == k,
            },
        decreases old(self).tokens@.len() - old(self).position, 3int,
    {
        let ghost ts = lexemes_of(self.tokens@);
        let ghost i0 = self.position as int;
        self.skip_ws();
        let j = self.position;
        if j >= self.tokens.len() {
            return Err(JsonParseError { kind: ParseErrorKind::NonEndArray });
        }
        proof {
            assert(ts[j as int] == self.tokens@[j as int]@);
        }
        let is_end = match vec_index(&self.tokens, j) {
            JsonToken::EndArray => true,
            _ => false,
        };
        let mut values: Vec<JsonValue> = Vec::new();
        if is_end {
            self.position = j + 1;
            return Ok(JsonValue::Array(values));
        }
        match self.next_value() {
            Err(e) => {
                return Err(e);
            },
            Ok(None) => {
                return Err(JsonParseError { kind: ParseErrorKind::NonEndArray });
            },
            Ok(Some(v)) => {
                let ghost before = values@;
                values.push(v);
                proof {
                    lemma_view_values_push(before, values@.last());
                    assert(view_values(before) =~= Seq::<ValueModel>::empty());
                }
            },
        }
        loop
            invariant
                self.tokens@ == old(self).tokens@,
                self.position <= self.tokens@.len(),
                i0 < self.position as int,
                spec_array_rest(ts, self.position as int, view_values(values@))
                    == spec_array_body(ts, i0),
            decreases self.tokens@.len() - self.position,
        {
            self.skip_ws();
            let k = self.position;
            if k >= self.tokens.len() {
                return Err(JsonParseError { kind: ParseErrorKind::NonEndArray });
            }
            proof {
                assert(ts[k as int] == self.tokens@[k as int]@);
            }
            let kind: u8 = match vec_index(&self.tokens, k) {
                JsonToken::EndArray => 0,
                JsonToken::ValueSeparator => 1,
                _ => 2,
            };
            if kind == 0 {
                self.position = k + 1;
                return Ok(JsonValue::Array(values));
            } else if kind == 1 {
                self.position = k + 1;
                match self.next_value() {
                    Err(e) => {
                        return Err(e);
                    },
                    Ok(None) => {
                        return Err(JsonParseError { kind: ParseErrorKind::NonValue });
                    },
                    Ok(Some(v)) => {
                        let ghost before = values@;
                        values.push(v);
                        proof {
                            lemma_view_values_push(before, values@.last());
                        }
                    },
                }
            } else {
                return Err(JsonParseError { kind: ParseErrorKind::InvalidToken });
            }
        }
    }

    /// Parses one name/value pair: exactly `spec_get_object`. Where
    /// the tokens run out after the name separator, the value is
    /// null, as the enclosing object then fails on its missing
    /// closing brace.
    fn get_object(&mut self) -> (r: Result<JsonObject, JsonParseError>)
        requires
            old(self).position <= old(self).tokens@.len(),
        ensures
            final(self).tokens@ == old(self).tokens@,
            final(self).position <= final(self).tokens@.len(),
            old(self).position <= final(self).position,
            match spec_get_object(lexemes_of(old(self).tokens@), old(self).position as int) {
                Result::Ok(pp) => {
                    &&& r matches Ok(o) && o.name@ == pp.0.0 && view_value(o.value) == pp.0.1
                    &&& final(self).position == pp.1
                    &&& old(self).position < final(self).position
                },
                Result::Err(k) => r matches Err(e) && e.kind == k,
            },
        decreases old(self).tokens@.len() - old(self).position, 1int,
    {
        let ghost ts = lexemes_of(self.tokens@);
        self.skip_ws();
        let j = self.position;
        if j >= self.tokens.len() {
            return Err(JsonParseError { kind: ParseErrorKind::NoObjectName });
        }
        proof {
            assert(ts[j as int] == self.tokens@[j as int]@);
        }
        let resolved = match vec_index(&self.tokens, j) {
            JsonToken::String(cs) => Self::token_to_string(cs),
            _ => {
                return Err(JsonParseError { kind: ParseErrorKind::InvalidToken });
            },
        };
        let name = match resolved {
            Err(e) => {
                return Err(e);
            },
            Ok(st) => st,
        };
        self.position = j + 1;
        self.skip_ws();
        let k = self.position;
        if k >= self.tokens.len() {
            return Err(JsonParseError { kind: ParseErrorKind::NoObjectName });
        }
        proof {
            assert(ts[k as int] == self.tokens@[k as int]@);
        }
        let is_sep = match vec_index(&self.tokens, k) {
            JsonToken::NameSeparator => true,
            _ => false,
        };
        if !is_sep {
            return Err(JsonParseError { kind: ParseErrorKind::InvalidToken });
        }
        self.position = k + 1;
        match self.next_value() {
            Err(e) => Err(e),
            Ok(Some(v)) => Ok(JsonObject { name, value: v }),
            Ok(None) => Ok(JsonObject { name, value: JsonValue::Null }),
        }
    }

    /// The top-level rule: exactly one value and nothing of substance
    /// after it: exactly `spec_get_value`.
    pub fn get_value(&mut self) -> (r: Result<JsonValue, JsonParseError>)
        requires
            old(self).pos() <= old(self).toks().len(),
        ensures
            match spec_get_value(old(self).toks(), old(self).pos()) {
                Result::Ok(m) => r matches Ok(v) && view_value(v) == m,
                Result::Err(k) => r matches Err(e) && e.kind == k,
            },
    {
        match self.next_value() {
            Err(e) => Err(e),
            Ok(None) => Err(JsonParseError { kind: ParseErrorKind::NonValue }),
            Ok(Some(v)) => match self.next_value() {
                Ok(None) => Ok(v),
                Ok(Some(_)) => Err(JsonParseError { kind: ParseErrorKind::InvalidToken }),
                Err(e) => Err(e),
            },
        }
    }
}


/// What parsing a whole text yields: the lexing pass, then the
/// top-level parse. A lexer failure is wrapped unchanged into the
/// parse-level taxonomy.
pub open spec fn spec_parse_text(s: Seq<char>) -> Result<ValueModel, ParseErrorKind> {
    match crate::lexer::spec_tokenize(s, 0) {
        Result::Err(k) => Result::Err(
            ParseErrorKind::LexError(crate::error::JsonLexerError { kind: k }),
        ),
        Result::Ok(ts) => spec_get_value(ts, 0),
    }
}

/// Runs the whole pipeline on one text: tokens, then the value tree:
/// exactly `spec_parse_text`.
pub fn parse_json(text: &str) -> (r: Result<JsonValue, JsonParseError>)
    ensures
        match spec_parse_text(text@) {
            Result::Ok(m) => r matches Ok(v) && view_value(v) == m,
            Result::Err(k) => r matches Err(e) && e.kind == k,
        },
{
    let mut lexer = crate::lexer::JsonLexer::new(text);
    match lexer.tokenize() {
        Err(e) => Err(JsonParseError { kind: ParseErrorKind::LexError(e) }),
        Ok(tokens) => {
            let mut parser = JsonParser::new(tokens);
            parser.get_value()
        },
    }
}

} // verus!
