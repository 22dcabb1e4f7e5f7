//! The lexer: a single forward pass that turns JSON text into tokens.
//!
//! The whole stage is specified by the spec functions `spec_next_token`,
//! `spec_string_token`, the number-mode spec functions and
//! `spec_tokenize`; the executable lexer is proved to return exactly
//! what they describe.

use vstd::prelude::*;
use vstd::string::StrSliceExecFns;
use crate::error::{JsonLexerError, LexErrorKind};
use crate::text::{
    is_ws_char, is_digit_char, is_hex_char, hex_value, is_unescaped_char, ws_char, digit_char,
    hex_char, hex_digit_value, unescaped_char, push_char, char_at,
};

verus! {

/// One resolved character of a JSON string literal.
#[derive(Clone, Copy, Debug, PartialEq, Eq)]
pub enum JsonCharToken {
    /// A code point written literally in the text.
    UnEscaped(char),
    /// The resolved form of a single-character escape, e.g. a tab.
    Escape(char),
    /// A raw UTF-16 code unit from a `\uXXXX` escape, not yet combined
    /// into a code point: a surrogate pair spans two of these.
    Unicode(u16),
}

/// An unfinished number: a minus flag and three digit buffers.
///
/// The integer buffer is never empty once the token is finished;
/// empty fraction and exponent buffers signal the absence of that
/// grammar component. The exponent buffer may begin with a sign.
#[derive(Debug, PartialEq, Eq)]
pub struct JsonNumberToken {
    pub is_minus: bool,
    pub integer: String,
    pub frac: String,
    pub exp: String,
}

/// The mathematical content of a number token.
#[verifier::ext_equal]
pub struct NumberModel {
    pub is_minus: bool,
    pub integer: Seq<char>,
    pub frac: Seq<char>,
    pub exp: Seq<char>,
}

impl View for JsonNumberToken {
    type V = NumberModel;

    open spec fn view(&self) -> NumberModel {
        NumberModel {
            is_minus: self.is_minus,
            integer: self.integer@,
            frac: self.frac@,
            exp: self.exp@,
        }
    }
}

impl JsonNumberToken {
    /// A fresh number token with the given sign and empty buffers.
    pub fn new(is_minus: bool) -> (n: JsonNumberToken)
        ensures
            n@ == (NumberModel {
                is_minus,
                integer: Seq::<char>::empty(),
                frac: Seq::<char>::empty(),
                exp: Seq::<char>::empty(),
            }),
    {
        JsonNumberToken { is_minus, integer: String::new(), frac: String::new(), exp: String::new() }
    }
}

/// An atomic lexical unit of JSON text.
#[derive(Debug, PartialEq, Eq)]
pub enum JsonToken {
    BeginArray,
    BeginObject,
    EndArray,
    EndObject,
    NameSeparator,
    ValueSeparator,
    Digit(char),
    Number(JsonNumberToken),
    DecimalPoint,
    WhiteSpace(char),
    Exponent,
    Minus,
    Plus,
    True,
    False,
    Null,
    String(Vec<JsonCharToken>),
}

/// The mathematical content of a token.
pub enum Lexeme {
    BeginArray,
    BeginObject,
    EndArray,
    EndObject,
    NameSeparator,
    ValueSeparator,
    Digit(char),
    Number(NumberModel),
    DecimalPoint,
    WhiteSpace(char),
    Exponent,
    Minus,
    Plus,
    True,
    False,
    Null,
    Str(Seq<JsonCharToken>),
}

impl View for JsonToken {
    type V = Lexeme;

    open spec fn view(&self) -> Lexeme {
        match self {
            JsonToken::BeginArray => Lexeme::BeginArray,
            JsonToken::BeginObject => Lexeme::BeginObject,
            JsonToken::EndArray => Lexeme::EndArray,
            JsonToken::EndObject => Lexeme::EndObject,
            JsonToken::NameSeparator => Lexeme::NameSeparator,
            JsonToken::ValueSeparator => Lexeme::ValueSeparator,
            JsonToken::Digit(c) => Lexeme::Digit(*c),
            JsonToken::Number(n) => Lexeme::Number(n@),
            JsonToken::DecimalPoint => Lexeme::DecimalPoint,
            JsonToken::WhiteSpace(c) => Lexeme::WhiteSpace(*c),
            JsonToken::Exponent => Lexeme::Exponent,
            JsonToken::Minus => Lexeme::Minus,
            JsonToken::Plus => Lexeme::Plus,
            JsonToken::True => Lexeme::True,
            JsonToken::False => Lexeme::False,
            JsonToken::Null => Lexeme::Null,
            JsonToken::String(cs) => Lexeme::Str(cs@),
        }
    }
}

/// The token views of a token sequence.
pub open spec fn lexemes_of(ts: Seq<JsonToken>) -> Seq<Lexeme> {
    ts.map_values(|t: JsonToken| t@)
}

/// The ordered sequence of tokens of one JSON text.
#[derive(Debug)]
pub struct JsonTokens {
    pub tokens: Vec<JsonToken>,
}

impl View for JsonTokens {
    type V = Seq<Lexeme>;

    open spec fn view(&self) -> Seq<Lexeme> {
        lexemes_of(self.tokens@)
    }
}

/// What reading one token from position `i` of the text yields.
pub enum LexStep {
    /// A token, and the position just after it.
    Tok(Lexeme, int),
    /// The input is exhausted; this is success, not an error.
    End,
    /// Lexing fails with this kind.
    Fail(LexErrorKind),
}

/// How many characters remain at position `i` of `s`.
pub open spec fn remaining(s: Seq<char>, i: int) -> int {
    if i <= s.len() {
        s.len() - i
    } else {
        0
    }
}

/// The position after a step that began at `i` and reports position
/// `j`. Reading always moves forward, so this equals `j` for every
/// step the lexer actually takes (`lemma_next_token_advances`,
/// `lemma_num_advances`); the guard only makes that forward movement
/// plain to the termination checker.
pub open spec fn adv(i: int, j: int) -> int {
    if j > i {
        j
    } else {
        i + 1
    }
}

/// The code unit named by the four hex digits at positions
/// `i .. i + 4` of `s`.
pub open spec fn hex4_code(s: Seq<char>, i: int) -> u16 {
    (hex_value(s[i]) * 0x1000 + hex_value(s[i + 1]) * 0x100 + hex_value(s[i + 2]) * 0x10
        + hex_value(s[i + 3])) as u16
}

/// Binds the code unit named by the hex digits at `i .. i + 4` to a
/// fresh name, for proofs to build terms with.
pub proof fn hex4_at(s: Seq<char>, i: int) -> (u: u16)
    ensures
        u == hex4_code(s, i),
{
    hex4_code(s, i)
}

/// String mode: the characters collected so far are `acc`, and the
/// cursor stands at position `i`, just past the last consumed
/// character of the literal.
pub open spec fn spec_string_token(s: Seq<char>, i: int, acc: Seq<JsonCharToken>) -> LexStep
    decreases remaining(s, i),
{
    if i >= s.len() {
        LexStep::Fail(LexErrorKind::NonQuotationMark)
    } else {
        let c = s[i];
        if c == '"' {
            LexStep::Tok(Lexeme::Str(acc), i + 1)
        } else if c == '\\' {
            if i + 1 >= s.len() {
                LexStep::Fail(LexErrorKind::NonQuotationMark)
            } else {
                let e = s[i + 1];
                if e == 't' {
                    spec_string_token(s, i + 2, acc.push(JsonCharToken::Escape('\t')))
                } else if e == 'r' {
                    spec_string_token(s, i + 2, acc.push(JsonCharToken::Escape('\r')))
                } else if e == 'n' {
                    spec_string_token(s, i + 2, acc.push(JsonCharToken::Escape('\n')))
                } else if e == '\\' {
                    spec_string_token(s, i + 2, acc.push(JsonCharToken::Escape('\\')))
                } else if e == '"' {
                    spec_string_token(s, i + 2, acc.push(JsonCharToken::Escape('"')))
                } else if e == '/' {
                    spec_string_token(s, i + 2, acc.push(JsonCharToken::Escape('/')))
                } else if e == 'u' {
                    if i + 6 <= s.len() && is_hex_char(s[i + 2]) && is_hex_char(s[i + 3])
                        && is_hex_char(s[i + 4]) && is_hex_char(s[i + 5]) {
                        spec_string_token(s, i + 6, acc.push(JsonCharToken::Unicode(hex4_code(s, i + 2))))
                    } else {
                        LexStep::Fail(LexErrorKind::ParseError)
                    }
                } else {
                    LexStep::Fail(LexErrorKind::InvalidChar('\\'))
                }
            }
        } else if is_unescaped_char(c) {
            spec_string_token(s, i + 1, acc.push(JsonCharToken::UnEscaped(c)))
        } else {
            LexStep::Fail(LexErrorKind::InvalidChar(c))
        }
    }
}

/// One dispatch step of the lexer: reading the token that starts at
/// position `i`, with one code point of lookahead.
pub open spec fn spec_next_token(s: Seq<char>, i: int) -> LexStep {
    if i >= s.len() {
        LexStep::End
    } else {
        let c = s[i];
        if is_ws_char(c) {
            LexStep::Tok(Lexeme::WhiteSpace(c), i + 1)
        } else if c == '{' {
            LexStep::Tok(Lexeme::BeginObject, i + 1)
        } else if c == '}' {
            LexStep::Tok(Lexeme::EndObject, i + 1)
        } else if c == '[' {
            LexStep::Tok(Lexeme::BeginArray, i + 1)
        } else if c == ']' {
            LexStep::Tok(Lexeme::EndArray, i + 1)
        } else if c == ':' {
            LexStep::Tok(Lexeme::NameSeparator, i + 1)
        } else if c == ',' {
            LexStep::Tok(Lexeme::ValueSeparator, i + 1)
        } else if c == '"' {
            spec_string_token(s, i + 1, Seq::empty())
        } else if c == '-' {
            LexStep::Tok(Lexeme::Minus, i + 1)
        } else if c == '+' {
            LexStep::Tok(Lexeme::Plus, i + 1)
        } else if c == '.' {
            LexStep::Tok(Lexeme::DecimalPoint, i + 1)
        } else if c == 'e' || c == 'E' {
            LexStep::Tok(Lexeme::Exponent, i + 1)
        } else if is_digit_char(c) {
            LexStep::Tok(Lexeme::Digit(c), i + 1)
        } else if c == 't' {
            if i + 4 <= s.len() && s[i + 1] == 'r' && s[i + 2] == 'u' && s[i + 3] == 'e' {
                LexStep::Tok(Lexeme::True, i + 4)
            } else {
                LexStep::Fail(LexErrorKind::InvalidChar('t'))
            }
        } else if c == 'f' {
            if i + 5 <= s.len() && s[i + 1] == 'a' && s[i + 2] == 'l' && s[i + 3] == 's' && s[i + 4]
                == 'e' {
                LexStep::Tok(Lexeme::False, i + 5)
            } else {
                LexStep::Fail(LexErrorKind::InvalidChar('f'))
            }
        } else if c == 'n' {
            if i + 4 <= s.len() && s[i + 1] == 'u' && s[i + 2] == 'l' && s[i + 3] == 'l' {
                LexStep::Tok(Lexeme::Null, i + 4)
            } else {
                LexStep::Fail(LexErrorKind::InvalidChar('n'))
            }
        } else {
            LexStep::Fail(LexErrorKind::InvalidChar(c))
        }
    }
}

/// Every token the string mode yields ends strictly past where it
/// began and within the text.
pub proof fn lemma_string_token_advances(s: Seq<char>, i: int, acc: Seq<JsonCharToken>)
    ensures
        spec_string_token(s, i, acc) matches LexStep::Tok(t, j) ==> i < j <= s.len(),
    decreases remaining(s, i),
{
    if i < s.len() {
        let c = char_at(s, i);
        if c == '\\' && i + 1 < s.len() {
            let e = char_at(s, i + 1);
            if e == 't' {
                lemma_string_token_advances(s, i + 2, acc.push(JsonCharToken::Escape('\t')));
            } else if e == 'r' {
                lemma_string_token_advances(s, i + 2, acc.push(JsonCharToken::Escape('\r')));
            } else if e == 'n' {
                lemma_string_token_advances(s, i + 2, acc.push(JsonCharToken::Escape('\n')));
            } else if e == '\\' {
                lemma_string_token_advances(s, i + 2, acc.push(JsonCharToken::Escape('\\')));
            } else if e == '"' {
                lemma_string_token_advances(s, i + 2, acc.push(JsonCharToken::Escape('"')));
            } else if e == '/' {
                lemma_string_token_advances(s, i + 2, acc.push(JsonCharToken::Escape('/')));
            } else if e == 'u' && i + 6 <= s.len() {
                let u = hex4_at(s, i + 2);
                lemma_string_token_advances(s, i + 6, acc.push(JsonCharToken::Unicode(u)));
            }
        } else if is_unescaped_char(c) {
            lemma_string_token_advances(s, i + 1, acc.push(JsonCharToken::UnEscaped(c)));
        }
    }
}

/// Every token the lexer yields ends strictly past where it began and
/// within the text.
pub proof fn lemma_next_token_advances(s: Seq<char>, i: int)
    ensures
        spec_next_token(s, i) matches LexStep::Tok(t, j) ==> i < j <= s.len(),
{
    if i < s.len() && s[i] == '"' {
        lemma_string_token_advances(s, i + 1, Seq::empty());
    }
}

/// What number mode yields: the completed number record, the token
/// that terminated the numeric literal (to be re-queued by the
/// caller), if any, and the position after everything consumed.
pub enum NumResult {
    Num(NumberModel, Option<Lexeme>, int),
    Fail(LexErrorKind),
}

/// Number mode while digits extend the integer buffer.
pub open spec fn spec_num_int(s: Seq<char>, i: int, n: NumberModel) -> NumResult
    decreases remaining(s, i), 2int,
{
    match spec_next_token(s, i) {
        LexStep::End => NumResult::Num(n, Option::None, i),
        LexStep::Fail(k) => NumResult::Fail(k),
        LexStep::Tok(t, j) => {
            let j1 = adv(i, j);
            match t {
                Lexeme::Digit(d) => spec_num_int(
                    s,
                    j1,
                    NumberModel { integer: n.integer.push(d), ..n },
                ),
                Lexeme::DecimalPoint => match spec_next_token(s, j1) {
                    LexStep::End => NumResult::Fail(LexErrorKind::NonFracDigit),
                    LexStep::Fail(k) => NumResult::Fail(k),
                    LexStep::Tok(t2, j2) => match t2 {
                        Lexeme::Digit(d) => spec_num_frac(
                            s,
                            adv(j1, j2),
                            NumberModel { frac: n.frac.push(d), ..n },
                        ),
                        _ => NumResult::Fail(LexErrorKind::NonFracDigit),
                    },
                },
                Lexeme::Exponent => spec_num_exp_start(s, j1, n),
                _ => NumResult::Num(n, Option::Some(t), j1),
            }
        },
    }
}

/// Number mode while digits extend the fraction buffer.
pub open spec fn spec_num_frac(s: Seq<char>, i: int, n: NumberModel) -> NumResult
    decreases remaining(s, i), 2int,
{
    match spec_next_token(s, i) {
        LexStep::End => NumResult::Num(n, Option::None, i),
        LexStep::Fail(k) => NumResult::Fail(k),
        LexStep::Tok(t, j) => {
            let j1 = adv(i, j);
            match t {
                Lexeme::Digit(d) => spec_num_frac(
                    s,
                    j1,
                    NumberModel { frac: n.frac.push(d), ..n },
                ),
                Lexeme::Exponent => spec_num_exp_start(s, j1, n),
                _ => NumResult::Num(n, Option::Some(t), j1),
            }
        },
    }
}

/// Number mode just after the exponent marker: an optional sign is
/// recorded if present; a digit already extends the exponent buffer.
pub open spec fn spec_num_exp_start(s: Seq<char>, i: int, n: NumberModel) -> NumResult
    decreases remaining(s, i), 1int,
{
    match spec_next_token(s, i) {
        LexStep::End => NumResult::Num(n, Option::None, i),
        LexStep::Fail(k) => NumResult::Fail(k),
        LexStep::Tok(t, j) => {
            let j1 = adv(i, j);
            match t {
                Lexeme::Minus => spec_num_exp(s, j1, NumberModel { exp: n.exp.push('-'), ..n }),
                Lexeme::Plus => spec_num_exp(s, j1, NumberModel { exp: n.exp.push('+'), ..n }),
                Lexeme::Digit(d) => spec_num_exp(s, j1, NumberModel { exp: n.exp.push(d), ..n }),
                _ => NumResult::Num(n, Option::Some(t), j1),
            }
        },
    }
}

/// Number mode while digits extend the exponent buffer.
pub open spec fn spec_num_exp(s: Seq<char>, i: int, n: NumberModel) -> NumResult
    decreases remaining(s, i), 0int,
{
    match spec_next_token(s, i) {
        LexStep::End => NumResult::Num(n, Option::None, i),
        LexStep::Fail(k) => NumResult::Fail(k),
        LexStep::Tok(t, j) => {
            let j1 = adv(i, j);
            match t {
                Lexeme::Digit(d) => spec_num_exp(s, j1, NumberModel { exp: n.exp.push(d), ..n }),
                _ => NumResult::Num(n, Option::Some(t), j1),
            }
        },
    }
}

/// Number mode never moves the cursor backwards or past the end.
pub proof fn lemma_num_advances(s: Seq<char>, i: int, n: NumberModel)
    requires
        i <= s.len(),
    ensures
        spec_num_int(s, i, n) matches NumResult::Num(m, t, k) ==> i <= k <= s.len(),
        spec_num_frac(s, i, n) matches NumResult::Num(m, t, k) ==> i <= k <= s.len(),
        spec_num_exp_start(s, i, n) matches NumResult::Num(m, t, k) ==> i <= k <= s.len(),
        spec_num_exp(s, i, n) matches NumResult::Num(m, t, k) ==> i <= k <= s.len(),
    decreases remaining(s, i),
{
    lemma_next_token_advances(s, i);
    match spec_next_token(s, i) {
        LexStep::Tok(t, j) => {
            let j1 = adv(i, j);
            match t {
                Lexeme::Digit(d) => {
                    lemma_num_advances(s, j1, NumberModel { integer: n.integer.push(d), ..n });
                    lemma_num_advances(s, j1, NumberModel { frac: n.frac.push(d), ..n });
                    lemma_num_advances(s, j1, NumberModel { exp: n.exp.push(d), ..n });
                },
                Lexeme::Minus => {
                    lemma_num_advances(s, j1, NumberModel { exp: n.exp.push('-'), ..n });
                },
                Lexeme::Plus => {
                    lemma_num_advances(s, j1, NumberModel { exp: n.exp.push('+'), ..n });
                },
                Lexeme::Exponent => {
                    lemma_num_advances(s, j1, n);
                },
                Lexeme::DecimalPoint => {
                    lemma_next_token_advances(s, j1);
                    match spec_next_token(s, j1) {
                        LexStep::Tok(t2, j2) => match t2 {
                            Lexeme::Digit(d2) => {
                                lemma_num_advances(
                                    s,
                                    adv(j1, j2),
                                    NumberModel { frac: n.frac.push(d2), ..n },
                                );
                            },
                            _ => {},
                        },
                        _ => {},
                    }
                },
                _ => {},
            }
        },
        _ => {},
    }
}

/// The token sequence a finished number contributes: the number token
/// itself, then the token that terminated it, if any.
pub open spec fn num_tokens(n: NumberModel, term: Option<Lexeme>) -> Seq<Lexeme> {
    match term {
        Option::Some(t) => seq![Lexeme::Number(n), t],
        Option::None => seq![Lexeme::Number(n)],
    }
}

/// The whole lexing pass from position `i`: the token sequence of the
/// rest of the text, or the first failure.
pub open spec fn spec_tokenize(s: Seq<char>, i: int) -> Result<Seq<Lexeme>, LexErrorKind>
    decreases remaining(s, i), 3int,
{
    match spec_next_token(s, i) {
        LexStep::End => Result::Ok(Seq::empty()),
        LexStep::Fail(k) => Result::Err(k),
        LexStep::Tok(t, j) => {
            let j1 = adv(i, j);
            match t {
                Lexeme::Digit(d) => {
                    let start = NumberModel {
                        is_minus: false,
                        integer: seq![d],
                        frac: Seq::empty(),
                        exp: Seq::empty(),
                    };
                    match spec_num_int(s, j1, start) {
                        NumResult::Fail(k) => Result::Err(k),
                        NumResult::Num(n, term, p) => match spec_tokenize(s, adv(i, p)) {
                            Result::Err(k) => Result::Err(k),
                            Result::Ok(rest) => Result::Ok(num_tokens(n, term) + rest),
                        },
                    }
                },
                Lexeme::Minus => match spec_next_token(s, j1) {
                    LexStep::End => Result::Err(LexErrorKind::NotDigit),
                    LexStep::Fail(k) => Result::Err(k),
                    LexStep::Tok(t2, j2) => match t2 {
                        Lexeme::Digit(d) => {
                            let start = NumberModel {
                                is_minus: true,
                                integer: seq![d],
                                frac: Seq::empty(),
                                exp: Seq::empty(),
                            };
                            match spec_num_int(s, adv(j1, j2), start) {
                                NumResult::Fail(k) => Result::Err(k),
                                NumResult::Num(n, term, p) => match spec_tokenize(s, adv(i, p)) {
                                    Result::Err(k) => Result::Err(k),
                                    Result::Ok(rest) => Result::Ok(num_tokens(n, term) + rest),
                                },
                            }
                        },
                        _ => Result::Err(LexErrorKind::NotDigit),
                    },
                },
                _ => match spec_tokenize(s, j1) {
                    Result::Err(k) => Result::Err(k),
                    Result::Ok(rest) => Result::Ok(seq![t] + rest),
                },
            }
        },
    }
}

/// Past the end of the text, lexing yields no further tokens.
pub proof fn lemma_tokenize_past_end(s: Seq<char>, i: int)
    requires
        i >= s.len(),
    ensures
        spec_tokenize(s, i) == Result::<Seq<Lexeme>, LexErrorKind>::Ok(Seq::empty()),
{
}


/// The lexer: a character cursor over the whole input text.
pub struct JsonLexer {
    chars: Vec<char>,
    pos: usize,
}

impl JsonLexer {
    /// The text this lexer reads.
    pub closed spec fn text(&self) -> Seq<char> {
        self.chars@
    }

    /// The position of the cursor.
    pub closed spec fn position(&self) -> int {
        self.pos as int
    }

    /// A lexer standing at the start of `json_string`.
    pub fn new(json_string: &str) -> (l: JsonLexer)
        ensures
            l.text() == json_string@,
            l.position() == 0,
    {
        let n = json_string.unicode_len();
        let mut chars: Vec<char> = Vec::new();
        let mut i: usize = 0;
        while i < n
            invariant
                i <= n,
                n == json_string@.len(),
                chars@ == json_string@.subrange(0, i as int),
            decreases n - i,
        {
            let c = json_string.get_char(i);
            chars.push(c);
            proof {
                assert(chars@ =~= json_string@.subrange(0, i + 1));
            }
            i = i + 1;
        }
        proof {
            assert(chars@ =~= json_string@);
        }
        JsonLexer { chars, pos: 0 }
    }

    /// Reads the one token that starts at the cursor, if any, and
    /// moves the cursor past it: exactly `spec_next_token`.
    fn next_token(&mut self) -> (r: Result<Option<JsonToken>, JsonLexerError>)
        requires
            old(self).pos <= old(self).chars@.len(),
        ensures
            final(self).chars@ == old(self).chars@,
            final(self).pos <= final(self).chars@.len(),
            match spec_next_token(old(self).chars@, old(self).pos as int) {
                LexStep::Tok(t, j) => {
                    &&& r matches Ok(Some(tok)) && tok@ == t
                    &&& final(self).pos == j
                    &&& old(self).pos < final(self).pos
                },
                LexStep::End => r matches Ok(None) && final(self).pos == old(self).pos,
                LexStep::Fail(k) => {
                    &&& r matches Err(e) && e.kind == k
                    &&& old(self).pos <= final(self).pos
                },
            },
    {
        let i = self.pos;
        let n = self.chars.len();
        if i >= n {
            return Ok(None);
        }
        let c = self.chars[i];
        if ws_char(c) {
            self.pos = i + 1;
            Ok(Some(JsonToken::WhiteSpace(c)))
        } else if c == '{' {
            self.pos = i + 1;
            Ok(Some(JsonToken::BeginObject))
        } else if c == '}' {
            self.pos = i + 1;
            Ok(Some(JsonToken::EndObject))
        } else if c == '[' {
            self.pos = i + 1;
            Ok(Some(JsonToken::BeginArray))
        } else if c == ']' {
            self.pos = i + 1;
            Ok(Some(JsonToken::EndArray))
        } else if c == ':' {
            self.pos = i + 1;
            Ok(Some(JsonToken::NameSeparator))
        } else if c == ',' {
            self.pos = i + 1;
            Ok(Some(JsonToken::ValueSeparator))
        } else if c == '"' {
            self.pos = i + 1;
            self.string_token()
        } else if c == '-' {
            self.pos = i + 1;
            Ok(Some(JsonToken::Minus))
        } else if c == '+' {
            self.pos = i + 1;
            Ok(Some(JsonToken::Plus))
        } else if c == '.' {
            self.pos = i + 1;
            Ok(Some(JsonToken::DecimalPoint))
        } else if c == 'e' || c == 'E' {
            self.pos = i + 1;
            Ok(Some(JsonToken::Exponent))
        } else if digit_char(c) {
            self.pos = i + 1;
            Ok(Some(JsonToken::Digit(c)))
        } else if c == 't' {
            if n - i >= 4 && self.chars[i + 1] == 'r' && self.chars[i + 2] == 'u' && self.chars[i
                + 3] == 'e' {
                self.pos = i + 4;
                Ok(Some(JsonToken::True))
            } else {
                Err(JsonLexerError { kind: LexErrorKind::InvalidChar('t') })
            }
        } else if c == 'f' {
            if n - i >= 5 && self.chars[i + 1] == 'a' && self.chars[i + 2] == 'l' && self.chars[i
                + 3] == 's' && self.chars[i + 4] == 'e' {
                self.pos = i + 5;
                Ok(Some(JsonToken::False))
            } else {
                Err(JsonLexerError { kind: LexErrorKind::InvalidChar('f') })
            }
        } else if c == 'n' {
            if n - i >= 4 && self.chars[i + 1] == 'u' && self.chars[i + 2] == 'l' && self.chars[i
                + 3] == 'l' {
                self.pos = i + 4;
                Ok(Some(JsonToken::Null))
            } else {
                Err(JsonLexerError { kind: LexErrorKind::InvalidChar('n') })
            }
        } else {
            Err(JsonLexerError { kind: LexErrorKind::InvalidChar(c) })
        }
    }

    /// String mode, entered just after the opening quote: collects
    /// character tokens until the closing quote: exactly
    /// `spec_string_token`.
    #[verifier::loop_isolation(false)]
    fn string_token(&mut self) -> (r: Result<Option<JsonToken>, JsonLexerError>)
        requires
            old(self).pos <= old(self).chars@.len(),
        ensures
            final(self).chars@ == old(self).chars@,
            final(self).pos <= final(self).chars@.len(),
            old(self).pos <= final(self).pos,
            match spec_string_token(old(self).chars@, old(self).pos as int, Seq::empty()) {
                LexStep::Tok(t, j) => {
                    &&& r matches Ok(Some(tok)) && tok@ == t
                    &&& final(self).pos == j
                    &&& old(self).pos < final(self).pos
                },
                LexStep::End => false,
                LexStep::Fail(k) => r matches Err(e) && e.kind == k,
            },
    {
        let ghost s = self.chars@;
        let ghost pos0 = self.pos as int;
        let mut acc: Vec<JsonCharToken> = Vec::new();
        loop
            invariant
                self.chars@ == s,
                self.pos <= s.len(),
                pos0 <= self.pos as int,
                spec_string_token(s, pos0, Seq::empty()) == spec_string_token(
                    s,
                    self.pos as int,
                    acc@,
                ),
            decreases s.len() - self.pos,
        {
            let i = self.pos;
            let n = self.chars.len();
            if i >= n {
                return Err(JsonLexerError { kind: LexErrorKind::NonQuotationMark });
            }
            let c = self.chars[i];
            if c == '"' {
                self.pos = i + 1;
                return Ok(Some(JsonToken::String(acc)));
            } else if c == '\\' {
                if n - i < 2 {
                    return Err(JsonLexerError { kind: LexErrorKind::NonQuotationMark });
                }
                let e = self.chars[i + 1];
                if e == 't' {
                    acc.push(JsonCharToken::Escape('\t'));
                    self.pos = i + 2;
                } else if e == 'r' {
                    acc.push(JsonCharToken::Escape('\r'));
                    self.pos = i + 2;
                } else if e == 'n' {
                    acc.push(JsonCharToken::Escape('\n'));
                    self.pos = i + 2;
                } else if e == '\\' {
                    acc.push(JsonCharToken::Escape('\\'));
                    self.pos = i + 2;
                } else if e == '"' {
                    acc.push(JsonCharToken::Escape('"'));
                    self.pos = i + 2;
                } else if e == '/' {
                    acc.push(JsonCharToken::Escape('/'));
                    self.pos = i + 2;
                } else if e == 'u' {
                    if n - i < 6 {
                        return Err(JsonLexerError { kind: LexErrorKind::ParseError });
                    }
                    let h0 = self.chars[i + 2];
                    let h1 = self.chars[i + 3];
                    let h2 = self.chars[i + 4];
                    let h3 = self.chars[i + 5];
                    if !(hex_char(h0) && hex_char(h1) && hex_char(h2) && hex_char(h3)) {
                        return Err(JsonLexerError { kind: LexErrorKind::ParseError });
                    }
                    let v0 = hex_digit_value(h0);
                    let v1 = hex_digit_value(h1);
                    let v2 = hex_digit_value(h2);
                    let v3 = hex_digit_value(h3);
                    let code: u16 = v0 * 0x1000 + v1 * 0x100 + v2 * 0x10 + v3;
                    proof {
                        assert(code == hex4_code(s, i + 2));
                    }
                    acc.push(JsonCharToken::Unicode(code));
                    self.pos = i + 6;
                } else {
                    return Err(JsonLexerError { kind: LexErrorKind::InvalidChar('\\') });
                }
            } else if unescaped_char(c) {
                acc.push(JsonCharToken::UnEscaped(c));
                self.pos = i + 1;
            } else {
                return Err(JsonLexerError { kind: LexErrorKind::InvalidChar(c) });
            }
        }
    }
}


/// How a partial lexing pass from `i0`, having already produced
/// `done`, relates to the whole pass: the tokens still to come from
/// position `i` complete it, or its failure is already determined.
pub open spec fn tokenize_composes(s: Seq<char>, i0: int, done: Seq<Lexeme>, i: int) -> bool {
    match spec_tokenize(s, i) {
        Result::Ok(rest) => spec_tokenize(s, i0) == Result::Ok::<Seq<Lexeme>, LexErrorKind>(
            done + rest,
        ),
        Result::Err(e) => spec_tokenize(s, i0) == Result::Err::<Seq<Lexeme>, LexErrorKind>(e),
    }
}

/// Appending a token appends its view.
pub proof fn lemma_lexemes_push(ts: Seq<JsonToken>, t: JsonToken)
    ensures
        lexemes_of(ts.push(t)) == lexemes_of(ts).push(t@),
{
    assert(lexemes_of(ts.push(t)) =~= lexemes_of(ts).push(t@));
}

/// The sequence algebra of one number step of `spec_tokenize`: when
/// number mode, started at `j` on the first digit `d`, finishes, and
/// `done2` extends `done` by the tokens it contributes, the partial
/// pass stays composed.
proof fn lex_number_step(
    s: Seq<char>,
    i: int,
    j: int,
    is_minus: bool,
    d: char,
    done: Seq<Lexeme>,
    done2: Seq<Lexeme>,
)
    requires
        match spec_num_int(
            s,
            j,
            NumberModel { is_minus, integer: seq![d], frac: Seq::empty(), exp: Seq::empty() },
        ) {
            NumResult::Num(m, term, k) => done2 == done + num_tokens(m, term),
            NumResult::Fail(kk) => false,
        },
    ensures
        match spec_num_int(
            s,
            j,
            NumberModel { is_minus, integer: seq![d], frac: Seq::empty(), exp: Seq::empty() },
        ) {
            NumResult::Num(m, term, k) => match spec_tokenize(s, adv(i, k)) {
                Result::Ok(rest) => done + (num_tokens(m, term) + rest) == done2 + rest,
                Result::Err(kk) => true,
            },
            NumResult::Fail(kk) => true,
        },
{
    match spec_num_int(
        s,
        j,
        NumberModel { is_minus, integer: seq![d], frac: Seq::empty(), exp: Seq::empty() },
    ) {
        NumResult::Num(m, term, k) => {
            match spec_tokenize(s, adv(i, k)) {
                Result::Ok(rest) => {
                    assert(done + (num_tokens(m, term) + rest) =~= done2 + rest);
                },
                Result::Err(kk) => {},
            }
        },
        NumResult::Fail(kk) => {},
    }
}

impl JsonLexer {
    /// Number mode, integer part: exactly `spec_num_int`.
    #[verifier::loop_isolation(false)]
    #[verifier::rlimit(60)]
    fn num_int(&mut self, num: &mut JsonNumberToken) -> (r: Result<
        Option<JsonToken>,
        JsonLexerError,
    >)
        requires
            old(self).pos <= old(self).chars@.len(),
        ensures
            final(self).chars@ == old(self).chars@,
            final(self).pos <= final(self).chars@.len(),
            old(self).pos <= final(self).pos,
            match spec_num_int(old(self).chars@, old(self).pos as int, old(num)@) {
                NumResult::Num(m, term, k) => {
                    &&& final(num)@ == m
                    &&& final(self).pos == k
                    &&& match term {
                        Option::Some(t) => r matches Ok(Some(tok)) && tok@ == t,
                        Option::None => r matches Ok(None),
                    }
                },
                NumResult::Fail(kk) => r matches Err(e) && e.kind == kk,
            },
    {
        loop
            invariant
                self.chars@ == old(self).chars@,
                self.pos <= self.chars@.len(),
                old(self).pos <= self.pos,
                spec_num_int(old(self).chars@, old(self).pos as int, old(num)@) == spec_num_int(
                    self.chars@,
                    self.pos as int,
                    num@,
                ),
            decreases self.chars@.len() - self.pos,
        {
            match self.next_token() {
                Err(e) => {
                    return Err(e);
                },
                Ok(None) => {
                    return Ok(None);
                },
                Ok(Some(tok)) => match tok {
                    JsonToken::Digit(d) => {
                        push_char(&mut num.integer, d);
                    },
                    JsonToken::DecimalPoint => {
                        match self.next_token() {
                            Err(e) => {
                                return Err(e);
                            },
                            Ok(None) => {
                                return Err(JsonLexerError { kind: LexErrorKind::NonFracDigit });
                            },
                            Ok(Some(tok2)) => match tok2 {
                                JsonToken::Digit(d) => {
                                    push_char(&mut num.frac, d);
                                    return self.num_frac(num);
                                },
                                _ => {
                                    return Err(JsonLexerError { kind: LexErrorKind::NonFracDigit });
                                },
                            },
                        }
                    },
                    JsonToken::Exponent => {
                        return self.num_exp_start(num);
                    },
                    t => {
                        return Ok(Some(t));
                    },
                },
            }
        }
    }

    /// Number mode, fraction part: exactly `spec_num_frac`.
    #[verifier::loop_isolation(false)]
    fn num_frac(&mut self, num: &mut JsonNumberToken) -> (r: Result<
        Option<JsonToken>,
        JsonLexerError,
    >)
        requires
            old(self).pos <= old(self).chars@.len(),
        ensures
            final(self).chars@ == old(self).chars@,
            final(self).pos <= final(self).chars@.len(),
            old(self).pos <= final(self).pos,
            match spec_num_frac(old(self).chars@, old(self).pos as int, old(num)@) {
                NumResult::Num(m, term, k) => {
                    &&& final(num)@ == m
                    &&& final(self).pos == k
                    &&& match term {
                        Option::Some(t) => r matches Ok(Some(tok)) && tok@ == t,
                        Option::None => r matches Ok(None),
                    }
                },
                NumResult::Fail(kk) => r matches Err(e) && e.kind == kk,
            },
    {
        loop
            invariant
                self.chars@ == old(self).chars@,
                self.pos <= self.chars@.len(),
                old(self).pos <= self.pos,
                spec_num_frac(old(self).chars@, old(self).pos as int, old(num)@) == spec_num_frac(
                    self.chars@,
                    self.pos as int,
                    num@,
                ),
            decreases self.chars@.len() - self.pos,
        {
            match self.next_token() {
                Err(e) => {
                    return Err(e);
                },
                Ok(None) => {
                    return Ok(None);
                },
                Ok(Some(tok)) => match tok {
                    JsonToken::Digit(d) => {
                        push_char(&mut num.frac, d);
                    },
                    JsonToken::Exponent => {
                        return self.num_exp_start(num);
                    },
                    t => {
                        return Ok(Some(t));
                    },
                },
            }
        }
    }

    /// Number mode, just after the exponent marker: exactly
    /// `spec_num_exp_start`.
    fn num_exp_start(&mut self, num: &mut JsonNumberToken) -> (r: Result<
        Option<JsonToken>,
        JsonLexerError,
    >)
        requires
            old(self).pos <= old(self).chars@.len(),
        ensures
            final(self).chars@ == old(self).chars@,
            final(self).pos <= final(self).chars@.len(),
            old(self).pos <= final(self).pos,
            match spec_num_exp_start(old(self).chars@, old(self).pos as int, old(num)@) {
                NumResult::Num(m, term, k) => {
                    &&& final(num)@ == m
                    &&& final(self).pos == k
                    &&& match term {
                        Option::Some(t) => r matches Ok(Some(tok)) && tok@ == t,
                        Option::None => r matches Ok(None),
                    }
                },
                NumResult::Fail(kk) => r matches Err(e) && e.kind == kk,
            },
    {
        match self.next_token() {
            Err(e) => Err(e),
            Ok(None) => Ok(None),
            Ok(Some(tok)) => match tok {
                JsonToken::Minus => {
                    push_char(&mut num.exp, '-');
                    self.num_exp(num)
                },
                JsonToken::Plus => {
                    push_char(&mut num.exp, '+');
                    self.num_exp(num)
                },
                JsonToken::Digit(d) => {
                    push_char(&mut num.exp, d);
                    self.num_exp(num)
                },
                t => Ok(Some(t)),
            },
        }
    }

    /// Number mode, exponent digits: exactly `spec_num_exp`.
    #[verifier::loop_isolation(false)]
    fn num_exp(&mut self, num: &mut JsonNumberToken) -> (r: Result<
        Option<JsonToken>,
        JsonLexerError,
    >)
        requires
            old(self).pos <= old(self).chars@.len(),
        ensures
            final(self).chars@ == old(self).chars@,
            final(self).pos <= final(self).chars@.len(),
            old(self).pos <= final(self).pos,
            match spec_num_exp(old(self).chars@, old(self).pos as int, old(num)@) {
                NumResult::Num(m, term, k) => {
                    &&& final(num)@ == m
                    &&& final(self).pos == k
                    &&& match term {
                        Option::Some(t) => r matches Ok(Some(tok)) && tok@ == t,
                        Option::None => r matches Ok(None),
                    }
                },
                NumResult::Fail(kk) => r matches Err(e) && e.kind == kk,
            },
    {
        loop
            invariant
                self.chars@ == old(self).chars@,
                self.pos <= self.chars@.len(),
                old(self).pos <= self.pos,
                spec_num_exp(old(self).chars@, old(self).pos as int, old(num)@) == spec_num_exp(
                    self.chars@,
                    self.pos as int,
                    num@,
                ),
            decreases self.chars@.len() - self.pos,
        {
            match self.next_token() {
                Err(e) => {
                    return Err(e);
                },
                Ok(None) => {
                    return Ok(None);
                },
                Ok(Some(tok)) => match tok {
                    JsonToken::Digit(d) => {
                        push_char(&mut num.exp, d);
                    },
                    t => {
                        return Ok(Some(t));
                    },
                },
            }
        }
    }

    /// Lexes one numeric literal whose first digit `d` was just
    /// consumed, pushing the finished number token and, if one
    /// terminated the literal, that token too.
    #[verifier::loop_isolation(false)]
    fn number_tokens_from(
        &mut self,
        d: char,
        is_minus: bool,
        tokens: &mut Vec<JsonToken>,
    ) -> (r: Result<(), JsonLexerError>)
        requires
            old(self).pos <= old(self).chars@.len(),
        ensures
            final(self).chars@ == old(self).chars@,
            final(self).pos <= final(self).chars@.len(),
            old(self).pos <= final(self).pos,
            match spec_num_int(
                old(self).chars@,
                old(self).pos as int,
                NumberModel {
                    is_minus,
                    integer: seq![d],
                    frac: Seq::empty(),
                    exp: Seq::empty(),
                },
            ) {
                NumResult::Num(m, term, k) => {
                    &&& r is Ok
                    &&& final(self).pos == k
                    &&& lexemes_of(final(tokens)@) == lexemes_of(old(tokens)@) + num_tokens(
                        m,
                        term,
                    )
                },
                NumResult::Fail(kk) => r matches Err(e) && e.kind == kk,
            },
    {
        let ghost done = lexemes_of(tokens@);
        let mut num = JsonNumberToken::new(is_minus);
        push_char(&mut num.integer, d);
        proof {
            assert(num@ =~= (NumberModel {
                is_minus,
                integer: seq![d],
                frac: Seq::empty(),
                exp: Seq::empty(),
            }));
        }
        match self.num_int(&mut num) {
            Err(e) => Err(e),
            Ok(termopt) => {
                let ghost m = num@;
                let ghost before = tokens@;
                tokens.push(JsonToken::Number(num));
                proof {
                    lemma_lexemes_push(before, tokens@.last());
                }
                match termopt {
                    Some(t) => {
                        let ghost mid = tokens@;
                        let ghost tv = t@;
                        tokens.push(t);
                        proof {
                            lemma_lexemes_push(mid, tokens@.last());
                            assert(lexemes_of(tokens@) =~= done + num_tokens(
                                m,
                                Option::Some(tv),
                            ));
                        }
                    },
                    None => {
                        proof {
                            assert(lexemes_of(tokens@) =~= done + num_tokens(
                                m,
                                Option::<Lexeme>::None,
                            ));
                        }
                    },
                }
                Ok(())
            },
        }
    }

    /// The whole lexing pass: the ordered token sequence of the text,
    /// or the first failure: exactly `spec_tokenize`.
    #[verifier::loop_isolation(false)]
    #[verifier::rlimit(80)]
    pub fn tokenize(&mut self) -> (r: Result<JsonTokens, JsonLexerError>)
        requires
            old(self).position() <= old(self).text().len(),
        ensures
            match spec_tokenize(old(self).text(), old(self).position()) {
                Result::Ok(ls) => r matches Ok(ts) && ts@ == ls,
                Result::Err(k) => r matches Err(e) && e.kind == k,
            },
    {
        let mut tokens: Vec<JsonToken> = Vec::new();
        loop
            invariant
                self.chars@ == old(self).chars@,
                self.pos <= self.chars@.len(),
                tokenize_composes(
                    self.chars@,
                    old(self).pos as int,
                    lexemes_of(tokens@),
                    self.pos as int,
                ),
            decreases self.chars@.len() - self.pos,
        {
            let ghost s = self.chars@;
            let ghost done = lexemes_of(tokens@);
            let ghost i = self.pos as int;
            match self.next_token() {
                Err(e) => {
                    return Err(e);
                },
                Ok(None) => {
                    proof {
                        assert(done + Seq::<Lexeme>::empty() =~= done);
                    }
                    return Ok(JsonTokens { tokens });
                },
                Ok(Some(tok)) => match tok {
                    JsonToken::Digit(d) => {
                        let ghost j = self.pos as int;
                        match self.number_tokens_from(d, false, &mut tokens) {
                            Err(e) => {
                                return Err(e);
                            },
                            Ok(()) => {
                                proof {
                                    lex_number_step(s, i, j, false, d, done, lexemes_of(tokens@));
                                }
                            },
                        }
                    },
                    JsonToken::Minus => {
                        match self.next_token() {
                            Err(e) => {
                                return Err(e);
                            },
                            Ok(None) => {
                                return Err(JsonLexerError { kind: LexErrorKind::NotDigit });
                            },
                            Ok(Some(tok2)) => match tok2 {
                                JsonToken::Digit(d) => {
                                    let ghost j = self.pos as int;
                                    match self.number_tokens_from(d, true, &mut tokens) {
                                        Err(e) => {
                                            return Err(e);
                                        },
                                        Ok(()) => {
                                            proof {
                                                lex_number_step(
                                                    s,
                                                    i,
                                                    j,
                                                    true,
                                                    d,
                                                    done,
                                                    lexemes_of(tokens@),
                                                );
                                            }
                                        },
                                    }
                                },
                                _ => {
                                    return Err(JsonLexerError { kind: LexErrorKind::NotDigit });
                                },
                            },
                        }
                    },
                    t => {
                        let ghost tv = t@;
                        let ghost mid = tokens@;
                        tokens.push(t);
                        proof {
                            lemma_lexemes_push(mid, tokens@.last());
                            match spec_tokenize(s, self.pos as int) {
                                Result::Ok(rest) => {
                                    assert(done + (seq![tv] + rest) =~= lexemes_of(tokens@)
                                        + rest);
                                },
                                Result::Err(e2) => {},
                            }
                        }
                    },
                },
            }
        }
    }
}

} // verus!
