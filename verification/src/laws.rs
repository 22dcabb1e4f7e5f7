//! General properties of the pipeline, stated and proved against the
//! spec functions that the executable code is verified to follow.

use vstd::prelude::*;
use crate::error::ParseErrorKind;
use crate::lexer::{
    JsonCharToken, Lexeme, LexStep, NumberModel, NumResult, spec_next_token, spec_string_token,
    spec_tokenize, spec_num_int, spec_num_frac, spec_num_exp_start, spec_num_exp,
};
use crate::json::{ValueModel, all_digits, valid_exp, valid_number_model};
use crate::parser::{
    PStep, spec_utf16, spec_resolve, spec_token_to_string, combine_surrogates, spec_skip_ws,
    spec_next_value, spec_parse_text,
};
use crate::text::{char_at, is_unescaped_char, is_digit_char};

verus! {

/// Every valid surrogate pair decodes to exactly the one code point
/// it jointly encodes, a code point above U+FFFF.
pub proof fn lemma_surrogate_pair(hi: u16, lo: u16)
    requires
        0xd800 <= hi <= 0xdbff,
        0xdc00 <= lo <= 0xdfff,
    ensures
        0x10000 <= combine_surrogates(hi, lo) <= 0x10ffff,
        spec_utf16(seq![hi, lo]) == Result::<Seq<char>, ParseErrorKind>::Ok(
            seq![(combine_surrogates(hi, lo) as char)],
        ),
{
    let us = seq![hi, lo];
    reveal_with_fuel(spec_utf16, 3);
    assert(us.skip(2) =~= Seq::<u16>::empty());
    assert(seq![(combine_surrogates(hi, lo) as char)] + Seq::<char>::empty() =~= seq![
        (combine_surrogates(hi, lo) as char)
    ]);
}

/// A string token holding the two `\uXXXX` units of a valid
/// surrogate pair resolves to the single combined code point.
pub proof fn lemma_surrogate_pair_resolves(hi: u16, lo: u16)
    requires
        0xd800 <= hi <= 0xdbff,
        0xdc00 <= lo <= 0xdfff,
    ensures
        spec_token_to_string(seq![JsonCharToken::Unicode(hi), JsonCharToken::Unicode(lo)])
            == Result::<Seq<char>, ParseErrorKind>::Ok(
            seq![(combine_surrogates(hi, lo) as char)],
        ),
{
    lemma_surrogate_pair(hi, lo);
    let cs = seq![JsonCharToken::Unicode(hi), JsonCharToken::Unicode(lo)];
    reveal_with_fuel(spec_resolve, 4);
    assert(Seq::<u16>::empty().push(hi) =~= seq![hi]);
    assert(seq![hi].push(lo) =~= seq![hi, lo]);
    assert(Seq::<char>::empty() + seq![(combine_surrogates(hi, lo) as char)] =~= seq![
        (combine_surrogates(hi, lo) as char)
    ]);
}

/// The three keyword literals parse to the corresponding boolean or
/// null value, and to nothing else.
#[verifier::rlimit(100)]
#[verifier::spinoff_prover]
pub proof fn lemma_keyword_literals()
    ensures
        spec_parse_text(seq!['t', 'r', 'u', 'e']) == Result::<ValueModel, ParseErrorKind>::Ok(
            ValueModel::Boolean(true),
        ),
        spec_parse_text(seq!['f', 'a', 'l', 's', 'e']) == Result::<ValueModel, ParseErrorKind>::Ok(
            ValueModel::Boolean(false),
        ),
        spec_parse_text(seq!['n', 'u', 'l', 'l']) == Result::<ValueModel, ParseErrorKind>::Ok(
            ValueModel::Null,
        ),
{
    reveal_with_fuel(spec_tokenize, 3);
    reveal_with_fuel(spec_next_value, 2);
    reveal_with_fuel(spec_skip_ws, 2);
    let st = seq!['t', 'r', 'u', 'e'];
    assert(spec_next_token(st, 0) == LexStep::Tok(Lexeme::True, 4));
    assert(spec_tokenize(st, 0) matches Result::Ok(ls) && ls =~= seq![Lexeme::True]);
    assert(spec_next_value(seq![Lexeme::True], 0) == PStep::Value(ValueModel::Boolean(true), 1));
    assert(spec_next_value(seq![Lexeme::True], 1) == PStep::Exhausted(1));
    let sf = seq!['f', 'a', 'l', 's', 'e'];
    assert(spec_next_token(sf, 0) == LexStep::Tok(Lexeme::False, 5));
    assert(spec_tokenize(sf, 0) matches Result::Ok(ls) && ls =~= seq![Lexeme::False]);
    assert(spec_next_value(seq![Lexeme::False], 0) == PStep::Value(
        ValueModel::Boolean(false),
        1,
    ));
    assert(spec_next_value(seq![Lexeme::False], 1) == PStep::Exhausted(1));
    let sn = seq!['n', 'u', 'l', 'l'];
    assert(spec_next_token(sn, 0) == LexStep::Tok(Lexeme::Null, 4));
    assert(spec_tokenize(sn, 0) matches Result::Ok(ls) && ls =~= seq![Lexeme::Null]);
    assert(spec_next_value(seq![Lexeme::Null], 0) == PStep::Value(ValueModel::Null, 1));
    assert(spec_next_value(seq![Lexeme::Null], 1) == PStep::Exhausted(1));
}


/// The one character `c` as an unescaped character token.
pub open spec fn wrap_unescaped(c: char) -> JsonCharToken {
    JsonCharToken::UnEscaped(c)
}

/// The characters of `s`, each as an unescaped character token.
pub open spec fn unescaped_tokens(s: Seq<char>) -> Seq<JsonCharToken>
    decreases s.len(),
{
    if s.len() == 0 {
        Seq::empty()
    } else {
        seq![wrap_unescaped(s[0])] + unescaped_tokens(s.skip(1))
    }
}

spec fn toy_ints(s: Seq<char>) -> Seq<int>
    decreases s.len(),
{
    if s.len() == 0 {
        Seq::empty()
    } else {
        seq![7int] + toy_ints(s.skip(1))
    }
}

proof fn scratch_ti(s: Seq<char>) {
    if s.len() > 0 {
        assert(toy_ints(s).len() == 1 + toy_ints(s.skip(1)).len());
    }
}

spec fn toy_cts(s: Seq<char>) -> Seq<JsonCharToken>
    decreases s.len(),
{
    if s.len() == 0 {
        Seq::empty()
    } else {
        seq![JsonCharToken::UnEscaped('x')] + toy_cts(s.skip(1))
    }
}

proof fn scratch_tc(s: Seq<char>) {
    if s.len() > 0 {
        assert(toy_cts(s).len() == 1 + toy_cts(s.skip(1)).len());
    }
}

spec fn toy_chr(s: Seq<char>) -> Seq<char>
    decreases s.len(),
{
    if s.len() == 0 {
        Seq::empty()
    } else {
        seq![s[0]] + toy_chr(s.skip(1))
    }
}

proof fn scratch_chr(s: Seq<char>) {
    if s.len() > 0 {
        assert(toy_chr(s).len() == 1 + toy_chr(s.skip(1)).len());
    }
}

proof fn scratch_len0() {
    assert(unescaped_tokens(Seq::<char>::empty()).len() == 0);
}

proof fn scratch_len1(s: Seq<char>) {
    if s.len() == 0 {
        assert(unescaped_tokens(s).len() == 0);
    } else {
        assert(unescaped_tokens(s).len() == 1 + unescaped_tokens(s.skip(1)).len());
    }
}

/// `unescaped_tokens` is the element-wise wrapping.
proof fn lemma_unescaped_index(s: Seq<char>)
    ensures
        unescaped_tokens(s).len() == s.len(),
        forall|k: int| 0 <= k < s.len() ==> #[trigger] unescaped_tokens(s)[k] == wrap_unescaped(
            s[k],
        ),
    decreases s.len(),
{
    if s.len() > 0 {
        lemma_unescaped_index(s.skip(1));
        assert forall|k: int| 0 <= k < s.len() implies #[trigger] unescaped_tokens(s)[k]
            == wrap_unescaped(s[k]) by {
            let c = char_at(s, k);
            if k > 0 {
                assert(s.skip(1)[k - 1] == s[k]);
                assert(unescaped_tokens(s)[k] == unescaped_tokens(s.skip(1))[k - 1]);
            }
        }
    }
}

/// In string mode, a remaining run of unescaped characters followed
/// by the closing quote yields the string token of the whole run.
proof fn lemma_string_run(t: Seq<char>, s: Seq<char>, k: int, acc: Seq<JsonCharToken>)
    requires
        t == seq!['"'] + s + seq!['"'],
        0 <= k <= s.len(),
        forall|x: int| 0 <= x < s.len() ==> is_unescaped_char(#[trigger] s[x]),
    ensures
        spec_string_token(t, 1 + k, acc) == LexStep::Tok(
            Lexeme::Str(acc + unescaped_tokens(s.skip(k))),
            s.len() + 2int,
        ),
    decreases s.len() - k,
{
    assert(t.len() == s.len() + 2);
    lemma_unescaped_index(s.skip(k));
    if k < s.len() {
        lemma_unescaped_index(s.skip(k + 1));
    }
    if k == s.len() {
        assert(t[1 + k] == '"');
        assert(acc + unescaped_tokens(s.skip(k)) =~= acc);
    } else {
        let c = char_at(t, 1 + k);
        assert(c == s[k]);
        assert(is_unescaped_char(c));
        assert(c != '"' && c != '\\');
        lemma_string_run(t, s, k + 1, acc.push(JsonCharToken::UnEscaped(c)));
        assert(wrap_unescaped(s[k]) == JsonCharToken::UnEscaped(c));
        let lhs = acc + unescaped_tokens(s.skip(k));
        let rhs = acc.push(JsonCharToken::UnEscaped(c)) + unescaped_tokens(s.skip(k + 1));
        assert forall|x: int| 0 <= x < lhs.len() implies lhs[x] == rhs[x] by {
            if x >= acc.len() {
                assert(lhs[x] == unescaped_tokens(s.skip(k))[x - acc.len()]);
                assert(unescaped_tokens(s.skip(k))[x - acc.len()] == wrap_unescaped(
                    s.skip(k)[x - acc.len()],
                ));
                assert(s.skip(k)[x - acc.len()] == s[k + x - acc.len()]);
                if x > acc.len() {
                    assert(rhs[x] == unescaped_tokens(s.skip(k + 1))[x - acc.len() - 1]);
                    assert(unescaped_tokens(s.skip(k + 1))[x - acc.len() - 1] == wrap_unescaped(
                        s.skip(k + 1)[x - acc.len() - 1],
                    ));
                    assert(s.skip(k + 1)[x - acc.len() - 1] == s[k + x - acc.len()]);
                }
            }
        }
        assert(lhs =~= rhs);
    }
}

/// Resolving a run of unescaped character tokens is the identity on
/// the text.
proof fn lemma_resolve_unescaped(s: Seq<char>, k: int, out: Seq<char>)
    requires
        0 <= k <= s.len(),
    ensures
        spec_resolve(unescaped_tokens(s), k, Seq::empty(), out) == Result::<
            Seq<char>,
            ParseErrorKind,
        >::Ok(out + s.skip(k)),
    decreases s.len() - k,
{
    let cs = unescaped_tokens(s);
    lemma_unescaped_index(s);
    reveal_with_fuel(spec_utf16, 2);
    if k == s.len() {
        assert(out + s.skip(k) =~= out);
    } else {
        let c = char_at(s, k);
        assert(wrap_unescaped(s[k]) == JsonCharToken::UnEscaped(c));
        assert(cs[k] == JsonCharToken::UnEscaped(c));
        lemma_resolve_unescaped(s, k + 1, out + Seq::<char>::empty() + seq![c]);
        assert((out + Seq::<char>::empty() + seq![c]) + s.skip(k + 1) =~= out + s.skip(k));
    }
}

/// A quoted run of unescaped characters parses to exactly that text
/// as a string value. In particular a quoted keyword spelling, such
/// as the five characters `"null"`, parses to the string of that
/// spelling, never to the keyword's own value: keyword recognition
/// applies only outside quotes.
pub proof fn lemma_quoted_text_is_string(s: Seq<char>)
    requires
        forall|x: int| 0 <= x < s.len() ==> is_unescaped_char(#[trigger] s[x]),
    ensures
        spec_parse_text(seq!['"'] + s + seq!['"']) == Result::<ValueModel, ParseErrorKind>::Ok(
            ValueModel::Str(s),
        ),
{
    let t = seq!['"'] + s + seq!['"'];
    assert(t.len() == s.len() + 2);
    assert(t[0] == '"');
    lemma_string_run(t, s, 0, Seq::empty());
    lemma_unescaped_index(s);
    lemma_unescaped_index(s.skip(0));
    assert(s.skip(0) =~= s);
    assert(Seq::<JsonCharToken>::empty() + unescaped_tokens(s.skip(0)) =~= unescaped_tokens(s));
    let ls = seq![Lexeme::Str(unescaped_tokens(s))];
    reveal_with_fuel(spec_tokenize, 3);
    assert(spec_string_token(t, 1, Seq::empty()) == LexStep::Tok(
        Lexeme::Str(unescaped_tokens(s)),
        s.len() + 2int,
    ));
    assert(spec_next_token(t, 0) == LexStep::Tok(Lexeme::Str(unescaped_tokens(s)), s.len() + 2int));
    assert(spec_tokenize(t, 0) matches Result::Ok(l2) && l2 =~= ls);
    lemma_resolve_unescaped(s, 0, Seq::empty());
    assert(Seq::<char>::empty() + s.skip(0) =~= s);
    assert(spec_token_to_string(unescaped_tokens(s)) == Result::<Seq<char>, ParseErrorKind>::Ok(
        s,
    ));
    reveal_with_fuel(spec_next_value, 2);
    reveal_with_fuel(spec_skip_ws, 2);
    assert(spec_next_value(ls, 0) == PStep::Value(ValueModel::Str(s), 1));
    assert(spec_next_value(ls, 1) == PStep::Exhausted(1));
}


/// At the end of the text, number mode finishes with what it has.
proof fn lemma_num_end(s: Seq<char>, n: NumberModel)
    ensures
        spec_num_int(s, s.len() as int, n) == NumResult::Num(
            n,
            Option::<Lexeme>::None,
            s.len() as int,
        ),
        spec_num_frac(s, s.len() as int, n) == NumResult::Num(
            n,
            Option::<Lexeme>::None,
            s.len() as int,
        ),
        spec_num_exp_start(s, s.len() as int, n) == NumResult::Num(
            n,
            Option::<Lexeme>::None,
            s.len() as int,
        ),
        spec_num_exp(s, s.len() as int, n) == NumResult::Num(
            n,
            Option::<Lexeme>::None,
            s.len() as int,
        ),
{
}

/// A run of digits extends the integer buffer, digit by digit.
proof fn lemma_num_int_run(s: Seq<char>, i: int, p: int, n: NumberModel)
    requires
        0 <= i <= p <= s.len(),
        forall|x: int| i <= x < p ==> is_digit_char(#[trigger] s[x]),
    ensures
        spec_num_int(s, i, n) == spec_num_int(
            s,
            p,
            NumberModel { integer: n.integer + s.subrange(i, p), ..n },
        ),
    decreases p - i,
{
    if i == p {
        assert(n.integer + s.subrange(i, p) =~= n.integer);
        assert((NumberModel { integer: n.integer + s.subrange(i, p), ..n }) =~= n);
    } else {
        let c = char_at(s, i);
        assert(is_digit_char(c));
        assert(spec_next_token(s, i) == LexStep::Tok(Lexeme::Digit(c), i + 1));
        let n2 = NumberModel { integer: n.integer.push(c), ..n };
        assert(spec_num_int(s, i, n) == spec_num_int(s, i + 1, n2));
        lemma_num_int_run(s, i + 1, p, n2);
        assert(n2.integer + s.subrange(i + 1, p) =~= n.integer + s.subrange(i, p));
        assert((NumberModel { integer: n2.integer + s.subrange(i + 1, p), ..n2 }) =~= (
        NumberModel { integer: n.integer + s.subrange(i, p), ..n }));
    }
}

/// A run of digits extends the fraction buffer, digit by digit.
proof fn lemma_num_frac_run(s: Seq<char>, i: int, p: int, n: NumberModel)
    requires
        0 <= i <= p <= s.len(),
        forall|x: int| i <= x < p ==> is_digit_char(#[trigger] s[x]),
    ensures
        spec_num_frac(s, i, n) == spec_num_frac(
            s,
            p,
            NumberModel { frac: n.frac + s.subrange(i, p), ..n },
        ),
    decreases p - i,
{
    if i == p {
        assert(n.frac + s.subrange(i, p) =~= n.frac);
        assert((NumberModel { frac: n.frac + s.subrange(i, p), ..n }) =~= n);
    } else {
        let c = char_at(s, i);
        assert(is_digit_char(c));
        assert(spec_next_token(s, i) == LexStep::Tok(Lexeme::Digit(c), i + 1));
        let n2 = NumberModel { frac: n.frac.push(c), ..n };
        assert(spec_num_frac(s, i, n) == spec_num_frac(s, i + 1, n2));
        lemma_num_frac_run(s, i + 1, p, n2);
        assert(n2.frac + s.subrange(i + 1, p) =~= n.frac + s.subrange(i, p));
        assert((NumberModel { frac: n2.frac + s.subrange(i + 1, p), ..n2 }) =~= (NumberModel {
            frac: n.frac + s.subrange(i, p),
            ..n
        }));
    }
}

/// A run of digits extends the exponent buffer, digit by digit.
proof fn lemma_num_exp_run(s: Seq<char>, i: int, p: int, n: NumberModel)
    requires
        0 <= i <= p <= s.len(),
        forall|x: int| i <= x < p ==> is_digit_char(#[trigger] s[x]),
    ensures
        spec_num_exp(s, i, n) == spec_num_exp(
            s,
            p,
            NumberModel { exp: n.exp + s.subrange(i, p), ..n },
        ),
    decreases p - i,
{
    if i == p {
        assert(n.exp + s.subrange(i, p) =~= n.exp);
        assert((NumberModel { exp: n.exp + s.subrange(i, p), ..n }) =~= n);
    } else {
        let c = char_at(s, i);
        assert(is_digit_char(c));
        assert(spec_next_token(s, i) == LexStep::Tok(Lexeme::Digit(c), i + 1));
        let n2 = NumberModel { exp: n.exp.push(c), ..n };
        assert(spec_num_exp(s, i, n) == spec_num_exp(s, i + 1, n2));
        lemma_num_exp_run(s, i + 1, p, n2);
        assert(n2.exp + s.subrange(i + 1, p) =~= n.exp + s.subrange(i, p));
        assert((NumberModel { exp: n2.exp + s.subrange(i + 1, p), ..n2 }) =~= (NumberModel {
            exp: n.exp + s.subrange(i, p),
            ..n
        }));
    }
}


/// The text of a decimal literal: an optional minus, the integer
/// digits, an optional decimal point with fraction digits, and an
/// optional exponent marker with an optional sign and digits.
pub open spec fn number_literal_text(
    m: bool,
    int_digits: Seq<char>,
    hf: bool,
    frac_digits: Seq<char>,
    he: bool,
    ec: char,
    sg: Seq<char>,
    exp_digits: Seq<char>,
) -> Seq<char> {
    (if m {
        seq!['-']
    } else {
        Seq::empty()
    }) + int_digits + (if hf {
        seq!['.'] + frac_digits
    } else {
        Seq::empty()
    }) + (if he {
        seq![ec] + sg + exp_digits
    } else {
        Seq::empty()
    })
}

/// The number record that such a literal denotes.
pub open spec fn number_literal_model(
    m: bool,
    int_digits: Seq<char>,
    hf: bool,
    frac_digits: Seq<char>,
    he: bool,
    sg: Seq<char>,
    exp_digits: Seq<char>,
) -> NumberModel {
    NumberModel {
        is_minus: m,
        integer: int_digits,
        frac: if hf {
            frac_digits
        } else {
            Seq::empty()
        },
        exp: if he {
            sg + exp_digits
        } else {
            Seq::empty()
        },
    }
}

/// Hypotheses of the decimal grammar: nonempty all-digit integer and
/// (when present) fraction and exponent digit runs, a lower- or
/// upper-case exponent marker, and at most one sign character.
pub open spec fn number_literal_wf(
    int_digits: Seq<char>,
    hf: bool,
    frac_digits: Seq<char>,
    he: bool,
    ec: char,
    sg: Seq<char>,
    exp_digits: Seq<char>,
) -> bool {
    &&& int_digits.len() > 0
    &&& all_digits(int_digits)
    &&& hf ==> frac_digits.len() > 0 && all_digits(frac_digits)
    &&& he ==> (ec == 'e' || ec == 'E') && exp_digits.len() > 0 && all_digits(exp_digits)
    &&& he ==> sg.len() == 0 || (sg.len() == 1 && (sg[0] == '+' || sg[0] == '-'))
}

/// Number mode just after the exponent marker, when the rest of the
/// text is the optional sign and the exponent digits.
#[verifier::rlimit(100)]
#[verifier::spinoff_prover]
proof fn lemma_exp_start_tail(txt: Seq<char>, p: int, base: NumberModel, sg: Seq<char>, d: Seq<char>)
    requires
        0 <= p <= txt.len(),
        txt.skip(p) == sg + d,
        sg.len() == 0 || (sg.len() == 1 && (sg[0] == '+' || sg[0] == '-')),
        d.len() > 0,
        all_digits(d),
        base.exp.len() == 0,
    ensures
        spec_num_exp_start(txt, p, base) == NumResult::Num(
            NumberModel { exp: sg + d, ..base },
            Option::<Lexeme>::None,
            txt.len() as int,
        ),
{
    let n = txt.len() as int;
    assert(txt.skip(p).len() == n - p);
    assert(n - p == sg.len() + d.len());
    assert forall|y: int| p <= y < n implies txt[y] == (sg + d)[y - p] by {
        assert(txt.skip(p)[y - p] == txt[y]);
    }
    let first = char_at(txt, p);
    assert(first == (sg + d)[0]);
    let n4 = NumberModel { exp: base.exp.push(first), ..base };
    if sg.len() == 1 {
        assert(first == sg[0]);
        if first == '-' {
            assert(spec_next_token(txt, p) == LexStep::Tok(Lexeme::Minus, p + 1));
        } else {
            assert(first == '+');
            assert(spec_next_token(txt, p) == LexStep::Tok(Lexeme::Plus, p + 1));
        }
        assert(spec_num_exp_start(txt, p, base) == spec_num_exp(txt, p + 1, n4));
    } else {
        assert(first == d[0]);
        assert(is_digit_char(first));
        assert(spec_next_token(txt, p) == LexStep::Tok(Lexeme::Digit(first), p + 1));
        assert(spec_num_exp_start(txt, p, base) == spec_num_exp(txt, p + 1, n4));
    }
    assert forall|x: int| p + 1 <= x < n implies is_digit_char(#[trigger] txt[x]) by {
        assert((sg + d)[x - p] == d[x - p - sg.len()]);
    }
    assert forall|x: int| 0 <= x < n - p - 1 implies txt.subrange(p + 1, n)[x] == (sg
        + d).skip(1)[x] by {
        assert(txt[p + 1 + x] == (sg + d)[p + 1 + x - p]);
    }
    assert(txt.subrange(p + 1, n) =~= (sg + d).skip(1));
    lemma_num_exp_run(txt, p + 1, n, n4);
    let n5 = NumberModel { exp: n4.exp + txt.subrange(p + 1, n), ..n4 };
    assert(n5.exp =~= sg + d);
    assert(n5 =~= (NumberModel { exp: sg + d, ..base }));
    lemma_num_end(txt, n5);
}

/// Number mode after the integer digits, when the rest of the text is
/// the optional fraction part and the optional exponent part.
#[verifier::rlimit(100)]
#[verifier::spinoff_prover]
proof fn lemma_int_tail(
    txt: Seq<char>,
    b: int,
    n1: NumberModel,
    hf: bool,
    frac_digits: Seq<char>,
    he: bool,
    ec: char,
    sg: Seq<char>,
    exp_digits: Seq<char>,
)
    requires
        0 <= b <= txt.len(),
        txt.skip(b) == (if hf {
            seq!['.'] + frac_digits
        } else {
            Seq::<char>::empty()
        }) + (if he {
            seq![ec] + sg + exp_digits
        } else {
            Seq::<char>::empty()
        }),
        hf ==> frac_digits.len() > 0 && all_digits(frac_digits),
        he ==> (ec == 'e' || ec == 'E') && exp_digits.len() > 0 && all_digits(exp_digits),
        he ==> sg.len() == 0 || (sg.len() == 1 && (sg[0] == '+' || sg[0] == '-')),
        n1.frac.len() == 0,
        n1.exp.len() == 0,
    ensures
        spec_num_int(txt, b, n1) == NumResult::Num(
            NumberModel {
                frac: if hf {
                    frac_digits
                } else {
                    Seq::empty()
                },
                exp: if he {
                    sg + exp_digits
                } else {
                    Seq::empty()
                },
                ..n1
            },
            Option::<Lexeme>::None,
            txt.len() as int,
        ),
{
    let n = txt.len() as int;
    let fr: Seq<char> = if hf {
        seq!['.'] + frac_digits
    } else {
        Seq::empty()
    };
    let ex: Seq<char> = if he {
        seq![ec] + sg + exp_digits
    } else {
        Seq::empty()
    };
    assert(txt.skip(b).len() == n - b);
    assert(n - b == fr.len() + ex.len());
    assert forall|y: int| b <= y < n implies txt[y] == (fr + ex)[y - b] by {
        assert(txt.skip(b)[y - b] == txt[y]);
    }
    let q: int = b + fr.len();
    let model = NumberModel {
        frac: if hf {
            frac_digits
        } else {
            Seq::empty()
        },
        exp: if he {
            sg + exp_digits
        } else {
            Seq::empty()
        },
        ..n1
    };
    let n3 = if hf {
        let cdot = char_at(txt, b);
        assert(cdot == fr[0]);
        assert(cdot == '.');
        assert(spec_next_token(txt, b) == LexStep::Tok(Lexeme::DecimalPoint, b + 1));
        let cf0 = char_at(txt, b + 1);
        assert(cf0 == fr[1]);
        assert(cf0 == frac_digits[0]);
        assert(is_digit_char(cf0));
        assert(spec_next_token(txt, b + 1) == LexStep::Tok(Lexeme::Digit(cf0), b + 2));
        let n2 = NumberModel { frac: n1.frac.push(cf0), ..n1 };
        assert(spec_num_int(txt, b, n1) == spec_num_frac(txt, b + 2, n2));
        assert forall|x: int| b + 2 <= x < q implies is_digit_char(#[trigger] txt[x]) by {
            assert((fr + ex)[x - b] == frac_digits[x - b - 1]);
        }
        assert forall|x: int| 0 <= x < frac_digits.len() - 1 implies txt.subrange(b + 2, q)[x]
            == frac_digits.skip(1)[x] by {
            assert(txt[b + 2 + x] == (fr + ex)[b + 2 + x - b]);
            assert((fr + ex)[2 + x] == frac_digits[1 + x]);
        }
        assert(txt.subrange(b + 2, q) =~= frac_digits.skip(1));
        lemma_num_frac_run(txt, b + 2, q, n2);
        let n3 = NumberModel { frac: n2.frac + txt.subrange(b + 2, q), ..n2 };
        assert(n3.frac =~= frac_digits);
        n3
    } else {
        n1
    };
    if he {
        let cec = char_at(txt, q);
        assert(cec == (fr + ex)[q - b]);
        assert(cec == ec);
        assert(spec_next_token(txt, q) == LexStep::Tok(Lexeme::Exponent, q + 1));
        if hf {
            assert(spec_num_frac(txt, q, n3) == spec_num_exp_start(txt, q + 1, n3));
        } else {
            assert(spec_num_int(txt, q, n3) == spec_num_exp_start(txt, q + 1, n3));
        }
        assert forall|x: int| 0 <= x < n - q - 1 implies txt.skip(q + 1)[x] == (sg
            + exp_digits)[x] by {
            assert(txt.skip(q + 1)[x] == txt[q + 1 + x]);
            assert(txt[q + 1 + x] == (fr + ex)[q + 1 + x - b]);
            assert((fr + ex)[fr.len() + 1 + x] == ex[1 + x]);
            assert(ex[1 + x] == (sg + exp_digits)[x]);
        }
        assert(txt.skip(q + 1) =~= sg + exp_digits);
        lemma_exp_start_tail(txt, q + 1, n3, sg, exp_digits);
        assert((NumberModel { exp: sg + exp_digits, ..n3 }) =~= model);
    } else {
        assert(q == n);
        lemma_num_end(txt, n3);
        assert(n3 =~= model);
    }
}

/// Lexing a decimal literal yields exactly the one number token whose
/// buffers are the literal's own parts.
#[verifier::rlimit(100)]
#[verifier::spinoff_prover]
pub proof fn lemma_number_literal_lexes(
    m: bool,
    int_digits: Seq<char>,
    hf: bool,
    frac_digits: Seq<char>,
    he: bool,
    ec: char,
    sg: Seq<char>,
    exp_digits: Seq<char>,
)
    requires
        number_literal_wf(int_digits, hf, frac_digits, he, ec, sg, exp_digits),
    ensures
        spec_tokenize(
            number_literal_text(m, int_digits, hf, frac_digits, he, ec, sg, exp_digits),
            0,
        ) == Result::<Seq<Lexeme>, crate::error::LexErrorKind>::Ok(
            seq![
                Lexeme::Number(
                    number_literal_model(m, int_digits, hf, frac_digits, he, sg, exp_digits),
                )
            ],
        ),
{
    let w: Seq<char> = if m {
        seq!['-']
    } else {
        Seq::empty()
    };
    let fr: Seq<char> = if hf {
        seq!['.'] + frac_digits
    } else {
        Seq::empty()
    };
    let ex: Seq<char> = if he {
        seq![ec] + sg + exp_digits
    } else {
        Seq::empty()
    };
    let txt = number_literal_text(m, int_digits, hf, frac_digits, he, ec, sg, exp_digits);
    assert(txt == w + int_digits + fr + ex);
    let a = w.len() as int;
    let b = a + int_digits.len();
    let n = txt.len() as int;
    assert forall|y: int| 0 <= y < n implies txt[y] == (w + int_digits + fr + ex)[y] by {}
    let model = number_literal_model(m, int_digits, hf, frac_digits, he, sg, exp_digits);
    let c0 = char_at(txt, a);
    assert(((w + int_digits) + fr)[a] == (w + int_digits)[a]);
    assert((w + int_digits)[a] == int_digits[0]);
    assert(c0 == int_digits[0]);
    assert(is_digit_char(c0));
    assert(spec_next_token(txt, a) == LexStep::Tok(Lexeme::Digit(c0), a + 1));
    if m {
        assert(txt[0] == '-');
        assert(spec_next_token(txt, 0) == LexStep::Tok(Lexeme::Minus, 1));
    }
    let start = NumberModel {
        is_minus: m,
        integer: seq![c0],
        frac: Seq::empty(),
        exp: Seq::empty(),
    };
    assert forall|x: int| a + 1 <= x < b implies is_digit_char(#[trigger] txt[x]) by {
        assert(((w + int_digits) + fr)[x] == (w + int_digits)[x]);
        assert((w + int_digits)[x] == int_digits[x - a]);
    }
    assert forall|x: int| 0 <= x < int_digits.len() - 1 implies txt.subrange(a + 1, b)[x]
        == int_digits.skip(1)[x] by {
        assert(txt[a + 1 + x] == ((w + int_digits) + fr + ex)[a + 1 + x]);
        assert(((w + int_digits) + fr)[a + 1 + x] == (w + int_digits)[a + 1 + x]);
        assert((w + int_digits)[a + 1 + x] == int_digits[1 + x]);
    }
    assert(txt.subrange(a + 1, b) =~= int_digits.skip(1));
    lemma_num_int_run(txt, a + 1, b, start);
    let n1 = NumberModel { integer: start.integer + txt.subrange(a + 1, b), ..start };
    assert(n1.integer =~= int_digits);
    assert forall|x: int| 0 <= x < n - b implies txt.skip(b)[x] == (fr + ex)[x] by {
        assert(txt.skip(b)[x] == txt[b + x]);
        assert(txt[b + x] == ((w + int_digits) + fr + ex)[b + x]);
        if x < fr.len() {
            assert(((w + int_digits) + fr)[b + x] == fr[x]);
            assert((fr + ex)[x] == fr[x]);
        } else {
            assert((fr + ex)[x] == ex[x - fr.len()]);
        }
    }
    assert(txt.skip(b) =~= fr + ex);
    lemma_int_tail(txt, b, n1, hf, frac_digits, he, ec, sg, exp_digits);
    assert((NumberModel {
        frac: if hf {
            frac_digits
        } else {
            Seq::empty()
        },
        exp: if he {
            sg + exp_digits
        } else {
            Seq::empty()
        },
        ..n1
    }) =~= model);
    assert(spec_num_int(txt, a + 1, start) == NumResult::Num(
        model,
        Option::<Lexeme>::None,
        n,
    ));
    crate::lexer::lemma_tokenize_past_end(txt, n);
    assert(spec_tokenize(txt, 0) matches Result::Ok(ls) && ls =~= seq![Lexeme::Number(model)]);
}


/// Every decimal literal of the grammar (an optional minus, integer
/// digits, an optional fraction, an optional exponent) parses to
/// exactly the number whose buffers are the literal's own parts.
#[verifier::rlimit(100)]
#[verifier::spinoff_prover]
pub proof fn lemma_number_literal_parses(
    m: bool,
    int_digits: Seq<char>,
    hf: bool,
    frac_digits: Seq<char>,
    he: bool,
    ec: char,
    sg: Seq<char>,
    exp_digits: Seq<char>,
)
    requires
        number_literal_wf(int_digits, hf, frac_digits, he, ec, sg, exp_digits),
    ensures
        spec_parse_text(number_literal_text(m, int_digits, hf, frac_digits, he, ec, sg, exp_digits))
            == Result::<ValueModel, ParseErrorKind>::Ok(
            ValueModel::Number(
                number_literal_model(m, int_digits, hf, frac_digits, he, sg, exp_digits),
            ),
        ),
{
    lemma_number_literal_lexes(m, int_digits, hf, frac_digits, he, ec, sg, exp_digits);
    let model = number_literal_model(m, int_digits, hf, frac_digits, he, sg, exp_digits);
    assert(valid_number_model(model)) by {
        if he {
            let e = sg + exp_digits;
            assert(e.len() > 0);
            if sg.len() == 1 {
                assert(e[0] == sg[0]);
                assert(e.drop_first() =~= exp_digits);
                assert(valid_exp(e));
            } else {
                assert(e =~= exp_digits);
                assert(e[0] == exp_digits[0]);
                assert(is_digit_char(e[0]));
                assert(e[0] != '+' && e[0] != '-');
                assert(valid_exp(e));
            }
        }
    }
    let ls = seq![Lexeme::Number(model)];
    reveal_with_fuel(spec_next_value, 2);
    reveal_with_fuel(spec_skip_ws, 2);
    assert(spec_next_value(ls, 0) == PStep::Value(ValueModel::Number(model), 1));
    assert(spec_next_value(ls, 1) == PStep::Exhausted(1));
}


} // verus!
