//! The value tree: the output data model of the parser, and its
//! minimal textual rendering.

use vstd::prelude::*;
use crate::lexer::NumberModel;
use crate::text::{is_digit_char, digit_char, push_char};

verus! {

/// A JSON number as parsed: the minus flag and the three digit
/// buffers of the literal, validated to form numeric text that a
/// float parser accepts (`valid_number_model`).
#[derive(Debug, PartialEq)]
pub struct JsonNumber {
    pub is_minus: bool,
    pub integer: String,
    pub frac: String,
    pub exp: String,
}

impl View for JsonNumber {
    type V = NumberModel;

    open spec fn view(&self) -> NumberModel {
        NumberModel {
            is_minus: self.is_minus,
            integer: self.integer@,
            frac: self.frac@,
            exp: self.exp@,
        }
    }
}

/// The mathematical content of a value tree.
pub enum ValueModel {
    Number(NumberModel),
    Str(Seq<char>),
    Objects(Seq<(Seq<char>, ValueModel)>),
    Boolean(bool),
    Array(Seq<ValueModel>),
    Null,
}

/// A tagged variant over every kind of JSON value.
///
/// Object members are kept in insertion order; duplicate names are
/// legal and preserved.
#[derive(Debug, PartialEq)]
pub enum JsonValue {
    Number(JsonNumber),
    String(String),
    Objects(Vec<JsonObject>),
    Boolean(bool),
    Array(Vec<JsonValue>),
    Null,
}

/// One name/value pair of an object.
#[derive(Debug, PartialEq)]
pub struct JsonObject {
    pub name: String,
    pub value: JsonValue,
}

/// The mathematical content of a value.
pub open spec fn view_value(v: JsonValue) -> ValueModel
    decreases v,
    via view_value_decreases
{
    match v {
        JsonValue::Number(n) => ValueModel::Number(n@),
        JsonValue::String(s) => ValueModel::Str(s@),
        JsonValue::Objects(os) => ValueModel::Objects(view_objects(os@)),
        JsonValue::Boolean(b) => ValueModel::Boolean(b),
        JsonValue::Array(vs) => ValueModel::Array(view_values(vs@)),
        JsonValue::Null => ValueModel::Null,
    }
}

/// The mathematical content of a sequence of values.
pub open spec fn view_values(vs: Seq<JsonValue>) -> Seq<ValueModel>
    decreases vs,
    via view_values_decreases
{
    if vs.len() == 0 {
        Seq::empty()
    } else {
        view_values(vs.drop_last()).push(view_value(vs.last()))
    }
}

/// The mathematical content of a sequence of name/value pairs.
pub open spec fn view_objects(os: Seq<JsonObject>) -> Seq<(Seq<char>, ValueModel)>
    decreases os,
    via view_objects_decreases
{
    if os.len() == 0 {
        Seq::empty()
    } else {
        view_objects(os.drop_last()).push((os.last().name@, view_value(os.last().value)))
    }
}

#[via_fn]
proof fn view_value_decreases(v: JsonValue) {
    match v {
        JsonValue::Objects(os) => {
            assert(decreases_to!(v => os));
            assert(decreases_to!(os => os@));
        },
        JsonValue::Array(vs) => {
            assert(decreases_to!(v => vs));
            assert(decreases_to!(vs => vs@));
        },
        _ => {},
    }
}

#[via_fn]
proof fn view_values_decreases(vs: Seq<JsonValue>) {
    if vs.len() > 0 {
        assert(decreases_to!(vs => vs[vs.len() - 1]));
        assert(vs.last() == vs[vs.len() - 1]);
        assert(decreases_to!(vs => vs.subrange(0, vs.len() - 1)));
        assert(vs.drop_last() == vs.subrange(0, vs.len() - 1));
    }
}

#[via_fn]
proof fn view_objects_decreases(os: Seq<JsonObject>) {
    if os.len() > 0 {
        assert(decreases_to!(os => os[os.len() - 1]));
        assert(os.last() == os[os.len() - 1]);
        assert(decreases_to!(os[os.len() - 1] => os[os.len() - 1].value));
        assert(decreases_to!(os => os.subrange(0, os.len() - 1)));
        assert(os.drop_last() == os.subrange(0, os.len() - 1));
    }
}

/// `view_values` is the element-wise view.
pub proof fn lemma_view_values_index(vs: Seq<JsonValue>)
    ensures
        view_values(vs).len() == vs.len(),
        forall|k: int| 0 <= k < vs.len() ==> #[trigger] view_values(vs)[k] == view_value(vs[k]),
    decreases vs.len(),
{
    if vs.len() > 0 {
        lemma_view_values_index(vs.drop_last());
    }
}

/// `view_objects` is the element-wise view.
pub proof fn lemma_view_objects_index(os: Seq<JsonObject>)
    ensures
        view_objects(os).len() == os.len(),
        forall|k: int| 0 <= k < os.len() ==> #[trigger] view_objects(os)[k] == (
            os[k].name@,
            view_value(os[k].value),
        ),
    decreases os.len(),
{
    if os.len() > 0 {
        lemma_view_objects_index(os.drop_last());
    }
}

/// Appending a value appends its view.
pub proof fn lemma_view_values_push(vs: Seq<JsonValue>, v: JsonValue)
    ensures
        view_values(vs.push(v)) == view_values(vs).push(view_value(v)),
{
    assert(vs.push(v).drop_last() =~= vs);
    assert(vs.push(v).last() == v);
}

/// Appending a pair appends its view.
pub proof fn lemma_view_objects_push(os: Seq<JsonObject>, o: JsonObject)
    ensures
        view_objects(os.push(o)) == view_objects(os).push((o.name@, view_value(o.value))),
{
    assert(os.push(o).drop_last() =~= os);
    assert(os.push(o).last() == o);
}

impl DeepView for JsonValue {
    type V = ValueModel;

    open spec fn deep_view(&self) -> ValueModel {
        view_value(*self)
    }
}

impl DeepView for JsonObject {
    type V = (Seq<char>, ValueModel);

    open spec fn deep_view(&self) -> (Seq<char>, ValueModel) {
        (self.name@, view_value(self.value))
    }
}

impl JsonObject {
    /// A pair with the given name and value.
    pub fn new(name: &str, value: JsonValue) -> (o: JsonObject)
        ensures
            o.name@ == name@,
            o.value == value,
    {
        let owned: String = name.to_owned();
        JsonObject { name: owned, value }
    }
}

/// Is every character of `s` a decimal digit?
pub open spec fn all_digits(s: Seq<char>) -> bool {
    forall|k: int| 0 <= k < s.len() ==> is_digit_char(#[trigger] s[k])
}

/// Is `e` a well-formed exponent buffer: empty, or an optional sign
/// followed by at least one digit, and digits only?
pub open spec fn valid_exp(e: Seq<char>) -> bool {
    if e.len() == 0 {
        true
    } else {
        let rest = if e[0] == '+' || e[0] == '-' {
            e.drop_first()
        } else {
            e
        };
        rest.len() > 0 && all_digits(rest)
    }
}

/// Does this number record form numeric text that a float parser
/// accepts: a nonempty all-digit integer part, an all-digit fraction
/// part, and a well-formed exponent part?
pub open spec fn valid_number_model(n: NumberModel) -> bool {
    n.integer.len() > 0 && all_digits(n.integer) && all_digits(n.frac) && valid_exp(n.exp)
}

/// The canonical numeric text of a number record: minus sign if any,
/// the integer digits, the fraction digits after a decimal point if
/// any, and the exponent after an `E` if any.
pub open spec fn number_text(n: NumberModel) -> Seq<char> {
    (if n.is_minus {
        seq!['-']
    } else {
        Seq::empty()
    }) + n.integer + (if n.frac.len() > 0 {
        seq!['.'] + n.frac
    } else {
        Seq::empty()
    }) + (if n.exp.len() > 0 {
        seq!['E'] + n.exp
    } else {
        Seq::empty()
    })
}

/// Executable form of `all_digits` over a string.
pub fn all_digits_str(s: &String) -> (b: bool)
    ensures
        b == all_digits(s@),
{
    let n = s.as_str().unicode_len();
    let mut i: usize = 0;
    while i < n
        invariant
            i <= n,
            n == s@.len(),
            forall|k: int| 0 <= k < i ==> is_digit_char(#[trigger] s@[k]),
        decreases n - i,
    {
        let c = s.as_str().get_char(i);
        if !digit_char(c) {
            return false;
        }
        i = i + 1;
    }
    true
}

/// Executable form of `valid_exp` over a string.
pub fn valid_exp_str(e: &String) -> (b: bool)
    ensures
        b == valid_exp(e@),
{
    let n = e.as_str().unicode_len();
    if n == 0 {
        return true;
    }
    let first = e.as_str().get_char(0);
    let start: usize = if first == '+' || first == '-' {
        1
    } else {
        0
    };
    if n - start == 0 {
        return false;
    }
    let mut i: usize = start;
    while i < n
        invariant
            start <= i <= n,
            n == e@.len(),
            n >= 1,
            start == (if e@[0] == '+' || e@[0] == '-' {
                1int
            } else {
                0int
            }),
            forall|k: int| start <= k < i ==> is_digit_char(#[trigger] e@[k]),
        decreases n - i,
    {
        let c = e.as_str().get_char(i);
        if !digit_char(c) {
            proof {
                if e@[0] == '+' || e@[0] == '-' {
                    assert(e@.drop_first()[i - 1] == e@[i as int]);
                } else {
                }
            }
            return false;
        }
        i = i + 1;
    }
    proof {
        if e@[0] == '+' || e@[0] == '-' {
            assert(forall|k: int| 0 <= k < e@.drop_first().len() ==> is_digit_char(
                #[trigger] e@.drop_first()[k],
            ));
        }
    }
    true
}

impl JsonNumber {
    /// Does this number form numeric text a float parser accepts?
    pub fn is_valid(&self) -> (b: bool)
        ensures
            b == valid_number_model(self@),
    {
        self.integer.as_str().unicode_len() > 0 && all_digits_str(&self.integer) && all_digits_str(
            &self.frac,
        ) && valid_exp_str(&self.exp)
    }

    /// The canonical numeric text of this number, ready for a float
    /// parser.
    pub fn to_text(&self) -> (r: String)
        ensures
            r@ == number_text(self@),
    {
        let mut out = String::new();
        if self.is_minus {
            push_char(&mut out, '-');
        }
        out.append(self.integer.as_str());
        if self.frac.as_str().unicode_len() > 0 {
            push_char(&mut out, '.');
            out.append(self.frac.as_str());
        }
        if self.exp.as_str().unicode_len() > 0 {
            push_char(&mut out, 'E');
            out.append(self.exp.as_str());
        }
        proof {
            assert(out@ =~= number_text(self@));
        }
        out
    }
}

impl JsonValue {
    /// Is this value a number?
    pub fn is_number(&self) -> (b: bool)
        ensures
            b == (self.deep_view() is Number),
    {
        match self {
            JsonValue::Number(_) => true,
            _ => false,
        }
    }

    /// Is this value a string?
    pub fn is_string(&self) -> (b: bool)
        ensures
            b == (self.deep_view() is Str),
    {
        match self {
            JsonValue::String(_) => true,
            _ => false,
        }
    }

    /// Is this value an object?
    pub fn is_objects(&self) -> (b: bool)
        ensures
            b == (self.deep_view() is Objects),
    {
        match self {
            JsonValue::Objects(_) => true,
            _ => false,
        }
    }

    /// Is this value a boolean?
    pub fn is_bool(&self) -> (b: bool)
        ensures
            b == (self.deep_view() is Boolean),
    {
        match self {
            JsonValue::Boolean(_) => true,
            _ => false,
        }
    }

    /// Is this value the null value?
    pub fn is_null(&self) -> (b: bool)
        ensures
            b == (self.deep_view() is Null),
    {
        match self {
            JsonValue::Null => true,
            _ => false,
        }
    }

    /// Is this value an array?
    pub fn is_array(&self) -> (b: bool)
        ensures
            b == (self.deep_view() is Array),
    {
        match self {
            JsonValue::Array(_) => true,
            _ => false,
        }
    }

    /// Converts this value into a user type through its `FromJson`
    /// implementation.
    pub fn deserialize<F: FromJson>(&self) -> Result<F, F::Err> {
        FromJson::from_json(self)
    }
}

/// The polymorphic conversion contract: user types implement it to
/// convert a value node into themselves, with their own error type.
/// The library only ever calls into it.
pub trait FromJson: Sized {
    /// The error a failed conversion reports.
    type Err;

    /// Converts one value node.
    fn from_json(json: &JsonValue) -> Result<Self, Self::Err>;
}


/// The hexadecimal digit character of `v`, lower case.
pub open spec fn hex_char_of(v: int) -> char {
    if v < 10 {
        ((0x30 + v) as u32) as char
    } else {
        ((0x57 + v) as u32) as char
    }
}

/// The rendering of one string character: the two-character escapes
/// for the quote, the reverse solidus, newline, tab and carriage
/// return, a `\u00XX` escape for any other control character, and the
/// character itself for everything else.
pub open spec fn escape_char(c: char) -> Seq<char> {
    if c == '"' {
        seq!['\\', '"']
    } else if c == '\\' {
        seq!['\\', '\\']
    } else if c == '\n' {
        seq!['\\', 'n']
    } else if c == '\t' {
        seq!['\\', 't']
    } else if c == '\r' {
        seq!['\\', 'r']
    } else if (c as u32) < 0x20 {
        seq!['\\', 'u', '0', '0', hex_char_of(c as u32 as int / 16), hex_char_of(c as u32 as int % 16)]
    } else {
        seq![c]
    }
}

/// The rendering of string text, character by character.
pub open spec fn escape_text(s: Seq<char>) -> Seq<char>
    decreases s.len(),
{
    if s.len() == 0 {
        Seq::empty()
    } else {
        escape_char(s[0]) + escape_text(s.skip(1))
    }
}

/// The minimal textual rendering of a value: no whitespace, numbers
/// as their canonical text, strings quoted with their characters
/// escaped, objects and arrays with separators only.
pub open spec fn render_value(v: ValueModel) -> Seq<char>
    decreases v,
    via render_value_decreases
{
    match v {
        ValueModel::Number(n) => number_text(n),
        ValueModel::Str(s) => seq!['"'] + escape_text(s) + seq!['"'],
        ValueModel::Objects(os) => seq!['{'] + render_members(os) + seq!['}'],
        ValueModel::Boolean(b) => if b {
            seq!['t', 'r', 'u', 'e']
        } else {
            seq!['f', 'a', 'l', 's', 'e']
        },
        ValueModel::Array(vs) => seq!['['] + render_elements(vs) + seq![']'],
        ValueModel::Null => seq!['n', 'u', 'l', 'l'],
    }
}

/// The rendering of an object's members, separated by commas.
pub open spec fn render_members(os: Seq<(Seq<char>, ValueModel)>) -> Seq<char>
    decreases os, 1int,
    via render_members_decreases
{
    if os.len() == 0 {
        Seq::empty()
    } else {
        seq!['"'] + escape_text(os[0].0) + seq!['"', ':'] + render_value(os[0].1)
            + render_members_rest(os.skip(1))
    }
}

/// The comma-led continuation of an object's members.
pub open spec fn render_members_rest(os: Seq<(Seq<char>, ValueModel)>) -> Seq<char>
    decreases os, 2int,
    via render_members_rest_decreases
{
    if os.len() == 0 {
        Seq::empty()
    } else {
        seq![',', '"'] + escape_text(os[0].0) + seq!['"', ':'] + render_value(os[0].1)
            + render_members_rest(os.skip(1))
    }
}

/// The rendering of an array's elements, separated by commas.
pub open spec fn render_elements(vs: Seq<ValueModel>) -> Seq<char>
    decreases vs, 1int,
    via render_elements_decreases
{
    if vs.len() == 0 {
        Seq::empty()
    } else {
        render_value(vs[0]) + render_elements_rest(vs.skip(1))
    }
}

/// The comma-led continuation of an array's elements.
pub open spec fn render_elements_rest(vs: Seq<ValueModel>) -> Seq<char>
    decreases vs, 2int,
    via render_elements_rest_decreases
{
    if vs.len() == 0 {
        Seq::empty()
    } else {
        seq![','] + render_value(vs[0]) + render_elements_rest(vs.skip(1))
    }
}

#[via_fn]
proof fn render_value_decreases(v: ValueModel) {
    match v {
        ValueModel::Objects(os) => {
            assert(decreases_to!(v => os));
        },
        ValueModel::Array(vs) => {
            assert(decreases_to!(v => vs));
        },
        _ => {},
    }
}

#[via_fn]
proof fn render_members_decreases(os: Seq<(Seq<char>, ValueModel)>) {
    if os.len() > 0 {
        assert(decreases_to!(os => os[0]));
        assert(decreases_to!(os[0] => os[0].1));
        assert(decreases_to!(os => os.skip(1)));
    }
}

#[via_fn]
proof fn render_members_rest_decreases(os: Seq<(Seq<char>, ValueModel)>) {
    if os.len() > 0 {
        assert(decreases_to!(os => os[0]));
        assert(decreases_to!(os[0] => os[0].1));
        assert(decreases_to!(os => os.skip(1)));
    }
}

#[via_fn]
proof fn render_elements_decreases(vs: Seq<ValueModel>) {
    if vs.len() > 0 {
        assert(decreases_to!(vs => vs[0]));
        assert(decreases_to!(vs => vs.skip(1)));
    }
}

#[via_fn]
proof fn render_elements_rest_decreases(vs: Seq<ValueModel>) {
    if vs.len() > 0 {
        assert(decreases_to!(vs => vs[0]));
        assert(decreases_to!(vs => vs.skip(1)));
    }
}

/// Appending an element appends its rendering after a comma.
proof fn lemma_render_elements_rest_snoc(vs: Seq<ValueModel>, v: ValueModel)
    ensures
        render_elements_rest(vs.push(v)) == render_elements_rest(vs) + seq![','] + render_value(
            v,
        ),
    decreases vs.len(),
{
    reveal_with_fuel(render_elements_rest, 3);
    if vs.len() == 0 {
        assert(vs.push(v)[0] == v);
        assert(vs.push(v).skip(1) =~= Seq::<ValueModel>::empty());
        assert(render_elements_rest(vs.push(v)) =~= render_elements_rest(vs) + seq![',']
            + render_value(v));
    } else {
        assert(vs.push(v)[0] == vs[0]);
        assert(vs.push(v).skip(1) =~= vs.skip(1).push(v));
        lemma_render_elements_rest_snoc(vs.skip(1), v);
        assert(render_elements_rest(vs.push(v)) == seq![','] + render_value(vs[0])
            + render_elements_rest(vs.skip(1).push(v)));
        assert(render_elements_rest(vs) == seq![','] + render_value(vs[0])
            + render_elements_rest(vs.skip(1)));
        assert(render_elements_rest(vs.push(v)) =~= render_elements_rest(vs) + seq![',']
            + render_value(v));
    }
}

/// Appending an element appends its rendering, with a comma before it
/// unless it is the first.
proof fn lemma_render_elements_snoc(vs: Seq<ValueModel>, v: ValueModel)
    ensures
        render_elements(vs.push(v)) == render_elements(vs) + (if vs.len() == 0 {
            Seq::empty()
        } else {
            seq![',']
        }) + render_value(v),
{
    if vs.len() == 0 {
        assert(vs.push(v)[0] == v);
        assert(vs.push(v).skip(1) =~= Seq::<ValueModel>::empty());
        assert(render_elements(vs.push(v)) =~= render_elements(vs) + Seq::<char>::empty()
            + render_value(v));
    } else {
        assert(vs.push(v)[0] == vs[0]);
        assert(vs.push(v).skip(1) =~= vs.skip(1).push(v));
        lemma_render_elements_rest_snoc(vs.skip(1), v);
        assert(render_elements(vs.push(v)) =~= render_elements(vs) + seq![','] + render_value(
            v,
        ));
    }
}

/// Appending a member appends its rendering after a comma.
proof fn lemma_render_members_rest_snoc(os: Seq<(Seq<char>, ValueModel)>, o: (Seq<char>, ValueModel))
    ensures
        render_members_rest(os.push(o)) == render_members_rest(os) + seq![',', '"'] + escape_text(
            o.0,
        ) + seq!['"', ':'] + render_value(o.1),
    decreases os.len(),
{
    reveal_with_fuel(render_members_rest, 3);
    if os.len() == 0 {
        assert(os.push(o)[0] == o);
        assert(os.push(o).skip(1) =~= Seq::<(Seq<char>, ValueModel)>::empty());
        assert(render_members_rest(os.push(o)) =~= render_members_rest(os) + seq![',', '"']
            + escape_text(o.0) + seq!['"', ':'] + render_value(o.1));
    } else {
        assert(os.push(o)[0] == os[0]);
        assert(os.push(o).skip(1) =~= os.skip(1).push(o));
        lemma_render_members_rest_snoc(os.skip(1), o);
        assert(render_members_rest(os.push(o)) == seq![',', '"'] + escape_text(os[0].0) + seq![
            '"',
            ':',
        ] + render_value(os[0].1) + render_members_rest(os.skip(1).push(o)));
        assert(render_members_rest(os) == seq![',', '"'] + escape_text(os[0].0) + seq!['"', ':']
            + render_value(os[0].1) + render_members_rest(os.skip(1)));
        assert(render_members_rest(os.push(o)) =~= render_members_rest(os) + seq![',', '"']
            + escape_text(o.0) + seq!['"', ':'] + render_value(o.1));
    }
}

/// Appending a member appends its rendering, with a comma before it
/// unless it is the first.
proof fn lemma_render_members_snoc(os: Seq<(Seq<char>, ValueModel)>, o: (Seq<char>, ValueModel))
    ensures
        render_members(os.push(o)) == render_members(os) + (if os.len() == 0 {
            seq!['"']
        } else {
            seq![',', '"']
        }) + escape_text(o.0) + seq!['"', ':'] + render_value(o.1),
{
    if os.len() == 0 {
        assert(os.push(o)[0] == o);
        assert(os.push(o).skip(1) =~= Seq::<(Seq<char>, ValueModel)>::empty());
        assert(render_members(os.push(o)) =~= render_members(os) + seq!['"'] + escape_text(o.0)
            + seq!['"', ':'] + render_value(o.1));
    } else {
        assert(os.push(o)[0] == os[0]);
        assert(os.push(o).skip(1) =~= os.skip(1).push(o));
        lemma_render_members_rest_snoc(os.skip(1), o);
        assert(render_members(os.push(o)) =~= render_members(os) + seq![',', '"'] + escape_text(
            o.0,
        ) + seq!['"', ':'] + render_value(o.1));
    }
}

/// The hexadecimal digit character of `v`, executable form.
fn hex_char_digit(v: u32) -> (c: char)
    requires
        v < 16,
    ensures
        c == hex_char_of(v as int),
{
    let c = if v < 10 {
        crate::text::char_from_code(0x30 + v)
    } else {
        crate::text::char_from_code(0x57 + v)
    };
    proof {
        vstd::utf8::char_u32_cast(c, c as u32);
    }
    c
}

/// Appends the escaped rendering of `s` to `out`: exactly
/// `escape_text`.
#[verifier::loop_isolation(false)]
fn push_escaped(out: &mut String, s: &str)
    ensures
        final(out)@ == old(out)@ + escape_text(s@),
{
    let n = s.unicode_len();
    let mut i: usize = 0;
    proof {
        assert(s@.skip(0) =~= s@);
    }
    loop
        invariant
            i <= n,
            n == s@.len(),
            old(out)@ + escape_text(s@) == out@ + escape_text(s@.skip(i as int)),
        decreases n - i,
    {
        if i >= n {
            proof {
                assert(s@.skip(i as int) =~= Seq::<char>::empty());
                assert(out@ + Seq::<char>::empty() =~= out@);
            }
            return ;
        }
        let c = s.get_char(i);
        proof {
            assert(s@.skip(i as int)[0] == s@[i as int]);
            assert(s@.skip(i as int).skip(1) =~= s@.skip(i + 1));
        }
        let ghost mid = out@;
        if c == '"' {
            push_char(out, '\\');
            push_char(out, '"');
        } else if c == '\\' {
            push_char(out, '\\');
            push_char(out, '\\');
        } else if c == '\n' {
            push_char(out, '\\');
            push_char(out, 'n');
        } else if c == '\t' {
            push_char(out, '\\');
            push_char(out, 't');
        } else if c == '\r' {
            push_char(out, '\\');
            push_char(out, 'r');
        } else if (c as u32) < 0x20 {
            let v = c as u32;
            push_char(out, '\\');
            push_char(out, 'u');
            push_char(out, '0');
            push_char(out, '0');
            let h1 = hex_char_digit(v / 16);
            let h2 = hex_char_digit(v % 16);
            push_char(out, h1);
            push_char(out, h2);
        } else {
            push_char(out, c);
        }
        proof {
            assert(out@ =~= mid + escape_char(c));
            assert(mid + (escape_char(c) + escape_text(s@.skip(i + 1))) =~= (mid + escape_char(
                c,
            )) + escape_text(s@.skip(i + 1)));
        }
        i = i + 1;
    }
}

impl JsonValue {
    /// Appends the minimal textual rendering of `v` to `out`: exactly
    /// `render_value`.
    #[verifier::loop_isolation(false)]
    #[verifier::rlimit(100)]
    #[verifier::spinoff_prover]
    fn write_value(out: &mut String, v: &JsonValue)
        ensures
            final(out)@ == old(out)@ + render_value(v.deep_view()),
        decreases *v,
    {
        match v {
            JsonValue::Number(num) => {
                let t = num.to_text();
                out.append(t.as_str());
            },
            JsonValue::String(s) => {
                push_char(out, '"');
                push_escaped(out, s.as_str());
                push_char(out, '"');
                proof {
                    assert(out@ =~= old(out)@ + render_value(v.deep_view()));
                }
            },
            JsonValue::Boolean(b) => {
                if *b {
                    out.append("true");
                    proof {
                        reveal_strlit("true");
                        assert(out@ =~= old(out)@ + render_value(v.deep_view()));
                    }
                } else {
                    out.append("false");
                    proof {
                        reveal_strlit("false");
                        assert(out@ =~= old(out)@ + render_value(v.deep_view()));
                    }
                }
            },
            JsonValue::Null => {
                out.append("null");
                proof {
                    reveal_strlit("null");
                    assert(out@ =~= old(out)@ + render_value(v.deep_view()));
                }
            },
            JsonValue::Array(vs) => {
                push_char(out, '[');
                let n = vs.len();
                let mut j: usize = 0;
                proof {
                    lemma_view_values_index(vs@);
                }
                while j < n
                    invariant
                        j <= n,
                        n == vs@.len(),
                        out@ == old(out)@ + seq!['['] + render_elements(
                            view_values(vs@).take(j as int),
                        ),
                    decreases n - j,
                {
                    if j > 0 {
                        push_char(out, ',');
                    }
                    let ghost mid = out@;
                    proof {
                        assert(decreases_to!(*v => *vs));
                        assert(decreases_to!(*vs => vs@));
                        assert(decreases_to!(vs@ => vs@[j as int]));
                    }
                    let elem = vstd::std_specs::vec::vec_index(vs, j);
                    Self::write_value(out, elem);
                    proof {
                        let models = view_values(vs@);
                        assert(models.take(j + 1) =~= models.take(j as int).push(
                            models[j as int],
                        ));
                        lemma_render_elements_snoc(models.take(j as int), models[j as int]);
                        assert(out@ =~= old(out)@ + seq!['['] + render_elements(
                            models.take(j + 1),
                        ));
                    }
                    j = j + 1;
                }
                push_char(out, ']');
                proof {
                    assert(view_values(vs@).take(n as int) =~= view_values(vs@));
                    assert(out@ =~= old(out)@ + render_value(v.deep_view()));
                }
            },
            JsonValue::Objects(os) => {
                push_char(out, '{');
                let n = os.len();
                let mut j: usize = 0;
                proof {
                    lemma_view_objects_index(os@);
                }
                while j < n
                    invariant
                        j <= n,
                        n == os@.len(),
                        out@ == old(out)@ + seq!['{'] + render_members(
                            view_objects(os@).take(j as int),
                        ),
                    decreases n - j,
                {
                    if j > 0 {
                        push_char(out, ',');
                    }
                    push_char(out, '"');
                    let pair = vstd::std_specs::vec::vec_index(os, j);
                    push_escaped(out, pair.name.as_str());
                    push_char(out, '"');
                    push_char(out, ':');
                    proof {
                        assert(decreases_to!(*v => *os));
                        assert(decreases_to!(*os => os@));
                        assert(decreases_to!(os@ => os@[j as int]));
                        assert(decreases_to!(os@[j as int] => os@[j as int].value));
                    }
                    Self::write_value(out, &pair.value);
                    proof {
                        let models = view_objects(os@);
                        assert(models.take(j + 1) =~= models.take(j as int).push(
                            models[j as int],
                        ));
                        lemma_render_members_snoc(models.take(j as int), models[j as int]);
                        assert(out@ =~= old(out)@ + seq!['{'] + render_members(
                            models.take(j + 1),
                        ));
                    }
                    j = j + 1;
                }
                push_char(out, '}');
                proof {
                    assert(view_objects(os@).take(n as int) =~= view_objects(os@));
                    assert(out@ =~= old(out)@ + render_value(v.deep_view()));
                }
            },
        }
    }

    /// The minimal (whitespace-free) textual rendering of this value:
    /// exactly `render_value`. Quotes, reverse solidi and control
    /// characters inside strings are escaped, so the rendering is
    /// itself valid JSON text.
    pub fn to_text(&self) -> (r: String)
        ensures
            r@ == render_value(self.deep_view()),
    {
        let mut out = String::new();
        Self::write_value(&mut out, self);
        proof {
            assert(Seq::<char>::empty() + render_value(self.deep_view()) =~= render_value(
                self.deep_view(),
            ));
        }
        out
    }
}

impl core::str::FromStr for JsonValue {
    type Err = crate::error::JsonParseError;

    fn from_str(s: &str) -> Result<JsonValue, crate::error::JsonParseError> {
        crate::parser::parse_json(s)
    }
}

} // verus!
