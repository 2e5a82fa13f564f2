//! Python's `json.dumps`, character for character.
//!
//! The state and any structured criterion or instruction are serialised into the token sequence,
//! so the text has to be Python's exactly: `{"a": 1, "b": 2}`, with a space after `:` and `,`, and
//! floats written the way Python's `repr` writes them (`1e-05`, `100000.0`). A different string is
//! a different tokenisation, which is a different prediction.

use vstd::prelude::*;
use vstd::string::*;

use crate::json::{Decimal, Json, Number, Numeral, Value};
use crate::digits::{lemma_value_of_concat, lemma_value_of_zeros, pow10};
use crate::text::{
    all_digits, chars_of, decimal, decimal_text, digits_value, is_digit, lemma_decimal, occurs_at,
    occurs_in,
};

verus! {

// ----------------------------------------------------------------------- strings

/// The lower-case hexadecimal digit of a number below 16.
pub open spec fn hex_char(d: nat) -> char {
    if d < 10 {
        (48 + d) as char
    } else {
        (87 + d) as char
    }
}

/// `\uXXXX` for one UTF-16 unit.
pub open spec fn unit_escape(u: nat) -> Seq<char> {
    seq![
        '\\',
        'u',
        hex_char(u / 4096 % 16),
        hex_char(u / 256 % 16),
        hex_char(u / 16 % 16),
        hex_char(u % 16),
    ]
}

/// A character as its escaped UTF-16 units.
pub open spec fn utf16_escape(c: char) -> Seq<char> {
    let u = c as u32 as nat;
    if u < 0x10000 {
        unit_escape(u)
    } else {
        unit_escape((0xd800 + (u - 0x10000) / 0x400) as nat) + unit_escape(
            (0xdc00 + (u - 0x10000) % 0x400) as nat,
        )
    }
}

/// How one character stands in a JSON string. With `ascii`, whatever is outside printable ASCII
/// is escaped; without it only quotes, backslashes and control characters are.
pub open spec fn escaped_char(c: char, ascii: bool) -> Seq<char> {
    let u = c as u32;
    if c == '"' {
        seq!['\\', '"']
    } else if c == '\\' {
        seq!['\\', '\\']
    } else if u == 8 {
        seq!['\\', 'b']
    } else if u == 9 {
        seq!['\\', 't']
    } else if u == 10 {
        seq!['\\', 'n']
    } else if u == 12 {
        seq!['\\', 'f']
    } else if u == 13 {
        seq!['\\', 'r']
    } else if u < 32 || (ascii && u > 126) {
        utf16_escape(c)
    } else {
        seq![c]
    }
}

/// The inside of a JSON string.
pub open spec fn escaped(s: Seq<char>, ascii: bool) -> Seq<char>
    decreases s.len(),
{
    if s.len() == 0 {
        Seq::empty()
    } else {
        escaped(s.drop_last(), ascii) + escaped_char(s.last(), ascii)
    }
}

/// A JSON string, quotes included.
pub open spec fn string_literal(s: Seq<char>, ascii: bool) -> Seq<char> {
    seq!['"'] + escaped(s, ascii) + seq!['"']
}

// ----------------------------------------------------------------------- numbers

/// `n` zeros.
pub open spec fn zeros(n: nat) -> Seq<char> {
    Seq::new(n, |i: int| '0')
}

/// `n` in decimal, with at least two digits.
pub open spec fn two_digits(n: nat) -> Seq<char> {
    if n < 10 {
        seq!['0'] + decimal(n)
    } else {
        decimal(n)
    }
}

/// `d.dde+xx` notation, with at least two digits in the exponent.
pub open spec fn scientific(digits: Seq<char>, exp: int) -> Seq<char> {
    let fraction: Seq<char> = if digits.len() <= 1 {
        digits
    } else {
        digits.take(1) + seq!['.'] + digits.skip(1)
    };
    if exp < 0 {
        fraction + seq!['e', '-'] + two_digits((-exp) as nat)
    } else {
        fraction + seq!['e', '+'] + two_digits(exp as nat)
    }
}

/// Notation without an exponent, with at least one digit on either side of the point.
pub open spec fn positional(digits: Seq<char>, exp: int) -> Seq<char> {
    if exp < 0 {
        seq!['0', '.'] + zeros((-exp - 1) as nat) + digits
    } else if exp + 1 >= digits.len() {
        digits + zeros((exp + 1 - digits.len()) as nat) + seq!['.', '0']
    } else {
        digits.take(exp + 1) + seq!['.'] + digits.skip(exp + 1)
    }
}

/// Python's `repr` of the finite number `d.ddd` times ten to the `exp`: positional for exponents
/// from -4 to 15, scientific outside that.
pub open spec fn finite_repr(negative: bool, digits: Seq<char>, exp: int) -> Seq<char> {
    let body = if -4 <= exp < 16 {
        positional(digits, exp)
    } else {
        scientific(digits, exp)
    };
    if negative {
        seq!['-'] + body
    } else {
        body
    }
}

/// A JSON number.
pub open spec fn number_literal(n: Numeral) -> Seq<char> {
    match n {
        Numeral::PosInt(n) => decimal(n as nat),
        Numeral::NegInt(n) => if n < 0 {
            seq!['-'] + decimal((-n) as nat)
        } else {
            decimal(n as nat)
        },
        Numeral::Float { negative, digits, exponent } => finite_repr(negative, digits, exponent),
    }
}

// ----------------------------------------------------------------------- documents

/// A JSON document, as Python writes it.
pub open spec fn dumped(j: Json, ascii: bool) -> Seq<char>
    decreases j,
{
    match j {
        Json::Null => seq!['n', 'u', 'l', 'l'],
        Json::Bool(b) => if b {
            seq!['t', 'r', 'u', 'e']
        } else {
            seq!['f', 'a', 'l', 's', 'e']
        },
        Json::Number(n) => number_literal(n),
        Json::Text(s) => string_literal(s, ascii),
        Json::Array(items) => seq!['['] + dumped_items(items, ascii) + seq![']'],
        Json::Object(fields) => seq!['{'] + dumped_fields(fields, ascii) + seq!['}'],
    }
}

/// The items of an array, with a comma and a space between each two.
pub open spec fn dumped_items(items: Seq<Json>, ascii: bool) -> Seq<char>
    decreases items,
{
    if items.len() == 0 {
        Seq::empty()
    } else {
        let before: Seq<char> = if items.len() == 1 {
            Seq::empty()
        } else {
            dumped_items(items.subrange(0, items.len() - 1), ascii) + seq![',', ' ']
        };
        before + dumped(items[items.len() - 1], ascii)
    }
}

/// The fields of an object, each as `"key": value`, with a comma and a space between each two.
pub open spec fn dumped_fields(fields: Seq<(Seq<char>, Json)>, ascii: bool) -> Seq<char>
    decreases fields,
{
    if fields.len() == 0 {
        Seq::empty()
    } else {
        let before: Seq<char> = if fields.len() == 1 {
            Seq::empty()
        } else {
            dumped_fields(fields.subrange(0, fields.len() - 1), ascii) + seq![',', ' ']
        };
        let (key, value) = fields[fields.len() - 1];
        before + string_literal(key, ascii) + seq![':', ' '] + dumped(value, ascii)
    }
}

/// The text a value contributes to the sequence: a string as it is, anything else as JSON.
pub open spec fn rendered(j: Json) -> Seq<char> {
    match j {
        Json::Text(s) => s,
        _ => dumped(j, false),
    }
}

/// [`rendered`] for a question's instructions, whose JSON is escaped to ASCII.
pub open spec fn rendered_instructions(j: Json) -> Seq<char> {
    match j {
        Json::Text(s) => s,
        _ => dumped(j, true),
    }
}

fn push_hex(d: u32, out: &mut String)
    requires
        d < 16,
    ensures
        final(out)@ == old(out)@.push(hex_char(d as nat)),
{
    if d < 10 {
        out.push((48u8 + d as u8) as char);
    } else {
        out.push((87u8 + d as u8) as char);
    }
}

fn push_unit(u: u32, out: &mut String)
    ensures
        final(out)@ == old(out)@ + unit_escape(u as nat),
{
    out.push('\\');
    out.push('u');
    push_hex(u / 4096 % 16, out);
    push_hex(u / 256 % 16, out);
    push_hex(u / 16 % 16, out);
    push_hex(u % 16, out);
    assert(out@ =~= old(out)@ + unit_escape(u as nat));
}

fn push_escaped(c: char, ascii: bool, out: &mut String)
    ensures
        final(out)@ == old(out)@ + escaped_char(c, ascii),
{
    let u: u32 = c as u32;
    if c == '"' {
        out.push('\\');
        out.push('"');
    } else if c == '\\' {
        out.push('\\');
        out.push('\\');
    } else if u == 8 {
        out.push('\\');
        out.push('b');
    } else if u == 9 {
        out.push('\\');
        out.push('t');
    } else if u == 10 {
        out.push('\\');
        out.push('n');
    } else if u == 12 {
        out.push('\\');
        out.push('f');
    } else if u == 13 {
        out.push('\\');
        out.push('r');
    } else if u < 32 || (ascii && u > 126) {
        if u < 0x10000 {
            push_unit(u, out);
        } else {
            push_unit(0xd800 + (u - 0x10000) / 0x400, out);
            push_unit(0xdc00 + (u - 0x10000) % 0x400, out);
        }
    } else {
        out.push(c);
    }
    assert(out@ =~= old(out)@ + escaped_char(c, ascii));
}

fn push_string(s: &str, ascii: bool, out: &mut String)
    ensures
        final(out)@ == old(out)@ + string_literal(s@, ascii),
{
    let ghost start = out@.push('"');
    out.push('"');
    for c in it: s.chars()
        invariant
            it.seq() == s@,
            out@ == start + escaped(s@.take(it.index()), ascii),
    {
        let ghost seen = s@.take(it.index());
        push_escaped(c, ascii, out);
        proof {
            let next = s@.take(it.index() + 1);
            assert(next.drop_last() =~= seen);
            assert(next.last() == c);
        }
    }
    assert(s@.take(s@.len() as int) =~= s@);
    out.push('"');
    assert(out@ =~= old(out)@ + string_literal(s@, ascii));
}

fn push_zeros(n: usize, out: &mut String)
    ensures
        final(out)@ == old(out)@ + zeros(n as nat),
{
    let ghost start = out@;
    for i in 0..n
        invariant
            out@ == start + zeros(i as nat),
    {
        out.push('0');
        assert(zeros(i as nat).push('0') =~= zeros((i + 1) as nat));
        assert(out@ =~= start + zeros((i + 1) as nat));
    }
}

fn push_chars(chars: &[char], from: usize, to: usize, out: &mut String)
    requires
        from <= to <= chars@.len(),
    ensures
        final(out)@ == old(out)@ + chars@.subrange(from as int, to as int),
{
    let ghost start = out@;
    for i in from..to
        invariant
            from <= to <= chars@.len(),
            out@ == start + chars@.subrange(from as int, i as int),
    {
        out.push(chars[i]);
        assert(out@ =~= start + chars@.subrange(from as int, i + 1));
    }
}

fn push_scientific(digits: &[char], exp: i64, out: &mut String)
    requires
        -0x1_0000_0000 < exp < 0x1_0000_0000,
    ensures
        final(out)@ == old(out)@ + scientific(digits@, exp as int),
{
    let n: usize = digits.len();
    if n <= 1 {
        push_chars(digits, 0, n, out);
        assert(digits@.subrange(0, n as int) =~= digits@);
    } else {
        push_chars(digits, 0, 1, out);
        out.push('.');
        push_chars(digits, 1, n, out);
        assert(out@ =~= old(out)@ + (digits@.take(1) + seq!['.'] + digits@.skip(1)));
    }
    let ghost fraction = out@;
    out.push('e');
    let size: u64 = if exp < 0 {
        out.push('-');
        (0 - exp) as u64
    } else {
        out.push('+');
        exp as u64
    };
    let ghost mark = out@;
    if size < 10 {
        out.push('0');
    }
    out.append(decimal_text(size).as_str());
    assert(out@ =~= mark + two_digits(size as nat));
    assert(out@ =~= old(out)@ + scientific(digits@, exp as int));
}

fn push_positional(digits: &[char], exp: i64, out: &mut String)
    requires
        -4 <= exp < 16,
    ensures
        final(out)@ == old(out)@ + positional(digits@, exp as int),
{
    let n: usize = digits.len();
    if exp < 0 {
        out.push('0');
        out.push('.');
        push_zeros((0 - exp - 1) as usize, out);
        push_chars(digits, 0, n, out);
    } else {
        let point: usize = exp as usize + 1;
        if point >= n {
            push_chars(digits, 0, n, out);
            push_zeros(point - n, out);
            out.push('.');
            out.push('0');
        } else {
            push_chars(digits, 0, point, out);
            out.push('.');
            push_chars(digits, point, n, out);
        }
    }
    assert(out@ =~= old(out)@ + positional(digits@, exp as int));
}

/// Python's `repr` of a finite number.
pub fn decimal_repr(d: &Decimal) -> (r: String)
    ensures
        r@ == finite_repr(d.negative, d.digits@, d.exponent as int),
{
    let digits = chars_of(d.digits.as_str());
    let exp: i64 = d.exponent as i64;
    let mut out: String = String::new();
    if d.negative {
        out.push('-');
    }
    let ghost sign = out@;
    if -4 <= exp && exp < 16 {
        push_positional(digits.as_slice(), exp, &mut out);
    } else {
        push_scientific(digits.as_slice(), exp, &mut out);
    }
    assert(out@ =~= finite_repr(d.negative, d.digits@, d.exponent as int));
    out
}

fn push_number(n: &Number, out: &mut String)
    ensures
        final(out)@ == old(out)@ + number_literal(n@),
{
    match n {
        Number::PosInt(n) => {
            out.append(decimal_text(*n).as_str());
        },
        Number::NegInt(n) => {
            if *n < 0 {
                out.push('-');
                out.append(decimal_text((0 - *n as i128) as u64).as_str());
            } else {
                out.append(decimal_text(*n as u64).as_str());
            }
        },
        Number::Float(d) => {
            out.append(decimal_repr(d).as_str());
        },
    }
    assert(out@ =~= old(out)@ + number_literal(n@));
}

fn push_value(v: &Value, ascii: bool, out: &mut String)
    ensures
        final(out)@ == old(out)@ + dumped(v@, ascii),
    decreases v,
{
    let ghost start = out@;
    match v {
        Value::Null => {
            out.push('n');
            out.push('u');
            out.push('l');
            out.push('l');
        },
        Value::Bool(b) => {
            if *b {
                out.push('t');
                out.push('r');
                out.push('u');
                out.push('e');
            } else {
                out.push('f');
                out.push('a');
                out.push('l');
                out.push('s');
                out.push('e');
            }
        },
        Value::Number(n) => push_number(n, out),
        Value::String(s) => push_string(s.as_str(), ascii, out),
        Value::Array(items) => {
            let ghost all = v@->Array_0;
            out.push('[');
            assert(all.take(0) =~= Seq::empty());
            for i in 0..items.len()
                invariant
                    *v matches Value::Array(x) && x == items,
                    all == v@->Array_0,
                    out@ == start.push('[') + dumped_items(all.take(i as int), ascii),
            {
                let ghost next = all.take(i + 1);
                assert(next.subrange(0, i as int) =~= all.take(i as int));
                assert(next[i as int] == items@[i as int]@);
                if i > 0 {
                    out.push(',');
                    out.push(' ');
                }
                push_value(&items[i], ascii, out);
                assert(out@ =~= start.push('[') + dumped_items(next, ascii));
            }
            assert(all.take(all.len() as int) =~= all);
            out.push(']');
        },
        Value::Object(fields) => {
            let ghost all = v@->Object_0;
            out.push('{');
            assert(all.take(0) =~= Seq::empty());
            for i in 0..fields.len()
                invariant
                    *v matches Value::Object(x) && x == fields,
                    all == v@->Object_0,
                    out@ == start.push('{') + dumped_fields(all.take(i as int), ascii),
            {
                let ghost next = all.take(i + 1);
                assert(next.subrange(0, i as int) =~= all.take(i as int));
                assert(next[i as int] == (fields@[i as int].0@, fields@[i as int].1@));
                if i > 0 {
                    out.push(',');
                    out.push(' ');
                }
                push_string(fields[i].0.as_str(), ascii, out);
                out.push(':');
                out.push(' ');
                push_value(&fields[i].1, ascii, out);
                assert(out@ =~= start.push('{') + dumped_fields(next, ascii));
            }
            assert(all.take(all.len() as int) =~= all);
            out.push('}');
        },
    }
    assert(out@ =~= start + dumped(v@, ascii));
}

/// Serialise a JSON value the way Python's `json.dumps(v, ensure_ascii=False)` does.
pub fn dumps(value: &Value) -> (r: String)
    ensures
        r@ == dumped(value@, false),
{
    let mut out: String = String::new();
    push_value(value, false, &mut out);
    out
}

/// Serialise a JSON value the way Python's plain `json.dumps(v)` does, with every non-ASCII
/// character escaped.
pub fn dumps_ascii(value: &Value) -> (r: String)
    ensures
        r@ == dumped(value@, true),
{
    let mut out: String = String::new();
    push_value(value, true, &mut out);
    out
}

/// The exact text a value contributes to the sequence: a string passes through untouched,
/// anything structured is dumped as JSON.
///
/// This is how the state and every criterion reach the model; structured instructions go through
/// [`render_instructions`] instead.
pub fn render(value: &Value) -> (r: String)
    ensures
        r@ == rendered(value@),
{
    match value {
        Value::String(s) => s.clone(),
        other => dumps(other),
    }
}

/// [`render`] for a question's instructions: structured instructions are dumped with every
/// non-ASCII character escaped.
pub fn render_instructions(value: &Value) -> (r: String)
    ensures
        r@ == rendered_instructions(value@),
{
    match value {
        Value::String(s) => s.clone(),
        other => dumps_ascii(other),
    }
}

// ----------------------------------------------------------------------- laws

/// Whether a text is printable ASCII throughout.
pub open spec fn printable(s: Seq<char>) -> bool {
    forall|i: int| 0 <= i < s.len() ==> ' ' <= #[trigger] s[i] && s[i] <= '~'
}

/// Whether every floating-point number in a value is written in digits.
pub open spec fn in_digits(j: Json) -> bool
    decreases j,
{
    match j {
        Json::Number(Numeral::Float { negative, digits, exponent }) => all_digits(digits),
        Json::Array(items) => forall|i: int| 0 <= i < items.len() ==> in_digits(#[trigger] items[i]),
        Json::Object(fields) => forall|i: int|
            0 <= i < fields.len() ==> in_digits((#[trigger] fields[i]).1),
        _ => true,
    }
}

proof fn lemma_unit_escape_is_printable(u: nat)
    ensures
        printable(unit_escape(u)),
{
}

proof fn lemma_escaped_is_printable(s: Seq<char>)
    ensures
        printable(escaped(s, true)),
    decreases s.len(),
{
    if s.len() > 0 {
        lemma_escaped_is_printable(s.drop_last());
        lemma_escaped_char_is_printable(s.last());
    }
}

proof fn lemma_escaped_char_is_printable(c: char)
    ensures
        printable(escaped_char(c, true)),
{
    let u = c as u32 as nat;
    lemma_unit_escape_is_printable(u);
    if u >= 0x10000 {
        lemma_unit_escape_is_printable((0xd800 + (u - 0x10000) / 0x400) as nat);
        lemma_unit_escape_is_printable((0xdc00 + (u - 0x10000) % 0x400) as nat);
    }
}

proof fn lemma_digits_are_printable(s: Seq<char>)
    requires
        all_digits(s),
    ensures
        printable(s),
{
    assert forall|i: int| 0 <= i < s.len() implies ' ' <= #[trigger] s[i] && s[i] <= '~' by {
        assert(is_digit(s[i]));
    }
}

proof fn lemma_number_is_printable(n: Numeral)
    requires
        n matches Numeral::Float { negative, digits, exponent } ==> all_digits(digits),
    ensures
        printable(number_literal(n)),
{
    match n {
        Numeral::PosInt(k) => {
            lemma_decimal(k as nat);
            lemma_digits_are_printable(decimal(k as nat));
        },
        Numeral::NegInt(k) => {
            let m = if k < 0 {
                -(k as int)
            } else {
                k as int
            };
            lemma_decimal(m as nat);
            lemma_digits_are_printable(decimal(m as nat));
        },
        Numeral::Float { negative, digits, exponent } => {
            lemma_scientific_is_printable(digits, exponent);
            lemma_positional_is_printable(digits, exponent);
        },
    }
}

proof fn lemma_join_is_printable(a: Seq<char>, b: Seq<char>)
    requires
        printable(a),
        printable(b),
    ensures
        printable(a + b),
{
}

proof fn lemma_part_is_printable(s: Seq<char>, n: int)
    requires
        printable(s),
        0 <= n <= s.len(),
    ensures
        printable(s.take(n)),
        printable(s.skip(n)),
{
}

proof fn lemma_scientific_is_printable(digits: Seq<char>, exp: int)
    requires
        all_digits(digits),
    ensures
        printable(scientific(digits, exp)),
{
    let e = if exp < 0 {
        -exp
    } else {
        exp
    };
    lemma_digits_are_printable(digits);
    lemma_decimal(e as nat);
    lemma_digits_are_printable(decimal(e as nat));
    lemma_join_is_printable(seq!['0'], decimal(e as nat));
    let fraction: Seq<char> = if digits.len() <= 1 {
        digits
    } else {
        lemma_part_is_printable(digits, 1);
        lemma_join_is_printable(digits.take(1), seq!['.']);
        lemma_join_is_printable(digits.take(1) + seq!['.'], digits.skip(1));
        digits.take(1) + seq!['.'] + digits.skip(1)
    };
    lemma_join_is_printable(fraction, seq!['e', '-']);
    lemma_join_is_printable(fraction, seq!['e', '+']);
    lemma_join_is_printable(fraction + seq!['e', '-'], two_digits(e as nat));
    lemma_join_is_printable(fraction + seq!['e', '+'], two_digits(e as nat));
}

proof fn lemma_positional_is_printable(digits: Seq<char>, exp: int)
    requires
        all_digits(digits),
    ensures
        printable(positional(digits, exp)),
{
    lemma_digits_are_printable(digits);
    if exp < 0 {
        let z = zeros((-exp - 1) as nat);
        lemma_join_is_printable(seq!['0', '.'], z);
        lemma_join_is_printable(seq!['0', '.'] + z, digits);
    } else if exp + 1 >= digits.len() {
        let z = zeros((exp + 1 - digits.len()) as nat);
        lemma_join_is_printable(digits, z);
        lemma_join_is_printable(digits + z, seq!['.', '0']);
    } else {
        lemma_part_is_printable(digits, exp + 1);
        lemma_join_is_printable(digits.take(exp + 1), seq!['.']);
        lemma_join_is_printable(digits.take(exp + 1) + seq!['.'], digits.skip(exp + 1));
    }
}

proof fn lemma_items_are_printable(items: Seq<Json>)
    requires
        forall|i: int| 0 <= i < items.len() ==> in_digits(#[trigger] items[i]),
    ensures
        printable(dumped_items(items, true)),
    decreases items,
{
    if items.len() > 0 {
        let last = items.len() - 1;
        let some = items.subrange(0, last);
        assert forall|i: int| 0 <= i < some.len() implies in_digits(#[trigger] some[i]) by {
            assert(in_digits(items[i]));
        }
        lemma_items_are_printable(some);
        law_ascii_json_is_printable_ascii(items[last]);
    }
}

proof fn lemma_fields_are_printable(fields: Seq<(Seq<char>, Json)>)
    requires
        forall|i: int| 0 <= i < fields.len() ==> in_digits((#[trigger] fields[i]).1),
    ensures
        printable(dumped_fields(fields, true)),
    decreases fields,
{
    if fields.len() > 0 {
        let last = fields.len() - 1;
        let some = fields.subrange(0, last);
        assert forall|i: int| 0 <= i < some.len() implies in_digits((#[trigger] some[i]).1) by {
            assert(in_digits(fields[i].1));
        }
        lemma_fields_are_printable(some);
        lemma_escaped_is_printable(fields[last].0);
        law_ascii_json_is_printable_ascii(fields[last].1);
    }
}

/// JSON that escapes to ASCII is printable ASCII throughout, whatever its texts hold.
pub proof fn law_ascii_json_is_printable_ascii(j: Json)
    requires
        in_digits(j),
    ensures
        printable(dumped(j, true)),
    decreases j,
{
    match j {
        Json::Number(n) => lemma_number_is_printable(n),
        Json::Text(s) => lemma_escaped_is_printable(s),
        Json::Array(items) => lemma_items_are_printable(items),
        Json::Object(fields) => lemma_fields_are_printable(fields),
        _ => {},
    }
}

// ----------------------------------------------------------------------- what a text holds

/// A string stands for itself; every other value is shown as its whole JSON, for a state and a
/// criterion as for instructions.
pub proof fn law_strings_are_shown_as_they_are(s: Seq<char>, j: Json)
    requires
        !(j is Text),
    ensures
        rendered(Json::Text(s)) == s,
        rendered_instructions(Json::Text(s)) == s,
        rendered(j) == dumped(j, false),
        rendered_instructions(j) == dumped(j, true),
{
}

proof fn lemma_escaped_front(s: Seq<char>, ascii: bool)
    requires
        s.len() > 0,
    ensures
        escaped(s, ascii) == escaped_char(s[0], ascii) + escaped(s.drop_first(), ascii),
    decreases s.len(),
{
    let t = s.drop_last();
    if s.len() == 1 {
        assert(t =~= Seq::empty());
        assert(s.drop_first() =~= Seq::empty());
        assert(escaped(t, ascii) + escaped_char(s.last(), ascii) =~= escaped_char(s[0], ascii)
            + escaped(s.drop_first(), ascii));
    } else {
        lemma_escaped_front(t, ascii);
        assert(s.drop_first().drop_last() =~= t.drop_first());
        assert(escaped(s, ascii) =~= escaped_char(s[0], ascii) + (escaped(t.drop_first(), ascii)
            + escaped_char(s.last(), ascii)));
    }
}

/// A text of printable ASCII without quotation marks and backslashes stands between two quotation
/// marks as it is; and a text that is not escaped to ASCII keeps every character from the blank
/// on, those two aside.
pub proof fn law_plain_strings_are_only_quoted(s: Seq<char>, ascii: bool)
    requires
        forall|i: int|
            0 <= i < s.len() ==> 32 <= #[trigger] s[i] as u32 && s[i] != '"' && s[i] != '\\' && (
            ascii ==> s[i] as u32 <= 126),
    ensures
        string_literal(s, ascii) == seq!['"'] + s + seq!['"'],
{
    lemma_escaped_plain(s, ascii);
}

proof fn lemma_escaped_plain(s: Seq<char>, ascii: bool)
    requires
        forall|i: int|
            0 <= i < s.len() ==> 32 <= #[trigger] s[i] as u32 && s[i] != '"' && s[i] != '\\' && (
            ascii ==> s[i] as u32 <= 126),
    ensures
        escaped(s, ascii) == s,
    decreases s.len(),
{
    if s.len() > 0 {
        let t = s.drop_last();
        assert forall|i: int| 0 <= i < t.len() implies 32 <= #[trigger] t[i] as u32
            && t[i] != '"' && t[i] != '\\' && (ascii ==> t[i] as u32 <= 126) by {
            assert(t[i] == s[i]);
        }
        lemma_escaped_plain(t, ascii);
        assert(s[s.len() - 1] == s.last());
        assert(escaped_char(s.last(), ascii) == seq![s.last()]);
        assert(escaped(s, ascii) =~= s);
    } else {
        assert(s =~= Seq::empty());
    }
}

/// What follows the first item of an array.
spec fn more_items(items: Seq<Json>, ascii: bool) -> Seq<char> {
    if items.len() <= 1 {
        Seq::empty()
    } else {
        seq![',', ' '] + dumped_items(items.subrange(1, items.len() as int), ascii)
    }
}

/// The first field of an object and what follows it.
spec fn more_fields(fields: Seq<(Seq<char>, Json)>, ascii: bool) -> Seq<char> {
    if fields.len() <= 1 {
        Seq::empty()
    } else {
        seq![',', ' '] + dumped_fields(fields.subrange(1, fields.len() as int), ascii)
    }
}

proof fn lemma_items_front(items: Seq<Json>, ascii: bool)
    requires
        items.len() > 0,
    ensures
        dumped_items(items, ascii) == dumped(items[0], ascii) + more_items(items, ascii),
    decreases items.len(),
{
    let n = items.len() as int;
    if n == 1 {
        assert(dumped_items(items, ascii) =~= dumped(items[0], ascii) + more_items(items, ascii));
    } else {
        let some = items.subrange(0, n - 1);
        let rest = items.subrange(1, n);
        lemma_items_front(some, ascii);
        assert(some.subrange(1, n - 1) =~= rest.subrange(0, n - 2));
        assert(some[0] == items[0] && rest[n - 2] == items[n - 1]);
        assert(dumped_items(items, ascii) =~= dumped(items[0], ascii) + more_items(items, ascii));
    }
}

/// A field as it is written.
spec fn shown_field(field: (Seq<char>, Json), ascii: bool) -> Seq<char> {
    string_literal(field.0, ascii) + seq![':', ' '] + dumped(field.1, ascii)
}

/// The last field and what comes before it.
proof fn lemma_last_field(fields: Seq<(Seq<char>, Json)>, ascii: bool)
    requires
        fields.len() > 0,
    ensures
        fields.len() == 1 ==> dumped_fields(fields, ascii) == shown_field(fields[0], ascii),
        fields.len() > 1 ==> dumped_fields(fields, ascii) == dumped_fields(
            fields.subrange(0, fields.len() - 1),
            ascii,
        ) + seq![',', ' '] + shown_field(fields[fields.len() - 1], ascii),
{
    let n = fields.len() as int;
    let k = string_literal(fields[n - 1].0, ascii);
    let c = seq![':', ' '];
    let v = dumped(fields[n - 1].1, ascii);
    if n == 1 {
        let e = Seq::<char>::empty();
        assert(e + k + c + v =~= k + c + v);
    } else {
        let x = dumped_fields(fields.subrange(0, n - 1), ascii);
        let sep = seq![',', ' '];
        assert((x + sep) + k + c + v =~= x + sep + (k + c + v));
    }
}

#[verifier::rlimit(60)]
proof fn lemma_fields_front(fields: Seq<(Seq<char>, Json)>, ascii: bool)
    requires
        fields.len() > 0,
    ensures
        dumped_fields(fields, ascii) == string_literal(fields[0].0, ascii) + seq![':', ' '] + dumped(
            fields[0].1,
            ascii,
        ) + more_fields(fields, ascii),
    decreases fields.len(),
{
    let n = fields.len() as int;
    let first = shown_field(fields[0], ascii);
    let e = Seq::<char>::empty();
    lemma_last_field(fields, ascii);
    if n == 1 {
        assert(first + e =~= first);
    } else {
        let some = fields.subrange(0, n - 1);
        let rest = fields.subrange(1, n);
        let last = shown_field(fields[n - 1], ascii);
        let sep = seq![',', ' '];
        lemma_fields_front(some, ascii);
        lemma_last_field(rest, ascii);
        assert(some.subrange(1, n - 1) =~= rest.subrange(0, n - 2));
        assert(some[0] == fields[0] && rest[n - 2] == fields[n - 1]);
        if n == 2 {
            assert(first + e + sep + last =~= first + (sep + last));
        } else {
            let a = dumped_fields(some.subrange(1, n - 1), ascii);
            assert(first + (sep + a) + sep + last =~= first + (sep + (a + sep + last)));
        }
    }
}

proof fn lemma_occurs_inside(a: Seq<char>, p: Seq<char>, b: Seq<char>)
    ensures
        occurs_in(a + p + b, p),
{
    let s = a + p + b;
    assert(s.subrange(a.len() as int, (a.len() + p.len()) as int) =~= p);
    assert(occurs_at(s, p, a.len() as int));
}

proof fn lemma_occurs_deeper(a: Seq<char>, s: Seq<char>, b: Seq<char>, p: Seq<char>)
    requires
        occurs_in(s, p),
    ensures
        occurs_in(a + s + b, p),
{
    let i = choose|i: int| occurs_at(s, p, i);
    let t = a + s + b;
    assert(t.subrange(a.len() + i, a.len() + i + p.len()) =~= s.subrange(i, i + p.len()));
    assert(occurs_at(t, p, a.len() + i));
}

/// The JSON of an array stands in brackets and holds the JSON of every item.
pub proof fn law_arrays_are_shown_whole(items: Seq<Json>, ascii: bool, i: int)
    requires
        0 <= i < items.len(),
    ensures
        dumped(Json::Array(items), ascii)[0] == '[',
        dumped(Json::Array(items), ascii).last() == ']',
        occurs_in(dumped(Json::Array(items), ascii), dumped(items[i], ascii)),
{
    lemma_items_hold(items, ascii, i);
    lemma_occurs_deeper(
        seq!['['],
        dumped_items(items, ascii),
        seq![']'],
        dumped(items[i], ascii),
    );
}

proof fn lemma_items_hold(items: Seq<Json>, ascii: bool, i: int)
    requires
        0 <= i < items.len(),
    ensures
        occurs_in(dumped_items(items, ascii), dumped(items[i], ascii)),
    decreases items.len(),
{
    let e = Seq::<char>::empty();
    let first = dumped(items[0], ascii);
    let rest = items.subrange(1, items.len() as int);
    lemma_items_front(items, ascii);
    if i == 0 {
        lemma_occurs_inside(e, first, more_items(items, ascii));
        assert(e + first + more_items(items, ascii) =~= dumped_items(items, ascii));
    } else {
        lemma_items_hold(rest, ascii, i - 1);
        assert(rest[i - 1] == items[i]);
        lemma_occurs_deeper(
            first + seq![',', ' '],
            dumped_items(rest, ascii),
            e,
            dumped(items[i], ascii),
        );
        assert(first + seq![',', ' '] + dumped_items(rest, ascii) + e =~= dumped_items(
            items,
            ascii,
        ));
    }
}

/// The JSON of an object stands in braces and holds every key with its value.
pub proof fn law_objects_are_shown_whole(fields: Seq<(Seq<char>, Json)>, ascii: bool, i: int)
    requires
        0 <= i < fields.len(),
    ensures
        dumped(Json::Object(fields), ascii)[0] == '{',
        dumped(Json::Object(fields), ascii).last() == '}',
        occurs_in(
            dumped(Json::Object(fields), ascii),
            string_literal(fields[i].0, ascii) + seq![':', ' '] + dumped(fields[i].1, ascii),
        ),
{
    lemma_fields_hold(fields, ascii, i);
    lemma_occurs_deeper(
        seq!['{'],
        dumped_fields(fields, ascii),
        seq!['}'],
        string_literal(fields[i].0, ascii) + seq![':', ' '] + dumped(fields[i].1, ascii),
    );
}

proof fn lemma_fields_hold(fields: Seq<(Seq<char>, Json)>, ascii: bool, i: int)
    requires
        0 <= i < fields.len(),
    ensures
        occurs_in(
            dumped_fields(fields, ascii),
            string_literal(fields[i].0, ascii) + seq![':', ' '] + dumped(fields[i].1, ascii),
        ),
    decreases fields.len(),
{
    let e = Seq::<char>::empty();
    let first = string_literal(fields[0].0, ascii) + seq![':', ' '] + dumped(fields[0].1, ascii);
    let rest = fields.subrange(1, fields.len() as int);
    lemma_fields_front(fields, ascii);
    if i == 0 {
        lemma_occurs_inside(e, first, more_fields(fields, ascii));
        assert(e + first + more_fields(fields, ascii) =~= dumped_fields(fields, ascii));
    } else {
        lemma_fields_hold(rest, ascii, i - 1);
        assert(rest[i - 1] == fields[i]);
        lemma_occurs_deeper(
            first + seq![',', ' '],
            dumped_fields(rest, ascii),
            e,
            string_literal(fields[i].0, ascii) + seq![':', ' '] + dumped(fields[i].1, ascii),
        );
        assert(first + seq![',', ' '] + dumped_fields(rest, ascii) + e =~= dumped_fields(
            fields,
            ascii,
        ));
    }
}

// ----------------------------------------------------------------------- reading a text back

/// Whether every floating-point number in a value is written in digits, with at least one.
pub open spec fn is_written_out(j: Json) -> bool
    decreases j,
{
    match j {
        Json::Number(Numeral::Float { negative, digits, exponent }) => digits.len() > 0
            && all_digits(digits),
        Json::Array(items) => forall|i: int|
            0 <= i < items.len() ==> is_written_out(#[trigger] items[i]),
        Json::Object(fields) => forall|i: int|
            0 <= i < fields.len() ==> is_written_out((#[trigger] fields[i]).1),
        _ => true,
    }
}

/// Whether two values are the same but for how a number is held: every text, key, truth value and
/// place is equal, and every number is written alike.
pub open spec fn alike(a: Json, b: Json) -> bool
    decreases a,
{
    match (a, b) {
        (Json::Null, Json::Null) => true,
        (Json::Bool(x), Json::Bool(y)) => x == y,
        (Json::Number(x), Json::Number(y)) => number_literal(x) == number_literal(y),
        (Json::Text(x), Json::Text(y)) => x == y,
        (Json::Array(x), Json::Array(y)) => x.len() == y.len() && forall|i: int|
            0 <= i < x.len() ==> alike(#[trigger] x[i], y[i]),
        (Json::Object(x), Json::Object(y)) => x.len() == y.len() && forall|i: int|
            0 <= i < x.len() ==> (#[trigger] x[i]).0 == y[i].0 && alike(x[i].1, y[i].1),
        _ => false,
    }
}

/// Whether a character can stand in a number.
spec fn of_a_number(c: char) -> bool {
    is_digit(c) || c == '-' || c == '+' || c == '.' || c == 'e'
}

/// Whether a text goes on with what ends a value, or ends itself.
spec fn is_closed(s: Seq<char>) -> bool {
    s.len() == 0 || s[0] == ',' || s[0] == ']' || s[0] == '}'
}

/// Whether every character of a text can stand in a number.
spec fn all_of_a_number(s: Seq<char>) -> bool {
    forall|i: int| 0 <= i < s.len() ==> of_a_number(#[trigger] s[i])
}

proof fn lemma_joined_number(a: Seq<char>, b: Seq<char>)
    ensures
        all_of_a_number(a) && all_of_a_number(b) ==> all_of_a_number(a + b),
        a.len() > 0 ==> (a + b)[0] == a[0],
{
    if all_of_a_number(a) && all_of_a_number(b) {
        assert forall|i: int| 0 <= i < (a + b).len() implies of_a_number(#[trigger] (a + b)[i]) by {
            if i < a.len() {
                assert(of_a_number(a[i]));
            } else {
                assert(of_a_number(b[i - a.len()]));
            }
        }
    }
}

proof fn lemma_digits_are(d: Seq<char>)
    requires
        all_digits(d),
    ensures
        all_of_a_number(d),
        d.len() > 0 ==> is_digit(d[0]),
{
    assert forall|i: int| 0 <= i < d.len() implies of_a_number(#[trigger] d[i]) by {
        assert(is_digit(d[i]));
    }
}

proof fn lemma_digits_are_of_a_number(d: Seq<char>, n: nat)
    requires
        d == decimal(n),
    ensures
        d.len() > 0,
        is_digit(d[0]),
        all_of_a_number(d),
{
    lemma_decimal(n);
    lemma_digits_are(d);
}

proof fn lemma_positional_chars(digits: Seq<char>, exp: int)
    requires
        digits.len() > 0,
        all_of_a_number(digits),
        is_digit(digits[0]),
    ensures
        positional(digits, exp).len() > 0,
        is_digit(positional(digits, exp)[0]),
        all_of_a_number(positional(digits, exp)),
{
    if exp < 0 {
        let z = zeros((-exp - 1) as nat);
        assert(all_of_a_number(z));
        lemma_joined_number(seq!['0', '.'], z);
        lemma_joined_number(seq!['0', '.'] + z, digits);
    } else if exp + 1 >= digits.len() {
        let z = zeros((exp + 1 - digits.len()) as nat);
        assert(all_of_a_number(z));
        lemma_joined_number(digits, z);
        lemma_joined_number(digits + z, seq!['.', '0']);
    } else {
        let a = digits.take(exp + 1);
        let b = digits.skip(exp + 1);
        assert forall|i: int| 0 <= i < a.len() implies of_a_number(#[trigger] a[i]) by {
            assert(a[i] == digits[i]);
        }
        assert forall|i: int| 0 <= i < b.len() implies of_a_number(#[trigger] b[i]) by {
            assert(b[i] == digits[i + exp + 1]);
        }
        lemma_joined_number(a, seq!['.']);
        lemma_joined_number(a + seq!['.'], b);
    }
}

proof fn lemma_scientific_chars(digits: Seq<char>, exp: int)
    requires
        digits.len() > 0,
        all_of_a_number(digits),
        is_digit(digits[0]),
    ensures
        scientific(digits, exp).len() > 0,
        is_digit(scientific(digits, exp)[0]),
        all_of_a_number(scientific(digits, exp)),
{
    let e = (if exp < 0 {
        -exp
    } else {
        exp
    }) as nat;
    lemma_digits_are_of_a_number(decimal(e), e);
    lemma_joined_number(seq!['0'], decimal(e));
    let a = digits.take(1);
    let b = digits.skip(1);
    assert(a[0] == digits[0]);
    assert(all_of_a_number(a));
    assert forall|i: int| 0 <= i < b.len() implies of_a_number(#[trigger] b[i]) by {
        assert(b[i] == digits[i + 1]);
    }
    lemma_joined_number(a, seq!['.']);
    lemma_joined_number(a + seq!['.'], b);
    let front = if digits.len() <= 1 {
        digits
    } else {
        a + seq!['.'] + b
    };
    let sign = if exp < 0 {
        seq!['e', '-']
    } else {
        seq!['e', '+']
    };
    lemma_joined_number(front, sign);
    lemma_joined_number(front + sign, two_digits(e));
}

proof fn lemma_number_chars(n: Numeral)
    requires
        n matches Numeral::Float { negative, digits, exponent } ==> digits.len() > 0 && all_digits(
            digits,
        ),
    ensures
        number_literal(n).len() > 0,
        is_digit(number_literal(n)[0]) || number_literal(n)[0] == '-',
        forall|i: int|
            0 <= i < number_literal(n).len() ==> of_a_number(#[trigger] number_literal(n)[i]),
{
    match n {
        Numeral::PosInt(k) => lemma_digits_are_of_a_number(decimal(k as nat), k as nat),
        Numeral::NegInt(k) => {
            let m = (if k < 0 {
                -(k as int)
            } else {
                k as int
            }) as nat;
            lemma_digits_are_of_a_number(decimal(m), m);
            lemma_joined_number(seq!['-'], decimal(m));
        },
        Numeral::Float { negative, digits, exponent } => {
            lemma_digits_are(digits);
            if -4 <= exponent < 16 {
                lemma_positional_chars(digits, exponent);
            } else {
                lemma_scientific_chars(digits, exponent);
            }
            lemma_joined_number(seq!['-'], finite_repr(false, digits, exponent));
        },
    }
    assert(all_of_a_number(number_literal(n)));
}

/// Two texts of one kind of character that are each followed by another kind agree where their
/// continuations agree.
proof fn lemma_same_run(u: Seq<char>, x: Seq<char>, v: Seq<char>, y: Seq<char>)
    requires
        u + x == v + y,
        forall|i: int| 0 <= i < u.len() ==> of_a_number(#[trigger] u[i]),
        forall|i: int| 0 <= i < v.len() ==> of_a_number(#[trigger] v[i]),
        is_closed(x),
        is_closed(y),
    ensures
        u == v,
        x == y,
{
    let s = u + x;
    let t = v + y;
    if u.len() < v.len() {
        assert(s[u.len() as int] == t[u.len() as int]);
        assert(t[u.len() as int] == v[u.len() as int]);
        assert(s[u.len() as int] == x[0]);
    } else if v.len() < u.len() {
        assert(s[v.len() as int] == t[v.len() as int]);
        assert(s[v.len() as int] == u[v.len() as int]);
        assert(t[v.len() as int] == y[0]);
    }
    lemma_same_split(u, x, v, y);
}

proof fn lemma_same_split(u: Seq<char>, x: Seq<char>, v: Seq<char>, y: Seq<char>)
    requires
        u + x == v + y,
        u.len() == v.len(),
    ensures
        u == v,
        x == y,
{
    let n = u.len() as int;
    assert((u + x).take(n) =~= u);
    assert((v + y).take(n) =~= v);
    assert((u + x).skip(n) =~= x);
    assert((v + y).skip(n) =~= y);
}

proof fn lemma_hex_char(a: nat, b: nat)
    requires
        a < 16,
        b < 16,
        hex_char(a) == hex_char(b),
    ensures
        a == b,
{
}

proof fn lemma_unit_escape(a: nat, b: nat)
    requires
        a < 0x10000,
        b < 0x10000,
        unit_escape(a) == unit_escape(b),
    ensures
        a == b,
{
    let s = unit_escape(a);
    let t = unit_escape(b);
    assert(s[2] == t[2] && s[3] == t[3] && s[4] == t[4] && s[5] == t[5]);
    lemma_hex_char(a / 4096 % 16, b / 4096 % 16);
    lemma_hex_char(a / 256 % 16, b / 256 % 16);
    lemma_hex_char(a / 16 % 16, b / 16 % 16);
    lemma_hex_char(a % 16, b % 16);
    lemma_four_digits(a);
    lemma_four_digits(b);
}

proof fn lemma_four_digits(a: nat)
    requires
        a < 0x10000,
    ensures
        a == 4096 * (a / 4096 % 16) + 256 * (a / 256 % 16) + 16 * (a / 16 % 16) + a % 16,
{
    let p = a / 16;
    let q = p / 16;
    let r = q / 16;
    assert(a == 16 * p + a % 16);
    assert(p == 16 * q + p % 16);
    assert(q == 16 * r + q % 16);
    assert(a / 256 == q);
    assert(a / 4096 == r);
    assert(r % 16 == r);
}

proof fn lemma_regroup(p: Seq<char>, q: Seq<char>, r: Seq<char>, x: Seq<char>)
    ensures
        (p + q) + r + x == p + (q + r + x),
{
    assert((p + q) + r + x =~= p + (q + r + x));
}

proof fn lemma_regroup_field(
    k: Seq<char>,
    c: Seq<char>,
    v: Seq<char>,
    m: Seq<char>,
    e: Seq<char>,
    x: Seq<char>,
)
    ensures
        (k + c + v + m) + e + x == k + (c + v + (m + e + x)),
        (c + v + (m + e + x)).skip(c.len() as int) == v + (m + e + x),
{
    assert((k + c + v + m) + e + x =~= k + (c + v + (m + e + x)));
    assert((c + v + (m + e + x)).skip(c.len() as int) =~= v + (m + e + x));
}

/// The first six characters of an escape of more than two are one UTF-16 unit.
proof fn lemma_escaped_shape(c: char, ascii: bool)
    ensures
        ({
            let e = escaped_char(c, ascii);
            let u = c as u32 as nat;
            ||| e == seq![c] && c != '\\' && c != '"'
            ||| e.len() == 2 && e[0] == '\\' && e[1] != 'u'
            ||| e == unit_escape(u) && u < 0x10000
            ||| u >= 0x10000 && e == unit_escape((0xd800 + (u - 0x10000) / 0x400) as nat)
                + unit_escape((0xdc00 + (u - 0x10000) % 0x400) as nat)
        }),
{
}

#[verifier::rlimit(40)]
proof fn lemma_same_char(c: char, x: Seq<char>, d: char, y: Seq<char>, ascii: bool)
    requires
        escaped_char(c, ascii) + x == escaped_char(d, ascii) + y,
    ensures
        c == d,
        x == y,
{
    let e = escaped_char(c, ascii);
    let f = escaped_char(d, ascii);
    let s = e + x;
    let t = f + y;
    let u = c as u32 as nat;
    let v = d as u32 as nat;
    lemma_escaped_shape(c, ascii);
    lemma_escaped_shape(d, ascii);
    assert(s[0] == e[0] && t[0] == f[0]);
    if e[0] != '\\' || f[0] != '\\' {
        assert(e.len() == 1 && f.len() == 1);
    } else {
        assert(s[1] == e[1] && t[1] == f[1]);
        if e.len() == 2 || f.len() == 2 {
            assert(e.len() == 2 && f.len() == 2);
            assert(c == d);
        } else {
            let a = if u < 0x10000 {
                u
            } else {
                (0xd800 + (u - 0x10000) / 0x400) as nat
            };
            let b = if v < 0x10000 {
                v
            } else {
                (0xd800 + (v - 0x10000) / 0x400) as nat
            };
            assert(e.take(6) =~= unit_escape(a));
            assert(f.take(6) =~= unit_escape(b));
            assert(s.take(6) =~= e.take(6));
            assert(t.take(6) =~= f.take(6));
            lemma_unit_escape(a, b);
            if u >= 0x10000 {
                assert(v >= 0x10000);
                let a2 = (0xdc00 + (u - 0x10000) % 0x400) as nat;
                let b2 = (0xdc00 + (v - 0x10000) % 0x400) as nat;
                assert(e.subrange(6, 12) =~= unit_escape(a2));
                assert(f.subrange(6, 12) =~= unit_escape(b2));
                assert(s.subrange(6, 12) =~= e.subrange(6, 12));
                assert(t.subrange(6, 12) =~= f.subrange(6, 12));
                lemma_unit_escape(a2, b2);
                assert(u == v);
            }
        }
    }
    assert(e.len() == f.len());
    lemma_same_split(e, x, f, y);
}

/// Only the end of a string is a quotation mark without a backslash.
proof fn lemma_quote_ends(a: Seq<char>, x: Seq<char>, ascii: bool)
    ensures
        ((escaped(a, ascii) + seq!['"'] + x)[0] == '"') <==> a.len() == 0,
{
    if a.len() > 0 {
        lemma_escaped_front(a, ascii);
        lemma_escaped_shape(a[0], ascii);
        assert((escaped(a, ascii) + seq!['"'] + x)[0] == escaped_char(a[0], ascii)[0]);
    }
}

proof fn lemma_same_escaped(a: Seq<char>, x: Seq<char>, b: Seq<char>, y: Seq<char>, ascii: bool)
    requires
        escaped(a, ascii) + seq!['"'] + x == escaped(b, ascii) + seq!['"'] + y,
    ensures
        a == b,
        x == y,
    decreases a.len(),
{
    let s = escaped(a, ascii) + seq!['"'] + x;
    let t = escaped(b, ascii) + seq!['"'] + y;
    if a.len() == 0 || b.len() == 0 {
        lemma_quote_ends(a, x, ascii);
        lemma_quote_ends(b, y, ascii);
        assert(a =~= b);
        lemma_same_split(escaped(a, ascii) + seq!['"'], x, escaped(b, ascii) + seq!['"'], y);
    } else {
        lemma_escaped_front(a, ascii);
        lemma_escaped_front(b, ascii);
        let p = a.drop_first();
        let q = b.drop_first();
        let r = escaped(p, ascii) + seq!['"'] + x;
        let w = escaped(q, ascii) + seq!['"'] + y;
        lemma_regroup(escaped_char(a[0], ascii), escaped(p, ascii), seq!['"'], x);
        lemma_regroup(escaped_char(b[0], ascii), escaped(q, ascii), seq!['"'], y);
        lemma_same_char(a[0], r, b[0], w, ascii);
        lemma_same_escaped(p, x, q, y, ascii);
        assert(a =~= seq![a[0]] + p);
        assert(b =~= seq![b[0]] + q);
    }
}

proof fn lemma_same_string(a: Seq<char>, x: Seq<char>, b: Seq<char>, y: Seq<char>, ascii: bool)
    requires
        string_literal(a, ascii) + x == string_literal(b, ascii) + y,
    ensures
        a == b,
        x == y,
{
    let s = string_literal(a, ascii) + x;
    let t = string_literal(b, ascii) + y;
    assert(s.drop_first() =~= escaped(a, ascii) + seq!['"'] + x);
    assert(t.drop_first() =~= escaped(b, ascii) + seq!['"'] + y);
    lemma_same_escaped(a, x, b, y, ascii);
}

/// What a value begins with.
proof fn lemma_first_char(j: Json, ascii: bool)
    requires
        is_written_out(j),
    ensures
        dumped(j, ascii).len() > 0,
        ({
            let c = dumped(j, ascii)[0];
            match j {
                Json::Null => c == 'n',
                Json::Bool(b) => c == if b { 't' } else { 'f' },
                Json::Number(_) => is_digit(c) || c == '-',
                Json::Text(_) => c == '"',
                Json::Array(_) => c == '[',
                Json::Object(_) => c == '{',
            }
        }),
{
    if j is Number {
        lemma_number_chars(j->Number_0);
    }
}

proof fn lemma_same_value(a: Json, x: Seq<char>, b: Json, y: Seq<char>, ascii: bool)
    requires
        is_written_out(a),
        is_written_out(b),
        is_closed(x),
        is_closed(y),
        dumped(a, ascii) + x == dumped(b, ascii) + y,
    ensures
        alike(a, b),
        x == y,
    decreases a,
{
    let s = dumped(a, ascii) + x;
    let t = dumped(b, ascii) + y;
    lemma_first_char(a, ascii);
    lemma_first_char(b, ascii);
    assert(s[0] == dumped(a, ascii)[0] && t[0] == dumped(b, ascii)[0]);
    match (a, b) {
        (Json::Number(m), Json::Number(n)) => {
            lemma_number_chars(m);
            lemma_number_chars(n);
            lemma_same_run(number_literal(m), x, number_literal(n), y);
        },
        (Json::Text(p), Json::Text(q)) => lemma_same_string(p, x, q, y, ascii),
        (Json::Array(p), Json::Array(q)) => {
            assert(s.drop_first() =~= dumped_items(p, ascii) + seq![']'] + x);
            assert(t.drop_first() =~= dumped_items(q, ascii) + seq![']'] + y);
            lemma_same_items(p, x, q, y, ascii);
        },
        (Json::Object(p), Json::Object(q)) => {
            assert(s.drop_first() =~= dumped_fields(p, ascii) + seq!['}'] + x);
            assert(t.drop_first() =~= dumped_fields(q, ascii) + seq!['}'] + y);
            lemma_same_fields(p, x, q, y, ascii);
        },
        _ => {
            assert(a == b);
            lemma_same_split(dumped(a, ascii), x, dumped(b, ascii), y);
        },
    }
}

#[verifier::rlimit(60)]
proof fn lemma_same_items(a: Seq<Json>, x: Seq<char>, b: Seq<Json>, y: Seq<char>, ascii: bool)
    requires
        forall|i: int| 0 <= i < a.len() ==> is_written_out(#[trigger] a[i]),
        forall|i: int| 0 <= i < b.len() ==> is_written_out(#[trigger] b[i]),
        dumped_items(a, ascii) + seq![']'] + x == dumped_items(b, ascii) + seq![']'] + y,
    ensures
        a.len() == b.len(),
        forall|i: int| 0 <= i < a.len() ==> alike(#[trigger] a[i], b[i]),
        x == y,
    decreases a,
{
    let s = dumped_items(a, ascii) + seq![']'] + x;
    let t = dumped_items(b, ascii) + seq![']'] + y;
    if a.len() == 0 || b.len() == 0 {
        if a.len() > 0 {
            lemma_items_front(a, ascii);
            lemma_first_char(a[0], ascii);
            assert(s[0] == dumped(a[0], ascii)[0]);
            assert(t[0] == ']');
        }
        if b.len() > 0 {
            lemma_items_front(b, ascii);
            lemma_first_char(b[0], ascii);
            assert(t[0] == dumped(b[0], ascii)[0]);
            assert(s[0] == ']');
        }
        assert(dumped_items(a, ascii) + seq![']'] =~= seq![']']);
        assert(dumped_items(b, ascii) + seq![']'] =~= seq![']']);
        lemma_same_split(seq![']'], x, seq![']'], y);
    } else {
        lemma_items_front(a, ascii);
        lemma_items_front(b, ascii);
        let r = more_items(a, ascii) + seq![']'] + x;
        let w = more_items(b, ascii) + seq![']'] + y;
        assert(s =~= dumped(a[0], ascii) + r);
        assert(t =~= dumped(b[0], ascii) + w);
        lemma_same_value(a[0], r, b[0], w, ascii);
        let p = a.subrange(1, a.len() as int);
        let q = b.subrange(1, b.len() as int);
        assert(a.len() > 1 ==> r[0] == ',');
        assert(a.len() == 1 ==> r[0] == ']');
        assert(b.len() > 1 ==> w[0] == ',');
        assert(b.len() == 1 ==> w[0] == ']');
        if a.len() > 1 {
            assert(r.skip(2) =~= dumped_items(p, ascii) + seq![']'] + x);
            assert(w.skip(2) =~= dumped_items(q, ascii) + seq![']'] + y);
            assert forall|i: int| 0 <= i < p.len() implies is_written_out(#[trigger] p[i]) by {
                assert(p[i] == a[i + 1]);
            }
            assert forall|i: int| 0 <= i < q.len() implies is_written_out(#[trigger] q[i]) by {
                assert(q[i] == b[i + 1]);
            }
            lemma_same_items(p, x, q, y, ascii);
            assert forall|i: int| 0 <= i < a.len() implies alike(#[trigger] a[i], b[i]) by {
                if i > 0 {
                    assert(alike(p[i - 1], q[i - 1]));
                }
            }
        } else {
            assert(r =~= seq![']'] + x);
            assert(w =~= seq![']'] + y);
            lemma_same_split(seq![']'], x, seq![']'], y);
        }
    }
}

#[verifier::rlimit(80)]
proof fn lemma_same_fields(
    a: Seq<(Seq<char>, Json)>,
    x: Seq<char>,
    b: Seq<(Seq<char>, Json)>,
    y: Seq<char>,
    ascii: bool,
)
    requires
        forall|i: int| 0 <= i < a.len() ==> is_written_out((#[trigger] a[i]).1),
        forall|i: int| 0 <= i < b.len() ==> is_written_out((#[trigger] b[i]).1),
        dumped_fields(a, ascii) + seq!['}'] + x == dumped_fields(b, ascii) + seq!['}'] + y,
    ensures
        a.len() == b.len(),
        forall|i: int|
            0 <= i < a.len() ==> (#[trigger] a[i]).0 == b[i].0 && alike(a[i].1, b[i].1),
        x == y,
    decreases a,
{
    let s = dumped_fields(a, ascii) + seq!['}'] + x;
    let t = dumped_fields(b, ascii) + seq!['}'] + y;
    if a.len() == 0 || b.len() == 0 {
        if a.len() > 0 {
            lemma_fields_front(a, ascii);
            assert(s[0] == '"');
            assert(t[0] == '}');
        }
        if b.len() > 0 {
            lemma_fields_front(b, ascii);
            assert(t[0] == '"');
            assert(s[0] == '}');
        }
        assert(dumped_fields(a, ascii) + seq!['}'] =~= seq!['}']);
        assert(dumped_fields(b, ascii) + seq!['}'] =~= seq!['}']);
        lemma_same_split(seq!['}'], x, seq!['}'], y);
    } else {
        lemma_fields_front(a, ascii);
        lemma_fields_front(b, ascii);
        let r = more_fields(a, ascii) + seq!['}'] + x;
        let w = more_fields(b, ascii) + seq!['}'] + y;
        let r2 = seq![':', ' '] + dumped(a[0].1, ascii) + r;
        let w2 = seq![':', ' '] + dumped(b[0].1, ascii) + w;
        lemma_regroup_field(
            string_literal(a[0].0, ascii),
            seq![':', ' '],
            dumped(a[0].1, ascii),
            more_fields(a, ascii),
            seq!['}'],
            x,
        );
        lemma_regroup_field(
            string_literal(b[0].0, ascii),
            seq![':', ' '],
            dumped(b[0].1, ascii),
            more_fields(b, ascii),
            seq!['}'],
            y,
        );
        lemma_same_string(a[0].0, r2, b[0].0, w2, ascii);
        lemma_same_value(a[0].1, r, b[0].1, w, ascii);
        let p = a.subrange(1, a.len() as int);
        let q = b.subrange(1, b.len() as int);
        assert(a.len() > 1 ==> r[0] == ',');
        assert(a.len() == 1 ==> r[0] == '}');
        assert(b.len() > 1 ==> w[0] == ',');
        assert(b.len() == 1 ==> w[0] == '}');
        if a.len() > 1 {
            assert(r.skip(2) =~= dumped_fields(p, ascii) + seq!['}'] + x);
            assert(w.skip(2) =~= dumped_fields(q, ascii) + seq!['}'] + y);
            assert forall|i: int| 0 <= i < p.len() implies is_written_out((#[trigger] p[i]).1) by {
                assert(p[i] == a[i + 1]);
            }
            assert forall|i: int| 0 <= i < q.len() implies is_written_out((#[trigger] q[i]).1) by {
                assert(q[i] == b[i + 1]);
            }
            lemma_same_fields(p, x, q, y, ascii);
            assert forall|i: int| 0 <= i < a.len() implies (#[trigger] a[i]).0 == b[i].0 && alike(
                a[i].1,
                b[i].1,
            ) by {
                if i > 0 {
                    assert(p[i - 1] == a[i] && q[i - 1] == b[i]);
                }
            }
        } else {
            assert(r =~= seq!['}'] + x);
            assert(w =~= seq!['}'] + y);
            lemma_same_split(seq!['}'], x, seq!['}'], y);
        }
    }
}

/// Nothing is lost in a text: two values that are written as the same JSON are the same, key by key
/// and value by value.
pub proof fn law_different_values_are_written_differently(a: Json, b: Json, ascii: bool)
    requires
        is_written_out(a),
        is_written_out(b),
        dumped(a, ascii) == dumped(b, ascii),
    ensures
        alike(a, b),
{
    let e = Seq::<char>::empty();
    assert(dumped(a, ascii) + e =~= dumped(b, ascii) + e);
    lemma_same_value(a, e, b, e, ascii);
}

// ----------------------------------------------------------------------- what a number says

/// An integer is written in the digits of its size, after a minus sign where it is negative.
pub proof fn law_integers_are_written_in_full(p: u64, n: i64)
    ensures
        all_digits(number_literal(Numeral::PosInt(p))),
        digits_value(number_literal(Numeral::PosInt(p))) == p,
        n < 0 ==> number_literal(Numeral::NegInt(n))[0] == '-' && digits_value(
            number_literal(Numeral::NegInt(n)).drop_first(),
        ) == -n,
{
    lemma_decimal(p as nat);
    if n < 0 {
        lemma_decimal((-n) as nat);
        assert(number_literal(Numeral::NegInt(n)).drop_first() =~= decimal((-n) as nat));
    }
}

/// A number from a ten-thousandth up to ten to the sixteenth is written with a point and without an
/// exponent, and what is written has its value: with the point left out, it is the digits times the
/// power of ten that the exponent and the places behind the point make.
pub proof fn law_positional_numbers_keep_their_value(digits: Seq<char>, exp: int)
    requires
        digits.len() > 0,
        all_digits(digits),
        -4 <= exp < 16,
    ensures
        exists|whole: Seq<char>, part: Seq<char>|
            {
                &&& finite_repr(false, digits, exp) == whole + seq!['.'] + part
                &&& whole.len() > 0 && #[trigger] all_digits(whole)
                &&& part.len() > 0 && #[trigger] all_digits(part)
                &&& digits_value(whole + part) * pow10(digits.len()) == digits_value(digits)
                    * pow10((exp + 1 + part.len()) as nat)
            },
        finite_repr(true, digits, exp) == seq!['-'] + finite_repr(false, digits, exp),
{
    if exp < 0 {
        lemma_small_number(digits, exp);
    } else if exp + 1 >= digits.len() {
        lemma_whole_number(digits, exp);
    } else {
        let whole = digits.take(exp + 1);
        let part = digits.skip(exp + 1);
        assert(whole + part =~= digits);
        assert(all_digits(whole) && all_digits(part));
    }
}

proof fn lemma_small_number(digits: Seq<char>, exp: int)
    requires
        digits.len() > 0,
        all_digits(digits),
        -4 <= exp < 0,
    ensures
        ({
            let whole = seq!['0'];
            let part = zeros((-exp - 1) as nat) + digits;
            &&& finite_repr(false, digits, exp) == whole + seq!['.'] + part
            &&& all_digits(whole)
            &&& all_digits(part)
            &&& digits_value(whole + part) * pow10(digits.len()) == digits_value(digits) * pow10(
                (exp + 1 + part.len()) as nat,
            )
        }),
{
    let whole = seq!['0'];
    let part = zeros((-exp - 1) as nat) + digits;
    lemma_value_of_zeros((-exp) as nat);
    lemma_value_of_concat(zeros((-exp) as nat), digits);
    assert(whole + part =~= zeros((-exp) as nat) + digits);
    assert(finite_repr(false, digits, exp) =~= whole + seq!['.'] + part);
    assert(part.len() == -exp - 1 + digits.len());
    let p = pow10(digits.len());
    assert(0 * p == 0) by (nonlinear_arith);
}

proof fn lemma_whole_number(digits: Seq<char>, exp: int)
    requires
        digits.len() > 0,
        all_digits(digits),
        0 <= exp < 16,
        exp + 1 >= digits.len(),
    ensures
        ({
            let whole = digits + zeros((exp + 1 - digits.len()) as nat);
            let part = seq!['0'];
            &&& finite_repr(false, digits, exp) == whole + seq!['.'] + part
            &&& all_digits(whole)
            &&& all_digits(part)
            &&& digits_value(whole + part) * pow10(digits.len()) == digits_value(digits) * pow10(
                (exp + 1 + part.len()) as nat,
            )
        }),
{
    let n = digits.len();
    let k = (exp + 1 - n) as nat;
    let whole = digits + zeros(k);
    let part = seq!['0'];
    lemma_value_of_zeros((k + 1) as nat);
    assert(whole + part =~= digits + zeros((k + 1) as nat));
    lemma_value_of_concat(digits, zeros((k + 1) as nat));
    assert(zeros((k + 1) as nat).len() == k + 1);
    assert(finite_repr(false, digits, exp) =~= whole + seq!['.'] + part);
    lemma_pow10_sum(n, (k + 1) as nat);
    let v = digits_value(digits);
    let a = pow10((k + 1) as nat);
    let b = pow10(n);
    assert((v * a) * b == v * (b * a)) by (nonlinear_arith);
    assert((exp + 1 + part.len()) as nat == n + (k + 1) as nat);
}

proof fn lemma_pow10_sum(a: nat, b: nat)
    ensures
        pow10(a + b) == pow10(a) * pow10(b),
    decreases a,
{
    if a == 0 {
        assert(pow10(0) == 1);
    } else {
        lemma_pow10_sum((a - 1) as nat, b);
        let x = pow10((a - 1) as nat);
        let y = pow10(b);
        assert((a + b - 1) as nat == (a - 1) as nat + b);
        assert(10 * (x * y) == (10 * x) * y) by (nonlinear_arith);
    }
}

/// Any other number is written with its first digit before the point, the others behind it, and an
/// exponent with its sign and at least two digits, which is the number's.
pub proof fn law_scientific_numbers_keep_their_digits(digits: Seq<char>, exp: int)
    requires
        digits.len() > 0,
        all_digits(digits),
        exp < -4 || exp >= 16,
    ensures
        exists|size: Seq<char>|
            {
                &&& finite_repr(false, digits, exp) == (if digits.len() == 1 {
                    digits
                } else {
                    seq![digits[0], '.'] + digits.skip(1)
                }) + seq!['e', if exp < 0 { '-' } else { '+' }] + size
                &&& size.len() >= 2 && #[trigger] all_digits(size)
                &&& digits_value(size) == if exp < 0 { -exp } else { exp }
            },
        finite_repr(true, digits, exp) == seq!['-'] + finite_repr(false, digits, exp),
{
    let e = (if exp < 0 {
        -exp
    } else {
        exp
    }) as nat;
    lemma_two_digits(e);
    assert(all_digits(two_digits(e)));
    assert(digits.take(1) + seq!['.'] + digits.skip(1) =~= seq![digits[0], '.'] + digits.skip(1));
}

proof fn lemma_two_digits(e: nat)
    ensures
        two_digits(e).len() >= 2,
        all_digits(two_digits(e)),
        digits_value(two_digits(e)) == e,
{
    let d = decimal(e);
    lemma_decimal(e);
    if e >= 10 {
        lemma_decimal(e / 10);
    } else {
        lemma_value_of_zeros(1);
        lemma_value_of_concat(zeros(1), d);
        assert(zeros(1) + d =~= seq!['0'] + d);
        let p = pow10(d.len());
        assert(0 * p == 0) by (nonlinear_arith);
    }
}

// ----------------------------------------------------------------------- how it is written

/// The words of JSON, and what stands between two items and between two fields: a comma and a blank.
pub proof fn law_words_and_separators(
    a: Seq<Json>,
    b: Seq<Json>,
    f: Seq<(Seq<char>, Json)>,
    g: Seq<(Seq<char>, Json)>,
    j: Json,
    key: Seq<char>,
    ascii: bool,
)
    ensures
        dumped(Json::Null, ascii) == "null"@,
        dumped(Json::Bool(true), ascii) == "true"@,
        dumped(Json::Bool(false), ascii) == "false"@,
        dumped(Json::Array(Seq::empty()), ascii) == "[]"@,
        dumped(Json::Object(Seq::empty()), ascii) == "{}"@,
        dumped(Json::Array(seq![j]), ascii) == seq!['['] + dumped(j, ascii) + seq![']'],
        dumped(Json::Object(seq![(key, j)]), ascii) == seq!['{'] + string_literal(key, ascii) + seq![
            ':',
            ' ',
        ] + dumped(j, ascii) + seq!['}'],
        a.len() > 0 && b.len() > 0 ==> dumped_items(a + b, ascii) == dumped_items(a, ascii) + seq![
            ',',
            ' ',
        ] + dumped_items(b, ascii),
        f.len() > 0 && g.len() > 0 ==> dumped_fields(f + g, ascii) == dumped_fields(f, ascii) + seq![
            ',',
            ' ',
        ] + dumped_fields(g, ascii),
        dumped(Json::Array(a), ascii) == seq!['['] + dumped_items(a, ascii) + seq![']'],
        dumped(Json::Object(f), ascii) == seq!['{'] + dumped_fields(f, ascii) + seq!['}'],
{
    reveal_strlit("null");
    reveal_strlit("true");
    reveal_strlit("false");
    reveal_strlit("[]");
    reveal_strlit("{}");
    assert(dumped(Json::Null, ascii) =~= "null"@);
    assert(dumped(Json::Bool(true), ascii) =~= "true"@);
    assert(dumped(Json::Bool(false), ascii) =~= "false"@);
    assert(dumped(Json::Array(Seq::empty()), ascii) =~= "[]"@);
    assert(dumped(Json::Object(Seq::empty()), ascii) =~= "{}"@);
    lemma_items_front(seq![j], ascii);
    assert(dumped_items(seq![j], ascii) =~= dumped(j, ascii));
    lemma_fields_front(seq![(key, j)], ascii);
    assert(dumped(Json::Object(seq![(key, j)]), ascii) =~= seq!['{'] + string_literal(key, ascii)
        + seq![':', ' '] + dumped(j, ascii) + seq!['}']);
    if a.len() > 0 && b.len() > 0 {
        lemma_items_joined(a, b, ascii);
    }
    if f.len() > 0 && g.len() > 0 {
        lemma_fields_joined(f, g, ascii);
    }
}

proof fn lemma_items_joined(a: Seq<Json>, b: Seq<Json>, ascii: bool)
    requires
        a.len() > 0,
        b.len() > 0,
    ensures
        dumped_items(a + b, ascii) == dumped_items(a, ascii) + seq![',', ' '] + dumped_items(b, ascii),
    decreases b.len(),
{
    let n = b.len() as int;
    let s = a + b;
    let c = b.subrange(0, n - 1);
    assert(s[s.len() - 1] == b[n - 1]);
    if n == 1 {
        assert(s.subrange(0, s.len() - 1) =~= a);
        assert(dumped_items(b, ascii) =~= dumped(b[0], ascii));
    } else {
        assert(s.subrange(0, s.len() - 1) =~= a + c);
        lemma_items_joined(a, c, ascii);
    }
    assert(dumped_items(s, ascii) =~= dumped_items(a, ascii) + seq![',', ' '] + dumped_items(
        b,
        ascii,
    ));
}

proof fn lemma_fields_joined(a: Seq<(Seq<char>, Json)>, b: Seq<(Seq<char>, Json)>, ascii: bool)
    requires
        a.len() > 0,
        b.len() > 0,
    ensures
        dumped_fields(a + b, ascii) == dumped_fields(a, ascii) + seq![',', ' '] + dumped_fields(
            b,
            ascii,
        ),
    decreases b.len(),
{
    let n = b.len() as int;
    let s = a + b;
    let c = b.subrange(0, n - 1);
    assert(s[s.len() - 1] == b[n - 1]);
    let shown = shown_field(b[n - 1], ascii);
    let sep = seq![',', ' '];
    let x = dumped_fields(a, ascii);
    lemma_last_field(s, ascii);
    lemma_last_field(b, ascii);
    if n == 1 {
        assert(s.subrange(0, s.len() - 1) =~= a);
    } else {
        assert(s.subrange(0, s.len() - 1) =~= a + c);
        lemma_fields_joined(a, c, ascii);
        let y = dumped_fields(c, ascii);
        assert((x + sep + y) + sep + shown =~= x + sep + (y + sep + shown));
    }
}

/// What cannot stand in a string as it is: quotation marks and backslashes have a backslash before them,
/// five control characters have letters of their own, and every other character that is escaped is
/// written as its UTF-16 units in four hexadecimal digits each, in lower case.
pub proof fn law_escapes(c: char, ascii: bool, u: nat, i: int)
    requires
        u < 0x10000,
        2 <= i < 6,
    ensures
        escaped_char('"', ascii) == seq!['\\', '"'],
        escaped_char('\\', ascii) == seq!['\\', '\\'],
        escaped_char('\n', ascii) == seq!['\\', 'n'],
        escaped_char('\r', ascii) == seq!['\\', 'r'],
        escaped_char('\t', ascii) == seq!['\\', 't'],
        escaped_char('\u{8}', ascii) == seq!['\\', 'b'],
        escaped_char('\u{c}', ascii) == seq!['\\', 'f'],
        escaped_char(c, ascii)[0] == '\\' || escaped_char(c, ascii) == seq![c],
        !ascii && (c as u32) >= 32 && c != '"' && c != '\\' ==> escaped_char(c, ascii) == seq![c],
        ascii && 126 < (c as u32) && (c as u32) < 0x10000 ==> escaped_char(c, ascii) == unit_escape(c as u32 as nat),
        unit_escape(u).len() == 6,
        unit_escape(u)[0] == '\\',
        unit_escape(u)[1] == 'u',
        is_digit(unit_escape(u)[i]) || ('a' <= unit_escape(u)[i] && unit_escape(u)[i] <= 'f'),
        4096 * hex_value(unit_escape(u)[2]) + 256 * hex_value(unit_escape(u)[3]) + 16 * hex_value(
            unit_escape(u)[4],
        ) + hex_value(unit_escape(u)[5]) == u,
{
    lemma_four_digits(u);
    lemma_hex_value(u / 4096 % 16);
    lemma_hex_value(u / 256 % 16);
    lemma_hex_value(u / 16 % 16);
    lemma_hex_value(u % 16);
}

/// What a hexadecimal digit in lower case stands for.
pub open spec fn hex_value(c: char) -> int {
    if is_digit(c) {
        c as int - 48
    } else {
        c as int - 87
    }
}

proof fn lemma_hex_value(d: nat)
    requires
        d < 16,
    ensures
        hex_value(hex_char(d)) == d,
        is_digit(hex_char(d)) || ('a' <= hex_char(d) && hex_char(d) <= 'f'),
{
}

// ----------------------------------------------------------------------- what callers are given

/// A caller is given a string as it is and everything else as its JSON, escaped to ASCII for instructions.
pub proof fn law_given_texts(v: &Value, shown: String, instructions: String)
    requires
        call_ensures(render, (v,), shown),
        call_ensures(render_instructions, (v,), instructions),
    ensures
        shown@ == match v@ {
            Json::Text(s) => s,
            _ => dumped(v@, false),
        },
        instructions@ == match v@ {
            Json::Text(s) => s,
            _ => dumped(v@, true),
        },
{
}

} // verus!
