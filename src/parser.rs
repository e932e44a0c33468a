use vstd::prelude::*;
use crate::lexer::{is_ws, is_whitespace, push_char, JsonLexer};
use crate::roundtrip::{num_readable, readable};
use crate::value::{
    elements_view, find_key, insert_member, int_part_bound, keys_unique, lemma_insert_member_unique,
    lemma_pow10_add, lemma_pow10_monotone, lemma_pow10_positive, lemma_unit_value, members_view,
    pow10, unit, Decimal, JsonElement, JsonNum, JsonValue, NumValue, PLACES,
};

verus! {

/// What the parser was looking for when it failed.
#[derive(Clone, Copy, Debug, PartialEq, Eq)]
pub enum Expectation {
    /// The start of a value.
    Value,
    /// The opening quote of an object key.
    Key,
    /// The `:` after an object key.
    Colon,
    /// `,` or `}` after an object member.
    CommaOrBrace,
    /// `,` or `]` after an array element.
    CommaOrBracket,
    /// The given letter of the literal `null`.
    Letter(char),
}

/// Why a text is not a JSON value.
#[derive(Clone, Debug, PartialEq, Eq)]
pub enum ParseError {
    /// `found` stands at character index `pos` where `expected` was due.
    Unexpected { expected: Expectation, found: char, pos: usize },
    /// The text ended where `expected` was due.
    EndOfInput { expected: Expectation },
    /// The text ended inside a string; `partial` is what the string held so far.
    UnterminatedString { partial: String },
    /// The number starting at `pos` does not fit its representation.
    NumberOutOfRange { pos: usize },
    /// The number starting at `pos` has no digit.
    NoDigits { pos: usize },
}

/// A parse failure as a mathematical object.
pub enum Failure {
    Unexpected { expected: Expectation, found: char, pos: int },
    EndOfInput { expected: Expectation },
    UnterminatedString { partial: Seq<char> },
    NumberOutOfRange { pos: int },
    NoDigits { pos: int },
}

impl ParseError {
    pub open spec fn view(&self) -> Failure {
        match self {
            ParseError::Unexpected { expected, found, pos } => Failure::Unexpected {
                expected: *expected,
                found: *found,
                pos: *pos as int,
            },
            ParseError::EndOfInput { expected } => Failure::EndOfInput { expected: *expected },
            ParseError::UnterminatedString { partial } => Failure::UnterminatedString {
                partial: partial@,
            },
            ParseError::NumberOutOfRange { pos } => Failure::NumberOutOfRange { pos: *pos as int },
            ParseError::NoDigits { pos } => Failure::NoDigits { pos: *pos as int },
        }
    }
}

/// The number of whitespace characters of `s` from `p` on.
pub open spec fn ws_count(s: Seq<char>, p: int) -> nat
    decreases s.len() - p,
{
    if 0 <= p < s.len() && is_ws(s[p]) {
        1 + ws_count(s, p + 1)
    } else {
        0
    }
}

/// The body of a string from `p` on (after its opening quote): its content and
/// its length up to and with the closing quote, or what it held when the text
/// ended. A backslash makes the next character part of the content, whatever it is.
pub open spec fn scan_string(s: Seq<char>, p: int) -> Result<(Seq<char>, nat), Seq<char>>
    decreases s.len() - p,
{
    if !(0 <= p < s.len()) {
        Err(Seq::empty())
    } else if s[p] == '"' {
        Ok((Seq::empty(), 1))
    } else if s[p] == '\\' {
        if p + 1 < s.len() {
            match scan_string(s, p + 2) {
                Ok((t, n)) => Ok((seq![s[p + 1]] + t, n + 2)),
                Err(t) => Err(seq![s[p + 1]] + t),
            }
        } else {
            Err(Seq::empty())
        }
    } else {
        match scan_string(s, p + 1) {
            Ok((t, n)) => Ok((seq![s[p]] + t, n + 1)),
            Err(t) => Err(seq![s[p]] + t),
        }
    }
}

pub open spec fn is_digit(c: char) -> bool {
    '0' <= c <= '9'
}

pub open spec fn digit_value(c: char) -> int {
    c as int - '0' as int
}

/// The number of characters of `s` from `p` on that are digits or `.`.
pub open spec fn run_len(s: Seq<char>, p: int) -> nat
    decreases s.len() - p,
{
    if 0 <= p < s.len() && (is_digit(s[p]) || s[p] == '.') {
        1 + run_len(s, p + 1)
    } else {
        0
    }
}

/// Reading a run of digits and points: whether a point was seen, the digits
/// before the first point, and the digits after it.
pub open spec fn split_number(t: Seq<char>) -> (bool, Seq<char>, Seq<char>)
    decreases t.len(),
{
    if t.len() == 0 {
        (false, Seq::empty(), Seq::empty())
    } else {
        let (point, int_digits, frac_digits) = split_number(t.drop_last());
        let c = t.last();
        if c == '.' {
            (true, int_digits, frac_digits)
        } else if point {
            (point, int_digits, frac_digits.push(c))
        } else {
            (point, int_digits.push(c), frac_digits)
        }
    }
}

/// The value of a sequence of decimal digits.
pub open spec fn digits_value(d: Seq<char>) -> int
    decreases d.len(),
{
    if d.len() == 0 {
        0
    } else {
        10 * digits_value(d.drop_last()) + digit_value(d.last())
    }
}

/// A number from `p` on (its first character is `-` or a digit), and its length.
/// Whitespace right after the number belongs to it; any other character that is
/// not a digit or a point ends it and is left. Digits past the first `PLACES`
/// after the point are read and dropped.
pub open spec fn parse_number(s: Seq<char>, p: int) -> Result<(NumValue, nat), Failure> {
    let negative = 0 <= p < s.len() && s[p] == '-';
    let a = if negative { p + 1 } else { p };
    let r = run_len(s, a);
    let e = a + r;
    let len = (if negative { 1nat } else { 0nat }) + r + (if 0 <= e < s.len() && is_ws(s[e]) { 1nat } else { 0nat });
    let (point, int_digits, frac_digits) = split_number(s.subrange(a, e));
    number_value(negative, point, int_digits, frac_digits, p, len)
}

/// The number read from a sign, whether there was a point, the digits before it
/// and those after it; `p` is where it starts and `len` its length.
pub open spec fn number_value(
    negative: bool,
    point: bool,
    int_digits: Seq<char>,
    frac_digits: Seq<char>,
    p: int,
    len: nat,
) -> Result<(NumValue, nat), Failure> {
    let m = digits_value(int_digits);
    if int_digits.len() + frac_digits.len() == 0 {
        Err(Failure::NoDigits { pos: p })
    } else if !point {
        if m > (if negative { 0x8000_0000_0000_0000int } else { 0x7fff_ffff_ffff_ffffint }) {
            Err(Failure::NumberOutOfRange { pos: p })
        } else {
            Ok((NumValue::Int(if negative { -m } else { m }), len))
        }
    } else if m >= int_part_bound() {
        Err(Failure::NumberOutOfRange { pos: p })
    } else {
        let k = if frac_digits.len() <= PLACES { frac_digits.len() } else { PLACES as nat };
        let f = digits_value(frac_digits.take(k as int));
        let v = m * unit() + f * pow10((PLACES - k) as nat);
        Ok((NumValue::Dec(if negative { -v } else { v }), len))
    }
}


/// The rest of the literal `null` at `p` (after its `n`).
pub open spec fn parse_null_rest(s: Seq<char>, p: int) -> Result<(), Failure> {
    if p >= s.len() {
        Err(Failure::EndOfInput { expected: Expectation::Letter('u') })
    } else if s[p] != 'u' {
        Err(Failure::Unexpected { expected: Expectation::Letter('u'), found: s[p], pos: p })
    } else if p + 1 >= s.len() {
        Err(Failure::EndOfInput { expected: Expectation::Letter('l') })
    } else if s[p + 1] != 'l' {
        Err(Failure::Unexpected { expected: Expectation::Letter('l'), found: s[p + 1], pos: p + 1 })
    } else if p + 2 >= s.len() {
        Err(Failure::EndOfInput { expected: Expectation::Letter('l') })
    } else if s[p + 2] != 'l' {
        Err(Failure::Unexpected { expected: Expectation::Letter('l'), found: s[p + 2], pos: p + 2 })
    } else {
        Ok(())
    }
}

/// A value from `p` on (after any whitespace), and the number of characters it takes.
pub open spec fn parse_value(s: Seq<char>, p: int) -> Result<(JsonValue, nat), Failure>
    decreases s.len() - p, 1nat,
{
    let w = ws_count(s, p);
    let q = p + w;
    if !(0 <= q < s.len()) {
        Err(Failure::EndOfInput { expected: Expectation::Value })
    } else {
        let c = s[q];
        if c == '{' {
            match parse_members(s, q + 1, Seq::empty()) {
                Ok((v, n)) => Ok((v, w + 1 + n)),
                Err(e) => Err(e),
            }
        } else if c == '"' {
            match scan_string(s, q + 1) {
                Ok((t, n)) => Ok((JsonValue::Str(t), w + 1 + n)),
                Err(t) => Err(Failure::UnterminatedString { partial: t }),
            }
        } else if c == '[' {
            match parse_items(s, q + 1, Seq::empty()) {
                Ok((v, n)) => Ok((v, w + 1 + n)),
                Err(e) => Err(e),
            }
        } else if c == 'n' {
            match parse_null_rest(s, q + 1) {
                Ok(_) => Ok((JsonValue::Null, w + 4)),
                Err(e) => Err(e),
            }
        } else if is_digit(c) || c == '-' {
            match parse_number(s, q) {
                Ok((v, n)) => Ok((JsonValue::Number(v), w + n)),
                Err(e) => Err(e),
            }
        } else {
            Err(Failure::Unexpected { expected: Expectation::Value, found: c, pos: q })
        }
    }
}

/// A member `"key": value` from `p` on (after an object's `{` or a `,`): its key,
/// its value and the number of characters it takes.
pub open spec fn parse_pair(s: Seq<char>, p: int) -> Result<(Seq<char>, JsonValue, nat), Failure>
    decreases s.len() - p, 0nat,
{
    let w = ws_count(s, p);
    let q = p + w;
    if !(0 <= q < s.len()) {
        Err(Failure::EndOfInput { expected: Expectation::Key })
    } else if s[q] != '"' {
        Err(Failure::Unexpected { expected: Expectation::Key, found: s[q], pos: q })
    } else {
        match scan_string(s, q + 1) {
            Err(t) => Err(Failure::UnterminatedString { partial: t }),
            Ok((key, n1)) => {
                let p1 = q + 1 + n1;
                let w1 = ws_count(s, p1);
                let q1 = p1 + w1;
                if !(0 <= q1 < s.len()) {
                    Err(Failure::EndOfInput { expected: Expectation::Colon })
                } else if s[q1] != ':' {
                    Err(Failure::Unexpected { expected: Expectation::Colon, found: s[q1], pos: q1 })
                } else {
                    match parse_value(s, q1 + 1) {
                        Err(e) => Err(e),
                        Ok((v, n2)) => Ok((key, v, w + 1 + n1 + w1 + 1 + n2)),
                    }
                }
            },
        }
    }
}

/// The members of an object from `p` on (after its `{` or a `,`), added to `acc`;
/// the object and the number of characters up to and with its `}`.
pub open spec fn parse_members(s: Seq<char>, p: int, acc: Seq<(Seq<char>, JsonValue)>) -> Result<
    (JsonValue, nat),
    Failure,
>
    decreases s.len() - p, 1nat,
{
    match parse_pair(s, p) {
        Err(e) => Err(e),
        Ok((key, v, n)) => {
            let acc2 = insert_member(acc, key, v);
            let p2 = p + n;
            let w2 = ws_count(s, p2);
            let q2 = p2 + w2;
            if !(0 <= q2 < s.len()) {
                Err(Failure::EndOfInput { expected: Expectation::CommaOrBrace })
            } else if s[q2] == ',' {
                match parse_members(s, q2 + 1, acc2) {
                    Ok((o, m)) => Ok((o, n + w2 + 1 + m)),
                    Err(e) => Err(e),
                }
            } else if s[q2] == '}' {
                Ok((JsonValue::Object(acc2), n + w2 + 1))
            } else {
                Err(
                    Failure::Unexpected {
                        expected: Expectation::CommaOrBrace,
                        found: s[q2],
                        pos: q2,
                    },
                )
            }
        },
    }
}

/// The elements of an array from `p` on (after its `[` or a `,`), added to `acc`;
/// the array and the number of characters up to and with its `]`. A `]` right
/// after a `,` ends the array too.
pub open spec fn parse_items(s: Seq<char>, p: int, acc: Seq<JsonValue>) -> Result<
    (JsonValue, nat),
    Failure,
>
    decreases s.len() - p, 2nat,
{
    let w = ws_count(s, p);
    let q = p + w;
    if 0 <= q < s.len() && s[q] == ']' {
        Ok((JsonValue::Array(acc), w + 1))
    } else {
        match parse_value(s, p) {
            Err(e) => Err(e),
            Ok((v, n1)) => {
                let p1 = p + n1;
                let w1 = ws_count(s, p1);
                let q1 = p1 + w1;
                if !(0 <= q1 < s.len()) {
                    Err(Failure::EndOfInput { expected: Expectation::CommaOrBracket })
                } else if s[q1] == ',' {
                    match parse_items(s, q1 + 1, acc.push(v)) {
                        Ok((a, n2)) => Ok((a, n1 + w1 + 1 + n2)),
                        Err(e) => Err(e),
                    }
                } else if s[q1] == ']' {
                    Ok((JsonValue::Array(acc.push(v)), n1 + w1 + 1))
                } else {
                    Err(
                        Failure::Unexpected {
                            expected: Expectation::CommaOrBracket,
                            found: s[q1],
                            pos: q1,
                        },
                    )
                }
            },
        }
    }
}

/// The value that a whole text starts with; what follows it is not read.
pub open spec fn parse_text(s: Seq<char>) -> Result<JsonValue, Failure> {
    match parse_value(s, 0) {
        Ok((v, _)) => Ok(v),
        Err(e) => Err(e),
    }
}

/// `r` with `b` put in front of the content and `k` added to the length.
pub open spec fn prepend(b: Seq<char>, k: int, r: Result<(Seq<char>, nat), Seq<char>>) -> Result<
    (Seq<char>, nat),
    Seq<char>,
> {
    match r {
        Ok((t, n)) => Ok((b + t, (n + k) as nat)),
        Err(t) => Err(b + t),
    }
}

/// `r` with `k` added to the length.
pub open spec fn shift(r: Result<(JsonValue, nat), Failure>, k: int) -> Result<(JsonValue, nat), Failure> {
    match r {
        Ok((v, n)) => Ok((v, (n + k) as nat)),
        Err(e) => Err(e),
    }
}

pub open spec fn all_digits(d: Seq<char>) -> bool {
    forall|i: int| 0 <= i < d.len() ==> is_digit(#[trigger] d[i])
}

proof fn lemma_ws_count_bound(s: Seq<char>, p: int)
    requires
        0 <= p <= s.len(),
    ensures
        p + ws_count(s, p) <= s.len(),
        p + ws_count(s, p) < s.len() ==> !is_ws(s[p + ws_count(s, p)]),
    decreases s.len() - p,
{
    if p < s.len() && is_ws(s[p]) {
        lemma_ws_count_bound(s, p + 1);
    }
}

proof fn lemma_ws_count_zero(s: Seq<char>, p: int)
    requires
        0 <= p <= s.len(),
    ensures
        ws_count(s, p + ws_count(s, p)) == 0,
    decreases s.len() - p,
{
    if p < s.len() && is_ws(s[p]) {
        lemma_ws_count_zero(s, p + 1);
    }
}

proof fn lemma_parse_value_after_ws(s: Seq<char>, p: int)
    requires
        0 <= p <= s.len(),
    ensures
        parse_value(s, p) == shift(parse_value(s, p + ws_count(s, p)), ws_count(s, p) as int),
{
    lemma_ws_count_zero(s, p);
    let q = p + ws_count(s, p);
    assert(ws_count(s, q) == 0);
    reveal_with_fuel(parse_value, 1);
}

proof fn lemma_digits_value_bound(d: Seq<char>)
    requires
        all_digits(d),
    ensures
        0 <= digits_value(d) < pow10(d.len()),
    decreases d.len(),
{
    if d.len() > 0 {
        let e = d.drop_last();
        assert(all_digits(e)) by {
            assert forall|i: int| 0 <= i < e.len() implies is_digit(#[trigger] e[i]) by {
                assert(e[i] == d[i]);
            }
        }
        lemma_digits_value_bound(e);
        assert(is_digit(d[d.len() - 1]));
        assert(pow10(d.len()) == 10 * pow10(e.len()));
    }
}

/// Skips whitespace; the first other character, consumed, or `None` at the end.
fn next_non_ws(lex: &mut JsonLexer) -> (r: Option<char>)
    requires
        old(lex).wf(),
    ensures
        final(lex).wf(),
        final(lex).text() == old(lex).text(),
        ({
            let s = old(lex).text();
            let q = old(lex).pos() + ws_count(s, old(lex).pos());
            &&& q < s.len() ==> r == Some(s[q]) && final(lex).pos() == q + 1
            &&& q >= s.len() ==> r is None && final(lex).pos() == q
        }),
{
    let ghost s = lex.text();
    let ghost q = lex.pos() + ws_count(s, lex.pos());
    proof {
        lex.lemma_wf();
        lemma_ws_count_bound(s, lex.pos());
    }
    loop
        invariant
            lex.wf(),
            lex.text() == s,
            s == old(lex).text(),
            q == old(lex).pos() + ws_count(s, old(lex).pos()),
            lex.pos() + ws_count(s, lex.pos()) == q,
            q <= s.len(),
        decreases s.len() - lex.pos(),
    {
        proof {
            lex.lemma_wf();
        }
        let c = lex.next();
        match c {
            None => {
                return None;
            },
            Some(ch) => {
                if !is_whitespace(ch) {
                    return Some(ch);
                }
            },
        }
    }
}

/// A string body (after its opening quote), up to and with the closing quote.
fn parse_json_string(lex: &mut JsonLexer) -> (r: Result<String, ParseError>)
    requires
        old(lex).wf(),
    ensures
        final(lex).wf(),
        final(lex).text() == old(lex).text(),
        match scan_string(old(lex).text(), old(lex).pos()) {
            Ok((t, n)) => r matches Ok(b) && b@ == t && final(lex).pos() == old(lex).pos() + n,
            Err(t) => r matches Err(e) && e@ == (Failure::UnterminatedString { partial: t }),
        },
{
    let ghost s = lex.text();
    let ghost p0 = lex.pos();
    let mut buffer = String::new();
    proof {
        lex.lemma_wf();
        assert(buffer@ + Seq::<char>::empty() =~= buffer@);
        assert(Seq::<char>::empty() + buffer@ =~= buffer@);
    }
    loop
        invariant
            lex.wf(),
            lex.text() == s,
            s == old(lex).text(),
            p0 == old(lex).pos(),
            p0 <= lex.pos(),
            0 <= p0,
            scan_string(s, p0) == prepend(buffer@, lex.pos() - p0, scan_string(s, lex.pos())),
        decreases s.len() - lex.pos(),
    {
        proof {
            lex.lemma_wf();
        }
        let ghost p = lex.pos();
        match lex.next() {
            None => {
                assert(buffer@ + Seq::<char>::empty() =~= buffer@);
                return Err(ParseError::UnterminatedString { partial: buffer });
            },
            Some(ch) => {
                if ch == '"' {
                    assert(buffer@ + Seq::<char>::empty() =~= buffer@);
                    return Ok(buffer);
                } else if ch == '\\' {
                    match lex.next() {
                        None => {
                            assert(buffer@ + Seq::<char>::empty() =~= buffer@);
                            return Err(ParseError::UnterminatedString { partial: buffer });
                        },
                        Some(c) => {
                            let ghost b = buffer@;
                            push_char(&mut buffer, c);
                            proof {
                                let r = scan_string(s, p + 2);
                                match r {
                                    Ok((t, n)) => {
                                        assert(b + (seq![c] + t) =~= buffer@ + t);
                                    },
                                    Err(t) => {
                                        assert(b + (seq![c] + t) =~= buffer@ + t);
                                    },
                                }
                            }
                        },
                    }
                } else {
                    let ghost b = buffer@;
                    push_char(&mut buffer, ch);
                    proof {
                        let r = scan_string(s, p + 1);
                        match r {
                            Ok((t, n)) => {
                                assert(b + (seq![ch] + t) =~= buffer@ + t);
                            },
                            Err(t) => {
                                assert(b + (seq![ch] + t) =~= buffer@ + t);
                            },
                        }
                    }
                }
            },
        }
    }
}

/// A number (its first character, `-` or a digit, under the cursor).
#[verifier::rlimit(40)]
fn parse_json_number(lex: &mut JsonLexer) -> (r: Result<JsonNum, ParseError>)
    requires
        old(lex).wf(),
        0 <= old(lex).pos() < old(lex).text().len(),
        old(lex).text()[old(lex).pos()] == '-' || is_digit(old(lex).text()[old(lex).pos()]),
    ensures
        final(lex).wf(),
        final(lex).text() == old(lex).text(),
        match parse_number(old(lex).text(), old(lex).pos()) {
            Ok((v, n)) => r matches Ok(x) && x@ == v && final(lex).pos() == old(lex).pos() + n,
            Err(e) => r matches Err(x) && x@ == e,
        },
{
    let ghost s = lex.text();
    let p0 = lex.ptr();
    let first = lex.next();
    let negative = first == Some('-');
    if !negative {
        lex.back();
    }
    let ghost a = lex.pos();
    let mut point = false;
    let mut int_acc: u128 = 0;
    let mut too_big = false;
    let mut frac_acc: u64 = 0;
    let mut frac_n: u32 = 0;
    let mut any_digit = false;
    let mut ws_end = false;
    let ghost mut e: int = a;
    let ghost mut int_digits: Seq<char> = Seq::empty();
    let ghost mut frac_digits: Seq<char> = Seq::empty();
    proof {
        lemma_pow10_positive(0);
        assert(s.subrange(a, a) =~= Seq::<char>::empty());
        assert(Seq::<char>::empty().take(0) =~= Seq::<char>::empty());
    }
    loop
        invariant_except_break
            lex.pos() == e,
            !ws_end,
        invariant
            lex.wf(),
            lex.text() == s,
            s == old(lex).text(),
            p0 == old(lex).pos(),
            negative == (s[p0 as int] == '-'),
            a == (if negative { p0 + 1 } else { p0 as int }),
            a <= e <= s.len(),
            forall|i: int| a <= i < e ==> is_digit(#[trigger] s[i]) || s[i] == '.',
            run_len(s, a) == (e - a) + run_len(s, e),
            split_number(s.subrange(a, e)) == (point, int_digits, frac_digits),
            all_digits(int_digits),
            all_digits(frac_digits),
            any_digit <==> int_digits.len() + frac_digits.len() > 0,
            !too_big ==> int_acc == digits_value(int_digits) && int_acc < int_part_bound(),
            too_big ==> digits_value(int_digits) >= int_part_bound(),
            frac_n == (if frac_digits.len() <= PLACES { frac_digits.len() } else { PLACES as nat }),
            frac_acc == digits_value(frac_digits.take(frac_n as int)),
            frac_acc < pow10(frac_n as nat),
        ensures
            run_len(s, e) == 0,
            ws_end ==> lex.pos() == e + 1 && e < s.len() && is_ws(s[e]),
            !ws_end ==> lex.pos() == e && !(e < s.len() && is_ws(s[e])),
        decreases s.len() - lex.pos(),
    {
        proof {
            lex.lemma_wf();
        }
        let ghost p = lex.pos();
        let c = lex.next();
        match c {
            None => {
                break;
            },
            Some(ch) => {
                let is_d = '0' <= ch && ch <= '9';
                if !is_d && ch != '.' {
                    if is_whitespace(ch) {
                        ws_end = true;
                    } else {
                        lex.back();
                    }
                    break;
                }
                proof {
                    assert(s.subrange(a, p + 1).drop_last() =~= s.subrange(a, p));
                    assert(s.subrange(a, p + 1).last() == ch);
                    e = p + 1;
                }
                if ch == '.' {
                    point = true;
                } else {
                    let d: u32 = (ch as u32) - ('0' as u32);
                    any_digit = true;
                    if !point {
                        proof {
                            let old_int = int_digits;
                            int_digits = int_digits.push(ch);
                            assert(int_digits.drop_last() =~= old_int);
                        }
                        if !too_big {
                            let v = int_acc * 10 + (d as u128);
                            if v >= 0x1_0000_0000_0000_0000u128 {
                                too_big = true;
                            } else {
                                int_acc = v;
                            }
                        } else {
                            proof {
                                lemma_digits_value_bound(int_digits.drop_last());
                            }
                        }
                    } else {
                        proof {
                            let old_frac = frac_digits;
                            frac_digits = frac_digits.push(ch);
                            if frac_n < PLACES {
                                assert(frac_digits.take(frac_n + 1).drop_last() =~= old_frac.take(
                                    frac_n as int,
                                ));
                                assert(frac_digits.take(frac_n + 1).last() == ch);
                            } else {
                                assert(frac_digits.take(frac_n as int) =~= old_frac.take(
                                    frac_n as int,
                                ));
                            }
                        }
                        if frac_n < PLACES {
                            proof {
                                assert(pow10((frac_n + 1) as nat) == 10 * pow10(frac_n as nat));
                                lemma_pow10_monotone((frac_n + 1) as nat, PLACES as nat);
                                lemma_unit_value();
                            }
                            frac_acc = frac_acc * 10 + (d as u64);
                            frac_n = frac_n + 1;
                        }
                    }
                }
                proof {
                    assert forall|i: int| 0 <= i < int_digits.len() implies is_digit(
                        #[trigger] int_digits[i],
                    ) by {}
                    assert forall|i: int| 0 <= i < frac_digits.len() implies is_digit(
                        #[trigger] frac_digits[i],
                    ) by {}
                }
            },
        }
    }
    proof {
        lex.lemma_wf();
        assert(run_len(s, a) == e - a);
        assert(a + run_len(s, a) == e);
        assert(split_number(s.subrange(a, a + run_len(s, a))) == (point, int_digits, frac_digits));
        assert(parse_number(s, p0 as int) == number_value(
            negative,
            point,
            int_digits,
            frac_digits,
            p0 as int,
            (lex.pos() - p0) as nat,
        ));
    }
    finish_number(
        negative,
        point,
        any_digit,
        too_big,
        int_acc,
        frac_acc,
        frac_n,
        p0,
        Ghost(int_digits),
        Ghost(frac_digits),
        Ghost((lex.pos() - p0) as nat),
    )
}

/// The number from what was read of it (see `number_value`).
#[verifier::rlimit(40)]
fn finish_number(
    negative: bool,
    point: bool,
    any_digit: bool,
    too_big: bool,
    int_acc: u128,
    frac_acc: u64,
    frac_n: u32,
    p0: usize,
    Ghost(int_digits): Ghost<Seq<char>>,
    Ghost(frac_digits): Ghost<Seq<char>>,
    Ghost(len): Ghost<nat>,
) -> (r: Result<JsonNum, ParseError>)
    requires
        all_digits(int_digits),
        all_digits(frac_digits),
        any_digit <==> int_digits.len() + frac_digits.len() > 0,
        !too_big ==> int_acc == digits_value(int_digits) && int_acc < int_part_bound(),
        too_big ==> digits_value(int_digits) >= int_part_bound(),
        frac_n == (if frac_digits.len() <= PLACES { frac_digits.len() } else { PLACES as nat }),
        frac_acc == digits_value(frac_digits.take(frac_n as int)),
        frac_acc < pow10(frac_n as nat),
    ensures
        match number_value(negative, point, int_digits, frac_digits, p0 as int, len) {
            Ok((v, _)) => r matches Ok(x) && x@ == v,
            Err(e) => r matches Err(x) && x@ == e,
        },
{
    if !any_digit {
        return Err(ParseError::NoDigits { pos: p0 });
    }
    if !point {
        let limit: u128 = if negative {
            0x8000_0000_0000_0000u128
        } else {
            0x7fff_ffff_ffff_ffffu128
        };
        if too_big || int_acc > limit {
            return Err(ParseError::NumberOutOfRange { pos: p0 });
        }
        let v: i64 = if negative {
            (0i128 - int_acc as i128) as i64
        } else {
            int_acc as i64
        };
        Ok(JsonNum::Integer(v))
    } else {
        if too_big {
            return Err(ParseError::NumberOutOfRange { pos: p0 });
        }
        let p = crate::value::pow10_exec(frac_n);
        let ghost k = frac_n as nat;
        proof {
            lemma_pow10_positive(k);
            lemma_pow10_monotone(k, PLACES as nat);
            lemma_unit_value();
            lemma_pow10_add(k, (PLACES - k) as nat);
            let b = int_part_bound();
            let ia = int_acc as int;
            let fa = frac_acc as int;
            assert(ia * p + fa < b * p) by (nonlinear_arith)
                requires
                    0 <= ia < b,
                    0 <= fa < p,
            ;
            assert(0 <= ia * p <= b * 1_000_000_000_000_000_000) by (nonlinear_arith)
                requires
                    0 <= ia < b,
                    1 <= p <= 1_000_000_000_000_000_000,
            ;
        }
        let m: i128 = (int_acc as i128) * p + (frac_acc as i128);
        let m = if negative {
            -m
        } else {
            m
        };
        match Decimal::new(m, frac_n) {
            Some(d) => {
                proof {
                    let ia = int_acc as int;
                    let fa = frac_acc as int;
                    let pk = pow10(k);
                    let pr = pow10((PLACES - k) as nat);
                    let mm = ia * pk + fa;
                    assert(mm * pr == ia * (pk * pr) + fa * pr) by (nonlinear_arith)
                        requires
                            mm == ia * pk + fa,
                    ;
                    assert((-mm) * pr == -(mm * pr)) by (nonlinear_arith);
                }
                Ok(JsonNum::Double(d))
            },
            None => Err(ParseError::NumberOutOfRange { pos: p0 }),
        }
    }
}

/// The rest of the literal `null` (after its `n`).
fn parse_json_null(lex: &mut JsonLexer) -> (r: Result<(), ParseError>)
    requires
        old(lex).wf(),
    ensures
        final(lex).wf(),
        final(lex).text() == old(lex).text(),
        match parse_null_rest(old(lex).text(), old(lex).pos()) {
            Ok(_) => r is Ok && final(lex).pos() == old(lex).pos() + 3,
            Err(e) => r matches Err(x) && x@ == e,
        },
{
    proof {
        lex.lemma_wf();
    }
    let letters: [char; 3] = ['u', 'l', 'l'];
    let mut i: usize = 0;
    while i < 3
        invariant
            lex.wf(),
            lex.text() == old(lex).text(),
            0 <= i <= 3,
            lex.pos() == old(lex).pos() + i,
            letters@ == seq!['u', 'l', 'l'],
            forall|j: int| 0 <= j < i ==> lex.text()[old(lex).pos() + j] == letters@[j],
        decreases 3 - i,
    {
        proof {
            lex.lemma_wf();
        }
        let at = lex.ptr();
        let expected = letters[i];
        match lex.next() {
            Some(ch) => {
                if ch != expected {
                    return Err(
                        ParseError::Unexpected {
                            expected: Expectation::Letter(expected),
                            found: ch,
                            pos: at,
                        },
                    );
                }
            },
            None => {
                return Err(ParseError::EndOfInput { expected: Expectation::Letter(expected) });
            },
        }
        i = i + 1;
    }
    proof {
        lex.lemma_wf();
        let t = lex.text();
        let p = old(lex).pos();
        assert(t[p + 0] == 'u');
        assert(t[p + 1] == 'l');
        assert(t[p + 2] == 'l');
    }
    Ok(())
}

/// A value, after any whitespace.
fn parse_json(lex: &mut JsonLexer) -> (r: Result<JsonElement, ParseError>)
    requires
        old(lex).wf(),
    ensures
        final(lex).wf(),
        final(lex).text() == old(lex).text(),
        match parse_value(old(lex).text(), old(lex).pos()) {
            Ok((v, n)) => r matches Ok(x) && x@ == v && final(lex).pos() == old(lex).pos() + n,
            Err(e) => r matches Err(x) && x@ == e,
        },
    decreases old(lex).text().len() - old(lex).pos(), 1nat,
{
    let ghost s = lex.text();
    let ghost p = lex.pos();
    proof {
        lex.lemma_wf();
        lemma_ws_count_bound(s, p);
    }
    match next_non_ws(lex) {
        None => Err(ParseError::EndOfInput { expected: Expectation::Value }),
        Some(ch) => {
            if ch == '{' {
                parse_json_object(lex)
            } else if ch == '"' {
                match parse_json_string(lex) {
                    Ok(t) => Ok(JsonElement::JsonString(t)),
                    Err(e) => Err(e),
                }
            } else if ch == '[' {
                parse_json_array(lex)
            } else if ch == 'n' {
                match parse_json_null(lex) {
                    Ok(_) => Ok(JsonElement::JsonNull),
                    Err(e) => Err(e),
                }
            } else if ('0' <= ch && ch <= '9') || ch == '-' {
                lex.back();
                match parse_json_number(lex) {
                    Ok(v) => Ok(JsonElement::JsonNumber(v)),
                    Err(e) => Err(e),
                }
            } else {
                let at = lex.ptr() - 1;
                Err(ParseError::Unexpected { expected: Expectation::Value, found: ch, pos: at })
            }
        },
    }
}

/// One object member `"key": value` (after the object's `{` or a `,`).
fn parse_json_object_pair(lex: &mut JsonLexer) -> (r: Result<(String, JsonElement), ParseError>)
    requires
        old(lex).wf(),
    ensures
        final(lex).wf(),
        final(lex).text() == old(lex).text(),
        match parse_pair(old(lex).text(), old(lex).pos()) {
            Ok((k, v, n)) => r matches Ok((a, b)) && a@ == k && b@ == v && final(lex).pos()
                == old(lex).pos() + n,
            Err(e) => r matches Err(x) && x@ == e,
        },
    decreases old(lex).text().len() - old(lex).pos(), 0nat,
{
    let ghost s = lex.text();
    let ghost p = lex.pos();
    proof {
        lex.lemma_wf();
        lemma_ws_count_bound(s, p);
    }
    match next_non_ws(lex) {
        None => {
            return Err(ParseError::EndOfInput { expected: Expectation::Key });
        },
        Some(ch) => {
            if ch != '"' {
                let at = lex.ptr() - 1;
                return Err(ParseError::Unexpected { expected: Expectation::Key, found: ch, pos: at });
            }
        },
    }
    let key = match parse_json_string(lex) {
        Ok(k) => k,
        Err(e) => {
            return Err(e);
        },
    };
    proof {
        lex.lemma_wf();
        lemma_ws_count_bound(s, lex.pos());
    }
    match next_non_ws(lex) {
        None => {
            return Err(ParseError::EndOfInput { expected: Expectation::Colon });
        },
        Some(ch) => {
            if ch != ':' {
                let at = lex.ptr() - 1;
                return Err(
                    ParseError::Unexpected { expected: Expectation::Colon, found: ch, pos: at },
                );
            }
        },
    }
    let value = match parse_json(lex) {
        Ok(v) => v,
        Err(e) => {
            return Err(e);
        },
    };
    Ok((key, value))
}

/// Inserts a member: the member with the same key gets the new value, else the
/// member is appended.
fn insert_pair(pairs: &mut Vec<(String, JsonElement)>, key: String, value: JsonElement)
    ensures
        members_view(final(pairs)@) == insert_member(members_view(old(pairs)@), key@, value@),
{
    let ghost m = members_view(pairs@);
    let ghost kv = key@;
    let ghost vv = value@;
    match find_key(pairs, &key) {
        Some(i) => {
            pairs.set(i, (key, value));
            assert(members_view(pairs@) =~= m.update(i as int, (kv, vv)));
        },
        None => {
            pairs.push((key, value));
            assert(members_view(pairs@) =~= m.push((kv, vv)));
        },
    }
}

/// An object's members (after its `{`), up to and with its `}`.
#[verifier::rlimit(40)]
fn parse_json_object(lex: &mut JsonLexer) -> (r: Result<JsonElement, ParseError>)
    requires
        old(lex).wf(),
    ensures
        final(lex).wf(),
        final(lex).text() == old(lex).text(),
        match parse_members(old(lex).text(), old(lex).pos(), Seq::empty()) {
            Ok((v, n)) => r matches Ok(x) && x@ == v && final(lex).pos() == old(lex).pos() + n,
            Err(e) => r matches Err(x) && x@ == e,
        },
    decreases old(lex).text().len() - old(lex).pos(), 1nat,
{
    let ghost s = lex.text();
    let ghost p0 = lex.pos();
    let mut pairs: Vec<(String, JsonElement)> = Vec::new();
    proof {
        lex.lemma_wf();
        assert(members_view(pairs@) =~= Seq::<(Seq<char>, JsonValue)>::empty());
    }
    loop
        invariant
            lex.wf(),
            lex.text() == s,
            s == old(lex).text(),
            p0 == old(lex).pos(),
            p0 <= lex.pos(),
            parse_members(s, p0, Seq::empty()) == shift(
                parse_members(s, lex.pos(), members_view(pairs@)),
                lex.pos() - p0,
            ),
        decreases s.len() - lex.pos(),
    {
        let ghost p = lex.pos();
        let ghost acc = members_view(pairs@);
        proof {
            lex.lemma_wf();
        }
        let (key, value) = match parse_json_object_pair(lex) {
            Ok(kv) => kv,
            Err(e) => {
                return Err(e);
            },
        };
        insert_pair(&mut pairs, key, value);
        proof {
            lex.lemma_wf();
            lemma_ws_count_bound(s, lex.pos());
        }
        match next_non_ws(lex) {
            None => {
                return Err(ParseError::EndOfInput { expected: Expectation::CommaOrBrace });
            },
            Some(ch) => {
                if ch == '}' {
                    let r = JsonElement::JsonObject(pairs);
                    proof {
                        assert(r@ == JsonValue::Object(members_view(pairs@))) by {
                            assert(members_view(pairs@) =~= match r@ {
                                JsonValue::Object(m) => m,
                                _ => Seq::empty(),
                            });
                        }
                    }
                    return Ok(r);
                } else if ch != ',' {
                    let at = lex.ptr() - 1;
                    return Err(
                        ParseError::Unexpected {
                            expected: Expectation::CommaOrBrace,
                            found: ch,
                            pos: at,
                        },
                    );
                }
            },
        }
    }
}

/// An array's elements (after its `[`), up to and with its `]`.
#[verifier::rlimit(40)]
fn parse_json_array(lex: &mut JsonLexer) -> (r: Result<JsonElement, ParseError>)
    requires
        old(lex).wf(),
    ensures
        final(lex).wf(),
        final(lex).text() == old(lex).text(),
        match parse_items(old(lex).text(), old(lex).pos(), Seq::empty()) {
            Ok((v, n)) => r matches Ok(x) && x@ == v && final(lex).pos() == old(lex).pos() + n,
            Err(e) => r matches Err(x) && x@ == e,
        },
    decreases old(lex).text().len() - old(lex).pos(), 2nat,
{
    let ghost s = lex.text();
    let ghost p0 = lex.pos();
    let mut elems: Vec<JsonElement> = Vec::new();
    proof {
        lex.lemma_wf();
        assert(elements_view(elems@) =~= Seq::<JsonValue>::empty());
    }
    loop
        invariant
            lex.wf(),
            lex.text() == s,
            s == old(lex).text(),
            p0 == old(lex).pos(),
            p0 <= lex.pos(),
            parse_items(s, p0, Seq::empty()) == shift(
                parse_items(s, lex.pos(), elements_view(elems@)),
                lex.pos() - p0,
            ),
        decreases s.len() - lex.pos(),
    {
        let ghost p = lex.pos();
        let ghost acc = elements_view(elems@);
        proof {
            lex.lemma_wf();
            lemma_ws_count_bound(s, p);
            lemma_parse_value_after_ws(s, p);
        }
        match next_non_ws(lex) {
            None => {
                return Err(ParseError::EndOfInput { expected: Expectation::Value });
            },
            Some(ch) => {
                if ch == ']' {
                    let r = JsonElement::JsonArray(elems);
                    proof {
                        assert(r@ == JsonValue::Array(elements_view(elems@))) by {
                            assert(elements_view(elems@) =~= match r@ {
                                JsonValue::Array(a) => a,
                                _ => Seq::empty(),
                            });
                        }
                    }
                    return Ok(r);
                }
                lex.back();
            },
        }
        let elem = match parse_json(lex) {
            Ok(v) => v,
            Err(e) => {
                return Err(e);
            },
        };
        let ghost ev = elem@;
        elems.push(elem);
        proof {
            assert(elements_view(elems@) =~= acc.push(ev));
            lex.lemma_wf();
            lemma_ws_count_bound(s, lex.pos());
        }
        match next_non_ws(lex) {
            None => {
                return Err(ParseError::EndOfInput { expected: Expectation::CommaOrBracket });
            },
            Some(ch) => {
                if ch == ']' {
                    let r = JsonElement::JsonArray(elems);
                    proof {
                        assert(r@ == JsonValue::Array(elements_view(elems@))) by {
                            assert(elements_view(elems@) =~= match r@ {
                                JsonValue::Array(a) => a,
                                _ => Seq::empty(),
                            });
                        }
                    }
                    return Ok(r);
                } else if ch != ',' {
                    let at = lex.ptr() - 1;
                    return Err(
                        ParseError::Unexpected {
                            expected: Expectation::CommaOrBracket,
                            found: ch,
                            pos: at,
                        },
                    );
                }
            },
        }
    }
}

/// Parses the value that `json` starts with; what follows it is not read.
pub fn build_json_graph(json: &str) -> (r: Result<JsonElement, ParseError>)
    ensures
        match parse_text(json@) {
            Ok(v) => r matches Ok(x) && x@ == v,
            Err(e) => r matches Err(x) && x@ == e,
        },
{
    let mut lexer = JsonLexer::new(json);
    parse_json(&mut lexer)
}

pub open spec fn members_good(acc: Seq<(Seq<char>, JsonValue)>) -> bool {
    keys_unique(acc) && forall|i: int|
        0 <= i < acc.len() ==> (#[trigger] acc[i]).1.wf() && readable(acc[i].1)
}

proof fn lemma_run_chars(s: Seq<char>, p: int)
    requires
        0 <= p,
    ensures
        p + run_len(s, p) <= s.len() || run_len(s, p) == 0,
        forall|i: int| p <= i < p + run_len(s, p) ==> is_digit(#[trigger] s[i]) || s[i] == '.',
    decreases s.len() - p,
{
    if 0 <= p < s.len() && (is_digit(s[p]) || s[p] == '.') {
        lemma_run_chars(s, p + 1);
    }
}

proof fn lemma_split_number_digits(t: Seq<char>)
    requires
        forall|i: int| 0 <= i < t.len() ==> is_digit(#[trigger] t[i]) || t[i] == '.',
    ensures
        all_digits(split_number(t).1),
        all_digits(split_number(t).2),
    decreases t.len(),
{
    if t.len() > 0 {
        let e = t.drop_last();
        assert forall|i: int| 0 <= i < e.len() implies is_digit(#[trigger] e[i]) || e[i] == '.' by {
            assert(e[i] == t[i]);
        }
        lemma_split_number_digits(e);
        assert(is_digit(t[t.len() - 1]) || t[t.len() - 1] == '.');
    }
}

#[verifier::rlimit(40)]
proof fn lemma_number_readable(s: Seq<char>, p: int)
    requires
        0 <= p < s.len(),
    ensures
        parse_number(s, p) matches Ok((n, _)) ==> num_readable(n),
{
    let negative = 0 <= p < s.len() && s[p] == '-';
    let a = if negative { p + 1 } else { p };
    let r = run_len(s, a);
    let e = a + r;
    lemma_run_chars(s, a);
    let t = s.subrange(a, e);
    assert forall|i: int| 0 <= i < t.len() implies is_digit(#[trigger] t[i]) || t[i] == '.' by {
        assert(t[i] == s[a + i]);
    }
    lemma_split_number_digits(t);
    let (point, int_digits, frac_digits) = split_number(t);
    lemma_digits_value_bound(int_digits);
    let k = if frac_digits.len() <= PLACES { frac_digits.len() } else { PLACES as nat };
    let ft = frac_digits.take(k as int);
    assert(all_digits(ft)) by {
        assert forall|i: int| 0 <= i < ft.len() implies is_digit(#[trigger] ft[i]) by {
            assert(ft[i] == frac_digits[i]);
        }
    }
    lemma_digits_value_bound(ft);
    assert(ft.len() == k);
    let m = digits_value(int_digits);
    let f = digits_value(ft);
    lemma_unit_value();
    lemma_pow10_add(k, (PLACES - k) as nat);
    lemma_pow10_positive((PLACES - k) as nat);
    let pr = pow10((PLACES - k) as nat);
    let pk = pow10(k);
    assert(f * pr < unit()) by (nonlinear_arith)
        requires
            0 <= f < pk,
            pr >= 1,
            pk * pr == unit(),
    ;
    assert(m < int_part_bound() ==> m * unit() + f * pr < int_part_bound() * unit()) by (nonlinear_arith)
        requires
            0 <= m,
            0 <= f * pr < unit(),
    ;
    assert(0 <= m * unit() + f * pr) by (nonlinear_arith)
        requires
            0 <= m,
            0 <= f,
            pr >= 1,
            unit() > 0,
    ;
}

proof fn lemma_value_good(s: Seq<char>, p: int)
    ensures
        parse_value(s, p) matches Ok((v, _)) ==> v.wf() && readable(v),
    decreases s.len() - p, 1nat,
{
    let w = ws_count(s, p);
    let q = p + w;
    if 0 <= q < s.len() {
        let c = s[q];
        if c == '{' {
            lemma_members_good(s, q + 1, Seq::empty());
        } else if c == '[' {
            lemma_items_good(s, q + 1, Seq::empty());
        } else if is_digit(c) || c == '-' {
            lemma_number_readable(s, q);
        }
    }
}

proof fn lemma_pair_good(s: Seq<char>, p: int)
    ensures
        parse_pair(s, p) matches Ok((_, v, _)) ==> v.wf() && readable(v),
    decreases s.len() - p, 0nat,
{
    let w = ws_count(s, p);
    let q = p + w;
    if 0 <= q < s.len() && s[q] == '"' {
        if let Ok((key, n1)) = scan_string(s, q + 1) {
            let p1 = q + 1 + n1;
            let q1 = p1 + ws_count(s, p1);
            if 0 <= q1 < s.len() && s[q1] == ':' {
                lemma_value_good(s, q1 + 1);
            }
        }
    }
}

proof fn lemma_members_good(s: Seq<char>, p: int, acc: Seq<(Seq<char>, JsonValue)>)
    requires
        members_good(acc),
    ensures
        parse_members(s, p, acc) matches Ok((v, _)) ==> v.wf() && readable(v),
    decreases s.len() - p, 1nat,
{
    lemma_pair_good(s, p);
    if let Ok((key, v, n)) = parse_pair(s, p) {
        let acc2 = insert_member(acc, key, v);
        lemma_insert_member_unique(acc, key, v);
        assert(members_good(acc2)) by {
            assert forall|i: int| 0 <= i < acc2.len() implies (#[trigger] acc2[i]).1.wf() && readable(acc2[i].1) by {
                if acc2[i] != (key, v) {
                    let j = choose|j: int| 0 <= j < acc.len() && acc2[i] == acc[j];
                    assert(acc[j].1.wf() && readable(acc[j].1));
                }
            }
        }
        assert(acc2.len() > 0);
        let p2 = p + n;
        let q2 = p2 + ws_count(s, p2);
        if 0 <= q2 < s.len() && s[q2] == ',' {
            lemma_members_good(s, q2 + 1, acc2);
        }
    }
}

proof fn lemma_items_good(s: Seq<char>, p: int, acc: Seq<JsonValue>)
    requires
        forall|i: int| 0 <= i < acc.len() ==> (#[trigger] acc[i]).wf() && readable(acc[i]),
    ensures
        parse_items(s, p, acc) matches Ok((v, _)) ==> v.wf() && readable(v),
    decreases s.len() - p, 2nat,
{
    let w = ws_count(s, p);
    let q = p + w;
    if !(0 <= q < s.len() && s[q] == ']') {
        lemma_value_good(s, p);
        if let Ok((v, n1)) = parse_value(s, p) {
            let acc2 = acc.push(v);
            assert forall|i: int| 0 <= i < acc2.len() implies (#[trigger] acc2[i]).wf() && readable(acc2[i]) by {
                if i < acc.len() {
                    assert(acc2[i] == acc[i]);
                }
            }
            let p1 = p + n1;
            let q1 = p1 + ws_count(s, p1);
            if 0 <= q1 < s.len() && s[q1] == ',' {
                lemma_items_good(s, q1 + 1, acc2);
            }
        }
    }
}

/// A parsed value has no object with two members of the same key (a later
/// member replaces an earlier one with its key), no empty object, and only
/// numbers in range.
pub proof fn lemma_parsed_wf(s: Seq<char>)
    ensures
        parse_text(s) matches Ok(v) ==> v.wf() && readable(v),
{
    lemma_value_good(s, 0);
}

} // verus!
