use vstd::prelude::*;
use vstd::arithmetic::div_mod::lemma_mod_breakdown;
use crate::lexer::is_ws;
use crate::parser::{
    all_digits, digit_value, digits_value, is_digit, parse_number, run_len, split_number, Failure,
};
use crate::parser::{
    lemma_parsed_wf, parse_items, parse_members, parse_pair, parse_text, parse_value, scan_string, ws_count,
};
use crate::render::{
    digit_char, element_texts, escape, join, member_texts, render, render_nat, render_num,
    render_places, trim_zeros,
};
use crate::value::{
    has_key, insert_member, int_part_bound, keys_unique, lemma_pow10_positive, lemma_unit_value,
    pow10, unit, JsonValue, NumValue, PLACES,
};

verus! {

proof fn lemma_digit_char(d: int)
    requires
        0 <= d < 10,
    ensures
        is_digit(digit_char(d)),
        digit_value(digit_char(d)) == d,
{
}

proof fn lemma_render_nat(n: nat)
    ensures
        render_nat(n).len() >= 1,
        all_digits(render_nat(n)),
        digits_value(render_nat(n)) == n,
    decreases n,
{
    if n < 10 {
        lemma_digit_char(n as int);
        let r = render_nat(n);
        assert(r.drop_last() =~= Seq::<char>::empty());
        assert(r.last() == digit_char(n as int));
        assert(digits_value(r) == 10 * digits_value(r.drop_last()) + digit_value(r.last()));
    } else {
        lemma_render_nat(n / 10);
        lemma_digit_char((n % 10) as int);
        let r = render_nat(n);
        let q = render_nat(n / 10);
        assert(r.drop_last() =~= q);
        assert(r.last() == digit_char((n % 10) as int));
        assert(digits_value(r) == 10 * digits_value(q) + digit_value(r.last()));
        assert(n == 10 * (n / 10) + n % 10);
        assert forall|i: int| 0 <= i < r.len() implies is_digit(#[trigger] r[i]) by {
            if i < q.len() {
                assert(r[i] == q[i]);
            }
        }
    }
}

proof fn lemma_render_places(f: nat, k: nat)
    ensures
        render_places(f, k).len() == k,
        all_digits(render_places(f, k)),
        digits_value(render_places(f, k)) == (f as int) % pow10(k),
    decreases k,
{
    if k > 0 {
        let r = render_places(f, k);
        let q = render_places(f / 10, (k - 1) as nat);
        lemma_render_places(f / 10, (k - 1) as nat);
        lemma_digit_char((f % 10) as int);
        assert(r.drop_last() =~= q);
        assert forall|i: int| 0 <= i < r.len() implies is_digit(#[trigger] r[i]) by {
            if i < q.len() {
                assert(r[i] == q[i]);
            }
        }
        lemma_pow10_positive((k - 1) as nat);
        lemma_mod_breakdown(f as int, 10, pow10((k - 1) as nat));
    } else {
        assert(f % 1 == 0);
    }
}

proof fn lemma_trim_zeros(f: nat, k: nat)
    requires
        k >= 1,
        f < pow10(k),
    ensures
        1 <= trim_zeros(f, k).1 <= k,
        trim_zeros(f, k).0 < pow10(trim_zeros(f, k).1),
        trim_zeros(f, k).0 * pow10((k - trim_zeros(f, k).1) as nat) == f,
    decreases k,
{
    if k > 1 && f % 10 == 0 {
        let g = f / 10;
        assert(f == 10 * g);
        assert(pow10(k) == 10 * pow10((k - 1) as nat));
        lemma_trim_zeros(g, (k - 1) as nat);
        let (h, j) = trim_zeros(g, (k - 1) as nat);
        assert(pow10((k - j) as nat) == 10 * pow10((k - 1 - j) as nat));
        assert(h * pow10((k - j) as nat) == 10 * (h * pow10((k - 1 - j) as nat))) by (nonlinear_arith)
            requires
                pow10((k - j) as nat) == 10 * pow10((k - 1 - j) as nat),
        ;
    } else {
        assert(pow10(0) == 1);
    }
}

proof fn lemma_split_digits(t: Seq<char>)
    requires
        all_digits(t),
    ensures
        split_number(t) == (false, t, Seq::<char>::empty()),
    decreases t.len(),
{
    if t.len() > 0 {
        let u = t.drop_last();
        assert(all_digits(u)) by {
            assert forall|i: int| 0 <= i < u.len() implies is_digit(#[trigger] u[i]) by {
                assert(u[i] == t[i]);
            }
        }
        lemma_split_digits(u);
        assert(is_digit(t[t.len() - 1]));
        assert(u.push(t.last()) =~= t);
    }
}

proof fn lemma_split_point(a: Seq<char>, b: Seq<char>)
    requires
        all_digits(a),
        all_digits(b),
    ensures
        split_number(a + seq!['.'] + b) == (true, a, b),
    decreases b.len(),
{
    let t = a + seq!['.'] + b;
    if b.len() == 0 {
        assert(t.drop_last() =~= a);
        lemma_split_digits(a);
    } else {
        let c = b.last();
        let u = b.drop_last();
        assert(all_digits(u)) by {
            assert forall|i: int| 0 <= i < u.len() implies is_digit(#[trigger] u[i]) by {
                assert(u[i] == b[i]);
            }
        }
        lemma_split_point(a, u);
        assert(t.drop_last() =~= a + seq!['.'] + u);
        assert(is_digit(b[b.len() - 1]));
        assert(u.push(c) =~= b);
    }
}

proof fn lemma_run_len(s: Seq<char>, p: int, len: int)
    requires
        0 <= p,
        0 <= len,
        p + len <= s.len(),
        forall|i: int| p <= i < p + len ==> is_digit(#[trigger] s[i]) || s[i] == '.',
        p + len == s.len() || !(is_digit(s[p + len]) || s[p + len] == '.'),
    ensures
        run_len(s, p) == len,
    decreases len,
{
    if len > 0 {
        lemma_run_len(s, p + 1, len - 1);
    }
}

/// Whether a number is within what the parser reads: a 64-bit signed integer,
/// or a fraction whose integer part is below `2^64` in magnitude.
pub open spec fn num_readable(n: NumValue) -> bool {
    match n {
        NumValue::Int(i) => -0x8000_0000_0000_0000int <= i <= 0x7fff_ffff_ffff_ffffint,
        NumValue::Dec(m) => -int_part_bound() * unit() < m < int_part_bound() * unit(),
    }
}

/// Whether position `e` of `s` is the end or a character that may follow a value
/// inside an array or object.
pub open spec fn ends_value(s: Seq<char>, e: int) -> bool {
    e == s.len() || s[e] == ',' || s[e] == ']' || s[e] == '}'
}

/// `s` holds `t` from `p` on.
pub open spec fn holds_at(s: Seq<char>, p: int, t: Seq<char>) -> bool {
    0 <= p && p + t.len() <= s.len() && s.subrange(p, p + t.len()) == t
}

proof fn lemma_holds_index(s: Seq<char>, p: int, t: Seq<char>, i: int)
    requires
        holds_at(s, p, t),
        0 <= i < t.len(),
    ensures
        s[p + i] == t[i],
{
    assert(s.subrange(p, p + t.len())[i] == s[p + i]);
}

/// The token of a number from `a` on, `t`, is a run of digits and points that
/// the text ends after.
proof fn lemma_number_token(s: Seq<char>, a: int, t: Seq<char>)
    requires
        holds_at(s, a, t),
        forall|i: int| 0 <= i < t.len() ==> is_digit(#[trigger] t[i]) || t[i] == '.',
        ends_value(s, a + t.len()),
    ensures
        run_len(s, a) == t.len(),
        s.subrange(a, a + run_len(s, a)) == t,
        !(0 <= a + t.len() < s.len() && is_ws(s[a + t.len()])),
{
    assert forall|i: int| a <= i < a + t.len() implies is_digit(#[trigger] s[i]) || s[i] == '.' by {
        lemma_holds_index(s, a, t, i - a);
    }
    lemma_run_len(s, a, t.len() as int);
}

#[verifier::rlimit(40)]
proof fn lemma_number_round_trip(s: Seq<char>, p: int, n: NumValue)
    requires
        num_readable(n),
        holds_at(s, p, render_num(n)),
        ends_value(s, p + render_num(n).len()),
    ensures
        parse_number(s, p) == Ok::<(NumValue, nat), Failure>((n, render_num(n).len())),
{
    let text = render_num(n);
    match n {
        NumValue::Int(i) => {
            let mag: nat = if i < 0 { (-i) as nat } else { i as nat };
            let digits = render_nat(mag);
            lemma_render_nat(mag);
            let a = if i < 0 { p + 1 } else { p };
            if i < 0 {
                assert(text == seq!['-'] + digits);
                lemma_holds_index(s, p, text, 0);
                assert(holds_at(s, a, digits)) by {
                    assert(s.subrange(a, a + digits.len()) =~= text.subrange(1, text.len() as int));
                    assert(text.subrange(1, text.len() as int) =~= digits);
                }
            } else {
                assert(text == digits);
                lemma_holds_index(s, p, text, 0);
                assert(is_digit(digits[0]));
            }
            assert forall|k: int| 0 <= k < digits.len() implies is_digit(#[trigger] digits[k]) || digits[k] == '.' by {}
            lemma_number_token(s, a, digits);
            lemma_split_digits(digits);
        },
        NumValue::Dec(m) => {
            lemma_unit_value();
            let mag: int = if m < 0 { -m } else { m };
            let ip = (mag / unit()) as nat;
            let fp = (mag % unit()) as nat;
            let (g, j) = trim_zeros(fp, PLACES as nat);
            let int_digits = render_nat(ip);
            let frac = render_places(g, j);
            lemma_render_nat(ip);
            lemma_trim_zeros(fp, PLACES as nat);
            lemma_render_places(g, j);
            let token = int_digits + seq!['.'] + frac;
            let sign: Seq<char> = if m < 0 { seq!['-'] } else { Seq::empty() };
            assert(text =~= sign + token);
            let a = p + sign.len();
            lemma_holds_index(s, p, text, 0);
            assert(holds_at(s, a, token)) by {
                assert(s.subrange(a, a + token.len()) =~= text.subrange(sign.len() as int, text.len() as int));
                assert(text.subrange(sign.len() as int, text.len() as int) =~= token);
            }
            assert(is_digit(int_digits[0]));
            assert(m >= 0 ==> text[0] == int_digits[0]);
            assert forall|k: int| 0 <= k < token.len() implies is_digit(#[trigger] token[k]) || token[k] == '.' by {
                if k < int_digits.len() {
                    assert(token[k] == int_digits[k]);
                } else if k > int_digits.len() {
                    assert(token[k] == frac[k - int_digits.len() - 1]);
                }
            }
            lemma_number_token(s, a, token);
            lemma_split_point(int_digits, frac);
            assert(frac.take(j as int) =~= frac);
            assert((g as int) % pow10(j) == g) by {
                vstd::arithmetic::div_mod::lemma_small_mod(g, pow10(j) as nat);
            }
            assert(mag == unit() * ip + fp) by {
                vstd::arithmetic::div_mod::lemma_fundamental_div_mod(mag, unit());
            }
            assert(ip < int_part_bound()) by {
                vstd::arithmetic::div_mod::lemma_div_is_ordered(
                    mag,
                    unit() * (int_part_bound() - 1) + (unit() - 1),
                    unit(),
                );
                vstd::arithmetic::div_mod::lemma_div_multiples_vanish_fancy(int_part_bound() - 1, unit() - 1, unit());
            }
        },
    }
}

proof fn lemma_holds_split(s: Seq<char>, p: int, x: Seq<char>, y: Seq<char>)
    requires
        holds_at(s, p, x + y),
    ensures
        holds_at(s, p, x),
        holds_at(s, p + x.len(), y),
{
    assert(s.subrange(p, p + x.len()) =~= (x + y).subrange(0, x.len() as int));
    assert((x + y).subrange(0, x.len() as int) =~= x);
    assert(s.subrange(p + x.len(), p + x.len() + y.len()) =~= (x + y).subrange(
        x.len() as int,
        (x.len() + y.len()) as int,
    ));
    assert((x + y).subrange(x.len() as int, (x.len() + y.len()) as int) =~= y);
}

pub open spec fn escape_char(c: char) -> Seq<char> {
    if c == '"' || c == '\\' {
        seq!['\\', c]
    } else {
        seq![c]
    }
}

proof fn lemma_escape_front(c: char, u: Seq<char>)
    ensures
        escape(seq![c] + u) == escape_char(c) + escape(u),
    decreases u.len(),
{
    let t = seq![c] + u;
    if u.len() == 0 {
        assert(t.drop_last() =~= Seq::<char>::empty());
        assert(t.last() == c);
        assert(escape(Seq::<char>::empty()) == Seq::<char>::empty());
        assert(escape(t) == escape(t.drop_last()) + escape_char(c));
        assert(escape(t) =~= escape_char(c) + escape(u));
    } else {
        lemma_escape_front(c, u.drop_last());
        assert(t.drop_last() =~= seq![c] + u.drop_last());
        assert(t.last() == u.last());
        assert(escape(t) =~= escape_char(c) + escape(u));
    }
}

proof fn lemma_scan_round_trip(s: Seq<char>, q: int, t: Seq<char>)
    requires
        holds_at(s, q, escape(t).push('"')),
    ensures
        scan_string(s, q) == Ok::<(Seq<char>, nat), Seq<char>>((t, escape(t).len() + 1)),
    decreases t.len(),
{
    let e = escape(t).push('"');
    if t.len() == 0 {
        assert(escape(t) =~= Seq::<char>::empty());
        lemma_holds_index(s, q, e, 0);
        assert(s[q] == '"');
        assert(t =~= Seq::<char>::empty());
    } else {
        let c = t[0];
        let u = t.drop_first();
        assert(t =~= seq![c] + u);
        lemma_escape_front(c, u);
        assert(e =~= escape_char(c) + escape(u).push('"'));
        lemma_holds_split(s, q, escape_char(c), escape(u).push('"'));
        lemma_holds_index(s, q, e, 0);
        let w = escape_char(c).len();
        lemma_scan_round_trip(s, q + w, u);
        if c == '"' || c == '\\' {
            lemma_holds_index(s, q, e, 1);
            assert(s[q] == '\\');
            assert(s[q + 1] == c);
            assert(q + 1 < s.len());
            assert(seq![c] + u == t);
            assert(scan_string(s, q) == Ok::<(Seq<char>, nat), Seq<char>>(
                (seq![s[q + 1]] + u, escape(u).len() + 1 + 2),
            ));
        } else {
            assert(s[q] == c);
            assert(seq![c] + u == t);
            assert(scan_string(s, q) == Ok::<(Seq<char>, nat), Seq<char>>(
                (seq![s[q]] + u, escape(u).len() + 1 + 1),
            ));
        }
    }
}

proof fn lemma_join_front(x: Seq<char>, rest: Seq<Seq<char>>)
    ensures
        join(seq![x] + rest) == (if rest.len() == 0 {
            x
        } else {
            x + seq![','] + join(rest)
        }),
    decreases rest.len(),
{
    let ps = seq![x] + rest;
    if rest.len() == 0 {
        assert(ps =~= seq![x]);
        assert(join(ps) == ps[0]);
    } else if rest.len() == 1 {
        assert(ps.drop_last() =~= seq![x]);
        assert(join(seq![x]) == x);
        assert(ps.last() == rest[0]);
        assert(join(rest) == rest[0]);
        assert(join(ps) == join(ps.drop_last()) + seq![','] + ps.last());
    } else {
        lemma_join_front(x, rest.drop_last());
        assert(ps.drop_last() =~= seq![x] + rest.drop_last());
        assert(ps.last() == rest.last());
        assert(join(rest) == join(rest.drop_last()) + seq![','] + rest.last());
        assert(join(ps) =~= x + seq![','] + join(rest));
    }
}

/// The first character of a value's text tells its kind.
proof fn lemma_render_first(v: JsonValue)
    ensures
        render(v).len() >= 1,
        ({
            let c = render(v)[0];
            &&& v is Array <==> c == '['
            &&& v is Object <==> c == '{'
            &&& v is Str <==> c == '"'
            &&& v is Null <==> c == 'n'
            &&& v is Number <==> (is_digit(c) || c == '-')
            &&& !is_ws(c)
        }),
{
    match v {
        JsonValue::Number(n) => match n {
            NumValue::Int(i) => {
                let mag: nat = if i < 0 { (-i) as nat } else { i as nat };
                lemma_render_nat(mag);
                assert(is_digit(render_nat(mag)[0]));
            },
            NumValue::Dec(m) => {
                let mag: int = if m < 0 { -m } else { m };
                lemma_render_nat((mag / unit()) as nat);
                assert(is_digit(render_nat((mag / unit()) as nat)[0]));
            },
        },
        _ => {},
    }
}

/// Whether the parser reads a value back from its text: every number in range,
/// and every object with at least one member and unique keys.
pub open spec fn readable(v: JsonValue) -> bool
    decreases v,
{
    match v {
        JsonValue::Number(n) => num_readable(n),
        JsonValue::Array(a) => forall|i: int| 0 <= i < a.len() ==> readable(#[trigger] a[i]),
        JsonValue::Object(m) => m.len() > 0 && keys_unique(m) && forall|i: int|
            0 <= i < m.len() ==> readable((#[trigger] m[i]).1),
        _ => true,
    }
}

#[verifier::rlimit(40)]
proof fn lemma_value_round_trip(s: Seq<char>, p: int, v: JsonValue)
    requires
        readable(v),
        holds_at(s, p, render(v)),
        ends_value(s, p + render(v).len()),
    ensures
        parse_value(s, p) == Ok::<(JsonValue, nat), Failure>((v, render(v).len())),
    decreases v, 0nat,
{
    let t = render(v);
    lemma_render_first(v);
    lemma_holds_index(s, p, t, 0);
    assert(ws_count(s, p) == 0);
    match v {
        JsonValue::Number(n) => {
            lemma_number_round_trip(s, p, n);
        },
        JsonValue::Str(x) => {
            assert(t =~= seq!['"'] + escape(x).push('"'));
            lemma_holds_split(s, p, seq!['"'], escape(x).push('"'));
            lemma_scan_round_trip(s, p + 1, x);
        },
        JsonValue::Null => {
            lemma_holds_index(s, p, t, 1);
            lemma_holds_index(s, p, t, 2);
            lemma_holds_index(s, p, t, 3);
        },
        JsonValue::Array(a) => {
            let j = join(element_texts(a));
            assert(t =~= seq!['['] + (j + seq![']']));
            lemma_holds_split(s, p, seq!['['], j + seq![']']);
            assert(element_texts(a).subrange(0, a.len() as int) =~= element_texts(a));
            assert(a.take(0) =~= Seq::<JsonValue>::empty());
            lemma_items_round_trip(s, p + 1, a, 0);
        },
        JsonValue::Object(m) => {
            let j = join(member_texts(m));
            assert(t =~= seq!['{'] + (j + seq!['}']));
            lemma_holds_split(s, p, seq!['{'], j + seq!['}']);
            assert(member_texts(m).subrange(0, m.len() as int) =~= member_texts(m));
            assert(m.take(0) =~= Seq::<(Seq<char>, JsonValue)>::empty());
            lemma_members_round_trip(s, p + 1, m, 0);
        },
    }
}

#[verifier::rlimit(40)]
proof fn lemma_items_round_trip(s: Seq<char>, q: int, a: Seq<JsonValue>, k: int)
    requires
        0 <= k <= a.len(),
        forall|i: int| 0 <= i < a.len() ==> readable(#[trigger] a[i]),
        holds_at(s, q, join(element_texts(a).subrange(k, a.len() as int)) + seq![']']),
    ensures
        parse_items(s, q, a.take(k)) == Ok::<(JsonValue, nat), Failure>(
            (JsonValue::Array(a), join(element_texts(a).subrange(k, a.len() as int)).len() + 1),
        ),
    decreases a, a.len() - k,
{
    let n = a.len() as int;
    let rest = element_texts(a).subrange(k, n);
    let j = join(rest);
    if k == n {
        assert(rest =~= Seq::<Seq<char>>::empty());
        assert(j =~= Seq::<char>::empty());
        lemma_holds_index(s, q, j + seq![']'], 0);
        assert(a.take(k) =~= a);
    } else {
        let first = render(a[k]);
        let more = element_texts(a).subrange(k + 1, n);
        assert(rest =~= seq![first] + more);
        lemma_join_front(first, more);
        lemma_render_first(a[k]);
        if k + 1 == n {
            assert(more =~= Seq::<Seq<char>>::empty());
            assert(j == first);
            lemma_holds_split(s, q, first, seq![']']);
            lemma_holds_index(s, q + first.len(), seq![']'], 0);
        } else {
            assert(j + seq![']'] =~= first + (seq![','] + (join(more) + seq![']'])));
            lemma_holds_split(s, q, first, seq![','] + (join(more) + seq![']']));
            lemma_holds_split(s, q + first.len(), seq![','], join(more) + seq![']']);
            lemma_holds_index(s, q + first.len(), seq![','] + (join(more) + seq![']']), 0);
            lemma_items_round_trip(s, q + first.len() + 1, a, k + 1);
        }
        lemma_holds_index(s, q, first, 0);
        lemma_value_round_trip(s, q, a[k]);
        assert(a.take(k).push(a[k]) =~= a.take(k + 1));
        assert(k + 1 == n ==> a.take(k + 1) =~= a);
    }
}

#[verifier::rlimit(40)]
proof fn lemma_pair_round_trip(s: Seq<char>, q: int, key: Seq<char>, val: JsonValue, after: Seq<char>)
    requires
        readable(val),
        holds_at(s, q, seq!['"'] + escape(key).push('"') + seq![':'] + render(val) + after),
        after.len() > 0,
        after[0] == ',' || after[0] == '}',
    ensures
        parse_pair(s, q) == Ok::<(Seq<char>, JsonValue, nat), Failure>(
            (key, val, (seq!['"'] + escape(key).push('"') + seq![':'] + render(val)).len()),
        ),
    decreases val, 1nat,
{
    let key_text = seq!['"'] + escape(key).push('"');
    let val_text = render(val);
    let whole = key_text + seq![':'] + val_text + after;
    assert(whole =~= key_text + (seq![':'] + (val_text + after)));
    lemma_holds_split(s, q, key_text, seq![':'] + (val_text + after));
    lemma_holds_split(s, q + key_text.len(), seq![':'], val_text + after);
    lemma_holds_split(s, q + key_text.len() + 1, val_text, after);
    lemma_holds_split(s, q, seq!['"'], escape(key).push('"'));
    lemma_holds_index(s, q, key_text, 0);
    lemma_holds_index(s, q + key_text.len(), seq![':'], 0);
    lemma_scan_round_trip(s, q + 1, key);
    lemma_holds_index(s, q + key_text.len() + 1 + val_text.len(), after, 0);
    lemma_value_round_trip(s, q + key_text.len() + 1, val);
}

#[verifier::rlimit(40)]
proof fn lemma_members_round_trip(
    s: Seq<char>,
    q: int,
    m: Seq<(Seq<char>, JsonValue)>,
    k: int,
)
    requires
        0 <= k < m.len(),
        keys_unique(m),
        forall|i: int| 0 <= i < m.len() ==> readable((#[trigger] m[i]).1),
        holds_at(s, q, join(member_texts(m).subrange(k, m.len() as int)) + seq!['}']),
    ensures
        parse_members(s, q, m.take(k)) == Ok::<(JsonValue, nat), Failure>(
            (JsonValue::Object(m), join(member_texts(m).subrange(k, m.len() as int)).len() + 1),
        ),
    decreases m, m.len() - k,
{
    let n = m.len() as int;
    let rest = member_texts(m).subrange(k, n);
    let j = join(rest);
    let key = m[k].0;
    let val = m[k].1;
    let key_text = seq!['"'] + escape(key).push('"');
    let val_text = render(val);
    let first = key_text + seq![':'] + val_text;
    assert(first == member_texts(m)[k]);
    let more = member_texts(m).subrange(k + 1, n);
    assert(rest =~= seq![first] + more);
    lemma_join_front(first, more);
    let after = if k + 1 == n { seq!['}'] } else { seq![','] + (join(more) + seq!['}']) };
    if k + 1 == n {
        assert(more =~= Seq::<Seq<char>>::empty());
    }
    assert(j + seq!['}'] =~= first + after);
    lemma_holds_split(s, q, first, after);
    lemma_holds_index(s, q + first.len(), after, 0);
    lemma_pair_round_trip(s, q, key, val, after);
    let acc = m.take(k);
    assert(!has_key(acc, key)) by {
        if has_key(acc, key) {
            let i = choose|i: int| 0 <= i < acc.len() && acc[i].0 == key;
            assert(acc[i] == m[i]);
        }
    }
    assert(insert_member(acc, key, val) =~= m.take(k + 1)) by {
        assert(m[k] == (key, val));
    }
    if k + 1 < n {
        lemma_holds_split(s, q + first.len(), seq![','], join(more) + seq!['}']);
        lemma_members_round_trip(s, q + first.len() + 1, m, k + 1);
    } else {
        assert(m.take(k + 1) =~= m);
    }
}

/// Reading the text of a readable value gives the value back, whatever follows
/// the text, where the text ends there or goes on with `,`, `]` or `}`.
pub proof fn lemma_render_parses_back(v: JsonValue)
    requires
        readable(v),
    ensures
        parse_text(render(v)) == Ok::<JsonValue, Failure>(v),
{
    let t = render(v);
    assert(t.subrange(0, t.len() as int) =~= t);
    lemma_value_round_trip(t, 0, v);
}

/// Serializing the value of a JSON text and parsing the result gives the same
/// value back, so serializing again gives the same text.
pub proof fn lemma_text_round_trip(text: Seq<char>)
    requires
        parse_text(text) is Ok,
    ensures
        parse_text(render(parse_text(text)->Ok_0)) == parse_text(text),
{
    lemma_parsed_wf(text);
    lemma_render_parses_back(parse_text(text)->Ok_0);
}

} // verus!
