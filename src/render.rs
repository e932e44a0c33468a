use vstd::prelude::*;
use crate::lexer::push_char;
use crate::value::{
    elements_view, lemma_unit_value, members_view, unit, JsonElement, JsonNum, JsonValue, NumValue,
    PLACES,
};

verus! {

broadcast use vstd::std_specs::vec::axiom_vec_index_decreases;

pub open spec fn digit_char(d: int) -> char {
    (d + '0' as int) as char
}

/// The decimal digits of `n`.
pub open spec fn render_nat(n: nat) -> Seq<char>
    decreases n,
{
    if n < 10 {
        seq![digit_char(n as int)]
    } else {
        render_nat(n / 10).push(digit_char((n % 10) as int))
    }
}

pub open spec fn render_int(i: int) -> Seq<char> {
    if i < 0 {
        seq!['-'] + render_nat((-i) as nat)
    } else {
        render_nat(i as nat)
    }
}

/// The last `k` decimal digits of `f`, with leading zeros.
pub open spec fn render_places(f: nat, k: nat) -> Seq<char>
    decreases k,
{
    if k == 0 {
        Seq::empty()
    } else {
        render_places(f / 10, (k - 1) as nat).push(digit_char((f % 10) as int))
    }
}

/// The fraction digits `f` (`k` places) with trailing zeros dropped, but at least
/// one kept: the digits left and how many there are.
pub open spec fn trim_zeros(f: nat, k: nat) -> (nat, nat)
    decreases k,
{
    if k > 1 && f % 10 == 0 {
        trim_zeros(f / 10, (k - 1) as nat)
    } else {
        (f, k)
    }
}

pub open spec fn render_fraction(f: nat, k: nat) -> Seq<char> {
    render_places(trim_zeros(f, k).0, trim_zeros(f, k).1)
}

/// A number as text: an integer in decimal, a fraction with a point and at least
/// one digit after it.
pub open spec fn render_num(n: NumValue) -> Seq<char> {
    match n {
        NumValue::Int(i) => render_int(i),
        NumValue::Dec(m) => {
            let a = if m < 0 { -m } else { m };
            (if m < 0 { seq!['-'] } else { Seq::empty() }) + render_nat((a / unit()) as nat) + seq!['.']
                + render_fraction((a % unit()) as nat, PLACES as nat)
        },
    }
}

/// The content of a string with a backslash before each `"` and `\`.
pub open spec fn escape(t: Seq<char>) -> Seq<char>
    decreases t.len(),
{
    if t.len() == 0 {
        Seq::empty()
    } else {
        let c = t.last();
        escape(t.drop_last()) + (if c == '"' || c == '\\' { seq!['\\', c] } else { seq![c] })
    }
}

pub open spec fn render_str(t: Seq<char>) -> Seq<char> {
    seq!['"'] + escape(t) + seq!['"']
}

/// The parts, separated by commas.
pub open spec fn join(parts: Seq<Seq<char>>) -> Seq<char>
    decreases parts.len(),
{
    if parts.len() == 0 {
        Seq::empty()
    } else if parts.len() == 1 {
        parts[0]
    } else {
        join(parts.drop_last()) + seq![','] + parts.last()
    }
}

/// The texts of array elements.
pub open spec fn element_texts(a: Seq<JsonValue>) -> Seq<Seq<char>>
    decreases a,
{
    Seq::new(
        a.len(),
        |i: int|
            if 0 <= i < a.len() {
                render(a[i])
            } else {
                Seq::empty()
            },
    )
}

/// The texts `"key":value` of object members.
pub open spec fn member_texts(m: Seq<(Seq<char>, JsonValue)>) -> Seq<Seq<char>>
    decreases m,
{
    Seq::new(
        m.len(),
        |i: int|
            if 0 <= i < m.len() {
                render_str(m[i].0) + seq![':'] + render(m[i].1)
            } else {
                Seq::empty()
            },
    )
}

/// A value as compact JSON text.
pub open spec fn render(v: JsonValue) -> Seq<char>
    decreases v,
{
    match v {
        JsonValue::Number(n) => render_num(n),
        JsonValue::Str(t) => render_str(t),
        JsonValue::Array(a) => seq!['['] + join(element_texts(a)) + seq![']'],
        JsonValue::Object(m) => seq!['{'] + join(member_texts(m)) + seq!['}'],
        JsonValue::Null => seq!['n', 'u', 'l', 'l'],
    }
}

fn write_nat(out: &mut String, n: u128)
    ensures
        final(out)@ == old(out)@ + render_nat(n as nat),
    decreases n,
{
    if n >= 10 {
        write_nat(out, n / 10);
    }
    let d = (n % 10) as u32;
    let c = char_of_digit(d);
    push_char(out, c);
    proof {
        if n >= 10 {
            assert(old(out)@ + render_nat((n / 10) as nat) + seq![c] =~= old(out)@ + render_nat(
                (n / 10) as nat,
            ).push(c));
        } else {
            assert(old(out)@.push(c) =~= old(out)@ + seq![c]);
        }
    }
}

fn char_of_digit(d: u32) -> (c: char)
    requires
        d < 10,
    ensures
        c == digit_char(d as int),
{
    if d == 0 {
        '0'
    } else if d == 1 {
        '1'
    } else if d == 2 {
        '2'
    } else if d == 3 {
        '3'
    } else if d == 4 {
        '4'
    } else if d == 5 {
        '5'
    } else if d == 6 {
        '6'
    } else if d == 7 {
        '7'
    } else if d == 8 {
        '8'
    } else {
        '9'
    }
}

fn write_places(out: &mut String, f: u128, k: u32)
    ensures
        final(out)@ == old(out)@ + render_places(f as nat, k as nat),
    decreases k,
{
    if k > 0 {
        write_places(out, f / 10, k - 1);
        let c = char_of_digit((f % 10) as u32);
        push_char(out, c);
        proof {
            assert(old(out)@ + render_places((f / 10) as nat, (k - 1) as nat) + seq![c] =~= old(out)@
                + render_places((f / 10) as nat, (k - 1) as nat).push(c));
        }
    } else {
        assert(old(out)@ + Seq::<char>::empty() =~= old(out)@);
    }
}

fn write_num(out: &mut String, n: &JsonNum)
    ensures
        final(out)@ == old(out)@ + render_num(n@),
{
    match n {
        JsonNum::Integer(i) => {
            if *i < 0 {
                push_char(out, '-');
                let a: u128 = (0i128 - (*i as i128)) as u128;
                write_nat(out, a);
                assert(old(out)@.push('-') + render_nat(a as nat) =~= old(out)@ + (seq!['-']
                    + render_nat(a as nat)));
            } else {
                write_nat(out, *i as u128);
            }
        },
        JsonNum::Double(_) => {
            let m = n.scaled_exec();
            proof {
                lemma_unit_value();
            }
            let a: u128 = if m < 0 {
                (0 - m) as u128
            } else {
                m as u128
            };
            let ghost start = out@;
            if m < 0 {
                push_char(out, '-');
            }
            let ghost with_sign = out@;
            write_nat(out, a / 1_000_000_000_000_000_000u128);
            push_char(out, '.');
            let mut f: u128 = a % 1_000_000_000_000_000_000u128;
            let mut k: u32 = PLACES;
            while k > 1 && f % 10 == 0
                invariant
                    1 <= k <= PLACES,
                    trim_zeros(f as nat, k as nat) == trim_zeros(
                        (a % 1_000_000_000_000_000_000u128) as nat,
                        PLACES as nat,
                    ),
                decreases k,
            {
                f = f / 10;
                k = k - 1;
            }
            let ghost before = out@;
            write_places(out, f, k);
            proof {
                let sign: Seq<char> = if m < 0 { seq!['-'] } else { Seq::empty() };
                assert(with_sign =~= start + sign);
                assert(out@ =~= start + (sign + render_nat((a / 1_000_000_000_000_000_000u128) as nat) + seq!['.']
                    + render_fraction((a % 1_000_000_000_000_000_000u128) as nat, PLACES as nat)));
            }
        },
    }
}

fn write_str(out: &mut String, t: &String)
    ensures
        final(out)@ == old(out)@ + render_str(t@),
{
    let chars = crate::lexer::chars_of(t.as_str());
    push_char(out, '"');
    let ghost start = out@;
    let mut i: usize = 0;
    while i < chars.len()
        invariant
            0 <= i <= chars.len(),
            chars@ == t@,
            out@ == start + escape(t@.take(i as int)),
        decreases chars.len() - i,
    {
        let c = chars[i];
        let ghost before = out@;
        if c == '"' || c == '\\' {
            push_char(out, '\\');
        }
        push_char(out, c);
        proof {
            let u = t@.take(i + 1);
            assert(u.drop_last() =~= t@.take(i as int));
            assert(u.last() == c);
            if c == '"' || c == '\\' {
                assert(out@ =~= before + seq!['\\', c]);
            } else {
                assert(out@ =~= before + seq![c]);
            }
        }
        i = i + 1;
    }
    push_char(out, '"');
    proof {
        assert(t@.take(chars.len() as int) =~= t@);
        assert(out@ =~= old(out)@ + render_str(t@));
    }
}

fn write_value(out: &mut String, v: &JsonElement)
    ensures
        final(out)@ == old(out)@ + render(v@),
    decreases v, 1nat,
{
    match v {
        JsonElement::JsonNumber(n) => {
            write_num(out, n);
        },
        JsonElement::JsonString(t) => {
            write_str(out, t);
        },
        JsonElement::JsonNull => {
            push_char(out, 'n');
            push_char(out, 'u');
            push_char(out, 'l');
            push_char(out, 'l');
            assert(out@ =~= old(out)@ + seq!['n', 'u', 'l', 'l']);
        },
        JsonElement::JsonArray(a) => {
            write_array(out, a);
            assert(v@ == JsonValue::Array(elements_view(a@))) by {
                assert(elements_view(a@) =~= match v@ {
                    JsonValue::Array(x) => x,
                    _ => Seq::empty(),
                });
            }
        },
        JsonElement::JsonObject(m) => {
            write_object(out, m);
            assert(v@ == JsonValue::Object(members_view(m@))) by {
                assert(members_view(m@) =~= match v@ {
                    JsonValue::Object(x) => x,
                    _ => Seq::empty(),
                });
            }
        },
    }
}

fn write_array(out: &mut String, a: &Vec<JsonElement>)
    ensures
        final(out)@ == old(out)@ + render(JsonValue::Array(elements_view(a@))),
    decreases a, 0nat,
{
    let ghost a_view = elements_view(a@);
    let ghost parts = element_texts(a_view);
    push_char(out, '[');
    let ghost start = out@;
    let mut i: usize = 0;
    proof {
        assert(parts.take(0) =~= Seq::<Seq<char>>::empty());
        assert(start + join(parts.take(0)) =~= start);
    }
    while i < a.len()
        invariant
            0 <= i <= a.len(),
            a_view.len() == a.len(),
            forall|j: int| 0 <= j < a.len() ==> a_view[j] == (#[trigger] a[j])@,
            parts.len() == a.len(),
            forall|j: int| 0 <= j < a.len() ==> parts[j] == render(#[trigger] a_view[j]),
            out@ == start + join(parts.take(i as int)),
        decreases a.len() - i,
    {
        let ghost before = out@;
        if i > 0 {
            push_char(out, ',');
        }
        let ghost mid = out@;
        proof {
            assert(decreases_to!(*a => a[i as int]));
        }
        write_value(out, &a[i]);
        proof {
            let u = parts.take(i + 1);
            assert(u.drop_last() =~= parts.take(i as int));
            assert(u.last() == render(a[i as int]@));
            if i > 0 {
                assert(out@ =~= start + join(u));
            } else {
                assert(out@ =~= start + join(u));
            }
        }
        i = i + 1;
    }
    push_char(out, ']');
    proof {
        assert(parts.take(a.len() as int) =~= parts);
        assert(render(JsonValue::Array(a_view)) == seq!['['] + join(parts) + seq![']']);
        assert(out@ =~= old(out)@ + (seq!['['] + join(parts) + seq![']']));
    }
}

fn write_object(out: &mut String, m: &Vec<(String, JsonElement)>)
    ensures
        final(out)@ == old(out)@ + render(JsonValue::Object(members_view(m@))),
    decreases m, 0nat,
{
    let ghost m_view = members_view(m@);
    let ghost parts = member_texts(m_view);
    push_char(out, '{');
    let ghost start = out@;
    let mut i: usize = 0;
    proof {
        assert(parts.take(0) =~= Seq::<Seq<char>>::empty());
        assert(start + join(parts.take(0)) =~= start);
    }
    while i < m.len()
        invariant
            0 <= i <= m.len(),
            m_view.len() == m.len(),
            forall|j: int|
                0 <= j < m.len() ==> m_view[j] == ((#[trigger] m[j]).0@, m[j].1@),
            parts.len() == m.len(),
            forall|j: int|
                0 <= j < m.len() ==> parts[j] == render_str((#[trigger] m_view[j]).0)
                    + seq![':'] + render(m_view[j].1),
            out@ == start + join(parts.take(i as int)),
        decreases m.len() - i,
    {
        if i > 0 {
            push_char(out, ',');
        }
        let ghost mid = out@;
        write_str(out, &m[i].0);
        push_char(out, ':');
        proof {
            assert(decreases_to!(*m => m[i as int]));
        }
        write_value(out, &m[i].1);
        proof {
            let u = parts.take(i + 1);
            assert(u.drop_last() =~= parts.take(i as int));
            assert(u.last() == render_str(m_view[i as int].0) + seq![':'] + render(
                m_view[i as int].1,
            ));
            assert(out@ =~= start + join(u));
        }
        i = i + 1;
    }
    push_char(out, '}');
    proof {
        assert(parts.take(m.len() as int) =~= parts);
        assert(render(JsonValue::Object(m_view)) == seq!['{'] + join(parts) + seq!['}']);
        assert(out@ =~= old(out)@ + (seq!['{'] + join(parts) + seq!['}']));
    }
}

/// The value as compact JSON text, which reads back as the same value.
pub fn serialize_json(v: &JsonElement) -> (r: String)
    ensures
        r@ == render(v@),
{
    let mut out = String::new();
    write_value(&mut out, v);
    assert(Seq::<char>::empty() + render(v@) =~= render(v@));
    out
}

/// A number as text.
pub fn num_text(n: &JsonNum) -> (r: String)
    ensures
        r@ == render_num(n@),
{
    let mut out = String::new();
    write_num(&mut out, n);
    assert(Seq::<char>::empty() + render_num(n@) =~= render_num(n@));
    out
}

} // verus!
