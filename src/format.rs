use vstd::prelude::*;
use crate::lexer::{chars_of, is_whitespace, is_ws, push_char};

verus! {

/// Minifying state after some characters: inside a string literal, whether the
/// next character is escaped, and the output so far.
pub open spec fn minimize_state(s: Seq<char>) -> (bool, bool, Seq<char>)
    decreases s.len(),
{
    if s.len() == 0 {
        (false, false, Seq::empty())
    } else {
        let (in_str, skip, out) = minimize_state(s.drop_last());
        let c = s.last();
        if skip {
            (in_str, false, out.push(c))
        } else if in_str {
            if c == '\\' {
                (true, true, out.push(c))
            } else if c == '"' {
                (false, false, out.push(c))
            } else {
                (true, false, out.push(c))
            }
        } else if is_ws(c) {
            (false, false, out)
        } else {
            (c == '"', false, out.push(c))
        }
    }
}

/// The text without the whitespace outside string literals.
pub open spec fn minimize(s: Seq<char>) -> Seq<char> {
    minimize_state(s).2
}

/// Removes the whitespace outside string literals; a backslash inside a string
/// literal keeps the next character in it.
pub fn minimize_json(json: &str) -> (r: String)
    ensures
        r@ == minimize(json@),
{
    let chars = chars_of(json);
    let mut result = String::new();
    let mut in_str_literal = false;
    let mut skip_char = false;
    let mut i: usize = 0;
    proof {
        assert(json@.take(0) =~= Seq::<char>::empty());
    }
    while i < chars.len()
        invariant
            0 <= i <= chars.len(),
            chars@ == json@,
            minimize_state(json@.take(i as int)) == (in_str_literal, skip_char, result@),
        decreases chars.len() - i,
    {
        let ch = chars[i];
        proof {
            assert(json@.take(i + 1).drop_last() =~= json@.take(i as int));
            assert(json@.take(i + 1).last() == ch);
        }
        if skip_char {
            skip_char = false;
            push_char(&mut result, ch);
        } else if in_str_literal {
            if ch == '\\' {
                skip_char = true;
            } else if ch == '"' {
                in_str_literal = false;
            }
            push_char(&mut result, ch);
        } else if !is_whitespace(ch) {
            in_str_literal = ch == '"';
            push_char(&mut result, ch);
        }
        i = i + 1;
    }
    proof {
        assert(json@.take(chars.len() as int) =~= json@);
    }
    result
}

#[derive(Clone, Copy, Debug, PartialEq, Eq)]
pub struct PrettySetting {
    pub indent_width: u32,
}

/// `n` spaces.
pub open spec fn spaces(n: nat) -> Seq<char> {
    Seq::new(n, |i: int| ' ')
}

/// Indenting state after some characters of minified text: the nesting depth,
/// whether the last line break came from a comma, and the output so far.
pub open spec fn pretty_state(s: Seq<char>, width: nat) -> (nat, bool, Seq<char>)
    decreases s.len(),
{
    if s.len() == 0 {
        (0, false, Seq::empty())
    } else {
        let (level, last_comma, out) = pretty_state(s.drop_last(), width);
        let c = s.last();
        if c == '"' {
            (level, false, out.push(c))
        } else if c == ',' {
            (level, true, out + seq![',', '\n'] + spaces(level * width))
        } else if c == '[' || c == '{' {
            (level + 1, false, out + seq![c, '\n'] + spaces((level + 1) * width))
        } else if c == ']' || c == '}' {
            let up = if level > 0 { (level - 1) as nat } else { 0 };
            let out2 = if last_comma { out } else { out + seq!['\n'] + spaces(up * width) };
            (up, last_comma, out2.push(c))
        } else if c == ':' {
            (level, last_comma, out + seq![':', ' '])
        } else {
            (level, last_comma, out.push(c))
        }
    }
}

/// The minified text with a line break after each `,`, `[` and `{` and before
/// each `]` and `}` that does not follow a comma's line break, each line indented
/// by `width` spaces per nesting level, a space after each `:`, and a final line
/// break. Characters inside string literals are treated like all others, and a
/// closing bracket at depth zero leaves the depth at zero.
pub open spec fn pretty(s: Seq<char>, width: nat) -> Seq<char> {
    pretty_state(minimize(s), width).2.push('\n')
}

fn push_spaces(out: &mut String, n: u128)
    ensures
        final(out)@ == old(out)@ + spaces(n as nat),
{
    let mut i: u128 = 0;
    while i < n
        invariant
            0 <= i <= n,
            out@ == old(out)@ + spaces(i as nat),
        decreases n - i,
    {
        push_char(out, ' ');
        assert(old(out)@ + spaces((i + 1) as nat) =~= (old(out)@ + spaces(i as nat)).push(' '));
        i = i + 1;
    }
}

/// Indents the JSON text (see `pretty`).
pub fn pretty_json(json: &str, setting: &PrettySetting) -> (r: String)
    ensures
        r@ == pretty(json@, setting.indent_width as nat),
{
    let compressed = minimize_json(json);
    let chars = chars_of(compressed.as_str());
    let ghost m = compressed@;
    let ghost w = setting.indent_width as nat;
    let width = setting.indent_width as u128;
    let mut curr_indentlv: u64 = 0;
    let mut result = String::new();
    let mut last_comma = false;
    let mut i: usize = 0;
    proof {
        assert(m.take(0) =~= Seq::<char>::empty());
    }
    while i < chars.len()
        invariant
            0 <= i <= chars.len(),
            chars@ == m,
            m == minimize(json@),
            w == setting.indent_width as nat,
            width == w,
            curr_indentlv <= i,
            pretty_state(m.take(i as int), w) == (curr_indentlv as nat, last_comma, result@),
        decreases chars.len() - i,
    {
        let ch = chars[i];
        let ghost before = result@;
        proof {
            let l = curr_indentlv as int + 1;
            let wd = width as int;
            assert(l * wd <= 0x1_0000_0000_0000_0000 * 0x1_0000_0000) by (nonlinear_arith)
                requires
                    0 <= l <= 0x1_0000_0000_0000_0000,
                    0 <= wd <= 0x1_0000_0000,
            ;
            assert((l - 1) * wd <= l * wd) by (nonlinear_arith)
                requires
                    1 <= l,
                    0 <= wd,
            ;
            assert(m.take(i + 1).drop_last() =~= m.take(i as int));
            assert(m.take(i + 1).last() == ch);
        }
        if ch == '"' {
            push_char(&mut result, ch);
            last_comma = false;
        } else if ch == ',' {
            push_char(&mut result, ch);
            push_char(&mut result, '\n');
            push_spaces(&mut result, (curr_indentlv as u128) * width);
            last_comma = true;
            assert(result@ =~= before + seq![',', '\n'] + spaces(curr_indentlv as nat * w));
        } else if ch == '[' || ch == '{' {
            push_char(&mut result, ch);
            push_char(&mut result, '\n');
            curr_indentlv = curr_indentlv + 1;
            push_spaces(&mut result, (curr_indentlv as u128) * width);
            last_comma = false;
            assert(result@ =~= before + seq![ch, '\n'] + spaces(curr_indentlv as nat * w));
        } else if ch == ']' || ch == '}' {
            let ghost old_level = curr_indentlv as int;
            if curr_indentlv > 0 {
                curr_indentlv = curr_indentlv - 1;
            }
            proof {
                let k = curr_indentlv as int;
                let wd = width as int;
                assert(k * wd <= old_level * wd) by (nonlinear_arith)
                    requires
                        0 <= k <= old_level,
                        0 <= wd,
                ;
            }
            if !last_comma {
                push_char(&mut result, '\n');
                push_spaces(&mut result, (curr_indentlv as u128) * width);
                assert(result@ =~= before + seq!['\n'] + spaces(curr_indentlv as nat * w));
            }
            push_char(&mut result, ch);
        } else if ch == ':' {
            push_char(&mut result, ch);
            push_char(&mut result, ' ');
            assert(result@ =~= before + seq![':', ' ']);
        } else {
            push_char(&mut result, ch);
        }
        i = i + 1;
    }
    proof {
        assert(m.take(chars.len() as int) =~= m);
    }
    push_char(&mut result, '\n');
    result
}

} // verus!
