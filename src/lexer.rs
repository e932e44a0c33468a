use vstd::prelude::*;

verus! {

/// Whether `c` has the Unicode `White_Space` property.
pub open spec fn is_ws(c: char) -> bool {
    let u = c as u32;
    ||| 0x9 <= u <= 0xd
    ||| u == 0x20
    ||| u == 0x85
    ||| u == 0xa0
    ||| u == 0x1680
    ||| 0x2000 <= u <= 0x200a
    ||| u == 0x2028
    ||| u == 0x2029
    ||| u == 0x202f
    ||| u == 0x205f
    ||| u == 0x3000
}

/// Relies on `char::is_whitespace`: true exactly for the characters with the
/// Unicode `White_Space` property.
#[verifier::external_body]
pub(crate) fn is_whitespace(c: char) -> (r: bool)
    ensures
        r == is_ws(c),
{
    c.is_whitespace()
}

/// Relies on `str::chars`: yields the characters of the text in order.
#[verifier::external_body]
pub(crate) fn chars_of(s: &str) -> (r: Vec<char>)
    ensures
        r@ == s@,
{
    s.chars().collect()
}

/// Relies on `String::push`: appends one character.
#[verifier::external_body]
pub(crate) fn push_char(s: &mut String, c: char)
    ensures
        final(s)@ == old(s)@.push(c),
{
    s.push(c)
}

/// A cursor over the characters of a text.
pub struct JsonLexer {
    chars: Vec<char>,
    ptr: usize,
}

impl JsonLexer {
    /// The characters of the text.
    pub closed spec fn text(&self) -> Seq<char> {
        self.chars@
    }

    /// The position of the cursor, a character index.
    pub closed spec fn pos(&self) -> int {
        self.ptr as int
    }

    pub closed spec fn wf(&self) -> bool {
        self.ptr <= self.chars.len()
    }

    /// The cursor never passes the end of the text.
    pub proof fn lemma_wf(&self)
        requires
            self.wf(),
        ensures
            0 <= self.pos() <= self.text().len(),
    {
    }

    /// A cursor at the start of `json`.
    pub fn new(json: &str) -> (r: JsonLexer)
        ensures
            r.wf(),
            r.text() == json@,
            r.pos() == 0,
    {
        JsonLexer { chars: chars_of(json), ptr: 0 }
    }

    pub fn ptr(&self) -> (r: usize)
        ensures
            r == self.pos(),
    {
        self.ptr
    }

    /// The character under the cursor, which then moves past it; `None` at the end.
    pub fn next(&mut self) -> (r: Option<char>)
        requires
            old(self).wf(),
        ensures
            final(self).wf(),
            final(self).text() == old(self).text(),
            old(self).pos() < old(self).text().len() ==> r == Some(old(self).text()[old(self).pos()])
                && final(self).pos() == old(self).pos() + 1,
            old(self).pos() >= old(self).text().len() ==> r is None && final(self).pos()
                == old(self).pos(),
    {
        if self.ptr < self.chars.len() {
            let ch = self.chars[self.ptr];
            self.ptr = self.ptr + 1;
            Some(ch)
        } else {
            None
        }
    }

    /// Moves the cursor one character back.
    pub fn back(&mut self)
        requires
            old(self).wf(),
            old(self).pos() > 0,
        ensures
            final(self).wf(),
            final(self).text() == old(self).text(),
            final(self).pos() == old(self).pos() - 1,
    {
        self.ptr = self.ptr - 1;
    }

    /// The characters from `start` to `end` (to the end of the text where `end` is
    /// `None`), where that is a range of the text.
    pub fn slice(&self, start: usize, end: Option<usize>) -> (r: Option<Vec<char>>)
        ensures
            ({
                let e = match end {
                    Some(e) => e as int,
                    None => self.text().len() as int,
                };
                &&& r is Some <==> start <= e <= self.text().len()
                &&& r matches Some(v) ==> v@ == self.text().subrange(start as int, e)
            }),
    {
        let end = match end {
            Some(e) => e,
            None => self.chars.len(),
        };
        if end <= self.chars.len() && start <= end {
            let mut v: Vec<char> = Vec::new();
            let mut i: usize = start;
            while i < end
                invariant
                    start <= i <= end <= self.chars.len(),
                    v@ == self.chars@.subrange(start as int, i as int),
                decreases end - i,
            {
                v.push(self.chars[i]);
                i = i + 1;
            }
            Some(v)
        } else {
            None
        }
    }

    /// Moves the cursor to the start.
    pub fn reset(&mut self)
        requires
            old(self).wf(),
        ensures
            final(self).wf(),
            final(self).text() == old(self).text(),
            final(self).pos() == 0,
    {
        self.ptr = 0;
    }
}

} // verus!
