//! A small JSON writer that tracks where commas go.
use vstd::prelude::*;
use crate::text::push_char;

verus! {

/// The digit of `d` in base 16, lower case.
pub open spec fn hex_digit(d: nat) -> char {
    if d < 10 {
        ('0' as u32 + d) as char
    } else {
        ('a' as u32 + (d - 10)) as char
    }
}

/// `n` in base 16, lower case, without leading zeros.
pub open spec fn hex_of(n: nat) -> Seq<char>
    decreases n,
{
    if n < 16 {
        seq![hex_digit(n)]
    } else {
        hex_of(n / 16).push(hex_digit(n % 16))
    }
}

/// `n` in base 10, without leading zeros.
pub open spec fn decimal_of(n: nat) -> Seq<char>
    decreases n,
{
    if n < 10 {
        seq![('0' as u32 + n) as char]
    } else {
        decimal_of(n / 10).push(('0' as u32 + n % 10) as char)
    }
}

/// The escape of one character: tab, carriage return, line feed, quotes and
/// backslash by a backslash sequence, other printable ASCII as it is, and
/// everything else as `\u{...}` with its code point in hexadecimal.
pub open spec fn escape_char(c: char) -> Seq<char> {
    if c == '\t' {
        seq!['\\', 't']
    } else if c == '\r' {
        seq!['\\', 'r']
    } else if c == '\n' {
        seq!['\\', 'n']
    } else if c == '\'' || c == '"' || c == '\\' {
        seq!['\\', c]
    } else if 0x20 <= c as u32 <= 0x7e {
        seq![c]
    } else {
        seq!['\\', 'u', '{'] + hex_of(c as u32 as nat) + seq!['}']
    }
}

/// The escape of every character of `s`, in order.
pub open spec fn escape(s: Seq<char>) -> Seq<char>
    decreases s.len(),
{
    if s.len() == 0 {
        Seq::empty()
    } else {
        escape(s.drop_last()) + escape_char(s.last())
    }
}

/// What a writer holds: whether the next field or array item needs a comma
/// first, and the text so far.
pub struct JsonState {
    pub object_comma: bool,
    pub array_comma: bool,
    pub buf: Seq<char>,
}

/// The state after text `t` is appended.
pub open spec fn put(j: JsonState, t: Seq<char>) -> JsonState {
    JsonState { buf: j.buf + t, ..j }
}

/// The state after a field separator: a comma unless this is the first
/// field of the object, and from then on a comma.
pub open spec fn after_object_comma(j: JsonState) -> JsonState {
    let j1 = if j.object_comma { put(j, seq![',']) } else { j };
    JsonState { object_comma: true, ..j1 }
}

/// The state after an item separator, as for fields.
pub open spec fn after_array_comma(j: JsonState) -> JsonState {
    let j1 = if j.array_comma { put(j, seq![',']) } else { j };
    JsonState { array_comma: true, ..j1 }
}

/// A quoted, escaped string.
pub open spec fn quoted(s: Seq<char>) -> Seq<char> {
    seq!['"'] + escape(s) + seq!['"']
}

pub open spec fn after_begin_object(j: JsonState) -> JsonState {
    put(JsonState { object_comma: false, ..j }, seq!['{'])
}

pub open spec fn after_begin_array(j: JsonState) -> JsonState {
    put(JsonState { array_comma: false, ..j }, seq!['['])
}

pub open spec fn after_field(j: JsonState, name: Seq<char>) -> JsonState {
    put(put(after_object_comma(j), quoted(name)), seq![':'])
}

pub open spec fn after_string(j: JsonState, value: Seq<char>) -> JsonState {
    put(after_array_comma(j), quoted(value))
}

pub open spec fn after_number(j: JsonState, value: nat) -> JsonState {
    put(after_array_comma(j), decimal_of(value))
}

/// The character of digit `d` in base 16.
fn hex_char(d: u32) -> (r: char)
    requires
        d < 16,
    ensures
        r == hex_digit(d as nat),
{
    if d < 10 {
        char_of(0x30 + d)
    } else {
        char_of(0x61 + (d - 10))
    }
}

/// The character with an ASCII code.
fn char_of(code: u32) -> (r: char)
    requires
        code < 0x80,
    ensures
        r == code as char,
{
    let b = code as u8;
    b as char
}

/// Appends `n` in base 16.
fn push_hex(s: &mut String, n: u32)
    ensures
        final(s)@ == old(s)@ + hex_of(n as nat),
    decreases n,
{
    if n >= 16 {
        push_hex(s, n / 16);
    }
    push_char(s, hex_char(n % 16));
    assert(hex_of(n as nat) == if n < 16 {
        seq![hex_digit(n as nat)]
    } else {
        hex_of((n / 16) as nat).push(hex_digit((n % 16) as nat))
    });
    assert(final(s)@ =~= old(s)@ + hex_of(n as nat));
}

/// Appends `n` in base 10.
fn push_decimal(s: &mut String, n: u64)
    ensures
        final(s)@ == old(s)@ + decimal_of(n as nat),
    decreases n,
{
    if n >= 10 {
        push_decimal(s, n / 10);
    }
    push_char(s, char_of((n % 10) as u32 + 0x30));
    assert(final(s)@ =~= old(s)@ + decimal_of(n as nat));
}

/// Appends the escape of `c`.
fn push_escaped(s: &mut String, c: char)
    ensures
        final(s)@ == old(s)@ + escape_char(c),
{
    let code = c as u32;
    if c == '\t' {
        push_char(s, '\\');
        push_char(s, 't');
    } else if c == '\r' {
        push_char(s, '\\');
        push_char(s, 'r');
    } else if c == '\n' {
        push_char(s, '\\');
        push_char(s, 'n');
    } else if c == '\'' || c == '"' || c == '\\' {
        push_char(s, '\\');
        push_char(s, c);
    } else if 0x20 <= code && code <= 0x7e {
        push_char(s, c);
    } else {
        push_char(s, '\\');
        push_char(s, 'u');
        push_char(s, '{');
        push_hex(s, code);
        push_char(s, '}');
    }
    assert(final(s)@ =~= old(s)@ + escape_char(c));
}

/// A JSON text under construction.
pub struct Json {
    pub object_comma: bool,
    pub array_comma: bool,
    pub buf: String,
}

impl View for Json {
    type V = JsonState;

    open spec fn view(&self) -> JsonState {
        JsonState { object_comma: self.object_comma, array_comma: self.array_comma, buf: self.buf@ }
    }
}

/// The state of a new writer: empty, with no comma owed.
pub open spec fn empty_json() -> JsonState {
    JsonState { object_comma: false, array_comma: false, buf: Seq::empty() }
}

impl Default for Json {
    fn default() -> (r: Json)
        ensures
            r@ == empty_json(),
    {
        Json { object_comma: false, array_comma: false, buf: String::new() }
    }
}

impl Json {
    /// Opens an object; its first field gets no comma.
    pub fn begin_object(&mut self)
        ensures
            final(self)@ == after_begin_object(old(self)@),
    {
        self.object_comma = false;
        push_char(&mut self.buf, '{');
        assert(self@.buf =~= after_begin_object(old(self)@).buf);
    }

    /// Closes an object.
    pub fn end_object(&mut self)
        ensures
            final(self)@ == put(old(self)@, seq!['}']),
    {
        push_char(&mut self.buf, '}');
        assert(self.buf@ =~= old(self).buf@ + seq!['}']);
        assert(self.object_comma == old(self).object_comma);
        assert(self@ == put(old(self)@, seq!['}']));
    }

    /// Opens an array; its first item gets no comma.
    pub fn begin_array(&mut self)
        ensures
            final(self)@ == after_begin_array(old(self)@),
    {
        self.array_comma = false;
        push_char(&mut self.buf, '[');
        assert(self@.buf =~= after_begin_array(old(self)@).buf);
    }

    /// Closes an array.
    pub fn end_array(&mut self)
        ensures
            final(self)@ == put(old(self)@, seq![']']),
    {
        push_char(&mut self.buf, ']');
        assert(self@.buf =~= put(old(self)@, seq![']']).buf);
    }

    /// Starts a field: a comma unless it is the first, its quoted name and a
    /// colon.
    pub fn field(&mut self, name: &str)
        ensures
            final(self)@ == after_field(old(self)@, name@),
    {
        self.object_comma();
        self.string_token(name);
        push_char(&mut self.buf, ':');
        assert(self@.buf =~= after_field(old(self)@, name@).buf);
    }

    /// Writes a string item: a comma unless it is the first, then the quoted
    /// value.
    pub fn string(&mut self, value: &str)
        ensures
            final(self)@ == after_string(old(self)@, value@),
    {
        self.array_comma();
        self.string_token(value);
        assert(self@.buf =~= after_string(old(self)@, value@).buf);
    }

    /// Writes `value` quoted, each character escaped.
    pub fn string_token(&mut self, value: &str)
        ensures
            final(self)@ == put(old(self)@, quoted(value@)),
    {
        push_char(&mut self.buf, '"');
        let n = value.unicode_len();
        let mut i: usize = 0;
        while i < n
            invariant
                n == value@.len(),
                i <= n,
                self.object_comma == old(self).object_comma,
                self.array_comma == old(self).array_comma,
                self.buf@ == old(self).buf@ + seq!['"'] + escape(value@.take(i as int)),
            decreases n - i,
        {
            let c = value.get_char(i);
            push_escaped(&mut self.buf, c);
            assert(value@.take(i as int + 1).drop_last() =~= value@.take(i as int));
            i = i + 1;
            assert(self.buf@ =~= old(self).buf@ + seq!['"'] + escape(value@.take(i as int)));
        }
        assert(value@.take(i as int) =~= value@);
        push_char(&mut self.buf, '"');
        assert(self@.buf =~= put(old(self)@, quoted(value@)).buf);
    }

    /// Writes a number item: a comma unless it is the first, then `value` in
    /// base 10.
    pub fn number(&mut self, value: u64)
        ensures
            final(self)@ == after_number(old(self)@, value as nat),
    {
        self.array_comma();
        push_decimal(&mut self.buf, value);
        assert(self@.buf =~= after_number(old(self)@, value as nat).buf);
    }

    /// A comma before every array item but the first.
    pub fn array_comma(&mut self)
        ensures
            final(self)@ == after_array_comma(old(self)@),
    {
        if self.array_comma {
            push_char(&mut self.buf, ',');
        }
        self.array_comma = true;
        assert(self@.buf =~= after_array_comma(old(self)@).buf);
    }

    /// A comma before every field but the first.
    pub fn object_comma(&mut self)
        ensures
            final(self)@ == after_object_comma(old(self)@),
    {
        if self.object_comma {
            push_char(&mut self.buf, ',');
        }
        self.object_comma = true;
        assert(self@.buf =~= after_object_comma(old(self)@).buf);
    }

    /// The text written so far.
    pub fn as_str(&self) -> (r: &str)
        ensures
            r@ == self.buf@,
    {
        self.buf.as_str()
    }
}

} // verus!
