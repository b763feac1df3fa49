//! JSON, as far as the answer of the guard needs it: how a string is written, and how
//! strings and objects are read.
use vstd::prelude::*;
use vstd::string::*;

verus! {

// ---------------------------------------------------------------------------
// Writing
// ---------------------------------------------------------------------------
/// `serde_json::Error`: why a value could not be written.
#[verifier::external_type_specification]
#[verifier::external_body]
pub struct ExJsonError(serde_json::Error);

/// How a character is written in a JSON string: quote, backslash and the control
/// characters are escaped, every other one stands for itself.
pub open spec fn json_escaped(c: char) -> Seq<char> {
    let n = c as u32;
    if c == '"' {
        seq!['\\', '"']
    } else if c == '\\' {
        seq!['\\', '\\']
    } else if n == 0x8 {
        seq!['\\', 'b']
    } else if n == 0x9 {
        seq!['\\', 't']
    } else if n == 0xa {
        seq!['\\', 'n']
    } else if n == 0xc {
        seq!['\\', 'f']
    } else if n == 0xd {
        seq!['\\', 'r']
    } else if n < 0x10 {
        seq!['\\', 'u', '0', '0', '0', hex_digit(n)]
    } else if n < 0x20 {
        seq!['\\', 'u', '0', '0', '1', hex_digit((n - 0x10) as u32)]
    } else {
        seq![c]
    }
}

/// The hexadecimal digit for a number below sixteen, in lower case.
pub open spec fn hex_digit(n: u32) -> char {
    if n < 10 {
        (0x30 + n) as char
    } else {
        (0x57 + n) as char
    }
}

/// The characters of `s` as they are written inside a JSON string.
pub open spec fn json_body(s: Seq<char>) -> Seq<char>
    decreases s.len(),
{
    if s.len() == 0 {
        s
    } else {
        json_body(s.drop_last()) + json_escaped(s.last())
    }
}

/// `s` as a JSON string, with its quotes.
pub open spec fn json_quoted(s: Seq<char>) -> Seq<char> {
    seq!['"'] + json_body(s) + seq!['"']
}

/// `s` holds no control character below the space.
pub open spec fn printable(s: Seq<char>) -> bool {
    forall|i: int| 0 <= i < s.len() ==> #[trigger] s[i] as u32 >= 0x20
}

/// Two printable texts make one.
pub proof fn lemma_printable_concat(a: Seq<char>, b: Seq<char>)
    requires
        printable(a),
        printable(b),
    ensures
        printable(a + b),
{
}

proof fn lemma_escaped_is_printable(c: char)
    ensures
        printable(json_escaped(c)),
{
}

proof fn lemma_body_is_printable(s: Seq<char>)
    ensures
        printable(json_body(s)),
    decreases s.len(),
{
    if s.len() > 0 {
        lemma_body_is_printable(s.drop_last());
        lemma_escaped_is_printable(s.last());
        lemma_printable_concat(json_body(s.drop_last()), json_escaped(s.last()));
    }
}

/// A JSON string is printable, whatever it stands for.
pub proof fn lemma_quoted_is_printable(s: Seq<char>)
    ensures
        printable(json_quoted(s)),
{
    lemma_body_is_printable(s);
    lemma_printable_concat(seq!['"'], json_body(s));
    lemma_printable_concat(seq!['"'] + json_body(s), seq!['"']);
}

/// Escaping goes character by character, from the front as well.
proof fn lemma_body_from_front(s: Seq<char>)
    requires
        s.len() > 0,
    ensures
        json_body(s) == json_escaped(s.first()) + json_body(s.skip(1)),
    decreases s.len(),
{
    let rest = s.skip(1);
    if s.len() == 1 {
        assert(s.drop_last().len() == 0);
        assert(rest.len() == 0);
        assert(json_body(s.drop_last()) + json_escaped(s.last()) == json_escaped(s.first())
            + json_body(rest));
    } else {
        lemma_body_from_front(s.drop_last());
        assert(s.drop_last().skip(1) == rest.drop_last());
        assert(rest.last() == s.last());
        assert(json_body(s) == json_escaped(s.first()) + (json_body(rest.drop_last())
            + json_escaped(s.last())));
    }
}

// ---------------------------------------------------------------------------
// Reading
// ---------------------------------------------------------------------------
/// The value of a hexadecimal digit.
pub open spec fn hex_value(c: char) -> Option<int> {
    let n = c as u32;
    if 0x30 <= n <= 0x39 {
        Some(n - 0x30)
    } else if 0x41 <= n <= 0x46 {
        Some(n - 0x37)
    } else if 0x61 <= n <= 0x66 {
        Some(n - 0x57)
    } else {
        None
    }
}

/// The character that four hexadecimal digits stand for. Halves of surrogate pairs
/// stand for none.
pub open spec fn hex_char(a: char, b: char, c: char, d: char) -> Option<char> {
    match (hex_value(a), hex_value(b), hex_value(c), hex_value(d)) {
        (Some(w), Some(x), Some(y), Some(z)) => {
            let n = 0x1000 * w + 0x100 * x + 0x10 * y + z;
            if 0xd800 <= n <= 0xdfff {
                None
            } else {
                Some(n as char)
            }
        },
        _ => None,
    }
}

/// The character behind the backslash of a short escape.
pub open spec fn short_escape(c: char) -> Option<char> {
    if c == '"' || c == '\\' || c == '/' {
        Some(c)
    } else if c == 'b' {
        Some(0x8 as char)
    } else if c == 'f' {
        Some(0xc as char)
    } else if c == 'n' {
        Some(0xa as char)
    } else if c == 'r' {
        Some(0xd as char)
    } else if c == 't' {
        Some(0x9 as char)
    } else {
        None
    }
}

/// The character that stands first in the rest `s` of a JSON string, and the number of
/// characters that it is written with. There is none at the closing quote, nor where
/// JSON is violated.
pub open spec fn first_char(s: Seq<char>) -> Option<(char, int)> {
    if s.len() == 0 || s[0] == '"' || (s[0] as u32) < 0x20 {
        None
    } else if s[0] != '\\' {
        Some((s[0], 1))
    } else if s.len() < 2 {
        None
    } else if s[1] != 'u' {
        match short_escape(s[1]) {
            Some(c) => Some((c, 2)),
            None => None,
        }
    } else if s.len() < 6 {
        None
    } else {
        match hex_char(s[2], s[3], s[4], s[5]) {
            Some(c) => Some((c, 6)),
            None => None,
        }
    }
}

/// The text up to the closing quote, and what stands behind that quote.
pub open spec fn read_text(s: Seq<char>) -> Option<(Seq<char>, Seq<char>)>
    decreases s.len(),
{
    if s.len() > 0 && s[0] == '"' {
        Some((Seq::empty(), s.skip(1)))
    } else {
        match first_char(s) {
            Some((c, n)) => match read_text(s.skip(n)) {
                Some((text, rest)) => Some((seq![c] + text, rest)),
                None => None,
            },
            None => None,
        }
    }
}

/// The JSON string that `s` starts with, and what stands behind it.
pub open spec fn read_string(s: Seq<char>) -> Option<(Seq<char>, Seq<char>)> {
    if s.len() > 0 && s[0] == '"' {
        read_text(s.skip(1))
    } else {
        None
    }
}

/// A JSON value that is made of strings and objects.
pub enum Json {
    /// A string.
    Text(Seq<char>),
    /// An object: its names and values, in the order in which they stand.
    Object(Seq<(Seq<char>, Json)>),
}

/// The value that `s` starts with, and what stands behind it. Only strings and objects
/// are read, and no whitespace between their parts.
pub open spec fn read_value(s: Seq<char>) -> Option<(Json, Seq<char>)>
    decreases s.len(),
{
    if s.len() > 1 && s[0] == '{' && s[1] == '}' {
        Some((Json::Object(Seq::empty()), s.skip(2)))
    } else if s.len() > 0 && s[0] == '{' {
        match read_members(s.skip(1)) {
            Some((members, rest)) => Some((Json::Object(members), rest)),
            None => None,
        }
    } else {
        match read_string(s) {
            Some((text, rest)) => Some((Json::Text(text), rest)),
            None => None,
        }
    }
}

/// The members of an object up to its closing brace, and what stands behind that
/// brace. What is left behind a value is shorter than `s`, as the value is not empty.
pub open spec fn read_members(s: Seq<char>) -> Option<(Seq<(Seq<char>, Json)>, Seq<char>)>
    decreases s.len(),
{
    proof {
        lemma_string_is_read_off(s);
    }
    match read_string(s) {
        Some((name, after)) => if after.len() > 0 && after[0] == ':' {
            match read_value(after.skip(1)) {
                Some((value, rest)) => if rest.len() == 0 || rest.len() >= s.len() {
                    None
                } else if rest[0] == '}' {
                    Some((seq![(name, value)], rest.skip(1)))
                } else if rest[0] == ',' {
                    match read_members(rest.skip(1)) {
                        Some((members, end)) => Some((seq![(name, value)] + members, end)),
                        None => None,
                    }
                } else {
                    None
                },
                None => None,
            }
        } else {
            None
        },
        None => None,
    }
}

/// The value that `s` stands for, if nothing else is in it.
pub open spec fn read_json(s: Seq<char>) -> Option<Json> {
    match read_value(s) {
        Some((value, rest)) => if rest.len() == 0 {
            Some(value)
        } else {
            None
        },
        None => None,
    }
}

/// What stands behind a string is shorter.
pub proof fn lemma_string_is_read_off(s: Seq<char>)
    ensures
        read_string(s) matches Some((_, rest)) ==> rest.len() < s.len(),
{
    if s.len() > 0 {
        lemma_text_is_read_off(s.skip(1));
    }
}

proof fn lemma_text_is_read_off(s: Seq<char>)
    ensures
        read_text(s) matches Some((_, rest)) ==> rest.len() < s.len(),
    decreases s.len(),
{
    if let Some((_, n)) = first_char(s) {
        lemma_text_is_read_off(s.skip(n));
    }
}

// ---------------------------------------------------------------------------
// Reading what was written
// ---------------------------------------------------------------------------
proof fn lemma_escaped_is_read(c: char, rest: Seq<char>)
    ensures
        first_char(json_escaped(c) + rest) == Some((c, json_escaped(c).len() as int)),
        (json_escaped(c) + rest).skip(json_escaped(c).len() as int) == rest,
        (json_escaped(c) + rest)[0] != '"',
{
    let e = json_escaped(c);
    let t = e + rest;
    assert(forall|i: int| 0 <= i < e.len() ==> t[i] == e[i]);
    assert(t.skip(e.len() as int) == rest);
    assert(t[0] == e[0]);
    if e.len() > 1 {
        assert(t[1] == e[1]);
    }
    if e.len() == 6 {
        assert(t[2] == e[2] && t[3] == e[3] && t[4] == e[4] && t[5] == e[5]);
    }
}

proof fn lemma_body_is_read(text: Seq<char>, rest: Seq<char>)
    ensures
        read_text(json_body(text) + (seq!['"'] + rest)) == Some((text, rest)),
    decreases text.len(),
{
    let close = seq!['"'] + rest;
    let t = json_body(text) + close;
    if text.len() == 0 {
        assert(t == close);
        assert(close.skip(1) == rest);
        assert(text == Seq::<char>::empty());
    } else {
        let c = text.first();
        let more = json_body(text.skip(1)) + close;
        lemma_body_from_front(text);
        assert(t == json_escaped(c) + more);
        lemma_escaped_is_read(c, more);
        lemma_body_is_read(text.skip(1), rest);
        assert(seq![c] + text.skip(1) == text);
    }
}

/// Reading a text that was written as a JSON string gives the text back, whatever it
/// holds and whatever stands behind it.
pub proof fn law_string_is_read_back(text: Seq<char>, rest: Seq<char>)
    ensures
        read_string(json_quoted(text) + rest) == Some((text, rest)),
        read_value(json_quoted(text) + rest) == Some((Json::Text(text), rest)),
{
    let t = json_quoted(text) + rest;
    assert(t[0] == '"');
    assert(t.skip(1) == json_body(text) + (seq!['"'] + rest));
    lemma_body_is_read(text, rest);
}

/// A member whose value is a string, and the members behind it.
pub proof fn lemma_member_is_read(
    name: Seq<char>,
    text: Seq<char>,
    more: Seq<char>,
    members: Seq<(Seq<char>, Json)>,
    end: Seq<char>,
)
    requires
        read_members(more) == Some((members, end)),
    ensures
        read_members(
            json_quoted(name) + (seq![':'] + (json_quoted(text) + (seq![','] + more))),
        ) == Some((seq![(name, Json::Text(text))] + members, end)),
{
    let rest = seq![','] + more;
    let value = json_quoted(text) + rest;
    let after = seq![':'] + value;
    law_string_is_read_back(name, after);
    law_string_is_read_back(text, rest);
    assert(after.skip(1) == value);
    assert(rest.skip(1) == more);
}

/// The last member of an object.
pub proof fn lemma_last_member_is_read(
    name: Seq<char>,
    value: Json,
    text: Seq<char>,
    end: Seq<char>,
)
    requires
        read_value(text + (seq!['}'] + end)) == Some((value, seq!['}'] + end)),
    ensures
        read_members(json_quoted(name) + (seq![':'] + (text + (seq!['}'] + end)))) == Some(
            (seq![(name, value)], end),
        ),
{
    let rest = seq!['}'] + end;
    let after = seq![':'] + (text + rest);
    law_string_is_read_back(name, after);
    assert(after.skip(1) == text + rest);
    assert(rest.skip(1) == end);
}

/// An object with members.
pub proof fn lemma_object_is_read(
    s: Seq<char>,
    members: Seq<(Seq<char>, Json)>,
    end: Seq<char>,
)
    requires
        read_members(s) == Some((members, end)),
    ensures
        read_value(seq!['{'] + s) == Some((Json::Object(members), end)),
{
    let t = seq!['{'] + s;
    assert(t.skip(1) == s);
    assert(s[0] == '"');
    assert(t[1] == s[0]);
}

/// A text that needs no escapes is written as it is.
pub proof fn lemma_plain_body(s: Seq<char>)
    requires
        printable(s),
        !s.contains('"'),
        !s.contains('\\'),
    ensures
        json_body(s) == s,
    decreases s.len(),
{
    if s.len() > 0 {
        let start = s.drop_last();
        assert forall|c: char| start.contains(c) implies s.contains(c) by {
            let i = start.index_of(c);
            assert(s[i] == c);
        }
        lemma_plain_body(start);
        assert(s.last() == s[s.len() - 1]);
        assert(s.contains(s.last()));
        assert(json_escaped(s.last()) == seq![s.last()]);
        assert(start + seq![s.last()] == s);
    }
}

// ---------------------------------------------------------------------------
// The functions
// ---------------------------------------------------------------------------
/// `serde_json::to_string` on a string: never fails, and gives the string between
/// quotes, with what JSON asks for escaped.
#[verifier::external_body]
pub(crate) fn json_string(text: &str) -> (r: Result<String, serde_json::Error>)
    ensures
        r is Ok,
        r->Ok_0@ == json_quoted(text@),
{
    serde_json::to_string(text)
}

} // verus!
