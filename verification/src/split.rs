//! Cutting a compound shell command into the commands that it chains.
use crate::text::law_trim_is_idempotent;
use crate::text::lemma_trimmed_piece;
use crate::text::trim;
use crate::text::trimmed;
use vstd::prelude::*;
use vstd::string::*;
use vstd::utf8::*;

verus! {

// ---------------------------------------------------------------------------
// The meaning of a compound command, over its characters
// ---------------------------------------------------------------------------
/// The length of the delimiter that `s` starts with: two for `||` and `&&`, one
/// for `;` and for a `|` that no second one follows, zero where `s` starts with none.
pub open spec fn delimiter_length(s: Seq<char>) -> nat {
    if s.len() == 0 {
        0
    } else if s[0] == ';' {
        1
    } else if s[0] == '|' {
        if s.len() > 1 && s[1] == '|' {
            2
        } else {
            1
        }
    } else if s[0] == '&' && s.len() > 1 && s[1] == '&' {
        2
    } else {
        0
    }
}

/// The number of characters of `s` in front of its first delimiter.
pub open spec fn segment_length(s: Seq<char>) -> nat
    decreases s.len(),
{
    if s.len() == 0 || delimiter_length(s) > 0 {
        0
    } else {
        1 + segment_length(s.skip(1))
    }
}

/// The segments of a compound command: what stands between its delimiters, in
/// order, each without the whitespace at its ends.
pub open spec fn segments_of(s: Seq<char>) -> Seq<Seq<char>>
    decreases s.len(),
{
    let n = segment_length(s) as int;
    let d = delimiter_length(s.skip(n)) as int;
    proof {
        lemma_segment_length(s);
    }
    if d == 0 {
        seq![trimmed(s)]
    } else {
        seq![trimmed(s.take(n))] + segments_of(s.skip(n + d))
    }
}

/// A segment ends at the end of the text or in front of a delimiter, and no
/// delimiter starts inside it.
pub proof fn lemma_segment_length(s: Seq<char>)
    ensures
        segment_length(s) <= s.len(),
        forall|i: int|
            0 <= i < segment_length(s) ==> delimiter_length(#[trigger] s.skip(i)) == 0,
        segment_length(s) < s.len() <==> delimiter_length(s.skip(segment_length(s) as int)) > 0,
        delimiter_length(s.skip(segment_length(s) as int)) + segment_length(s) <= s.len(),
    decreases s.len(),
{
    assert(s.skip(0) == s);
    if s.len() > 0 && delimiter_length(s) == 0 {
        let rest = s.skip(1);
        lemma_segment_length(rest);
        let n = segment_length(rest) as int;
        assert(rest.skip(n) == s.skip(n + 1));
        assert forall|i: int| 0 <= i < segment_length(s) implies delimiter_length(
            #[trigger] s.skip(i),
        ) == 0 by {
            if i > 0 {
                assert(rest.skip(i - 1) == s.skip(i));
            }
        }
    }
}

/// What [`segment_length`] is, told from the positions of delimiters.
proof fn lemma_segment_length_is(s: Seq<char>, n: int)
    requires
        0 <= n <= s.len(),
        forall|i: int| 0 <= i < n ==> delimiter_length(#[trigger] s.skip(i)) == 0,
        n == s.len() || delimiter_length(s.skip(n)) > 0,
    ensures
        segment_length(s) == n,
    decreases n,
{
    assert(s.skip(0) == s);
    if n > 0 {
        let rest = s.skip(1);
        assert(rest.skip(n - 1) == s.skip(n));
        assert forall|i: int| 0 <= i < n - 1 implies delimiter_length(#[trigger] rest.skip(i))
            == 0 by {
            assert(rest.skip(i) == s.skip(i + 1));
        }
        lemma_segment_length_is(rest, n - 1);
    }
}

// ---------------------------------------------------------------------------
// Laws
// ---------------------------------------------------------------------------
/// No delimiter starts anywhere in `s`.
pub open spec fn delimiter_free(s: Seq<char>) -> bool {
    forall|i: int| 0 <= i < s.len() ==> delimiter_length(#[trigger] s.skip(i)) == 0
}

/// Every command has at least one segment. Each segment is trimmed and holds no
/// delimiter.
pub proof fn law_segments_are_simple(s: Seq<char>)
    ensures
        segments_of(s).len() > 0,
        forall|k: int|
            0 <= k < segments_of(s).len() ==> {
                &&& trimmed(#[trigger] segments_of(s)[k]) == segments_of(s)[k]
                &&& delimiter_free(segments_of(s)[k])
            },
    decreases s.len(),
{
    lemma_segment_length(s);
    let n = segment_length(s) as int;
    let d = delimiter_length(s.skip(n)) as int;
    let head = s.take(n);
    let first = trimmed(head);
    law_trim_is_idempotent(head);
    assert(delimiter_free(first)) by {
        let (a, b) = lemma_trimmed_piece(head);
        assert forall|i: int| 0 <= i < first.len() implies delimiter_length(#[trigger] first.skip(i))
            == 0 by {
            let whole = s.skip(a + i);
            let part = first.skip(i);
            assert(part[0] == whole[0]);
            if part.len() > 1 {
                assert(part[1] == whole[1]);
            }
            assert(delimiter_length(whole) == 0);
        }
    }
    if d == 0 {
        assert(head == s);
        assert(segments_of(s) == seq![first]);
    } else {
        let rest = segments_of(s.skip(n + d));
        law_segments_are_simple(s.skip(n + d));
        assert(segments_of(s) == seq![first] + rest);
        assert forall|k: int| 0 <= k < segments_of(s).len() implies {
            &&& trimmed(#[trigger] segments_of(s)[k]) == segments_of(s)[k]
            &&& delimiter_free(segments_of(s)[k])
        } by {
            if k > 0 {
                assert(segments_of(s)[k] == rest[k - 1]);
            }
        }
    }
}

/// A text that is trimmed and holds no delimiter is its own only segment. By
/// [`law_segments_are_simple`], so is every segment of a command.
pub proof fn law_simple_command_is_its_segment(s: Seq<char>)
    requires
        trimmed(s) == s,
        delimiter_free(s),
    ensures
        segments_of(s) == seq![s],
{
    lemma_segment_length_is(s, s.len() as int);
}

/// `op` chains `a` and `b` as a delimiter of its own: it does not merge with a
/// character that `a` ends with or `b` starts with.
pub open spec fn chains(a: Seq<char>, op: Seq<char>, b: Seq<char>) -> bool {
    ||| op == seq![';']
    ||| op == seq!['&', '&'] && !(a.len() > 0 && a.last() == '&')
    ||| op == seq!['|', '|'] && !(a.len() > 0 && a.last() == '|')
    ||| op == seq!['|'] && !(a.len() > 0 && a.last() == '|') && !(b.len() > 0 && b.first() == '|')
}

/// The segments of a chain of two commands are those of the first and then those
/// of the second.
pub proof fn law_segments_of_chain(a: Seq<char>, op: Seq<char>, b: Seq<char>)
    requires
        chains(a, op, b),
    ensures
        segments_of(a + op + b) == segments_of(a) + segments_of(b),
    decreases a.len(),
{
    let t = a + op + b;
    lemma_segment_length(a);
    let n = segment_length(a) as int;
    let d = delimiter_length(a.skip(n)) as int;
    assert forall|i: int| 0 <= i < a.len() implies delimiter_length(#[trigger] t.skip(i))
        == delimiter_length(a.skip(i)) by {
        assert(t.skip(i)[0] == a.skip(i)[0]);
        if i + 1 < a.len() {
            assert(t.skip(i)[1] == a.skip(i)[1]);
        } else {
            assert(t.skip(i)[1] == op[0]);
        }
    }
    if d == 0 {
        let rest = t.skip(n);
        assert(rest[0] == op[0]);
        if rest.len() > 1 {
            assert(rest[1] == (op + b)[1]);
        }
        assert(delimiter_length(rest) == op.len());
        lemma_segment_length_is(t, n);
        assert(t.take(n) == a);
        assert(t.skip(n + op.len()) == b);
        assert(segments_of(t) == seq![trimmed(a)] + segments_of(b));
    } else {
        lemma_segment_length_is(t, n);
        let rest = a.skip(n + d);
        assert(t.take(n) == a.take(n));
        assert(t.skip(n + d) == rest + op + b);
        if rest.len() > 0 {
            assert(rest.last() == a.last());
        }
        law_segments_of_chain(rest, op, b);
        assert(segments_of(t) == seq![trimmed(a.take(n))] + (segments_of(rest) + segments_of(b)));
        assert(segments_of(a) == seq![trimmed(a.take(n))] + segments_of(rest));
    }
}

/// Nothing but `;`, `|` and two `&` in a row cuts a command.
pub proof fn law_nothing_else_cuts(s: Seq<char>)
    requires
        forall|i: int| 0 <= i < s.len() ==> #[trigger] s[i] != ';' && s[i] != '|',
        forall|i: int, j: int|
            0 <= i && j == i + 1 && j < s.len() ==> !(#[trigger] s[i] == '&' && #[trigger] s[j]
                == '&'),
    ensures
        segments_of(s) == seq![trimmed(s)],
{
    assert forall|i: int| 0 <= i < s.len() implies delimiter_length(#[trigger] s.skip(i)) == 0 by {
        assert(s.skip(i)[0] == s[i]);
        if i + 1 < s.len() {
            assert(s.skip(i)[1] == s[i + 1]);
        }
    }
    lemma_segment_length_is(s, s.len() as int);
    assert(s.skip(s.len() as int).len() == 0);
}

/// `;`, `&&`, `||` and `|` cut a command, wherever they stand: what is in front of one
/// of them and what is behind it are cut on their own. An `&&` or a bar belongs to the
/// first characters of a longer run.
pub proof fn law_operators_cut(a: Seq<char>, b: Seq<char>)
    ensures
        segments_of(a + seq![';'] + b) == segments_of(a) + segments_of(b),
        !(a.len() > 0 && a[a.len() - 1] == '&') ==> segments_of(a + seq!['&', '&'] + b)
            == segments_of(a) + segments_of(b),
        !(a.len() > 0 && a[a.len() - 1] == '|') ==> segments_of(a + seq!['|', '|'] + b)
            == segments_of(a) + segments_of(b),
        !(a.len() > 0 && a[a.len() - 1] == '|') && !(b.len() > 0 && b[0] == '|') ==> segments_of(
            a + seq!['|'] + b,
        ) == segments_of(a) + segments_of(b),
{
    law_segments_of_chain(a, seq![';'], b);
    if !(a.len() > 0 && a[a.len() - 1] == '&') {
        law_segments_of_chain(a, seq!['&', '&'], b);
    }
    if !(a.len() > 0 && a[a.len() - 1] == '|') {
        law_segments_of_chain(a, seq!['|', '|'], b);
        if !(b.len() > 0 && b[0] == '|') {
            law_segments_of_chain(a, seq!['|'], b);
        }
    }
}

/// A bar stands alone exactly if it stands there with no bar in front of it and none
/// behind it. 124 is the code of the bar.
pub proof fn law_standalone_pipe(front: Seq<u8>, b: u8, back: Seq<u8>)
    ensures
        standalone_pipe_at(front.push(b) + back, front.len() as int) <==> b == 124 && !(front.len()
            > 0 && front[front.len() - 1] == 124) && !(back.len() > 0 && back[0] == 124),
        !standalone_pipe_at(front, front.len() as int),
        !standalone_pipe_at(front, -1),
{
    let bytes = front.push(b) + back;
    let i = front.len() as int;
    assert(bytes[i] == b);
    if i > 0 {
        assert(bytes[i - 1] == front[i - 1]);
    }
    if back.len() > 0 {
        assert(bytes[i + 1] == back[0]);
    }
}

// ---------------------------------------------------------------------------
// The same, over the bytes that the characters are encoded in
// ---------------------------------------------------------------------------
/// A `|` stands at `i`, with no other `|` beside it.
pub open spec fn standalone_pipe_at(bytes: Seq<u8>, i: int) -> bool {
    &&& 0 <= i < bytes.len()
    &&& bytes[i] == 0x7c
    &&& !(i > 0 && bytes[i - 1] == 0x7c)
    &&& !(i + 1 < bytes.len() && bytes[i + 1] == 0x7c)
}

/// The length of `||`, `&&` or `;` at `i`, zero where none of them stands there.
spec fn chain_length_at(bytes: Seq<u8>, i: int) -> nat {
    if !(0 <= i < bytes.len()) {
        0
    } else if bytes[i] == 0x3b {
        1
    } else if (bytes[i] == 0x7c || bytes[i] == 0x26) && i + 1 < bytes.len() && bytes[i + 1]
        == bytes[i] {
        2
    } else {
        0
    }
}

/// The length of the delimiter at `i`, zero where none stands there.
spec fn delimiter_length_at(bytes: Seq<u8>, i: int) -> nat {
    if 0 <= i < bytes.len() && bytes[i] == 0x7c && !(i + 1 < bytes.len() && bytes[i + 1] == 0x7c) {
        1
    } else {
        chain_length_at(bytes, i)
    }
}

/// The number of bytes in front of the `i`-th character.
spec fn offset(chars: Seq<char>, i: int) -> int {
    encode_utf8(chars.take(i)).len() as int
}

/// Encoding goes character by character.
proof fn lemma_encode_concat(a: Seq<char>, b: Seq<char>)
    ensures
        encode_utf8(a + b) == encode_utf8(a) + encode_utf8(b),
    decreases a.len(),
{
    if a.len() == 0 {
        assert(a + b == b);
        assert(encode_utf8(a) + encode_utf8(b) == encode_utf8(b));
    } else {
        assert((a + b).drop_first() == a.drop_first() + b);
        lemma_encode_concat(a.drop_first(), b);
        assert(encode_utf8(a + b) == encode_utf8(a) + encode_utf8(b));
    }
}

/// The first byte of a text tells whether its first character is one of ASCII,
/// and is that character then.
proof fn lemma_first_byte(chars: Seq<char>)
    requires
        chars.len() > 0,
    ensures
        encode_utf8(chars).len() > 0,
        (chars[0] as u32) < 0x80 <==> encode_utf8(chars)[0] < 0x80,
        (chars[0] as u32) < 0x80 ==> encode_utf8(chars)[0] == chars[0] as u32,
        (chars[0] as u32) < 0x80 ==> encode_utf8(chars.take(1)).len() == 1,
{
    let bytes = encode_utf8(chars);
    let b = bytes[0];
    encode_utf8_first_scalar(chars);
    char_is_scalar(chars[0]);
    assert(b <= 0x7f ==> b & 0x7f == b) by (bit_vector);
    assert(chars.take(1).drop_first() =~= Seq::<char>::empty());
    assert(chars.take(1)[0] == chars[0]);
    reveal_with_fuel(encode_utf8, 2);
}

/// The bytes of a text are those of its first `i` characters and then those of
/// the others.
proof fn lemma_offset(chars: Seq<char>, i: int)
    requires
        0 <= i <= chars.len(),
    ensures
        encode_utf8(chars) == encode_utf8(chars.take(i)) + encode_utf8(chars.skip(i)),
{
    assert(chars.take(i) + chars.skip(i) == chars);
    lemma_encode_concat(chars.take(i), chars.skip(i));
}

/// Later characters start at later bytes; one of ASCII takes one byte.
proof fn lemma_offset_order(chars: Seq<char>, i: int, j: int)
    requires
        0 <= i < j <= chars.len(),
    ensures
        offset(chars, i) < offset(chars, j),
        (chars[i] as u32) < 0x80 ==> offset(chars, i + 1) == offset(chars, i) + 1,
{
    let upto = chars.take(j);
    lemma_offset(upto, i);
    assert(upto.take(i) == chars.take(i));
    lemma_first_byte(upto.skip(i));
    let next = chars.take(i + 1);
    lemma_offset(next, i);
    assert(next.take(i) == chars.take(i));
    lemma_first_byte(next.skip(i));
    assert(next.skip(i).take(1) == next.skip(i));
}

/// The delimiter at a character is the one at the byte where that character starts.
proof fn lemma_delimiter_at(chars: Seq<char>, i: int)
    requires
        0 <= i < chars.len(),
    ensures
        delimiter_length_at(encode_utf8(chars), offset(chars, i)) == delimiter_length(
            chars.skip(i),
        ),
{
    let bytes = encode_utf8(chars);
    let q = offset(chars, i);
    lemma_offset(chars, i);
    lemma_first_byte(chars.skip(i));
    assert(bytes[q] == encode_utf8(chars.skip(i))[0]);
    assert(chars.skip(i)[0] == chars[i]);
    lemma_offset_order(chars, i, i + 1);
    if i + 1 < chars.len() {
        lemma_offset(chars, i + 1);
        lemma_first_byte(chars.skip(i + 1));
        assert(chars.skip(i)[1] == chars[i + 1]);
        assert(chars.skip(i + 1)[0] == chars[i + 1]);
        if (chars[i] as u32) < 0x80 {
            assert(bytes[q + 1] == encode_utf8(chars.skip(i + 1))[0]);
        }
    } else {
        assert(chars.take(i + 1) == chars);
    }
    lemma_code(chars[i]);
    if i + 1 < chars.len() {
        lemma_code(chars[i + 1]);
    }
}

/// The code of a character tells the delimiter characters apart.
proof fn lemma_code(c: char)
    ensures
        c as u32 == 0x3b <==> c == ';',
        c as u32 == 0x7c <==> c == '|',
        c as u32 == 0x26 <==> c == '&',
{
}

/// The first delimiter byte is where the first segment ends.
proof fn lemma_first_delimiter(chars: Seq<char>, p: int)
    requires
        0 <= p < encode_utf8(chars).len(),
        delimiter_length_at(encode_utf8(chars), p) > 0,
        forall|j: int| 0 <= j < p ==> #[trigger] delimiter_length_at(encode_utf8(chars), j) == 0,
    ensures
        is_char_boundary(encode_utf8(chars), p),
        offset(chars, segment_length(chars) as int) == p,
        segment_length(chars) < chars.len(),
        delimiter_length(chars.skip(segment_length(chars) as int)) == delimiter_length_at(
            encode_utf8(chars),
            p,
        ),
{
    let bytes = encode_utf8(chars);
    encode_utf8_valid_utf8(chars);
    encode_utf8_decode_utf8(chars);
    is_char_boundary_iff_not_is_continuation_byte(bytes, p);
    assert(!is_continuation_byte(bytes[p]));
    valid_utf8_split(bytes, p);
    decode_utf8_split(bytes, p);
    let head = decode_utf8(bytes.subrange(0, p));
    let tail = decode_utf8(bytes.subrange(p, bytes.len() as int));
    decode_utf8_encode_utf8(bytes.subrange(0, p));
    decode_utf8_encode_utf8(bytes.subrange(p, bytes.len() as int));
    assert(chars == head + tail);
    let n = head.len() as int;
    assert(chars.take(n) == head);
    assert(offset(chars, n) == p);
    assert(tail.len() > 0);
    lemma_delimiter_at(chars, n);
    assert forall|i: int| 0 <= i < n implies delimiter_length(#[trigger] chars.skip(i)) == 0 by {
        lemma_offset_order(chars, i, n);
        lemma_delimiter_at(chars, i);
    }
    lemma_segment_length_is(chars, n);
}

/// Where no byte starts a delimiter, the whole text is one segment.
proof fn lemma_no_delimiter(chars: Seq<char>)
    requires
        forall|j: int|
            0 <= j < encode_utf8(chars).len() ==> #[trigger] delimiter_length_at(
                encode_utf8(chars),
                j,
            ) == 0,
    ensures
        segment_length(chars) == chars.len(),
{
    assert forall|i: int| 0 <= i < chars.len() implies delimiter_length(#[trigger] chars.skip(i))
        == 0 by {
        lemma_delimiter_at(chars, i);
        lemma_offset(chars, i);
        lemma_first_byte(chars.skip(i));
    }
    lemma_segment_length_is(chars, chars.len() as int);
}

/// Every character starts at a character boundary.
proof fn lemma_offset_is_boundary(chars: Seq<char>, i: int)
    requires
        0 <= i <= chars.len(),
    ensures
        is_char_boundary(encode_utf8(chars), offset(chars, i)),
        offset(chars, i) <= encode_utf8(chars).len(),
{
    let bytes = encode_utf8(chars);
    let rest = encode_utf8(chars.skip(i));
    lemma_offset(chars, i);
    encode_utf8_valid_utf8(chars);
    if i < chars.len() {
        lemma_first_byte(chars.skip(i));
        encode_utf8_first_scalar(chars.skip(i));
        assert(bytes[offset(chars, i)] == rest[0]);
        is_char_boundary_iff_not_is_continuation_byte(bytes, offset(chars, i));
        assert(!is_continuation_byte(rest[0]));
    } else {
        assert(chars.take(i) == chars);
        is_char_boundary_start_end_of_seq(bytes);
    }
}

/// A delimiter takes as many bytes as characters.
proof fn lemma_delimiter_offset(chars: Seq<char>, n: int)
    requires
        0 <= n <= chars.len(),
    ensures
        n + delimiter_length(chars.skip(n)) <= chars.len(),
        offset(chars, n + delimiter_length(chars.skip(n)) as int) == offset(chars, n)
            + delimiter_length(chars.skip(n)),
{
    let d = delimiter_length(chars.skip(n));
    if d >= 1 {
        assert(chars.skip(n)[0] == chars[n]);
        lemma_offset_order(chars, n, n + 1);
    }
    if d == 2 {
        assert(chars.skip(n)[1] == chars[n + 1]);
        lemma_offset_order(chars, n + 1, n + 2);
    }
}

// ---------------------------------------------------------------------------
// The functions
// ---------------------------------------------------------------------------
/// Cuts `s` in two at byte `p`, where its `n`-th character starts.
fn cut<'a>(s: &'a str, p: usize, Ghost(n): Ghost<int>) -> (r: (&'a str, &'a str))
    requires
        0 <= n <= s@.len(),
        p == offset(s@, n),
    ensures
        r.0@ == s@.take(n),
        r.1@ == s@.skip(n),
{
    proof {
        lemma_offset_is_boundary(s@, n);
        lemma_offset(s@, n);
    }
    let r = s.split_at(p);
    proof {
        assert(r.0.spec_bytes() == encode_utf8(s@.take(n)));
        assert(r.1.spec_bytes() == encode_utf8(s@.skip(n)));
        encode_utf8_decode_utf8(r.0@);
        encode_utf8_decode_utf8(r.1@);
        encode_utf8_decode_utf8(s@.take(n));
        encode_utf8_decode_utf8(s@.skip(n));
    }
    r
}

/// Finds the first `|` that is no part of `||`. The result is a position of a byte.
pub fn find_standalone_pipe(s: &str) -> (r: Option<usize>)
    ensures
        match r {
            Some(p) => {
                &&& standalone_pipe_at(s.spec_bytes(), p as int)
                &&& forall|j: int| 0 <= j < p ==> !standalone_pipe_at(s.spec_bytes(), j)
            },
            None => forall|j: int| !standalone_pipe_at(s.spec_bytes(), j),
        },
{
    let bytes = s.as_bytes();
    let n: usize = bytes.len();
    let mut i: usize = 0;
    while i < n
        invariant
            bytes@ == s.spec_bytes(),
            n == bytes@.len(),
            i <= n,
            forall|j: int| 0 <= j < i ==> !standalone_pipe_at(bytes@, j),
        decreases n - i,
    {
        if bytes[i] == 0x7c {
            let prev_is_pipe: bool = i > 0 && bytes[i - 1] == 0x7c;
            let next_is_pipe: bool = i + 1 < n && bytes[i + 1] == 0x7c;
            if !prev_is_pipe && !next_is_pipe {
                return Some(i);
            }
        }
        i += 1;
    }
    None
}

/// Finds the first `||`, `&&` or `;`: the position of its first byte, and its length.
fn find_chain(s: &str) -> (r: Option<(usize, usize)>)
    ensures
        match r {
            Some((p, len)) => {
                &&& p < s.spec_bytes().len()
                &&& len == chain_length_at(s.spec_bytes(), p as int)
                &&& len > 0
                &&& forall|j: int| 0 <= j < p ==> chain_length_at(s.spec_bytes(), j) == 0
            },
            None => forall|j: int| chain_length_at(s.spec_bytes(), j) == 0,
        },
{
    let bytes = s.as_bytes();
    let n: usize = bytes.len();
    let mut i: usize = 0;
    while i < n
        invariant
            bytes@ == s.spec_bytes(),
            n == bytes@.len(),
            i <= n,
            forall|j: int| 0 <= j < i ==> chain_length_at(bytes@, j) == 0,
        decreases n - i,
    {
        let b: u8 = bytes[i];
        if b == 0x3b {
            return Some((i, 1));
        }
        if (b == 0x7c || b == 0x26) && i + 1 < n && bytes[i + 1] == b {
            return Some((i, 2));
        }
        i += 1;
    }
    None
}

/// Finds the first delimiter of any kind: the position of its first byte, and its length.
fn next_delimiter(s: &str) -> (r: Option<(usize, usize)>)
    ensures
        match r {
            Some((p, len)) => {
                &&& is_char_boundary(s.spec_bytes(), p as int)
                &&& segment_length(s@) < s@.len()
                &&& p == offset(s@, segment_length(s@) as int)
                &&& len == delimiter_length(s@.skip(segment_length(s@) as int))
            },
            None => segment_length(s@) == s@.len(),
        },
{
    let chain = find_chain(s);
    let pipe = find_standalone_pipe(s);
    let found: Option<(usize, usize)> = match (chain, pipe) {
        (Some((p, len)), Some(q)) => {
            if q < p {
                Some((q, 1))
            } else {
                Some((p, len))
            }
        },
        (Some((p, len)), None) => Some((p, len)),
        (None, Some(q)) => Some((q, 1)),
        (None, None) => None,
    };
    proof {
        let bytes = s.spec_bytes();
        let end = match found {
            Some((p, _len)) => p as int,
            None => bytes.len() as int,
        };
        assert forall|j: int| 0 <= j < end implies #[trigger] delimiter_length_at(bytes, j)
            == 0 by {
            assert(chain_length_at(bytes, j) == 0);
            assert(chain_length_at(bytes, j - 1) == 0);
            assert(!standalone_pipe_at(bytes, j));
        }
        match found {
            Some((p, len)) => {
                assert(len == delimiter_length_at(bytes, p as int));
                lemma_first_delimiter(s@, p as int);
            },
            None => {
                lemma_no_delimiter(s@);
            },
        }
    }
    found
}

/// Cuts a compound command at `&&`, `||`, `;` and `|` and trims the segments.
/// Quotes are not looked at.
pub fn split_compound_command<'a>(command: &'a str) -> (r: Vec<&'a str>)
    ensures
        r.deep_view() == segments_of(command@),
{
    let mut segments: Vec<&'a str> = Vec::new();
    let mut rest: &'a str = command;
    assert(segments.deep_view() + segments_of(rest@) == segments_of(command@));
    loop
        invariant
            segments.deep_view() + segments_of(rest@) == segments_of(command@),
        decreases rest@.len(),
    {
        let ghost before = segments.deep_view();
        let ghost n = segment_length(rest@) as int;
        proof {
            lemma_segment_length(rest@);
        }
        match next_delimiter(rest) {
            Some((pos, len)) => {
                let (head, from_delimiter) = cut(rest, pos, Ghost(n));
                let segment = trim(head);
                segments.push(segment);
                proof {
                    assert(from_delimiter@.skip(0) == from_delimiter@);
                    assert(offset(from_delimiter@, 0) == 0);
                    lemma_delimiter_offset(from_delimiter@, 0);
                    assert(from_delimiter@.skip(len as int) == rest@.skip(n + len));
                }
                let (_, tail) = cut(from_delimiter, len, Ghost(len as int));
                assert(segments.deep_view() == before.push(segment@));
                assert(before + (seq![segment@] + segments_of(tail@)) == segments.deep_view()
                    + segments_of(tail@));
                rest = tail;
            },
            None => {
                let segment = trim(rest);
                segments.push(segment);
                assert(segments.deep_view() == before.push(segment@));
                assert(before.push(segment@) == before + seq![segment@]);
                return segments;
            },
        }
    }
}

} // verus!
