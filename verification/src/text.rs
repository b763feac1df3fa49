//! The few operations on text that the guard is built from: trimming, cutting
//! into fields, searching and comparing. Positions are positions of characters.
use vstd::prelude::*;
use vstd::string::*;
use vstd::utf8::encode_utf8;
use vstd::utf8::encode_utf8_decode_utf8;

verus! {

/// The characters with the Unicode property White_Space.
pub open spec fn whitespace(c: char) -> bool {
    let n = c as u32;
    ||| 0x9 <= n <= 0xd
    ||| n == 0x20
    ||| n == 0x85
    ||| n == 0xa0
    ||| n == 0x1680
    ||| 0x2000 <= n <= 0x200a
    ||| n == 0x2028
    ||| n == 0x2029
    ||| n == 0x202f
    ||| n == 0x205f
    ||| n == 0x3000
}

/// `s` without the whitespace that it starts with.
pub open spec fn trimmed_start(s: Seq<char>) -> Seq<char>
    decreases s.len(),
{
    if s.len() > 0 && whitespace(s.first()) {
        trimmed_start(s.skip(1))
    } else {
        s
    }
}

/// `s` without the whitespace that it ends with.
pub open spec fn trimmed_end(s: Seq<char>) -> Seq<char>
    decreases s.len(),
{
    if s.len() > 0 && whitespace(s.last()) {
        trimmed_end(s.drop_last())
    } else {
        s
    }
}

/// `s` without the whitespace at its two ends.
pub open spec fn trimmed(s: Seq<char>) -> Seq<char> {
    trimmed_end(trimmed_start(s))
}

/// `s` without the copies of `c` that it ends with.
pub open spec fn without_trailing(s: Seq<char>, c: char) -> Seq<char>
    decreases s.len(),
{
    if s.len() > 0 && s.last() == c {
        without_trailing(s.drop_last(), c)
    } else {
        s
    }
}

/// `needle` stands in `hay` at position `i`.
pub open spec fn occurs_at(hay: Seq<char>, needle: Seq<char>, i: int) -> bool {
    &&& 0 <= i
    &&& i + needle.len() <= hay.len()
    &&& hay.subrange(i, i + needle.len()) == needle
}

/// `needle` stands somewhere in `hay`.
pub open spec fn occurs_in(hay: Seq<char>, needle: Seq<char>) -> bool {
    exists|i: int| occurs_at(hay, needle, i)
}

/// What a text is cut at by [`fields`].
#[derive(Debug, Clone, Copy)]
pub enum Separator {
    /// Every whitespace character.
    Whitespace,
    /// One given character.
    Char(char),
}

impl Separator {
    /// `c` separates two fields.
    pub open spec fn separates(self, c: char) -> bool {
        match self {
            Separator::Whitespace => whitespace(c),
            Separator::Char(d) => c == d,
        }
    }

    /// Tells whether `c` separates two fields.
    pub fn is_separator(&self, c: char) -> (r: bool)
        ensures
            r == self.separates(c),
    {
        match self {
            Separator::Whitespace => is_whitespace(c),
            Separator::Char(d) => c == *d,
        }
    }
}

/// The number of characters in front of the first separator of `s`.
pub open spec fn run_length(s: Seq<char>, sep: Separator) -> nat
    decreases s.len(),
{
    if s.len() == 0 || sep.separates(s.first()) {
        0
    } else {
        1 + run_length(s.skip(1), sep)
    }
}

/// The fields of `s`: its longest runs of characters that are no separators, in
/// the order in which they stand. No field is empty.
pub open spec fn fields_of(s: Seq<char>, sep: Separator) -> Seq<Seq<char>>
    decreases s.len(),
{
    if s.len() == 0 {
        Seq::empty()
    } else if sep.separates(s.first()) {
        fields_of(s.skip(1), sep)
    } else {
        let n = run_length(s, sep) as int;
        proof {
            lemma_run_length(s, sep);
        }
        seq![s.take(n)] + fields_of(s.skip(n), sep)
    }
}

/// A run reaches at most to the end, and holds no separator.
pub proof fn lemma_run_length(s: Seq<char>, sep: Separator)
    ensures
        run_length(s, sep) <= s.len(),
        forall|i: int| 0 <= i < run_length(s, sep) ==> !sep.separates(#[trigger] s[i]),
        run_length(s, sep) < s.len() ==> sep.separates(s[run_length(s, sep) as int]),
    decreases s.len(),
{
    if s.len() > 0 && !sep.separates(s.first()) {
        lemma_run_length(s.skip(1), sep);
        assert forall|i: int| 0 <= i < run_length(s, sep) implies !sep.separates(#[trigger] s[i]) by {
            if i > 0 {
                assert(s[i] == s.skip(1)[i - 1]);
            }
        }
    }
}

/// No field is empty and no field holds a separator.
pub proof fn lemma_fields_are_clean(s: Seq<char>, sep: Separator)
    ensures
        forall|k: int|
            0 <= k < fields_of(s, sep).len() ==> #[trigger] clean_field(fields_of(s, sep)[k], sep),
    decreases s.len(),
{
    if s.len() == 0 {
    } else if sep.separates(s.first()) {
        lemma_fields_are_clean(s.skip(1), sep);
        assert(fields_of(s, sep) == fields_of(s.skip(1), sep));
    } else {
        lemma_run_length(s, sep);
        let n = run_length(s, sep) as int;
        lemma_fields_are_clean(s.skip(n), sep);
        let rest = fields_of(s.skip(n), sep);
        assert(fields_of(s, sep) == seq![s.take(n)] + rest);
        assert forall|k: int| 0 <= k < fields_of(s, sep).len() implies #[trigger] clean_field(
            fields_of(s, sep)[k],
            sep,
        ) by {
            if k == 0 {
                assert forall|i: int| 0 <= i < n implies !sep.separates(#[trigger] s.take(n)[i]) by {
                    assert(s.take(n)[i] == s[i]);
                }
                assert(fields_of(s, sep)[0] == s.take(n));
            } else {
                assert(fields_of(s, sep)[k] == rest[k - 1]);
            }
        }
    }
}

/// A separator parts the fields in front of it from those behind it.
pub proof fn lemma_fields_at_separator(a: Seq<char>, c: char, b: Seq<char>, sep: Separator)
    requires
        sep.separates(c),
    ensures
        fields_of(a.push(c) + b, sep) == fields_of(a, sep) + fields_of(b, sep),
    decreases a.len(),
{
    let t = a.push(c) + b;
    if a.len() == 0 {
        assert(t.first() == c);
        assert(t.skip(1) == b);
        assert(fields_of(a, sep) + fields_of(b, sep) == fields_of(b, sep));
    } else if sep.separates(a.first()) {
        assert(t.first() == a.first());
        assert(t.skip(1) == a.skip(1).push(c) + b);
        lemma_fields_at_separator(a.skip(1), c, b, sep);
    } else {
        lemma_run_length(a, sep);
        let n = run_length(a, sep) as int;
        lemma_run_in_front(a, c, b, sep);
        assert(t.take(n) == a.take(n));
        assert(t.skip(n) == a.skip(n).push(c) + b);
        lemma_fields_at_separator(a.skip(n), c, b, sep);
        assert(t.first() == a.first());
        assert(fields_of(t, sep) == seq![a.take(n)] + (fields_of(a.skip(n), sep) + fields_of(
            b,
            sep,
        )));
        assert(fields_of(a, sep) == seq![a.take(n)] + fields_of(a.skip(n), sep));
    }
}

proof fn lemma_run_in_front(a: Seq<char>, c: char, b: Seq<char>, sep: Separator)
    requires
        sep.separates(c),
    ensures
        run_length(a.push(c) + b, sep) == run_length(a, sep),
    decreases a.len(),
{
    let t = a.push(c) + b;
    if a.len() == 0 {
        assert(t.first() == c);
    } else {
        assert(t.first() == a.first());
        assert(t.skip(1) == a.skip(1).push(c) + b);
        lemma_run_in_front(a.skip(1), c, b, sep);
    }
}

/// A text that is not empty and holds no separator is its own only field.
pub proof fn lemma_clean_field_is_its_field(s: Seq<char>, sep: Separator)
    requires
        clean_field(s, sep),
    ensures
        fields_of(s, sep) == seq![s],
{
    lemma_run_length(s, sep);
    let n = run_length(s, sep) as int;
    assert(n == s.len());
    assert(s.take(n) == s);
    assert(s.skip(n).len() == 0);
    assert(fields_of(s.skip(n), sep) == Seq::<Seq<char>>::empty());
    assert(fields_of(s, sep) == seq![s]);
}

/// `field` is not empty and holds no separator.
pub open spec fn clean_field(field: Seq<char>, sep: Separator) -> bool {
    &&& field.len() > 0
    &&& forall|i: int| 0 <= i < field.len() ==> !sep.separates(#[trigger] field[i])
}

/// What trimming leaves is one piece of the text, from the first to the last of
/// the two positions returned, and whitespace stands at neither end of it.
pub proof fn lemma_trimmed_piece(s: Seq<char>) -> (r: (int, int))
    ensures
        0 <= r.0 <= r.1 <= s.len(),
        trimmed(s) == s.subrange(r.0, r.1),
        trimmed(s).len() > 0 ==> !whitespace(trimmed(s).first()) && !whitespace(trimmed(s).last()),
{
    let a = lemma_trimmed_start_piece(s);
    let t = s.skip(a);
    let b = lemma_trimmed_end_piece(t);
    assert(t.take(b) == s.subrange(a, a + b));
    if b > 0 {
        assert(t.take(b).first() == t.first());
    }
    (a, a + b)
}

proof fn lemma_trimmed_start_piece(s: Seq<char>) -> (a: int)
    ensures
        0 <= a <= s.len(),
        trimmed_start(s) == s.skip(a),
        a < s.len() ==> !whitespace(s[a]),
    decreases s.len(),
{
    if s.len() > 0 && whitespace(s.first()) {
        let a = lemma_trimmed_start_piece(s.skip(1));
        assert(s.skip(1).skip(a) == s.skip(a + 1));
        a + 1
    } else {
        assert(s.skip(0) == s);
        0
    }
}

proof fn lemma_trimmed_end_piece(s: Seq<char>) -> (b: int)
    ensures
        0 <= b <= s.len(),
        trimmed_end(s) == s.take(b),
        b > 0 ==> !whitespace(s[b - 1]),
    decreases s.len(),
{
    if s.len() > 0 && whitespace(s.last()) {
        let b = lemma_trimmed_end_piece(s.drop_last());
        assert(s.drop_last().take(b) == s.take(b));
        b
    } else {
        assert(s.take(s.len() as int) == s);
        s.len() as int
    }
}

/// Trimming twice is trimming once.
pub proof fn law_trim_is_idempotent(s: Seq<char>)
    ensures
        trimmed(trimmed(s)) == trimmed(s),
{
    let _ = lemma_trimmed_piece(s);
    let t = trimmed(s);
    assert(trimmed_start(t) == t);
    assert(trimmed_end(t) == t);
}

/// Trimming takes off the whitespace in front of a text and behind it, and nothing
/// else: what neither starts nor ends with whitespace is left as it is.
pub proof fn law_trim_takes_off_whitespace(front: Seq<char>, core: Seq<char>, back: Seq<char>)
    requires
        forall|i: int| 0 <= i < front.len() ==> whitespace(#[trigger] front[i]),
        forall|i: int| 0 <= i < back.len() ==> whitespace(#[trigger] back[i]),
        core.len() > 0 ==> !whitespace(core[0]) && !whitespace(core[core.len() - 1]),
    ensures
        trimmed(front + core + back) == core,
{
    let t = core + back;
    lemma_trim_front(front, t);
    assert(front + core + back == front + t);
    if core.len() > 0 {
        assert(t.first() == core[0]);
        assert(trimmed_start(t) == t);
        lemma_trim_back(core, back);
        assert(trimmed_end(core) == core);
    } else {
        let nothing = Seq::<char>::empty();
        lemma_trim_front(back, nothing);
        assert(t == back);
        assert(back + nothing == back);
        assert(trimmed_start(nothing) == nothing);
        assert(trimmed_end(nothing) == nothing);
        assert(core == nothing);
    }
}

proof fn lemma_trim_front(front: Seq<char>, t: Seq<char>)
    requires
        forall|i: int| 0 <= i < front.len() ==> whitespace(#[trigger] front[i]),
    ensures
        trimmed_start(front + t) == trimmed_start(t),
    decreases front.len(),
{
    if front.len() == 0 {
        assert(front + t == t);
    } else {
        assert((front + t).first() == front[0]);
        assert((front + t).skip(1) == front.skip(1) + t);
        lemma_trim_front(front.skip(1), t);
    }
}

proof fn lemma_trim_back(t: Seq<char>, back: Seq<char>)
    requires
        forall|i: int| 0 <= i < back.len() ==> whitespace(#[trigger] back[i]),
    ensures
        trimmed_end(t + back) == trimmed_end(t),
    decreases back.len(),
{
    if back.len() == 0 {
        assert(t + back == t);
    } else {
        assert((t + back).last() == back[back.len() - 1]);
        assert((t + back).drop_last() == t + back.drop_last());
        lemma_trim_back(t, back.drop_last());
    }
}

/// Trimming leaves nothing exactly if there is nothing but whitespace.
pub proof fn law_blank_text_is_trimmed_away(s: Seq<char>)
    ensures
        trimmed(s).len() == 0 <==> forall|i: int| 0 <= i < s.len() ==> whitespace(#[trigger] s[i]),
{
    let nothing = Seq::<char>::empty();
    if forall|i: int| 0 <= i < s.len() ==> whitespace(#[trigger] s[i]) {
        law_trim_takes_off_whitespace(s, nothing, nothing);
        assert(s + nothing + nothing == s);
    } else {
        let i = choose|i: int| 0 <= i < s.len() && !whitespace(#[trigger] s[i]);
        lemma_start_keeps(s, i);
    }
}

/// A character that is no whitespace is not trimmed off.
proof fn lemma_start_keeps(s: Seq<char>, i: int)
    requires
        0 <= i < s.len(),
        !whitespace(s[i]),
    ensures
        trimmed(s).len() > 0,
    decreases s.len(),
{
    if whitespace(s.first()) {
        assert(s.skip(1)[i - 1] == s[i]);
        lemma_start_keeps(s.skip(1), i - 1);
    } else {
        lemma_end_keeps(s);
    }
}

proof fn lemma_end_keeps(s: Seq<char>)
    requires
        s.len() > 0,
        !whitespace(s.first()),
    ensures
        trimmed_end(s).len() > 0,
    decreases s.len(),
{
    if whitespace(s.last()) {
        assert(s.drop_last().first() == s.first());
        lemma_end_keeps(s.drop_last());
    }
}

/// The copies of a character behind a text are taken off, and nothing else.
pub proof fn law_trailing_copies_are_taken_off(core: Seq<char>, tail: Seq<char>, c: char)
    requires
        core.len() > 0 ==> core[core.len() - 1] != c,
        forall|i: int| 0 <= i < tail.len() ==> #[trigger] tail[i] == c,
    ensures
        without_trailing(core + tail, c) == core,
    decreases tail.len(),
{
    if tail.len() == 0 {
        assert(core + tail == core);
    } else {
        assert((core + tail).last() == tail[tail.len() - 1]);
        assert((core + tail).drop_last() == core + tail.drop_last());
        law_trailing_copies_are_taken_off(core, tail.drop_last(), c);
    }
}

/// A text is found wherever it stands, whatever is in front of it and behind it.
pub proof fn law_text_is_found(front: Seq<char>, needle: Seq<char>, back: Seq<char>)
    ensures
        occurs_in(front + needle + back, needle),
{
    let hay = front + needle + back;
    assert(hay.subrange(front.len() as int, (front.len() + needle.len()) as int) == needle);
    assert(occurs_at(hay, needle, front.len() as int));
}

/// A text that is found stands there: the rest of the text is in front of it and
/// behind it.
pub proof fn law_found_text_is_there(hay: Seq<char>, needle: Seq<char>) -> (r: (
    Seq<char>,
    Seq<char>,
))
    requires
        occurs_in(hay, needle),
    ensures
        hay == r.0 + needle + r.1,
{
    let i = choose|i: int| occurs_at(hay, needle, i);
    let front = hay.take(i);
    let back = hay.skip(i + needle.len());
    assert(hay == front + hay.subrange(i, i + needle.len()) + back);
    (front, back)
}

/// Whitespace separates fields, or the one character that is given, and nothing else.
pub proof fn law_separators(c: char, d: char)
    ensures
        Separator::Whitespace.separates(c) <==> whitespace(c),
        Separator::Char(d).separates(c) <==> c == d,
{
}

/// What cutting into fields gives: nothing of an empty text, the text itself where no
/// separator is in it, and at a separator the fields in front of it and those behind
/// it. Whitespace cuts, or the one character that is given, and nothing else.
pub proof fn law_fields_are_cut_at_separators(
    a: Seq<char>,
    c: char,
    b: Seq<char>,
    sep: Separator,
)
    ensures
        fields_of(Seq::empty(), sep) == Seq::<Seq<char>>::empty(),
        (match sep {
            Separator::Whitespace => whitespace(c),
            Separator::Char(d) => c == d,
        }) ==> fields_of(a.push(c) + b, sep) == fields_of(a, sep) + fields_of(b, sep),
        a.len() > 0 && (forall|i: int|
            0 <= i < a.len() ==> match sep {
                Separator::Whitespace => !whitespace(#[trigger] a[i]),
                Separator::Char(d) => a[i] != d,
            }) ==> fields_of(a, sep) == seq![a],
{
    if sep.separates(c) {
        lemma_fields_at_separator(a, c, b, sep);
    }
    if a.len() > 0 && (forall|i: int|
        0 <= i < a.len() ==> match sep {
            Separator::Whitespace => !whitespace(#[trigger] a[i]),
            Separator::Char(d) => a[i] != d,
        }) {
        assert(clean_field(a, sep));
        lemma_clean_field_is_its_field(a, sep);
    }
}

/// Tells whether `c` is a whitespace character.
pub fn is_whitespace(c: char) -> (r: bool)
    ensures
        r == whitespace(c),
{
    let n: u32 = c as u32;
    (0x9 <= n && n <= 0xd) || n == 0x20 || n == 0x85 || n == 0xa0 || n == 0x1680 || (0x2000 <= n && n
        <= 0x200a) || n == 0x2028 || n == 0x2029 || n == 0x202f || n == 0x205f || n == 0x3000
}

/// The characters of `s`.
pub fn chars_of(s: &str) -> (r: Vec<char>)
    ensures
        r@ == s@,
{
    let mut out: Vec<char> = Vec::new();
    for c in it: s.chars()
        invariant
            it.seq() == s@,
            out@ == s@.take(it.index()),
    {
        assert(s@.take(it.index() + 1) == s@.take(it.index()).push(s@[it.index()]));
        out.push(c);
    }
    assert(s@.take(s@.len() as int) == s@);
    out
}

/// Tells whether two texts are the same.
pub fn same_text(a: &str, b: &str) -> (r: bool)
    ensures
        r == (a@ == b@),
{
    let x = a.as_bytes();
    let y = b.as_bytes();
    proof {
        encode_utf8_decode_utf8(a@);
        encode_utf8_decode_utf8(b@);
    }
    if x.len() != y.len() {
        return false;
    }
    let n: usize = x.len();
    let mut i: usize = 0;
    while i < n
        invariant
            n == x@.len(),
            n == y@.len(),
            i <= n,
            x@ == encode_utf8(a@),
            y@ == encode_utf8(b@),
            forall|j: int| 0 <= j < i ==> x@[j] == y@[j],
        decreases n - i,
    {
        if x[i] != y[i] {
            return false;
        }
        i += 1;
    }
    assert(x@ == y@);
    true
}

/// Takes off the whitespace at the two ends of `s`.
pub fn trim<'a>(s: &'a str) -> (r: &'a str)
    ensures
        r@ == trimmed(s@),
{
    let chars = chars_of(s);
    let n: usize = chars.len();
    let mut start: usize = 0;
    assert(s@.skip(0) == s@);
    while start < n && is_whitespace(chars[start])
        invariant
            n == chars@.len(),
            chars@ == s@,
            start <= n,
            trimmed_start(s@) == trimmed_start(s@.skip(start as int)),
        decreases n - start,
    {
        assert(s@.skip(start as int).skip(1) == s@.skip(start + 1));
        start += 1;
    }
    let ghost core = s@.skip(start as int);
    assert(trimmed_start(s@) == core);
    let mut end: usize = n;
    assert(core.take(n - start) == core);
    while end > start && is_whitespace(chars[end - 1])
        invariant
            n == chars@.len(),
            chars@ == s@,
            start <= end <= n,
            core == s@.skip(start as int),
            trimmed_end(core) == trimmed_end(core.take(end - start)),
        decreases end,
    {
        assert(core.take(end - start).drop_last() == core.take(end - start - 1));
        end -= 1;
    }
    assert(core.take(end - start) == s@.subrange(start as int, end as int));
    s.substring_char(start, end)
}

/// Takes the copies of `c` off the end of `s`.
pub fn trim_end_char<'a>(s: &'a str, c: char) -> (r: &'a str)
    ensures
        r@ == without_trailing(s@, c),
{
    let chars = chars_of(s);
    let n: usize = chars.len();
    let mut end: usize = n;
    assert(s@.take(n as int) == s@);
    while end > 0 && chars[end - 1] == c
        invariant
            n == chars@.len(),
            chars@ == s@,
            end <= n,
            without_trailing(s@, c) == without_trailing(s@.take(end as int), c),
        decreases end,
    {
        assert(s@.take(end as int).drop_last() == s@.take(end - 1));
        end -= 1;
    }
    assert(s@.take(end as int) == s@.subrange(0, end as int));
    s.substring_char(0, end)
}

/// Cuts `s` into its fields.
pub fn fields<'a>(s: &'a str, sep: Separator) -> (r: Vec<&'a str>)
    ensures
        r.deep_view() == fields_of(s@, sep),
{
    let chars = chars_of(s);
    let n: usize = chars.len();
    let mut out: Vec<&'a str> = Vec::new();
    let mut i: usize = 0;
    assert(s@.skip(0) == s@);
    assert(out.deep_view() + fields_of(s@, sep) == fields_of(s@, sep));
    while i < n
        invariant
            n == chars@.len(),
            chars@ == s@,
            i <= n,
            out.deep_view() + fields_of(s@.skip(i as int), sep) == fields_of(s@, sep),
        decreases n - i,
    {
        if sep.is_separator(chars[i]) {
            assert(s@.skip(i as int).skip(1) == s@.skip(i + 1));
            i += 1;
        } else {
            let start: usize = i;
            let ghost rest = s@.skip(start as int);
            assert(rest.skip(0) == rest);
            while i < n && !sep.is_separator(chars[i])
                invariant
                    n == chars@.len(),
                    chars@ == s@,
                    start <= i <= n,
                    rest == s@.skip(start as int),
                    run_length(rest, sep) == (i - start) + run_length(rest.skip(i - start), sep),
                decreases n - i,
            {
                assert(rest.skip(i - start).skip(1) == rest.skip(i - start + 1));
                assert(rest.skip(i - start)[0] == s@[i as int]);
                i += 1;
            }
            proof {
                if i < n {
                    assert(rest.skip(i - start)[0] == s@[i as int]);
                }
                assert(run_length(rest, sep) == i - start);
                assert(rest[0] == s@[start as int]);
                assert(rest.take(i - start) == s@.subrange(start as int, i as int));
                assert(rest.skip(i - start) == s@.skip(i as int));
            }
            let ghost before = out.deep_view();
            out.push(s.substring_char(start, i));
            assert(out.deep_view() == before.push(s@.subrange(start as int, i as int)));
            assert(before + (seq![s@.subrange(start as int, i as int)] + fields_of(
                s@.skip(i as int),
                sep,
            )) == out.deep_view() + fields_of(s@.skip(i as int), sep));
        }
    }
    assert(s@.skip(n as int).len() == 0);
    assert(out.deep_view() + Seq::<Seq<char>>::empty() == out.deep_view());
    out
}

/// Tells whether `needle` stands in `hay` at position `i`.
fn matches_at(hay: &Vec<char>, needle: &Vec<char>, i: usize) -> (r: bool)
    requires
        i + needle@.len() <= hay.len(),
    ensures
        r == occurs_at(hay@, needle@, i as int),
{
    let n: usize = needle.len();
    let mut j: usize = 0;
    while j < n
        invariant
            n == needle@.len(),
            i + n <= hay.len(),
            j <= n,
            forall|k: int| 0 <= k < j ==> hay@[i + k] == #[trigger] needle@[k],
        decreases n - j,
    {
        if hay[i + j] != needle[j] {
            assert(hay@.subrange(i as int, i + n)[j as int] != needle@[j as int]);
            return false;
        }
        j += 1;
    }
    assert(hay@.subrange(i as int, i + n) == needle@);
    true
}

/// Tells whether `needle` stands somewhere in `hay`.
pub fn contains_text(hay: &str, needle: &str) -> (r: bool)
    ensures
        r == occurs_in(hay@, needle@),
{
    let h = chars_of(hay);
    let p = chars_of(needle);
    if p.len() > h.len() {
        return false;
    }
    let last: usize = h.len() - p.len();
    let mut i: usize = 0;
    while i <= last
        invariant
            h@ == hay@,
            p@ == needle@,
            last + p@.len() == h@.len(),
            i <= last + 1,
            forall|k: int| 0 <= k < i ==> !occurs_at(hay@, needle@, k),
        decreases last + 1 - i,
    {
        if matches_at(&h, &p, i) {
            return true;
        }
        if i == last {
            return false;
        }
        i += 1;
    }
    false
}

} // verus!
