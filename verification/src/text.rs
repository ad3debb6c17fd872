//! Working on text by characters: trimming, cutting into words and pieces,
//! reading numbers, replacing.

use vstd::prelude::*;
use vstd::std_specs::iter::IteratorSpec;
use vstd::string::*;
use vstd::utf8::*;

verus! {

/// The views of a list of strings.
pub open spec fn texts(v: Seq<String>) -> Seq<Seq<char>> {
    Seq::new(v.len(), |i: int| v[i]@)
}

/// Whether two strings hold the same text.
pub fn str_eq(a: &str, b: &str) -> (same: bool)
    ensures
        same == (a@ == b@),
{
    let x = a.as_bytes();
    let y = b.as_bytes();
    proof {
        encode_utf8_decode_utf8(a@);
        encode_utf8_decode_utf8(b@);
    }
    if x.len() != y.len() {
        return false;
    }
    let mut i: usize = 0;
    while i < x.len()
        invariant
            i <= x.len(),
            x.len() == y.len(),
            x@ == a.spec_bytes(),
            y@ == b.spec_bytes(),
            decode_utf8(a.spec_bytes()) == a@,
            decode_utf8(b.spec_bytes()) == b@,
            forall|j: int| 0 <= j < i ==> x@[j] == y@[j],
        decreases x.len() - i,
    {
        if x[i] != y[i] {
            return false;
        }
        i += 1;
    }
    assert(x@ =~= y@);
    true
}

/// Index of the first `c` in `s`, or the length of `s` where there is none.
pub open spec fn first_index_of(s: Seq<char>, c: char) -> int
    decreases s.len(),
{
    if s.len() == 0 {
        0
    } else if s[0] == c {
        0
    } else {
        1 + first_index_of(s.drop_first(), c)
    }
}

/// What `first_index_of` finds: the character, and none like it before.
pub proof fn lemma_first_index_bounds(s: Seq<char>, c: char)
    ensures
        0 <= first_index_of(s, c) <= s.len(),
        first_index_of(s, c) < s.len() ==> s[first_index_of(s, c)] == c,
        forall|j: int| 0 <= j < first_index_of(s, c) ==> s[j] != c,
    decreases s.len(),
{
    if s.len() > 0 && s[0] != c {
        lemma_first_index_bounds(s.drop_first(), c);
        assert forall|j: int| 0 <= j < first_index_of(s, c) implies s[j] != c by {
            if j > 0 {
                assert(s.drop_first()[j - 1] == s[j]);
            }
        }
    }
}

/// The first `c` of a joined text is the first of its first part, or else
/// the first of its second.
pub proof fn lemma_first_index_concat(a: Seq<char>, b: Seq<char>, c: char)
    ensures
        first_index_of(a + b, c) == if first_index_of(a, c) < a.len() {
            first_index_of(a, c)
        } else {
            a.len() + first_index_of(b, c)
        },
    decreases a.len(),
{
    lemma_first_index_bounds(a, c);
    if a.len() == 0 {
        assert(a + b == b);
    } else {
        assert((a + b)[0] == a[0]);
        if a[0] != c {
            lemma_first_index_concat(a.drop_first(), b, c);
            lemma_first_index_bounds(a.drop_first(), c);
            assert((a + b).drop_first() == a.drop_first() + b);
        }
    }
}

/// The place of the first `c` in `s`.
pub fn find_char(s: &str, c: char) -> (at: usize)
    ensures
        at == first_index_of(s@, c),
        at <= s@.len(),
{
    let n = s.unicode_len();
    let mut i: usize = 0;
    let mut it = s.chars();
    proof {
        assert(s@.skip(0) == s@);
    }
    loop
        invariant
            i <= n == s@.len(),
            it.remaining() == s@.skip(i as int),
            first_index_of(s@, c) == i + first_index_of(s@.skip(i as int), c),
        decreases n - i,
    {
        match it.next() {
            Some(x) => {
                if x == c {
                    return i;
                }
                proof {
                    assert(s@.skip(i as int).drop_first() == s@.skip(i + 1));
                }
                i += 1;
            },
            None => {
                return i;
            },
        }
    }
}

/// The pieces of a text between its separators `sep`. A text without
/// `sep` is one piece, the empty text too.
pub open spec fn split_on(text: Seq<char>, sep: char) -> Seq<Seq<char>>
    decreases text.len(),
{
    let i = first_index_of(text, sep);
    if 0 <= i < text.len() {
        seq![text.take(i)] + split_on(text.skip(i + 1), sep)
    } else {
        seq![text]
    }
}

/// Cut a text at every `sep`.
pub fn split_text(path: &str, sep: char) -> (segments: Vec<String>)
    ensures
        texts(segments@) == split_on(path@, sep),
        segments@.len() >= 1,
{
    let n = path.unicode_len();
    let mut segments: Vec<String> = Vec::new();
    let mut start: usize = 0;
    proof {
        assert(path@.skip(0) == path@);
    }
    loop
        invariant
            start <= n == path@.len(),
            split_on(path@, sep) == texts(segments@) + split_on(path@.skip(start as int), sep),
        decreases n - start,
    {
        let rest = path.substring_char(start, n);
        assert(rest@ == path@.skip(start as int));
        let at = find_char(rest, sep);
        proof {
            lemma_first_index_bounds(rest@, sep);
        }
        if at < n - start {
            let segment = rest.substring_char(0, at).to_owned();
            proof {
                assert(rest@.skip(at + 1) == path@.skip(start + at + 1));
                assert(rest@.take(at as int) == rest@.subrange(0, at as int));
                assert(texts(segments@.push(segment)) == texts(segments@) + seq![
                    rest@.take(at as int),
                ]);
            }
            segments.push(segment);
            start = start + at + 1;
        } else {
            let segment = rest.to_owned();
            proof {
                assert(texts(segments@.push(segment)) == texts(segments@) + seq![rest@]);
            }
            segments.push(segment);
            return segments;
        }
    }
}

/// The characters of a string.
pub fn chars_of(s: &str) -> (chars: Vec<char>)
    ensures
        chars@ == s@,
{
    let n = s.unicode_len();
    let mut chars: Vec<char> = Vec::new();
    let mut it = s.chars();
    proof {
        assert(s@.skip(0) == s@);
    }
    loop
        invariant
            chars@.len() <= n == s@.len(),
            it.remaining() == s@.skip(chars@.len() as int),
            chars@ == s@.take(chars@.len() as int),
        decreases n - chars@.len(),
    {
        let ghost done = chars@.len() as int;
        match it.next() {
            Some(x) => {
                chars.push(x);
                proof {
                    assert(s@.skip(done).drop_first() == s@.skip(done + 1));
                    assert(s@.take(done + 1) == s@.take(done).push(s@[done]));
                }
            },
            None => {
                proof {
                    assert(s@.take(done) == s@);
                }
                return chars;
            },
        }
    }
}

/// Whether a character is white space: one of the characters that Unicode
/// gives the property White_Space.
pub open spec fn space(c: char) -> bool {
    let u = c as u32;
    (0x09 <= u <= 0x0d) || u == 0x20 || u == 0x85 || u == 0xa0 || u == 0x1680 || (0x2000 <= u
        <= 0x200a) || u == 0x2028 || u == 0x2029 || u == 0x202f || u == 0x205f || u == 0x3000
}

/// Whether a character is white space.
pub fn is_space(c: char) -> (white: bool)
    ensures
        white == space(c),
{
    let u = c as u32;
    (0x09 <= u && u <= 0x0d) || u == 0x20 || u == 0x85 || u == 0xa0 || u == 0x1680 || (0x2000 <= u
        && u <= 0x200a) || u == 0x2028 || u == 0x2029 || u == 0x202f || u == 0x205f || u == 0x3000
}

/// How many characters of white space stand at the start of `s`.
pub open spec fn leading_space(s: Seq<char>) -> int
    decreases s.len(),
{
    if s.len() > 0 && space(s[0]) {
        1 + leading_space(s.drop_first())
    } else {
        0
    }
}

/// How many characters of white space stand at the end of `s`.
pub open spec fn trailing_space(s: Seq<char>) -> int
    decreases s.len(),
{
    if s.len() > 0 && space(s.last()) {
        1 + trailing_space(s.drop_last())
    } else {
        0
    }
}

/// `s` without the white space at its start and at its end.
pub open spec fn trimmed(s: Seq<char>) -> Seq<char> {
    let from = leading_space(s);
    if from >= s.len() {
        Seq::empty()
    } else {
        s.subrange(from, s.len() - trailing_space(s))
    }
}

/// What `leading_space` counts: white space, up to the first other
/// character.
pub proof fn lemma_leading_space(s: Seq<char>)
    ensures
        0 <= leading_space(s) <= s.len(),
        forall|j: int| 0 <= j < leading_space(s) ==> space(#[trigger] s[j]),
        leading_space(s) < s.len() ==> !space(s[leading_space(s)]),
    decreases s.len(),
{
    if s.len() > 0 && space(s[0]) {
        lemma_leading_space(s.drop_first());
        assert forall|j: int| 0 <= j < leading_space(s) implies space(#[trigger] s[j]) by {
            if j > 0 {
                assert(s.drop_first()[j - 1] == s[j]);
            }
        }
    }
}

/// What `trailing_space` counts: white space, back to the last other
/// character.
pub proof fn lemma_trailing_space(s: Seq<char>)
    ensures
        0 <= trailing_space(s) <= s.len(),
        forall|j: int| s.len() - trailing_space(s) <= j < s.len() ==> space(#[trigger] s[j]),
        trailing_space(s) < s.len() ==> !space(s[s.len() - trailing_space(s) - 1]),
    decreases s.len(),
{
    if s.len() > 0 && space(s.last()) {
        lemma_trailing_space(s.drop_last());
        assert forall|j: int| s.len() - trailing_space(s) <= j < s.len() implies space(
            #[trigger] s[j],
        ) by {
            if j < s.len() - 1 {
                assert(s.drop_last()[j] == s[j]);
            }
        }
    }
}

/// A count of leading white space is the place of the first other
/// character.
pub proof fn lemma_leading_space_is(s: Seq<char>, n: int)
    requires
        0 <= n <= s.len(),
        forall|j: int| 0 <= j < n ==> space(#[trigger] s[j]),
        n < s.len() ==> !space(s[n]),
    ensures
        leading_space(s) == n,
{
    lemma_leading_space(s);
    let k = leading_space(s);
    if k < n {
        assert(space(s[k]));
    } else if k > n {
        assert(space(s[n]));
    }
}

/// A count of trailing white space is what follows the last other
/// character.
pub proof fn lemma_trailing_space_is(s: Seq<char>, n: int)
    requires
        0 <= n <= s.len(),
        forall|j: int| s.len() - n <= j < s.len() ==> space(#[trigger] s[j]),
        n < s.len() ==> !space(s[s.len() - n - 1]),
    ensures
        trailing_space(s) == n,
{
    lemma_trailing_space(s);
    let k = trailing_space(s);
    if k < n {
        assert(space(s[s.len() - k - 1]));
    } else if k > n {
        assert(space(s[s.len() - n - 1]));
    }
}

/// A string without the white space around it.
pub fn trim(s: &str) -> (inner: String)
    ensures
        inner@ == trimmed(s@),
{
    let chars = chars_of(s);
    let n = chars.len();
    let mut from: usize = 0;
    while from < n && is_space(chars[from])
        invariant
            from <= n == chars@.len(),
            forall|j: int| 0 <= j < from ==> space(#[trigger] chars@[j]),
        decreases n - from,
    {
        from += 1;
    }
    proof {
        lemma_leading_space_is(chars@, from as int);
    }
    if from == n {
        return String::new();
    }
    let mut to: usize = n;
    while to > 0 && is_space(chars[to - 1])
        invariant
            to <= n == chars@.len(),
            forall|j: int| to <= j < n ==> space(#[trigger] chars@[j]),
        decreases to,
    {
        to -= 1;
    }
    proof {
        lemma_trailing_space_is(chars@, n - to);
        assert(to > from) by {
            if to <= from {
                assert(space(chars@[from as int]));
            }
        }
    }
    s.substring_char(from, to).to_owned()
}

/// How many characters stand before the first white space of `s`.
pub open spec fn leading_word(s: Seq<char>) -> int
    decreases s.len(),
{
    if s.len() > 0 && !space(s[0]) {
        1 + leading_word(s.drop_first())
    } else {
        0
    }
}

/// What `leading_word` counts: characters that are no white space, up to
/// the first that is.
pub proof fn lemma_leading_word(s: Seq<char>)
    ensures
        0 <= leading_word(s) <= s.len(),
        forall|j: int| 0 <= j < leading_word(s) ==> !space(#[trigger] s[j]),
        leading_word(s) < s.len() ==> space(s[leading_word(s)]),
        s.len() > 0 && !space(s[0]) ==> leading_word(s) >= 1,
    decreases s.len(),
{
    if s.len() > 0 && !space(s[0]) {
        lemma_leading_word(s.drop_first());
        assert forall|j: int| 0 <= j < leading_word(s) implies !space(#[trigger] s[j]) by {
            if j > 0 {
                assert(s.drop_first()[j - 1] == s[j]);
            }
        }
    }
}

/// A count of characters before the first white space is the place of
/// that white space.
pub proof fn lemma_leading_word_is(s: Seq<char>, n: int)
    requires
        0 <= n <= s.len(),
        forall|j: int| 0 <= j < n ==> !space(#[trigger] s[j]),
        n < s.len() ==> space(s[n]),
    ensures
        leading_word(s) == n,
{
    lemma_leading_word(s);
    let k = leading_word(s);
    if k < n {
        assert(!space(s[k]));
    } else if k > n {
        assert(!space(s[n]));
    }
}

/// The words of a text: its longest runs of characters that are no white
/// space, in their order.
pub open spec fn words(s: Seq<char>) -> Seq<Seq<char>>
    decreases s.len(),
{
    let from = leading_space(s);
    if from < 0 || from >= s.len() {
        Seq::empty()
    } else {
        let rest = s.skip(from);
        let n = leading_word(rest);
        if n <= 0 || n > rest.len() {
            Seq::empty()
        } else {
            seq![rest.take(n)] + words(rest.skip(n))
        }
    }
}

/// Cut a text into its words.
pub fn split_words(s: &str) -> (found: Vec<String>)
    ensures
        texts(found@) == words(s@),
{
    let chars = chars_of(s);
    let n = chars.len();
    let mut found: Vec<String> = Vec::new();
    let mut at: usize = 0;
    proof {
        assert(s@.skip(0) == s@);
        assert(texts(found@) =~= Seq::empty());
        assert(Seq::<Seq<char>>::empty() + words(s@) == words(s@));
    }
    loop
        invariant
            at <= n == chars@.len(),
            chars@ == s@,
            words(s@) == texts(found@) + words(s@.skip(at as int)),
        decreases n - at,
    {
        let ghost rest = s@.skip(at as int);
        let mut from: usize = at;
        while from < n && is_space(chars[from])
            invariant
                at <= from <= n == chars@.len(),
                chars@ == s@,
                rest == s@.skip(at as int),
                forall|j: int| 0 <= j < from - at ==> space(#[trigger] rest[j]),
            decreases n - from,
        {
            from += 1;
        }
        proof {
            lemma_leading_space_is(rest, from - at);
        }
        if from == n {
            proof {
                assert(words(rest) == Seq::<Seq<char>>::empty());
                assert(texts(found@) + Seq::<Seq<char>>::empty() == texts(found@));
            }
            return found;
        }
        let ghost tail = rest.skip(from - at);
        assert(tail == s@.skip(from as int));
        let mut to: usize = from;
        while to < n && !is_space(chars[to])
            invariant
                from <= to <= n == chars@.len(),
                chars@ == s@,
                tail == s@.skip(from as int),
                forall|j: int| 0 <= j < to - from ==> !space(#[trigger] tail[j]),
            decreases n - to,
        {
            to += 1;
        }
        proof {
            lemma_leading_word_is(tail, to - from);
            assert(to > from);
        }
        let word = s.substring_char(from, to).to_owned();
        proof {
            assert(word@ == tail.take(to - from));
            assert(tail.skip(to - from) == s@.skip(to as int));
            assert(words(rest) == seq![word@] + words(s@.skip(to as int)));
            assert(texts(found@.push(word)) == texts(found@) + seq![word@]);
        }
        found.push(word);
        at = to;
    }
}

/// Whether `text` begins with `prefix`.
pub open spec fn begins_with(text: Seq<char>, prefix: Seq<char>) -> bool {
    prefix.len() <= text.len() && text.subrange(0, prefix.len() as int) == prefix
}

/// Whether `text` begins with `prefix`.
pub fn starts_with(text: &str, prefix: &str) -> (found: bool)
    ensures
        found == begins_with(text@, prefix@),
{
    let n = text.unicode_len();
    let m = prefix.unicode_len();
    m <= n && str_eq(text.substring_char(0, m), prefix)
}

/// Whether `text` ends with `suffix`.
pub open spec fn finishes_with(text: Seq<char>, suffix: Seq<char>) -> bool {
    suffix.len() <= text.len() && text.subrange(text.len() - suffix.len(), text.len() as int)
        == suffix
}

/// Whether `text` ends with `suffix`.
pub fn ends_with(text: &str, suffix: &str) -> (found: bool)
    ensures
        found == finishes_with(text@, suffix@),
{
    let n = text.unicode_len();
    let m = suffix.unicode_len();
    m <= n && str_eq(text.substring_char(n - m, n), suffix)
}

/// `text` with every `from` replaced by `to`, from left to right, what was
/// put in not looked at again. An empty `from` replaces nothing.
pub open spec fn replaced(text: Seq<char>, from: Seq<char>, to: Seq<char>) -> Seq<char>
    decreases text.len(),
{
    if from.len() == 0 || text.len() < from.len() {
        text
    } else if text.subrange(0, from.len() as int) == from {
        to + replaced(text.skip(from.len() as int), from, to)
    } else {
        seq![text[0]] + replaced(text.skip(1), from, to)
    }
}

/// Replace every `from` in `text` by `to`.
pub fn replace_all(text: &str, from: &str, to: &str) -> (result: String)
    ensures
        result@ == replaced(text@, from@, to@),
{
    let n = text.unicode_len();
    let m = from.unicode_len();
    if m == 0 {
        return text.to_owned();
    }
    let mut result = String::new();
    let mut i: usize = 0;
    proof {
        assert(text@.skip(0) == text@);
        assert(Seq::<char>::empty() + replaced(text@, from@, to@) == replaced(
            text@,
            from@,
            to@,
        ));
    }
    while i < n
        invariant
            i <= n == text@.len(),
            0 < m == from@.len(),
            replaced(text@, from@, to@) == result@ + replaced(text@.skip(i as int), from@, to@),
        decreases n - i,
    {
        let ghost rest = text@.skip(i as int);
        let ghost before = result@;
        if m <= n - i && str_eq(text.substring_char(i, i + m), from) {
            proof {
                assert(rest.subrange(0, m as int) == text@.subrange(i as int, i + m));
                assert(rest.skip(m as int) == text@.skip(i + m));
            }
            result.append(to);
            proof {
                assert(before + (to@ + replaced(text@.skip(i + m), from@, to@)) == before + to@
                    + replaced(text@.skip(i + m), from@, to@));
            }
            i += m;
        } else {
            proof {
                if m <= n - i {
                    assert(rest.subrange(0, m as int) == text@.subrange(i as int, i + m));
                }
                assert(rest.skip(1) == text@.skip(i + 1));
                assert(seq![rest[0]] == text@.subrange(i as int, i + 1));
            }
            result.append(text.substring_char(i, i + 1));
            proof {
                if m <= n - i {
                    assert(before + (seq![rest[0]] + replaced(text@.skip(i + 1), from@, to@))
                        == before + seq![rest[0]] + replaced(text@.skip(i + 1), from@, to@));
                } else {
                    lemma_replaced_short(text@.skip(i + 1), from@, to@);
                    assert(seq![rest[0]] + text@.skip(i + 1) == rest);
                    assert(before + rest == before + seq![rest[0]] + text@.skip(i + 1));
                }
            }
            i += 1;
        }
    }
    proof {
        assert(result@ + Seq::<char>::empty() == result@);
    }
    result
}

/// A text shorter than what is looked for stays as it is.
pub proof fn lemma_replaced_short(text: Seq<char>, from: Seq<char>, to: Seq<char>)
    requires
        text.len() < from.len(),
    ensures
        replaced(text, from, to) == text,
{
}

/// Whether `c` stands in `text`.
pub fn contains_char(text: &str, c: char) -> (found: bool)
    ensures
        found == (first_index_of(text@, c) < text@.len()),
        found == text@.contains(c),
{
    let at = find_char(text, c);
    proof {
        lemma_first_index_bounds(text@, c);
        if at < text@.len() {
            assert(text@[at as int] == c);
        }
    }
    at < text.unicode_len()
}

/// Whether `c` is a decimal digit.
pub open spec fn digit(c: char) -> bool {
    '0' <= c <= '9'
}

/// The number that a text of decimal digits writes.
pub open spec fn digits_value(s: Seq<char>) -> nat
    decreases s.len(),
{
    if s.len() == 0 {
        0
    } else {
        digits_value(s.drop_last()) * 10 + (s.last() as u32 - '0' as u32) as nat
    }
}

/// Whether a text is made of decimal digits alone.
pub open spec fn all_digits(s: Seq<char>) -> bool {
    forall|i: int| 0 <= i < s.len() ==> digit(#[trigger] s[i])
}

/// A text without the `+` that may stand at its start.
pub open spec fn unsigned(s: Seq<char>) -> Seq<char> {
    if s.len() > 0 && s[0] == '+' {
        s.skip(1)
    } else {
        s
    }
}

/// The number below 65536 that a text writes: decimal digits, at least
/// one, after one `+` or none.
pub open spec fn parsed_u16(s: Seq<char>) -> Option<u16> {
    let body = unsigned(s);
    if body.len() > 0 && all_digits(body) && digits_value(body) <= u16::MAX {
        Some(digits_value(body) as u16)
    } else {
        None
    }
}

/// More digits never write a smaller number.
pub proof fn lemma_digits_grow(s: Seq<char>, n: int)
    requires
        0 <= n <= s.len(),
    ensures
        digits_value(s.take(n)) <= digits_value(s),
    decreases s.len() - n,
{
    if n < s.len() {
        lemma_digits_grow(s, n + 1);
        assert(s.take(n + 1).drop_last() == s.take(n));
    } else {
        assert(s.take(n) == s);
    }
}

/// Read a number below 65536.
pub fn parse_u16(s: &str) -> (number: Option<u16>)
    ensures
        number == parsed_u16(s@),
{
    let chars = chars_of(s);
    let n = chars.len();
    let start: usize = if n > 0 && chars[0] == '+' {
        1
    } else {
        0
    };
    let ghost body = s@.skip(start as int);
    proof {
        assert(s@.skip(0) == s@);
        assert(body == unsigned(s@));
    }
    if start == n {
        return None;
    }
    let mut value: u32 = 0;
    let mut i: usize = start;
    proof {
        assert(body.take(0) == Seq::<char>::empty());
    }
    while i < n
        invariant
            start <= i <= n == chars@.len(),
            chars@ == s@,
            body == s@.skip(start as int),
            body == unsigned(s@),
            all_digits(body.take(i - start)),
            value == digits_value(body.take(i - start)),
            value <= u16::MAX,
        decreases n - i,
    {
        let c = chars[i];
        proof {
            assert(body[i - start] == c);
            assert(body.take(i - start + 1).drop_last() == body.take(i - start));
            assert(body.take(i - start + 1).last() == c);
        }
        if !('0' <= c && c <= '9') {
            proof {
                assert(!all_digits(body)) by {
                    assert(!digit(body[i - start]));
                }
            }
            return None;
        }
        let d = c as u32 - '0' as u32;
        let next = value * 10 + d;
        if next > 65535 {
            proof {
                lemma_digits_grow(body, i - start + 1);
            }
            return None;
        }
        proof {
            assert(all_digits(body.take(i - start + 1))) by {
                assert forall|j: int| 0 <= j < i - start + 1 implies digit(
                    #[trigger] body.take(i - start + 1)[j],
                ) by {
                    if j < i - start {
                        assert(body.take(i - start)[j] == body.take(i - start + 1)[j]);
                    }
                }
            }
        }
        value = next;
        i += 1;
    }
    proof {
        assert(body.take(n - start) == body);
    }
    Some(value as u16)
}

} // verus!
