//! Text as sequences of characters: white space, lines, and the numbers and
//! truth values that a line can hold.

use vstd::prelude::*;

verus! {

/// White space, as Unicode lists it under the property White_Space.
pub open spec fn is_space(c: char) -> bool {
    let n = c as u32;
    ||| 0x09 <= n <= 0x0D
    ||| n == 0x20
    ||| n == 0x85
    ||| n == 0xA0
    ||| n == 0x1680
    ||| 0x2000 <= n <= 0x200A
    ||| n == 0x2028
    ||| n == 0x2029
    ||| n == 0x202F
    ||| n == 0x205F
    ||| n == 0x3000
}

/// `s` without the white space it starts with.
pub open spec fn trimmed_start(s: Seq<char>) -> Seq<char>
    decreases s.len(),
{
    if s.len() > 0 && is_space(s[0]) {
        trimmed_start(s.drop_first())
    } else {
        s
    }
}

/// `s` without the white space it ends with.
pub open spec fn trimmed_end(s: Seq<char>) -> Seq<char>
    decreases s.len(),
{
    if s.len() > 0 && is_space(s.last()) {
        trimmed_end(s.drop_last())
    } else {
        s
    }
}

/// `s` without the white space at either end.
pub open spec fn trimmed(s: Seq<char>) -> Seq<char> {
    trimmed_end(trimmed_start(s))
}

/// The place of the first `c` in `s`, or the length of `s` where it holds
/// none.
pub open spec fn find_char(s: Seq<char>, c: char) -> nat
    decreases s.len(),
{
    if s.len() == 0 || s[0] == c {
        0
    } else {
        1 + find_char(s.drop_first(), c)
    }
}

/// `line` without the carriage return it ends with, if it ends with one.
pub open spec fn without_cr(line: Seq<char>) -> Seq<char> {
    if line.len() > 0 && line.last() == '\r' {
        line.drop_last()
    } else {
        line
    }
}

/// The lines of `s`. A line ends with a line feed, or with a carriage
/// return and a line feed, neither of which belongs to it; the last line
/// may end with the text instead, and is then kept as it stands. Text that
/// ends with a line feed has no empty line after it.
pub open spec fn lines_of(s: Seq<char>) -> Seq<Seq<char>>
    decreases s.len(),
{
    if s.len() == 0 {
        Seq::empty()
    } else {
        let n = find_char(s, '\n');
        if n >= s.len() {
            seq![s]
        } else {
            seq![without_cr(s.take(n as int))] + lines_of(s.skip(n as int + 1))
        }
    }
}

/// The number of bytes that `c` takes in UTF-8.
pub open spec fn utf8_len(c: char) -> nat {
    let n = c as u32;
    if n < 0x80 {
        1
    } else if n < 0x800 {
        2
    } else if n < 0x1_0000 {
        3
    } else {
        4
    }
}

/// What follows the first `n` bytes of `s` in UTF-8. There is no such rest
/// where `s` is shorter than `n` bytes, or where the cut falls inside a
/// character.
pub open spec fn after_bytes(s: Seq<char>, n: nat) -> Option<Seq<char>>
    decreases s.len(),
{
    if n == 0 {
        Some(s)
    } else if s.len() == 0 || utf8_len(s[0]) > n {
        None
    } else {
        after_bytes(s.drop_first(), (n - utf8_len(s[0])) as nat)
    }
}

/// One of the ten digits.
pub open spec fn is_digit(c: char) -> bool {
    '0' <= c && c <= '9'
}

/// The number that a digit stands for.
pub open spec fn digit_of(c: char) -> int {
    c as int - '0' as int
}

/// Digits throughout.
pub open spec fn all_digits(s: Seq<char>) -> bool {
    forall|i: int| 0 <= i < s.len() ==> is_digit(#[trigger] s[i])
}

/// The number that `s` writes in base ten, the last digit counting ones.
pub open spec fn decimal(s: Seq<char>) -> int
    decreases s.len(),
{
    if s.len() == 0 {
        0
    } else {
        10 * decimal(s.drop_last()) + digit_of(s.last())
    }
}

/// The number that `s` writes, where `s` is one digit or more and
/// nothing else.
pub open spec fn magnitude(s: Seq<char>) -> Option<int> {
    if s.len() > 0 && all_digits(s) {
        Some(decimal(s))
    } else {
        None
    }
}

/// `s` without the plus sign it starts with, if it starts with one.
pub open spec fn without_plus(s: Seq<char>) -> Seq<char> {
    if s.len() > 0 && s[0] == '+' {
        s.drop_first()
    } else {
        s
    }
}

/// The unsigned 16-bit number that `s` writes: digits, with a plus sign
/// before them or none, of a value that fits.
pub open spec fn u16_of(s: Seq<char>) -> Option<u16> {
    match magnitude(without_plus(s)) {
        Some(v) => if v <= u16::MAX {
            Some(v as u16)
        } else {
            None
        },
        None => None,
    }
}

/// The signed 16-bit number that `s` writes: digits, with a plus or minus
/// sign before them or none, of a value that fits.
pub open spec fn i16_of(s: Seq<char>) -> Option<i16> {
    if s.len() > 0 && s[0] == '-' {
        match magnitude(s.drop_first()) {
            Some(v) => if v <= -(i16::MIN as int) {
                Some((-v) as i16)
            } else {
                None
            },
            None => None,
        }
    } else {
        match magnitude(without_plus(s)) {
            Some(v) => if v <= i16::MAX {
                Some(v as i16)
            } else {
                None
            },
            None => None,
        }
    }
}

/// The truth value that `s` writes: `true` or `false`, in those letters.
pub open spec fn bool_of(s: Seq<char>) -> Option<bool> {
    if s == seq!['t', 'r', 'u', 'e'] {
        Some(true)
    } else if s == seq!['f', 'a', 'l', 's', 'e'] {
        Some(false)
    } else {
        None
    }
}

/// The characters of `text`.
pub fn to_chars(text: &str) -> (chars: Vec<char>)
    ensures
        chars@ == text@,
{
    let mut chars: Vec<char> = Vec::new();
    for c in it: text.chars()
        invariant
            chars@ == it.seq().take(it.index() as int),
            it.seq() == text@,
    {
        chars.push(c);
    }
    chars
}

/// Whether `c` is white space.
pub fn is_whitespace(c: char) -> (b: bool)
    ensures
        b == is_space(c),
{
    let n: u32 = c as u32;
    (0x09 <= n && n <= 0x0D) || n == 0x20 || n == 0x85 || n == 0xA0 || n == 0x1680 || (0x2000 <= n
        && n <= 0x200A) || n == 0x2028 || n == 0x2029 || n == 0x202F || n == 0x205F || n == 0x3000
}

/// `s` without the white space at either end.
pub fn trim(s: &[char]) -> (inner: &[char])
    ensures
        inner@ == trimmed(s@),
{
    let len: usize = s.len();
    let mut lo: usize = 0;
    assert(s@.skip(0) =~= s@);
    while lo < len && is_whitespace(s[lo])
        invariant
            lo <= len,
            len == s@.len(),
            trimmed_start(s@) == trimmed_start(s@.skip(lo as int)),
        decreases len - lo,
    {
        assert(s@.skip(lo as int).drop_first() =~= s@.skip(lo + 1));
        lo += 1;
    }
    assert(trimmed_start(s@) == s@.skip(lo as int));
    let mut hi: usize = len;
    assert(s@.skip(lo as int) =~= s@.subrange(lo as int, hi as int));
    while hi > lo && is_whitespace(s[hi - 1])
        invariant
            lo <= hi <= len,
            len == s@.len(),
            trimmed(s@) == trimmed_end(s@.subrange(lo as int, hi as int)),
        decreases hi - lo,
    {
        assert(s@.subrange(lo as int, hi as int).drop_last() =~= s@.subrange(lo as int, hi - 1));
        hi -= 1;
    }
    &s[lo..hi]
}

/// Where the first `c` stands: all of `s` before `place` is free of `c`,
/// and `place` holds it or is the end.
pub proof fn lemma_find_char(s: Seq<char>, c: char, place: int)
    requires
        0 <= place <= s.len(),
        forall|j: int| 0 <= j < place ==> s[j] != c,
        place == s.len() || s[place] == c,
    ensures
        find_char(s, c) == place,
    decreases place,
{
    if place > 0 {
        let rest = s.drop_first();
        assert forall|j: int| 0 <= j < place - 1 implies rest[j] != c by {
            assert(rest[j] == s[j + 1]);
        }
        lemma_find_char(rest, c, place - 1);
    }
}

/// The place of the first `c` in `s`, or the length of `s` where it holds
/// none.
pub fn find(s: &[char], c: char) -> (place: usize)
    ensures
        place == find_char(s@, c),
        place <= s@.len(),
{
    let mut i: usize = 0;
    while i < s.len() && s[i] != c
        invariant
            i <= s@.len(),
            forall|j: int| 0 <= j < i ==> s@[j] != c,
        decreases s@.len() - i,
    {
        i += 1;
    }
    proof {
        lemma_find_char(s@, c, i as int);
    }
    i
}

/// A stretch of a text, from `start` up to `end`.
#[derive(Clone, Copy, PartialEq, Eq, Debug, Structural)]
pub struct Span {
    pub start: usize,
    pub end: usize,
}

/// The stretches `spans` of `s`.
pub open spec fn cut(s: Seq<char>, spans: Seq<Span>) -> Seq<Seq<char>> {
    Seq::new(spans.len(), |i: int| s.subrange(spans[i].start as int, spans[i].end as int))
}

/// Every span lies within a text of `len` characters.
pub open spec fn within(spans: Seq<Span>, len: nat) -> bool {
    forall|i: int| 0 <= i < spans.len() ==> (#[trigger] spans[i]).start <= spans[i].end <= len
}

/// Where the lines of `s` lie.
pub fn split_lines(s: &[char]) -> (spans: Vec<Span>)
    ensures
        within(spans@, s@.len()),
        cut(s@, spans@) == lines_of(s@),
{
    let len: usize = s.len();
    let mut spans: Vec<Span> = Vec::new();
    let mut start: usize = 0;
    assert(s@.skip(0) =~= s@);
    while start < len
        invariant
            start <= len,
            len == s@.len(),
            within(spans@, s@.len()),
            lines_of(s@) == cut(s@, spans@) + lines_of(s@.skip(start as int)),
        decreases len - start,
    {
        let ghost rest = s@.skip(start as int);
        let ghost before = spans@;
        assert(rest =~= s@.subrange(start as int, len as int));
        let n: usize = find(&s[start..len], '\n');
        let end: usize = start + n;
        if end >= len {
            spans.push(Span { start, end: len });
            assert(s@.skip(len as int).len() == 0);
            assert(cut(s@, spans@) =~= cut(s@, before) + seq![rest]);
            start = len;
        } else {
            let stop: usize = if end > start && s[end - 1] == '\r' {
                end - 1
            } else {
                end
            };
            spans.push(Span { start, end: stop });
            assert(rest.take(n as int) =~= s@.subrange(start as int, end as int));
            assert(rest.skip(n + 1) =~= s@.skip(end + 1));
            assert(without_cr(s@.subrange(start as int, end as int)) =~= s@.subrange(
                start as int,
                stop as int,
            ));
            assert(cut(s@, spans@) =~= cut(s@, before) + seq![
                without_cr(rest.take(n as int)),
            ]);
            start = end + 1;
        }
    }
    assert(cut(s@, spans@) + Seq::<Seq<char>>::empty() =~= cut(s@, spans@));
    spans
}

/// The number of bytes that `c` takes in UTF-8.
pub fn utf8_width(c: char) -> (n: usize)
    ensures
        n == utf8_len(c),
{
    let code: u32 = c as u32;
    if code < 0x80 {
        1
    } else if code < 0x800 {
        2
    } else if code < 0x1_0000 {
        3
    } else {
        4
    }
}

/// What follows the first `n` bytes of `s` in UTF-8; `None` where `s` is
/// shorter than that or the cut falls inside a character.
pub fn skip_bytes(s: &[char], n: usize) -> (rest: Option<&[char]>)
    ensures
        match after_bytes(s@, n as nat) {
            Some(r) => rest matches Some(x) && x@ == r,
            None => rest is None,
        },
{
    let len: usize = s.len();
    let mut i: usize = 0;
    let mut left: usize = n;
    assert(s@.skip(0) =~= s@);
    while left > 0
        invariant
            i <= len,
            len == s@.len(),
            after_bytes(s@, n as nat) == after_bytes(s@.skip(i as int), left as nat),
        decreases left,
    {
        if i >= len {
            return None;
        }
        let w: usize = utf8_width(s[i]);
        if w > left {
            return None;
        }
        assert(s@.skip(i as int).drop_first() =~= s@.skip(i + 1));
        left -= w;
        i += 1;
    }
    assert(s@.skip(i as int) =~= s@.subrange(i as int, len as int));
    Some(&s[i..len])
}

/// Digits write no negative number.
proof fn lemma_decimal_not_negative(s: Seq<char>)
    requires
        all_digits(s),
    ensures
        0 <= decimal(s),
    decreases s.len(),
{
    if s.len() > 0 {
        assert(is_digit(s[s.len() - 1]));
        lemma_decimal_not_negative(s.drop_last());
    }
}

/// The digits that a number starts with write no more than the whole.
proof fn lemma_decimal_grows(s: Seq<char>, i: int)
    requires
        all_digits(s),
        0 <= i <= s.len(),
    ensures
        decimal(s.take(i)) <= decimal(s),
    decreases s.len() - i,
{
    if i < s.len() {
        lemma_decimal_grows(s, i + 1);
        assert(s.take(i + 1).drop_last() =~= s.take(i));
        assert(is_digit(s[i]));
        lemma_decimal_not_negative(s.take(i));
    } else {
        assert(s.take(i) =~= s);
    }
}

/// The number that the digits `s` write, where it is no more than `limit`.
fn read_magnitude(s: &[char], limit: u32) -> (value: Option<u32>)
    requires
        limit <= 0x1_0000,
    ensures
        value == match magnitude(s@) {
            Some(v) => if v <= limit {
                Some(v as u32)
            } else {
                None
            },
            None => None,
        },
        magnitude(s@) matches Some(v) ==> 0 <= v,
{
    let len: usize = s.len();
    if len == 0 {
        return None;
    }
    let mut acc: u32 = 0;
    let mut i: usize = 0;
    while i < len
        invariant
            i <= len,
            len == s@.len(),
            limit <= 0x1_0000,
            all_digits(s@.take(i as int)),
            acc == decimal(s@.take(i as int)),
            acc <= limit,
        decreases len - i,
    {
        let c: char = s[i];
        if !(c >= '0' && c <= '9') {
            assert(!is_digit(s@[i as int]));
            return None;
        }
        let digit: u32 = c as u32 - '0' as u32;
        let next: u32 = acc * 10 + digit;
        proof {
            let grown = s@.take(i + 1);
            assert(grown.drop_last() =~= s@.take(i as int));
            assert(grown.last() == c);
            assert(decimal(grown) == next);
            assert forall|j: int| 0 <= j < grown.len() implies is_digit(#[trigger] grown[j]) by {
                if j < i {
                    assert(grown[j] == s@.take(i as int)[j]);
                }
            }
        }
        if next > limit {
            proof {
                if all_digits(s@) {
                    lemma_decimal_grows(s@, i + 1);
                }
            }
            return None;
        }
        acc = next;
        i += 1;
    }
    assert(s@.take(len as int) =~= s@);
    Some(acc)
}

/// The unsigned 16-bit number that `s` writes.
pub fn parse_u16(s: &[char]) -> (value: Option<u16>)
    ensures
        value == u16_of(s@),
{
    let len: usize = s.len();
    let digits: &[char] = if len > 0 && s[0] == '+' {
        &s[1..len]
    } else {
        s
    };
    assert(digits@ =~= without_plus(s@));
    match read_magnitude(digits, 0xFFFF) {
        Some(v) => Some(v as u16),
        None => None,
    }
}

/// The signed 16-bit number that `s` writes.
pub fn parse_i16(s: &[char]) -> (value: Option<i16>)
    ensures
        value == i16_of(s@),
{
    let len: usize = s.len();
    if len > 0 && s[0] == '-' {
        let digits: &[char] = &s[1..len];
        assert(digits@ =~= s@.drop_first());
        match read_magnitude(digits, 0x8000) {
            Some(v) => Some((0 - v as i32) as i16),
            None => None,
        }
    } else {
        let digits: &[char] = if len > 0 && s[0] == '+' {
            &s[1..len]
        } else {
            s
        };
        assert(digits@ =~= without_plus(s@));
        match read_magnitude(digits, 0x7FFF) {
            Some(v) => Some(v as i16),
            None => None,
        }
    }
}

/// The truth value that `s` writes.
pub fn parse_bool(s: &[char]) -> (value: Option<bool>)
    ensures
        value == bool_of(s@),
{
    let len: usize = s.len();
    if len == 4 && s[0] == 't' && s[1] == 'r' && s[2] == 'u' && s[3] == 'e' {
        assert(s@ =~= seq!['t', 'r', 'u', 'e']);
        Some(true)
    } else if len == 5 && s[0] == 'f' && s[1] == 'a' && s[2] == 'l' && s[3] == 's' && s[4] == 'e' {
        assert(s@ =~= seq!['f', 'a', 'l', 's', 'e']);
        Some(false)
    } else {
        proof {
            let yes = seq!['t', 'r', 'u', 'e'];
            let no = seq!['f', 'a', 'l', 's', 'e'];
            if s@ == yes {
                assert(s@[0] == yes[0] && s@[1] == yes[1] && s@[2] == yes[2] && s@[3] == yes[3]);
            }
            if s@ == no {
                assert(s@[0] == no[0] && s@[1] == no[1] && s@[2] == no[2] && s@[3] == no[3]
                    && s@[4] == no[4]);
            }
        }
        None
    }
}

/// White space throughout.
pub open spec fn all_space(s: Seq<char>) -> bool {
    forall|i: int| 0 <= i < s.len() ==> is_space(#[trigger] s[i])
}

/// Nothing, or text with no white space at either end.
pub open spec fn is_tight(s: Seq<char>) -> bool {
    s.len() == 0 || (!is_space(s[0]) && !is_space(s.last()))
}

/// White space before a text does not count at its start.
proof fn lemma_trimmed_start_passes(space: Seq<char>, s: Seq<char>)
    requires
        all_space(space),
    ensures
        trimmed_start(space + s) == trimmed_start(s),
    decreases space.len(),
{
    if space.len() > 0 {
        assert(is_space(space[0]));
        assert((space + s).drop_first() =~= space.drop_first() + s);
        assert forall|i: int| 0 <= i < space.drop_first().len() implies is_space(
            #[trigger] space.drop_first()[i],
        ) by {
            assert(space.drop_first()[i] == space[i + 1]);
        }
        lemma_trimmed_start_passes(space.drop_first(), s);
    } else {
        assert(space + s =~= s);
    }
}

/// White space after a text does not count at its end.
proof fn lemma_trimmed_end_passes(s: Seq<char>, space: Seq<char>)
    requires
        all_space(space),
    ensures
        trimmed_end(s + space) == trimmed_end(s),
    decreases space.len(),
{
    if space.len() > 0 {
        assert(is_space(space[space.len() - 1]));
        assert((s + space).drop_last() =~= s + space.drop_last());
        assert forall|i: int| 0 <= i < space.drop_last().len() implies is_space(
            #[trigger] space.drop_last()[i],
        ) by {
            assert(space.drop_last()[i] == space[i]);
        }
        lemma_trimmed_end_passes(s, space.drop_last());
    } else {
        assert(s + space =~= s);
    }
}

/// Trimming takes off the white space around a text and nothing else:
/// whatever white space stands before and after `inner`, what is left is
/// `inner`.
pub proof fn lemma_trimmed_drops_padding(before: Seq<char>, inner: Seq<char>, after: Seq<char>)
    requires
        all_space(before),
        all_space(after),
        is_tight(inner),
    ensures
        trimmed(before + inner + after) == inner,
{
    let empty = Seq::<char>::empty();
    assert(before + inner + after =~= before + (inner + after));
    lemma_trimmed_start_passes(before, inner + after);
    if inner.len() == 0 {
        assert(inner + after =~= after + empty);
        lemma_trimmed_start_passes(after, empty);
        assert(trimmed_start(inner + after) == empty);
        assert(inner =~= empty);
    } else {
        assert((inner + after)[0] == inner[0]);
        assert(trimmed_start(inner + after) == inner + after);
        lemma_trimmed_end_passes(inner, after);
    }
}

} // verus!
