//! The written form of an atlas: what a description of given regions looks
//! like as text, and the law that reading that text gives the regions back.

use vstd::prelude::*;
use crate::atlas::{
    collect, distinct, index_at, is_indented, lemma_distinct_records_all_stay,
    lemma_pair_reads_trimmed_halves, lemma_plain_lines, names_of, pair_at, pair_of, payload_of,
    records_of, rotate_at, texture_of, AtlasError, Entry, Texture, FIELD_LINES,
    INDEX_PREFIX, OFFSET_PREFIX, ORIG_PREFIX, ROTATE_PREFIX, SIZE_PREFIX, XY_PREFIX,
};
use crate::text::{
    after_bytes, all_digits, all_space, bool_of, decimal, digit_of, i16_of, is_digit,
    is_space, is_tight, lemma_find_char, lemma_trimmed_drops_padding, lines_of, magnitude,
    trimmed, u16_of, utf8_len, without_cr, without_plus,
};

verus! {

/// The digit that stands for `d`.
pub open spec fn digit_char(d: nat) -> char {
    (d + 48) as u8 as char
}

/// `n` in base ten, without leading zeros.
pub open spec fn digits_of(n: nat) -> Seq<char>
    decreases n,
{
    if n < 10 {
        seq![digit_char(n)]
    } else {
        digits_of(n / 10).push(digit_char(n % 10))
    }
}

/// `i` in base ten, with a minus sign where it is negative.
pub open spec fn signed_digits_of(i: int) -> Seq<char> {
    if i < 0 {
        seq!['-'] + digits_of((-i) as nat)
    } else {
        digits_of(i as nat)
    }
}

/// The digits of a number are digits, at least one, and write that number.
pub proof fn lemma_digits_write_the_number(n: nat)
    ensures
        digits_of(n).len() > 0,
        all_digits(digits_of(n)),
        decimal(digits_of(n)) == n,
        magnitude(digits_of(n)) == Some(n as int),
    decreases n,
{
    if n < 10 {
        let s = digits_of(n);
        assert(s.drop_last() =~= Seq::<char>::empty());
        assert(decimal(s.drop_last()) == 0);
        assert(digit_of(s.last()) == n);
    } else {
        lemma_digits_write_the_number(n / 10);
        let s = digits_of(n);
        let before = digits_of(n / 10);
        assert(s.drop_last() =~= before);
        assert(digit_of(s.last()) == n % 10);
        assert forall|i: int| 0 <= i < s.len() implies is_digit(#[trigger] s[i]) by {
            if i < before.len() {
                assert(s[i] == before[i]);
            }
        }
    }
}

/// An unsigned 16-bit number reads back from its digits.
pub proof fn lemma_u16_reads_back(n: u16)
    ensures
        u16_of(digits_of(n as nat)) == Some(n),
{
    lemma_digits_write_the_number(n as nat);
    let s = digits_of(n as nat);
    assert(is_digit(s[0]));
    assert(without_plus(s) == s);
}

/// A signed 16-bit number reads back from its sign and digits.
pub proof fn lemma_i16_reads_back(i: i16)
    ensures
        i16_of(signed_digits_of(i as int)) == Some(i),
{
    let s = signed_digits_of(i as int);
    if i < 0 {
        let d = digits_of((-i) as nat);
        lemma_digits_write_the_number((-i) as nat);
        assert(s[0] == '-');
        assert(s.drop_first() =~= d);
    } else {
        lemma_digits_write_the_number(i as nat);
        assert(is_digit(s[0]));
        assert(without_plus(s) == s);
    }
}

/// Neither a line feed nor a carriage return anywhere: text that can stand
/// as one line.
pub open spec fn is_one_line(s: Seq<char>) -> bool {
    forall|i: int| 0 <= i < s.len() ==> #[trigger] s[i] != '\n' && s[i] != '\r'
}

/// No byte beyond the first 128: each character takes one byte.
pub open spec fn is_ascii(s: Seq<char>) -> bool {
    forall|i: int| 0 <= i < s.len() ==> ((#[trigger] s[i]) as u32) < 0x80
}

/// A truth value in words.
pub open spec fn bool_text(value: bool) -> Seq<char> {
    if value {
        "true"@
    } else {
        "false"@
    }
}

/// A pair as two numbers with a comma and a space between them.
pub open spec fn pair_text(pair: (u16, u16)) -> Seq<char> {
    digits_of(pair.0 as nat) + ", "@ + digits_of(pair.1 as nat)
}

/// A field's line: two spaces, the field's name with its colon, a space,
/// the value.
pub open spec fn field_line(name: Seq<char>, value: Seq<char>) -> Seq<char> {
    "  "@ + name + " "@ + value
}

/// The six field lines of a texture.
pub open spec fn field_lines(texture: Texture) -> Seq<Seq<char>> {
    seq![
        field_line("rotate:"@, bool_text(texture.rotate)),
        field_line("xy:"@, pair_text(texture.xy)),
        field_line("size:"@, pair_text(texture.size)),
        field_line("orig:"@, pair_text(texture.orig)),
        field_line("offset:"@, pair_text(texture.offset)),
        field_line("index:"@, signed_digits_of(texture.index as int)),
    ]
}

/// The lines that describe `regions`: for each, its name on a line of its
/// own and its six field lines.
pub open spec fn lines_for(regions: Seq<Entry>) -> Seq<Seq<char>>
    decreases regions.len(),
{
    if regions.len() == 0 {
        Seq::empty()
    } else {
        seq![regions[0].0] + field_lines(regions[0].1) + lines_for(regions.drop_first())
    }
}

/// `lines` as one text, each line ended by a line feed.
pub open spec fn joined(lines: Seq<Seq<char>>) -> Seq<char>
    decreases lines.len(),
{
    if lines.len() == 0 {
        Seq::empty()
    } else {
        lines[0] + seq!['\n'] + joined(lines.drop_first())
    }
}

/// The text that describes `regions`.
pub open spec fn written(regions: Seq<Entry>) -> Seq<char> {
    joined(lines_for(regions))
}

/// What can stand as a region's name: one line that does not start with a
/// tab or a space.
pub open spec fn is_name(name: Seq<char>) -> bool {
    is_one_line(name) && !is_indented(name)
}

/// The field names are as long as the parser takes them to be.
pub proof fn lemma_field_names_have_their_lengths()
    ensures
        "rotate:"@.len() == ROTATE_PREFIX,
        "xy:"@.len() == XY_PREFIX,
        "size:"@.len() == SIZE_PREFIX,
        "orig:"@.len() == ORIG_PREFIX,
        "offset:"@.len() == OFFSET_PREFIX,
        "index:"@.len() == INDEX_PREFIX,
{
    reveal_strlit("rotate:");
    reveal_strlit("xy:");
    reveal_strlit("size:");
    reveal_strlit("orig:");
    reveal_strlit("offset:");
    reveal_strlit("index:");
}

/// Lines put together as one text come apart as the same lines.
pub proof fn lemma_joined_lines_come_apart(lines: Seq<Seq<char>>)
    requires
        forall|i: int| 0 <= i < lines.len() ==> is_one_line(#[trigger] lines[i]),
    ensures
        lines_of(joined(lines)) == lines,
    decreases lines.len(),
{
    if lines.len() > 0 {
        let first = lines[0];
        let rest = lines.drop_first();
        let text = joined(lines);
        let stop = first.len() as int;
        assert(is_one_line(first));
        assert forall|j: int| 0 <= j < stop implies text[j] != '\n' by {
            assert(text[j] == first[j]);
        }
        assert(text[stop] == '\n');
        lemma_find_char(text, '\n', stop);
        assert(text.take(stop) =~= first);
        assert(text.skip(stop + 1) =~= joined(rest));
        if first.len() > 0 {
            assert(first[first.len() - 1] != '\r');
        }
        assert(without_cr(first) == first);
        assert forall|i: int| 0 <= i < rest.len() implies is_one_line(#[trigger] rest[i]) by {
            assert(rest[i] == lines[i + 1]);
        }
        lemma_joined_lines_come_apart(rest);
        assert(seq![first] + rest =~= lines);
    }
}

/// One-byte characters are cut off one by one.
proof fn lemma_after_ascii(prefix: Seq<char>, rest: Seq<char>)
    requires
        is_ascii(prefix),
    ensures
        after_bytes(prefix + rest, prefix.len()) == Some(rest),
    decreases prefix.len(),
{
    if prefix.len() > 0 {
        assert((prefix + rest)[0] == prefix[0]);
        assert(utf8_len(prefix[0]) == 1);
        assert((prefix + rest).drop_first() =~= prefix.drop_first() + rest);
        assert forall|i: int| 0 <= i < prefix.drop_first().len() implies ((
        #[trigger] prefix.drop_first()[i]) as u32) < 0x80 by {
            assert(prefix.drop_first()[i] == prefix[i + 1]);
        }
        lemma_after_ascii(prefix.drop_first(), rest);
    } else {
        assert(prefix + rest =~= rest);
    }
}

/// What a written field line holds after its name is a space and the
/// value.
proof fn lemma_field_line_payload(name: Seq<char>, value: Seq<char>)
    requires
        is_ascii(name),
        name.len() > 0,
        !is_space(name[0]),
        value.len() > 0,
        !is_space(value.last()),
    ensures
        payload_of(field_line(name, value), name.len()) == Some(" "@ + value),
        is_indented(field_line(name, value)),
{
    reveal_strlit("  ");
    reveal_strlit(" ");
    let indent = "  "@;
    let inner = name + " "@ + value;
    let none = Seq::<char>::empty();
    assert(field_line(name, value) =~= indent + inner + none);
    assert(inner[0] == name[0]);
    assert(inner.last() == value.last());
    assert(all_space(indent)) by {
        assert(is_space(' '));
    }
    lemma_trimmed_drops_padding(indent, inner, none);
    assert(inner =~= name + (" "@ + value));
    lemma_after_ascii(name, " "@ + value);
    assert(field_line(name, value)[0] == ' ');
}

/// A value after one space reads as the value.
proof fn lemma_space_before_value(value: Seq<char>)
    requires
        is_tight(value),
    ensures
        trimmed(" "@ + value) == value,
{
    reveal_strlit(" ");
    let none = Seq::<char>::empty();
    assert(" "@ + value =~= " "@ + value + none);
    assert(all_space(" "@)) by {
        assert(is_space(' '));
    }
    lemma_trimmed_drops_padding(" "@, value, none);
}

/// Digits hold no white space and no comma, and are tight.
proof fn lemma_digits_are_tight(n: nat)
    ensures
        is_tight(digits_of(n)),
        !digits_of(n).contains(','),
        !(" "@ + digits_of(n)).contains(','),
        !is_space(digits_of(n).last()),
        digits_of(n).len() > 0,
        is_one_line(digits_of(n)),
{
    reveal_strlit(" ");
    lemma_digits_write_the_number(n);
    let d = digits_of(n);
    assert(is_digit(d[0]));
    assert(is_digit(d[d.len() - 1]));
    assert forall|i: int| 0 <= i < d.len() implies d[i] != ',' && d[i] != '\n' && d[i]
        != '\r' by {
        assert(is_digit(d[i]));
    }
    let padded = " "@ + d;
    assert forall|i: int| 0 <= i < padded.len() implies padded[i] != ',' by {
        if i > 0 {
            assert(padded[i] == d[i - 1]);
        }
    }
}

/// A written pair reads back.
proof fn lemma_pair_reads_back(pair: (u16, u16))
    ensures
        pair_of(" "@ + pair_text(pair)) == Some(pair),
        !is_space(pair_text(pair).last()),
        pair_text(pair).len() > 0,
        is_one_line(pair_text(pair)),
{
    reveal_strlit(" ");
    reveal_strlit(", ");
    let a = digits_of(pair.0 as nat);
    let b = digits_of(pair.1 as nat);
    lemma_digits_are_tight(pair.0 as nat);
    lemma_digits_are_tight(pair.1 as nat);
    lemma_u16_reads_back(pair.0);
    lemma_u16_reads_back(pair.1);
    let first = " "@ + a;
    let second = " "@ + b;
    assert(" "@ + pair_text(pair) =~= first + seq![','] + second);
    lemma_pair_reads_trimmed_halves(first, second);
    lemma_space_before_value(a);
    lemma_space_before_value(b);
    let text = pair_text(pair);
    assert(text.last() == b.last());
    assert forall|i: int| 0 <= i < text.len() implies #[trigger] text[i] != '\n' && text[i]
        != '\r' by {
        if i < a.len() {
            assert(text[i] == a[i]);
        } else if i >= a.len() + 2 {
            assert(text[i] == b[i - a.len() - 2]);
        }
    }
}

/// The written line of a truth value reads back.
proof fn lemma_rotate_line_reads_back(value: bool)
    ensures
        payload_of(field_line("rotate:"@, bool_text(value)), ROTATE_PREFIX as nat) == Some(
            " "@ + bool_text(value),
        ),
        bool_of(trimmed(" "@ + bool_text(value))) == Some(value),
        is_indented(field_line("rotate:"@, bool_text(value))),
        is_one_line(field_line("rotate:"@, bool_text(value))),
{
    reveal_strlit("rotate:");
    reveal_strlit("true");
    reveal_strlit("false");
    reveal_strlit("  ");
    reveal_strlit(" ");
    let name = "rotate:"@;
    let text = bool_text(value);
    assert("true"@ =~= seq!['t', 'r', 'u', 'e']);
    assert("false"@ =~= seq!['f', 'a', 'l', 's', 'e']);
    assert(seq!['t', 'r', 'u', 'e'] != seq!['f', 'a', 'l', 's', 'e']) by {
        assert(seq!['t', 'r', 'u', 'e'].len() != seq!['f', 'a', 'l', 's', 'e'].len());
    }
    lemma_field_line_payload(name, text);
    lemma_space_before_value(text);
    lemma_line_of_plain_parts(name, text);
}

/// A field line made of a name and a value that are each one line is one
/// line.
proof fn lemma_line_of_plain_parts(name: Seq<char>, value: Seq<char>)
    requires
        is_one_line(name),
        is_one_line(value),
    ensures
        is_one_line(field_line(name, value)),
{
    reveal_strlit("  ");
    reveal_strlit(" ");
    let line = field_line(name, value);
    assert forall|i: int| 0 <= i < line.len() implies #[trigger] line[i] != '\n' && line[i]
        != '\r' by {
        if i < 2 {
        } else if i < 2 + name.len() {
            assert(line[i] == name[i - 2]);
        } else if i == 2 + name.len() {
        } else {
            assert(line[i] == value[i - 3 - name.len()]);
        }
    }
}

/// The written line of a pair reads back, under any field name that is
/// one line of one-byte characters.
proof fn lemma_pair_line_reads_back(name: Seq<char>, pair: (u16, u16))
    requires
        is_ascii(name),
        is_one_line(name),
        name.len() > 0,
        !is_space(name[0]),
    ensures
        payload_of(field_line(name, pair_text(pair)), name.len()) == Some(
            " "@ + pair_text(pair),
        ),
        pair_of(" "@ + pair_text(pair)) == Some(pair),
        is_indented(field_line(name, pair_text(pair))),
        is_one_line(field_line(name, pair_text(pair))),
{
    lemma_pair_reads_back(pair);
    lemma_field_line_payload(name, pair_text(pair));
    lemma_line_of_plain_parts(name, pair_text(pair));
}

/// The written line of a signed number reads back.
proof fn lemma_index_line_reads_back(index: i16)
    ensures
        payload_of(field_line("index:"@, signed_digits_of(index as int)), INDEX_PREFIX as nat)
            == Some(" "@ + signed_digits_of(index as int)),
        i16_of(trimmed(" "@ + signed_digits_of(index as int))) == Some(index),
        is_indented(field_line("index:"@, signed_digits_of(index as int))),
        is_one_line(field_line("index:"@, signed_digits_of(index as int))),
{
    reveal_strlit("index:");
    let name = "index:"@;
    let text = signed_digits_of(index as int);
    let magnitude = if index < 0 {
        (-index) as nat
    } else {
        index as nat
    };
    let d = digits_of(magnitude);
    lemma_digits_are_tight(magnitude);
    lemma_digits_write_the_number(magnitude);
    assert(text.last() == d.last());
    assert(!is_space(text[0])) by {
        if index >= 0 {
            assert(is_digit(d[0]));
        }
    }
    assert forall|i: int| 0 <= i < text.len() implies #[trigger] text[i] != '\n' && text[i]
        != '\r' by {
        if index < 0 {
            if i > 0 {
                assert(text[i] == d[i - 1]);
            }
        }
    }
    lemma_field_line_payload(name, text);
    lemma_space_before_value(text);
    lemma_i16_reads_back(index);
    lemma_line_of_plain_parts(name, text);
}

/// The six written field lines of a texture read back as that texture,
/// whatever lines follow them; each is one line, and the first is
/// indented.
pub proof fn lemma_field_lines_read_back(texture: Texture, rest: Seq<Seq<char>>)
    ensures
        texture_of(field_lines(texture) + rest) == Ok::<Texture, AtlasError>(texture),
        field_lines(texture).len() == FIELD_LINES,
        is_indented(field_lines(texture)[0]),
        forall|k: int| 0 <= k < FIELD_LINES ==> is_one_line(#[trigger] field_lines(texture)[k]),
{
    reveal(texture_of);
    reveal_strlit("xy:");
    reveal_strlit("size:");
    reveal_strlit("orig:");
    reveal_strlit("offset:");
    let lines = field_lines(texture);
    let block = lines + rest;
    assert(block[0] == lines[0]);
    assert(block[1] == lines[1]);
    assert(block[2] == lines[2]);
    assert(block[3] == lines[3]);
    assert(block[4] == lines[4]);
    assert(block[5] == lines[5]);
    lemma_rotate_line_reads_back(texture.rotate);
    lemma_pair_line_reads_back("xy:"@, texture.xy);
    lemma_pair_line_reads_back("size:"@, texture.size);
    lemma_pair_line_reads_back("orig:"@, texture.orig);
    lemma_pair_line_reads_back("offset:"@, texture.offset);
    lemma_index_line_reads_back(texture.index);
    assert(rotate_at(block, 0) == Ok::<bool, AtlasError>(texture.rotate));
    assert(pair_at(block, 1, XY_PREFIX as nat) == Ok::<(u16, u16), AtlasError>(texture.xy));
    assert(pair_at(block, 2, SIZE_PREFIX as nat) == Ok::<(u16, u16), AtlasError>(texture.size));
    assert(pair_at(block, 3, ORIG_PREFIX as nat) == Ok::<(u16, u16), AtlasError>(texture.orig));
    assert(pair_at(block, 4, OFFSET_PREFIX as nat) == Ok::<(u16, u16), AtlasError>(
        texture.offset,
    ));
    assert(index_at(block, 5) == Ok::<i16, AtlasError>(texture.index));
}

/// The lines written for regions read back as those regions, in their
/// order.
pub proof fn lemma_written_lines_read_back(regions: Seq<Entry>)
    requires
        forall|k: int| 0 <= k < regions.len() ==> is_name((#[trigger] regions[k]).0),
    ensures
        records_of(lines_for(regions)) == Ok::<Seq<Entry>, AtlasError>(regions),
        forall|i: int|
            0 <= i < lines_for(regions).len() ==> is_one_line(#[trigger] lines_for(regions)[i]),
    decreases regions.len(),
{
    if regions.len() == 0 {
        assert(lines_for(regions) =~= Seq::<Seq<char>>::empty());
        assert(regions =~= Seq::<Entry>::empty());
    } else {
        let name = regions[0].0;
        let texture = regions[0].1;
        let others = regions.drop_first();
        let after = lines_for(others);
        let lines = lines_for(regions);
        assert forall|k: int| 0 <= k < others.len() implies is_name((#[trigger] others[k]).0) by {
            assert(others[k] == regions[k + 1]);
        }
        lemma_written_lines_read_back(others);
        lemma_field_lines_read_back(texture, after);
        assert(is_name(name));
        assert(lines[0] == name);
        assert(lines[1] == field_lines(texture)[0]);
        assert(forall|j: int| 0 <= j < 1 ==> !is_indented(lines[j]));
        lemma_plain_lines(lines, 1);
        assert(lines.skip(1) =~= field_lines(texture) + after);
        assert(lines.skip(1 + FIELD_LINES as int) =~= after);
        assert(seq![(name, texture)] + others =~= regions);
        assert forall|i: int| 0 <= i < lines.len() implies is_one_line(#[trigger] lines[i]) by {
            if i == 0 {
            } else if i <= FIELD_LINES {
                assert(lines[i] == field_lines(texture)[i - 1]);
            } else {
                assert(lines[i] == after[i - 1 - FIELD_LINES]);
            }
        }
    }
}

/// Reading what was written gives back what was written: the text that
/// describes `n` regions under `n` names, each a name that can stand on a
/// line, reads as an atlas of exactly those regions in that order.
pub proof fn lemma_written_atlas_reads_back(regions: Seq<Entry>)
    requires
        forall|k: int| 0 <= k < regions.len() ==> is_name((#[trigger] regions[k]).0),
        distinct(names_of(regions)),
    ensures
        records_of(lines_of(written(regions))) == Ok::<Seq<Entry>, AtlasError>(regions),
        collect(regions) == regions,
        collect(regions).len() == regions.len(),
{
    lemma_written_lines_read_back(regions);
    lemma_joined_lines_come_apart(lines_for(regions));
    lemma_distinct_records_all_stay(regions);
}

} // verus!
